//! The coordinate-file parser.
//!
//! A file is a sequence of text lines; an optional header of one
//! single-character line plus one comment line is skipped; every other
//! line must hold exactly four whitespace-separated tokens: an element
//! symbol and three decimal coordinates.

use vstd::prelude::*;
use crate::geom::{clamp_coord, coord_in_range, Point3, COORD_LIMIT};
use crate::elements::{spec_symbol_index, symbol_index};
use crate::molecule::{atom_wf, Atom};

verus! {

/// Why a coordinate file was rejected.
#[derive(Clone, Copy, PartialEq, Eq, Structural, Debug)]
pub enum ParseError {
    /// The file could not be read at all.
    IoError,
    /// A data line does not hold exactly four tokens.
    FormatError,
    /// A symbol token is not in the element table.
    UnknownElementError,
    /// A coordinate token is not a decimal number.
    NumberFormatError,
}

pub open spec fn is_digit(b: u8) -> bool {
    48 <= b && b <= 57
}

pub open spec fn all_digits(s: Seq<u8>) -> bool {
    forall|k: int| 0 <= k < s.len() ==> is_digit(#[trigger] s[k])
}

/// Index of the first occurrence of byte `b`, or the length when `b`
/// does not occur.
pub open spec fn first_byte_pos(s: Seq<u8>, b: u8) -> int
    decreases s.len(),
{
    if s.len() == 0 {
        0
    } else if s[0] == b {
        0
    } else {
        1 + first_byte_pos(s.skip(1), b)
    }
}

proof fn lemma_first_byte_pos(s: Seq<u8>, b: u8)
    ensures
        0 <= first_byte_pos(s, b) <= s.len(),
        forall|k: int| 0 <= k < first_byte_pos(s, b) ==> s[k] != b,
        first_byte_pos(s, b) < s.len() ==> s[first_byte_pos(s, b)] == b,
    decreases s.len(),
{
    if s.len() == 0 {
    } else if s[0] == b {
    } else {
        lemma_first_byte_pos(s.skip(1), b);
        assert forall|k: int| 0 <= k < first_byte_pos(s, b) implies s[k] != b by {
            if k > 0 {
                assert(s.skip(1)[k - 1] == s[k]);
            }
        }
        if first_byte_pos(s, b) < s.len() {
            assert(s.skip(1)[first_byte_pos(s, b) - 1] == s[first_byte_pos(s, b)]);
        }
    }
}

/// The first occurrence is the one index with no occurrence before it.
proof fn lemma_first_byte_pos_unique(s: Seq<u8>, b: u8, m: int)
    requires
        0 <= m <= s.len(),
        forall|k: int| 0 <= k < m ==> s[k] != b,
        m < s.len() ==> s[m] == b,
    ensures
        first_byte_pos(s, b) == m,
{
    lemma_first_byte_pos(s, b);
    let p = first_byte_pos(s, b);
    if p < m {
        assert(s[p] != b);
    } else if m < p {
        assert(s[m] != b);
    }
}

/// Digits read most-significant first, as a mathematical integer.
pub open spec fn digits_value(s: Seq<u8>) -> int
    decreases s.len(),
{
    if s.len() == 0 {
        0
    } else {
        digits_value(s.drop_last()) * 10 + (s.last() - 48)
    }
}

pub open spec fn pow10(k: int) -> int
    decreases k,
{
    if k <= 0 {
        1
    } else {
        10 * pow10(k - 1)
    }
}

proof fn lemma_pow10_upto6()
    ensures
        pow10(0) == 1,
        pow10(1) == 10,
        pow10(2) == 100,
        pow10(3) == 1000,
        pow10(4) == 10_000,
        pow10(5) == 100_000,
        pow10(6) == 1_000_000,
{
    reveal_with_fuel(pow10, 8);
}

proof fn lemma_digits_value_bound(s: Seq<u8>)
    requires
        all_digits(s),
    ensures
        0 <= digits_value(s) < pow10(s.len() as int),
    decreases s.len(),
{
    if s.len() == 0 {
    } else {
        assert forall|k: int| 0 <= k < s.drop_last().len() implies is_digit(
            #[trigger] s.drop_last()[k],
        ) by {
            assert(s.drop_last()[k] == s[k]);
        }
        lemma_digits_value_bound(s.drop_last());
        assert(is_digit(s.last()));
    }
}

/// The byte the dot is written with.
pub const DOT: u8 = 46;

/// The magnitude part of a number token: the token without its one
/// optional leading sign.
pub open spec fn num_body(t: Seq<u8>) -> Seq<u8> {
    if t.len() > 0 && (t[0] == 43u8 || t[0] == 45u8) {
        t.skip(1)
    } else {
        t
    }
}

pub open spec fn num_negative(t: Seq<u8>) -> bool {
    t.len() > 0 && t[0] == 45u8
}

/// Digits before the dot of a magnitude.
pub open spec fn int_digits(s: Seq<u8>) -> Seq<u8> {
    s.take(first_byte_pos(s, DOT))
}

/// Digits after the dot of a magnitude; empty when there is no dot.
pub open spec fn frac_digits(s: Seq<u8>) -> Seq<u8> {
    if first_byte_pos(s, DOT) < s.len() {
        s.skip(first_byte_pos(s, DOT) + 1)
    } else {
        Seq::empty()
    }
}

/// A decimal number token: an optional sign, then digits with at most
/// one dot among them and at least one digit in all.
pub open spec fn is_number_token(t: Seq<u8>) -> bool {
    let body = num_body(t);
    body.len() > 0 && all_digits(int_digits(body)) && all_digits(frac_digits(body)) && int_digits(
        body,
    ).len() + frac_digits(body).len() >= 1
}

/// Fixed-point value of the fraction digits: the first six digits scaled
/// so that six digits fill one unit; digits past the sixth are dropped.
pub open spec fn frac_micros(f: Seq<u8>) -> int {
    if f.len() >= 6 {
        digits_value(f.take(6))
    } else {
        digits_value(f) * pow10(6 - f.len())
    }
}

/// Mathematical value of a number token in fixed-point steps, before
/// range clamping.
pub open spec fn number_value_micros(t: Seq<u8>) -> int {
    let body = num_body(t);
    let mag = digits_value(int_digits(body)) * 1_000_000 + frac_micros(frac_digits(body));
    if num_negative(t) {
        -mag
    } else {
        mag
    }
}

/// Integer-digit accumulators saturate here: any saturated magnitude is
/// already past the coordinate band.
const INT_SENTINEL: i64 = 10_000_000;

/// Parse one coordinate token into fixed-point steps, clamped into the
/// representable band; any token that is not a decimal number is
/// rejected.
#[verifier::rlimit(100)]
#[verifier::loop_isolation(false)]
pub fn parse_number(t: &[u8]) -> (r: Result<i64, ParseError>)
    ensures
        r is Ok <==> is_number_token(t@),
        r matches Ok(v) ==> v as int == clamp_coord(number_value_micros(t@)) && coord_in_range(
            v as int,
        ),
        r is Err ==> r == Err::<i64, ParseError>(ParseError::NumberFormatError),
{
    let n = t.len();
    let mut p: usize = 0;
    let mut neg = false;
    if n > 0 && (t[0] == 43 || t[0] == 45) {
        neg = t[0] == 45;
        p = 1;
    }
    let ghost body = t@.skip(p as int);
    proof {
        assert(body =~= num_body(t@));
        assert(neg == num_negative(t@));
    }
    if p == n {
        return Err(ParseError::NumberFormatError);
    }
    // scan the integer digits up to a dot or the end
    let mut i: usize = p;
    let mut acc: i64 = 0;
    while i < n && t[i] != DOT
        invariant
            p <= i <= n,
            n == t@.len(),
            body == t@.skip(p as int),
            forall|k: int| p <= k < i ==> is_digit(#[trigger] t@[k]) && t@[k] != DOT,
            0 <= acc <= INT_SENTINEL,
            digits_value(t@.subrange(p as int, i as int)) <= INT_SENTINEL as int ==> acc as int
                == digits_value(t@.subrange(p as int, i as int)),
            digits_value(t@.subrange(p as int, i as int)) > INT_SENTINEL as int ==> acc
                == INT_SENTINEL,
            all_digits(t@.subrange(p as int, i as int)),
        decreases n - i,
    {
        let b = t[i];
        if !(48 <= b && b <= 57) {
            proof {
                lemma_first_byte_pos(body, DOT);
                assert(body[i - p] == b);
                let dp = first_byte_pos(body, DOT);
                if dp < i - p {
                    assert(body[dp] == t@[p + dp]);
                    assert(false);
                }
                assert(dp > i - p);
                assert(int_digits(body)[i - p] == b);
                assert(!all_digits(int_digits(body)));
                assert(!is_number_token(t@));
            }
            return Err(ParseError::NumberFormatError);
        }
        let ghost pre = t@.subrange(p as int, i as int);
        let ghost post = t@.subrange(p as int, i as int + 1);
        proof {
            assert(post.drop_last() =~= pre);
            assert(post.last() == b);
            lemma_digits_value_bound(pre);
        }
        let step = acc * 10 + (b - 48) as i64;
        acc = if step > INT_SENTINEL {
            INT_SENTINEL
        } else {
            step
        };
        i += 1;
        proof {
            assert(t@.subrange(p as int, i as int) == post);
        }
    }
    let ghost dp = first_byte_pos(body, DOT);
    proof {
        assert forall|k: int| 0 <= k < i - p implies body[k] != DOT by {
            assert(body[k] == t@[p + k]);
        }
        if i < n {
            assert(body[i - p] == t@[i as int]);
        }
        lemma_first_byte_pos_unique(body, DOT, i - p);
        assert(int_digits(body) =~= t@.subrange(p as int, i as int));
    }
    if i == p && i + 1 >= n {
        // a lone dot, or a sign and a dot: no digit anywhere
        proof {
            assert(int_digits(body).len() == 0);
            assert(frac_digits(body).len() == 0);
        }
        return Err(ParseError::NumberFormatError);
    }
    // scan the fraction digits, keeping the first six
    let mut facc: i64 = 0;
    let mut fcnt: usize = 0;
    let ghost frac = frac_digits(body);
    if i < n {
        let mut j: usize = i + 1;
        proof {
            assert(frac =~= t@.subrange(i as int + 1, n as int));
        }
        while j < n
            invariant
                i + 1 <= j <= n,
                n == t@.len(),
                frac == t@.subrange(i as int + 1, n as int),
                forall|k: int| i + 1 <= k < j ==> is_digit(#[trigger] t@[k]),
                fcnt <= 6,
                fcnt as int == if j - (i + 1) <= 6 {
                    j - (i + 1)
                } else {
                    6
                },
                0 <= facc,
                facc as int == digits_value(t@.subrange(i as int + 1, i as int + 1 + fcnt)),
                (facc as int) < pow10(fcnt as int),
                all_digits(t@.subrange(i as int + 1, i as int + 1 + fcnt)),
            decreases n - j,
        {
            let b = t[j];
            if !(48 <= b && b <= 57) {
                proof {
                    assert(frac[j - (i + 1)] == b);
                    assert(!is_digit(frac[j - (i + 1)]));
                    assert(!all_digits(frac_digits(body)));
                    assert(!is_number_token(t@));
                }
                return Err(ParseError::NumberFormatError);
            }
            if fcnt < 6 {
                let ghost pre = t@.subrange(i as int + 1, i as int + 1 + fcnt);
                let ghost post = t@.subrange(i as int + 1, i as int + 1 + fcnt + 1);
                proof {
                    assert(post.drop_last() =~= pre);
                    assert(post.last() == b);
                    reveal_with_fuel(pow10, 8);
                }
                facc = facc * 10 + (b - 48) as i64;
                fcnt += 1;
            }
            j += 1;
        }
    }
    proof {
        if i < n {
            assert(frac.len() == n - (i + 1));
            if frac.len() >= 6 {
                assert(fcnt == 6);
                assert(frac.take(6) =~= t@.subrange(i as int + 1, i as int + 1 + 6));
            } else {
                assert(fcnt == frac.len());
                assert(frac =~= t@.subrange(i as int + 1, i as int + 1 + fcnt));
            }
            assert forall|k: int| 0 <= k < frac.len() implies is_digit(#[trigger] frac[k]) by {
                assert(frac[k] == t@[i + 1 + k]);
            }
        } else {
            assert(frac =~= Seq::<u8>::empty());
            assert(frac_micros(frac) == 0) by {
                reveal_with_fuel(pow10, 8);
            }
        }
        assert(is_number_token(t@));
    }
    // assemble the clamped fixed-point magnitude
    let pw: i64 = if fcnt == 0 {
        1_000_000
    } else if fcnt == 1 {
        100_000
    } else if fcnt == 2 {
        10_000
    } else if fcnt == 3 {
        1_000
    } else if fcnt == 4 {
        100
    } else if fcnt == 5 {
        10
    } else {
        1
    };
    proof {
        lemma_pow10_upto6();
        if fcnt == 0 {
            assert(pow10(0) * pow10(6) == 1_000_000);
        } else if fcnt == 1 {
            assert(pow10(1) * pow10(5) == 1_000_000);
        } else if fcnt == 2 {
            assert(pow10(2) * pow10(4) == 1_000_000);
        } else if fcnt == 3 {
            assert(pow10(3) * pow10(3) == 1_000_000);
        } else if fcnt == 4 {
            assert(pow10(4) * pow10(2) == 1_000_000);
        } else if fcnt == 5 {
            assert(pow10(5) * pow10(1) == 1_000_000);
        } else {
            assert(pow10(6) * pow10(0) == 1_000_000);
        }
        assert(pw as int == pow10(6 - fcnt));
        assert(pow10(fcnt as int) * pow10(6 - fcnt) == 1_000_000);
        assert(0 <= (facc as int) * (pw as int) < 1_000_000) by (nonlinear_arith)
            requires
                0 <= facc,
                (facc as int) < pow10(fcnt as int),
                pw as int == pow10(6 - fcnt),
                1 <= pw,
                pow10(fcnt as int) * pow10(6 - fcnt) == 1_000_000,
        ;
    }
    let fm = facc * pw;
    proof {
        assert(fm as int == (facc as int) * (pw as int));
        if fcnt == 6 {
            assert(pw as int == 1);
            assert((facc as int) * 1 == facc as int) by (nonlinear_arith);
            assert(frac.len() >= 6);
            assert(frac_micros(frac) == digits_value(frac.take(6)));
            assert(frac_micros(frac) == facc as int);
        } else {
            assert(frac.len() == fcnt);
            assert(frac_micros(frac) == digits_value(frac) * pow10(6 - frac.len()));
            assert(digits_value(frac) == facc as int);
            assert(frac_micros(frac) == (facc as int) * (pw as int));
        }
        assert(fm as int == frac_micros(frac));
    }
    let mag = acc * 1_000_000 + fm;
    let ghost true_mag = digits_value(int_digits(body)) * 1_000_000 + frac_micros(frac);
    proof {
        if digits_value(int_digits(body)) > INT_SENTINEL as int {
            assert(true_mag > COORD_LIMIT as int);
            assert(mag > COORD_LIMIT);
        } else {
            assert(mag as int == true_mag);
        }
    }
    let clamped = if mag > COORD_LIMIT {
        COORD_LIMIT
    } else {
        mag
    };
    proof {
        assert(clamped as int == clamp_coord(true_mag));
        assert(number_value_micros(t@) == if neg {
            -true_mag
        } else {
            true_mag
        });
    }
    if neg {
        Ok(-clamped)
    } else {
        Ok(clamped)
    }
}

/// ASCII whitespace: space, tab, line feed, form feed, carriage return.
pub open spec fn is_space(b: u8) -> bool {
    b == 32 || b == 9 || b == 10 || b == 12 || b == 13
}

/// Length of the leading run of non-whitespace bytes.
pub open spec fn token_end(s: Seq<u8>) -> int
    decreases s.len(),
{
    if s.len() == 0 || is_space(s[0]) {
        0
    } else {
        1 + token_end(s.skip(1))
    }
}

proof fn lemma_token_end(s: Seq<u8>)
    ensures
        0 <= token_end(s) <= s.len(),
        forall|k: int| 0 <= k < token_end(s) ==> !is_space(s[k]),
        token_end(s) < s.len() ==> is_space(s[token_end(s)]),
    decreases s.len(),
{
    if s.len() == 0 || is_space(s[0]) {
    } else {
        lemma_token_end(s.skip(1));
        assert forall|k: int| 0 <= k < token_end(s) implies !is_space(s[k]) by {
            if k > 0 {
                assert(s.skip(1)[k - 1] == s[k]);
            }
        }
        if token_end(s) < s.len() {
            assert(s.skip(1)[token_end(s) - 1] == s[token_end(s)]);
        }
    }
}

/// The run of non-whitespace bytes ends exactly where whitespace or the
/// end of the line is first reached.
proof fn lemma_token_end_unique(s: Seq<u8>, m: int)
    requires
        0 <= m <= s.len(),
        forall|k: int| 0 <= k < m ==> !is_space(s[k]),
        m < s.len() ==> is_space(s[m]),
    ensures
        token_end(s) == m,
{
    lemma_token_end(s);
    let e = token_end(s);
    if e < m {
        assert(!is_space(s[e]));
    } else if m < e {
        assert(!is_space(s[m]));
    }
}

/// The whitespace-separated tokens of a line, in order.
pub open spec fn tokens_of(s: Seq<u8>) -> Seq<Seq<u8>>
    decreases s.len(),
    via tokens_of_decreases
{
    if s.len() == 0 {
        Seq::empty()
    } else if is_space(s[0]) {
        tokens_of(s.skip(1))
    } else {
        seq![s.take(token_end(s))] + tokens_of(s.skip(token_end(s)))
    }
}

#[via_fn]
proof fn tokens_of_decreases(s: Seq<u8>) {
    lemma_token_end(s);
}

/// Whether a byte is ASCII whitespace.
fn byte_is_space(b: u8) -> (r: bool)
    ensures
        r == is_space(b),
{
    b == 32 || b == 9 || b == 10 || b == 12 || b == 13
}

/// Split a line into its whitespace-separated tokens.
#[verifier::loop_isolation(false)]
pub fn split_tokens(line: &[u8]) -> (toks: Vec<Vec<u8>>)
    ensures
        toks@.map_values(|t: Vec<u8>| t@) == tokens_of(line@),
{
    let n = line.len();
    let mut toks: Vec<Vec<u8>> = Vec::new();
    let mut i: usize = 0;
    proof {
        assert(line@.skip(0) =~= line@);
        assert(toks@.map_values(|t: Vec<u8>| t@) + tokens_of(line@) =~= tokens_of(line@));
    }
    while i < n
        invariant
            0 <= i <= n,
            toks@.map_values(|t: Vec<u8>| t@) + tokens_of(line@.skip(i as int)) == tokens_of(
                line@,
            ),
        decreases n - i,
    {
        if byte_is_space(line[i]) {
            proof {
                assert(line@.skip(i as int).skip(1) =~= line@.skip(i as int + 1));
            }
            i += 1;
        } else {
            let ghost rest = line@.skip(i as int);
            let start = i;
            let mut tok: Vec<u8> = Vec::new();
            while i < n && !byte_is_space(line[i])
                invariant
                    start <= i <= n,
                    tok@ == line@.subrange(start as int, i as int),
                    forall|k: int| start <= k < i ==> !is_space(#[trigger] line@[k]),
                decreases n - i,
            {
                tok.push(line[i]);
                proof {
                    assert(tok@ =~= line@.subrange(start as int, i as int + 1));
                }
                i += 1;
            }
            proof {
                assert forall|k: int| 0 <= k < i - start implies !is_space(
                    #[trigger] rest[k],
                ) by {
                    assert(rest[k] == line@[start + k]);
                }
                if i < n {
                    assert(rest[i - start] == line@[i as int]);
                }
                lemma_token_end_unique(rest, i - start);
                assert(rest.take(i - start) =~= line@.subrange(start as int, i as int));
                assert(rest.skip(i - start) =~= line@.skip(i as int));
                assert(tokens_of(rest) == seq![tok@] + tokens_of(line@.skip(i as int)));
            }
            let ghost old_toks = toks@;
            toks.push(tok);
            proof {
                assert(toks@.map_values(|t: Vec<u8>| t@) =~= old_toks.map_values(
                    |t: Vec<u8>| t@,
                ) + seq![toks@[toks@.len() - 1]@]);
                assert(old_toks.map_values(|t: Vec<u8>| t@) + (seq![
                    toks@[toks@.len() - 1]@,
                ] + tokens_of(line@.skip(i as int))) =~= (old_toks.map_values(
                    |t: Vec<u8>| t@,
                ) + seq![toks@[toks@.len() - 1]@]) + tokens_of(line@.skip(i as int)));
            }
        }
    }
    proof {
        assert(line@.skip(n as int) =~= Seq::<u8>::empty());
        assert(toks@.map_values(|t: Vec<u8>| t@) + Seq::<Seq<u8>>::empty() =~= toks@.map_values(
            |t: Vec<u8>| t@,
        ));
    }
    toks
}

/// The byte lines end with.
pub const LF: u8 = 10;

/// The byte a line terminator may carry before the line feed.
pub const CR: u8 = 13;

/// One line's text: a carriage return left before the line feed is
/// dropped.
pub open spec fn chop_cr(l: Seq<u8>) -> Seq<u8> {
    if l.len() > 0 && l.last() == CR {
        l.drop_last()
    } else {
        l
    }
}

/// The lines of a file: split at line feeds, a carriage return before a
/// line feed removed, a final unterminated line kept, and a final line
/// terminator not opening an empty last line.
pub open spec fn lines_of(s: Seq<u8>) -> Seq<Seq<u8>>
    decreases s.len(),
    via lines_of_decreases
{
    if s.len() == 0 {
        Seq::empty()
    } else {
        let e = first_byte_pos(s, LF);
        if e >= s.len() {
            seq![s]
        } else {
            seq![chop_cr(s.take(e))] + lines_of(s.skip(e + 1))
        }
    }
}

#[via_fn]
proof fn lines_of_decreases(s: Seq<u8>) {
    lemma_first_byte_pos(s, LF);
}

/// Split file contents into lines.
#[verifier::loop_isolation(false)]
pub fn split_lines(content: &[u8]) -> (lines: Vec<Vec<u8>>)
    ensures
        lines@.map_values(|l: Vec<u8>| l@) == lines_of(content@),
{
    let n = content.len();
    let mut lines: Vec<Vec<u8>> = Vec::new();
    let mut i: usize = 0;
    proof {
        assert(content@.skip(0) =~= content@);
        assert(lines@.map_values(|l: Vec<u8>| l@) + lines_of(content@) =~= lines_of(content@));
    }
    while i < n
        invariant
            0 <= i <= n,
            lines@.map_values(|l: Vec<u8>| l@) + lines_of(content@.skip(i as int)) == lines_of(
                content@,
            ),
        decreases n - i,
    {
        let ghost rest = content@.skip(i as int);
        let start = i;
        let mut cur: Vec<u8> = Vec::new();
        while i < n && content[i] != LF
            invariant
                start <= i <= n,
                cur@ == content@.subrange(start as int, i as int),
                forall|k: int| start <= k < i ==> content@[k] != LF,
            decreases n - i,
        {
            cur.push(content[i]);
            proof {
                assert(cur@ =~= content@.subrange(start as int, i as int + 1));
            }
            i += 1;
        }
        proof {
            assert forall|k: int| 0 <= k < i - start implies rest[k] != LF by {
                assert(rest[k] == content@[start + k]);
            }
            if i < n {
                assert(rest[i - start] == content@[i as int]);
            }
            lemma_first_byte_pos_unique(rest, LF, i - start);
            assert(rest.take(i - start) =~= content@.subrange(start as int, i as int));
        }
        let ghost old_lines = lines@;
        if i < n {
            // a terminated line: drop one carriage return before the feed
            if cur.len() > 0 && cur[cur.len() - 1] == CR {
                cur.pop();
                proof {
                    assert(cur@ =~= chop_cr(rest.take(i - start)));
                }
            }
            proof {
                assert(cur@ == chop_cr(rest.take(i - start)));
                assert(rest.skip(i - start + 1) =~= content@.skip(i as int + 1));
                assert(lines_of(rest) == seq![cur@] + lines_of(content@.skip(i as int + 1)));
            }
            lines.push(cur);
            i += 1;
            proof {
                assert(lines@.map_values(|l: Vec<u8>| l@) =~= old_lines.map_values(
                    |l: Vec<u8>| l@,
                ) + seq![lines@[lines@.len() - 1]@]);
                assert(old_lines.map_values(|l: Vec<u8>| l@) + (seq![
                    lines@[lines@.len() - 1]@,
                ] + lines_of(content@.skip(i as int))) =~= (old_lines.map_values(
                    |l: Vec<u8>| l@,
                ) + seq![lines@[lines@.len() - 1]@]) + lines_of(content@.skip(i as int)));
            }
        } else {
            // the final unterminated line, kept as written
            proof {
                assert(rest.take(i - start) =~= rest);
                assert(lines_of(rest) == seq![rest]);
                assert(cur@ == rest);
                assert(content@.skip(i as int) =~= Seq::<u8>::empty());
            }
            lines.push(cur);
            proof {
                assert(lines@.map_values(|l: Vec<u8>| l@) =~= old_lines.map_values(
                    |l: Vec<u8>| l@,
                ) + seq![rest]);
                assert(lines@.map_values(|l: Vec<u8>| l@) + lines_of(content@.skip(i as int))
                    =~= lines@.map_values(|l: Vec<u8>| l@));
            }
        }
    }
    proof {
        assert(content@.skip(n as int) =~= Seq::<u8>::empty());
        assert(lines@.map_values(|l: Vec<u8>| l@) + Seq::<Seq<u8>>::empty() =~= lines@.map_values(
            |l: Vec<u8>| l@,
        ));
    }
    lines
}

/// What one data line means: exactly four tokens, the first resolved
/// against the element table, the rest read as decimal coordinates and
/// clamped into the representable band.
pub open spec fn parse_atom_line_spec(line: Seq<u8>) -> Result<Atom, ParseError> {
    let ts = tokens_of(line);
    if ts.len() != 4 {
        Err(ParseError::FormatError)
    } else {
        match spec_symbol_index(ts[0]) {
            None => Err(ParseError::UnknownElementError),
            Some(id) => if !is_number_token(ts[1]) || !is_number_token(ts[2]) || !is_number_token(
                ts[3],
            ) {
                Err(ParseError::NumberFormatError)
            } else {
                Ok(
                    Atom {
                        element_id: id,
                        pos: Point3 {
                            x: clamp_coord(number_value_micros(ts[1])) as i64,
                            y: clamp_coord(number_value_micros(ts[2])) as i64,
                            z: clamp_coord(number_value_micros(ts[3])) as i64,
                        },
                    },
                )
            },
        }
    }
}

/// Parse one data line into an atom record.
pub fn parse_atom_line(line: &[u8]) -> (r: Result<Atom, ParseError>)
    ensures
        r == parse_atom_line_spec(line@),
        r matches Ok(a) ==> atom_wf(a),
{
    let toks = split_tokens(line);
    let ghost ts = tokens_of(line@);
    if toks.len() != 4 {
        return Err(ParseError::FormatError);
    }
    proof {
        assert(ts[0] == toks@[0]@ && ts[1] == toks@[1]@ && ts[2] == toks@[2]@ && ts[3]
            == toks@[3]@);
    }
    let id = match symbol_index(toks[0].as_slice()) {
        None => {
            return Err(ParseError::UnknownElementError);
        },
        Some(id) => id,
    };
    let x = match parse_number(toks[1].as_slice()) {
        Err(e) => {
            return Err(e);
        },
        Ok(v) => v,
    };
    let y = match parse_number(toks[2].as_slice()) {
        Err(e) => {
            return Err(e);
        },
        Ok(v) => v,
    };
    let z = match parse_number(toks[3].as_slice()) {
        Err(e) => {
            return Err(e);
        },
        Ok(v) => v,
    };
    Ok(Atom { element_id: id, pos: Point3 { x, y, z } })
}

/// The data lines of a file: all lines, unless the first holds exactly
/// one character, in which case that line and the comment line after it
/// are skipped.
pub open spec fn data_lines(ls: Seq<Seq<u8>>) -> Seq<Seq<u8>> {
    if ls.len() > 0 && ls[0].len() == 1 {
        if ls.len() >= 2 {
            ls.skip(2)
        } else {
            Seq::empty()
        }
    } else {
        ls
    }
}

/// What a sequence of data lines means: the atoms in line order, or the
/// first faulty line's error.
pub open spec fn parse_lines_spec(ls: Seq<Seq<u8>>) -> Result<Seq<Atom>, ParseError>
    decreases ls.len(),
{
    if ls.len() == 0 {
        Ok(Seq::empty())
    } else {
        match parse_atom_line_spec(ls[0]) {
            Err(e) => Err(e),
            Ok(a) => match parse_lines_spec(ls.skip(1)) {
                Err(e) => Err(e),
                Ok(rest) => Ok(seq![a] + rest),
            },
        }
    }
}

/// What a whole coordinate file means.
pub open spec fn parse_xyz_spec(content: Seq<u8>) -> Result<Seq<Atom>, ParseError> {
    parse_lines_spec(data_lines(lines_of(content)))
}

/// A parse result extended on the left by already-parsed atoms.
spec fn prepend_atoms(prefix: Seq<Atom>, r: Result<Seq<Atom>, ParseError>) -> Result<
    Seq<Atom>,
    ParseError,
> {
    match r {
        Ok(rest) => Ok(prefix + rest),
        Err(e) => Err(e),
    }
}

/// Parse a whole coordinate file into its atom sequence: every parsed
/// atom is well formed, and the file is accepted or rejected exactly as
/// its first faulty data line says.
#[verifier::loop_isolation(false)]
pub fn parse_xyz(content: &[u8]) -> (r: Result<Vec<Atom>, ParseError>)
    ensures
        r matches Ok(atoms) ==> parse_xyz_spec(content@) == Ok::<Seq<Atom>, ParseError>(atoms@)
            && forall|k: int| 0 <= k < atoms@.len() ==> atom_wf(#[trigger] atoms@[k]),
        r matches Err(e) ==> parse_xyz_spec(content@) == Err::<Seq<Atom>, ParseError>(e),
{
    let lines = split_lines(content);
    let ghost ls = lines_of(content@);
    let ghost dls = data_lines(ls);
    let total = lines.len();
    let start: usize = if total > 0 && lines[0].len() == 1 {
        if total >= 2 {
            2
        } else {
            1
        }
    } else {
        0
    };
    proof {
        assert(dls =~= ls.skip(start as int));
    }
    let mut atoms: Vec<Atom> = Vec::new();
    let mut k: usize = start;
    while k < total
        invariant
            start <= k <= total,
            parse_lines_spec(dls) == prepend_atoms(atoms@, parse_lines_spec(ls.skip(k as int))),
            forall|m: int| 0 <= m < atoms@.len() ==> atom_wf(#[trigger] atoms@[m]),
        decreases total - k,
    {
        proof {
            assert(ls.skip(k as int)[0] == lines@[k as int]@);
            assert(ls.skip(k as int).skip(1) =~= ls.skip(k as int + 1));
        }
        let a = match parse_atom_line(lines[k].as_slice()) {
            Err(e) => {
                return Err(e);
            },
            Ok(a) => a,
        };
        let ghost old_atoms = atoms@;
        atoms.push(a);
        k += 1;
        proof {
            match parse_lines_spec(ls.skip(k as int)) {
                Err(e) => {},
                Ok(rest) => {
                    assert(old_atoms + (seq![a] + rest) =~= atoms@ + rest);
                },
            }
        }
    }
    proof {
        assert(ls.skip(total as int) =~= Seq::<Seq<u8>>::empty());
        assert(atoms@ + Seq::<Atom>::empty() =~= atoms@);
    }
    Ok(atoms)
}

/// Parse correctness: an accepted sequence of data lines yields exactly
/// one atom per line, in line order, each atom the meaning of its own
/// line.
pub proof fn lemma_parse_atoms_per_line(ls: Seq<Seq<u8>>)
    requires
        parse_lines_spec(ls) is Ok,
    ensures
        parse_lines_spec(ls)->Ok_0.len() == ls.len(),
        forall|k: int| 0 <= k < ls.len() ==> parse_atom_line_spec(#[trigger] ls[k]) == Ok::<
            Atom,
            ParseError,
        >(parse_lines_spec(ls)->Ok_0[k]),
    decreases ls.len(),
{
    if ls.len() == 0 {
    } else {
        lemma_parse_atoms_per_line(ls.skip(1));
        assert forall|k: int| 0 <= k < ls.len() implies parse_atom_line_spec(#[trigger] ls[k])
            == Ok::<Atom, ParseError>(parse_lines_spec(ls)->Ok_0[k]) by {
            if k > 0 {
                assert(ls.skip(1)[k - 1] == ls[k]);
                assert(parse_lines_spec(ls)->Ok_0[k] == parse_lines_spec(ls.skip(1))->Ok_0[k
                    - 1]);
            }
        }
    }
}

/// Header skip: a file whose first line holds exactly one character
/// parses to the same atoms as the same lines with the first two
/// removed, as long as the remainder does not itself begin with another
/// single-character line (which would be skipped as a second header).
pub proof fn lemma_header_skip(ls: Seq<Seq<u8>>)
    requires
        ls.len() >= 2,
        ls[0].len() == 1,
        ls.len() == 2 || ls[2].len() != 1,
    ensures
        parse_lines_spec(data_lines(ls)) == parse_lines_spec(data_lines(ls.skip(2))),
{
    assert(data_lines(ls) == ls.skip(2));
    if ls.len() == 2 {
        assert(ls.skip(2) =~= Seq::<Seq<u8>>::empty());
    } else {
        assert(ls.skip(2)[0] == ls[2]);
    }
    assert(data_lines(ls.skip(2)) == ls.skip(2));
}

} // verus!
