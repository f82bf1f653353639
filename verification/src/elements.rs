//! The fixed element table: symbol, display color and display radius for
//! each element id, in the order the coordinate-file format resolves
//! symbols against.

use vstd::prelude::*;
use crate::geom::UNIT;

verus! {

/// Number of entries in the element table.
pub const ELEMENT_COUNT: u8 = 13;

/// Symbol at each table position: X H He Li Be B C N O F Ne Na Mg.
pub open spec fn spec_symbol(i: int) -> Seq<u8> {
    if i == 0 {
        seq![88u8]
    } else if i == 1 {
        seq![72u8]
    } else if i == 2 {
        seq![72u8, 101u8]
    } else if i == 3 {
        seq![76u8, 105u8]
    } else if i == 4 {
        seq![66u8, 101u8]
    } else if i == 5 {
        seq![66u8]
    } else if i == 6 {
        seq![67u8]
    } else if i == 7 {
        seq![78u8]
    } else if i == 8 {
        seq![79u8]
    } else if i == 9 {
        seq![70u8]
    } else if i == 10 {
        seq![78u8, 101u8]
    } else if i == 11 {
        seq![78u8, 97u8]
    } else {
        seq![77u8, 103u8]
    }
}

/// First table position at or after `i` whose symbol equals `t`.
pub open spec fn first_match(t: Seq<u8>, i: int) -> Option<u8>
    decreases ELEMENT_COUNT as int - i,
{
    if i < 0 || i >= ELEMENT_COUNT as int {
        None
    } else if spec_symbol(i) == t {
        Some(i as u8)
    } else {
        first_match(t, i + 1)
    }
}

/// The element id a symbol token resolves to: its first table position.
pub open spec fn spec_symbol_index(t: Seq<u8>) -> Option<u8> {
    first_match(t, 0)
}

/// Whether `t` is the one-byte sequence `[b]`.
fn is_sym1(t: &[u8], b: u8) -> (r: bool)
    ensures
        r == (t@ == seq![b]),
{
    let r = t.len() == 1 && t[0] == b;
    proof {
        if r {
            assert(t@ =~= seq![b]);
        } else {
            assert(seq![b].len() == 1);
            assert(seq![b][0] == b);
        }
    }
    r
}

/// Whether `t` is the two-byte sequence `[a, b]`.
fn is_sym2(t: &[u8], a: u8, b: u8) -> (r: bool)
    ensures
        r == (t@ == seq![a, b]),
{
    let r = t.len() == 2 && t[0] == a && t[1] == b;
    proof {
        if r {
            assert(t@ =~= seq![a, b]);
        } else {
            assert(seq![a, b].len() == 2);
            assert(seq![a, b][0] == a);
            assert(seq![a, b][1] == b);
        }
    }
    r
}

/// Resolve an element symbol to its table position, first match by exact
/// equality; `None` when the symbol is not in the table.
pub fn symbol_index(t: &[u8]) -> (r: Option<u8>)
    ensures
        r == spec_symbol_index(t@),
        r matches Some(i) ==> i < ELEMENT_COUNT,
{
    proof {
        reveal_with_fuel(first_match, 15);
    }
    if is_sym1(t, 88u8) {
        Some(0)
    } else if is_sym1(t, 72u8) {
        Some(1)
    } else if is_sym2(t, 72u8, 101u8) {
        Some(2)
    } else if is_sym2(t, 76u8, 105u8) {
        Some(3)
    } else if is_sym2(t, 66u8, 101u8) {
        Some(4)
    } else if is_sym1(t, 66u8) {
        Some(5)
    } else if is_sym1(t, 67u8) {
        Some(6)
    } else if is_sym1(t, 78u8) {
        Some(7)
    } else if is_sym1(t, 79u8) {
        Some(8)
    } else if is_sym1(t, 70u8) {
        Some(9)
    } else if is_sym2(t, 78u8, 101u8) {
        Some(10)
    } else if is_sym2(t, 78u8, 97u8) {
        Some(11)
    } else if is_sym2(t, 77u8, 103u8) {
        Some(12)
    } else {
        None
    }
}

/// A one- or two-byte symbol packed into one integer, to separate
/// distinct symbols by plain arithmetic.
spec fn sym_code(s: Seq<u8>) -> int {
    if s.len() == 1 {
        s[0] as int
    } else if s.len() == 2 {
        (s[0] as int) * 256 + s[1] as int
    } else {
        -1
    }
}

/// Distinct table positions hold distinct symbols.
proof fn lemma_symbols_distinct(j: int, k: int)
    requires
        0 <= j < ELEMENT_COUNT as int,
        0 <= k < ELEMENT_COUNT as int,
        j != k,
    ensures
        spec_symbol(j) != spec_symbol(k),
{
    assert(sym_code(spec_symbol(j)) != sym_code(spec_symbol(k)));
}

/// Every table symbol resolves back to its own position: the table holds
/// no duplicate symbols, so first match is exact match.
pub proof fn lemma_symbol_round_trip(i: int)
    requires
        0 <= i < ELEMENT_COUNT as int,
    ensures
        spec_symbol_index(spec_symbol(i)) == Some(i as u8),
{
    reveal_with_fuel(first_match, 15);
    assert forall|j: int| 0 <= j < ELEMENT_COUNT as int && j != i implies spec_symbol(j)
        != spec_symbol(i) by {
        lemma_symbols_distinct(j, i);
    }
}

/// Display color at each table position, packed 0xRRGGBBAA: white for H,
/// blue for N, red for O, black elsewhere.
pub open spec fn spec_color(i: int) -> u32 {
    if i == 1 {
        0xFFFFFFFFu32
    } else if i == 7 {
        0x0079F1FFu32
    } else if i == 8 {
        0xE62937FFu32
    } else {
        0x000000FFu32
    }
}

/// Display color for a valid element id.
pub fn element_color(id: u8) -> (c: u32)
    requires
        id < ELEMENT_COUNT,
    ensures
        c == spec_color(id as int),
{
    if id == 1 {
        0xFFFFFFFF
    } else if id == 7 {
        0x0079F1FF
    } else if id == 8 {
        0xE62937FF
    } else {
        0x000000FF
    }
}

/// Display radius at each table position, in fixed-point steps: every
/// element shares one radius of a single file-native unit.
pub open spec fn spec_radius(i: int) -> i64 {
    UNIT
}

/// Display radius for a valid element id.
pub fn element_radius(id: u8) -> (r: i64)
    requires
        id < ELEMENT_COUNT,
    ensures
        r == spec_radius(id as int),
{
    UNIT
}

} // verus!
