use molview::molecule::Atom;
use molview::parse::{parse_atom_line, parse_number, parse_xyz, split_lines, split_tokens,
    ParseError};

fn atoms_of(content: &str) -> Vec<Atom> {
    parse_xyz(content.as_bytes()).unwrap()
}

#[test]
fn parses_each_data_line_in_order() {
    let atoms = atoms_of("O 0.000 1.210 0.000\nH 1.0 2.0 3.0");
    assert_eq!(atoms.len(), 2);
    assert_eq!(atoms[0].element_id, 8);
    assert_eq!(atoms[0].pos.x, 0);
    assert_eq!(atoms[0].pos.y, 1_210_000);
    assert_eq!(atoms[0].pos.z, 0);
    assert_eq!(atoms[1].element_id, 1);
    assert_eq!(atoms[1].pos.x, 1_000_000);
    assert_eq!(atoms[1].pos.y, 2_000_000);
    assert_eq!(atoms[1].pos.z, 3_000_000);
}

#[test]
fn header_skip_yields_same_atoms() {
    let with_header = atoms_of("2\nsome comment\nO 0 0 0\nH 1.5 0 0\n");
    let without = atoms_of("O 0 0 0\nH 1.5 0 0\n");
    assert_eq!(with_header, without);
    assert_eq!(with_header.len(), 2);
}

#[test]
fn header_alone_yields_no_atoms() {
    assert_eq!(atoms_of("7").len(), 0);
    assert_eq!(atoms_of("7\nany comment at all").len(), 0);
}

#[test]
fn two_character_first_line_is_data() {
    // a first line of two characters is not a header marker
    let r = parse_xyz("13\nO 0 0 0".as_bytes());
    assert_eq!(r.unwrap_err(), ParseError::FormatError);
}

#[test]
fn three_tokens_rejected_as_format_error() {
    let r = parse_xyz("O 1.0 2.0".as_bytes());
    assert_eq!(r.unwrap_err(), ParseError::FormatError);
}

#[test]
fn five_tokens_rejected_as_format_error() {
    let r = parse_xyz("O 1.0 2.0 3.0 4.0".as_bytes());
    assert_eq!(r.unwrap_err(), ParseError::FormatError);
}

#[test]
fn unknown_symbol_rejected() {
    let r = parse_xyz("Zz 0 0 0".as_bytes());
    assert_eq!(r.unwrap_err(), ParseError::UnknownElementError);
}

#[test]
fn bad_coordinate_rejected() {
    let r = parse_xyz("O abc 0 0".as_bytes());
    assert_eq!(r.unwrap_err(), ParseError::NumberFormatError);
}

#[test]
fn unknown_symbol_reported_before_bad_coordinate() {
    let r = parse_xyz("Qq abc 0 0".as_bytes());
    assert_eq!(r.unwrap_err(), ParseError::UnknownElementError);
}

#[test]
fn first_faulty_line_decides_the_error() {
    let r = parse_xyz("O 0 0 0\nH 1 2\nZz 0 0 0".as_bytes());
    assert_eq!(r.unwrap_err(), ParseError::FormatError);
}

#[test]
fn empty_file_yields_no_atoms() {
    assert_eq!(atoms_of("").len(), 0);
}

#[test]
fn blank_line_rejected() {
    let r = parse_xyz("O 0 0 0\n\nH 0 0 0".as_bytes());
    assert_eq!(r.unwrap_err(), ParseError::FormatError);
}

#[test]
fn crlf_lines_parse_like_lf_lines() {
    let a = atoms_of("O 0 0 0\r\nH 0 0 2.5\r\n");
    let b = atoms_of("O 0 0 0\nH 0 0 2.5\n");
    assert_eq!(a, b);
}

#[test]
fn atom_line_accepts_extra_spacing() {
    let a = parse_atom_line(b"  C \t 1.0   2.0  3.0 ").unwrap();
    assert_eq!(a.element_id, 6);
    assert_eq!(a.pos.x, 1_000_000);
}

#[test]
fn number_plain_and_signed_forms() {
    assert_eq!(parse_number(b"1.5").unwrap(), 1_500_000);
    assert_eq!(parse_number(b"-5").unwrap(), -5_000_000);
    assert_eq!(parse_number(b"+2.25").unwrap(), 2_250_000);
    assert_eq!(parse_number(b"1.").unwrap(), 1_000_000);
    assert_eq!(parse_number(b".5").unwrap(), 500_000);
    assert_eq!(parse_number(b"0").unwrap(), 0);
    assert_eq!(parse_number(b"-0.000001").unwrap(), -1);
}

#[test]
fn number_extra_digits_truncate() {
    assert_eq!(parse_number(b"12.3456789").unwrap(), 12_345_678);
}

#[test]
fn number_out_of_band_clamps() {
    assert_eq!(parse_number(b"2000000").unwrap(), 1_000_000_000_000);
    assert_eq!(parse_number(b"-99999999999999999999").unwrap(), -1_000_000_000_000);
}

#[test]
fn number_malformed_forms_rejected() {
    for bad in ["", "+", "-", ".", "+.", "1.2.3", "1a", "--5", "1 2", "NaN", "inf"] {
        assert_eq!(parse_number(bad.as_bytes()).unwrap_err(), ParseError::NumberFormatError);
    }
}

#[test]
fn tokens_split_on_ascii_whitespace() {
    let toks = split_tokens(b" one\ttwo  three ");
    let toks: Vec<&[u8]> = toks.iter().map(|t| t.as_slice()).collect();
    assert_eq!(toks, vec![b"one" as &[u8], b"two", b"three"]);
}

#[test]
fn lines_split_at_line_feeds() {
    let ls = split_lines(b"a\nb\r\nc");
    let ls: Vec<&[u8]> = ls.iter().map(|l| l.as_slice()).collect();
    assert_eq!(ls, vec![b"a" as &[u8], b"b", b"c"]);
    assert_eq!(split_lines(b"a\n").len(), 1);
    assert_eq!(split_lines(b"").len(), 0);
}
