use piz::base::{starts_with_label, BIN_LABEL, DEC_LABEL, HEX_LABEL, LF, OCT_LABEL, PIZ_LABEL, TAB};
use piz::{parse_base_label, parse_header, skip_metadata, ArchiveHeader, DecodeError, NumberBase};

const NAMED: [NumberBase; 4] = [NumberBase::Hex, NumberBase::Dec, NumberBase::Oct, NumberBase::Bin];

fn violation(offset: usize) -> DecodeError {
    DecodeError::FormatViolation { offset }
}

fn header(read_base: NumberBase, calc_base: NumberBase) -> ArchiveHeader {
    ArchiveHeader { read_base, calc_base }
}

#[test]
fn labels_are_three_ascii_bytes() {
    assert_eq!(NumberBase::Hex.label(), b"Hex");
    assert_eq!(NumberBase::Dec.label(), b"Dec");
    assert_eq!(NumberBase::Oct.label(), b"Oct");
    assert_eq!(NumberBase::Bin.label(), b"Bin");
    assert_eq!(&HEX_LABEL, b"Hex");
    assert_eq!(&DEC_LABEL, b"Dec");
    assert_eq!(&OCT_LABEL, b"Oct");
    assert_eq!(&BIN_LABEL, b"Bin");
    assert_eq!(&PIZ_LABEL, b"PiZ");
    assert_eq!(LF, b'\n');
    assert_eq!(TAB, b'\t');
}

#[test]
fn every_label_is_recognised() {
    for base in NAMED {
        assert_eq!(parse_base_label(base.label()), Some(base));
    }
}

#[test]
fn label_is_read_from_the_front_only() {
    assert_eq!(parse_base_label(b"Hex\n"), Some(NumberBase::Hex));
    assert_eq!(parse_base_label(b"Decimal"), Some(NumberBase::Dec));
    assert_eq!(parse_base_label(b"OctX"), Some(NumberBase::Oct));
    assert_eq!(parse_base_label(b"Bin\tHex\n"), Some(NumberBase::Bin));
}

#[test]
fn unknown_or_short_label_is_none() {
    assert_eq!(parse_base_label(b""), None);
    assert_eq!(parse_base_label(b"He"), None);
    assert_eq!(parse_base_label(b"hex"), None);
    assert_eq!(parse_base_label(b"HEX"), None);
    assert_eq!(parse_base_label(b"Hey"), None);
    assert_eq!(parse_base_label(b" Hex"), None);
    assert_eq!(parse_base_label(b"PiZ"), None);
}

#[test]
fn starts_with_label_compares_three_bytes() {
    assert!(starts_with_label(b"PiZ\n", &PIZ_LABEL));
    assert!(starts_with_label(b"PiZ", &PIZ_LABEL));
    assert!(!starts_with_label(b"Pi", &PIZ_LABEL));
    assert!(!starts_with_label(b"PiX\n", &PIZ_LABEL));
    assert!(!starts_with_label(b"piZ\n", &PIZ_LABEL));
    assert!(!starts_with_label(b"PIZ\n", &PIZ_LABEL));
}

#[test]
fn bare_header_gives_decimal_twice() {
    assert_eq!(parse_header(b"PiZ\n"), Ok((header(NumberBase::Dec, NumberBase::Dec), 4)));
    assert_eq!(parse_header(b"PiZ\n2\n\n"), Ok((header(NumberBase::Dec, NumberBase::Dec), 4)));
}

#[test]
fn single_label_header_gives_that_base_twice() {
    for base in NAMED {
        let mut bytes = b"PiZ\t".to_vec();
        bytes.extend_from_slice(base.label());
        bytes.push(b'\n');
        bytes.extend_from_slice(b"trailing");
        assert_eq!(parse_header(&bytes), Ok((header(base, base), 8)));
    }
}

#[test]
fn two_label_header_round_trips_for_every_pair() {
    for read_base in NAMED {
        for calc_base in NAMED {
            let mut bytes = b"PiZ\t".to_vec();
            bytes.extend_from_slice(read_base.label());
            bytes.push(b'\t');
            bytes.extend_from_slice(calc_base.label());
            bytes.push(b'\n');
            assert_eq!(parse_header(&bytes), Ok((header(read_base, calc_base), 12)));
            bytes.extend_from_slice(b"\tmeta\n2\n\n");
            assert_eq!(parse_header(&bytes), Ok((header(read_base, calc_base), 12)));
        }
    }
}

#[test]
fn header_cursor_stops_after_the_line_feed() {
    let bytes = b"PiZ\tDec\tHex\nHex\n";
    let (_, next) = parse_header(bytes).unwrap();
    assert_eq!(next, 12);
    assert_eq!(bytes[next], b'H');
}

#[test]
fn wrong_magic_is_a_violation_at_the_start() {
    assert_eq!(parse_header(b""), Err(violation(0)));
    assert_eq!(parse_header(b"Pi"), Err(violation(0)));
    assert_eq!(parse_header(b"PiX\n"), Err(violation(0)));
    assert_eq!(parse_header(b"piz\n"), Err(violation(0)));
    assert_eq!(parse_header(b"\nPiZ\n"), Err(violation(0)));
    assert_eq!(parse_header(b"ZiP\tDec\tHex\n"), Err(violation(0)));
}

#[test]
fn byte_after_magic_must_be_line_feed_or_tab() {
    assert_eq!(parse_header(b"PiZ"), Err(violation(3)));
    assert_eq!(parse_header(b"PiZ "), Err(violation(3)));
    assert_eq!(parse_header(b"PiZ\r\n"), Err(violation(3)));
    assert_eq!(parse_header(b"PiZ2\n\n"), Err(violation(3)));
}

#[test]
fn malformed_first_label_is_a_violation_at_the_label() {
    assert_eq!(parse_header(b"PiZ\t"), Err(violation(4)));
    assert_eq!(parse_header(b"PiZ\tHe"), Err(violation(4)));
    assert_eq!(parse_header(b"PiZ\tFoo\n"), Err(violation(4)));
    assert_eq!(parse_header(b"PiZ\t\tHex\n"), Err(violation(4)));
    assert_eq!(parse_header(b"PiZ\thex\n"), Err(violation(4)));
}

#[test]
fn byte_after_first_label_must_be_line_feed_or_tab() {
    assert_eq!(parse_header(b"PiZ\tHex"), Err(violation(7)));
    assert_eq!(parse_header(b"PiZ\tHex "), Err(violation(7)));
    assert_eq!(parse_header(b"PiZ\tHexa\n"), Err(violation(7)));
}

#[test]
fn malformed_second_label_is_a_violation_at_the_label() {
    assert_eq!(parse_header(b"PiZ\tDec\t"), Err(violation(8)));
    assert_eq!(parse_header(b"PiZ\tDec\tHe"), Err(violation(8)));
    assert_eq!(parse_header(b"PiZ\tDec\tXXX\n"), Err(violation(8)));
    assert_eq!(parse_header(b"PiZ\tDec\t\n"), Err(violation(8)));
}

#[test]
fn second_label_must_be_followed_by_line_feed() {
    assert_eq!(parse_header(b"PiZ\tDec\tHex"), Err(violation(11)));
    assert_eq!(parse_header(b"PiZ\tDec\tHex\t"), Err(violation(11)));
    assert_eq!(parse_header(b"PiZ\tDec\tHex\tBin\n"), Err(violation(11)));
    assert_eq!(parse_header(b"PiZ\tDec\tHex \n"), Err(violation(11)));
}

#[test]
fn no_metadata_means_body_starts_at_once() {
    assert_eq!(skip_metadata(b"PiZ\n2\n\n", 4), Ok(4));
    assert_eq!(skip_metadata(b"\n", 0), Ok(0));
    assert_eq!(skip_metadata(b"2\n\t0\n\n", 0), Ok(0));
}

#[test]
fn metadata_lines_are_skipped_whole() {
    let bytes = b"PiZ\n\tname: example\n\t\n\t\t\ttabs inside\t\n2\n\t0\n\n";
    let start = skip_metadata(bytes, 4).unwrap();
    assert_eq!(bytes[start], b'2');
    assert_eq!(&bytes[start..], b"2\n\t0\n\n");
    assert_eq!(start, 37);
}

#[test]
fn metadata_content_is_opaque() {
    let bytes = b"\tPiZ\tHex\tDec\r\x00\xff 12345\n\n";
    assert_eq!(skip_metadata(bytes, 0), Ok(bytes.len() - 1));
}

#[test]
fn input_ending_in_metadata_is_a_violation_at_the_end() {
    assert_eq!(skip_metadata(b"PiZ\n", 4), Err(violation(4)));
    assert_eq!(skip_metadata(b"", 0), Err(violation(0)));
    assert_eq!(skip_metadata(b"\tunterminated", 0), Err(violation(13)));
    assert_eq!(skip_metadata(b"\tone\n\ttwo", 0), Err(violation(9)));
    assert_eq!(skip_metadata(b"\tone\n\ttwo\n", 0), Err(violation(10)));
    assert_eq!(skip_metadata(b"PiZ\n\tmeta\n", 4), Err(violation(10)));
}
