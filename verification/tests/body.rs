use piz::{parse_to_end, Block, DecodeError};

fn block(length: u32, positions: &[u32]) -> Block {
    Block { length, positions: positions.to_vec() }
}

fn parse(body: &[u8]) -> Result<Vec<Block>, DecodeError> {
    parse_to_end(body[0], &body[1..])
}

fn violation(offset: usize) -> Result<Vec<Block>, DecodeError> {
    Err(DecodeError::FormatViolation { offset })
}

fn overflow(offset: usize) -> Result<Vec<Block>, DecodeError> {
    Err(DecodeError::NumericOverflow { offset })
}

fn write_body(storage: &[Block]) -> Vec<u8> {
    let mut out = Vec::new();
    for b in storage {
        out.extend_from_slice(format!("{}\n", b.length).as_bytes());
        for p in &b.positions {
            out.extend_from_slice(format!("\t{}\n", p).as_bytes());
        }
    }
    out.push(b'\n');
    out
}

#[test]
fn empty_body_is_just_the_terminator() {
    assert_eq!(parse_to_end(b'\n', b""), Ok(vec![]));
    assert_eq!(parse(b"\n"), Ok(vec![]));
    assert_eq!(parse(b"\n2\n\t0\n\n"), Ok(vec![]));
}

#[test]
fn one_block_one_position() {
    assert_eq!(parse_to_end(b'2', b"\n\t0\n\n"), Ok(vec![block(2, &[0])]));
}

#[test]
fn block_without_positions() {
    assert_eq!(parse(b"8\n\n"), Ok(vec![block(8, &[])]));
    assert_eq!(parse(b"8\n6\n\n"), Ok(vec![block(8, &[]), block(6, &[])]));
}

#[test]
fn blocks_and_positions_keep_file_order() {
    let body = b"12\n\t3\n\t45\n\t3\n6\n2\n\t100\n\t7\n\n";
    assert_eq!(
        parse(body),
        Ok(vec![block(12, &[3, 45, 3]), block(6, &[]), block(2, &[100, 7])])
    );
}

#[test]
fn equal_lengths_are_not_merged() {
    assert_eq!(parse(b"2\n\t1\n2\n\t1\n\n"), Ok(vec![block(2, &[1]), block(2, &[1])]));
}

#[test]
fn bytes_after_the_terminator_are_ignored() {
    assert_eq!(parse(b"2\n\t0\n\nnot a body at all"), Ok(vec![block(2, &[0])]));
    assert_eq!(parse(b"2\n\n\t5\n"), Ok(vec![block(2, &[])]));
}

#[test]
fn leading_zeros_are_digits() {
    assert_eq!(parse(b"007\n\t000\n\t0010\n\n"), Ok(vec![block(7, &[0, 10])]));
    assert_eq!(parse(b"00000000000000000001\n\n"), Ok(vec![block(1, &[])]));
}

#[test]
fn odd_lengths_are_parsed() {
    assert_eq!(parse(b"3\n\t9\n\n"), Ok(vec![block(3, &[9])]));
}

#[test]
fn largest_literal_fits() {
    assert_eq!(
        parse(b"4294967295\n\t4294967295\n\n"),
        Ok(vec![block(u32::MAX, &[u32::MAX])])
    );
    assert_eq!(parse(b"4294967294\n\n"), Ok(vec![block(4294967294, &[])]));
}

#[test]
fn literal_beyond_32_bits_overflows_at_the_digit() {
    assert_eq!(parse(b"4294967296\n\n"), overflow(9));
    assert_eq!(parse(b"4294967300\n\n"), overflow(9));
    assert_eq!(parse(b"5000000000\n\n"), overflow(9));
    assert_eq!(parse(b"42949672950\n\n"), overflow(10));
    assert_eq!(parse(b"0004294967296\n\n"), overflow(12));
    assert_eq!(parse(b"2\n\t99999999999\n\n"), overflow(12));
}

#[test]
fn overflow_comes_before_a_later_bad_byte() {
    assert_eq!(parse(b"99999999999x\n\n"), overflow(9));
    assert_eq!(parse(b"99999999999"), overflow(9));
}

#[test]
fn bad_byte_comes_before_a_later_overflow() {
    assert_eq!(parse(b"12x99999999999\n\n"), violation(2));
}

#[test]
fn non_digit_in_length_is_a_violation() {
    assert_eq!(parse(b"x\n\n"), violation(0));
    assert_eq!(parse(b"2x\n\n"), violation(1));
    assert_eq!(parse(b"2 \n\n"), violation(1));
    assert_eq!(parse(b"-2\n\n"), violation(0));
    assert_eq!(parse(b"2\r\n\r\n"), violation(1));
    assert_eq!(parse(b"2\t0\n\n"), violation(1));
}

#[test]
fn non_digit_in_position_is_a_violation() {
    assert_eq!(parse(b"2\n\t1a\n\n"), violation(4));
    assert_eq!(parse(b"2\n\t\t1\n\n"), violation(3));
    assert_eq!(parse(b"2\n\t 1\n\n"), violation(3));
    assert_eq!(parse(b"2\n\t1\n\t2;\n\n"), violation(7));
}

#[test]
fn literal_needs_a_digit() {
    assert_eq!(parse(b"2\n\t\n\n"), violation(3));
    assert_eq!(parse(b"\t1\n\n"), violation(0));
}

#[test]
fn stray_byte_where_a_line_starts_is_a_violation() {
    assert_eq!(parse(b"2\n\t0\n \n"), violation(5));
    assert_eq!(parse(b"2\nx\n"), violation(2));
}

#[test]
fn end_of_input_is_a_violation_at_the_end() {
    assert_eq!(parse(b"2"), violation(1));
    assert_eq!(parse(b"2\n"), violation(2));
    assert_eq!(parse(b"2\n\t"), violation(3));
    assert_eq!(parse(b"2\n\t0"), violation(4));
    assert_eq!(parse(b"2\n\t0\n"), violation(5));
    assert_eq!(parse(b"2\n\t0\n3"), violation(6));
    assert_eq!(parse_to_end(b'7', b""), violation(1));
}

#[test]
fn current_byte_is_part_of_the_first_literal() {
    assert_eq!(parse_to_end(b'1', b"2\n\n"), Ok(vec![block(12, &[])]));
    assert_eq!(parse_to_end(b'0', b"\n\n"), Ok(vec![block(0, &[])]));
}

#[test]
fn written_body_is_read_back() {
    let plans: Vec<Vec<Block>> = vec![
        vec![],
        vec![block(0, &[])],
        vec![block(2, &[0])],
        vec![block(4, &[0, 1, 2, 3]), block(10, &[]), block(2, &[4294967295, 0, 77])],
        vec![block(4294967294, &[10, 100, 1000, 10000, 100000, 1000000])],
        vec![block(6, &[5]), block(6, &[5]), block(6, &[5])],
    ];
    for plan in plans {
        let bytes = write_body(&plan);
        assert_eq!(parse(&bytes), Ok(plan.clone()));
        let mut longer = bytes.clone();
        longer.extend_from_slice(b"\t1\n2\n");
        assert_eq!(parse(&longer), Ok(plan));
    }
}

#[test]
fn written_body_has_the_expected_bytes() {
    let plan = vec![block(12, &[3, 45]), block(6, &[])];
    assert_eq!(write_body(&plan), b"12\n\t3\n\t45\n6\n\n");
    assert_eq!(parse(b"12\n\t3\n\t45\n6\n\n"), Ok(plan));
}
