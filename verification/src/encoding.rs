//! How a decode plan is written as an archive body, and the proof that the
//! body parser reads it back.

use vstd::prelude::*;
use crate::base::{LF, TAB};
use crate::body::{
    block_parse, body_parse, decimal_value, first_overflow, is_digit, lemma_digit_run, literal,
    positions_parse, BlockView, DIGIT_ZERO,
};
use crate::error::Fault;

verus! {

/// The decimal digits of `n`, most significant first, without leading zeros.
pub open spec fn decimal_digits(n: nat) -> Seq<u8>
    decreases n,
{
    if n < 10 {
        seq![(DIGIT_ZERO + n) as u8]
    } else {
        decimal_digits(n / 10).push((DIGIT_ZERO + n % 10) as u8)
    }
}

/// A literal line: the digits of `n` and a line feed.
pub open spec fn literal_line(n: u32) -> Seq<u8> {
    decimal_digits(n as nat).push(LF)
}

/// The position lines of a block: a tab and a literal line for each position.
pub open spec fn position_lines(positions: Seq<u32>) -> Seq<u8>
    decreases positions.len(),
{
    if positions.len() == 0 {
        Seq::empty()
    } else {
        seq![TAB] + literal_line(positions.first()) + position_lines(positions.drop_first())
    }
}

/// A block as it is written: its length line and its position lines.
pub open spec fn block_lines(block: BlockView) -> Seq<u8> {
    literal_line(block.length) + position_lines(block.positions)
}

/// A body as it is written: its blocks, and the empty line that ends it.
pub open spec fn body_lines(storage: Seq<BlockView>) -> Seq<u8>
    decreases storage.len(),
{
    if storage.len() == 0 {
        seq![LF]
    } else {
        block_lines(storage.first()) + body_lines(storage.drop_first())
    }
}

/// The digits of a number are digits, there is at least one of them, and
/// they denote the number.
pub proof fn lemma_decimal_digits(n: nat)
    ensures
        decimal_digits(n).len() >= 1,
        forall|k: int| 0 <= k < decimal_digits(n).len() ==> is_digit(#[trigger] decimal_digits(n)[k]),
        decimal_value(decimal_digits(n)) == n,
    decreases n,
{
    let digits = decimal_digits(n);
    if n < 10 {
        assert(digits.drop_last() =~= Seq::<u8>::empty());
        assert(decimal_value(digits.drop_last()) == 0);
    } else {
        lemma_decimal_digits(n / 10);
        assert(digits.drop_last() =~= decimal_digits(n / 10));
    }
}

/// Reading more digits never makes the number smaller, so a number within
/// 32 bits has no overflow among its digits.
pub proof fn lemma_no_overflow(s: Seq<u8>, n: nat)
    requires
        n <= s.len(),
        decimal_value(s.take(n as int)) <= u32::MAX,
    ensures
        first_overflow(s, n) is None,
    decreases n,
{
    if n > 0 {
        assert(s.take(n as int).drop_last() =~= s.take(n - 1));
        lemma_no_overflow(s, (n - 1) as nat);
    }
}

/// A literal line is read back as its number, whatever follows it.
pub proof fn lemma_literal_round_trip(n: u32, rest: Seq<u8>)
    ensures
        literal(literal_line(n) + rest) == Ok::<_, Fault>((n, literal_line(n).len())),
        literal_line(n).len() >= 2,
        is_digit(literal_line(n)[0]),
{
    let digits = decimal_digits(n as nat);
    let s = literal_line(n) + rest;
    let count = digits.len();
    lemma_decimal_digits(n as nat);
    assert forall|k: int| 0 <= k < count implies is_digit(s[k]) by {
        assert(s[k] == digits[k]);
    }
    assert(s[count as int] == LF);
    lemma_digit_run(s, count);
    assert(s.take(count as int) =~= digits);
    lemma_no_overflow(s, count);
    assert(literal_line(n)[0] == digits[0]);
}

/// Position lines are read back as their positions, provided that what
/// follows them does not itself start like a position line.
pub proof fn lemma_positions_round_trip(positions: Seq<u32>, rest: Seq<u8>)
    requires
        rest.len() == 0 || rest[0] != TAB,
    ensures
        positions_parse(position_lines(positions) + rest) == Ok::<_, Fault>(
            (positions, position_lines(positions).len()),
        ),
    decreases positions.len(),
{
    let s = position_lines(positions) + rest;
    if positions.len() == 0 {
        assert(s =~= rest);
        assert(positions =~= Seq::<u32>::empty());
    } else {
        let line = literal_line(positions.first());
        let others = positions.drop_first();
        let after = position_lines(others) + rest;
        lemma_literal_round_trip(positions.first(), after);
        lemma_positions_round_trip(others, rest);
        assert(s[0] == TAB);
        assert(s.skip(1) =~= line + after);
        assert(s.skip((1 + line.len()) as int) =~= after);
        assert(seq![positions.first()] + others =~= positions);
    }
}

/// A written body starts with a digit or with the line feed that ends it.
pub proof fn lemma_body_lines_start(storage: Seq<BlockView>)
    ensures
        body_lines(storage).len() >= 1,
        body_lines(storage)[0] != TAB,
        storage.len() > 0 ==> is_digit(body_lines(storage)[0]),
{
    if storage.len() > 0 {
        let block = storage.first();
        lemma_literal_round_trip(block.length, Seq::empty());
        assert(body_lines(storage)[0] == literal_line(block.length)[0]);
    }
}

/// A written block is read back as the block, provided that what follows it
/// does not start like a position line.
pub proof fn lemma_block_round_trip(block: BlockView, rest: Seq<u8>)
    requires
        rest.len() == 0 || rest[0] != TAB,
    ensures
        block_parse(block_lines(block) + rest) == Ok::<_, Fault>((block, block_lines(block).len())),
        block_lines(block).len() >= 2,
        is_digit(block_lines(block)[0]),
{
    let s = block_lines(block) + rest;
    let line = literal_line(block.length);
    let after = position_lines(block.positions) + rest;
    lemma_literal_round_trip(block.length, after);
    lemma_positions_round_trip(block.positions, rest);
    assert(s =~= line + after);
    assert(s.skip(line.len() as int) =~= after);
    assert(block_lines(block)[0] == line[0]);
}

/// Writing a decode plan as a body and parsing that body gives the plan
/// back: the same blocks in the same order, each with the same positions in
/// the same order. The parser takes exactly the bytes that were written.
pub proof fn lemma_body_round_trip(storage: Seq<BlockView>, rest: Seq<u8>)
    ensures
        body_parse(body_lines(storage) + rest) == Ok::<_, Fault>(
            (storage, body_lines(storage).len()),
        ),
    decreases storage.len(),
{
    let s = body_lines(storage) + rest;
    if storage.len() == 0 {
        assert(s[0] == LF);
        assert(storage =~= Seq::<BlockView>::empty());
    } else {
        let block = storage.first();
        let others = storage.drop_first();
        let written = block_lines(block);
        let after = body_lines(others) + rest;
        lemma_body_lines_start(others);
        assert(after[0] == body_lines(others)[0]);
        lemma_block_round_trip(block, after);
        lemma_body_round_trip(others, rest);
        assert(s =~= written + after);
        assert(s[0] == written[0]);
        assert(s.skip(written.len() as int) =~= after);
        assert(seq![block] + others =~= storage);
    }
}

} // verus!
