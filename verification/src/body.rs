//! The archive body: blocks of a digit count and the positions that share it.
//!
//! ```text
//! body       := block* terminator
//! block      := length LF position*
//! length     := D+
//! position   := TAB D+ LF
//! terminator := LF
//! ```
//!
//! `D` is an ASCII decimal digit. Every literal must fit in 32 bits.

use vstd::prelude::*;
use crate::base::{LF, TAB};
use crate::error::{located, outcome, DecodeError, Fault, Parsed};

verus! {

/// ASCII `0`.
pub const DIGIT_ZERO: u8 = 48;

/// ASCII `9`.
pub const DIGIT_NINE: u8 = 57;

/// One group of the decode plan: a digit count and the digit offsets at which
/// that many digits are to be taken, in the order in which they are decoded.
#[derive(Debug, Clone, PartialEq, Eq)]
pub struct Block {
    /// How many digits to take at each position.
    pub length: u32,
    /// Zero-based digit offsets into the fractional digits of π.
    pub positions: Vec<u32>,
}

/// The mathematical reading of a [`Block`].
pub struct BlockView {
    pub length: u32,
    pub positions: Seq<u32>,
}

impl View for Block {
    type V = BlockView;

    open spec fn view(&self) -> BlockView {
        BlockView { length: self.length, positions: self.positions@ }
    }
}

/// The mathematical reading of a decode plan.
pub open spec fn storage_view(blocks: Seq<Block>) -> Seq<BlockView> {
    blocks.map_values(|b: Block| b@)
}

/// Whether `b` is an ASCII decimal digit.
pub open spec fn is_digit(b: u8) -> bool {
    DIGIT_ZERO <= b <= DIGIT_NINE
}

/// Number of decimal digits that stand at the front of `s`.
pub open spec fn digit_run(s: Seq<u8>) -> nat
    decreases s.len(),
{
    if s.len() > 0 && is_digit(s[0]) {
        1 + digit_run(s.skip(1))
    } else {
        0
    }
}

/// The number that a string of decimal digits denotes, most significant
/// digit first. The empty string denotes zero.
pub open spec fn decimal_value(digits: Seq<u8>) -> nat
    decreases digits.len(),
{
    if digits.len() == 0 {
        0
    } else {
        10 * decimal_value(digits.drop_last()) + (digits.last() - DIGIT_ZERO) as nat
    }
}

/// The first place among the leading `n` bytes of `s` at which the digits
/// read so far denote more than 32 bits can hold.
pub open spec fn first_overflow(s: Seq<u8>, n: nat) -> Option<nat>
    decreases n,
{
    if n == 0 {
        None
    } else {
        match first_overflow(s, (n - 1) as nat) {
            Some(k) => Some(k),
            None => if decimal_value(s.take(n as int)) > u32::MAX {
                Some((n - 1) as nat)
            } else {
                None
            },
        }
    }
}

/// Reads a literal line from the front of `s`: one or more digits and a line
/// feed.
///
/// The digits are read left to right, so a literal that grows past 32 bits
/// is an overflow at the digit that takes it there, whatever follows. A byte
/// that is neither a digit nor, after at least one digit, the line feed is a
/// format violation at that byte; so is the end of `s`.
pub open spec fn literal(s: Seq<u8>) -> Parsed<u32> {
    let n = digit_run(s);
    match first_overflow(s, n) {
        Some(k) => Err(Fault::NumericOverflow { offset: k }),
        None => {
            if n > 0 && n < s.len() && s[n as int] == LF {
                Ok((decimal_value(s.take(n as int)) as u32, n + 1))
            } else {
                Err(Fault::FormatViolation { offset: n })
            }
        },
    }
}

/// A parse of the rest of a list, `base` bytes in, joined to the items `done`
/// that were read before it.
pub open spec fn continued<T>(done: Seq<T>, base: nat, rest: Parsed<Seq<T>>) -> Parsed<Seq<T>> {
    match rest {
        Ok((items, used)) => Ok((done + items, base + used)),
        Err(fault) => Err(fault.shifted(base)),
    }
}

/// Reads the position lines at the front of `s`: every line that starts with
/// a tab, each holding one literal.
pub open spec fn positions_parse(s: Seq<u8>) -> Parsed<Seq<u32>>
    decreases s.len(),
{
    if s.len() > 0 && s[0] == TAB {
        match literal(s.skip(1)) {
            Err(fault) => Err(fault.shifted(1)),
            Ok((position, used)) => continued(
                seq![position],
                1 + used,
                positions_parse(s.skip((1 + used) as int)),
            ),
        }
    } else {
        Ok((Seq::empty(), 0))
    }
}

/// Reads a block from the front of `s`: a length line and the position lines
/// under it.
pub open spec fn block_parse(s: Seq<u8>) -> Parsed<BlockView> {
    match literal(s) {
        Err(fault) => Err(fault),
        Ok((length, used)) => match positions_parse(s.skip(used as int)) {
            Err(fault) => Err(fault.shifted(used)),
            Ok((positions, more)) => Ok((BlockView { length, positions }, used + more)),
        },
    }
}

/// A block takes at least two bytes and no more than there are.
pub proof fn lemma_block_parse_bounds(s: Seq<u8>)
    ensures
        block_parse(s) matches Ok((_, used)) ==> 2 <= used <= s.len(),
{
    if let Ok((_, used)) = literal(s) {
        lemma_positions_parse_bounds(s.skip(used as int));
    }
}

/// Position lines take no more bytes than there are.
pub proof fn lemma_positions_parse_bounds(s: Seq<u8>)
    ensures
        positions_parse(s) matches Ok((positions, used)) ==> used <= s.len() && (used == 0
            <==> positions.len() == 0),
    decreases s.len(),
{
    if s.len() > 0 && s[0] == TAB {
        if let Ok((_, used)) = literal(s.skip(1)) {
            lemma_positions_parse_bounds(s.skip((1 + used) as int));
        }
    }
}

/// Reads a body from the front of `s`: blocks up to the empty line that ends
/// it.
pub open spec fn body_parse(s: Seq<u8>) -> Parsed<Seq<BlockView>>
    decreases s.len(),
    via body_parse_terminates
{
    if s.len() == 0 {
        Err(Fault::FormatViolation { offset: 0 })
    } else if s[0] == LF {
        Ok((Seq::empty(), 1))
    } else {
        match block_parse(s) {
            Err(fault) => Err(fault),
            Ok((block, used)) => continued(seq![block], used, body_parse(s.skip(used as int))),
        }
    }
}

#[via_fn]
proof fn body_parse_terminates(s: Seq<u8>) {
    lemma_block_parse_bounds(s);
}

/// The decode plan that the body at the front of `s` describes.
pub open spec fn body_storage(s: Seq<u8>) -> Result<Seq<BlockView>, Fault> {
    match body_parse(s) {
        Ok((blocks, _)) => Ok(blocks),
        Err(fault) => Err(fault),
    }
}

/// When the first `n` bytes of `s` are digits and the next is not, the digit
/// run at the front of `s` has length `n`.
pub proof fn lemma_digit_run(s: Seq<u8>, n: nat)
    requires
        n <= s.len(),
        forall|k: int| 0 <= k < n ==> is_digit(s[k]),
        n == s.len() || !is_digit(s[n as int]),
    ensures
        digit_run(s) == n,
    decreases n,
{
    if n > 0 {
        let t = s.skip(1);
        assert forall|k: int| 0 <= k < n - 1 implies is_digit(t[k]) by {
            assert(t[k] == s[k + 1]);
        }
        lemma_digit_run(t, (n - 1) as nat);
    }
}

/// When the first `n` bytes of `s` are digits, the digit run at the front of
/// `s` is at least that long.
pub proof fn lemma_digit_run_at_least(s: Seq<u8>, n: nat)
    requires
        n <= s.len(),
        forall|k: int| 0 <= k < n ==> is_digit(s[k]),
    ensures
        digit_run(s) >= n,
    decreases n,
{
    if n > 0 {
        let t = s.skip(1);
        assert forall|k: int| 0 <= k < n - 1 implies is_digit(t[k]) by {
            assert(t[k] == s[k + 1]);
        }
        lemma_digit_run_at_least(t, (n - 1) as nat);
    }
}

/// An overflow found among the first `m` bytes is still the first one among
/// any longer front.
pub proof fn lemma_first_overflow_stays(s: Seq<u8>, m: nat, n: nat)
    requires
        m <= n,
        first_overflow(s, m) is Some,
    ensures
        first_overflow(s, n) == first_overflow(s, m),
    decreases n,
{
    if m < n {
        lemma_first_overflow_stays(s, m, (n - 1) as nat);
    }
}

/// The bytes that a stream parser sees: the byte already taken from the
/// stream, then the bytes still in it.
pub open spec fn stream(first: u8, rest: Seq<u8>) -> Seq<u8> {
    seq![first] + rest
}

/// The byte at index `i` of the stream made of `first` and `rest`.
fn stream_byte(first: u8, rest: &[u8], i: usize) -> (b: u8)
    requires
        i <= rest.len(),
    ensures
        b == stream(first, rest@)[i as int],
{
    if i == 0 {
        first
    } else {
        rest[i - 1]
    }
}

/// Whether the stream holds a decimal digit at index `i`.
fn digit_at(first: u8, rest: &[u8], i: usize) -> (yes: bool)
    requires
        i <= rest.len(),
    ensures
        yes == is_digit(stream(first, rest@)[i as int]),
{
    let b = stream_byte(first, rest, i);
    DIGIT_ZERO <= b && b <= DIGIT_NINE
}

/// Parses one literal line of the stream, starting at index `start`.
fn parse_literal(first: u8, rest: &[u8], start: usize) -> (r: Result<(u32, usize), DecodeError>)
    requires
        rest.len() < usize::MAX,
        start <= rest.len() + 1,
    ensures
        outcome(r) == located(literal(stream(first, rest@).skip(start as int)), start as nat),
        r matches Err(e) ==> e@.within((rest.len() + 1) as nat),
{
    let ghost line = stream(first, rest@).skip(start as int);
    let total = rest.len() + 1;
    let mut value: u32 = 0;
    let mut j = start;
    while j < total && digit_at(first, rest, j)
        invariant
            start <= j <= total,
            total == rest.len() + 1,
            line == stream(first, rest@).skip(start as int),
            forall|k: int| 0 <= k < j - start ==> is_digit(line[k]),
            value == decimal_value(line.take(j - start)),
            first_overflow(line, (j - start) as nat) is None,
        decreases total - j,
    {
        let digit = stream_byte(first, rest, j) - DIGIT_ZERO;
        assert(line[j - start] == stream(first, rest@)[j as int]);
        assert(line.take(j - start + 1).drop_last() =~= line.take(j - start));
        let next: u64 = value as u64 * 10 + digit as u64;
        if next > u32::MAX as u64 {
            proof {
                let m = (j - start + 1) as nat;
                lemma_digit_run_at_least(line, m);
                lemma_first_overflow_stays(line, m, digit_run(line));
            }
            return Err(DecodeError::NumericOverflow { offset: j });
        }
        value = next as u32;
        j += 1;
    }
    proof {
        if j < total {
            assert(line[j - start] == stream(first, rest@)[j as int]);
        }
        lemma_digit_run(line, (j - start) as nat);
    }
    if j > start && j < total && stream_byte(first, rest, j) == LF {
        Ok((value, j + 1))
    } else {
        Err(DecodeError::FormatViolation { offset: j })
    }
}

/// Reading one more item of a list and then the rest is reading the rest
/// after the items read so far and that one.
pub proof fn lemma_continued_step<T>(
    done: Seq<T>,
    base: nat,
    item: T,
    used: nat,
    rest: Parsed<Seq<T>>,
)
    ensures
        continued(done, base, continued(seq![item], used, rest)) == continued(
            done.push(item),
            base + used,
            rest,
        ),
{
    match rest {
        Ok((items, _)) => {
            assert(done + (seq![item] + items) =~= done.push(item) + items);
        },
        Err(_) => {},
    }
}

/// A list that ends here is the items read so far.
pub proof fn lemma_continued_end<T>(done: Seq<T>, base: nat, used: nat)
    ensures
        continued(done, base, Ok((Seq::<T>::empty(), used))) == Ok::<_, Fault>((done, base + used)),
{
    assert(done + Seq::<T>::empty() =~= done);
}

/// Reading a list from the start is reading it after no items.
pub proof fn lemma_continued_start<T>(base: nat, rest: Parsed<Seq<T>>)
    ensures
        continued(Seq::<T>::empty(), base, rest) == located(rest, base),
{
    match rest {
        Ok((items, _)) => {
            assert(Seq::<T>::empty() + items =~= items);
        },
        Err(_) => {},
    }
}

/// How the position lines at the front of `s` unfold once the literal of the
/// first of them has been read.
proof fn lemma_positions_parse_step(s: Seq<u8>, position: u32, used: nat)
    requires
        s.len() > 0,
        s[0] == TAB,
        literal(s.skip(1)) == Ok::<_, Fault>((position, used)),
    ensures
        positions_parse(s) == continued(
            seq![position],
            1 + used,
            positions_parse(s.skip((1 + used) as int)),
        ),
{
}

/// How the body at the front of `s` unfolds once its first block has been
/// read.
proof fn lemma_body_parse_step(s: Seq<u8>, block: BlockView, used: nat)
    requires
        s.len() > 0,
        s[0] != LF,
        block_parse(s) == Ok::<_, Fault>((block, used)),
    ensures
        body_parse(s) == continued(seq![block], used, body_parse(s.skip(used as int))),
{
}

/// The model's reading of what the position parser returned.
spec fn positions_outcome(r: Result<(Vec<u32>, usize), DecodeError>) -> Parsed<Seq<u32>> {
    match r {
        Ok((positions, end)) => Ok((positions@, end as nat)),
        Err(e) => Err(e@),
    }
}

/// Parses the position lines of the stream that start at index `start`.
fn parse_positions(first: u8, rest: &[u8], start: usize) -> (r: Result<
    (Vec<u32>, usize),
    DecodeError,
>)
    requires
        rest.len() < usize::MAX,
        start <= rest.len() + 1,
    ensures
        positions_outcome(r) == located(
            positions_parse(stream(first, rest@).skip(start as int)),
            start as nat,
        ),
        r matches Ok((_, end)) ==> start <= end <= rest.len() + 1,
        r matches Err(e) ==> e@.within((rest.len() + 1) as nat),
{
    let ghost all = stream(first, rest@);
    let ghost whole = located(positions_parse(all.skip(start as int)), start as nat);
    let total = rest.len() + 1;
    let mut positions: Vec<u32> = Vec::new();
    let mut i = start;
    proof {
        lemma_continued_start(start as nat, positions_parse(all.skip(start as int)));
    }
    loop
        invariant
            start <= i <= total,
            total == rest.len() + 1,
            rest.len() < usize::MAX,
            all == stream(first, rest@),
            whole == located(positions_parse(all.skip(start as int)), start as nat),
            whole == continued(positions@, i as nat, positions_parse(all.skip(i as int))),
        decreases total - i,
    {
        let ghost line = all.skip(i as int);
        if i == total || stream_byte(first, rest, i) != TAB {
            proof {
                if i < total {
                    assert(line[0] == all[i as int]);
                }
                lemma_continued_end(positions@, i as nat, 0);
            }
            return Ok((positions, i));
        }
        assert(line[0] == all[i as int]);
        assert(line.skip(1) =~= all.skip(i + 1));
        match parse_literal(first, rest, i + 1) {
            Err(e) => {
                return Err(e);
            },
            Ok((position, next)) => {
                proof {
                    let used = (next - i - 1) as nat;
                    assert(line.skip((1 + used) as int) =~= all.skip(next as int));
                    lemma_positions_parse_step(line, position, used);
                    lemma_continued_step(
                        positions@,
                        i as nat,
                        position,
                        1 + used,
                        positions_parse(all.skip(next as int)),
                    );
                }
                positions.push(position);
                i = next;
            },
        }
    }
}

/// The model's reading of what the block parser returned.
spec fn block_outcome(r: Result<(Block, usize), DecodeError>) -> Parsed<BlockView> {
    match r {
        Ok((block, end)) => Ok((block@, end as nat)),
        Err(e) => Err(e@),
    }
}

/// Parses the block of the stream that starts at index `start`: its length
/// line and the position lines under it.
fn parse_block(first: u8, rest: &[u8], start: usize) -> (r: Result<(Block, usize), DecodeError>)
    requires
        rest.len() < usize::MAX,
        start <= rest.len() + 1,
    ensures
        block_outcome(r) == located(
            block_parse(stream(first, rest@).skip(start as int)),
            start as nat,
        ),
        r matches Ok((_, end)) ==> start < end <= rest.len() + 1,
        r matches Err(e) ==> e@.within((rest.len() + 1) as nat),
{
    let ghost tail = stream(first, rest@).skip(start as int);
    let (length, after_length) = match parse_literal(first, rest, start) {
        Err(e) => {
            return Err(e);
        },
        Ok(found) => found,
    };
    assert(tail.skip(after_length - start) =~= stream(first, rest@).skip(after_length as int));
    match parse_positions(first, rest, after_length) {
        Err(e) => Err(e),
        Ok((positions, end)) => Ok((Block { length, positions }, end)),
    }
}

/// The model's reading of what the body parser returned.
pub open spec fn storage_outcome(r: Result<Vec<Block>, DecodeError>) -> Result<
    Seq<BlockView>,
    Fault,
> {
    match r {
        Ok(blocks) => Ok(storage_view(blocks@)),
        Err(e) => Err(e@),
    }
}

/// Parses the body of an archive from a stream of which one byte has already
/// been taken.
///
/// `data_byte` is the first byte of the body and `bytes` is what follows it.
/// Returns the blocks in the order in which they are written, each with its
/// positions in the order in which they are written, up to the empty line
/// that ends the body; bytes after that line are not looked at. An empty
/// line where the first length was expected gives no blocks. A byte that the
/// grammar does not allow, or the end of the stream before the terminator, is
/// a format violation, and a literal beyond 32 bits is an overflow. Offsets
/// in errors count from `data_byte`.
pub fn parse_to_end(data_byte: u8, bytes: &[u8]) -> (r: Result<Vec<Block>, DecodeError>)
    requires
        bytes.len() < usize::MAX,
    ensures
        storage_outcome(r) == body_storage(stream(data_byte, bytes@)),
        r matches Err(e) ==> e@.within((bytes.len() + 1) as nat),
{
    let ghost all = stream(data_byte, bytes@);
    let total = bytes.len() + 1;
    let mut storage: Vec<Block> = Vec::new();
    let mut i: usize = 0;
    proof {
        assert(all.skip(0) =~= all);
        lemma_continued_start(0, body_parse(all));
    }
    loop
        invariant
            i <= total,
            total == bytes.len() + 1,
            bytes.len() < usize::MAX,
            all == stream(data_byte, bytes@),
            body_parse(all) == continued(
                storage_view(storage@),
                i as nat,
                body_parse(all.skip(i as int)),
            ),
        decreases total - i,
    {
        let ghost tail = all.skip(i as int);
        let ghost done = storage_view(storage@);
        if i == total {
            return Err(DecodeError::FormatViolation { offset: i });
        }
        assert(tail[0] == all[i as int]);
        if stream_byte(data_byte, bytes, i) == LF {
            proof {
                lemma_continued_end(done, i as nat, 1);
            }
            return Ok(storage);
        }
        let (block, next) = match parse_block(data_byte, bytes, i) {
            Err(e) => {
                return Err(e);
            },
            Ok(found) => found,
        };
        proof {
            let used = (next - i) as nat;
            assert(tail.skip(used as int) =~= all.skip(next as int));
            lemma_body_parse_step(tail, block@, used);
            lemma_continued_step(done, i as nat, block@, used, body_parse(all.skip(next as int)));
            assert(storage_view(storage@.push(block)) =~= done.push(block@));
        }
        storage.push(block);
        i = next;
    }
}

} // verus!
