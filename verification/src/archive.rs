//! From the bytes of an archive to the bytes of the document.
//!
//! The header settles the two numeral systems, the metadata after it is
//! skipped, the body gives the decode plan, and the plan is carried out: for
//! each block in the order of the archive, for each of its positions in the
//! order of the archive, the digits of π at that position are computed and
//! appended to the output.

use vstd::prelude::*;
use vstd::slice::slice_subrange;
use crate::base::{ArchiveHeader, NumberBase, LF, TAB};
use crate::body::{
    body_storage, parse_to_end, storage_outcome, storage_view, stream, Block, BlockView,
};
use crate::digits::{bytes_outcome, get_bytes_from_pi, pi_bytes};
use crate::error::{lemma_shifted_twice, rebased, DecodeError, Fault};
use crate::encoding::{body_lines, lemma_body_lines_start, lemma_body_round_trip};
use crate::header::{
    full_header, header_parse, is_metadata_line, lemma_header_parse_local,
    lemma_header_round_trip, lemma_metadata_length_bound, lemma_metadata_lines_are_skipped, magic, metadata_length, parse_header, skip_metadata,
};

verus! {

/// The decode plan in what follows the header: the metadata lines are
/// passed over, then the base in which the body is written is looked at,
/// since only decimal literals can be read, and then the body is parsed
/// from where the metadata ends.
pub open spec fn content_parse(read_base: NumberBase, s: Seq<u8>) -> Result<
    Seq<BlockView>,
    Fault,
> {
    match metadata_length(s) {
        Err(fault) => Err(fault),
        Ok(skipped) => {
            if read_base != NumberBase::Dec {
                Err(Fault::UnsupportedConfiguration)
            } else {
                rebased(body_storage(s.skip(skipped as int)), skipped)
            }
        },
    }
}

/// The header of the archive `s` and the decode plan in its body.
pub open spec fn archive_parse(s: Seq<u8>) -> Result<(ArchiveHeader, Seq<BlockView>), Fault> {
    match header_parse(s) {
        Err(fault) => Err(fault),
        Ok((header, used)) => match content_parse(header.read_base, s.skip(used as int)) {
            Err(fault) => Err(fault.shifted(used)),
            Ok(storage) => Ok((header, storage)),
        },
    }
}

/// The model's reading of what the archive parser returned.
pub open spec fn archive_outcome(r: Result<(ArchiveHeader, Vec<Block>), DecodeError>) -> Result<
    (ArchiveHeader, Seq<BlockView>),
    Fault,
> {
    match r {
        Ok((header, storage)) => Ok((header, storage_view(storage@))),
        Err(e) => Err(e@),
    }
}

/// Parses what follows the header, which ends at index `start`: passes
/// over the metadata lines and parses the body.
fn parse_content(archive: &[u8], start: usize, read_base: NumberBase) -> (r: Result<
    Vec<Block>,
    DecodeError,
>)
    requires
        start <= archive.len(),
    ensures
        storage_outcome(r) == rebased(
            content_parse(read_base, archive@.skip(start as int)),
            start as nat,
        ),
{
    let ghost content = archive@.skip(start as int);
    let body_start = match skip_metadata(archive, start) {
        Err(e) => {
            return Err(e);
        },
        Ok(index) => index,
    };
    let ghost skipped = (body_start - start) as nat;
    assert(metadata_length(content) == Ok::<nat, Fault>(skipped));
    match read_base {
        NumberBase::Dec => {},
        _ => {
            return Err(DecodeError::UnsupportedConfiguration);
        },
    }
    let data_byte = archive[body_start];
    let rest = slice_subrange(archive, body_start + 1, archive.len());
    assert(stream(data_byte, rest@) =~= archive@.skip(body_start as int));
    assert(content.skip(skipped as int) =~= archive@.skip(body_start as int));
    match parse_to_end(data_byte, rest) {
        Err(e) => {
            proof {
                lemma_shifted_twice(e@, skipped, start as nat);
            }
            Err(e.shifted(body_start))
        },
        Ok(storage) => Ok(storage),
    }
}

/// Parses an archive up to the end of its body: the header, the metadata
/// lines, which are dropped, and the blocks.
///
/// Offsets in errors count from the start of the archive. A header that
/// asks for literals in a base other than decimal is an unsupported
/// configuration, reported once the metadata has been passed over.
pub fn parse_archive(archive: &[u8]) -> (r: Result<(ArchiveHeader, Vec<Block>), DecodeError>)
    ensures
        archive_outcome(r) == archive_parse(archive@),
{
    let (header, after_header) = match parse_header(archive) {
        Err(e) => {
            return Err(e);
        },
        Ok(found) => found,
    };
    match parse_content(archive, after_header, header.read_base) {
        Err(e) => Err(e),
        Ok(storage) => Ok((header, storage)),
    }
}

/// The bytes that one block contributes: the digits at each of its positions,
/// in order.
pub open spec fn block_bytes(length: u32, positions: Seq<u32>) -> Seq<u8>
    decreases positions.len(),
{
    if positions.len() == 0 {
        Seq::empty()
    } else {
        block_bytes(length, positions.drop_last()) + pi_bytes(
            positions.last() as int,
            length as int,
        )
    }
}

/// The bytes that a decode plan describes: the bytes of its blocks, in order.
pub open spec fn storage_bytes(storage: Seq<BlockView>) -> Seq<u8>
    decreases storage.len(),
{
    if storage.len() == 0 {
        Seq::empty()
    } else {
        storage_bytes(storage.drop_last()) + block_bytes(
            storage.last().length,
            storage.last().positions,
        )
    }
}

/// Whether every block of the plan asks for an even number of digits.
pub open spec fn all_even(storage: Seq<BlockView>) -> bool {
    forall|i: int| 0 <= i < storage.len() ==> (#[trigger] storage[i]).length % 2 == 0
}

/// What carrying out a decode plan gives: its bytes, unless the digits are
/// asked for in a base other than hexadecimal or a block has an odd length.
pub open spec fn assembly(storage: Seq<BlockView>, base: NumberBase) -> Result<Seq<u8>, Fault> {
    if base != NumberBase::Hex || !all_even(storage) {
        Err(Fault::UnsupportedConfiguration)
    } else {
        Ok(storage_bytes(storage))
    }
}

/// Carries out a decode plan: computes the digits of π that it points at and
/// joins them in the order of the plan.
///
/// `base` is the numeral system of the digits. Only hexadecimal digits can be
/// computed, and a byte takes two of them: any other base, and any block with
/// an odd length, is an unsupported configuration.
pub fn assemble(storage: &Vec<Block>, base: NumberBase) -> (r: Result<Vec<u8>, DecodeError>)
    ensures
        bytes_outcome(r) == assembly(storage_view(storage@), base),
{
    match base {
        NumberBase::Hex => {},
        _ => {
            return Err(DecodeError::UnsupportedConfiguration);
        },
    }
    let ghost plan = storage_view(storage@);
    let mut output: Vec<u8> = Vec::new();
    let mut i: usize = 0;
    while i < storage.len()
        invariant
            i <= storage.len(),
            plan == storage_view(storage@),
            forall|k: int| 0 <= k < i ==> (#[trigger] plan[k]).length % 2 == 0,
            output@ == storage_bytes(plan.take(i as int)),
        decreases storage.len() - i,
    {
        let block = &storage[i];
        assert(plan[i as int] == block@);
        if block.length % 2 != 0 {
            return Err(DecodeError::UnsupportedConfiguration);
        }
        let ghost before = output@;
        let mut j: usize = 0;
        while j < block.positions.len()
            invariant
                j <= block.positions.len(),
                block.length % 2 == 0,
                output@ == before + block_bytes(block.length, block.positions@.take(j as int)),
            decreases block.positions.len() - j,
        {
            let mut chunk = match get_bytes_from_pi(block.positions[j], block.length) {
                Ok(chunk) => chunk,
                Err(e) => {
                    return Err(e);
                },
            };
            proof {
                let done = block.positions@.take(j as int);
                let more = block.positions@.take(j + 1);
                assert(more.drop_last() =~= done);
                assert(before + (block_bytes(block.length, done) + chunk@) =~= before
                    + block_bytes(block.length, done) + chunk@);
            }
            output.append(&mut chunk);
            j += 1;
        }
        proof {
            assert(block.positions@.take(j as int) =~= block.positions@);
            assert(plan.take(i + 1).drop_last() =~= plan.take(i as int));
        }
        i += 1;
    }
    assert(plan.take(i as int) =~= plan);
    Ok(output)
}

/// The document that the archive `s` decodes to.
pub open spec fn decoding(s: Seq<u8>) -> Result<Seq<u8>, Fault> {
    match archive_parse(s) {
        Err(fault) => Err(fault),
        Ok((header, storage)) => assembly(storage, header.calc_base),
    }
}

/// Decodes an archive: parses it and computes the bytes it points at.
///
/// The result is the whole document or an error; an error leaves no partial
/// output. Offsets in errors count from the start of the archive.
pub fn decode(archive: &[u8]) -> (r: Result<Vec<u8>, DecodeError>)
    ensures
        bytes_outcome(r) == decoding(archive@),
{
    match parse_archive(archive) {
        Err(e) => Err(e),
        Ok((header, storage)) => assemble(&storage, header.calc_base),
    }
}

/// Metadata lines in front of a body are not part of the decode plan.
pub proof fn lemma_metadata_in_content(read_base: NumberBase, lines: Seq<Seq<u8>>, body: Seq<u8>)
    requires
        forall|i: int| 0 <= i < lines.len() ==> is_metadata_line(#[trigger] lines[i]),
    ensures
        content_parse(read_base, lines.flatten() + body) == rebased(
            content_parse(read_base, body),
            lines.flatten().len(),
        ),
{
    let metadata = lines.flatten();
    lemma_metadata_lines_are_skipped(lines, body);
    lemma_metadata_length_bound(body);
    if let Ok(skipped) = metadata_length(body) {
        assert((metadata + body).skip((metadata.len() + skipped) as int) =~= body.skip(
            skipped as int,
        ));
    }
}

/// Metadata does not change what an archive holds.
///
/// Take a header, any number of well-formed metadata lines and any bytes
/// for the body. The archive with the lines between header and body parses
/// to the same header and the same decode plan, and decodes to the same
/// document, as the archive without them. Where the archive without them is
/// rejected, the one with them is rejected for the same reason, at the same
/// byte, which now lies further back by the length of the lines.
pub proof fn lemma_metadata_is_transparent(header: Seq<u8>, lines: Seq<Seq<u8>>, body: Seq<u8>)
    requires
        header_parse(header) matches Ok((_, used)) && used == header.len(),
        forall|i: int| 0 <= i < lines.len() ==> is_metadata_line(#[trigger] lines[i]),
    ensures
        archive_parse(header + lines.flatten() + body) == rebased(
            archive_parse(header + body),
            lines.flatten().len(),
        ),
        decoding(header + lines.flatten() + body) == rebased(
            decoding(header + body),
            lines.flatten().len(),
        ),
{
    let metadata = lines.flatten();
    let with = header + metadata + body;
    let without = header + body;
    let used = header.len();
    let bases = header_parse(header)->Ok_0.0;
    assert(header.take(used as int) =~= header);
    assert(header_parse(with) == header_parse(header)) by {
        lemma_header_parse_local(header, metadata + body);
        assert(header + (metadata + body) =~= with);
    }
    assert(header_parse(without) == header_parse(header)) by {
        lemma_header_parse_local(header, body);
    }
    assert(with.skip(used as int) =~= metadata + body);
    assert(without.skip(used as int) =~= body);
    lemma_metadata_in_content(bases.read_base, lines, body);
}

/// An archive that was written from a decode plan is read back as that plan.
///
/// Take a header that names decimal literals and any base for the digits,
/// any number of well-formed metadata lines, and the body that writes
/// `storage`. The archive made of these, with anything after it, parses to
/// that header and to `storage`, and decodes to what carrying out `storage`
/// gives.
pub proof fn lemma_written_archive_is_read_back(
    calc_base: NumberBase,
    lines: Seq<Seq<u8>>,
    storage: Seq<BlockView>,
    rest: Seq<u8>,
)
    requires
        calc_base.is_named(),
        forall|i: int| 0 <= i < lines.len() ==> is_metadata_line(#[trigger] lines[i]),
    ensures
        archive_parse(
            full_header(NumberBase::Dec, calc_base) + lines.flatten() + (body_lines(storage)
                + rest),
        ) == Ok::<_, Fault>(
            (ArchiveHeader { read_base: NumberBase::Dec, calc_base }, storage),
        ),
        decoding(
            full_header(NumberBase::Dec, calc_base) + lines.flatten() + (body_lines(storage)
                + rest),
        ) == assembly(storage, calc_base),
{
    let header = full_header(NumberBase::Dec, calc_base);
    let body = body_lines(storage) + rest;
    let plain = header + body;
    lemma_header_round_trip(NumberBase::Dec, calc_base, Seq::empty());
    assert(header + Seq::<u8>::empty() =~= header);
    lemma_metadata_is_transparent(header, lines, body);
    lemma_header_round_trip(NumberBase::Dec, calc_base, body);
    assert(plain.skip(12) =~= body);
    lemma_body_lines_start(storage);
    assert(body[0] == body_lines(storage)[0]);
    assert(metadata_length(body) == Ok::<nat, Fault>(0));
    assert(body.skip(0) =~= body);
    lemma_body_round_trip(storage, rest);
}

/// An archive that does not start with the magic bytes, or in which the
/// byte after them is neither a line feed nor a tab, is rejected as a format
/// violation, and decodes to nothing.
pub proof fn lemma_corrupt_archive_is_rejected(s: Seq<u8>)
    requires
        s.len() < 4 || s.take(3) != magic() || (s[3] != LF && s[3] != TAB),
    ensures
        header_parse(s) is Err,
        header_parse(s)->Err_0 is FormatViolation,
        archive_parse(s) == Err::<(ArchiveHeader, Seq<BlockView>), Fault>(header_parse(s)->Err_0),
        decoding(s) == Err::<Seq<u8>, Fault>(header_parse(s)->Err_0),
{
}

} // verus!
