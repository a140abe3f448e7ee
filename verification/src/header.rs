//! The archive header and the metadata lines that may follow it.
//!
//! ```text
//! header    := MAGIC ( LF | TAB base-spec )
//! base-spec := label ( LF | TAB label LF )
//! label     := "Hex" | "Dec" | "Oct" | "Bin"
//! ```
//!
//! After the header, every line that starts with a tab is metadata. Its
//! content is never interpreted; the body starts at the first line that does
//! not start with a tab.

use vstd::prelude::*;
use vstd::slice::slice_subrange;
use crate::base::{
    label_at_front, lemma_label_round_trip, parse_base_label, starts_with_label, ArchiveHeader,
    NumberBase, LF, PIZ_LABEL, TAB,
};
use crate::error::{located, outcome, DecodeError, Fault, Parsed};

verus! {

/// The magic bytes, as a sequence.
pub open spec fn magic() -> Seq<u8> {
    seq![80u8, 105u8, 90u8]
}

/// The header that names no numeral system.
pub open spec fn bare_header() -> Seq<u8> {
    magic() + seq![LF]
}

/// The header that names one numeral system.
pub open spec fn short_header(base: NumberBase) -> Seq<u8> {
    magic() + seq![TAB] + base.label_bytes() + seq![LF]
}

/// The header that names both numeral systems.
pub open spec fn full_header(read_base: NumberBase, calc_base: NumberBase) -> Seq<u8> {
    magic() + seq![TAB] + read_base.label_bytes() + seq![TAB] + calc_base.label_bytes() + seq![LF]
}

/// Reads a `base-spec` from the front of `s`: one label and a line feed, or
/// two labels with a tab between them and a line feed after them.
pub open spec fn base_spec_parse(s: Seq<u8>) -> Parsed<ArchiveHeader> {
    match label_at_front(s) {
        None => Err(Fault::FormatViolation { offset: 0 }),
        Some(read_base) => {
            if s.len() == 3 {
                Err(Fault::FormatViolation { offset: 3 })
            } else if s[3] == LF {
                Ok((ArchiveHeader { read_base, calc_base: read_base }, 4))
            } else if s[3] != TAB {
                Err(Fault::FormatViolation { offset: 3 })
            } else {
                match label_at_front(s.skip(4)) {
                    None => Err(Fault::FormatViolation { offset: 4 }),
                    Some(calc_base) => {
                        if s.len() > 7 && s[7] == LF {
                            Ok((ArchiveHeader { read_base, calc_base }, 8))
                        } else {
                            Err(Fault::FormatViolation { offset: 7 })
                        }
                    },
                }
            }
        },
    }
}

/// Reads a header from the front of `s`: the bases it settles and its length,
/// or the place where `s` leaves the header grammar.
pub open spec fn header_parse(s: Seq<u8>) -> Parsed<ArchiveHeader> {
    if !(s.len() >= 3 && s.take(3) == magic()) {
        Err(Fault::FormatViolation { offset: 0 })
    } else if s.len() == 3 {
        Err(Fault::FormatViolation { offset: 3 })
    } else if s[3] == LF {
        Ok((ArchiveHeader { read_base: NumberBase::Dec, calc_base: NumberBase::Dec }, 4))
    } else if s[3] == TAB {
        located(base_spec_parse(s.skip(4)), 4)
    } else {
        Err(Fault::FormatViolation { offset: 3 })
    }
}

/// Parses the part of a header that follows `MAGIC TAB`, starting at `start`.
fn parse_base_spec(input: &[u8], start: usize) -> (r: Result<(ArchiveHeader, usize), DecodeError>)
    requires
        start <= input.len(),
    ensures
        outcome(r) == located(base_spec_parse(input@.skip(start as int)), start as nat),
        r matches Ok((_, next)) ==> next <= input.len(),
{
    let ghost s = input@.skip(start as int);
    let len = input.len();
    let read_base = match parse_base_label(slice_subrange(input, start, len)) {
        None => {
            return Err(DecodeError::FormatViolation { offset: start });
        },
        Some(base) => base,
    };
    assert(s.len() >= 3);
    if len - start == 3 {
        return Err(DecodeError::FormatViolation { offset: start + 3 });
    }
    let separator = input[start + 3];
    assert(separator == s[3]);
    if separator == LF {
        return Ok((ArchiveHeader { read_base, calc_base: read_base }, start + 4));
    }
    if separator != TAB {
        return Err(DecodeError::FormatViolation { offset: start + 3 });
    }
    assert(input@.subrange(start + 4, len as int) =~= s.skip(4));
    let calc_base = match parse_base_label(slice_subrange(input, start + 4, len)) {
        None => {
            return Err(DecodeError::FormatViolation { offset: start + 4 });
        },
        Some(base) => base,
    };
    assert(s.len() >= 7);
    if len - start > 7 && input[start + 7] == LF {
        assert(s[7] == input@[start + 7]);
        Ok((ArchiveHeader { read_base, calc_base }, start + 8))
    } else {
        assert(s.len() > 7 ==> s[7] == input@[start + 7]);
        Err(DecodeError::FormatViolation { offset: start + 7 })
    }
}

/// Parses the archive header at the front of `input`.
///
/// On success returns the two bases and the index of the first byte after the
/// header's line feed; nothing beyond that byte is looked at. `MAGIC LF`
/// gives decimal for both bases, one label gives that base for both, two
/// labels give the first for reading and the second for computing. Anything
/// else is a format violation: at offset 0 when the magic bytes are wrong, at
/// the first byte of a label that is none of the four, and otherwise at the
/// byte that should have been a tab or a line feed.
pub fn parse_header(input: &[u8]) -> (r: Result<(ArchiveHeader, usize), DecodeError>)
    ensures
        outcome(r) == header_parse(input@),
        r matches Ok((_, next)) ==> next <= input.len(),
{
    assert(PIZ_LABEL@ =~= magic());
    if !starts_with_label(input, &PIZ_LABEL) {
        return Err(DecodeError::FormatViolation { offset: 0 });
    }
    if input.len() == 3 {
        return Err(DecodeError::FormatViolation { offset: 3 });
    }
    let separator = input[3];
    if separator == LF {
        Ok((ArchiveHeader { read_base: NumberBase::Dec, calc_base: NumberBase::Dec }, 4))
    } else if separator == TAB {
        parse_base_spec(input, 4)
    } else {
        Err(DecodeError::FormatViolation { offset: 3 })
    }
}

/// A header that names both systems parses to exactly those two, one that
/// names a single system parses to that system twice, and the bare header
/// parses to decimal twice. Whatever follows the header plays no part.
pub proof fn lemma_header_round_trip(read_base: NumberBase, calc_base: NumberBase, rest: Seq<u8>)
    requires
        read_base.is_named(),
        calc_base.is_named(),
    ensures
        header_parse(full_header(read_base, calc_base) + rest) == Ok::<_, Fault>(
            (ArchiveHeader { read_base, calc_base }, 12nat),
        ),
        header_parse(short_header(read_base) + rest) == Ok::<_, Fault>(
            (ArchiveHeader { read_base, calc_base: read_base }, 8nat),
        ),
        header_parse(bare_header() + rest) == Ok::<_, Fault>(
            (ArchiveHeader { read_base: NumberBase::Dec, calc_base: NumberBase::Dec }, 4nat),
        ),
        full_header(read_base, calc_base).len() == 12,
        short_header(read_base).len() == 8,
        bare_header().len() == 4,
{
    let bare = bare_header() + rest;
    assert(bare.take(3) =~= magic());

    let short = short_header(read_base) + rest;
    let short_tail = seq![LF] + rest;
    lemma_label_round_trip(read_base, short_tail);
    assert(short.take(3) =~= magic());
    assert(short.skip(4) =~= read_base.label_bytes() + short_tail);

    let full = full_header(read_base, calc_base) + rest;
    let calc_tail = seq![LF] + rest;
    let read_tail = seq![TAB] + calc_base.label_bytes() + calc_tail;
    lemma_label_round_trip(read_base, read_tail);
    lemma_label_round_trip(calc_base, calc_tail);
    assert(full.take(3) =~= magic());
    assert(full.skip(4) =~= read_base.label_bytes() + read_tail);
    assert(full.skip(4).skip(4) =~= calc_base.label_bytes() + calc_tail);
}

/// Whether `s` is one of the three ways of writing the header `header`.
pub open spec fn is_header_of(s: Seq<u8>, header: ArchiveHeader) -> bool {
    &&& header.read_base.is_named()
    &&& header.calc_base.is_named()
    &&& {
        ||| s == full_header(header.read_base, header.calc_base)
        ||| s == short_header(header.read_base) && header.calc_base == header.read_base
        ||| s == bare_header() && header.read_base == NumberBase::Dec && header.calc_base
            == NumberBase::Dec
    }
}

/// What the parser accepts is a header, written in one of its three forms and
/// standing at the very front of the input.
pub proof fn lemma_header_parse_sound(s: Seq<u8>)
    ensures
        match header_parse(s) {
            Ok((header, used)) => used <= s.len() && is_header_of(s.take(used as int), header),
            Err(fault) => fault is FormatViolation,
        },
{
    match header_parse(s) {
        Ok((header, used)) => {
            let front = s.take(used as int);
            assert(front.take(3) =~= s.take(3));
            if s[3] == LF {
                assert(front =~= bare_header());
            } else {
                let t = s.skip(4);
                let read_base = header.read_base;
                assert(t.take(3) == read_base.label_bytes());
                if t[3] == LF {
                    assert(front =~= s.take(3) + seq![TAB] + t.take(3) + seq![LF]);
                } else {
                    let u = t.skip(4);
                    assert(u.take(3) == header.calc_base.label_bytes());
                    assert(front =~= s.take(3) + seq![TAB] + t.take(3) + seq![TAB] + u.take(3)
                        + seq![LF]);
                }
            }
        },
        Err(_) => {},
    }
}

/// The parse of a header does not depend on what follows it.
pub proof fn lemma_header_parse_local(s: Seq<u8>, rest: Seq<u8>)
    requires
        header_parse(s) is Ok,
    ensures
        header_parse(s.take(header_parse(s)->Ok_0.1 as int) + rest) == header_parse(s),
{
    lemma_header_parse_sound(s);
    let (header, used) = header_parse(s)->Ok_0;
    lemma_header_round_trip(header.read_base, header.calc_base, rest);
}

/// Number of bytes of `s` before its first line feed; all of them when it
/// holds none.
pub open spec fn line_length(s: Seq<u8>) -> nat
    decreases s.len(),
{
    if s.len() == 0 || s[0] == LF {
        0
    } else {
        1 + line_length(s.skip(1))
    }
}

/// The length of the metadata at the front of `s`: the lines, each through
/// its line feed, that start with a tab. Fails where `s` ends before a line
/// that does not start with a tab has begun.
pub open spec fn metadata_length(s: Seq<u8>) -> Result<nat, Fault>
    decreases s.len(),
{
    if s.len() == 0 {
        Err(Fault::FormatViolation { offset: 0 })
    } else if s[0] != TAB {
        Ok(0)
    } else {
        let n = line_length(s);
        if n >= s.len() {
            Err(Fault::FormatViolation { offset: s.len() })
        } else {
            match metadata_length(s.skip((n + 1) as int)) {
                Ok(more) => Ok(n + 1 + more),
                Err(fault) => Err(fault.shifted(n + 1)),
            }
        }
    }
}

/// `n` bytes without a line feed, followed by a line feed or by the end of
/// `s`, make a line of length `n`.
pub proof fn lemma_line_length(s: Seq<u8>, n: nat)
    requires
        n <= s.len(),
        forall|k: int| 0 <= k < n ==> s[k] != LF,
        n == s.len() || s[n as int] == LF,
    ensures
        line_length(s) == n,
    decreases n,
{
    if n > 0 {
        let t = s.skip(1);
        assert forall|k: int| 0 <= k < n - 1 implies t[k] != LF by {
            assert(t[k] == s[k + 1]);
        }
        lemma_line_length(t, (n - 1) as nat);
    }
}

/// Metadata ends before the input does: the byte after it is the first byte
/// of the body, and it is not a tab.
pub proof fn lemma_metadata_length_bound(s: Seq<u8>)
    ensures
        metadata_length(s) matches Ok(length) ==> length < s.len() && s[length as int] != TAB,
        metadata_length(s) matches Err(fault) ==> fault == (Fault::FormatViolation {
            offset: s.len(),
        }),
    decreases s.len(),
{
    if s.len() > 0 && s[0] == TAB {
        let n = line_length(s);
        if n < s.len() {
            let after = s.skip((n + 1) as int);
            lemma_metadata_length_bound(after);
            if let Ok(more) = metadata_length(after) {
                assert(after[more as int] == s[(n + 1 + more) as int]);
            }
        }
    }
}

/// Whether `line` is a well-formed metadata line: a tab, any bytes that are
/// not line feeds, and a line feed.
pub open spec fn is_metadata_line(line: Seq<u8>) -> bool {
    &&& line.len() >= 2
    &&& line.first() == TAB
    &&& line.last() == LF
    &&& forall|k: int| 0 <= k < line.len() - 1 ==> line[k] != LF
}

/// Metadata lines in front of `rest` are passed over whole: the metadata of
/// the joined bytes is those lines and then the metadata of `rest`.
pub proof fn lemma_metadata_lines_are_skipped(lines: Seq<Seq<u8>>, rest: Seq<u8>)
    requires
        forall|i: int| 0 <= i < lines.len() ==> is_metadata_line(#[trigger] lines[i]),
    ensures
        metadata_length(lines.flatten() + rest) == match metadata_length(rest) {
            Ok(length) => Ok::<nat, Fault>(lines.flatten().len() + length),
            Err(fault) => Err(fault.shifted(lines.flatten().len())),
        },
    decreases lines.len(),
{
    let joined = lines.flatten() + rest;
    if lines.len() == 0 {
        assert(joined =~= rest);
    } else {
        let line = lines.first();
        let others = lines.drop_first();
        let after = others.flatten() + rest;
        assert(is_metadata_line(lines[0]));
        assert forall|i: int| 0 <= i < others.len() implies is_metadata_line(
            #[trigger] others[i],
        ) by {
            assert(others[i] == lines[i + 1]);
        }
        lemma_metadata_lines_are_skipped(others, rest);
        assert(joined =~= line + after);
        assert(joined[0] == TAB);
        assert forall|k: int| 0 <= k < line.len() - 1 implies joined[k] != LF by {
            assert(joined[k] == line[k]);
        }
        assert(joined[line.len() - 1] == line.last());
        lemma_line_length(joined, (line.len() - 1) as nat);
        assert(joined.skip(line.len() as int) =~= after);
    }
}

/// Finds where the body starts: skips, from `start`, every line that begins
/// with a tab.
///
/// Returns the index of the first byte, at the start of a line, that is not a
/// tab. That byte belongs to the body. The input ending before such a byte is
/// a format violation at the end of the input.
pub fn skip_metadata(input: &[u8], start: usize) -> (r: Result<usize, DecodeError>)
    requires
        start <= input.len(),
    ensures
        match metadata_length(input@.skip(start as int)) {
            Ok(length) => r == Ok::<usize, DecodeError>((start + length) as usize) && start + length
                < input.len(),
            Err(fault) => r is Err && r->Err_0@ == fault.shifted(start as nat),
        },
{
    let len = input.len();
    let ghost whole = metadata_length(input@.skip(start as int));
    let mut i = start;
    loop
        invariant
            start <= i <= len,
            len == input.len(),
            whole == metadata_length(input@.skip(start as int)),
            whole == match metadata_length(input@.skip(i as int)) {
                Ok(more) => Ok::<nat, Fault>((i - start + more) as nat),
                Err(fault) => Err(fault.shifted((i - start) as nat)),
            },
        decreases len - i,
    {
        let ghost line = input@.skip(i as int);
        if i == len {
            return Err(DecodeError::FormatViolation { offset: len });
        }
        assert(line[0] == input@[i as int]);
        if input[i] != TAB {
            return Ok(i);
        }
        let mut j = i;
        while j < len && input[j] != LF
            invariant
                i <= j <= len,
                len == input.len(),
                forall|k: int| i <= k < j ==> input@[k] != LF,
            decreases len - j,
        {
            j += 1;
        }
        proof {
            assert forall|k: int| 0 <= k < j - i implies line[k] != LF by {
                assert(line[k] == input@[i + k]);
            }
            if j < len {
                assert(line[j - i] == input@[j as int]);
            }
            lemma_line_length(line, (j - i) as nat);
        }
        if j == len {
            return Err(DecodeError::FormatViolation { offset: len });
        }
        proof {
            assert(line.skip(j - i + 1) =~= input@.skip(j + 1));
        }
        i = j + 1;
    }
}

} // verus!
