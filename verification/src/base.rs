//! Numeral-system labels and the archive header type.

use vstd::prelude::*;

verus! {

/// Line feed: ends every line of an archive.
pub const LF: u8 = 10;

/// Horizontal tab: separates header fields and starts metadata and position lines.
pub const TAB: u8 = 9;

/// The three bytes every archive starts with.
pub const PIZ_LABEL: [u8; 3] = [80, 105, 90];

/// Header label of the hexadecimal system.
pub const HEX_LABEL: [u8; 3] = [72, 101, 120];

/// Header label of the decimal system.
pub const DEC_LABEL: [u8; 3] = [68, 101, 99];

/// Header label of the octal system.
pub const OCT_LABEL: [u8; 3] = [79, 99, 116];

/// Header label of the binary system.
pub const BIN_LABEL: [u8; 3] = [66, 105, 110];

/// A numeral system that an archive header can name.
///
/// Only the four named systems have a label; `Num` stands for an arbitrary
/// radix and never appears in a header.
#[derive(Debug, Clone, Copy, PartialEq, Eq, Structural)]
pub enum NumberBase {
    Hex,
    Dec,
    Oct,
    Bin,
    Num(u64),
}

impl NumberBase {
    /// Whether this system is one of the four that a header can name.
    pub open spec fn is_named(self) -> bool {
        !(self is Num)
    }

    /// The header label of a named system, as a sequence of bytes.
    pub open spec fn label_bytes(self) -> Seq<u8> {
        match self {
            NumberBase::Hex => seq![72u8, 101u8, 120u8],
            NumberBase::Dec => seq![68u8, 101u8, 99u8],
            NumberBase::Oct => seq![79u8, 99u8, 116u8],
            NumberBase::Bin => seq![66u8, 105u8, 110u8],
            NumberBase::Num(_) => Seq::empty(),
        }
    }

    /// The three ASCII bytes that name this system in a header.
    pub fn label(&self) -> (bytes: &'static [u8])
        requires
            self.is_named(),
        ensures
            bytes@ == self.label_bytes(),
    {
        match self {
            NumberBase::Hex => &HEX_LABEL,
            NumberBase::Dec => &DEC_LABEL,
            NumberBase::Oct => &OCT_LABEL,
            NumberBase::Bin => &BIN_LABEL,
            NumberBase::Num(_) => vstd::pervasive::unreached(),
        }
    }
}

/// The system whose label the first three bytes of `s` spell, if any.
pub open spec fn label_at_front(s: Seq<u8>) -> Option<NumberBase> {
    if s.len() < 3 {
        None
    } else if s.take(3) == NumberBase::Hex.label_bytes() {
        Some(NumberBase::Hex)
    } else if s.take(3) == NumberBase::Dec.label_bytes() {
        Some(NumberBase::Dec)
    } else if s.take(3) == NumberBase::Oct.label_bytes() {
        Some(NumberBase::Oct)
    } else if s.take(3) == NumberBase::Bin.label_bytes() {
        Some(NumberBase::Bin)
    } else {
        None
    }
}

/// Whether `bytes` begins with the three bytes of `label`.
pub fn starts_with_label(bytes: &[u8], label: &[u8]) -> (yes: bool)
    requires
        label.len() == 3,
    ensures
        yes == (bytes.len() >= 3 && bytes@.take(3) == label@),
{
    if bytes.len() < 3 {
        return false;
    }
    let yes = bytes[0] == label[0] && bytes[1] == label[1] && bytes[2] == label[2];
    proof {
        if yes {
            assert(bytes@.take(3) =~= label@);
        } else {
            assert(bytes@.take(3)[0] == bytes@[0]);
            assert(bytes@.take(3)[1] == bytes@[1]);
            assert(bytes@.take(3)[2] == bytes@[2]);
        }
    }
    yes
}

/// Recognises the numeral-system label at the front of `header`.
///
/// Returns the system whose label the first three bytes spell, and `None`
/// when there are fewer than three bytes or they spell no label. Bytes after
/// the third are not looked at.
pub fn parse_base_label(header: &[u8]) -> (base: Option<NumberBase>)
    ensures
        base == label_at_front(header@),
{
    if starts_with_label(header, NumberBase::Hex.label()) {
        Some(NumberBase::Hex)
    } else if starts_with_label(header, NumberBase::Dec.label()) {
        Some(NumberBase::Dec)
    } else if starts_with_label(header, NumberBase::Oct.label()) {
        Some(NumberBase::Oct)
    } else if starts_with_label(header, NumberBase::Bin.label()) {
        Some(NumberBase::Bin)
    } else {
        None
    }
}

/// Each named system is recovered from its own label, whatever follows it.
pub proof fn lemma_label_round_trip(base: NumberBase, rest: Seq<u8>)
    requires
        base.is_named(),
    ensures
        label_at_front(base.label_bytes() + rest) == Some(base),
        base.label_bytes().len() == 3,
{
    let s = base.label_bytes() + rest;
    assert(s.take(3) =~= base.label_bytes());
    assert(NumberBase::Hex.label_bytes()[0] == 72u8);
    assert(NumberBase::Dec.label_bytes()[0] == 68u8);
    assert(NumberBase::Oct.label_bytes()[0] == 79u8);
    assert(NumberBase::Bin.label_bytes()[0] == 66u8);
}

/// The two numeral systems that an archive header settles.
#[derive(Debug, Clone, Copy, PartialEq, Eq, Structural)]
pub struct ArchiveHeader {
    /// The system in which the literals of the body are written.
    pub read_base: NumberBase,
    /// The system in which the digits of π are counted and computed.
    pub calc_base: NumberBase,
}

} // verus!
