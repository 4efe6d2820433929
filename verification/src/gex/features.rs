//! Per-state side-channel metadata: an ordered list of 64-bit feature words
//! for each state. A word names a capturing group in its upper 16 bits and
//! marks, in its low bits, whether the group closes there.

use vstd::prelude::*;

verus! {

/// Shift amounts of the fields of a feature word or of a state flag word.
#[derive(Debug, PartialEq, Eq, Structural, Clone, Copy)]
pub enum FlagShifts {
    CapturingGroup,
    CloseGroup,
    ShortCircuit,
}

/// Masks of the fields of a feature word or of a state flag word.
#[derive(Debug, PartialEq, Eq, Structural, Clone, Copy)]
pub enum FlagMasks {
    CapturingGroup,
    CloseGroup,
    ShortCircuit,
}

pub open spec fn spec_flag_shift(s: FlagShifts) -> u64 {
    match s {
        FlagShifts::CapturingGroup => 48u64,
        FlagShifts::CloseGroup => 1u64,
        FlagShifts::ShortCircuit => 0u64,
    }
}

pub open spec fn spec_flag_mask(m: FlagMasks) -> u64 {
    match m {
        FlagMasks::CapturingGroup => 0xFFFF_0000_0000_0000u64,
        FlagMasks::CloseGroup => 0x2u64,
        FlagMasks::ShortCircuit => 0x1u64,
    }
}

impl FlagShifts {
    pub fn value(&self) -> (r: u64)
        ensures
            r == spec_flag_shift(*self),
    {
        match self {
            FlagShifts::CapturingGroup => 48,
            FlagShifts::CloseGroup => 1,
            FlagShifts::ShortCircuit => 0,
        }
    }
}

impl FlagMasks {
    pub fn value(&self) -> (r: u64)
        ensures
            r == spec_flag_mask(*self),
    {
        match self {
            FlagMasks::CapturingGroup => 0xFFFF_0000_0000_0000,
            FlagMasks::CloseGroup => 0x2,
            FlagMasks::ShortCircuit => 0x1,
        }
    }
}

/// The capturing group a feature word names.
pub open spec fn spec_group_number(flags: u64) -> u16 {
    (flags >> 48) as u16
}

/// 1 when the word closes its group, 0 when it opens it.
pub open spec fn spec_close_flag(flags: u64) -> u8 {
    ((flags & 0x2) >> 1) as u8
}

/// The word with its group number raised by `shift`.
pub open spec fn spec_inc_group(flags: u64, shift: u16) -> u64
    recommends
        spec_group_number(flags) + shift <= 0xFFFF,
{
    (flags & !0xFFFF_0000_0000_0000u64) | (((spec_group_number(flags) + shift) as u64) << 48)
}

/// The feature words of each state, indexed by state id.
#[derive(Debug, PartialEq, Eq, Clone)]
pub struct GexFeatures {
    pub state_flags: Vec<Vec<u64>>,
}

impl View for GexFeatures {
    type V = Seq<Seq<u64>>;

    open spec fn view(&self) -> Seq<Seq<u64>> {
        Seq::new(self.state_flags@.len(), |i: int| self.state_flags@[i]@)
    }
}

/// The `(group, closes)` pairs that `group_numbers` extracts from the words of
/// one state.
pub open spec fn spec_group_numbers_of(words: Seq<u64>) -> Seq<(u16, u8)> {
    words.map(|_j: int, w: u64| (spec_group_number(w), spec_close_flag(w)))
}

impl GexFeatures {
    pub fn new() -> (r: GexFeatures)
        ensures
            r@ =~= Seq::<Seq<u64>>::empty(),
    {
        GexFeatures { state_flags: Vec::new() }
    }

    /// The `(group, closes)` pairs recorded at a state, or `None` when the
    /// state is unknown to the table.
    pub fn group_numbers(&self, state_label: usize) -> (r: Option<Vec<(u16, u8)>>)
        ensures
            match r {
                Some(v) => state_label < self@.len() && v@ == spec_group_numbers_of(
                    self@[state_label as int],
                ),
                None => state_label >= self@.len(),
            },
    {
        if state_label < self.state_flags.len() {
            let words = &self.state_flags[state_label];
            let mut pairs: Vec<(u16, u8)> = Vec::new();
            let mut j: usize = 0;
            while j < words.len()
                invariant
                    j <= words@.len(),
                    pairs@ =~= spec_group_numbers_of(words@.take(j as int)),
                decreases words@.len() - j,
            {
                let w = words[j];
                pairs.push((GexFeatures::group_number(w), ((w & 0x2) >> 1) as u8));
                proof {
                    assert(words@.take(j + 1).drop_last() =~= words@.take(j as int));
                    assert(pairs@ =~= spec_group_numbers_of(words@.take(j + 1)));
                }
                j = j + 1;
            }
            proof {
                assert(words@.take(words@.len() as int) =~= words@);
            }
            Some(pairs)
        } else {
            None
        }
    }

    pub fn group_number(flags: u64) -> (r: u16)
        ensures
            r == spec_group_number(flags),
    {
        (flags >> 48) as u16
    }

    pub fn increment_group_number(flags: u64, group_shift: u16) -> (r: u64)
        requires
            spec_group_number(flags) + group_shift <= 0xFFFF,
        ensures
            r == spec_inc_group(flags, group_shift),
    {
        let new_group_number = GexFeatures::group_number(flags) + group_shift;
        let cleared = flags & !0xFFFF_0000_0000_0000u64;
        cleared | ((new_group_number as u64) << 48)
    }
}

} // verus!
