//! One of the 81 puzzle positions: an optional assigned value, a flag
//! saying whether the value was given by the puzzle, and a 9-bit set of
//! candidate values still possible here.

use crate::masks::{mask_count, mask_has, mask_values, FULL_MASK};
use vstd::prelude::*;

verus! {

#[derive(Debug, Copy, Clone)]
pub struct Cell {
    pub value: Option<u8>,
    pub is_given: bool,
    pub candidates: u16,
}

/// The cell as elimination of `val` leaves it: a filled cell is
/// untouched, an empty cell loses the candidate bit of `val`.
pub open spec fn cell_after_elim(c: Cell, val: u8) -> Cell {
    if c.value is Some {
        c
    } else {
        Cell { value: c.value, is_given: c.is_given, candidates: c.candidates & !(1u16 << (val as u16)) }
    }
}

impl Cell {
    /// A filled cell holds a value 1..=9 and has every candidate
    /// eliminated; an empty cell's candidate mask uses only the nine
    /// value bits.
    pub open spec fn wf(&self) -> bool {
        &&& self.value is Some ==> 1 <= self.value->0 <= 9 && self.candidates == 0
        &&& self.value is None ==> crate::masks::mask_bounded(self.candidates)
    }

    /// The naked single of this cell: its one remaining candidate, if the
    /// cell is empty and exactly one candidate is left.
    pub open spec fn spec_single_candidate(&self) -> Option<u8> {
        if self.value is None && mask_count(self.candidates) == 1 {
            Some(mask_values(self.candidates)[0])
        } else {
            None
        }
    }

    pub fn set_value(&mut self, val: u8, is_given: bool)
        ensures
            final(self).value == Some(val),
            final(self).is_given == is_given,
            final(self).candidates == 0u16,
    {
        self.value = Some(val);
        self.is_given = is_given;
        self.candidates = 0;
    }

    pub fn has_value(&self) -> (r: bool)
        ensures
            r == (self.value is Some),
    {
        self.value.is_some()
    }

    pub fn get_number_of_candidates(&self) -> (r: u8)
        ensures
            r as int == mask_count(self.candidates),
    {
        let mut count: u8 = 0;
        let mut val: u16 = 1;
        while val < 10
            invariant
                1 <= val <= 10,
                count as int == crate::masks::mask_values_below(self.candidates, val as int).len(),
                count < val,
            decreases 10 - val,
        {
            if (self.candidates >> val) & 1u16 == 1u16 {
                count += 1;
            }
            val += 1;
        }
        count
    }

    pub fn get_value(&self) -> (r: Option<u8>)
        ensures
            r == self.value,
    {
        self.value
    }

    /// The remaining candidates of this cell, in ascending order.
    pub fn get_possible_values(&self) -> (r: Vec<u8>)
        ensures
            r@ == mask_values(self.candidates),
    {
        let mut possible_values: Vec<u8> = Vec::new();
        let mut val: u16 = 1;
        while val < 10
            invariant
                1 <= val <= 10,
                possible_values@ == crate::masks::mask_values_below(self.candidates, val as int),
            decreases 10 - val,
        {
            if (self.candidates >> val) & 1u16 == 1u16 {
                possible_values.push(val as u8);
            }
            val += 1;
        }
        possible_values
    }

    pub fn can_set_value(&self, val: u8) -> (r: bool)
        requires
            1 <= val <= 9,
        ensures
            r == mask_has(self.candidates, val as u16),
    {
        (self.candidates >> (val as u16)) & 1u16 == 1u16
    }

    pub fn _set_candidate(&mut self, val: u8)
        requires
            1 <= val <= 9,
        ensures
            final(self).candidates == old(self).candidates | (1u16 << (val as u16)),
            final(self).value == old(self).value,
            final(self).is_given == old(self).is_given,
    {
        self.candidates = self.candidates | (1u16 << (val as u16));
    }

    pub fn clear_candidate(&mut self, val: u8)
        requires
            1 <= val <= 9,
        ensures
            final(self).candidates == old(self).candidates & !(1u16 << (val as u16)),
            final(self).value == old(self).value,
            final(self).is_given == old(self).is_given,
    {
        self.candidates = self.candidates & !(1u16 << (val as u16));
    }

    pub fn _set_candidate_val(&mut self, candidates: u16)
        ensures
            final(self).candidates == candidates,
            final(self).value == old(self).value,
            final(self).is_given == old(self).is_given,
    {
        self.candidates = candidates;
    }

    pub fn is_single_candidate(&self) -> (r: Option<u8>)
        ensures
            r == self.spec_single_candidate(),
    {
        if self.has_value() {
            return None;
        }
        let vals = self.get_possible_values();
        if vals.len() == 1 {
            return Some(vals[0]);
        }
        None
    }
}

impl Default for Cell {
    /// A fresh cell: empty, not given, every value 1..=9 still a candidate.
    fn default() -> (r: Self)
        ensures
            r.value is None,
            !r.is_given,
            r.candidates == FULL_MASK,
    {
        Cell { value: None, is_given: false, candidates: FULL_MASK }
    }
}

} // verus!
