//! The packet state machine: the class of the last two packets and the
//! four most recently used match distances.

use vstd::prelude::*;

verus! {

pub const REPS: usize = 4;
pub const STATES: usize = 12;
/// States below this one follow a literal.
pub const LIT_STATES: u8 = 7;
const LIT_LIT: u8 = 0;
const SHORTREP_LIT_LIT: u8 = 3;
const LIT_MATCH: u8 = 7;
const LIT_LONGREP: u8 = 8;
const LIT_SHORTREP: u8 = 9;
const NONLIT_MATCH: u8 = 10;
const NONLIT_REP: u8 = 11;

/// The state after a literal.
pub open spec fn literal_next(s: int) -> int {
    if s <= 3 {
        0
    } else if s <= 9 {
        s - 3
    } else {
        s - 6
    }
}

/// The state after a new match.
pub open spec fn match_next(s: int) -> int {
    if s < 7 { 7 } else { 10 }
}

/// The state after a long rep.
pub open spec fn long_rep_next(s: int) -> int {
    if s < 7 { 8 } else { 11 }
}

/// The state after a short rep.
pub open spec fn short_rep_next(s: int) -> int {
    if s < 7 { 9 } else { 11 }
}

/// The distances after a long rep of index `i`: that distance moves to the
/// front, the others keep their order.
pub open spec fn reps_after_long_rep(r: Seq<u32>, i: int) -> Seq<u32> {
    seq![r[i]] + r.remove(i)
}

#[derive(Debug, Clone, Copy, PartialEq, Eq)]
pub struct State {
    reps: [u32; REPS],
    state: u8,
}

impl State {
    pub closed spec fn wf(&self) -> bool {
        self.state < 12
    }

    /// The state number, 0 to 11.
    pub closed spec fn idx(&self) -> int {
        self.state as int
    }

    /// The four last distances, most recent first.
    pub closed spec fn reps_view(&self) -> Seq<u32> {
        self.reps@
    }

    pub fn new() -> (r: Self)
        ensures
            r.wf(),
            r.idx() == 0,
            r.reps_view() == seq![0u32, 0u32, 0u32, 0u32],
    {
        let r = State { state: 0, reps: [0u32; 4] };
        assert(r.reps@ =~= seq![0u32, 0u32, 0u32, 0u32]);
        r
    }

    pub fn get_idx(&self) -> (r: u8)
        requires
            self.wf(),
        ensures
            r as int == self.idx(),
            r < 12,
    {
        self.state
    }

    pub fn get_rep(&self, index: usize) -> (r: u32)
        requires
            index < REPS,
        ensures
            r == self.reps_view()[index as int],
    {
        self.reps[index]
    }

    pub fn reps(&self) -> (r: [u32; REPS])
        ensures
            r@ == self.reps_view(),
    {
        self.reps
    }

    pub fn update_literal(&mut self)
        requires
            old(self).wf(),
        ensures
            final(self).wf(),
            final(self).idx() == literal_next(old(self).idx()),
            final(self).reps_view() == old(self).reps_view(),
    {
        if self.state <= SHORTREP_LIT_LIT {
            self.state = LIT_LIT;
        } else if self.state <= LIT_SHORTREP {
            self.state = self.state - 3;
        } else {
            self.state = self.state - 6;
        }
    }

    pub fn update_match(&mut self, distance: u32)
        requires
            old(self).wf(),
        ensures
            final(self).wf(),
            final(self).idx() == match_next(old(self).idx()),
            final(self).reps_view() == seq![distance] + old(self).reps_view().subrange(0, 3),
    {
        self.reps[3] = self.reps[2];
        self.reps[2] = self.reps[1];
        self.reps[1] = self.reps[0];
        self.reps[0] = distance;
        self.state = if self.state < LIT_STATES { LIT_MATCH } else { NONLIT_MATCH };
        assert(self.reps@ =~= seq![distance] + old(self).reps@.subrange(0, 3));
    }

    /// Moves rep `rep` to the front and returns its distance.
    pub fn update_long_rep(&mut self, rep: usize) -> (r: u32)
        requires
            old(self).wf(),
            rep < REPS,
        ensures
            final(self).wf(),
            final(self).idx() == long_rep_next(old(self).idx()),
            r == old(self).reps_view()[rep as int],
            final(self).reps_view() == reps_after_long_rep(old(self).reps_view(), rep as int),
    {
        let rep_value: u32 = self.reps[rep];
        if rep != 0 {
            if rep != 1 {
                if rep == 3 {
                    self.reps[3] = self.reps[2];
                }
                self.reps[2] = self.reps[1];
            }
            self.reps[1] = self.reps[0];
            self.reps[0] = rep_value;
        }
        self.state = if self.state < LIT_STATES { LIT_LONGREP } else { NONLIT_REP };
        assert(self.reps@ =~= reps_after_long_rep(old(self).reps@, rep as int));
        rep_value
    }

    pub fn update_short_rep(&mut self)
        requires
            old(self).wf(),
        ensures
            final(self).wf(),
            final(self).idx() == short_rep_next(old(self).idx()),
            final(self).reps_view() == old(self).reps_view(),
    {
        self.state = if self.state < LIT_STATES { LIT_SHORTREP } else { NONLIT_REP };
    }

    pub fn is_literal(&self) -> (r: bool)
        ensures
            r == (self.idx() < 7),
    {
        self.state < LIT_STATES
    }
}

} // verus!
