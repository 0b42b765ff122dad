//! Refspecs: how a fetched or pushed ref mapping is to be treated, and
//! the instruction a parsed refspec amounts to.

use vstd::prelude::*;
use vstd::slice::slice_to_vec;

verus! {

/// The way to interpret a refspec.
#[derive(Copy, Clone, Debug, PartialEq, Eq, Structural)]
pub enum Mode {
    /// Apply standard rules.
    Normal,
    /// Even if the destination is not currently at the source, set it.
    Force,
    /// Exclude matching refs.
    Negative,
}

/// Which operation the refspec is for.
#[derive(Copy, Clone, Debug, PartialEq, Eq, Structural)]
pub enum Operation {
    Fetch,
    Push,
}

/// What to do with a refspec when fetching.
pub enum Fetch<'a> {
    /// Fetch the ref, do not update anything locally.
    Only { src: &'a [u8] },
    /// Fetch the ref and update the local destination.
    AndUpdate { src: &'a [u8], dst: &'a [u8], allow_non_fast_forward: bool },
    /// Exclude the matching refs from the fetch.
    Exclude { src: &'a [u8] },
}

/// What to do with a refspec when pushing.
pub enum Push<'a> {
    /// Push the source to the destination.
    Matching { src: &'a [u8], dst: &'a [u8], allow_non_fast_forward: bool },
    /// Delete the matching ref or pattern on the remote.
    Delete { ref_or_pattern: &'a [u8] },
    /// Push all branches that exist on both sides.
    AllMatchingBranches { allow_non_fast_forward: bool },
}

/// The instruction a refspec amounts to.
pub enum Instruction<'a> {
    Fetch(Fetch<'a>),
    Push(Push<'a>),
}

/// A parsed refspec, borrowing its source and destination.
pub struct RefSpecRef<'a> {
    pub mode: Mode,
    pub op: Operation,
    pub src: Option<&'a [u8]>,
    pub dst: Option<&'a [u8]>,
}

/// An owned, standalone refspec.
pub struct RefSpec {
    pub mode: Mode,
    pub op: Operation,
    pub src: Option<Vec<u8>>,
    pub dst: Option<Vec<u8>>,
}

impl<'a> RefSpecRef<'a> {
    /// The combinations of mode, source and destination a parse can
    /// actually produce; no instruction exists for the others.
    pub open spec fn wf(self) -> bool {
        match self.op {
            Operation::Fetch => match self.mode {
                Mode::Normal | Mode::Force => self.src is Some,
                Mode::Negative => self.src is Some && self.dst is None,
            },
            Operation::Push => self.mode != Mode::Negative,
        }
    }

    /// Return the refspec mode.
    pub fn mode(&self) -> (r: Mode)
        ensures
            r == self.mode,
    {
        self.mode
    }

    /// Transform the state of the refspec into an instruction making clear
    /// what to do with it.
    pub fn instruction(&self) -> (r: Instruction<'a>)
        requires
            self.wf(),
        ensures
            ({
                let anff = self.mode == Mode::Force;
                match (self.op, self.mode, self.src, self.dst) {
                    (Operation::Fetch, Mode::Normal | Mode::Force, Some(src), None) => (r matches
                        Instruction::Fetch(Fetch::Only { src: s }) && s@ == src@),
                    (Operation::Fetch, Mode::Normal | Mode::Force, Some(src), Some(dst)) => (r
                        matches Instruction::Fetch(
                        Fetch::AndUpdate { src: s, dst: d, allow_non_fast_forward: f },
                    ) && s@ == src@ && d@ == dst@ && f == anff),
                    (Operation::Fetch, Mode::Negative, Some(src), None) => (r matches
                        Instruction::Fetch(Fetch::Exclude { src: s }) && s@ == src@),
                    (Operation::Push, Mode::Normal | Mode::Force, Some(src), None) => (r matches
                        Instruction::Push(
                        Push::Matching { src: s, dst: d, allow_non_fast_forward: f },
                    ) && s@ == src@ && d@ == src@ && f == anff),
                    (Operation::Push, Mode::Normal | Mode::Force, None, Some(dst)) => (r matches
                        Instruction::Push(Push::Delete { ref_or_pattern: p }) && p@ == dst@),
                    (Operation::Push, Mode::Normal | Mode::Force, None, None) => (r matches
                        Instruction::Push(Push::AllMatchingBranches { allow_non_fast_forward: f })
                        && f == anff),
                    (Operation::Push, Mode::Normal | Mode::Force, Some(src), Some(dst)) => (r
                        matches Instruction::Push(
                        Push::Matching { src: s, dst: d, allow_non_fast_forward: f },
                    ) && s@ == src@ && d@ == dst@ && f == anff),
                    _ => false,
                }
            }),
    {
        match self.op {
            Operation::Fetch => match (self.mode, self.src, self.dst) {
                (Mode::Normal | Mode::Force, Some(src), None) => Instruction::Fetch(
                    Fetch::Only { src },
                ),
                (Mode::Normal | Mode::Force, Some(src), Some(dst)) => Instruction::Fetch(
                    Fetch::AndUpdate {
                        src,
                        dst,
                        allow_non_fast_forward: matches!(self.mode, Mode::Force),
                    },
                ),
                (Mode::Negative, Some(src), None) => Instruction::Fetch(Fetch::Exclude { src }),
                _ => {
                    proof {
                        assert(false);
                    }
                    Instruction::Push(Push::AllMatchingBranches { allow_non_fast_forward: false })
                },
            },
            Operation::Push => match (self.mode, self.src, self.dst) {
                (Mode::Normal | Mode::Force, Some(src), None) => Instruction::Push(
                    Push::Matching {
                        src,
                        dst: src,
                        allow_non_fast_forward: matches!(self.mode, Mode::Force),
                    },
                ),
                (Mode::Normal | Mode::Force, None, Some(dst)) => Instruction::Push(
                    Push::Delete { ref_or_pattern: dst },
                ),
                (Mode::Normal | Mode::Force, None, None) => Instruction::Push(
                    Push::AllMatchingBranches {
                        allow_non_fast_forward: matches!(self.mode, Mode::Force),
                    },
                ),
                (Mode::Normal | Mode::Force, Some(src), Some(dst)) => Instruction::Push(
                    Push::Matching {
                        src,
                        dst,
                        allow_non_fast_forward: matches!(self.mode, Mode::Force),
                    },
                ),
                _ => {
                    proof {
                        assert(false);
                    }
                    Instruction::Push(Push::AllMatchingBranches { allow_non_fast_forward: false })
                },
            },
        }
    }

    /// Convert this ref into a standalone, owned copy.
    pub fn to_owned(&self) -> (r: RefSpec)
        ensures
            r.mode == self.mode,
            r.op == self.op,
            match (r.src, self.src) {
                (Some(o), Some(b)) => o@ == b@,
                (None, None) => true,
                _ => false,
            },
            match (r.dst, self.dst) {
                (Some(o), Some(b)) => o@ == b@,
                (None, None) => true,
                _ => false,
            },
    {
        RefSpec {
            mode: self.mode,
            op: self.op,
            src: match self.src {
                Some(s) => Some(slice_to_vec(s)),
                None => None,
            },
            dst: match self.dst {
                Some(d) => Some(slice_to_vec(d)),
                None => None,
            },
        }
    }
}

} // verus!
