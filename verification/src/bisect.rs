//! Adaptive bisection of one coarse chord.
//!
//! The chord between two consecutive coarse points is refined until every
//! piece is shorter than the tolerance. The work list is an explicit stack:
//! its top is the point the polyline has reached, the point below it is where
//! the next segment would end. Each operation judges that chord. A short
//! chord is emitted and its start leaves the stack; a long one gets the
//! midpoint pushed beneath its start, so that the first half is judged next.
//!
//! Measuring a chord and evaluating a midpoint are the host's business. The
//! host reads the chord from [`Bisection::pending`], and reports back with a
//! [`Verdict`] to [`Bisection::step`].
//!
//! The number of operations per coarse chord is capped, so a tolerance that
//! can never be met costs bounded work and leaves the chord unfinished.

use vstd::prelude::*;

verus! {

/// The most operations spent on one coarse chord.
pub const MAX_OPERATIONS: u32 = 10_000;

/// What the host found out about the chord it was asked to judge.
#[derive(Debug)]
pub enum Verdict<P> {
    /// The chord is shorter than the tolerance.
    Short,
    /// The chord is too long; the point halfway along the curve is enclosed.
    Long(P),
}

/// The refinement of one coarse chord, in progress.
pub struct Bisection<P> {
    stack: Vec<P>,
    operations: u32,
    cap: u32,
}

/// The mathematical content of a [`Bisection`].
pub struct BisectionState<P> {
    /// The points still to be connected, the next one to leave on top.
    pub stack: Seq<P>,
    /// The operations spent so far.
    pub operations: nat,
    /// The most operations that may be spent.
    pub cap: nat,
}

impl<P> BisectionState<P> {
    /// The state in which the refinement of the chord from `previous` to
    /// `new` begins.
    pub open spec fn start(new: P, previous: P, cap: nat) -> Self {
        BisectionState { stack: seq![new, previous], operations: 0, cap }
    }

    /// A chord awaits judgement: at least two points are stacked and the cap
    /// is not reached.
    pub open spec fn pending(self) -> bool {
        self.stack.len() > 1 && self.operations < self.cap
    }

    /// The chord to judge: from the top of the stack to the point below it.
    pub open spec fn chord(self) -> (P, P) {
        (self.stack.last(), self.stack[self.stack.len() - 2])
    }

    /// The state after one operation. With nothing pending the verdict is
    /// ignored.
    pub open spec fn step(self, verdict: Verdict<P>) -> Self {
        if !self.pending() {
            self
        } else {
            match verdict {
                Verdict::Short => BisectionState {
                    stack: self.stack.drop_last(),
                    operations: self.operations + 1,
                    cap: self.cap,
                },
                Verdict::Long(middle) => BisectionState {
                    stack: self.stack.drop_last().push(middle).push(self.stack.last()),
                    operations: self.operations + 1,
                    cap: self.cap,
                },
            }
        }
    }

    /// The segment that one operation emits: the pending chord, if it is
    /// judged short.
    pub open spec fn emitted(self, verdict: Verdict<P>) -> Option<(P, P)> {
        if self.pending() && verdict is Short {
            Some(self.chord())
        } else {
            None
        }
    }
}

impl<P> View for Bisection<P> {
    type V = BisectionState<P>;

    closed spec fn view(&self) -> BisectionState<P> {
        BisectionState {
            stack: self.stack@,
            operations: self.operations as nat,
            cap: self.cap as nat,
        }
    }
}

impl<P: Copy> Bisection<P> {
    /// Begins the refinement of the chord from `previous` to `new`, with the
    /// standard cap of [`MAX_OPERATIONS`].
    pub fn new(new: P, previous: P) -> (bisection: Self)
        ensures
            bisection@ == BisectionState::start(new, previous, MAX_OPERATIONS as nat),
    {
        Self::with_cap(new, previous, MAX_OPERATIONS)
    }

    /// Begins the refinement of the chord from `previous` to `new`, spending
    /// at most `cap` operations on it.
    pub fn with_cap(new: P, previous: P, cap: u32) -> (bisection: Self)
        ensures
            bisection@ == BisectionState::start(new, previous, cap as nat),
    {
        let mut stack: Vec<P> = Vec::new();
        stack.push(new);
        stack.push(previous);
        let bisection = Bisection { stack, operations: 0, cap };
        assert(bisection@.stack =~= seq![new, previous]);
        bisection
    }

    /// The chord the host has to judge next, or `None` when the refinement is
    /// over: the polyline has reached the coarse point, or the cap is spent.
    pub fn pending(&self) -> (chord: Option<(P, P)>)
        ensures
            chord == if self@.pending() {
                Some(self@.chord())
            } else {
                None::<(P, P)>
            },
    {
        let len = self.stack.len();
        if len > 1 && self.operations < self.cap {
            Some((self.stack[len - 1], self.stack[len - 2]))
        } else {
            None
        }
    }

    /// Performs one operation on the host's verdict about the pending chord
    /// and returns the segment to draw, if the chord was accepted.
    ///
    /// With nothing pending the call changes nothing and returns `None`.
    pub fn step(&mut self, verdict: Verdict<P>) -> (segment: Option<(P, P)>)
        ensures
            final(self)@ == old(self)@.step(verdict),
            segment == old(self)@.emitted(verdict),
    {
        let len = self.stack.len();
        if len <= 1 || self.operations >= self.cap {
            return None;
        }
        let from = self.stack[len - 1];
        let to = self.stack[len - 2];
        self.operations = self.operations + 1;
        self.stack.pop();
        match verdict {
            Verdict::Short => {
                assert(self@.stack =~= old(self)@.stack.drop_last());
                Some((from, to))
            },
            Verdict::Long(middle) => {
                self.stack.push(middle);
                self.stack.push(from);
                assert(self@.stack =~= old(self)@.stack.drop_last().push(middle).push(from));
                None
            },
        }
    }

    /// The operations spent on this chord so far.
    pub fn operations(&self) -> (n: u32)
        ensures
            n == self@.operations,
    {
        self.operations
    }

    /// Whether the refinement stopped at the cap and left the chord
    /// unfinished.
    pub fn is_capped(&self) -> (capped: bool)
        ensures
            capped == (self@.stack.len() > 1 && self@.operations >= self@.cap),
    {
        self.stack.len() > 1 && self.operations >= self.cap
    }
}

} // verus!
