//! What a bisection emits when the host answers by fixed rules.
//!
//! A [`Host`] fixes which chords count as short and where the midpoint of a
//! chord lies. Under such a host the course of a bisection is determined, and
//! so is the sequence of segments it emits: [`BisectionState::run`]. The laws
//! below are stated of that sequence.

use crate::bisect::{BisectionState, Verdict};
use vstd::prelude::*;

verus! {

/// The rules by which a host judges chords.
#[verifier::reject_recursive_types(P)]
pub struct Host<P> {
    /// Whether the chord between two points is shorter than the tolerance.
    pub short: spec_fn(P, P) -> bool,
    /// The point halfway along the curve between two points.
    pub middle: spec_fn(P, P) -> P,
}

impl<P> Host<P> {
    /// The verdict this host gives on a chord.
    pub open spec fn verdict(self, chord: (P, P)) -> Verdict<P> {
        if (self.short)(chord.0, chord.1) {
            Verdict::Short
        } else {
            Verdict::Long((self.middle)(chord.0, chord.1))
        }
    }

    /// `self` applies a tolerance no larger than `other` does, all else
    /// equal: whatever is short for `self` is short for `other`, and both
    /// place midpoints alike.
    pub open spec fn at_least_as_fine_as(self, other: Host<P>) -> bool {
        &&& self.middle == other.middle
        &&& forall|p: P, q: P| #[trigger] (self.short)(p, q) ==> (other.short)(p, q)
    }
}

/// The segments of `segments` join end to start.
pub open spec fn is_connected<P>(segments: Seq<(P, P)>) -> bool {
    forall|i: int| 0 <= i < segments.len() - 1 ==> (#[trigger] segments[i]).1 == segments[i + 1].0
}

impl<P> BisectionState<P> {
    /// The state that follows when `host` judges the pending chord.
    pub open spec fn next(self, host: Host<P>) -> Self {
        self.step(host.verdict(self.chord()))
    }

    /// The segments emitted from this state on, in order, when `host` judges
    /// every chord, until nothing is pending.
    pub open spec fn run(self, host: Host<P>) -> Seq<(P, P)>
        decreases self.cap - self.operations,
    {
        if !self.pending() {
            Seq::empty()
        } else {
            match self.emitted(host.verdict(self.chord())) {
                Some(segment) => seq![segment] + self.next(host).run(host),
                None => self.next(host).run(host),
            }
        }
    }

    /// The run under `host` ends with the stack down to one point, not at
    /// the cap.
    pub open spec fn settles(self, host: Host<P>) -> bool
        decreases self.cap - self.operations,
    {
        if self.stack.len() <= 1 {
            true
        } else if self.operations >= self.cap {
            false
        } else {
            self.next(host).settles(host)
        }
    }
}

/// Every emitted segment is a chord that the host judged short; the cap
/// ends a run, it never lets a long chord through.
pub proof fn lemma_emitted_segments_are_short<P>(state: BisectionState<P>, host: Host<P>)
    ensures
        forall|i: int|
            0 <= i < state.run(host).len() ==> (host.short)(
                (#[trigger] state.run(host)[i]).0,
                state.run(host)[i].1,
            ),
    decreases state.cap - state.operations,
{
    if state.pending() {
        let rest = state.next(host).run(host);
        let whole = state.run(host);
        lemma_emitted_segments_are_short(state.next(host), host);
        assert forall|i: int| 0 <= i < whole.len() implies (host.short)(
            (#[trigger] whole[i]).0,
            whole[i].1,
        ) by {
            if whole.len() == rest.len() {
                assert(whole[i] == rest[i]);
            } else if i > 0 {
                assert(whole[i] == rest[i - 1]);
            }
        }
    }
}

/// A run that settles would have run the same way with operations to spare.
proof fn lemma_spare_operations<P>(
    state: BisectionState<P>,
    earlier: BisectionState<P>,
    host: Host<P>,
)
    requires
        state.settles(host),
        earlier.stack == state.stack,
        earlier.cap == state.cap,
        earlier.operations <= state.operations,
    ensures
        earlier.settles(host),
        earlier.run(host) == state.run(host),
    decreases state.cap - state.operations,
{
    if state.stack.len() > 1 {
        lemma_spare_operations(state.next(host), earlier.next(host), host);
    }
}

/// A run that settles works off the top of its stack first: it reaches the
/// state with that point gone, and what it emits until then is a connected
/// path of at least one segment along the chord on top.
proof fn lemma_descent<P>(state: BisectionState<P>, host: Host<P>) -> (r: (
    BisectionState<P>,
    Seq<(P, P)>,
))
    requires
        state.stack.len() >= 2,
        state.settles(host),
    ensures
        r.0.stack == state.stack.drop_last(),
        r.0.cap == state.cap,
        state.operations < r.0.operations <= r.0.cap,
        r.0.settles(host),
        state.run(host) == r.1 + r.0.run(host),
        r.1.len() >= 1,
        is_connected(r.1),
        r.1.first().0 == state.chord().0,
        r.1.last().1 == state.chord().1,
    decreases state.cap - state.operations,
{
    let chord = state.chord();
    let below = state.stack.drop_last();
    if (host.short)(chord.0, chord.1) {
        let path = seq![chord];
        (state.next(host), path)
    } else {
        let middle = (host.middle)(chord.0, chord.1);
        let (first_done, first_half) = lemma_descent(state.next(host), host);
        assert(first_done.stack == below.push(middle));
        let (done, second_half) = lemma_descent(first_done, host);
        assert(done.stack == below);
        let path = first_half + second_half;
        assert(state.run(host) == path + done.run(host));
        assert(is_connected(path)) by {
            assert forall|i: int| 0 <= i < path.len() - 1 implies (#[trigger] path[i]).1 == path[i
                + 1].0 by {
                if i < first_half.len() - 1 {
                    assert(first_half[i].1 == first_half[i + 1].0);
                } else if i == first_half.len() - 1 {
                    assert(first_half.last().1 == middle);
                    assert(second_half.first().0 == middle);
                } else {
                    let j = i - first_half.len();
                    assert(second_half[j].1 == second_half[j + 1].0);
                }
            }
        }
        (done, path)
    }
}

/// Refinement is monotonic in the tolerance.
///
/// With all else fixed, a host with the smaller tolerance emits at least as
/// many segments for the same chord as one with the larger tolerance,
/// provided the cap does not cut the finer run short. The coarser run then
/// settles too.
pub proof fn lemma_finer_tolerance_emits_no_fewer<P>(
    state: BisectionState<P>,
    fine: Host<P>,
    coarse: Host<P>,
)
    requires
        fine.at_least_as_fine_as(coarse),
        state.settles(fine),
    ensures
        state.settles(coarse),
        state.run(coarse).len() <= state.run(fine).len(),
    decreases state.cap - state.operations,
{
    if state.stack.len() > 1 {
        let chord = state.chord();
        if (fine.short)(chord.0, chord.1) || !(coarse.short)(chord.0, chord.1) {
            assert(state.next(fine) == state.next(coarse));
            lemma_finer_tolerance_emits_no_fewer(state.next(fine), fine, coarse);
        } else {
            let accepted = state.next(coarse);
            let (first_done, first_half) = lemma_descent(state.next(fine), fine);
            let (done, second_half) = lemma_descent(first_done, fine);
            assert(done.stack == accepted.stack);
            lemma_finer_tolerance_emits_no_fewer(done, fine, coarse);
            lemma_spare_operations(done, accepted, coarse);
        }
    }
}

/// A run that settles draws a connected polyline through the stacked points.
///
/// The segments join end to start; the first starts at the top of the stack
/// and the last ends at its bottom. Begun on a coarse chord, the run leads
/// from the previous coarse point to the new one without a gap.
pub proof fn lemma_settled_run_is_connected<P>(state: BisectionState<P>, host: Host<P>)
    requires
        state.stack.len() >= 2,
        state.settles(host),
    ensures
        state.run(host).len() >= state.stack.len() - 1,
        is_connected(state.run(host)),
        state.run(host).first().0 == state.stack.last(),
        state.run(host).last().1 == state.stack.first(),
    decreases state.stack.len(),
{
    let (done, path) = lemma_descent(state, host);
    let rest = done.run(host);
    let whole = state.run(host);
    if done.stack.len() >= 2 {
        lemma_settled_run_is_connected(done, host);
        assert forall|i: int| 0 <= i < whole.len() - 1 implies (#[trigger] whole[i]).1 == whole[i
            + 1].0 by {
            if i < path.len() - 1 {
                assert(path[i].1 == path[i + 1].0);
            } else if i == path.len() - 1 {
                assert(path.last().1 == rest.first().0);
            } else {
                let j = i - path.len();
                assert(rest[j].1 == rest[j + 1].0);
            }
        }
        assert(whole.last() == rest.last());
    } else {
        assert(rest =~= Seq::<(P, P)>::empty());
        assert(whole =~= path);
    }
}

} // verus!
