//! What a whole pass emits when the host answers by fixed rules.
//!
//! A [`Service`] adds to a [`Host`] the rule by which the coarse walk
//! advances. Under such a service the course of a sampler is determined:
//! [`SamplerState::run`] is the sequence of segments it hands out from a
//! given state on. [`pass_segments`] describes the same sequence without the
//! machine, as the refinements of the coarse chords one after the other, and
//! the laws below are stated of it.

use crate::bisect::BisectionState;
use crate::polyline::{lemma_emitted_segments_are_short, lemma_settled_run_is_connected, Host};
use crate::sampler::{lemma_step_makes_progress, Event, Request, SamplerState};
use vstd::prelude::*;

verus! {

/// The rules by which a host serves a pass.
#[verifier::reject_recursive_types(P)]
pub struct Service<P> {
    /// How chords are judged.
    pub host: Host<P>,
    /// The coarse point one step after a given one.
    pub advance: spec_fn(P) -> P,
}

impl<P> SamplerState<P> {
    /// The answer this service gives to what the state asks for.
    pub open spec fn answer(self, service: Service<P>) -> Event<P> {
        match self.request() {
            Request::Coarse(previous) => Event::Coarse((service.advance)(previous)),
            Request::Chord(from, to) => {
                if (service.host.short)(from, to) {
                    Event::Short
                } else {
                    Event::Long((service.host.middle)(from, to))
                }
            },
            Request::Finished => Event::Short,
        }
    }

    /// The segments handed out from this state on, in order, when `service`
    /// answers every request, until the pass has finished.
    pub open spec fn run(self, service: Service<P>) -> Seq<(P, P)>
        decreases self.work_left(),
    {
        if self.request() is Finished {
            Seq::empty()
        } else {
            proof {
                lemma_step_makes_progress(self, self.answer(service));
            }
            let rest = self.step(self.answer(service)).run(service);
            match self.emitted(self.answer(service)) {
                Some(segment) => seq![segment] + rest,
                None => rest,
            }
        }
    }

    /// The segments still to come from the chord under refinement.
    pub open spec fn current_chord(self, host: Host<P>) -> Seq<(P, P)> {
        match self.bisection {
            Some(bisection) => bisection.run(host),
            None => Seq::empty(),
        }
    }
}

/// The segments of a pass of `steps` coarse steps from `previous`: the
/// refinement of the chord to the next coarse point, then the rest of the
/// pass from there.
pub open spec fn pass_segments<P>(previous: P, steps: nat, cap: nat, service: Service<P>) -> Seq<
    (P, P),
>
    decreases steps,
{
    if steps == 0 {
        Seq::empty()
    } else {
        let new = (service.advance)(previous);
        BisectionState::start(new, previous, cap).run(service.host) + pass_segments(
            new,
            (steps - 1) as nat,
            cap,
            service,
        )
    }
}

/// The number of coarse chords, among the `steps` that follow `previous`,
/// whose refinement ends before the cap.
pub open spec fn settled_chords<P>(previous: P, steps: nat, cap: nat, service: Service<P>) -> nat
    decreases steps,
{
    if steps == 0 {
        0
    } else {
        let new = (service.advance)(previous);
        let rest = settled_chords(new, (steps - 1) as nat, cap, service);
        if BisectionState::start(new, previous, cap).settles(service.host) {
            rest + 1
        } else {
            rest
        }
    }
}

/// A sampler under a service hands out what is left of the chord under
/// refinement, then the segments of the coarse steps ahead.
pub proof fn lemma_run_decomposes<P>(state: SamplerState<P>, service: Service<P>)
    ensures
        state.run(service) == state.current_chord(service.host) + pass_segments(
            state.previous,
            state.steps_ahead(),
            state.cap,
            service,
        ),
    decreases state.work_left(),
{
    let event = state.answer(service);
    let next = state.step(event);
    let ahead = pass_segments(state.previous, state.steps_ahead(), state.cap, service);
    lemma_step_makes_progress(state, event);
    if state.refining() {
        let bisection = state.bisection->0;
        let rest = bisection.next(service.host).run(service.host);
        lemma_run_decomposes(next, service);
        assert(next.run(service) == rest + ahead);
        match state.emitted(event) {
            Some(segment) => {
                assert(state.run(service) =~= (seq![segment] + rest) + ahead);
            },
            None => {},
        }
    } else if state.taken < state.nb_points {
        lemma_run_decomposes(next, service);
        assert(state.current_chord(service.host) =~= Seq::<(P, P)>::empty());
        assert(state.run(service) =~= ahead);
    } else {
        assert(state.current_chord(service.host) =~= Seq::<(P, P)>::empty());
        assert(state.run(service) =~= ahead);
    }
}

/// A pass from its beginning hands out exactly the refinements of its
/// coarse chords, one after the other.
pub proof fn lemma_pass_is_its_chords<P>(nb_points: nat, start: P, cap: nat, service: Service<P>)
    ensures
        SamplerState::start(nb_points, start, cap).run(service) == pass_segments(
            start,
            nb_points,
            cap,
            service,
        ),
{
    let state = SamplerState::start(nb_points, start, cap);
    lemma_run_decomposes(state, service);
    assert(state.run(service) =~= pass_segments(start, nb_points, cap, service));
}

/// Every segment of a pass is a chord that the host judged short, whether or
/// not the cap was reached on the way.
pub proof fn lemma_pass_segments_are_short<P>(
    previous: P,
    steps: nat,
    cap: nat,
    service: Service<P>,
)
    ensures
        forall|i: int|
            0 <= i < pass_segments(previous, steps, cap, service).len() ==> (service.host.short)(
                (#[trigger] pass_segments(previous, steps, cap, service)[i]).0,
                pass_segments(previous, steps, cap, service)[i].1,
            ),
    decreases steps,
{
    if steps > 0 {
        let new = (service.advance)(previous);
        let first = BisectionState::start(new, previous, cap).run(service.host);
        let rest = pass_segments(new, (steps - 1) as nat, cap, service);
        let whole = pass_segments(previous, steps, cap, service);
        lemma_emitted_segments_are_short(BisectionState::start(new, previous, cap), service.host);
        lemma_pass_segments_are_short(new, (steps - 1) as nat, cap, service);
        assert forall|i: int| 0 <= i < whole.len() implies (service.host.short)(
            (#[trigger] whole[i]).0,
            whole[i].1,
        ) by {
            if i < first.len() {
                assert(whole[i] == first[i]);
            } else {
                assert(whole[i] == rest[i - first.len()]);
            }
        }
    }
}

/// A pass emits at least one segment for every coarse chord whose
/// refinement ends before the cap.
pub proof fn lemma_one_segment_per_settled_chord<P>(
    previous: P,
    steps: nat,
    cap: nat,
    service: Service<P>,
)
    ensures
        pass_segments(previous, steps, cap, service).len() >= settled_chords(
            previous,
            steps,
            cap,
            service,
        ),
    decreases steps,
{
    if steps > 0 {
        let new = (service.advance)(previous);
        let chord = BisectionState::start(new, previous, cap);
        lemma_one_segment_per_settled_chord(new, (steps - 1) as nat, cap, service);
        if chord.settles(service.host) {
            lemma_settled_run_is_connected(chord, service.host);
        }
    }
}

} // verus!
