//! One sampling pass: the coarse walk and the refinement of each of its
//! chords.
//!
//! A pass takes `nb_points` coarse steps. Each step yields a new coarse point,
//! and the chord from the previous coarse point to the new one is refined
//! before the walk goes on. The sampler decides what happens next; the host
//! does what only it can do. It asks [`Sampler::request`] what is needed,
//! evaluates a point or measures a chord, and hands the result to
//! [`Sampler::step`], which returns a segment whenever one is to be drawn.

use crate::bisect::{Bisection, BisectionState, Verdict, MAX_OPERATIONS};
use crate::period::{nb_points, spec_nb_points, InvalidFrequency};
use vstd::prelude::*;

verus! {

/// What the sampler needs from the host next.
#[derive(Debug)]
pub enum Request<P> {
    /// The coarse point one step after the enclosed one.
    Coarse(P),
    /// A judgement on the chord between the two enclosed points; if the
    /// chord is too long, the point halfway along the curve as well.
    Chord(P, P),
    /// Nothing: the pass is over.
    Finished,
}

/// What the host reports to the sampler.
#[derive(Debug)]
pub enum Event<P> {
    /// The coarse point that was asked for.
    Coarse(P),
    /// The chord that was asked about is shorter than the tolerance.
    Short,
    /// The chord that was asked about is too long; the point halfway along
    /// the curve is enclosed.
    Long(P),
}

/// A sampling pass in progress.
pub struct Sampler<P> {
    nb_points: u64,
    taken: u64,
    previous: P,
    cap: u32,
    bisection: Option<Bisection<P>>,
}

/// The mathematical content of a [`Sampler`].
pub struct SamplerState<P> {
    /// The number of coarse steps the pass takes.
    pub nb_points: nat,
    /// The number of coarse steps taken so far.
    pub taken: nat,
    /// The coarse point reached last; before the first step, the starting
    /// point.
    pub previous: P,
    /// The most operations spent on one coarse chord.
    pub cap: nat,
    /// The refinement of the chord that ends in `previous`, once the first
    /// step is taken.
    pub bisection: Option<BisectionState<P>>,
}

impl<P> SamplerState<P> {
    /// The state in which a pass begins.
    pub open spec fn start(nb_points: nat, start: P, cap: nat) -> Self {
        SamplerState { nb_points, taken: 0, previous: start, cap, bisection: None }
    }

    /// A chord of the current refinement awaits judgement.
    pub open spec fn refining(self) -> bool {
        self.bisection matches Some(b) && b.pending()
    }

    /// What the host is asked for in this state: a judgement while a
    /// refinement is under way, else the next coarse point while steps
    /// remain, else nothing.
    pub open spec fn request(self) -> Request<P> {
        if self.refining() {
            let chord = self.bisection->0.chord();
            Request::Chord(chord.0, chord.1)
        } else if self.taken < self.nb_points {
            Request::Coarse(self.previous)
        } else {
            Request::Finished
        }
    }

    /// `event` is an answer to what this state asks for.
    pub open spec fn answered_by(self, event: Event<P>) -> bool {
        match self.request() {
            Request::Coarse(_) => event is Coarse,
            Request::Chord(_, _) => event is Short || event is Long,
            Request::Finished => false,
        }
    }

    /// The state after `event`. An event that does not answer the request
    /// is ignored.
    pub open spec fn step(self, event: Event<P>) -> Self {
        if !self.answered_by(event) {
            self
        } else {
            match event {
                Event::Coarse(new) => SamplerState {
                    taken: self.taken + 1,
                    previous: new,
                    bisection: Some(BisectionState::start(new, self.previous, self.cap)),
                    ..self
                },
                Event::Short => SamplerState {
                    bisection: Some(self.bisection->0.step(Verdict::Short)),
                    ..self
                },
                Event::Long(middle) => SamplerState {
                    bisection: Some(self.bisection->0.step(Verdict::Long(middle))),
                    ..self
                },
            }
        }
    }

    /// The segment to draw on `event`: the chord asked about, if the host
    /// found it short.
    pub open spec fn emitted(self, event: Event<P>) -> Option<(P, P)> {
        if self.refining() && event is Short {
            Some(self.bisection->0.chord())
        } else {
            None
        }
    }

    /// The number of coarse steps still to be taken.
    pub open spec fn steps_ahead(self) -> nat {
        if self.taken < self.nb_points {
            (self.nb_points - self.taken) as nat
        } else {
            0
        }
    }

    /// An upper bound on the number of answers the pass can still take: for
    /// each coarse step ahead the step itself and a full cap of operations,
    /// and what is left of the cap for the chord under refinement.
    pub open spec fn work_left(self) -> nat {
        let ahead = self.steps_ahead() * (self.cap + 1);
        if self.refining() {
            ahead + (self.bisection->0.cap - self.bisection->0.operations) as nat
        } else {
            ahead
        }
    }
}

impl<P> View for Sampler<P> {
    type V = SamplerState<P>;

    closed spec fn view(&self) -> SamplerState<P> {
        SamplerState {
            nb_points: self.nb_points as nat,
            taken: self.taken as nat,
            previous: self.previous,
            cap: self.cap as nat,
            bisection: match self.bisection {
                Some(b) => Some(b@),
                None => None,
            },
        }
    }
}

impl<P: Copy> Sampler<P> {
    /// A pass of `nb_points` coarse steps from `start`, with the standard cap
    /// of [`MAX_OPERATIONS`] per coarse chord.
    pub fn new(nb_points: u64, start: P) -> (sampler: Self)
        ensures
            sampler@ == SamplerState::start(nb_points as nat, start, MAX_OPERATIONS as nat),
    {
        Self::with_cap(nb_points, start, MAX_OPERATIONS)
    }

    /// A pass of `nb_points` coarse steps from `start` that spends at most
    /// `cap` operations on each coarse chord.
    pub fn with_cap(nb_points: u64, start: P, cap: u32) -> (sampler: Self)
        ensures
            sampler@ == SamplerState::start(nb_points as nat, start, cap as nat),
    {
        Sampler { nb_points, taken: 0, previous: start, cap, bisection: None }
    }

    /// A pass over the whole pattern of two frames with the given
    /// frequencies, from `start`.
    ///
    /// A frequency of zero is rejected.
    pub fn from_frequency(large_frequency: u32, small_frequency: u32, start: P) -> (r: Result<
        Self,
        InvalidFrequency,
    >)
        ensures
            r is Err <==> large_frequency == 0 || small_frequency == 0,
            r matches Ok(sampler) ==> sampler@ == SamplerState::start(
                spec_nb_points(large_frequency as nat, small_frequency as nat),
                start,
                MAX_OPERATIONS as nat,
            ),
    {
        match nb_points(large_frequency, small_frequency) {
            Ok(n) => Ok(Self::new(n, start)),
            Err(e) => Err(e),
        }
    }

    /// The number of coarse steps the pass takes.
    pub fn nb_points(&self) -> (n: u64)
        ensures
            n == self@.nb_points,
    {
        self.nb_points
    }

    /// The number of coarse steps taken so far.
    pub fn taken(&self) -> (n: u64)
        ensures
            n == self@.taken,
    {
        self.taken
    }

    /// What the host has to supply next.
    pub fn request(&self) -> (request: Request<P>)
        ensures
            request == self@.request(),
    {
        let pending = match &self.bisection {
            Some(b) => b.pending(),
            None => None,
        };
        match pending {
            Some((from, to)) => Request::Chord(from, to),
            None => {
                if self.taken < self.nb_points {
                    Request::Coarse(self.previous)
                } else {
                    Request::Finished
                }
            },
        }
    }

    /// Takes the host's answer to the current request and returns the
    /// segment to draw, if the answer accepts a chord.
    ///
    /// An event that does not answer the current request changes nothing
    /// and returns `None`.
    pub fn step(&mut self, event: Event<P>) -> (segment: Option<(P, P)>)
        ensures
            final(self)@ == old(self)@.step(event),
            segment == old(self)@.emitted(event),
            old(self)@.answered_by(event) ==> final(self)@.work_left() < old(self)@.work_left(),
    {
        proof {
            lemma_step_makes_progress(self@, event);
        }
        let refining = match &self.bisection {
            Some(b) => b.pending().is_some(),
            None => false,
        };
        match event {
            Event::Coarse(new) => {
                if !refining && self.taken < self.nb_points {
                    self.bisection = Some(Bisection::with_cap(new, self.previous, self.cap));
                    self.previous = new;
                    self.taken = self.taken + 1;
                }
                None
            },
            Event::Short => {
                match &mut self.bisection {
                    Some(b) => b.step(Verdict::Short),
                    None => None,
                }
            },
            Event::Long(middle) => {
                match &mut self.bisection {
                    Some(b) => b.step(Verdict::Long(middle)),
                    None => None,
                }
            },
        }
    }
}

/// Every answer brings the pass nearer its end, and a pass begins with no
/// more than `nb_points * (cap + 1)` answers ahead of it: the work of a pass
/// is bounded whatever the host reports.
pub proof fn lemma_step_makes_progress<P>(state: SamplerState<P>, event: Event<P>)
    ensures
        state.answered_by(event) ==> state.step(event).work_left() < state.work_left(),
        !state.answered_by(event) ==> state.step(event) == state,
        state.request() is Finished <==> state.work_left() == 0,
        SamplerState::start(state.nb_points, state.previous, state.cap).work_left()
            == state.nb_points * (state.cap + 1),
{
    let per_step = state.cap + 1;
    let ahead = state.steps_ahead();
    let ahead_after = state.step(event).steps_ahead();
    if ahead > 0 {
        assert(ahead * per_step >= per_step) by (nonlinear_arith)
            requires
                ahead >= 1,
                per_step >= 0,
        ;
    } else {
        assert(ahead * per_step == 0) by (nonlinear_arith)
            requires
                ahead == 0,
        ;
    }
    if ahead_after + 1 == ahead {
        assert(ahead * per_step == ahead_after * per_step + per_step) by (nonlinear_arith)
            requires
                ahead == ahead_after + 1,
        ;
    }
    assert(state.nb_points * per_step == SamplerState::start(
        state.nb_points,
        state.previous,
        state.cap,
    ).steps_ahead() * per_step);
}

} // verus!
