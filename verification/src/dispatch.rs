//! The query dispatcher: the state machine at the core of the launcher. It
//! receives `Term` and `Represent` events, decides per keystroke whether the
//! text is arithmetic or a search query, tags matching work with a
//! monotonically increasing generation token, and discards results of
//! superseded generations so a stale match set is never shown after a newer
//! one. The host runs the event loop and the channels; every decision is
//! made here.

use vstd::prelude::*;
use crate::index::{AppEntry, AppEntryV, AppIndex};
use crate::math::{Rat, RatV, evaluate, spec_evaluate};
use crate::matching::{rank, spec_rank};

verus! {

/// Input to the dispatcher: new query text, or a request to re-show the
/// current result without changing it.
pub enum QueryEvent {
    Term(String),
    Represent,
}

/// Mathematical model of a query event.
pub ghost enum QueryEventV {
    TermV(Seq<char>),
    RepresentV,
}

impl View for QueryEvent {
    type V = QueryEventV;

    open spec fn view(&self) -> QueryEventV {
        match self {
            QueryEvent::Term(t) => QueryEventV::TermV(t@),
            QueryEvent::Represent => QueryEventV::RepresentV,
        }
    }
}

/// Output of the dispatcher, consumed by the presentation layer.
pub enum ResultEvent {
    Matches(Vec<AppEntry>),
    ArithmeticResult(Rat),
    Cleared,
    Dismiss,
}

/// Mathematical model of a result event.
pub ghost enum ResultEventV {
    MatchesV(Seq<AppEntryV>),
    ArithmeticV(RatV),
    ClearedV,
    DismissV,
}

impl View for ResultEvent {
    type V = ResultEventV;

    open spec fn view(&self) -> ResultEventV {
        match self {
            ResultEvent::Matches(v) => ResultEventV::MatchesV(v@.map_values(|e: AppEntry| e@)),
            ResultEvent::ArithmeticResult(x) => ResultEventV::ArithmeticV(x@),
            ResultEvent::Cleared => ResultEventV::ClearedV,
            ResultEvent::Dismiss => ResultEventV::DismissV,
        }
    }
}

/// What one submitted event asks the host worker to do: either hand a result
/// event to the consumer, or run ranking for the given query under the given
/// generation token and report back through `complete_rank`.
pub enum Outcome {
    Emit(ResultEvent),
    StartRank(String, u64),
}

/// Mathematical model of an outcome.
pub ghost enum OutcomeV {
    EmitV(ResultEventV),
    StartRankV(Seq<char>, nat),
}

impl View for Outcome {
    type V = OutcomeV;

    open spec fn view(&self) -> OutcomeV {
        match self {
            Outcome::Emit(r) => OutcomeV::EmitV(r@),
            Outcome::StartRank(t, g) => OutcomeV::StartRankV(t@, *g as nat),
        }
    }
}

/// Mathematical model of the dispatcher state.
pub ghost struct DispatcherV {
    pub index: Seq<AppEntryV>,
    pub generation: nat,
    pub evaluating: bool,
    pub last: Option<ResultEventV>,
}

/// The state after one submitted event, and the outcome it yields.
/// A `Term` always bumps the generation token. Empty text clears; text that
/// evaluates as arithmetic is answered at once, math before search; anything
/// else starts ranking under the new token.
pub open spec fn spec_submit(d: DispatcherV, ev: QueryEventV) -> (DispatcherV, OutcomeV) {
    match ev {
        QueryEventV::TermV(t) => {
            let g = d.generation + 1;
            if t.len() == 0 {
                (
                    DispatcherV {
                        generation: g,
                        evaluating: false,
                        last: Option::Some(ResultEventV::ClearedV),
                        ..d
                    },
                    OutcomeV::EmitV(ResultEventV::ClearedV),
                )
            } else {
                match spec_evaluate(t) {
                    Option::Some(v) => (
                        DispatcherV {
                            generation: g,
                            evaluating: false,
                            last: Option::Some(ResultEventV::ArithmeticV(v)),
                            ..d
                        },
                        OutcomeV::EmitV(ResultEventV::ArithmeticV(v)),
                    ),
                    Option::None => (
                        DispatcherV { generation: g, evaluating: true, ..d },
                        OutcomeV::StartRankV(t, g),
                    ),
                }
            }
        },
        QueryEventV::RepresentV => {
            let out = match d.last {
                Option::Some(r) => r,
                Option::None => ResultEventV::ClearedV,
            };
            (d, OutcomeV::EmitV(out))
        },
    }
}

/// The state after a ranking job for generation `g` finishes: its result is
/// emitted only if `g` is still the current generation, and is discarded
/// silently otherwise.
pub open spec fn spec_complete(d: DispatcherV, g: nat, ranked: Seq<AppEntryV>) -> (
    DispatcherV,
    Option<ResultEventV>,
) {
    if g == d.generation {
        (
            DispatcherV {
                evaluating: false,
                last: Option::Some(ResultEventV::MatchesV(ranked)),
                ..d
            },
            Option::Some(ResultEventV::MatchesV(ranked)),
        )
    } else {
        (d, Option::None)
    }
}

/// The query dispatcher: owns the immutable application index, the
/// generation token and the last computed result.
pub struct QueryDispatcher {
    index: AppIndex,
    generation: u64,
    evaluating: bool,
    last: Option<ResultEvent>,
}

impl View for QueryDispatcher {
    type V = DispatcherV;

    closed spec fn view(&self) -> DispatcherV {
        DispatcherV {
            index: self.index@,
            generation: self.generation as nat,
            evaluating: self.evaluating,
            last: match self.last {
                Option::Some(ref r) => Option::Some(r@),
                Option::None => Option::None,
            },
        }
    }
}

/// An exact copy of a result event, so `Represent` can re-emit the stored
/// one.
fn clone_result(r: &ResultEvent) -> (c: ResultEvent)
    ensures
        c@ == r@,
{
    match r {
        ResultEvent::Matches(v) => {
            let mut v2: Vec<AppEntry> = Vec::new();
            let mut i: usize = 0;
            while i < v.len()
                invariant
                    i <= v@.len(),
                    v2@.len() == i,
                    forall|k: int| 0 <= k < i ==> (#[trigger] v2@[k])@ == v@[k]@,
                decreases v@.len() - i,
            {
                v2.push(v[i].duplicate());
                i = i + 1;
            }
            proof {
                assert(v2@.map_values(|e: AppEntry| e@) =~= v@.map_values(|e: AppEntry| e@));
            }
            ResultEvent::Matches(v2)
        },
        ResultEvent::ArithmeticResult(x) => ResultEvent::ArithmeticResult(*x),
        ResultEvent::Cleared => ResultEvent::Cleared,
        ResultEvent::Dismiss => ResultEvent::Dismiss,
    }
}

impl QueryDispatcher {
    /// A fresh dispatcher over the given index: generation zero, idle, no
    /// result computed yet.
    pub fn new(index: AppIndex) -> (d: QueryDispatcher)
        ensures
            d@.index == index@,
            d@.generation == 0,
            !d@.evaluating,
            d@.last is None,
    {
        QueryDispatcher { index, generation: 0, evaluating: false, last: Option::None }
    }

    /// Handles one input event, as `spec_submit` states: a `Term` bumps the
    /// generation and either emits at once (cleared, or an arithmetic value
    /// — math before search) or starts ranking under the new token; a
    /// `Represent` re-emits the last result, or `Cleared` if none exists,
    /// and changes nothing.
    pub fn submit(&mut self, event: QueryEvent) -> (out: Outcome)
        requires
            old(self)@.generation < u64::MAX as nat,
        ensures
            (final(self)@, out@) == spec_submit(old(self)@, event@),
    {
        match event {
            QueryEvent::Term(t) => {
                self.generation = self.generation + 1;
                if t.as_str().unicode_len() == 0 {
                    self.evaluating = false;
                    self.last = Option::Some(ResultEvent::Cleared);
                    Outcome::Emit(ResultEvent::Cleared)
                } else {
                    match evaluate(t.as_str()) {
                        Option::Some(v) => {
                            self.evaluating = false;
                            self.last = Option::Some(ResultEvent::ArithmeticResult(v));
                            Outcome::Emit(ResultEvent::ArithmeticResult(v))
                        },
                        Option::None => {
                            self.evaluating = true;
                            let g = self.generation;
                            Outcome::StartRank(t, g)
                        },
                    }
                }
            },
            QueryEvent::Represent => {
                match &self.last {
                    Option::Some(r) => Outcome::Emit(clone_result(r)),
                    Option::None => Outcome::Emit(ResultEvent::Cleared),
                }
            },
        }
    }

    /// Ranks the index against `query`; the host worker calls this for a
    /// `StartRank` outcome and reports the result through `complete_rank`.
    pub fn run_rank(&self, query: &str) -> (r: Vec<AppEntry>)
        ensures
            r@.map_values(|e: AppEntry| e@) == spec_rank(self@.index, query@),
    {
        rank(query, &self.index)
    }

    /// Takes the result of the ranking job tagged `g`: emitted as `Matches`
    /// and remembered if `g` is still the current generation, discarded
    /// without any state change otherwise.
    pub fn complete_rank(&mut self, g: u64, ranked: Vec<AppEntry>) -> (out: Option<ResultEvent>)
        ensures
            ({
                let (d2, o2) = spec_complete(
                    old(self)@,
                    g as nat,
                    ranked@.map_values(|e: AppEntry| e@),
                );
                final(self)@ == d2 && (match out {
                    Option::Some(r) => o2 == Option::Some(r@),
                    Option::None => o2 is None,
                })
            }),
    {
        if g == self.generation {
            let out_ev = ResultEvent::Matches(ranked);
            let stored = clone_result(&out_ev);
            self.evaluating = false;
            self.last = Option::Some(stored);
            Option::Some(out_ev)
        } else {
            Option::None
        }
    }
}

/// Math before app search: when the term evaluates as arithmetic, the
/// dispatcher emits the arithmetic result at once and never starts ranking,
/// whatever the index holds.
pub proof fn lemma_math_before_search(d: DispatcherV, t: Seq<char>, v: RatV)
    requires
        t.len() > 0,
        spec_evaluate(t) == Option::Some(v),
    ensures
        spec_submit(d, QueryEventV::TermV(t)).1 == OutcomeV::EmitV(ResultEventV::ArithmeticV(v)),
        !(spec_submit(d, QueryEventV::TermV(t)).1 is StartRankV),
{
}

/// An empty term always yields exactly `Cleared`, whatever the prior state,
/// and leaves no ranking job behind.
pub proof fn lemma_empty_term_clears(d: DispatcherV, t: Seq<char>)
    requires
        t.len() == 0,
    ensures
        spec_submit(d, QueryEventV::TermV(t)).1 == OutcomeV::EmitV(ResultEventV::ClearedV),
        spec_submit(d, QueryEventV::TermV(t)).0.last == Option::Some(ResultEventV::ClearedV),
{
}

/// A ranking result whose generation is no longer current is discarded: no
/// event is emitted and the state does not change.
pub proof fn lemma_stale_result_discarded(d: DispatcherV, g: nat, ranked: Seq<AppEntryV>)
    requires
        g != d.generation,
    ensures
        spec_complete(d, g, ranked).0 == d,
        spec_complete(d, g, ranked).1 is None,
{
}

/// The dispatcher state after a whole sequence of events.
pub open spec fn submit_all(d: DispatcherV, evs: Seq<QueryEventV>) -> DispatcherV
    decreases evs.len(),
{
    if evs.len() == 0 {
        d
    } else {
        submit_all(spec_submit(d, evs.first()).0, evs.drop_first())
    }
}

/// The generation token never decreases, and every `Term` event raises it.
pub proof fn lemma_generation_monotone(d: DispatcherV, evs: Seq<QueryEventV>)
    ensures
        submit_all(d, evs).generation >= d.generation,
    decreases evs.len(),
{
    if evs.len() > 0 {
        let d1 = spec_submit(d, evs.first()).0;
        assert(d1.generation >= d.generation);
        lemma_generation_monotone(d1, evs.drop_first());
    }
}

proof fn lemma_submit_all_split(d: DispatcherV, evs: Seq<QueryEventV>, i: int)
    requires
        0 <= i <= evs.len(),
    ensures
        submit_all(d, evs) == submit_all(submit_all(d, evs.take(i)), evs.skip(i)),
    decreases i,
{
    if i == 0 {
        assert(evs.take(0) =~= Seq::<QueryEventV>::empty());
        assert(evs.skip(0) =~= evs);
    } else {
        let d1 = spec_submit(d, evs.first()).0;
        assert(evs.take(i).first() == evs.first());
        assert(evs.take(i).drop_first() =~= evs.drop_first().take(i - 1));
        assert(evs.skip(i) =~= evs.drop_first().skip(i - 1));
        lemma_submit_all_split(d1, evs.drop_first(), i - 1);
    }
}

/// Generation monotonicity over a burst of events: a ranking job started no
/// later than just before some `Term` event of the burst carries a token
/// below the final generation, so its result is never emitted once the burst
/// has been submitted — only the newest term's job can still be current.
pub proof fn lemma_superseded_job_never_emitted(
    d0: DispatcherV,
    evs: Seq<QueryEventV>,
    i: int,
    g: nat,
    ranked: Seq<AppEntryV>,
)
    requires
        0 <= i < evs.len(),
        evs[i] is TermV,
        g <= submit_all(d0, evs.take(i)).generation,
    ensures
        g < submit_all(d0, evs).generation,
        spec_complete(submit_all(d0, evs), g, ranked).1 is None,
        spec_complete(submit_all(d0, evs), g, ranked).0 == submit_all(d0, evs),
{
    let di = submit_all(d0, evs.take(i));
    lemma_submit_all_split(d0, evs, i);
    let rest = evs.skip(i);
    assert(rest.first() == evs[i]);
    let d1 = spec_submit(di, rest.first()).0;
    assert(d1.generation == di.generation + 1);
    assert(submit_all(di, rest) == submit_all(d1, rest.drop_first()));
    lemma_generation_monotone(d1, rest.drop_first());
}

} // verus!
