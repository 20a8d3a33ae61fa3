use vstd::prelude::*;

verus! {

/// What the closest-hit query found for the ray being traced.
#[derive(Clone, Copy, Debug, PartialEq, Eq, Structural)]
pub enum HitKind {
    /// Nothing was hit.
    Miss,
    /// A surface that gives off light was hit.
    Emissive,
    /// A surface that scatters the ray was hit.
    Surface,
}

/// The state of one path through the scene.
#[derive(Clone, Copy, Debug, PartialEq, Eq, Structural)]
pub enum TraceState {
    /// Still tracing, with `depth` bounces of budget left (never 0).
    Tracing { depth: usize },
    /// The ray left the scene: black.
    Missed,
    /// The bounce budget ran out: black.
    Exhausted,
    /// A light was hit: its emission, times the attenuations met on the way.
    Emitted,
}

/// The path has ended.
pub open spec fn is_terminal(s: TraceState) -> bool {
    !(s is Tracing)
}

/// The state a path starts in, with `max_depth` bounces of budget.
pub open spec fn start_spec(max_depth: usize) -> TraceState {
    if max_depth == 0 {
        TraceState::Exhausted
    } else {
        TraceState::Tracing { depth: max_depth }
    }
}

/// One step: what the path does with what its ray hit.
pub open spec fn step_spec(s: TraceState, hit: HitKind) -> TraceState {
    match s {
        TraceState::Tracing { depth } => match hit {
            HitKind::Miss => TraceState::Missed,
            HitKind::Emissive => TraceState::Emitted,
            HitKind::Surface => if depth <= 1 {
                TraceState::Exhausted
            } else {
                TraceState::Tracing { depth: (depth - 1) as usize }
            },
        },
        _ => s,
    }
}

/// The state after the path has met the hits `hits`, one per step.
pub open spec fn run(s: TraceState, hits: Seq<HitKind>) -> TraceState
    decreases hits.len(),
{
    if hits.len() == 0 {
        s
    } else {
        run(step_spec(s, hits[0]), hits.drop_first())
    }
}

/// The number of closest-hit queries a path makes from `s` before it ends,
/// when its rays hit `hits` in turn.
pub open spec fn queries(s: TraceState, hits: Seq<HitKind>) -> nat
    decreases hits.len(),
{
    if hits.len() == 0 || is_terminal(s) {
        0
    } else {
        1 + queries(step_spec(s, hits[0]), hits.drop_first())
    }
}

impl TraceState {
    /// The state a path starts in, with `max_depth` bounces of budget; a
    /// budget of 0 gives black at once.
    pub fn start(max_depth: usize) -> (s: TraceState)
        ensures
            s == start_spec(max_depth),
    {
        if max_depth == 0 {
            TraceState::Exhausted
        } else {
            TraceState::Tracing { depth: max_depth }
        }
    }

    /// Whether the path has ended.
    pub fn is_done(&self) -> (r: bool)
        ensures
            r == is_terminal(*self),
    {
        !matches!(self, TraceState::Tracing { .. })
    }

    /// The next state, once the closest-hit query for the current ray gave
    /// `hit`. A miss ends in black, a light ends the path at once whatever
    /// budget is left, a scattering surface spends one bounce.
    pub fn step(&self, hit: HitKind) -> (s: TraceState)
        ensures
            s == step_spec(*self, hit),
    {
        match self {
            TraceState::Tracing { depth } => match hit {
                HitKind::Miss => TraceState::Missed,
                HitKind::Emissive => TraceState::Emitted,
                HitKind::Surface => if *depth <= 1 {
                    TraceState::Exhausted
                } else {
                    TraceState::Tracing { depth: *depth - 1 }
                },
            },
            _ => *self,
        }
    }
}

/// A path still tracing with budget `d` makes at most `d` more queries.
proof fn lemma_queries_bound(s: TraceState, hits: Seq<HitKind>)
    requires
        s is Tracing,
        s->depth >= 1,
    ensures
        queries(s, hits) <= s->depth,
        hits.len() >= s->depth ==> is_terminal(run(s, hits.take(s->depth as int))),
    decreases hits.len(),
{
    if hits.len() > 0 {
        let next = step_spec(s, hits[0]);
        let rest = hits.drop_first();
        let t = hits.take(s->depth as int);
        if next is Tracing {
            lemma_queries_bound(next, rest);
            if hits.len() >= s->depth {
                assert(t[0] == hits[0]);
                assert(t.drop_first() =~= rest.take(next->depth as int));
            }
        } else {
            assert(queries(next, rest) == 0);
            if hits.len() >= s->depth {
                assert(t[0] == hits[0]);
                lemma_run_terminal(next, t.drop_first());
            }
        }
    }
}

/// An ended path stays as it is.
proof fn lemma_run_terminal(s: TraceState, hits: Seq<HitKind>)
    requires
        is_terminal(s),
    ensures
        run(s, hits) == s,
    decreases hits.len(),
{
    if hits.len() > 0 {
        lemma_run_terminal(s, hits.drop_first());
    }
}

/// A path started with budget `max_depth` makes at most `max_depth`
/// closest-hit queries whatever its rays hit, and has ended once it has met
/// `max_depth` hits.
pub proof fn lemma_trace_terminates(max_depth: usize, hits: Seq<HitKind>)
    ensures
        queries(start_spec(max_depth), hits) <= max_depth,
        hits.len() >= max_depth ==> is_terminal(run(start_spec(max_depth), hits.take(max_depth as int))),
{
    if max_depth == 0 {
        if hits.len() > 0 {
            assert(queries(start_spec(max_depth), hits) == 0);
        }
        lemma_run_terminal(start_spec(max_depth), hits.take(0));
    } else {
        lemma_queries_bound(start_spec(max_depth), hits);
    }
}

/// A ray that hits a light ends its path with that light, whatever budget is
/// left and whatever lies behind the light.
pub proof fn lemma_emissive_terminates(depth: usize, rest: Seq<HitKind>)
    requires
        depth >= 1,
    ensures
        run(TraceState::Tracing { depth }, seq![HitKind::Emissive] + rest) == TraceState::Emitted,
{
    let hits = seq![HitKind::Emissive] + rest;
    assert(hits[0] == HitKind::Emissive);
    assert(hits.drop_first() =~= rest);
    lemma_run_terminal(TraceState::Emitted, rest);
}

} // verus!
