//! What holds of every compiled graph and of every match.

use crate::compiler::compiled;
use crate::fsm::Graph;
use crate::fsm::Transition;
use crate::matcher::accepted;
use crate::matcher::harvest;
use crate::matcher::outcome;
use crate::picture::white;
use crate::picture::Color;
use crate::picture::Grid;
use crate::point::Point;
use crate::search::lemma_run_keeps_wf;
use crate::search::running_count;
use crate::search::step;
use crate::search::try_from;
use crate::search::Config;
use crate::search::Hit;
use crate::table::function_color_of;
use crate::table::ColorType;
use crate::walk::chain_ok;
use crate::walk::loop_head;
use crate::walk::loop_tail;
use crate::walk::plain;
use vstd::prelude::*;

verus! {

/// Whether some transition of state `from` leads to state `to`.
pub open spec fn leads_to(m: Graph, from: int, to: int) -> bool {
    exists|k: int| 0 <= k < m.states[from].len() && (#[trigger] m.states[from][k]).0 == to
}

/// Whether `path` is a way through the graph from the entry state to state
/// `s`: it starts in state 0, ends in `s`, and each of its states leads to
/// the next.
pub open spec fn is_path_to(m: Graph, path: Seq<int>, s: int) -> bool {
    &&& path.len() >= 1
    &&& path[0] == 0
    &&& path.last() == s
    &&& forall|i: int|
        0 <= i < path.len() - 1 ==> 0 <= #[trigger] path[i] < m.states.len() && leads_to(
            m,
            path[i],
            path[i + 1],
        )
}

/// Whether state `s` can be reached from the entry state.
pub open spec fn reachable(m: Graph, s: int) -> bool {
    exists|path: Seq<int>| is_path_to(m, path, s)
}

/// A graph whose states form a chain has exactly one accepting state, the
/// last one, and that state can be reached from the entry state.
pub proof fn lemma_one_accepting_state(m: Graph)
    requires
        chain_ok(m.states),
    ensures
        forall|s: int| 0 <= s < m.states.len() ==> (m.accepting(s) <==> s == m.states.len() - 1),
        reachable(m, m.states.len() - 1),
{
    let n = m.states.len() as int;
    assert forall|s: int| 0 <= s < n implies (m.accepting(s) <==> s == n - 1) by {
        if s < n - 1 {
            assert(plain(m.states, s) || loop_head(m.states, s) || loop_tail(m.states, s));
        }
    }
    let path = Seq::new(n as nat, |i: int| i);
    assert forall|i: int| 0 <= i < path.len() - 1 implies 0 <= #[trigger] path[i] < n && leads_to(
        m,
        path[i],
        path[i + 1],
    ) by {
        assert(plain(m.states, i) || loop_head(m.states, i) || loop_tail(m.states, i));
        if loop_tail(m.states, i) {
            assert(m.states[i][1].0 == i + 1);
        } else {
            assert(m.states[i][0].0 == i + 1);
        }
    }
    assert(is_path_to(m, path, n - 1));
}

/// Compiling is deterministic: two graphs compiled from the same definition
/// with the same roles give the same result on every target.
pub proof fn lemma_compiling_twice_matches_alike(
    definition: Grid,
    roles: Map<Color, ColorType>,
    first: Graph,
    second: Graph,
    target: Grid,
)
    requires
        first == compiled(definition, roles),
        second == compiled(definition, roles),
    ensures
        first == second,
        outcome(first, target) == outcome(second, target),
{
}

/// No double consumption: in a match, the consumed pixels lie in the picture
/// and are pairwise distinct, and each has the color it was consumed for,
/// which is not white.
pub proof fn lemma_no_double_consumption(m: Graph, g: Grid)
    requires
        m.wf(),
        g.wf(),
    ensures
        accepted(m, g) matches Some(end) ==> {
            &&& forall|i: int|
                0 <= i < end.trace.len() ==> g.contains((#[trigger] end.trace[i]).at)
                    && g.color_at(end.trace[i].at) == end.trace[i].key && end.trace[i].key
                    != white()
            &&& forall|i: int, j: int|
                0 <= i < j < end.trace.len() ==> (#[trigger] end.trace[i]).at != (
                #[trigger] end.trace[j]).at
        },
{
    lemma_accepted_is_consistent(m, g);
}

/// A match ends in an accepting state, in a consistent configuration.
pub proof fn lemma_accepted_is_consistent(m: Graph, g: Grid)
    requires
        m.wf(),
        g.wf(),
    ensures
        accepted(m, g) matches Some(end) ==> end.wf(m, g) && m.accepting(end.state as int),
{
    match g.first_of(function_color_of(m.colors)) {
        Some(start) => {
            assert(g.is_first(function_color_of(m.colors), start));
            lemma_run_keeps_wf(m, g, Config::initial(m, start));
        },
        None => {},
    }
}

/// Every color found for a registered color is that color: a pixel is
/// consumed for the color it has.
pub proof fn lemma_harvest_is_uniform(g: Grid, trace: Seq<Hit>, key: Color)
    requires
        forall|i: int| 0 <= i < trace.len() ==> g.color_at((#[trigger] trace[i]).at) == trace[i].key,
    ensures
        forall|k: int| 0 <= k < harvest(g, trace, key).len() ==> harvest(g, trace, key)[k] == key,
    decreases trace.len(),
{
    if trace.len() > 0 {
        assert forall|i: int| 0 <= i < trace.drop_last().len() implies g.color_at(
            (#[trigger] trace.drop_last()[i]).at,
        ) == trace.drop_last()[i].key by {
            assert(trace.drop_last()[i] == trace[i]);
        }
        lemma_harvest_is_uniform(g, trace.drop_last(), key);
        assert(g.color_at(trace[trace.len() - 1].at) == trace[trace.len() - 1].key);
        let rest = harvest(g, trace.drop_last(), key);
        assert forall|k: int| 0 <= k < harvest(g, trace, key).len() implies harvest(
            g,
            trace,
            key,
        )[k] == key by {
            if k < rest.len() {
                assert(rest[k] == key);
            }
        }
    }
}

/// Loop-stride enforcement: in a match, any two closings of capture groups
/// with the same id had the same count, and no group that was still open
/// at the end had counted beyond the count that its id closed with.
pub proof fn lemma_uniform_stride(m: Graph, g: Grid)
    requires
        m.wf(),
        g.wf(),
    ensures
        accepted(m, g) matches Some(end) ==> {
            &&& forall|i: int, j: int|
                0 <= i < end.closings.len() && 0 <= j < end.closings.len() && (
                #[trigger] end.closings[i]).0 == (#[trigger] end.closings[j]).0
                    ==> end.closings[i].1 == end.closings[j].1
            &&& forall|i: int|
                0 <= i < end.open.len() && end.closed.contains_key((#[trigger] end.open[i]).0)
                    ==> end.open[i].1 <= end.closed[end.open[i].0]
        },
{
    lemma_accepted_is_consistent(m, g);
    match accepted(m, g) {
        Some(end) => {
            assert forall|i: int, j: int|
                0 <= i < end.closings.len() && 0 <= j < end.closings.len() && (
                #[trigger] end.closings[i]).0 == (#[trigger] end.closings[j]).0 implies end.closings[i].1
                == end.closings[j].1 by {
                assert(end.closed[end.closings[i].0] == end.closings[i].1);
                assert(end.closed[end.closings[j].0] == end.closings[j].1);
            }
        },
        None => {},
    }
}

/// A capture group can end only with the count that its id closed with
/// before, and the count on record never changes.
pub proof fn lemma_closing_reproduces_reference(g: Grid, cfg: Config, dest: usize, id: u8)
    requires
        cfg.closed.contains_key(id),
        step(g, cfg, (dest, Transition::EndCapture(id))) is Some,
    ensures
        running_count(cfg.open, id) == Some(cfg.closed[id]),
        step(g, cfg, (dest, Transition::EndCapture(id)))->0.closed == cfg.closed,
{
    let next = step(g, cfg, (dest, Transition::EndCapture(id)))->0;
    assert(next.closed =~= cfg.closed);
}

/// Boundary safety: a move to a position outside the picture cannot be
/// taken, and the search goes on with the next transition of the state as if
/// the move were not there.
pub proof fn lemma_move_outside_fails_alone(m: Graph, g: Grid, cfg: Config, i: int)
    requires
        m.wf(),
        g.wf(),
        cfg.wf(m, g),
        0 <= i < m.states[cfg.state as int].len(),
        m.states[cfg.state as int][i].1 matches Transition::MoveRelative(anchor, offset) && !g.holds(
            cfg.points[anchor as int].x + offset.x,
            cfg.points[anchor as int].y + offset.y,
        ),
    ensures
        step(g, cfg, m.states[cfg.state as int][i]) is None,
        try_from(m, g, cfg, i) == try_from(m, g, cfg, i + 1),
{
}

/// Without a pixel of the function color there is no match.
pub proof fn lemma_no_function_pixel_no_match(m: Graph, g: Grid)
    requires
        !g.has_color(function_color_of(m.colors)),
    ensures
        accepted(m, g) is None,
        outcome(m, g) is None,
{
    let f = function_color_of(m.colors);
    if g.first_of(f) is Some {
        let p = choose|p: Point| g.is_first(f, p);
        assert(g.contains(p) && g.color_at(p) == f);
    }
}

} // verus!
