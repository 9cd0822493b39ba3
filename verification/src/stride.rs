//! The uniform loop stride, stated over the paths of a graph.

use crate::fsm::Graph;
use crate::fsm::Transition;
use crate::laws::lemma_uniform_stride;
use crate::matcher::accepted;
use crate::paths::is_way;
use crate::paths::lemma_search_is_sound;
use crate::paths::moves_to;
use crate::picture::Grid;
use crate::search::bumped;
use crate::search::running_count;
use crate::search::step;
use crate::search::without_group;
use crate::search::Config;
use crate::table::function_color_of;
use vstd::prelude::*;

verus! {

/// The state that a path through the graph has reached after its first `i`
/// transitions. The path starts in state 0; `picks[k]` is the place, in the
/// list of its state, of the transition that the path takes as its `k`-th.
pub open spec fn state_after(m: Graph, picks: Seq<int>, i: int) -> int
    decreases i,
{
    if i <= 0 {
        0
    } else {
        m.states[state_after(m, picks, i - 1)][picks[i - 1]].0 as int
    }
}

/// The `i`-th transition of a path through the graph.
pub open spec fn transition_at(m: Graph, picks: Seq<int>, i: int) -> Transition {
    m.states[state_after(m, picks, i)][picks[i]].1
}

/// Whether `picks` is a path through the graph from the entry state to an
/// accepting state.
pub open spec fn is_graph_path(m: Graph, picks: Seq<int>) -> bool {
    &&& forall|i: int|
        0 <= i < picks.len() ==> 0 <= state_after(m, picks, i) < m.states.len() && 0
            <= #[trigger] picks[i] < m.states[state_after(m, picks, i)].len()
    &&& 0 <= state_after(m, picks, picks.len() as int) < m.states.len()
    &&& m.accepting(state_after(m, picks, picks.len() as int))
}

/// The account of the capture groups along a path: the groups that are open,
/// each with the number of consumptions since it began, and the closings so
/// far, each with the id of the group and the count it closed with.
pub struct Tally {
    pub open: Seq<(u8, nat)>,
    pub closings: Seq<(u8, nat)>,
}

/// The account after one more transition: a consumption counts in every open
/// group, the beginning of a group opens it with count zero, and the end of a
/// group notes the count of the oldest open group of that id and closes the
/// groups of that id.
pub open spec fn tally_step(t: Tally, transition: Transition) -> Tally {
    match transition {
        Transition::Consume(_) => Tally { open: bumped(t.open), ..t },
        Transition::Capture(id) => Tally { open: t.open.push((id, 0nat)), ..t },
        Transition::EndCapture(id) => match running_count(t.open, id) {
            Some(count) => Tally {
                open: without_group(t.open, id),
                closings: t.closings.push((id, count)),
            },
            None => t,
        },
        _ => t,
    }
}

/// The account of the capture groups after the first `i` transitions of a
/// path. It depends on the graph alone, not on a picture.
pub open spec fn tally(m: Graph, picks: Seq<int>, i: int) -> Tally
    decreases i,
{
    if i <= 0 {
        Tally { open: Seq::empty(), closings: Seq::empty() }
    } else {
        tally_step(tally(m, picks, i - 1), transition_at(m, picks, i - 1))
    }
}

/// Whether all closings of one id have one count.
pub open spec fn uniform(closings: Seq<(u8, nat)>) -> bool {
    forall|i: int, j: int|
        0 <= i < closings.len() && 0 <= j < closings.len() && (#[trigger] closings[i]).0 == (
        #[trigger] closings[j]).0 ==> closings[i].1 == closings[j].1
}

/// Whether `picks` names, for each configuration of `way` but the last, a
/// transition that can be taken and gives the next configuration.
pub open spec fn picks_of(m: Graph, g: Grid, way: Seq<Config>, picks: Seq<int>) -> bool {
    &&& way.len() == picks.len() + 1
    &&& forall|j: int|
        0 <= j < picks.len() ==> 0 <= #[trigger] picks[j] < m.states[way[j].state as int].len()
            && step(g, way[j], m.states[way[j].state as int][picks[j]]) == Some(way[j + 1])
}

/// A way of the search walks a path of the graph, and keeps the account of
/// the capture groups that the path has.
pub proof fn lemma_way_tallies(m: Graph, g: Grid, way: Seq<Config>, picks: Seq<int>, i: int)
    requires
        m.wf(),
        picks_of(m, g, way, picks),
        way[0].state == 0,
        way[0].open == Seq::<(u8, nat)>::empty(),
        way[0].closings == Seq::<(u8, nat)>::empty(),
        0 <= i <= picks.len(),
    ensures
        state_after(m, picks, i) == way[i].state,
        way[i].state < m.states.len(),
        tally(m, picks, i) == (Tally { open: way[i].open, closings: way[i].closings }),
    decreases i,
{
    if i > 0 {
        lemma_way_tallies(m, g, way, picks, i - 1);
        let from = way[i - 1];
        let e = m.states[from.state as int][picks[i - 1]];
        assert(step(g, from, e) == Some(way[i - 1 + 1]));
        assert(m.edge_ok(from.state as int, e));
        assert(transition_at(m, picks, i - 1) == e.1);
    }
}

/// Loop-stride enforcement over the paths of a graph: where every path from
/// the entry state to an accepting state closes some capture group twice
/// with different numbers of consumptions since the group began, the graph
/// matches no picture.
pub proof fn lemma_uneven_graph_never_matches(m: Graph, g: Grid)
    requires
        m.wf(),
        g.wf(),
        forall|picks: Seq<int>| #[trigger]
            is_graph_path(m, picks) ==> !uniform(tally(m, picks, picks.len() as int).closings),
    ensures
        accepted(m, g) is None,
{
    if accepted(m, g) is Some {
        let start = g.first_of(function_color_of(m.colors))->0;
        assert(g.is_first(function_color_of(m.colors), start));
        let first = Config::initial(m, start);
        let way = lemma_search_is_sound(m, g, first);
        let end = way.last();
        let picks = Seq::new(
            (way.len() - 1) as nat,
            |j: int|
                choose|k: int|
                    0 <= k < m.states[way[j].state as int].len() && #[trigger] step(
                        g,
                        way[j],
                        m.states[way[j].state as int][k],
                    ) == Some(way[j + 1]),
        );
        assert forall|j: int| 0 <= j < picks.len() implies 0 <= #[trigger] picks[j]
            < m.states[way[j].state as int].len() && step(
            g,
            way[j],
            m.states[way[j].state as int][picks[j]],
        ) == Some(way[j + 1]) by {
            assert(moves_to(m, g, way[j], way[j + 1]));
        }
        assert(is_way(m, g, way));
        assert forall|i: int| 0 <= i < picks.len() implies 0 <= state_after(m, picks, i)
            < m.states.len() && 0 <= #[trigger] picks[i] < m.states[state_after(m, picks, i)].len() by {
            lemma_way_tallies(m, g, way, picks, i);
        }
        lemma_way_tallies(m, g, way, picks, picks.len() as int);
        assert(is_graph_path(m, picks));
        lemma_uniform_stride(m, g);
        assert(uniform(end.closings));
        assert(tally(m, picks, picks.len() as int).closings == end.closings);
    }
}

} // verus!
