//! What the search decides: whether some way through the graph accepts.

use crate::fsm::Graph;
use crate::matcher::accepted;
use crate::picture::Grid;
use crate::search::lemma_step_progress;
use crate::search::run;
use crate::search::step;
use crate::search::try_from;
use crate::search::unconsumed;
use crate::search::Config;
use crate::table::function_color_of;
use vstd::prelude::*;

verus! {

/// Whether some transition of the state of `from` can be taken and gives `to`.
pub open spec fn moves_to(m: Graph, g: Grid, from: Config, to: Config) -> bool {
    exists|k: int|
        0 <= k < m.states[from.state as int].len() && #[trigger] step(
            g,
            from,
            m.states[from.state as int][k],
        ) == Some(to)
}

/// Whether `way` is a way of the search: each of its configurations comes
/// from the one before by a transition that can be taken.
pub open spec fn is_way(m: Graph, g: Grid, way: Seq<Config>) -> bool {
    &&& way.len() >= 1
    &&& forall|i: int| 0 <= i < way.len() - 1 ==> moves_to(m, g, #[trigger] way[i], way[i + 1])
}

/// Whether some way of the search leads from `cfg` to an accepting state.
pub open spec fn can_accept(m: Graph, g: Grid, cfg: Config) -> bool {
    exists|way: Seq<Config>|
        #[trigger] is_way(m, g, way) && way[0] == cfg && m.accepting(way.last().state as int)
}

/// The search is sound: where it accepts, a way leads from its start to the
/// configuration it ends in.
pub proof fn lemma_search_is_sound(m: Graph, g: Grid, cfg: Config) -> (way: Seq<Config>)
    requires
        m.wf(),
        g.wf(),
        cfg.wf(m, g),
        run(m, g, cfg) is Some,
    ensures
        is_way(m, g, way),
        way[0] == cfg,
        way.last() == run(m, g, cfg)->0,
        m.accepting(way.last().state as int),
        can_accept(m, g, cfg),
    decreases unconsumed(g, cfg.trace), m.rank(cfg.state as int, cfg.marker), m.states[cfg.state as int].len() + 1,
{
    if m.accepting(cfg.state as int) {
        let way = seq![cfg];
        assert(is_way(m, g, way));
        way
    } else {
        lemma_try_is_sound(m, g, cfg, 0)
    }
}

/// What `lemma_search_is_sound` says of `run`, of `try_from`.
pub proof fn lemma_try_is_sound(m: Graph, g: Grid, cfg: Config, i: int) -> (way: Seq<Config>)
    requires
        m.wf(),
        g.wf(),
        cfg.wf(m, g),
        0 <= i,
        try_from(m, g, cfg, i) is Some,
    ensures
        is_way(m, g, way),
        way[0] == cfg,
        way.last() == try_from(m, g, cfg, i)->0,
        m.accepting(way.last().state as int),
        can_accept(m, g, cfg),
    decreases unconsumed(g, cfg.trace), m.rank(cfg.state as int, cfg.marker), m.states[cfg.state as int].len() - i,
{
    let edges = m.states[cfg.state as int];
    match step(g, cfg, edges[i]) {
        Some(next) => {
            lemma_step_progress(m, g, cfg, i);
            if run(m, g, next) is Some {
                let rest = lemma_search_is_sound(m, g, next);
                let way = seq![cfg] + rest;
                assert forall|j: int| 0 <= j < way.len() - 1 implies moves_to(
                    m,
                    g,
                    #[trigger] way[j],
                    way[j + 1],
                ) by {
                    if j == 0 {
                        assert(way[1] == rest[0]);
                    } else {
                        assert(way[j] == rest[j - 1]);
                        assert(way[j + 1] == rest[j]);
                        assert(moves_to(m, g, rest[j - 1], rest[j - 1 + 1]));
                    }
                }
                assert(way.last() == rest.last());
                assert(is_way(m, g, way));
                way
            } else {
                lemma_try_is_sound(m, g, cfg, i + 1)
            }
        },
        None => lemma_try_is_sound(m, g, cfg, i + 1),
    }
}

/// The search is complete: where some way leads from `cfg` to an accepting
/// state, the search from `cfg` accepts.
pub proof fn lemma_search_is_complete(m: Graph, g: Grid, cfg: Config, way: Seq<Config>)
    requires
        m.wf(),
        g.wf(),
        cfg.wf(m, g),
        is_way(m, g, way),
        way[0] == cfg,
        m.accepting(way.last().state as int),
    ensures
        run(m, g, cfg) is Some,
    decreases unconsumed(g, cfg.trace), m.rank(cfg.state as int, cfg.marker), m.states[cfg.state as int].len() + 1,
{
    if !m.accepting(cfg.state as int) {
        assert(way.len() >= 2);
        assert(moves_to(m, g, way[0], way[1]));
        let k = choose|k: int|
            0 <= k < m.states[cfg.state as int].len() && #[trigger] step(
                g,
                cfg,
                m.states[cfg.state as int][k],
            ) == Some(way[1]);
        lemma_try_is_complete(m, g, cfg, way, k, 0);
    }
}

/// Where the `k`-th transition of the state of `cfg` begins a way to an
/// accepting state, the search accepts when it tries the transitions from
/// the `i`-th on, for `i` up to `k`.
pub proof fn lemma_try_is_complete(
    m: Graph,
    g: Grid,
    cfg: Config,
    way: Seq<Config>,
    k: int,
    i: int,
)
    requires
        m.wf(),
        g.wf(),
        cfg.wf(m, g),
        is_way(m, g, way),
        way.len() >= 2,
        way[0] == cfg,
        m.accepting(way.last().state as int),
        0 <= i <= k < m.states[cfg.state as int].len(),
        step(g, cfg, m.states[cfg.state as int][k]) == Some(way[1]),
    ensures
        try_from(m, g, cfg, i) is Some,
    decreases unconsumed(g, cfg.trace), m.rank(cfg.state as int, cfg.marker), m.states[cfg.state as int].len() - i,
{
    let edges = m.states[cfg.state as int];
    if i == k {
        lemma_step_progress(m, g, cfg, k);
        let rest = way.skip(1);
        assert forall|j: int| 0 <= j < rest.len() - 1 implies moves_to(
            m,
            g,
            #[trigger] rest[j],
            rest[j + 1],
        ) by {
            assert(rest[j] == way[j + 1]);
            assert(rest[j + 1] == way[j + 1 + 1]);
            assert(moves_to(m, g, way[j + 1], way[j + 1 + 1]));
        }
        assert(rest.last() == way.last());
        assert(is_way(m, g, rest));
        lemma_search_is_complete(m, g, way[1], rest);
        assert(run(m, g, way[1]) is Some);
    } else {
        match step(g, cfg, edges[i]) {
            Some(next) => {
                lemma_step_progress(m, g, cfg, i);
                if run(m, g, next) is None {
                    lemma_try_is_complete(m, g, cfg, way, k, i + 1);
                }
            },
            None => {
                lemma_try_is_complete(m, g, cfg, way, k, i + 1);
            },
        }
    }
}

/// What the search decides: it accepts exactly where some way leads to an
/// accepting state.
pub proof fn lemma_search_decides(m: Graph, g: Grid, cfg: Config)
    requires
        m.wf(),
        g.wf(),
        cfg.wf(m, g),
    ensures
        run(m, g, cfg) is Some <==> can_accept(m, g, cfg),
{
    if run(m, g, cfg) is Some {
        let way = lemma_search_is_sound(m, g, cfg);
    }
    if can_accept(m, g, cfg) {
        let way = choose|way: Seq<Config>|
            #[trigger] is_way(m, g, way) && way[0] == cfg && m.accepting(way.last().state as int);
        lemma_search_is_complete(m, g, cfg, way);
    }
}

/// What a match decides: the graph matches the picture exactly where the
/// picture has a pixel of the function color, and some way of the search
/// leads from the first such pixel to an accepting state.
pub proof fn lemma_match_decides(m: Graph, g: Grid)
    requires
        m.wf(),
        g.wf(),
    ensures
        accepted(m, g) is Some <==> (g.first_of(function_color_of(m.colors)) matches Some(start)
            && can_accept(m, g, Config::initial(m, start))),
{
    match g.first_of(function_color_of(m.colors)) {
        Some(start) => {
            assert(g.is_first(function_color_of(m.colors), start));
            lemma_search_decides(m, g, Config::initial(m, start));
        },
        None => {},
    }
}

} // verus!
