//! What a match is: the ordered backtracking search of a state graph over a
//! target picture, as a mathematical function.

use crate::fsm::Graph;
use crate::fsm::Transition;
use crate::picture::lemma_offset_in_grid;
use crate::picture::lemma_offset_injective;
use crate::picture::white;
use crate::picture::Color;
use crate::picture::Grid;
use crate::point::Point;
use vstd::prelude::*;

verus! {

/// One consumed pixel: the color that the transition asked for, and where the
/// head stood.
#[derive(Debug, Clone, Copy, PartialEq, Eq, Structural)]
pub struct Hit {
    pub key: Color,
    pub at: Point,
}

/// The state of a search along one path.
pub struct Config {
    /// The current state.
    pub state: usize,
    /// The position of the head.
    pub head: Point,
    /// The entry point of each state: where the head stood when the path last
    /// entered it.
    pub points: Seq<Point>,
    /// The pixels consumed so far, in the order of the path.
    pub trace: Seq<Hit>,
    /// The state that the path left by its last transition, if that
    /// transition was free.
    pub marker: Option<usize>,
    /// The open capture groups, oldest first, each with its running count.
    pub open: Seq<(u8, nat)>,
    /// The count with which each capture group first closed.
    pub closed: Map<u8, nat>,
    /// Every closing of a capture group so far, in the order of the path:
    /// the id of the group and the count it closed with.
    pub closings: Seq<(u8, nat)>,
}

/// Whether the trace has consumed the pixel at `p`.
pub open spec fn consumed(trace: Seq<Hit>, p: Point) -> bool {
    exists|i: int| 0 <= i < trace.len() && (#[trigger] trace[i]).at == p
}

/// The open groups after one more pixel was consumed.
pub open spec fn bumped(open: Seq<(u8, nat)>) -> Seq<(u8, nat)> {
    Seq::new(open.len(), |i: int| (open[i].0, open[i].1 + 1))
}

/// Whether no open group has counted beyond the count with which a group of
/// its id closed before.
pub open spec fn within_reference(open: Seq<(u8, nat)>, closed: Map<u8, nat>) -> bool {
    forall|i: int|
        0 <= i < open.len() && closed.contains_key((#[trigger] open[i]).0) ==> open[i].1
            <= closed[open[i].0]
}

/// The running count of the oldest open group with id `id`.
pub open spec fn running_count(open: Seq<(u8, nat)>, id: u8) -> Option<nat>
    decreases open.len(),
{
    if open.len() == 0 {
        None
    } else if open[0].0 == id {
        Some(open[0].1)
    } else {
        running_count(open.drop_first(), id)
    }
}

/// The open groups without those of id `id`.
pub open spec fn without_group(open: Seq<(u8, nat)>, id: u8) -> Seq<(u8, nat)>
    decreases open.len(),
{
    if open.len() == 0 {
        open
    } else if open.last().0 == id {
        without_group(open.drop_last(), id)
    } else {
        without_group(open.drop_last(), id).push(open.last())
    }
}

impl Config {
    /// The search state is consistent with the graph and the picture: the
    /// head and every consumed pixel lie in the picture, every consumed
    /// pixel has the color it was consumed for, which is not white, no pixel
    /// was consumed twice, no open group has counted more pixels than were
    /// consumed, or more than a group of its id closed with, and every
    /// closing had the count that is on record for its id.
    pub open spec fn wf(self, m: Graph, g: Grid) -> bool {
        &&& self.state < m.states.len()
        &&& self.points.len() == m.states.len()
        &&& g.contains(self.head)
        &&& forall|i: int| 0 <= i < self.trace.len() ==> g.contains((#[trigger] self.trace[i]).at)
        &&& forall|i: int|
            0 <= i < self.trace.len() ==> g.color_at((#[trigger] self.trace[i]).at)
                == self.trace[i].key && self.trace[i].key != white()
        &&& forall|i: int, j: int|
            0 <= i < j < self.trace.len() ==> (#[trigger] self.trace[i]).at != (
            #[trigger] self.trace[j]).at
        &&& forall|i: int| 0 <= i < self.open.len() ==> (#[trigger] self.open[i]).1 <= self.trace.len()
        &&& within_reference(self.open, self.closed)
        &&& forall|k: int|
            0 <= k < self.closings.len() ==> self.closed.contains_key(
                (#[trigger] self.closings[k]).0,
            ) && self.closed[self.closings[k].0] == self.closings[k].1
    }

    /// The configuration in which a search starts: in state 0, with the head
    /// on `start`, and nothing consumed or captured.
    pub open spec fn initial(m: Graph, start: Point) -> Config {
        Config {
            state: 0,
            head: start,
            points: Seq::new(m.states.len(), |s: int| if s == 0 { start } else { Point::at(0, 0) }),
            trace: Seq::empty(),
            marker: None,
            open: Seq::empty(),
            closed: Map::empty(),
            closings: Seq::empty(),
        }
    }

    /// The configuration on arrival in state `dest` with the head on
    /// `head`, which becomes the entry point of `dest`.
    pub open spec fn arrive(self, dest: usize, head: Point, marker: Option<usize>) -> Config {
        Config { state: dest, head, points: self.points.update(dest as int, head), marker, ..self }
    }
}

/// The number of pixels of `g` that the trace has not consumed.
pub open spec fn unconsumed(g: Grid, trace: Seq<Hit>) -> int {
    g.width * g.height - trace.len()
}

/// The effect of the transition `e` on the configuration `cfg`, or `None`
/// where the transition cannot be taken.
///
/// - `MoveRelative(anchor, offset)` moves the head to the entry point of
///   `anchor` plus `offset`, and cannot be taken where that lies outside the
///   picture.
/// - `Consume(color)` can be taken where the pixel under the head has exactly
///   that color, is not white and was not consumed before, and no open
///   capture group would count beyond the count with which a group of its id
///   closed before. It adds the pixel to the trace and counts it in every
///   open group.
/// - `Epsilon` cannot be taken back to the state that the path just left by a
///   free transition.
/// - `Capture(id)` opens a group with count zero.
/// - `EndCapture(id)` can be taken where a group of that id is open and its
///   count is the one with which the id closed first, if it closed before. It
///   records the count, notes the closing, and closes every open group of
///   that id.
///
/// `Epsilon`, `Capture` and `EndCapture` are the free transitions: each leaves
/// the state it was taken from as the marker.
pub open spec fn step(g: Grid, cfg: Config, e: (usize, Transition)) -> Option<Config> {
    let dest = e.0;
    match e.1 {
        Transition::MoveRelative(anchor, offset) => {
            let x = cfg.points[anchor as int].x + offset.x;
            let y = cfg.points[anchor as int].y + offset.y;
            if g.holds(x, y) {
                Some(cfg.arrive(dest, Point::at(x, y), None))
            } else {
                None
            }
        },
        Transition::Consume(color) => {
            if g.color_at(cfg.head) == color && color != white() && !consumed(cfg.trace, cfg.head)
                && within_reference(bumped(cfg.open), cfg.closed) {
                Some(
                    Config {
                        trace: cfg.trace.push(Hit { key: color, at: cfg.head }),
                        open: bumped(cfg.open),
                        ..cfg.arrive(dest, cfg.head, None)
                    },
                )
            } else {
                None
            }
        },
        Transition::Epsilon => {
            if cfg.marker == Some(dest) {
                None
            } else {
                Some(cfg.arrive(dest, cfg.head, Some(cfg.state)))
            }
        },
        Transition::Capture(id) => {
            Some(
                Config {
                    open: cfg.open.push((id, 0nat)),
                    ..cfg.arrive(dest, cfg.head, Some(cfg.state))
                },
            )
        },
        Transition::EndCapture(id) => {
            match running_count(cfg.open, id) {
                Some(count) => {
                    if cfg.closed.contains_key(id) && cfg.closed[id] != count {
                        None
                    } else {
                        Some(
                            Config {
                                open: without_group(cfg.open, id),
                                closed: cfg.closed.insert(id, count),
                                closings: cfg.closings.push((id, count)),
                                ..cfg.arrive(dest, cfg.head, Some(cfg.state))
                            },
                        )
                    }
                },
                None => None,
            }
        },
    }
}

/// Pixels of a picture that are pairwise distinct are no more than the
/// picture has.
pub proof fn lemma_trace_fits(g: Grid, trace: Seq<Hit>)
    requires
        g.wf(),
        forall|i: int| 0 <= i < trace.len() ==> g.contains((#[trigger] trace[i]).at),
        forall|i: int, j: int|
            0 <= i < j < trace.len() ==> (#[trigger] trace[i]).at != (#[trigger] trace[j]).at,
    ensures
        trace.len() <= g.width * g.height,
{
    let places = Seq::new(trace.len(), |i: int| g.offset(trace[i].at.x as int, trace[i].at.y as int));
    assert forall|i: int, j: int| 0 <= i < places.len() && 0 <= j < places.len() && i != j implies places[i] != places[j] by {
        if places[i] == places[j] {
            lemma_offset_injective(
                g.width,
                trace[i].at.x as int,
                trace[i].at.y as int,
                trace[j].at.x as int,
                trace[j].at.y as int,
            );
            if i < j {
                assert(trace[i].at != trace[j].at);
            } else {
                assert(trace[j].at != trace[i].at);
            }
        }
    }
    assert(places.no_duplicates());
    places.unique_seq_to_set();
    let all = vstd::set_lib::set_int_range(0, g.width * g.height);
    vstd::set_lib::lemma_int_range(0, g.width * g.height);
    assert forall|k: int| places.to_set().contains(k) implies all.contains(k) by {
        let i = choose|i: int| 0 <= i < places.len() && places[i] == k;
        lemma_offset_in_grid(g.width, g.height, trace[i].at.x as int, trace[i].at.y as int);
    }
    assert(0 <= g.width * g.height) by (nonlinear_arith)
        requires
            0 <= g.width,
            0 <= g.height,
    ;
    vstd::set_lib::lemma_len_subset(places.to_set(), all);
}

/// The result of `without_group` holds only groups of `open` that have another
/// id than `id`.
pub proof fn lemma_without_group_members(open: Seq<(u8, nat)>, id: u8)
    ensures
        forall|i: int|
            0 <= i < without_group(open, id).len() ==> (#[trigger] without_group(open, id)[i]).0
                != id && open.contains(without_group(open, id)[i]),
    decreases open.len(),
{
    if open.len() > 0 {
        lemma_without_group_members(open.drop_last(), id);
        let rest = without_group(open.drop_last(), id);
        assert forall|i: int| 0 <= i < without_group(open, id).len() implies (
        #[trigger] without_group(open, id)[i]).0 != id && open.contains(
            without_group(open, id)[i],
        ) by {
            if i < rest.len() {
                assert(open.drop_last().contains(rest[i]));
                let j = choose|j: int| 0 <= j < open.drop_last().len() && open.drop_last()[j] == rest[i];
                assert(open[j] == rest[i]);
            } else {
                assert(open[open.len() - 1] == without_group(open, id)[i]);
            }
        }
    }
}

/// A transition taken from a consistent configuration gives a consistent
/// configuration, and brings the search nearer to its end: it consumes a
/// pixel, or it lowers the rank of the state.
pub proof fn lemma_step_progress(m: Graph, g: Grid, cfg: Config, k: int)
    requires
        m.wf(),
        g.wf(),
        cfg.wf(m, g),
        0 <= k < m.states[cfg.state as int].len(),
        step(g, cfg, m.states[cfg.state as int][k]) is Some,
    ensures
        ({
            let next = step(g, cfg, m.states[cfg.state as int][k])->0;
            &&& next.wf(m, g)
            &&& 0 <= unconsumed(g, next.trace) <= unconsumed(g, cfg.trace)
            &&& (unconsumed(g, next.trace) == unconsumed(g, cfg.trace) ==> m.rank(
                next.state as int,
                next.marker,
            ) < m.rank(cfg.state as int, cfg.marker))
        }),
{
    let s = cfg.state as int;
    let e = m.states[s][k];
    let next = step(g, cfg, e)->0;
    assert(m.edge_ok(s, e));
    match e.1 {
        Transition::Consume(color) => {
            assert forall|i: int, j: int| 0 <= i < j < next.trace.len() implies (
            #[trigger] next.trace[i]).at != (#[trigger] next.trace[j]).at by {
                if j == cfg.trace.len() {
                    assert(cfg.trace[i].at != cfg.head);
                }
            }
            assert forall|i: int| 0 <= i < next.open.len() implies (#[trigger] next.open[i]).1
                <= next.trace.len() by {
                assert(cfg.open[i].1 <= cfg.trace.len());
            }
        },
        Transition::EndCapture(id) => {
            lemma_without_group_members(cfg.open, id);
            assert forall|i: int| 0 <= i < next.open.len() implies (#[trigger] next.open[i]).1
                <= next.trace.len() && (next.closed.contains_key(next.open[i].0)
                ==> next.open[i].1 <= next.closed[next.open[i].0]) by {
                let j = choose|j: int| 0 <= j < cfg.open.len() && cfg.open[j] == next.open[i];
                assert(cfg.open[j].1 <= cfg.trace.len());
            }
            assert forall|k: int| 0 <= k < next.closings.len() implies next.closed.contains_key(
                (#[trigger] next.closings[k]).0,
            ) && next.closed[next.closings[k].0] == next.closings[k].1 by {
                if k < cfg.closings.len() {
                    assert(cfg.closed.contains_key(cfg.closings[k].0));
                }
            }
        },
        Transition::Capture(id) => {
            assert forall|i: int| 0 <= i < next.open.len() implies (#[trigger] next.open[i]).1
                <= next.trace.len() by {
                if i < cfg.open.len() {
                    assert(cfg.open[i].1 <= cfg.trace.len());
                }
            }
            assert forall|i: int|
                0 <= i < next.open.len() && next.closed.contains_key(
                    (#[trigger] next.open[i]).0,
                ) implies next.open[i].1 <= next.closed[next.open[i].0] by {
                if i < cfg.open.len() {
                    assert(cfg.open[i] == next.open[i]);
                }
            }
        },
        _ => {},
    }
    assert(next.wf(m, g));
    lemma_trace_fits(g, next.trace);
    if !(e.1 is Consume) {
        assert(!m.consume_only(s));
        if cfg.marker matches Some(back) && m.loop_entry(s, back as int) {
            assert(m.consume_only(e.0 as int));
        } else if e.0 < s {
            assert(m.loop_entry(e.0 as int, s));
            assert(next.marker == Some(cfg.state));
        }
    }
}

/// The configuration in which the search from `cfg` accepts, or `None` where
/// every path from `cfg` fails.
///
/// In an accepting state the search ends with `cfg`. Otherwise the
/// transitions of the current state are tried in their order, and the first
/// one that can be taken and whose destination leads to acceptance decides.
pub open spec fn run(m: Graph, g: Grid, cfg: Config) -> Option<Config>
    decreases unconsumed(g, cfg.trace), m.rank(cfg.state as int, cfg.marker), m.states[cfg.state as int].len() + 1,
    when m.wf() && g.wf() && cfg.wf(m, g)
{
    if m.accepting(cfg.state as int) {
        Some(cfg)
    } else {
        try_from(m, g, cfg, 0)
    }
}

/// The result of the search from `cfg` when the transitions of its state
/// before the `i`-th have failed.
pub open spec fn try_from(m: Graph, g: Grid, cfg: Config, i: int) -> Option<Config>
    decreases unconsumed(g, cfg.trace), m.rank(cfg.state as int, cfg.marker), m.states[cfg.state as int].len() - i,
    when m.wf() && g.wf() && cfg.wf(m, g) && 0 <= i
{
    let edges = m.states[cfg.state as int];
    if i >= edges.len() {
        None
    } else {
        match step(g, cfg, edges[i]) {
            Some(next) => {
                proof {
                    lemma_step_progress(m, g, cfg, i);
                }
                match run(m, g, next) {
                    Some(end) => Some(end),
                    None => try_from(m, g, cfg, i + 1),
                }
            },
            None => try_from(m, g, cfg, i + 1),
        }
    }
}

/// A search that accepts ends in an accepting state, with a consistent
/// configuration whose trace continues the trace it started with.
pub proof fn lemma_run_keeps_wf(m: Graph, g: Grid, cfg: Config)
    requires
        m.wf(),
        g.wf(),
        cfg.wf(m, g),
    ensures
        run(m, g, cfg) matches Some(end) ==> {
            &&& end.wf(m, g)
            &&& m.accepting(end.state as int)
            &&& cfg.trace.is_prefix_of(end.trace)
        },
    decreases unconsumed(g, cfg.trace), m.rank(cfg.state as int, cfg.marker), m.states[cfg.state as int].len() + 1,
{
    if !m.accepting(cfg.state as int) {
        lemma_try_keeps_wf(m, g, cfg, 0);
    }
}

/// What `lemma_run_keeps_wf` says of `run`, of `try_from`.
pub proof fn lemma_try_keeps_wf(m: Graph, g: Grid, cfg: Config, i: int)
    requires
        m.wf(),
        g.wf(),
        cfg.wf(m, g),
        0 <= i,
    ensures
        try_from(m, g, cfg, i) matches Some(end) ==> {
            &&& end.wf(m, g)
            &&& m.accepting(end.state as int)
            &&& cfg.trace.is_prefix_of(end.trace)
        },
    decreases unconsumed(g, cfg.trace), m.rank(cfg.state as int, cfg.marker), m.states[cfg.state as int].len() - i,
{
    let edges = m.states[cfg.state as int];
    if i < edges.len() {
        match step(g, cfg, edges[i]) {
            Some(next) => {
                lemma_step_progress(m, g, cfg, i);
                lemma_run_keeps_wf(m, g, next);
                assert(cfg.trace.is_prefix_of(next.trace));
                lemma_try_keeps_wf(m, g, cfg, i + 1);
            },
            None => {
                lemma_try_keeps_wf(m, g, cfg, i + 1);
            },
        }
    }
}

} // verus!
