//! What holds of every walk: it never adds ink, and it only adds to the graph.

use crate::fsm::Transition;
use crate::picture::white;
use crate::picture::Color;
use crate::point::lemma_surrounding_unit_steps;
use crate::point::surrounding_spec;
use crate::point::Point;
use crate::table::ColorType;
use crate::walk::chain_ok;
use crate::walk::erase_run;
use crate::walk::extended;
use crate::walk::ink;
use crate::walk::lemma_clear_pixel;
use crate::walk::lemma_erase_run;
use crate::walk::lemma_extended_chain;
use crate::walk::lemma_with_loop_chain;
use crate::walk::run_end;
use crate::walk::run_length;
use crate::walk::scan;
use crate::walk::walk;
use crate::walk::with_loop;
use crate::walk::Draft;
use vstd::prelude::*;

verus! {

/// Whether the graph `after` has all states of `before` but the last as they
/// are: a walk adds transitions to the current state and states behind it,
/// and leaves the states before the current one alone.
pub open spec fn stable_prefix(
    before: Seq<Seq<(usize, Transition)>>,
    after: Seq<Seq<(usize, Transition)>>,
) -> bool {
    &&& before.len() <= after.len()
    &&& forall|s: int| 0 <= s < before.len() - 1 ==> #[trigger] before[s] == after[s]
}

/// What a walk keeps of the picture: its dimensions, and that it is
/// well-formed. It never adds ink, and never takes a state away.
pub open spec fn kept(d: Draft, r: Draft) -> bool {
    &&& r.grid.wf()
    &&& r.grid.width == d.grid.width
    &&& r.grid.height == d.grid.height
    &&& ink(r.grid) <= ink(d.grid)
    &&& r.states.len() >= d.states.len()
}

/// A loop adds four states.
pub proof fn lemma_with_loop_len(
    states: Seq<Seq<(usize, Transition)>>,
    dir: Point,
    c: Color,
    id: u8,
)
    requires
        states.len() >= 1,
    ensures
        with_loop(states, dir, c, id).len() == states.len() + 4,
{
}

/// A walk keeps the picture well-formed, never adds ink, and never takes a
/// state away. A walk that consumes takes ink away and adds a state.
pub proof fn lemma_walk_keeps(d: Draft, roles: Map<Color, ColorType>, head: Point, consume: bool)
    requires
        d.grid.wf(),
        d.grid.contains(head),
        d.states.len() >= 1,
        consume ==> d.grid.color_at(head) != white(),
        !roles.contains_key(white()),
    ensures
        kept(d, walk(d, roles, head, consume)),
        consume ==> ink(walk(d, roles, head, consume).grid) < ink(d.grid) && walk(
            d,
            roles,
            head,
            consume,
        ).states.len() > d.states.len(),
    decreases ink(d.grid), (if consume {
        0int
    } else {
        10int
    }),
{
    let color = d.grid.color_at(head);
    let origin = (d.states.len() - 1) as usize;
    if consume {
        lemma_clear_pixel(d.grid, head.x as int, head.y as int);
        let entered = Draft {
            states: extended(d.states, Transition::Consume(color)),
            grid: d.grid.with_color_at(head, white()),
        };
        lemma_scan_keeps(entered, roles, head, color, origin, 0);
    } else {
        lemma_scan_keeps(d, roles, head, color, origin, 0);
    }
}

/// What `lemma_walk_keeps` says of a walk, of the look at the neighbors.
pub proof fn lemma_scan_keeps(
    d: Draft,
    roles: Map<Color, ColorType>,
    head: Point,
    color: Color,
    origin: usize,
    i: int,
)
    requires
        d.grid.wf(),
        d.grid.contains(head),
        d.states.len() >= 1,
        0 <= i <= 8,
        !roles.contains_key(white()),
    ensures
        kept(d, scan(d, roles, head, color, origin, i)),
    decreases ink(d.grid), 9 - i,
{
    if i < 8 {
        lemma_surrounding_unit_steps();
        let dir = surrounding_spec()[i];
        let x = head.x + dir.x;
        let y = head.y + dir.y;
        if !d.grid.holds(x, y) {
            lemma_scan_keeps(d, roles, head, color, origin, i + 1);
        } else {
            let c = d.grid.pixel(x, y);
            if c.is_loop_marker() {
                if run_length(d.grid, x, y, dir, c) <= 1 {
                    lemma_scan_keeps(d, roles, head, color, origin, i + 1);
                } else {
                    lemma_erase_run(d.grid, x, y, dir, c);
                    lemma_with_loop_len(d.states, dir, color, c.r);
                    let looped = Draft {
                        states: with_loop(d.states, dir, color, c.r),
                        grid: erase_run(d.grid, x, y, dir, c),
                    };
                    let past = run_end(d.grid, x, y, dir, c);
                    let walked = if looped.grid.holds(past.0, past.1) {
                        walk(looped, roles, Point::at(past.0, past.1), false)
                    } else {
                        looped
                    };
                    if looped.grid.holds(past.0, past.1) {
                        lemma_walk_keeps(looped, roles, Point::at(past.0, past.1), false);
                    }
                    lemma_scan_keeps(walked, roles, head, color, origin, i + 1);
                }
            } else if !roles.contains_key(c) {
                lemma_scan_keeps(d, roles, head, color, origin, i + 1);
            } else {
                let moved = Draft {
                    states: extended(d.states, Transition::MoveRelative(origin, dir)),
                    grid: d.grid,
                };
                lemma_walk_keeps(moved, roles, Point::at(x, y), true);
                let walked = walk(moved, roles, Point::at(x, y), true);
                lemma_scan_keeps(walked, roles, head, color, origin, i + 1);
            }
        }
    }
}

/// A walk of a chain gives a chain, and leaves the states before the current
/// one as they are.
pub proof fn lemma_walk_extends(d: Draft, roles: Map<Color, ColorType>, head: Point, consume: bool)
    requires
        d.grid.wf(),
        d.grid.contains(head),
        consume ==> d.grid.color_at(head) != white(),
        !roles.contains_key(white()),
        chain_ok(d.states),
        walk(d, roles, head, consume).states.len() <= usize::MAX,
    ensures
        chain_ok(walk(d, roles, head, consume).states),
        stable_prefix(d.states, walk(d, roles, head, consume).states),
    decreases ink(d.grid), (if consume {
        0int
    } else {
        10int
    }),
{
    let color = d.grid.color_at(head);
    let origin = (d.states.len() - 1) as usize;
    if consume {
        lemma_clear_pixel(d.grid, head.x as int, head.y as int);
        let entered = Draft {
            states: extended(d.states, Transition::Consume(color)),
            grid: d.grid.with_color_at(head, white()),
        };
        lemma_scan_keeps(entered, roles, head, color, origin, 0);
        lemma_extended_chain(d.states, Transition::Consume(color));
        lemma_scan_extends(entered, roles, head, color, origin, 0);
        let r = walk(d, roles, head, consume).states;
        assert forall|s: int| 0 <= s < d.states.len() - 1 implies #[trigger] d.states[s] == r[s] by {
            assert(d.states[s] == entered.states[s]);
        }
    } else {
        lemma_scan_extends(d, roles, head, color, origin, 0);
    }
}

/// What `lemma_walk_extends` says of a walk, of the look at the neighbors.
pub proof fn lemma_scan_extends(
    d: Draft,
    roles: Map<Color, ColorType>,
    head: Point,
    color: Color,
    origin: usize,
    i: int,
)
    requires
        d.grid.wf(),
        d.grid.contains(head),
        0 <= i <= 8,
        !roles.contains_key(white()),
        chain_ok(d.states),
        origin < d.states.len(),
        scan(d, roles, head, color, origin, i).states.len() <= usize::MAX,
    ensures
        chain_ok(scan(d, roles, head, color, origin, i).states),
        stable_prefix(d.states, scan(d, roles, head, color, origin, i).states),
    decreases ink(d.grid), 9 - i,
{
    if i < 8 {
        lemma_surrounding_unit_steps();
        let dir = surrounding_spec()[i];
        let x = head.x + dir.x;
        let y = head.y + dir.y;
        let r = scan(d, roles, head, color, origin, i).states;
        if !d.grid.holds(x, y) {
            lemma_scan_extends(d, roles, head, color, origin, i + 1);
        } else {
            let c = d.grid.pixel(x, y);
            if c.is_loop_marker() {
                if run_length(d.grid, x, y, dir, c) <= 1 {
                    lemma_scan_extends(d, roles, head, color, origin, i + 1);
                } else {
                    lemma_erase_run(d.grid, x, y, dir, c);
                    lemma_with_loop_len(d.states, dir, color, c.r);
                    let looped = Draft {
                        states: with_loop(d.states, dir, color, c.r),
                        grid: erase_run(d.grid, x, y, dir, c),
                    };
                    let past = run_end(d.grid, x, y, dir, c);
                    let walked = if looped.grid.holds(past.0, past.1) {
                        walk(looped, roles, Point::at(past.0, past.1), false)
                    } else {
                        looped
                    };
                    if looped.grid.holds(past.0, past.1) {
                        lemma_walk_keeps(looped, roles, Point::at(past.0, past.1), false);
                    }
                    lemma_scan_keeps(walked, roles, head, color, origin, i + 1);
                    lemma_with_loop_chain(d.states, dir, color, c.r);
                    lemma_with_loop_stable(d.states, dir, color, c.r);
                    if looped.grid.holds(past.0, past.1) {
                        lemma_walk_extends(looped, roles, Point::at(past.0, past.1), false);
                    }
                    lemma_scan_extends(walked, roles, head, color, origin, i + 1);
                    assert forall|s: int| 0 <= s < d.states.len() - 1 implies #[trigger] d.states[s]
                        == r[s] by {
                        assert(d.states[s] == looped.states[s]);
                        assert(looped.states[s] == walked.states[s]);
                    }
                }
            } else if !roles.contains_key(c) {
                lemma_scan_extends(d, roles, head, color, origin, i + 1);
            } else {
                let moved = Draft {
                    states: extended(d.states, Transition::MoveRelative(origin, dir)),
                    grid: d.grid,
                };
                lemma_walk_keeps(moved, roles, Point::at(x, y), true);
                let walked = walk(moved, roles, Point::at(x, y), true);
                lemma_scan_keeps(walked, roles, head, color, origin, i + 1);
                lemma_extended_chain(d.states, Transition::MoveRelative(origin, dir));
                lemma_walk_extends(moved, roles, Point::at(x, y), true);
                lemma_scan_extends(walked, roles, head, color, origin, i + 1);
                assert forall|s: int| 0 <= s < d.states.len() - 1 implies #[trigger] d.states[s]
                    == r[s] by {
                    assert(d.states[s] == moved.states[s]);
                    assert(moved.states[s] == walked.states[s]);
                }
            }
        }
    }
}

/// A loop leaves the states before the current one as they are.
pub proof fn lemma_with_loop_stable(
    states: Seq<Seq<(usize, Transition)>>,
    dir: Point,
    c: Color,
    id: u8,
)
    requires
        states.len() >= 1,
    ensures
        stable_prefix(states, with_loop(states, dir, c, id)),
{
}

} // verus!
