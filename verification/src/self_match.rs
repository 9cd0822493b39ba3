//! A definition without loops identifies itself.

use crate::compiler::compiled;
use crate::compiler::definable;
use crate::compiler::function_color_in;
use crate::compiler::stripped;
use crate::fsm::Graph;
use crate::fsm::Transition;
use crate::laws::lemma_harvest_is_uniform;
use crate::matcher::accepted;
use crate::matcher::harvest;
use crate::matcher::outcome;
use crate::picture::raster_before;
use crate::picture::white;
use crate::picture::Color;
use crate::picture::Grid;
use crate::point::lemma_surrounding_unit_steps;
use crate::point::surrounding_spec;
use crate::point::Point;
use crate::search::consumed;
use crate::search::lemma_run_keeps_wf;
use crate::search::lemma_step_progress;
use crate::search::run;
use crate::search::step;
use crate::search::try_from;
use crate::search::Config;
use crate::table::is_function_color;
use crate::table::lemma_function_color_unique;
use crate::table::ColorType;
use crate::walk::chain_ok;
use crate::walk::erase_run;
use crate::walk::extended;
use crate::walk::ink;
use crate::walk::lemma_clear_pixel;
use crate::walk::lemma_chain_wf;
use crate::walk::lemma_erase_run;
use crate::walk::lemma_extended_chain;
use crate::walk::lemma_with_loop_chain;
use crate::walk::loop_head;
use crate::walk::loop_tail;
use crate::walk::plain;
use crate::walk::run_end;
use crate::walk::run_length;
use crate::walk::scan;
use crate::walk::walk;
use crate::walk::with_loop;
use crate::walk::Draft;
use crate::walk_laws::lemma_scan_extends;
use crate::walk_laws::lemma_scan_keeps;
use crate::walk_laws::lemma_walk_extends;
use crate::walk_laws::lemma_walk_keeps;
use crate::walk_laws::lemma_with_loop_len;
use crate::walk_laws::lemma_with_loop_stable;
use crate::walk_laws::stable_prefix;
use vstd::prelude::*;

verus! {

/// Whether the graph has no loop: every transition consumes or moves.
pub open spec fn loop_free(states: Seq<Seq<(usize, Transition)>>) -> bool {
    forall|s: int, k: int|
        0 <= s < states.len() && 0 <= k < states[s].len() ==> (#[trigger] states[s][k]).1 is Consume
            || states[s][k].1 is MoveRelative
}

/// The configuration after `k` transitions from `cfg`, each the first of its
/// state, or `None` where one of them cannot be taken.
pub open spec fn follow(m: Graph, g: Grid, cfg: Config, k: nat) -> Option<Config>
    decreases k,
{
    if k == 0 {
        Some(cfg)
    } else {
        match step(g, cfg, m.states[cfg.state as int][0]) {
            Some(next) => follow(m, g, next, (k - 1) as nat),
            None => None,
        }
    }
}

/// Following `a` transitions and then `b` is following `a + b`.
pub proof fn lemma_follow_append(m: Graph, g: Grid, cfg: Config, a: nat, mid: Config, b: nat)
    requires
        follow(m, g, cfg, a) == Some(mid),
    ensures
        follow(m, g, cfg, a + b) == follow(m, g, mid, b),
    decreases a,
{
    if a > 0 {
        let next = step(g, cfg, m.states[cfg.state as int][0])->0;
        lemma_follow_append(m, g, next, (a - 1) as nat, mid, b);
        assert((a + b - 1) as nat == (a - 1) as nat + b);
    }
}

/// In a chain without loops, the search follows the first transitions: where
/// they can all be taken up to the last state, the search accepts there.
pub proof fn lemma_follow_runs(m: Graph, g: Grid, cfg: Config, k: nat, end: Config)
    requires
        m.wf(),
        g.wf(),
        chain_ok(m.states),
        loop_free(m.states),
        cfg.wf(m, g),
        follow(m, g, cfg, k) == Some(end),
        cfg.state + k == m.states.len() - 1,
    ensures
        run(m, g, cfg) == Some(end),
    decreases k,
{
    let s = cfg.state as int;
    if k > 0 {
        assert(plain(m.states, s) || loop_head(m.states, s) || loop_tail(m.states, s));
        if loop_head(m.states, s) {
            assert(m.states[s][1].1 is Epsilon);
        }
        if loop_tail(m.states, s) {
            assert(m.states[s][0].1 is Epsilon);
        }
        assert(plain(m.states, s));
        let next = step(g, cfg, m.states[s][0])->0;
        lemma_step_progress(m, g, cfg, 0);
        lemma_follow_runs(m, g, next, (k - 1) as nat, end);
        assert(try_from(m, g, cfg, 0) == Some(end));
    }
}

/// How the search of a picture relates to the walk of the same picture: the
/// search stands in the current state of the walk, no capture group is open,
/// the head stands on the entry point of the state, and the walk has made
/// white exactly the pixels that the search has consumed.
pub open spec fn traced(d: Draft, g0: Grid, cfg: Config) -> bool {
    &&& cfg.state == d.states.len() - 1
    &&& cfg.open.len() == 0
    &&& cfg.points[cfg.state as int] == cfg.head
    &&& d.grid.width == g0.width
    &&& d.grid.height == g0.height
    &&& forall|p: Point|
        g0.contains(p) ==> #[trigger] d.grid.color_at(p) == (if consumed(cfg.trace, p) {
            white()
        } else {
            g0.color_at(p)
        })
}

/// A loop begins with the transition that begins its capture group.
pub proof fn lemma_with_loop_begins(
    states: Seq<Seq<(usize, Transition)>>,
    dir: Point,
    c: Color,
    id: u8,
)
    requires
        states.len() >= 1,
        states.last().len() == 0,
    ensures
        with_loop(states, dir, c, id)[states.len() - 1].len() == 1,
        with_loop(states, dir, c, id)[states.len() - 1][0].1 is Capture,
{
    let n = states.len() as int;
    assert(with_loop(states, dir, c, id)[n - 1] =~= seq![(n as usize, Transition::Capture(id))]);
}

/// The search of the picture that a walk without loops was made of can
/// follow the walk: it takes the transitions that the walk adds, one after
/// the other.
pub proof fn lemma_walk_traced(
    d: Draft,
    roles: Map<Color, ColorType>,
    head: Point,
    g0: Grid,
    fin: Graph,
    cfg: Config,
) -> (after: Config)
    requires
        d.grid.wf(),
        g0.wf(),
        d.grid.contains(head),
        d.grid.color_at(head) != white(),
        !roles.contains_key(white()),
        chain_ok(d.states),
        fin.wf(),
        chain_ok(fin.states),
        loop_free(fin.states),
        stable_prefix(walk(d, roles, head, true).states, fin.states),
        cfg.wf(fin, g0),
        traced(d, g0, cfg),
        cfg.head == head,
    ensures
        after.wf(fin, g0),
        traced(walk(d, roles, head, true), g0, after),
        follow(
            fin,
            g0,
            cfg,
            (walk(d, roles, head, true).states.len() - d.states.len()) as nat,
        ) == Some(after),
        forall|s: int| 0 <= s < d.states.len() ==> after.points[s] == cfg.points[s],
    decreases ink(d.grid), 0int,
{
    let n = d.states.len() as int;
    let color = d.grid.color_at(head);
    let origin = (n - 1) as usize;
    let r = walk(d, roles, head, true);
    let entered = Draft {
        states: extended(d.states, Transition::Consume(color)),
        grid: d.grid.with_color_at(head, white()),
    };
    lemma_clear_pixel(d.grid, head.x as int, head.y as int);
    lemma_scan_keeps(entered, roles, head, color, origin, 0);
    lemma_extended_chain(d.states, Transition::Consume(color));
    lemma_scan_extends(entered, roles, head, color, origin, 0);
    // The transition that the search takes is the one that the walk added.
    assert(entered.states[n - 1] =~= seq![(n as usize, Transition::Consume(color))]);
    assert(entered.states[n - 1] == r.states[n - 1]);
    assert(r.states[n - 1] == fin.states[n - 1]);
    let e = fin.states[n - 1][0];
    assert(e == (n as usize, Transition::Consume(color)));
    assert(!consumed(cfg.trace, head));
    assert(g0.color_at(head) == color);
    let next = step(g0, cfg, e)->0;
    assert(step(g0, cfg, e) is Some);
    lemma_step_progress(fin, g0, cfg, 0);
    assert(traced(entered, g0, next)) by {
        d.grid.lemma_with_pixel(head.x as int, head.y as int, white());
        assert forall|p: Point| g0.contains(p) implies #[trigger] entered.grid.color_at(p) == (
        if consumed(next.trace, p) {
            white()
        } else {
            g0.color_at(p)
        }) by {
            if p == head {
                assert(next.trace[next.trace.len() - 1].at == p);
            } else {
                assert(entered.grid.color_at(p) == d.grid.color_at(p));
                if consumed(cfg.trace, p) {
                    let i = choose|i: int| 0 <= i < cfg.trace.len() && cfg.trace[i].at == p;
                    assert(next.trace[i].at == p);
                }
                if consumed(next.trace, p) {
                    let i = choose|i: int| 0 <= i < next.trace.len() && next.trace[i].at == p;
                    assert(cfg.trace[i].at == p);
                }
            }
        }
    }
    let after = lemma_scan_traced(entered, roles, head, color, origin, 0, g0, fin, next);
    lemma_follow_append(fin, g0, cfg, 1, next, (r.states.len() - entered.states.len()) as nat);
    assert(follow(fin, g0, cfg, 1) == Some(next)) by {
        assert(follow(fin, g0, next, 0) == Some(next));
    }
    after
}

/// What `lemma_walk_traced` says of a walk, of the look at the neighbors.
pub proof fn lemma_scan_traced(
    d: Draft,
    roles: Map<Color, ColorType>,
    head: Point,
    color: Color,
    origin: usize,
    i: int,
    g0: Grid,
    fin: Graph,
    cfg: Config,
) -> (after: Config)
    requires
        d.grid.wf(),
        g0.wf(),
        d.grid.contains(head),
        0 <= i <= 8,
        !roles.contains_key(white()),
        chain_ok(d.states),
        origin < d.states.len(),
        fin.wf(),
        chain_ok(fin.states),
        loop_free(fin.states),
        stable_prefix(scan(d, roles, head, color, origin, i).states, fin.states),
        cfg.wf(fin, g0),
        traced(d, g0, cfg),
        cfg.points[origin as int] == head,
    ensures
        after.wf(fin, g0),
        traced(scan(d, roles, head, color, origin, i), g0, after),
        follow(
            fin,
            g0,
            cfg,
            (scan(d, roles, head, color, origin, i).states.len() - d.states.len()) as nat,
        ) == Some(after),
        forall|s: int| 0 <= s < d.states.len() ==> after.points[s] == cfg.points[s],
    decreases ink(d.grid), 9 - i,
{
    let n = d.states.len() as int;
    let r = scan(d, roles, head, color, origin, i);
    lemma_scan_keeps(d, roles, head, color, origin, i);
    if i >= 8 {
        return cfg;
    }
    lemma_surrounding_unit_steps();
    let dir = surrounding_spec()[i];
    let x = head.x + dir.x;
    let y = head.y + dir.y;
    if !d.grid.holds(x, y) {
        return lemma_scan_traced(d, roles, head, color, origin, i + 1, g0, fin, cfg);
    }
    let c = d.grid.pixel(x, y);
    if c.is_loop_marker() {
        if run_length(d.grid, x, y, dir, c) <= 1 {
            return lemma_scan_traced(d, roles, head, color, origin, i + 1, g0, fin, cfg);
        }
        // A loop would show in the graph, which has none.
        lemma_erase_run(d.grid, x, y, dir, c);
        lemma_with_loop_len(d.states, dir, color, c.r);
        let looped = Draft {
            states: with_loop(d.states, dir, color, c.r),
            grid: erase_run(d.grid, x, y, dir, c),
        };
        let past = run_end(d.grid, x, y, dir, c);
        let walked = if looped.grid.holds(past.0, past.1) {
            walk(looped, roles, Point::at(past.0, past.1), false)
        } else {
            looped
        };
        if looped.grid.holds(past.0, past.1) {
            lemma_walk_keeps(looped, roles, Point::at(past.0, past.1), false);
        }
        lemma_scan_keeps(walked, roles, head, color, origin, i + 1);
        lemma_with_loop_chain(d.states, dir, color, c.r);
        lemma_with_loop_stable(d.states, dir, color, c.r);
        lemma_with_loop_begins(d.states, dir, color, c.r);
        if looped.grid.holds(past.0, past.1) {
            lemma_walk_extends(looped, roles, Point::at(past.0, past.1), false);
        }
        lemma_scan_extends(walked, roles, head, color, origin, i + 1);
        assert(looped.states[n - 1] == walked.states[n - 1]);
        assert(walked.states[n - 1] == r.states[n - 1]);
        assert(r.states[n - 1] == fin.states[n - 1]);
        assert(fin.states[n - 1][0].1 is Capture);
        assert(false);
        return cfg;
    }
    if !roles.contains_key(c) {
        return lemma_scan_traced(d, roles, head, color, origin, i + 1, g0, fin, cfg);
    }
    let moved = Draft {
        states: extended(d.states, Transition::MoveRelative(origin, dir)),
        grid: d.grid,
    };
    let at = Point::at(x, y);
    lemma_walk_keeps(moved, roles, at, true);
    let walked = walk(moved, roles, at, true);
    lemma_scan_keeps(walked, roles, head, color, origin, i + 1);
    lemma_extended_chain(d.states, Transition::MoveRelative(origin, dir));
    lemma_walk_extends(moved, roles, at, true);
    lemma_scan_extends(walked, roles, head, color, origin, i + 1);
    // The transition that the search takes is the one that the walk added.
    assert(moved.states[n - 1] =~= seq![(n as usize, Transition::MoveRelative(origin, dir))]);
    assert(moved.states[n - 1] == walked.states[n - 1]);
    assert(walked.states[n - 1] == r.states[n - 1]);
    assert(r.states[n - 1] == fin.states[n - 1]);
    let e = fin.states[n - 1][0];
    assert(e == (n as usize, Transition::MoveRelative(origin, dir)));
    assert(g0.holds(x, y));
    let next = step(g0, cfg, e)->0;
    assert(step(g0, cfg, e) is Some);
    assert(next == cfg.arrive(n as usize, at, None));
    lemma_step_progress(fin, g0, cfg, 0);
    assert(traced(moved, g0, next));
    assert forall|s: int| 0 <= s < walked.states.len() - 1 implies #[trigger] walked.states[s]
        == fin.states[s] by {
        assert(walked.states[s] == r.states[s]);
    }
    let entered = lemma_walk_traced(moved, roles, at, g0, fin, next);
    assert(entered.points[origin as int] == head);
    let after = lemma_scan_traced(walked, roles, head, color, origin, i + 1, g0, fin, entered);
    let a = (walked.states.len() - moved.states.len()) as nat;
    let b = (r.states.len() - walked.states.len()) as nat;
    lemma_follow_append(fin, g0, next, a, entered, b);
    lemma_follow_append(fin, g0, cfg, 1, next, a + b);
    assert(follow(fin, g0, cfg, 1) == Some(next)) by {
        assert(follow(fin, g0, next, 0) == Some(next));
    }
    assert forall|s: int| 0 <= s < d.states.len() implies after.points[s] == cfg.points[s] by {
        assert(after.points[s] == entered.points[s]);
        assert(entered.points[s] == next.points[s]);
    }
    after
}

/// Self-identification: the graph of a definition without loops matches the
/// definition itself, taken without its corner markers, and every color it
/// finds for a registered color is that color.
pub proof fn lemma_identifies_itself(g: Grid, roles: Map<Color, ColorType>)
    requires
        g.wf(),
        definable(g),
        is_function_color(roles, function_color_in(g)),
        !roles.contains_key(white()),
        loop_free(compiled(g, roles).states),
        compiled(g, roles).states.len() <= usize::MAX,
    ensures
        compiled(g, roles).wf(),
        accepted(compiled(g, roles), stripped(g)) is Some,
        outcome(compiled(g, roles), stripped(g)) matches Some(found) && forall|c: Color, k: int|
            roles.contains_key(c) && 0 <= k < found[c].len() ==> #[trigger] found[c][k] == c,
{
    let fin = compiled(g, roles);
    let g0 = stripped(g);
    let f = function_color_in(g);
    lemma_stripped_wf(g);
    lemma_function_color_unique(roles, f);
    lemma_has_first(g0, f);
    let start = g0.first_of(f)->0;
    assert(g0.is_first(f, start));
    let first = Draft { states: seq![Seq::<(usize, Transition)>::empty()], grid: g0 };
    assert(first.states.last() =~= Seq::<(usize, Transition)>::empty());
    assert(chain_ok(first.states));
    lemma_walk_keeps(first, roles, start, true);
    lemma_walk_extends(first, roles, start, true);
    lemma_chain_wf(fin);
    let cfg = Config::initial(fin, start);
    assert(traced(first, g0, cfg));
    let after = lemma_walk_traced(first, roles, start, g0, fin, cfg);
    lemma_follow_runs(fin, g0, cfg, (fin.states.len() - 1) as nat, after);
    lemma_run_keeps_wf(fin, g0, cfg);
    assert(accepted(fin, g0) == Some(after));
    let found = outcome(fin, g0)->0;
    assert forall|c: Color, k: int| roles.contains_key(c) && 0 <= k < found[c].len() implies (
    #[trigger] found[c][k]) == c by {
        lemma_harvest_is_uniform(g0, after.trace, c);
        assert(found[c] == harvest(g0, after.trace, c));
    }
}

/// A picture without its corner markers is as well-formed as it was.
pub proof fn lemma_stripped_wf(g: Grid)
    requires
        g.wf(),
        g.width >= 1,
        g.height >= 1,
    ensures
        stripped(g).wf(),
        stripped(g).width == g.width,
        stripped(g).height == g.height,
{
    if g.corner_color() is Some {
        let a = g.with_pixel(0, 0, white());
        g.lemma_with_pixel(0, 0, white());
        let b = a.with_pixel(g.width - 1, 0, white());
        a.lemma_with_pixel(g.width - 1, 0, white());
        let c = b.with_pixel(g.width - 1, g.height - 1, white());
        b.lemma_with_pixel(g.width - 1, g.height - 1, white());
        c.lemma_with_pixel(0, g.height - 1, white());
    }
}

/// A picture that has a color has a first pixel of that color.
pub proof fn lemma_has_first(g: Grid, c: Color)
    requires
        g.wf(),
        g.has_color(c),
    ensures
        g.first_of(c) is Some,
{
    let p = choose|p: Point| g.contains(p) && #[trigger] g.color_at(p) == c;
    lemma_first_before(g, c, p, g.offset(p.x as int, p.y as int) + 1);
}

/// Where a pixel of color `c` lies before the place `bound` of the storage,
/// a first pixel of that color exists.
proof fn lemma_first_before(g: Grid, c: Color, p: Point, bound: int)
    requires
        g.wf(),
        g.contains(p),
        g.color_at(p) == c,
        g.offset(p.x as int, p.y as int) < bound,
    ensures
        exists|q: Point| g.is_first(c, q),
    decreases bound,
{
    g.lemma_offset_in_range(p.x as int, p.y as int);
    if exists|q: Point|
        g.contains(q) && raster_before(q, p) && #[trigger] g.color_at(q) == c {
        let q = choose|q: Point|
            g.contains(q) && raster_before(q, p) && #[trigger] g.color_at(q) == c;
        assert(g.offset(q.x as int, q.y as int) < g.offset(p.x as int, p.y as int)) by {
            if q.y < p.y {
                assert((q.y + 1) * g.width <= p.y * g.width) by (nonlinear_arith)
                    requires
                        q.y + 1 <= p.y,
                        0 <= g.width,
                ;
                assert((q.y + 1) * g.width == q.y * g.width + g.width) by (nonlinear_arith);
            }
        }
        g.lemma_offset_in_range(q.x as int, q.y as int);
        lemma_first_before(g, c, q, g.offset(p.x as int, p.y as int));
    } else {
        assert(g.is_first(c, p));
    }
}

} // verus!
