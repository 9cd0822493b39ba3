//! What a compiled graph is: the depth-first walk of a definition picture, as
//! a mathematical function.

use crate::fsm::Graph;
use crate::fsm::Transition;
use crate::picture::white;
use crate::picture::Color;
use crate::picture::Grid;
use crate::point::surrounding_spec;
use crate::point::Point;
use crate::table::has_function_color;
use crate::table::ColorType;
use vstd::prelude::*;

verus! {

/// A graph under construction and what is left of the definition picture.
/// The last state is the current one.
pub struct Draft {
    pub states: Seq<Seq<(usize, Transition)>>,
    pub grid: Grid,
}

/// The states with the transition `e` added to state `s`.
pub open spec fn with_edge(
    states: Seq<Seq<(usize, Transition)>>,
    s: int,
    e: (usize, Transition),
) -> Seq<Seq<(usize, Transition)>> {
    states.update(s, states[s].push(e))
}

/// The states with the transition `t` from the current state to a fresh
/// state, which becomes the current one.
pub open spec fn extended(states: Seq<Seq<(usize, Transition)>>, t: Transition) -> Seq<
    Seq<(usize, Transition)>,
> {
    with_edge(states, states.len() - 1, (states.len() as usize, t)).push(Seq::empty())
}

/// The states with a loop that consumes pixels of color `c`, each one step
/// further in direction `dir`, counted by the capture group `id`.
///
/// After the transition that begins the group comes the head of the loop,
/// which offers first the move and then the free way out. The move leads to
/// the state that consumes, and that to the tail of the loop, which offers
/// first the free way back to the head and then the end of the group.
pub open spec fn with_loop(
    states: Seq<Seq<(usize, Transition)>>,
    dir: Point,
    c: Color,
    id: u8,
) -> Seq<Seq<(usize, Transition)>> {
    let head = states.len() as int;
    let begun = extended(states, Transition::Capture(id));
    let moved = extended(begun, Transition::MoveRelative(head as usize, dir));
    let skipping = with_edge(moved, head, ((head + 2) as usize, Transition::Epsilon));
    let consuming = extended(skipping, Transition::Consume(c));
    let repeating = with_edge(consuming, head + 2, (head as usize, Transition::Epsilon));
    extended(repeating, Transition::EndCapture(id))
}

/// Whether state `s` has one transition, which leads to the next state and is
/// a consumption, the beginning of a capture group, or a move relative to `s`
/// or an earlier state.
pub open spec fn plain(states: Seq<Seq<(usize, Transition)>>, s: int) -> bool {
    &&& states[s].len() == 1
    &&& states[s][0].0 == s + 1
    &&& match states[s][0].1 {
        Transition::Consume(_) => true,
        Transition::Capture(_) => true,
        Transition::MoveRelative(anchor, _) => anchor <= s,
        _ => false,
    }
}

/// Whether state `s` is the head of a loop: it offers first a move relative
/// to itself, to a state that only consumes and leads to the tail of the
/// loop, and then the free way to the tail.
pub open spec fn loop_head(states: Seq<Seq<(usize, Transition)>>, s: int) -> bool {
    &&& s + 2 < states.len()
    &&& states[s].len() == 2
    &&& states[s][0].0 == s + 1
    &&& states[s][0].1 matches Transition::MoveRelative(anchor, _) && anchor == s
    &&& states[s][1] == ((s + 2) as usize, Transition::Epsilon)
    &&& states[s + 1].len() == 1
    &&& states[s + 1][0].0 == s + 2
    &&& states[s + 1][0].1 is Consume
}

/// Whether state `s` is the tail of a loop: it offers first the free way back
/// to the head of the loop, and then the end of the capture group, which
/// leads to the next state.
pub open spec fn loop_tail(states: Seq<Seq<(usize, Transition)>>, s: int) -> bool {
    &&& s >= 2
    &&& loop_head(states, s - 2)
    &&& states[s].len() == 2
    &&& states[s][0] == ((s - 2) as usize, Transition::Epsilon)
    &&& states[s][1].0 == s + 1
    &&& states[s][1].1 is EndCapture
}

/// The shape of every graph that the walk builds: the last state has no
/// transition, and each state before it is plain, the head of a loop or the
/// tail of a loop. So each state but the last leads to its successor.
pub open spec fn chain_ok(states: Seq<Seq<(usize, Transition)>>) -> bool {
    &&& 1 <= states.len() <= usize::MAX
    &&& states.last().len() == 0
    &&& forall|s: int|
        0 <= s < states.len() - 1 ==> #[trigger] plain(states, s) || loop_head(states, s)
            || loop_tail(states, s)
}

/// A chain stays a chain when a plain transition is added to it.
pub proof fn lemma_extended_chain(states: Seq<Seq<(usize, Transition)>>, t: Transition)
    requires
        chain_ok(states),
        states.len() < usize::MAX,
        match t {
            Transition::Consume(_) => true,
            Transition::Capture(_) => true,
            Transition::MoveRelative(anchor, _) => anchor < states.len(),
            _ => false,
        },
    ensures
        chain_ok(extended(states, t)),
        extended(states, t).len() == states.len() + 1,
{
    let after = extended(states, t);
    let n = states.len() as int;
    assert forall|s: int| 0 <= s < after.len() - 1 implies #[trigger] plain(after, s) || loop_head(
        after,
        s,
    ) || loop_tail(after, s) by {
        if s < n - 1 {
            assert(plain(states, s) || loop_head(states, s) || loop_tail(states, s));
            assert(after[s] == states[s]);
            if loop_head(states, s) {
                assert(after[s + 1] == states[s + 1]);
            }
            if loop_tail(states, s) {
                assert(after[s - 2] == states[s - 2]);
                assert(after[s - 1] == states[s - 1]);
                assert(loop_head(after, s - 2));
            }
        } else {
            assert(after[s] =~= seq![(n as usize, t)]);
            assert(plain(after, s));
        }
    }
}

/// A chain stays a chain when a loop is added to it.
pub proof fn lemma_with_loop_chain(
    states: Seq<Seq<(usize, Transition)>>,
    dir: Point,
    c: Color,
    id: u8,
)
    requires
        chain_ok(states),
        states.len() + 4 <= usize::MAX,
    ensures
        chain_ok(with_loop(states, dir, c, id)),
        with_loop(states, dir, c, id).len() == states.len() + 4,
{
    let after = with_loop(states, dir, c, id);
    let n = states.len() as int;
    assert(after.len() == n + 4);
    assert(after[n - 1] =~= seq![(n as usize, Transition::Capture(id))]);
    assert(after[n] =~= seq![
        ((n + 1) as usize, Transition::MoveRelative(n as usize, dir)),
        ((n + 2) as usize, Transition::Epsilon),
    ]);
    assert(after[n + 1] =~= seq![((n + 2) as usize, Transition::Consume(c))]);
    assert(after[n + 2] =~= seq![
        (n as usize, Transition::Epsilon),
        ((n + 3) as usize, Transition::EndCapture(id)),
    ]);
    assert(after[n + 3] =~= Seq::<(usize, Transition)>::empty());
    assert forall|s: int| 0 <= s < after.len() - 1 implies #[trigger] plain(after, s) || loop_head(
        after,
        s,
    ) || loop_tail(after, s) by {
        if s < n - 1 {
            assert(plain(states, s) || loop_head(states, s) || loop_tail(states, s));
            assert(after[s] == states[s]);
            if loop_head(states, s) {
                assert(after[s + 1] == states[s + 1]);
            }
            if loop_tail(states, s) {
                assert(after[s - 2] == states[s - 2]);
                assert(after[s - 1] == states[s - 1]);
                assert(loop_head(after, s - 2));
            }
        } else if s == n - 1 {
            assert(plain(after, s));
        } else if s == n {
            assert(loop_head(after, s));
        } else if s == n + 1 {
            assert(plain(after, s));
        } else {
            assert(loop_head(after, s - 2));
            assert(loop_tail(after, s));
        }
    }
}

/// A chain with a table that has a function color is a graph that can be
/// searched.
pub proof fn lemma_chain_wf(m: Graph)
    requires
        chain_ok(m.states),
        has_function_color(m.colors),
    ensures
        m.wf(),
{
    let states = m.states;
    assert forall|s: int, k: int| 0 <= s < states.len() && 0 <= k < states[s].len() implies m.edge_ok(
        s,
        #[trigger] states[s][k],
    ) by {
        assert(plain(states, s) || loop_head(states, s) || loop_tail(states, s));
        if loop_tail(states, s) && k == 0 {
            assert(loop_head(states, s - 2));
            assert(m.consume_only(s - 1));
            assert(m.loop_entry(s - 2, s)) by {
                assert forall|j: int| 0 <= j < states[s - 2].len() implies ({
                    let e = #[trigger] states[s - 2][j];
                    ||| e.1 is Consume
                    ||| (e.1 is Epsilon && e.0 == s)
                    ||| (e.0 < states.len() && m.consume_only(e.0 as int))
                }) by {
                    if j == 0 {
                        assert(states[s - 2][0].0 == s - 1);
                    }
                }
            }
        }
    }
}

/// The number of colors in `cells` that are not white.
pub open spec fn ink_of(cells: Seq<Color>) -> nat
    decreases cells.len(),
{
    if cells.len() == 0 {
        0
    } else {
        ink_of(cells.drop_last()) + if cells.last() != white() {
            1nat
        } else {
            0nat
        }
    }
}

/// The number of pixels of `g` that are not white.
pub open spec fn ink(g: Grid) -> nat {
    ink_of(g.cells)
}

/// The number of steps in direction `dir` that lead from column `x` of row
/// `y` out of the grid.
pub open spec fn reach(g: Grid, x: int, y: int, dir: Point) -> int {
    if dir.x > 0 {
        g.width - x
    } else if dir.x < 0 {
        x + 1
    } else if dir.y > 0 {
        g.height - y
    } else {
        y + 1
    }
}

/// The number of consecutive pixels of color `c`, from column `x` of row `y`
/// on in direction `dir`.
pub open spec fn run_length(g: Grid, x: int, y: int, dir: Point, c: Color) -> nat
    decreases reach(g, x, y, dir),
    when dir.is_unit_step()
{
    if g.holds(x, y) && g.pixel(x, y) == c {
        1 + run_length(g, x + dir.x, y + dir.y, dir, c)
    } else {
        0
    }
}

/// The first position past the run of color `c` that starts at column `x` of
/// row `y` and goes in direction `dir`. It may lie outside the grid.
pub open spec fn run_end(g: Grid, x: int, y: int, dir: Point, c: Color) -> (int, int)
    decreases reach(g, x, y, dir),
    when dir.is_unit_step()
{
    if g.holds(x, y) && g.pixel(x, y) == c {
        run_end(g, x + dir.x, y + dir.y, dir, c)
    } else {
        (x, y)
    }
}

/// The grid with the run of color `c` that starts at column `x` of row `y`
/// and goes in direction `dir` made white.
pub open spec fn erase_run(g: Grid, x: int, y: int, dir: Point, c: Color) -> Grid
    decreases reach(g, x, y, dir),
    when dir.is_unit_step()
{
    if g.holds(x, y) && g.pixel(x, y) == c {
        erase_run(g.with_pixel(x, y, white()), x + dir.x, y + dir.y, dir, c)
    } else {
        g
    }
}

/// Replacing a color by white takes one from the ink where the color was not
/// white, and else leaves the ink as it is.
pub proof fn lemma_ink_of_update(cells: Seq<Color>, k: int)
    requires
        0 <= k < cells.len(),
    ensures
        ink_of(cells.update(k, white())) + (if cells[k] != white() {
            1nat
        } else {
            0nat
        }) == ink_of(cells),
    decreases cells.len(),
{
    let after = cells.update(k, white());
    if k == cells.len() - 1 {
        assert(after.drop_last() == cells.drop_last());
    } else {
        assert(after.drop_last() == cells.drop_last().update(k, white()));
        lemma_ink_of_update(cells.drop_last(), k);
    }
}

/// Making a pixel white keeps the grid well-formed and never adds ink; it
/// takes ink away where the pixel was not white.
pub proof fn lemma_clear_pixel(g: Grid, x: int, y: int)
    requires
        g.wf(),
        g.holds(x, y),
    ensures
        g.with_pixel(x, y, white()).wf(),
        g.with_pixel(x, y, white()).width == g.width,
        g.with_pixel(x, y, white()).height == g.height,
        ink(g.with_pixel(x, y, white())) <= ink(g),
        g.pixel(x, y) != white() ==> ink(g.with_pixel(x, y, white())) < ink(g),
{
    g.lemma_offset_in_range(x, y);
    lemma_ink_of_update(g.cells, g.offset(x, y));
}

/// Erasing a run keeps the grid well-formed and never adds ink; it takes ink
/// away where the run is not empty and its color is not white.
pub proof fn lemma_erase_run(g: Grid, x: int, y: int, dir: Point, c: Color)
    requires
        g.wf(),
        dir.is_unit_step(),
    ensures
        erase_run(g, x, y, dir, c).wf(),
        erase_run(g, x, y, dir, c).width == g.width,
        erase_run(g, x, y, dir, c).height == g.height,
        ink(erase_run(g, x, y, dir, c)) <= ink(g),
        g.holds(x, y) && g.pixel(x, y) == c && c != white() ==> ink(erase_run(g, x, y, dir, c))
            < ink(g),
    decreases reach(g, x, y, dir),
{
    if g.holds(x, y) && g.pixel(x, y) == c {
        lemma_clear_pixel(g, x, y);
        lemma_erase_run(g.with_pixel(x, y, white()), x + dir.x, y + dir.y, dir, c);
    }
}

/// The graph and the picture after the walk has entered the pixel at `head`
/// and all that is reachable from it.
///
/// With `consume`, the walk first adds the transition that consumes the color
/// of the pixel, and makes the pixel white. Then it looks at the eight
/// neighbors in canonical order.
pub open spec fn walk(d: Draft, roles: Map<Color, ColorType>, head: Point, consume: bool) -> Draft
    decreases ink(d.grid), (if consume {
        0int
    } else {
        10int
    }),
    when d.grid.wf() && d.grid.contains(head) && (consume ==> d.grid.color_at(head) != white())
{
    let color = d.grid.color_at(head);
    let origin = (d.states.len() - 1) as usize;
    if consume {
        proof {
            lemma_clear_pixel(d.grid, head.x as int, head.y as int);
        }
        scan(
            Draft {
                states: extended(d.states, Transition::Consume(color)),
                grid: d.grid.with_color_at(head, white()),
            },
            roles,
            head,
            color,
            origin,
            0,
        )
    } else {
        scan(d, roles, head, color, origin, 0)
    }
}

/// The graph and the picture after the walk has looked at the neighbors of
/// `head` from the `i`-th on. `color` is the color that the pixel at `head`
/// had when the walk came to it, and `origin` the state that was current then.
///
/// - A neighbor outside the picture is passed over.
/// - A neighbor in a loop-marker color starts a run of that color in the
///   direction of the neighbor. A run of one pixel is passed over. A longer
///   run is erased and becomes a loop that consumes `color`, in the capture
///   group named by the red channel of the marker; the walk then goes on from
///   the first position past the run, if the picture has it, without consuming
///   that pixel. A loop that the walk finds from there consumes the color of
///   that position, whether or not the color is registered.
/// - A neighbor in a color that is not registered is passed over.
/// - Any other neighbor is entered: a move by the offset of the neighbor,
///   relative to `origin`, leads to a fresh state, and the walk consumes the
///   neighbor there.
///
/// A walk never adds ink, so the tests of the ink below always succeed.
pub open spec fn scan(
    d: Draft,
    roles: Map<Color, ColorType>,
    head: Point,
    color: Color,
    origin: usize,
    i: int,
) -> Draft
    decreases ink(d.grid), 9 - i,
    when d.grid.wf() && 0 <= i
{
    if i >= 8 {
        d
    } else {
        let dir = surrounding_spec()[i];
        let x = head.x + dir.x;
        let y = head.y + dir.y;
        if !d.grid.holds(x, y) {
            scan(d, roles, head, color, origin, i + 1)
        } else {
            let c = d.grid.pixel(x, y);
            if c.is_loop_marker() {
                if run_length(d.grid, x, y, dir, c) <= 1 {
                    scan(d, roles, head, color, origin, i + 1)
                } else {
                    proof {
                        crate::point::lemma_surrounding_unit_steps();
                        lemma_erase_run(d.grid, x, y, dir, c);
                    }
                    let looped = Draft {
                        states: with_loop(d.states, dir, color, c.r),
                        grid: erase_run(d.grid, x, y, dir, c),
                    };
                    let past = run_end(d.grid, x, y, dir, c);
                    let walked = if looped.grid.holds(past.0, past.1) {
                        walk(looped, roles, Point::at(past.0, past.1), false)
                    } else {
                        looped
                    };
                    if ink(walked.grid) <= ink(looped.grid) {
                        scan(walked, roles, head, color, origin, i + 1)
                    } else {
                        walked
                    }
                }
            } else if !roles.contains_key(c) {
                scan(d, roles, head, color, origin, i + 1)
            } else {
                let moved = Draft {
                    states: extended(d.states, Transition::MoveRelative(origin, dir)),
                    grid: d.grid,
                };
                let walked = walk(moved, roles, Point::at(x, y), true);
                if ink(walked.grid) <= ink(moved.grid) {
                    scan(walked, roles, head, color, origin, i + 1)
                } else {
                    walked
                }
            }
        }
    }
}

} // verus!
