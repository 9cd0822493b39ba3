//! The graph compiler: walks a definition picture and synthesizes its state
//! graph.

use crate::fsm::edges_of;
use crate::fsm::Fsm;
use crate::fsm::Graph;
use crate::fsm::State;
use crate::fsm::Transition;
use crate::picture::blue;
use crate::picture::white;
use crate::picture::Color;
use crate::picture::Grid;
use crate::picture::Picture;
use crate::point::lemma_surrounding_unit_steps;
use crate::point::surrounding;
use crate::point::surrounding_spec;
use crate::point::Point;
use crate::table::is_function_color;
use crate::table::lemma_function_color_unique;
use crate::table::ColorTable;
use crate::table::ColorType;
use crate::walk::chain_ok;
use crate::walk::erase_run;
use crate::walk::extended;
use crate::walk::ink;
use crate::walk::lemma_chain_wf;
use crate::walk::lemma_clear_pixel;
use crate::walk::lemma_erase_run;
use crate::walk::lemma_extended_chain;
use crate::walk::lemma_with_loop_chain;
use crate::walk::reach;
use crate::walk::run_end;
use crate::walk::run_length;
use crate::walk::scan;
use crate::walk::walk;
use crate::walk::with_edge;
use crate::walk::with_loop;
use crate::walk::Draft;
use vstd::prelude::*;

verus! {

/// The function color of a definition: the color that all four corners
/// share, or blue where they share none.
pub open spec fn function_color_in(g: Grid) -> Color {
    match g.corner_color() {
        Some(c) => c,
        None => blue(),
    }
}

/// The definition without its corner markers: where all four corners share a
/// color, they are made white.
pub open spec fn stripped(g: Grid) -> Grid {
    if g.corner_color() is Some {
        g.with_pixel(0, 0, white()).with_pixel(g.width - 1, 0, white()).with_pixel(
            g.width - 1,
            g.height - 1,
            white(),
        ).with_pixel(0, g.height - 1, white())
    } else {
        g
    }
}

/// Whether the picture can be a definition: it is not empty, and without its
/// corner markers it has a pixel of its function color.
pub open spec fn definable(g: Grid) -> bool {
    &&& g.width >= 1
    &&& g.height >= 1
    &&& stripped(g).has_color(function_color_in(g))
}

/// The graph that the definition `g` compiles to with the roles `roles`:
/// the walk starts on the first pixel of the function color.
pub open spec fn compiled(g: Grid, roles: Map<Color, ColorType>) -> Graph
    recommends
        definable(g),
{
    let start = stripped(g).first_of(function_color_in(g))->0;
    let first = Draft { states: seq![Seq::empty()], grid: stripped(g) };
    Graph { states: walk(first, roles, start, true).states, colors: roles }
}

/// Builds a state graph from a definition picture.
pub struct FSMBuilder {
    pub states: Vec<State>,
    pub colors: ColorTable,
    pub head_pos: Point,
    pub p: Picture,
}

impl FSMBuilder {
    /// The graph built so far and what is left of the picture.
    pub open spec fn draft(&self) -> Draft {
        Draft { states: edges_of(self.states@), grid: self.p@ }
    }

    /// The builder can build: its states form a chain, the head stands on a
    /// pixel that is not white, the color of that pixel is the function
    /// color, and white is not registered.
    pub open spec fn wf(&self) -> bool {
        &&& self.p.wf()
        &&& chain_ok(edges_of(self.states@))
        &&& self.p@.contains(self.head_pos)
        &&& self.p@.color_at(self.head_pos) != white()
        &&& is_function_color(self.colors@, self.p@.color_at(self.head_pos))
        &&& !self.colors@.contains_key(white())
    }

    fn push_edge(&mut self, s: usize, e: (usize, Transition))
        requires
            s < old(self).states@.len(),
        ensures
            final(self).colors == old(self).colors,
            final(self).head_pos == old(self).head_pos,
            final(self).p == old(self).p,
            final(self).states@.len() == old(self).states@.len(),
            edges_of(final(self).states@) == with_edge(edges_of(old(self).states@), s as int, e),
    {
        self.states[s].t.push(e);
        assert(edges_of(self.states@) =~= with_edge(edges_of(old(self).states@), s as int, e));
    }

    /// Adds the transition `t` from the current state to a fresh state.
    fn extend(&mut self, t: Transition)
        requires
            old(self).states@.len() >= 1,
        ensures
            final(self).colors == old(self).colors,
            final(self).head_pos == old(self).head_pos,
            final(self).p == old(self).p,
            final(self).states@.len() == old(self).states@.len() + 1,
            edges_of(final(self).states@) == extended(edges_of(old(self).states@), t),
    {
        let len = self.states.len();
        self.push_edge(len - 1, (len, t));
        let ghost before = edges_of(self.states@);
        self.states.push(State::new());
        assert(edges_of(self.states@) =~= before.push(Seq::empty()));
    }

    /// Consumes the color underneath.
    /// Adds another empty state afterwards.
    fn consume(&mut self, c: Color)
        requires
            old(self).states@.len() >= 1,
        ensures
            final(self).colors == old(self).colors,
            final(self).head_pos == old(self).head_pos,
            final(self).p == old(self).p,
            final(self).states@.len() == old(self).states@.len() + 1,
            edges_of(final(self).states@) == extended(
                edges_of(old(self).states@),
                Transition::Consume(c),
            ),
    {
        self.extend(Transition::Consume(c));
    }

    /// Moves relative to the state `s`, or to the current state where `s` is
    /// `None`, by the offset `p`.
    /// Adds another empty state afterwards.
    fn move_rel(&mut self, s: Option<usize>, p: Point)
        requires
            old(self).states@.len() >= 1,
        ensures
            final(self).colors == old(self).colors,
            final(self).head_pos == old(self).head_pos,
            final(self).p == old(self).p,
            final(self).states@.len() == old(self).states@.len() + 1,
            edges_of(final(self).states@) == extended(
                edges_of(old(self).states@),
                Transition::MoveRelative(
                    match s {
                        Some(anchor) => anchor,
                        None => (old(self).states@.len() - 1) as usize,
                    },
                    p,
                ),
            ),
    {
        let anchor = match s {
            Some(anchor) => anchor,
            None => self.states.len() - 1,
        };
        self.extend(Transition::MoveRelative(anchor, p));
    }

    /// Starts the capture group `g`: whatever is consumed from here on counts
    /// for it.
    fn start_capture(&mut self, g: u8)
        requires
            old(self).states@.len() >= 1,
        ensures
            final(self).colors == old(self).colors,
            final(self).head_pos == old(self).head_pos,
            final(self).p == old(self).p,
            final(self).states@.len() == old(self).states@.len() + 1,
            edges_of(final(self).states@) == extended(
                edges_of(old(self).states@),
                Transition::Capture(g),
            ),
    {
        self.extend(Transition::Capture(g));
    }

    /// Ends the capture group `g`.
    fn end_capture(&mut self, g: u8)
        requires
            old(self).states@.len() >= 1,
        ensures
            final(self).colors == old(self).colors,
            final(self).head_pos == old(self).head_pos,
            final(self).p == old(self).p,
            final(self).states@.len() == old(self).states@.len() + 1,
            edges_of(final(self).states@) == extended(
                edges_of(old(self).states@),
                Transition::EndCapture(g),
            ),
    {
        self.extend(Transition::EndCapture(g));
    }

    /// Adds the loop of group `g` that keeps going in direction `p` while
    /// consuming `c`.
    fn loop_please(&mut self, p: Point, c: Color, g: u8)
        requires
            old(self).states@.len() >= 1,
        ensures
            final(self).colors == old(self).colors,
            final(self).head_pos == old(self).head_pos,
            final(self).p == old(self).p,
            final(self).states@.len() == old(self).states@.len() + 4,
            edges_of(final(self).states@) == with_loop(edges_of(old(self).states@), p, c, g),
    {
        self.start_capture(g);
        let head = self.states.len() - 1;
        self.move_rel(Some(head), p);
        let len = self.states.len();
        self.push_edge(head, (len, Transition::Epsilon));
        self.consume(c);
        let len = self.states.len();
        self.push_edge(len - 1, (len - 3, Transition::Epsilon));
        self.end_capture(g);
    }

    /// Adds an input color to look for.
    pub fn add_input(&mut self, c: Color)
        ensures
            final(self).colors@ == old(self).colors@.insert(c, ColorType::Input),
            old(self).colors.distinct() ==> final(self).colors.distinct(),
            final(self).states == old(self).states,
            final(self).head_pos == old(self).head_pos,
            final(self).p == old(self).p,
            old(self).wf() && c != white() && c != old(self).p@.color_at(old(self).head_pos)
                ==> final(self).wf(),
    {
        self.colors.insert(c, ColorType::Input);
    }

    /// Adds an output color to look for.
    pub fn add_output(&mut self, c: Color)
        ensures
            final(self).colors@ == old(self).colors@.insert(c, ColorType::Output),
            old(self).colors.distinct() ==> final(self).colors.distinct(),
            final(self).states == old(self).states,
            final(self).head_pos == old(self).head_pos,
            final(self).p == old(self).p,
            old(self).wf() && c != white() && c != old(self).p@.color_at(old(self).head_pos)
                ==> final(self).wf(),
    {
        self.colors.insert(c, ColorType::Output);
    }

    /// Identifies if a color is significant to the finite state machine.
    fn color(&self, c: Color) -> (role: Option<ColorType>)
        ensures
            role is Some == self.colors@.contains_key(c),
            role matches Some(r) ==> self.colors@[c] == r,
    {
        self.colors.get(c)
    }

    /// Counts the run of color `c` that starts at `from` and goes in direction
    /// `dir`, and finds the first position past it.
    fn measure_run(&self, from: Point, dir: Point, c: Color) -> (run: (usize, Point))
        requires
            self.p.wf(),
            self.p@.contains(from),
            dir.is_unit_step(),
        ensures
            run.0 == run_length(self.p@, from.x as int, from.y as int, dir, c),
            (run.1.x as int, run.1.y as int) == run_end(
                self.p@,
                from.x as int,
                from.y as int,
                dir,
                c,
            ),
    {
        let mut count: usize = 0;
        let mut at = from;
        while self.p.in_bounds(at) && self.p.get_point(at) == c
            invariant
                self.p.wf(),
                dir.is_unit_step(),
                self.p@.contains(from),
                -1 <= at.x <= self.p.width,
                -1 <= at.y <= self.p.height,
                count + reach(self.p@, at.x as int, at.y as int, dir) == reach(
                    self.p@,
                    from.x as int,
                    from.y as int,
                    dir,
                ),
                count + run_length(self.p@, at.x as int, at.y as int, dir, c) == run_length(
                    self.p@,
                    from.x as int,
                    from.y as int,
                    dir,
                    c,
                ),
                run_end(self.p@, at.x as int, at.y as int, dir, c) == run_end(
                    self.p@,
                    from.x as int,
                    from.y as int,
                    dir,
                    c,
                ),
            decreases reach(self.p@, at.x as int, at.y as int, dir),
        {
            count = count + 1;
            at = at + dir;
        }
        (count, at)
    }

    /// Makes the run of color `c` that starts at `from` and goes in direction
    /// `dir` white.
    fn erase(&mut self, from: Point, dir: Point, c: Color)
        requires
            old(self).p.wf(),
            dir.is_unit_step(),
            -1 <= from.x <= old(self).p.width,
            -1 <= from.y <= old(self).p.height,
        ensures
            final(self).colors == old(self).colors,
            final(self).head_pos == old(self).head_pos,
            final(self).states == old(self).states,
            final(self).p@ == erase_run(old(self).p@, from.x as int, from.y as int, dir, c),
            final(self).p.wf(),
    {
        let mut at = from;
        while self.p.in_bounds(at) && self.p.get_point(at) == c
            invariant
                self.p.wf(),
                dir.is_unit_step(),
                self.colors == old(self).colors,
                self.head_pos == old(self).head_pos,
                self.states == old(self).states,
                self.p.width == old(self).p.width,
                self.p.height == old(self).p.height,
                -1 <= at.x <= self.p.width,
                -1 <= at.y <= self.p.height,
                erase_run(self.p@, at.x as int, at.y as int, dir, c) == erase_run(
                    old(self).p@,
                    from.x as int,
                    from.y as int,
                    dir,
                    c,
                ),
            decreases reach(self.p@, at.x as int, at.y as int, dir),
        {
            proof {
                lemma_clear_pixel(self.p@, at.x as int, at.y as int);
            }
            self.p.set_point(at, white());
            at = at + dir;
        }
    }

    /// Recursively walks the symbol from the head and adds its states.
    /// `consume` tells whether the pixel under the head is to be consumed on
    /// entering it.
    fn recurse(&mut self, consume: bool)
        requires
            old(self).p.wf(),
            chain_ok(edges_of(old(self).states@)),
            old(self).p@.contains(old(self).head_pos),
            consume ==> old(self).p@.color_at(old(self).head_pos) != white(),
            !old(self).colors@.contains_key(white()),
        ensures
            final(self).draft() == walk(
                old(self).draft(),
                old(self).colors@,
                old(self).head_pos,
                consume,
            ),
            final(self).colors == old(self).colors,
            final(self).p.wf(),
            final(self).p.width == old(self).p.width,
            final(self).p.height == old(self).p.height,
            ink(final(self).p@) <= ink(old(self).p@),
            chain_ok(edges_of(final(self).states@)),
            final(self).states@.len() >= old(self).states@.len() + (if consume {
                1int
            } else {
                0int
            }),
        decreases ink(old(self).p@), (if consume {
            0int
        } else {
            10int
        }),
    {
        let head_pos = self.head_pos;
        let cur_state = self.states.len() - 1;
        let head_color = self.p.get_point(self.head_pos);
        if consume {
            let ghost before = edges_of(self.states@);
            self.consume(head_color);
            self.p.set_point(head_pos, white());
            proof {
                lemma_clear_pixel(old(self).p@, head_pos.x as int, head_pos.y as int);
                assert(self.states@.len() == self.states.len());
                lemma_extended_chain(before, Transition::Consume(head_color));
            }
        }
        let offsets = surrounding();
        proof {
            lemma_surrounding_unit_steps();
        }
        let mut i: usize = 0;
        while i < 8
            invariant
                0 <= i <= 8,
                offsets@ == surrounding_spec(),
                self.p.wf(),
                self.p.width == old(self).p.width,
                self.p.height == old(self).p.height,
                self.p@.contains(head_pos),
                self.colors == old(self).colors,
                !self.colors@.contains_key(white()),
                chain_ok(edges_of(self.states@)),
                cur_state < self.states@.len(),
                self.states@.len() >= old(self).states@.len() + (if consume {
                    1int
                } else {
                    0int
                }),
                ink(self.p@) <= ink(old(self).p@),
                consume ==> ink(self.p@) < ink(old(self).p@),
                walk(old(self).draft(), old(self).colors@, old(self).head_pos, consume) == scan(
                    self.draft(),
                    self.colors@,
                    head_pos,
                    head_color,
                    cur_state,
                    i as int,
                ),
            decreases 8 - i,
        {
            let pos = offsets[i];
            assert(pos == surrounding_spec()[i as int]);
            assert(pos.is_unit_step());
            let next_position = head_pos + pos;
            if self.p.in_bounds(next_position) {
                let cur_color = self.p.get(next_position.x, next_position.y);
                if cur_color.loop_marker() {
                    // A run of at least two markers in a row is a loop.
                    let (black_count, black_pos) = self.measure_run(next_position, pos, cur_color);
                    if black_count > 1 {
                        let ghost before = edges_of(self.states@);
                        proof {
                            lemma_erase_run(
                                self.p@,
                                next_position.x as int,
                                next_position.y as int,
                                pos,
                                cur_color,
                            );
                        }
                        self.erase(next_position, pos, cur_color);
                        self.loop_please(pos, head_color, cur_color.r);
                        proof {
                            assert(self.states@.len() == self.states.len());
                            lemma_with_loop_chain(before, pos, head_color, cur_color.r);
                        }
                        // Goes on from the first position past the run, as if
                        // the walk had entered it already.
                        if self.p.in_bounds(black_pos) {
                            self.head_pos = black_pos;
                            self.recurse(false);
                        }
                    }
                } else if self.color(cur_color).is_none() {
                    // The color of this pixel does not matter.
                } else {
                    let ghost before = edges_of(self.states@);
                    self.move_rel(Some(cur_state), pos);
                    proof {
                        assert(self.states@.len() == self.states.len());
                        lemma_extended_chain(before, Transition::MoveRelative(cur_state, pos));
                    }
                    self.head_pos = next_position;
                    self.recurse(true);
                }
            }
            i = i + 1;
        }
    }

    /// Recursively builds the state graph of the definition.
    ///
    /// Every pixel that the walk enters has a registered color. A loop
    /// consumes the color of the pixel it was found from; where that is the
    /// position past another run, which the walk does not enter, the color
    /// is consumed whether or not it is registered. Building never fails.
    pub fn build(self) -> (fsm: Fsm)
        requires
            self.wf(),
        ensures
            fsm@ == (Graph {
                states: walk(self.draft(), self.colors@, self.head_pos, true).states,
                colors: self.colors@,
            }),
            forall|g: Grid| #[trigger] self.started_from(g) ==> fsm@ == compiled(g, self.colors@),
            fsm.colors == self.colors,
            fsm.wf(),
            chain_ok(fsm@.states),
            fsm.states@.len() >= 2,
    {
        let mut builder = self;
        builder.recurse(true);
        let fsm = Fsm { states: builder.states, colors: builder.colors };
        proof {
            lemma_function_color_unique(fsm.colors@, self.p@.color_at(self.head_pos));
            lemma_chain_wf(fsm@);
        }
        fsm
    }

    /// Whether the builder stands at the start of the definition `g`:
    /// nothing is built yet, the corner markers are gone, and the head stands
    /// on the first pixel of the function color.
    pub open spec fn started_from(&self, g: Grid) -> bool {
        &&& self.draft() == (Draft { states: seq![Seq::empty()], grid: stripped(g) })
        &&& Some(self.head_pos) == stripped(g).first_of(function_color_in(g))
    }

    /// Whether the builder is the one that `Fsm::builder` makes of the
    /// definition `g`: it stands at the start of `g`, and only the function
    /// color is registered.
    pub open spec fn fresh_from(&self, g: Grid) -> bool {
        &&& self.wf()
        &&& self.started_from(g)
        &&& self.colors.distinct()
        &&& self.colors@ == Map::<Color, ColorType>::empty().insert(
            function_color_in(g),
            ColorType::Function,
        )
    }
}

impl Fsm {
    /// Starts the compilation of the definition `p`, unless `p` cannot be a
    /// definition.
    ///
    /// Where all four corners of `p` share a color that is not white, that
    /// color is the function color, and the corners are made white; else the
    /// function color is blue. The walk will start on the topmost, then
    /// leftmost, pixel of the function color. Without such a pixel there is
    /// nothing to build.
    pub fn try_builder(p: Picture) -> (built: Option<FSMBuilder>)
        requires
            p.wf(),
        ensures
            match built {
                Some(b) => definable(p@) && b.fresh_from(p@),
                None => !definable(p@),
            },
    {
        let mut p = p;
        if p.width < 1 || p.height < 1 {
            return None;
        }
        let ghost given = p@;
        let result = p.four_corners();
        if result.is_some() {
            p.set(0, 0, white());
            p.set(p.width - 1, 0, white());
            p.set(p.width - 1, p.height - 1, white());
            p.set(0, p.height - 1, white());
        }
        assert(p@ == stripped(given));
        let func_color = match result {
            Some(c) => c,
            None => blue(),
        };
        // Find upper left corner of the symbol.
        let head_pos = match p.find_first(func_color) {
            Some(head_pos) => head_pos,
            None => {
                return None;
            },
        };
        let mut colors = ColorTable::new();
        colors.insert(func_color, ColorType::Function);
        let mut states: Vec<State> = Vec::new();
        states.push(State::new());
        assert(edges_of(states@) =~= seq![Seq::<(usize, Transition)>::empty()]);
        Some(FSMBuilder { states, head_pos, p, colors })
    }

    /// Starts the compilation of the definition `p`.
    pub fn builder(p: Picture) -> (b: FSMBuilder)
        requires
            p.wf(),
            definable(p@),
        ensures
            b.fresh_from(p@),
    {
        match Fsm::try_builder(p) {
            Some(b) => b,
            None => vstd::pervasive::unreached(),
        }
    }
}

} // verus!
