//! The state graph that describes the shape of a symbol.

use crate::picture::Color;
use crate::point::Point;
use crate::table::has_function_color;
use crate::table::ColorTable;
use crate::table::ColorType;
use vstd::prelude::*;

verus! {

/// The different transitions between states that are possible.
#[derive(Debug, Clone, Copy, PartialEq, Eq, Structural)]
pub enum Transition {
    /// Moves the head to the entry point of the given state plus the offset.
    MoveRelative(usize, Point),
    /// Requires the given color under the head and consumes that pixel.
    Consume(Color),
    /// Begins the capture group with the given id.
    Capture(u8),
    /// Ends the capture group with the given id.
    EndCapture(u8),
    /// Changes to the destination state for free.
    Epsilon,
}

/// A state: its transitions, each with its destination, in the order in which
/// they are tried. A state without transitions is accepting.
#[derive(Debug, Clone)]
pub struct State {
    pub t: Vec<(usize, Transition)>,
}

impl View for State {
    type V = Seq<(usize, Transition)>;

    open spec fn view(&self) -> Seq<(usize, Transition)> {
        self.t@
    }
}

impl State {
    /// The accepting state.
    pub fn new() -> (state: State)
        ensures
            state@ == Seq::<(usize, Transition)>::empty(),
    {
        State { t: Vec::new() }
    }
}

/// A compiled definition: the state graph, entered at state 0, and the color
/// role table it was compiled with.
#[derive(Debug, Clone)]
pub struct Fsm {
    pub states: Vec<State>,
    pub colors: ColorTable,
}

/// The mathematical content of a compiled definition.
pub struct Graph {
    pub states: Seq<Seq<(usize, Transition)>>,
    pub colors: Map<Color, ColorType>,
}

/// The transition lists of a list of states.
pub open spec fn edges_of(states: Seq<State>) -> Seq<Seq<(usize, Transition)>> {
    Seq::new(states.len(), |s: int| states[s]@)
}

impl View for Fsm {
    type V = Graph;

    open spec fn view(&self) -> Graph {
        Graph { states: edges_of(self.states@), colors: self.colors@ }
    }
}

impl Graph {
    /// Whether state `s` has no transition, so that reaching it ends a search
    /// with success.
    pub open spec fn accepting(self, s: int) -> bool {
        self.states[s].len() == 0
    }

    /// Whether every transition of state `s` consumes a pixel.
    pub open spec fn consume_only(self, s: int) -> bool {
        forall|k: int| 0 <= k < self.states[s].len() ==> (#[trigger] self.states[s][k]).1 is Consume
    }

    /// Whether state `d` may be the destination of a free transition that
    /// leads back from the later state `s`: each transition of `d` consumes a
    /// pixel, or is the free transition to `s`, or leads to a state all of
    /// whose transitions consume a pixel.
    pub open spec fn loop_entry(self, d: int, s: int) -> bool {
        forall|k: int|
            0 <= k < self.states[d].len() ==> {
                let e = #[trigger] self.states[d][k];
                ||| e.1 is Consume
                ||| (e.1 is Epsilon && e.0 == s)
                ||| (e.0 < self.states.len() && self.consume_only(e.0 as int))
            }
    }

    /// Whether the transition `e` may leave state `s`: it names states of the
    /// graph, and it consumes a pixel, or leads to a later state, or is the
    /// free transition that closes a loop.
    pub open spec fn edge_ok(self, s: int, e: (usize, Transition)) -> bool {
        &&& e.0 < self.states.len()
        &&& (e.1 matches Transition::MoveRelative(anchor, _) ==> anchor < self.states.len())
        &&& (e.1 is Consume || e.0 > s || (e.1 is Epsilon && e.0 < s && self.loop_entry(
            e.0 as int,
            s,
        )))
    }

    /// The graph has an entry state, every transition may leave its state, and
    /// exactly one color is the function color.
    pub open spec fn wf(self) -> bool {
        &&& self.states.len() >= 1
        &&& forall|s: int, k: int|
            0 <= s < self.states.len() && 0 <= k < self.states[s].len() ==> self.edge_ok(
                s,
                #[trigger] self.states[s][k],
            )
        &&& has_function_color(self.colors)
    }

    /// A bound on the number of transitions that a search can take from state
    /// `s`, entered with the marker `marker`, before it consumes a pixel.
    pub open spec fn rank(self, s: int, marker: Option<usize>) -> nat {
        if self.consume_only(s) {
            0
        } else if marker matches Some(k) && self.loop_entry(s, k as int) {
            1
        } else {
            (self.states.len() - s + 1) as nat
        }
    }
}

impl Fsm {
    /// The graph can be searched.
    pub open spec fn wf(&self) -> bool {
        self@.wf()
    }

    /// Tells whether every transition of state `s` consumes a pixel.
    fn only_consumes(&self, s: usize) -> (ok: bool)
        requires
            s < self.states@.len(),
        ensures
            ok == self@.consume_only(s as int),
    {
        let mut k: usize = 0;
        while k < self.states[s].t.len()
            invariant
                s < self.states@.len(),
                k <= self.states@[s as int].t@.len(),
                forall|j: int| 0 <= j < k ==> (#[trigger] self@.states[s as int][j]).1 is Consume,
            decreases self.states@[s as int].t@.len() - k,
        {
            match self.states[s].t[k].1 {
                Transition::Consume(_) => {},
                _ => {
                    assert(!(self@.states[s as int][k as int].1 is Consume));
                    return false;
                },
            }
            k = k + 1;
        }
        true
    }

    /// Tells whether state `d` may be the destination of a free transition
    /// that leads back from state `s`.
    fn may_lead_back(&self, d: usize, s: usize) -> (ok: bool)
        requires
            d < self.states@.len(),
        ensures
            ok == self@.loop_entry(d as int, s as int),
    {
        let mut k: usize = 0;
        while k < self.states[d].t.len()
            invariant
                d < self.states@.len(),
                k <= self.states@[d as int].t@.len(),
                forall|j: int|
                    0 <= j < k ==> {
                        let e = #[trigger] self@.states[d as int][j];
                        ||| e.1 is Consume
                        ||| (e.1 is Epsilon && e.0 == s)
                        ||| (e.0 < self@.states.len() && self@.consume_only(e.0 as int))
                    },
            decreases self.states@[d as int].t@.len() - k,
        {
            let e = self.states[d].t[k];
            assert(e == self@.states[d as int][k as int]);
            let harmless = match e.1 {
                Transition::Consume(_) => true,
                Transition::Epsilon => e.0 == s || (e.0 < self.states.len() && self.only_consumes(
                    e.0,
                )),
                _ => e.0 < self.states.len() && self.only_consumes(e.0),
            };
            if !harmless {
                return false;
            }
            k = k + 1;
        }
        true
    }

    /// Tells whether the `k`-th transition of state `s` may leave it.
    fn may_leave(&self, s: usize, k: usize) -> (ok: bool)
        requires
            s < self.states@.len(),
            k < self.states@[s as int].t@.len(),
        ensures
            ok == self@.edge_ok(s as int, self@.states[s as int][k as int]),
    {
        let e = self.states[s].t[k];
        assert(e == self@.states[s as int][k as int]);
        if e.0 >= self.states.len() {
            return false;
        }
        match e.1 {
            Transition::Consume(_) => true,
            Transition::MoveRelative(anchor, _) => anchor < self.states.len() && e.0 > s,
            Transition::Epsilon => e.0 > s || (e.0 < s && self.may_lead_back(e.0, s)),
            _ => e.0 > s,
        }
    }

    /// Tells whether the graph can be searched: it has an entry state, every
    /// transition may leave its state, and exactly one color is the function
    /// color.
    pub fn checked(&self) -> (ok: bool)
        ensures
            ok == self.wf(),
    {
        if self.states.len() < 1 {
            return false;
        }
        let mut s: usize = 0;
        while s < self.states.len()
            invariant
                s <= self.states@.len(),
                forall|a: int, k: int|
                    0 <= a < s && 0 <= k < self@.states[a].len() ==> self@.edge_ok(
                        a,
                        #[trigger] self@.states[a][k],
                    ),
            decreases self.states@.len() - s,
        {
            let mut k: usize = 0;
            while k < self.states[s].t.len()
                invariant
                    s < self.states@.len(),
                    k <= self.states@[s as int].t@.len(),
                    forall|a: int, k: int|
                        0 <= a < s && 0 <= k < self@.states[a].len() ==> self@.edge_ok(
                            a,
                            #[trigger] self@.states[a][k],
                        ),
                    forall|j: int|
                        0 <= j < k ==> self@.edge_ok(s as int, #[trigger] self@.states[s as int][j]),
                decreases self.states@[s as int].t@.len() - k,
            {
                if !self.may_leave(s, k) {
                    return false;
                }
                k = k + 1;
            }
            s = s + 1;
        }
        self.colors.one_function_color()
    }
}

} // verus!
