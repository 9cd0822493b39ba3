//! The pattern matcher: runs the search of a state graph over a target picture
//! and harvests the colors it consumed.

use crate::fsm::Fsm;
use crate::fsm::Graph;
use crate::fsm::Transition;
use crate::picture::white;
use crate::picture::Color;
use crate::picture::Grid;
use crate::picture::Picture;
use crate::point::Point;
use crate::search::bumped;
use crate::search::consumed;
use crate::search::lemma_run_keeps_wf;
use crate::search::lemma_step_progress;
use crate::search::lemma_trace_fits;
use crate::search::run;
use crate::search::running_count;
use crate::search::step;
use crate::search::try_from;
use crate::search::unconsumed;
use crate::search::within_reference;
use crate::search::without_group;
use crate::search::Config;
use crate::search::Hit;
use crate::table::function_color_of;
use crate::table::roles_of;
use crate::table::ColorTable;
use crate::table::ColorType;
use vstd::prelude::*;

verus! {

/// The colors that the trace consumed for the key `key`, in the order of the
/// trace.
pub open spec fn harvest(g: Grid, trace: Seq<Hit>, key: Color) -> Seq<Color>
    decreases trace.len(),
{
    if trace.len() == 0 {
        Seq::empty()
    } else if trace.last().key == key {
        harvest(g, trace.drop_last(), key).push(g.color_at(trace.last().at))
    } else {
        harvest(g, trace.drop_last(), key)
    }
}

/// The capture mapping of a trace: for each registered color, the colors of
/// the pixels that were consumed for it.
pub open spec fn captured(g: Grid, trace: Seq<Hit>, roles: Map<Color, ColorType>) -> Map<
    Color,
    Seq<Color>,
> {
    Map::new(|c: Color| roles.contains_key(c), |c: Color| harvest(g, trace, c))
}

/// The configuration in which the match of `m` against `g` accepts: the
/// search starts on the first pixel of the function color. `None` where the
/// picture has no such pixel, or every path fails.
pub open spec fn accepted(m: Graph, g: Grid) -> Option<Config> {
    match g.first_of(function_color_of(m.colors)) {
        Some(start) => run(m, g, Config::initial(m, start)),
        None => None,
    }
}

/// The result of matching `m` against `g`: the capture mapping of the
/// accepted path, or `None` without a match.
pub open spec fn outcome(m: Graph, g: Grid) -> Option<Map<Color, Seq<Color>>> {
    match accepted(m, g) {
        Some(end) => Some(captured(g, end.trace, m.colors)),
        None => None,
    }
}

/// The colors found for one registered color.
#[derive(Debug, Clone)]
pub struct Bucket {
    pub key: Color,
    pub found: Vec<Color>,
}

/// The mapping that a list of buckets stands for: a later bucket of a color
/// replaces an earlier one.
pub open spec fn mapping_of(buckets: Seq<Bucket>) -> Map<Color, Seq<Color>>
    decreases buckets.len(),
{
    if buckets.len() == 0 {
        Map::empty()
    } else {
        mapping_of(buckets.drop_last()).insert(buckets.last().key, buckets.last().found@)
    }
}

/// The result of a match: for each registered color, the colors found at the
/// positions that were consumed for it, in the order of the accepted path.
#[derive(Debug, Clone)]
pub struct Captures {
    pub buckets: Vec<Bucket>,
}

impl View for Captures {
    type V = Map<Color, Seq<Color>>;

    open spec fn view(&self) -> Map<Color, Seq<Color>> {
        mapping_of(self.buckets@)
    }
}

impl Captures {
    /// Whether each color has one bucket, as in every result of a match
    /// with a table in which each color has one registration.
    pub open spec fn distinct(&self) -> bool {
        forall|i: int, j: int|
            0 <= i < j < self.buckets@.len() ==> (#[trigger] self.buckets@[i]).key != (
            #[trigger] self.buckets@[j]).key
    }

    /// Whether the buckets stand for the registrations of `table`, one for
    /// each, in the same order.
    pub open spec fn follows(&self, table: ColorTable) -> bool {
        &&& self.buckets@.len() == table.entries@.len()
        &&& forall|k: int|
            0 <= k < self.buckets@.len() ==> (#[trigger] self.buckets@[k]).key
                == table.entries@[k].color
    }

    /// The colors found for `key`, if `key` is a registered color.
    pub fn get(&self, key: Color) -> (found: Option<&Vec<Color>>)
        ensures
            match found {
                Some(colors) => self@.contains_key(key) && self@[key] == colors@,
                None => !self@.contains_key(key),
            },
    {
        let mut k: usize = self.buckets.len();
        assert(self.buckets@.take(k as int) == self.buckets@);
        while k > 0
            invariant
                k <= self.buckets@.len(),
                self@.contains_key(key) == mapping_of(self.buckets@.take(k as int)).contains_key(
                    key,
                ),
                self@.contains_key(key) ==> self@[key] == mapping_of(
                    self.buckets@.take(k as int),
                )[key],
            decreases k,
        {
            proof {
                assert(self.buckets@.take(k as int).drop_last() == self.buckets@.take(k - 1));
            }
            k = k - 1;
            if self.buckets[k].key == key {
                return Some(&self.buckets[k].found);
            }
        }
        None
    }
}

/// The running state of a search along one path.
struct Search {
    state: usize,
    head: Point,
    points: Vec<Point>,
    trace: Vec<Hit>,
    marker: Option<usize>,
    open: Vec<(u8, usize)>,
    closed: Vec<Option<usize>>,
    closings: Ghost<Seq<(u8, nat)>>,
}

spec fn counts_of(open: Seq<(u8, usize)>) -> Seq<(u8, nat)> {
    Seq::new(open.len(), |i: int| (open[i].0, open[i].1 as nat))
}

spec fn references_of(closed: Seq<Option<usize>>) -> Map<u8, nat> {
    Map::new(|id: u8| closed[id as int] is Some, |id: u8| closed[id as int]->0 as nat)
}

impl View for Search {
    type V = Config;

    closed spec fn view(&self) -> Config {
        Config {
            state: self.state,
            head: self.head,
            points: self.points@,
            trace: self.trace@,
            marker: self.marker,
            open: counts_of(self.open@),
            closed: references_of(self.closed@),
            closings: self.closings@,
        }
    }
}

impl Search {
    spec fn inv(&self, m: Graph, g: Grid) -> bool {
        &&& self.closed@.len() == 256
        &&& self@.wf(m, g)
    }
}

fn copy_of<T: Copy>(v: &Vec<T>) -> (c: Vec<T>)
    ensures
        c@ == v@,
{
    let mut c: Vec<T> = Vec::new();
    let mut k: usize = 0;
    while k < v.len()
        invariant
            k <= v@.len(),
            c@ == v@.take(k as int),
        decreases v@.len() - k,
    {
        c.push(v[k]);
        assert(v@.take(k + 1) == v@.take(k as int).push(v@[k as int]));
        k = k + 1;
    }
    assert(v@.take(v@.len() as int) == v@);
    c
}

fn was_consumed(trace: &Vec<Hit>, p: Point) -> (found: bool)
    ensures
        found == consumed(trace@, p),
{
    let mut k: usize = 0;
    while k < trace.len()
        invariant
            k <= trace@.len(),
            forall|i: int| 0 <= i < k ==> (#[trigger] trace@[i]).at != p,
        decreases trace@.len() - k,
    {
        if trace[k].at == p {
            return true;
        }
        k = k + 1;
    }
    false
}

fn bump(open: &Vec<(u8, usize)>, Ghost(bound): Ghost<int>) -> (more: Vec<(u8, usize)>)
    requires
        bound < usize::MAX,
        forall|i: int| 0 <= i < open@.len() ==> (#[trigger] open@[i]).1 <= bound,
    ensures
        counts_of(more@) == bumped(counts_of(open@)),
{
    let mut more: Vec<(u8, usize)> = Vec::new();
    let mut k: usize = 0;
    while k < open.len()
        invariant
            k <= open@.len(),
            bound < usize::MAX,
            forall|i: int| 0 <= i < open@.len() ==> (#[trigger] open@[i]).1 <= bound,
            more@.len() == k,
            forall|i: int|
                0 <= i < k ==> (#[trigger] more@[i]).0 == open@[i].0 && more@[i].1 == open@[i].1
                    + 1,
        decreases open@.len() - k,
    {
        let group = open[k];
        more.push((group.0, group.1 + 1));
        k = k + 1;
    }
    assert(counts_of(more@) =~= bumped(counts_of(open@)));
    more
}

fn in_reference(open: &Vec<(u8, usize)>, closed: &Vec<Option<usize>>) -> (within: bool)
    requires
        closed@.len() == 256,
    ensures
        within == within_reference(counts_of(open@), references_of(closed@)),
{
    let mut k: usize = 0;
    while k < open.len()
        invariant
            k <= open@.len(),
            closed@.len() == 256,
            forall|i: int|
                0 <= i < k && references_of(closed@).contains_key(
                    (#[trigger] counts_of(open@)[i]).0,
                ) ==> counts_of(open@)[i].1 <= references_of(closed@)[counts_of(open@)[i].0],
        decreases open@.len() - k,
    {
        let group = open[k];
        match closed[group.0 as usize] {
            Some(reference) => {
                if group.1 > reference {
                    assert(references_of(closed@).contains_key(counts_of(open@)[k as int].0));
                    return false;
                }
            },
            None => {},
        }
        k = k + 1;
    }
    true
}

fn count_in(open: &Vec<(u8, usize)>, id: u8) -> (count: Option<usize>)
    ensures
        match count {
            Some(c) => running_count(counts_of(open@), id) == Some(c as nat),
            None => running_count(counts_of(open@), id) is None,
        },
{
    let ghost all = counts_of(open@);
    let mut k: usize = 0;
    assert(all.skip(0) == all);
    while k < open.len()
        invariant
            k <= open@.len(),
            all == counts_of(open@),
            running_count(all, id) == running_count(all.skip(k as int), id),
        decreases open@.len() - k,
    {
        let group = open[k];
        proof {
            assert(all.skip(k as int).drop_first() == all.skip(k + 1));
            assert(all.skip(k as int)[0] == all[k as int]);
        }
        if group.0 == id {
            return Some(group.1);
        }
        k = k + 1;
    }
    None
}

fn close_group(open: &Vec<(u8, usize)>, id: u8) -> (rest: Vec<(u8, usize)>)
    ensures
        counts_of(rest@) == without_group(counts_of(open@), id),
{
    let ghost all = counts_of(open@);
    let mut rest: Vec<(u8, usize)> = Vec::new();
    let mut k: usize = 0;
    assert(counts_of(rest@) =~= without_group(all.take(0), id));
    while k < open.len()
        invariant
            k <= open@.len(),
            all == counts_of(open@),
            counts_of(rest@) == without_group(all.take(k as int), id),
        decreases open@.len() - k,
    {
        let group = open[k];
        proof {
            assert(all.take(k + 1).drop_last() == all.take(k as int));
            assert(all.take(k + 1).last() == all[k as int]);
        }
        if group.0 != id {
            let ghost before = rest@;
            rest.push(group);
            assert(counts_of(rest@) =~= counts_of(before).push(all[k as int]));
        }
        k = k + 1;
    }
    assert(all.take(open@.len() as int) == all);
    rest
}

impl Search {
    /// The search state on arrival in `dest` with the head on `head`.
    fn arrive(&self, dest: usize, head: Point, marker: Option<usize>) -> (next: Search)
        requires
            dest < self.points@.len(),
        ensures
            next@ == self@.arrive(dest, head, marker),
            next.closed@ == self.closed@,
            next.open@ == self.open@,
            next.trace@ == self.trace@,
    {
        let mut points = copy_of(&self.points);
        points.set(dest, head);
        Search {
            state: dest,
            head,
            points,
            trace: copy_of(&self.trace),
            marker,
            open: copy_of(&self.open),
            closed: copy_of(&self.closed),
            closings: self.closings,
        }
    }
}

impl Fsm {
    /// Takes the `k`-th transition of the current state, where it can be taken.
    fn advance(&self, pic: &Picture, at: &Search, k: usize) -> (next: Option<Search>)
        requires
            self.wf(),
            pic.wf(),
            at.inv(self@, pic@),
            k < self@.states[at.state as int].len(),
        ensures
            match next {
                Some(n) => step(pic@, at@, self@.states[at.state as int][k as int]) == Some(n@)
                    && n.closed@.len() == 256,
                None => step(pic@, at@, self@.states[at.state as int][k as int]) is None,
            },
    {
        let edge = self.states[at.state].t[k];
        let dest = edge.0;
        assert(edge == self@.states[at.state as int][k as int]);
        assert(self@.edge_ok(at.state as int, edge));
        match edge.1 {
            Transition::MoveRelative(anchor, offset) => {
                let base = at.points[anchor];
                let x: i64 = base.x as i64 + offset.x as i64;
                let y: i64 = base.y as i64 + offset.y as i64;
                if 0 <= x && x < pic.width as i64 && 0 <= y && y < pic.height as i64 {
                    Some(at.arrive(dest, Point::from(x as i32, y as i32), None))
                } else {
                    None
                }
            },
            Transition::Consume(color) => {
                if pic.get_point(at.head) != color || color == white() {
                    return None;
                }
                if was_consumed(&at.trace, at.head) {
                    return None;
                }
                let mut next = at.arrive(dest, at.head, None);
                next.trace.push(Hit { key: color, at: at.head });
                proof {
                    assert forall|i: int, j: int| 0 <= i < j < next.trace@.len() implies (
                    #[trigger] next.trace@[i]).at != (#[trigger] next.trace@[j]).at by {
                        if j == at.trace@.len() {
                            assert(at.trace@[i].at != at.head);
                        }
                    }
                    lemma_trace_fits(pic@, next.trace@);
                    assert(pic@.cells.len() == pic.pixels.len());
                    assert forall|i: int| 0 <= i < at.open@.len() implies (#[trigger] at.open@[i]).1
                        <= at.trace@.len() by {
                        assert(counts_of(at.open@)[i].1 <= at.trace@.len());
                    }
                }
                let more = bump(&at.open, Ghost(at.trace@.len() as int));
                if !in_reference(&more, &at.closed) {
                    return None;
                }
                next.open = more;
                Some(next)
            },
            Transition::Epsilon => {
                match at.marker {
                    Some(back) => {
                        if back == dest {
                            return None;
                        }
                    },
                    None => {},
                }
                Some(at.arrive(dest, at.head, Some(at.state)))
            },
            Transition::Capture(id) => {
                let mut next = at.arrive(dest, at.head, Some(at.state));
                next.open.push((id, 0));
                assert(counts_of(next.open@) =~= counts_of(at.open@).push((id, 0nat)));
                Some(next)
            },
            Transition::EndCapture(id) => {
                match count_in(&at.open, id) {
                    Some(count) => {
                        match at.closed[id as usize] {
                            Some(reference) => {
                                if reference != count {
                                    return None;
                                }
                            },
                            None => {},
                        }
                        let mut next = at.arrive(dest, at.head, Some(at.state));
                        next.open = close_group(&at.open, id);
                        next.closed.set(id as usize, Some(count));
                        next.closings = Ghost(at.closings@.push((id, count as nat)));
                        assert(references_of(next.closed@) =~= references_of(at.closed@).insert(
                            id,
                            count as nat,
                        ));
                        Some(next)
                    },
                    None => None,
                }
            },
        }
    }

    /// Searches from `at`: the first accepting path in the order of the
    /// transitions decides.
    fn search(&self, pic: &Picture, at: Search) -> (end: Option<Search>)
        requires
            self.wf(),
            pic.wf(),
            at.inv(self@, pic@),
        ensures
            match end {
                Some(e) => run(self@, pic@, at@) == Some(e@),
                None => run(self@, pic@, at@) is None,
            },
        decreases unconsumed(pic@, at@.trace), self@.rank(at@.state as int, at@.marker),
    {
        let edges: usize = self.states[at.state].t.len();
        assert(edges == self@.states[at.state as int].len());
        if edges == 0 {
            return Some(at);
        }
        let mut k: usize = 0;
        while k < edges
            invariant
                self.wf(),
                pic.wf(),
                at.inv(self@, pic@),
                edges == self@.states[at.state as int].len(),
                k <= edges,
                run(self@, pic@, at@) == try_from(self@, pic@, at@, k as int),
            decreases edges - k,
        {
            match self.advance(pic, &at, k) {
                Some(next) => {
                    proof {
                        lemma_step_progress(self@, pic@, at@, k as int);
                    }
                    match self.search(pic, next) {
                        Some(end) => {
                            return Some(end);
                        },
                        None => {},
                    }
                },
                None => {},
            }
            k = k + 1;
        }
        None
    }

    /// The capture mapping of a trace over the registered colors.
    fn collect(&self, pic: &Picture, trace: &Vec<Hit>) -> (found: Captures)
        requires
            pic.wf(),
            forall|i: int| 0 <= i < trace@.len() ==> pic@.contains((#[trigger] trace@[i]).at),
        ensures
            found@ == captured(pic@, trace@, self@.colors),
            found.follows(self.colors),
    {
        let mut buckets: Vec<Bucket> = Vec::new();
        let mut k: usize = 0;
        assert(mapping_of(buckets@) =~= captured(
            pic@,
            trace@,
            roles_of(self.colors.entries@.take(0)),
        ));
        while k < self.colors.entries.len()
            invariant
                pic.wf(),
                forall|i: int| 0 <= i < trace@.len() ==> pic@.contains((#[trigger] trace@[i]).at),
                k <= self.colors.entries@.len(),
                buckets@.len() == k,
                forall|i: int|
                    0 <= i < k ==> (#[trigger] buckets@[i]).key == self.colors.entries@[i].color,
                mapping_of(buckets@) == captured(
                    pic@,
                    trace@,
                    roles_of(self.colors.entries@.take(k as int)),
                ),
            decreases self.colors.entries@.len() - k,
        {
            let key = self.colors.entries[k].color;
            let found = gather(pic, trace, key);
            let ghost before = buckets@;
            buckets.push(Bucket { key, found });
            proof {
                let entries = self.colors.entries@;
                assert(entries.take(k + 1).drop_last() == entries.take(k as int));
                assert(buckets@.drop_last() == before);
                assert(mapping_of(buckets@) =~= captured(
                    pic@,
                    trace@,
                    roles_of(entries.take(k + 1)),
                ));
            }
            k = k + 1;
        }
        assert(self.colors.entries@.take(k as int) == self.colors.entries@);
        Captures { buckets }
    }

    /// Matches the graph against the picture `p`.
    ///
    /// The search starts on the topmost, then leftmost, pixel of the function
    /// color, and follows the first accepting path in the order of the
    /// transitions. The result maps each registered color to the colors of the
    /// pixels consumed for it along that path. It is `None` where the picture
    /// has no pixel of the function color, or no path accepts.
    ///
    /// A capture group never counts beyond the count with which a group of its
    /// id closed before: the path that would do so is given up at once. A
    /// transition that ends a group which is not open cannot be taken. A pixel
    /// consumed for a color that is not registered is consumed, and appears
    /// under no color of the result. The result has one bucket for each
    /// registration of the table, in the order of the table.
    pub fn identify(&self, p: Picture) -> (result: Option<Captures>)
        requires
            self.wf(),
            p.wf(),
        ensures
            match result {
                Some(found) => outcome(self@, p@) == Some(found@) && found.follows(self.colors)
                    && (self.colors.distinct() ==> found.distinct()),
                None => outcome(self@, p@) is None,
            },
            !p@.has_color(function_color_of(self@.colors)) ==> result is None,
    {
        let function = match self.colors.function_color() {
            Some(function) => function,
            None => {
                return None;
            },
        };
        let start = match p.find_first(function) {
            Some(start) => start,
            None => {
                return None;
            },
        };
        let mut points: Vec<Point> = Vec::new();
        while points.len() < self.states.len()
            invariant
                points@.len() <= self.states@.len(),
                forall|s: int| 0 <= s < points@.len() ==> points@[s] == Point::at(0, 0),
            decreases self.states@.len() - points@.len(),
        {
            points.push(Point::zero());
        }
        points.set(0, start);
        let mut closed: Vec<Option<usize>> = Vec::new();
        while closed.len() < 256
            invariant
                closed@.len() <= 256,
                forall|id: int| 0 <= id < closed@.len() ==> closed@[id] is None,
            decreases 256 - closed@.len(),
        {
            closed.push(None);
        }
        let at = Search {
            state: 0,
            head: start,
            points,
            trace: Vec::new(),
            marker: None,
            open: Vec::new(),
            closed,
            closings: Ghost(Seq::empty()),
        };
        proof {
            let first = Config::initial(self@, start);
            assert(at@.points =~= first.points);
            assert(at@.trace =~= first.trace);
            assert(at@.open =~= first.open);
            assert(at@.closed =~= first.closed);
            assert(at@ == first);
        }
        match self.search(&p, at) {
            Some(end) => {
                proof {
                    lemma_run_keeps_wf(self@, p@, at@);
                }
                Some(self.collect(&p, &end.trace))
            },
            None => None,
        }
    }
}

/// The colors of the pixels that the trace consumed for `key`.
fn gather(pic: &Picture, trace: &Vec<Hit>, key: Color) -> (found: Vec<Color>)
    requires
        pic.wf(),
        forall|i: int| 0 <= i < trace@.len() ==> pic@.contains((#[trigger] trace@[i]).at),
    ensures
        found@ == harvest(pic@, trace@, key),
{
    let mut found: Vec<Color> = Vec::new();
    let mut k: usize = 0;
    assert(found@ =~= harvest(pic@, trace@.take(0), key));
    while k < trace.len()
        invariant
            pic.wf(),
            forall|i: int| 0 <= i < trace@.len() ==> pic@.contains((#[trigger] trace@[i]).at),
            k <= trace@.len(),
            found@ == harvest(pic@, trace@.take(k as int), key),
        decreases trace@.len() - k,
    {
        let hit = trace[k];
        proof {
            assert(trace@.take(k + 1).drop_last() == trace@.take(k as int));
            assert(trace@.take(k + 1).last() == trace@[k as int]);
        }
        if hit.key == key {
            found.push(pic.get_point(hit.at));
        }
        k = k + 1;
    }
    assert(trace@.take(k as int) == trace@);
    found
}

} // verus!
