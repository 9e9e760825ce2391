use vstd::prelude::*;
use crate::node::{Node, NodeType, UNREACHED};

verus! {

/// Number of cells along each side of the grid.
pub const GRID_SIZE: usize = 40;

pub open spec fn in_grid(c: (usize, usize)) -> bool {
    c.0 < 40 && c.1 < 40
}

/// Position of a cell in the row-major arena of cells.
pub open spec fn idx(c: (usize, usize)) -> int {
    c.1 as int * 40 + c.0 as int
}

/// The in-bounds cells left of, right of, above and below `c`, in that order.
pub open spec fn neighbors_spec(c: (usize, usize)) -> Seq<(usize, usize)> {
    let x = c.0;
    let y = c.1;
    let s1: Seq<(usize, usize)> = if x > 0 { seq![((x - 1) as usize, y)] } else { Seq::empty() };
    let s2 = if x < 39 { s1.push(((x + 1) as usize, y)) } else { s1 };
    let s3 = if y > 0 { s2.push((x, (y - 1) as usize)) } else { s2 };
    if y < 39 { s3.push((x, (y + 1) as usize)) } else { s3 }
}

pub open spec fn adjacent(a: (usize, usize), b: (usize, usize)) -> bool {
    (a.1 == b.1 && (a.0 + 1 == b.0 || b.0 + 1 == a.0))
    || (a.0 == b.0 && (a.1 + 1 == b.1 || b.1 + 1 == a.1))
}

/// Cells on the grid's border lose one neighbour per side they touch.
pub open spec fn border_sides(c: (usize, usize)) -> int {
    (if c.0 == 0 || c.0 == 39 { 1int } else { 0int }) + (if c.1 == 0 || c.1 == 39 { 1int } else { 0int })
}

/// Every neighbour is in bounds, adjacent, distinct from the cell and from the
/// others; every adjacent in-bounds cell is listed; there are 2, 3 or 4 of them.
pub proof fn lemma_neighbors(c: (usize, usize))
    requires
        in_grid(c),
    ensures
        forall|i: int| 0 <= i < neighbors_spec(c).len() ==> {
            let n = #[trigger] neighbors_spec(c)[i];
            in_grid(n) && n != c && adjacent(c, n)
        },
        forall|d: (usize, usize)| in_grid(d) && adjacent(c, d) ==> #[trigger] neighbors_spec(c).contains(d),
        neighbors_spec(c).no_duplicates(),
        neighbors_spec(c).len() == 4 - border_sides(c),
        2 <= neighbors_spec(c).len() <= 4,
{
    let s = neighbors_spec(c);
    assert forall|d: (usize, usize)| in_grid(d) && adjacent(c, d) implies #[trigger] s.contains(d) by {
        let x = c.0;
        let y = c.1;
        let s1: Seq<(usize, usize)> = if x > 0 { seq![((x - 1) as usize, y)] } else { Seq::empty() };
        let s2 = if x < 39 { s1.push(((x + 1) as usize, y)) } else { s1 };
        let s3 = if y > 0 { s2.push((x, (y - 1) as usize)) } else { s2 };
        if d.1 == y && d.0 + 1 == x {
            assert(s1[0] == d);
            assert(s2[0] == d);
            assert(s3[0] == d);
            assert(s[0] == d);
        } else if d.1 == y {
            assert(s2[s2.len() - 1] == d);
            assert(s3[s2.len() - 1] == d);
            assert(s[s2.len() - 1] == d);
        } else if d.1 + 1 == y {
            assert(s3[s3.len() - 1] == d);
            assert(s[s3.len() - 1] == d);
        } else {
            assert(s[s.len() - 1] == d);
        }
    }
}

/// Whether `a` goes before `b` in frontier selection: lower `f` first, ties
/// broken by the smaller `x`, then the smaller `y`.
pub open spec fn precedes(fa: int, a: (usize, usize), fb: int, b: (usize, usize)) -> bool {
    fa < fb || (fa == fb && (a.0 < b.0 || (a.0 == b.0 && a.1 <= b.1)))
}

/// What a neighbour becomes when it is examined from `cur`, whose cost is
/// `cur_g`, with the goal cell `goal`: it takes `cur` as its parent when that
/// is cheaper, its heuristic is its distance to the goal, and an empty cell
/// becomes explored.
pub open spec fn relaxed(n: Node, cur: (usize, usize), cur_g: int, goal: Node) -> Node {
    let better = cur_g + 1 < n.g_spec();
    Node {
        parent: if better { Some(cur) } else { n.parent },
        g: if better { (cur_g + 1) as i32 } else { n.g },
        h: n.manhattan(&goal) as i32,
        node_type: if n.node_type == NodeType::Empty { NodeType::Explored } else { n.node_type },
        ..n
    }
}

proof fn lemma_push_contains(s: Seq<(usize, usize)>, x: (usize, usize))
    ensures
        forall|c: (usize, usize)| #[trigger] s.push(x).contains(c) <==> (s.contains(c) || c == x),
{
    assert forall|c: (usize, usize)| #[trigger] s.push(x).contains(c) <==> (s.contains(c) || c == x) by {
        if s.push(x).contains(c) {
            let j = choose|j: int| 0 <= j < s.push(x).len() && s.push(x)[j] == c;
            if j < s.len() {
                assert(s[j] == c);
            }
        }
        if s.contains(c) {
            let j = choose|j: int| 0 <= j < s.len() && s[j] == c;
            assert(s.push(x)[j] == c);
        }
        if c == x {
            assert(s.push(x)[s.len() as int] == c);
        }
    }
}

proof fn lemma_remove_no_duplicates(s: Seq<(usize, usize)>, k: int)
    requires
        s.no_duplicates(),
        0 <= k < s.len(),
    ensures
        s.remove(k).no_duplicates(),
{
    let r = s.remove(k);
    assert forall|a: int, b: int| 0 <= a < b < r.len() implies r[a] != r[b] by {
        let a2 = if a < k { a } else { a + 1 };
        let b2 = if b < k { b } else { b + 1 };
        assert(r[a] == s[a2]);
        assert(r[b] == s[b2]);
    }
}

/// The incremental search engine and the grid it owns.
pub struct AStar {
    nodes: Vec<Node>,
    start_node: Option<(usize, usize)>,
    end_node: Option<(usize, usize)>,
    start_finding: bool,
    open_set: Vec<(usize, usize)>,
    trace: Option<(usize, usize)>,
    end: bool,
    exhausted: bool,
}

impl AStar {
    pub closed spec fn cell(&self, c: (usize, usize)) -> Node {
        self.nodes@[idx(c)]
    }

    pub open spec fn g_at(&self, c: (usize, usize)) -> int {
        self.cell(c).g_spec()
    }

    pub open spec fn f_at(&self, c: (usize, usize)) -> int {
        self.cell(c).g_spec() + self.cell(c).h
    }

    pub closed spec fn frontier(&self) -> Seq<(usize, usize)> {
        self.open_set@
    }

    pub closed spec fn start_cell(&self) -> Option<(usize, usize)> {
        self.start_node
    }

    pub closed spec fn end_cell(&self) -> Option<(usize, usize)> {
        self.end_node
    }

    pub closed spec fn searching(&self) -> bool {
        self.start_finding
    }

    pub closed spec fn trace_cursor(&self) -> Option<(usize, usize)> {
        self.trace
    }

    pub closed spec fn done(&self) -> bool {
        self.end
    }

    pub closed spec fn stalled(&self) -> bool {
        self.exhausted
    }

    pub closed spec fn cell_ok(&self, c: (usize, usize)) -> bool {
        let n = self.cell(c);
        &&& n.x == c.0 as i32
        &&& n.y == c.1 as i32
        &&& 0 <= n.h <= UNREACHED
        &&& 0 <= n.g <= UNREACHED
        &&& (n.node_type == NodeType::Start || n.node_type == NodeType::Empty) ==> n.parent is None
        &&& n.parent matches Some(p) ==> {
            &&& in_grid(p)
            &&& self.g_at(p) < n.g_spec()
            &&& self.cell(p).node_type != NodeType::End
            &&& self.cell(p).node_type != NodeType::Empty
        }
    }

    /// The engine's invariant: a full grid of consistent cells whose parent
    /// links lead to strictly cheaper cells, a frontier of distinct non-empty
    /// cells, and start and end markers that agree with the cells' roles.
    pub closed spec fn wf(&self) -> bool {
        &&& self.nodes@.len() == 1600
        &&& forall|c: (usize, usize)| in_grid(c) ==> #[trigger] self.cell_ok(c)
        &&& self.open_set@.no_duplicates()
        &&& forall|i: int| 0 <= i < self.open_set@.len() ==> {
            let c = #[trigger] self.open_set@[i];
            in_grid(c) && self.cell(c).node_type != NodeType::Empty && self.cell(c).node_type != NodeType::End
        }
        &&& self.trace matches Some(t) ==> {
            &&& in_grid(t)
            &&& self.cell(t).node_type != NodeType::End
            &&& self.cell(t).node_type != NodeType::Empty
        }
        &&& self.start_node matches Some(s) ==> in_grid(s) && self.cell(s).node_type == NodeType::Start
        &&& self.end_node matches Some(e) ==> in_grid(e) && self.cell(e).node_type == NodeType::End
        &&& self.start_finding ==> self.start_node is Some && self.end_node is Some
        &&& self.end_node is Some ==> self.start_node is Some
        &&& self.trace is Some ==> self.start_finding
        &&& forall|c: (usize, usize)| in_grid(c) && #[trigger] self.cell(c).node_type == NodeType::Start
            ==> self.start_node == Some(c)
        &&& forall|c: (usize, usize)| in_grid(c) && #[trigger] self.cell(c).node_type == NodeType::End
            ==> self.end_node == Some(c)
    }

    /// Updating one cell to a role other than start or end, or keeping its
    /// role, keeps the start and end markers the only start and end cells.
    proof fn lemma_markers_kept(pre: AStar, post: AStar, c: (usize, usize))
        requires
            pre.wf(),
            in_grid(c),
            post.start_node == pre.start_node,
            post.end_node == pre.end_node,
            forall|d: (usize, usize)| in_grid(d) && d != c ==> #[trigger] post.cell(d) == pre.cell(d),
            post.cell(c).node_type == pre.cell(c).node_type
                || (post.cell(c).node_type != NodeType::Start && post.cell(c).node_type != NodeType::End),
        ensures
            forall|d: (usize, usize)| in_grid(d) && #[trigger] post.cell(d).node_type == NodeType::Start
                ==> post.start_node == Some(d),
            forall|d: (usize, usize)| in_grid(d) && #[trigger] post.cell(d).node_type == NodeType::End
                ==> post.end_node == Some(d),
    {
        assert forall|d: (usize, usize)| in_grid(d) && #[trigger] post.cell(d).node_type == NodeType::Start
            implies post.start_node == Some(d) by {
            assert(pre.cell(d).node_type == NodeType::Start);
        }
        assert forall|d: (usize, usize)| in_grid(d) && #[trigger] post.cell(d).node_type == NodeType::End
            implies post.end_node == Some(d) by {
            assert(pre.cell(d).node_type == NodeType::End);
        }
    }

    /// An empty 40 by 40 grid with no search requested.
    pub fn new() -> (r: Self)
        ensures
            r.wf(),
            r.is_fresh(),
    {
        let mut nodes: Vec<Node> = Vec::new();
        let mut y: usize = 0;
        while y < GRID_SIZE
            invariant
                y <= 40,
                nodes@.len() == y * 40,
                forall|c: (usize, usize)| in_grid(c) && idx(c) < nodes@.len() ==>
                    #[trigger] nodes@[idx(c)] == Node::new_spec(c.0 as i32, c.1 as i32),
            decreases 40 - y,
        {
            let mut x: usize = 0;
            while x < GRID_SIZE
                invariant
                    y < 40,
                    x <= 40,
                    nodes@.len() == y * 40 + x,
                    forall|c: (usize, usize)| in_grid(c) && idx(c) < nodes@.len() ==>
                        #[trigger] nodes@[idx(c)] == Node::new_spec(c.0 as i32, c.1 as i32),
                decreases 40 - x,
            {
                let node = Node::new(x as i32, y as i32);
                nodes.push(node);
                assert forall|c: (usize, usize)| in_grid(c) && idx(c) < nodes@.len() implies
                    #[trigger] nodes@[idx(c)] == Node::new_spec(c.0 as i32, c.1 as i32) by {
                    if idx(c) == nodes@.len() - 1 {
                        assert(c.1 == y && c.0 == x);
                    }
                }
                x = x + 1;
            }
            y = y + 1;
        }
        let r = AStar {
            nodes,
            start_node: None,
            end_node: None,
            start_finding: false,
            open_set: Vec::new(),
            trace: None,
            end: false,
            exhausted: false,
        };
        assert forall|c: (usize, usize)| in_grid(c) implies #[trigger] r.cell_ok(c) by {
            assert(r.cell(c) == Node::new_spec(c.0 as i32, c.1 as i32));
        }
        r
    }

    /// Read access to the cell at `(x, y)`.
    pub fn node(&self, x: usize, y: usize) -> (r: &Node)
        requires
            self.wf(),
            x < 40,
            y < 40,
        ensures
            *r == self.cell((x, y)),
    {
        &self.nodes[y * GRID_SIZE + x]
    }

    /// Whether the trace-back has reached the start.
    pub fn is_done(&self) -> (r: bool)
        ensures
            r == self.done(),
    {
        self.end
    }

    /// Whether an end cell has been placed.
    pub fn has_end(&self) -> (r: bool)
        ensures
            r == (self.end_cell() is Some),
    {
        self.end_node.is_some()
    }

    /// Whether the search ran out of frontier without reaching the end.
    pub fn is_exhausted(&self) -> (r: bool)
        ensures
            r == self.stalled(),
    {
        self.exhausted
    }

    /// The in-bounds cells left of, right of, above and below `coordinate`.
    pub fn find_neighbors(&self, coordinate: (usize, usize)) -> (r: Vec<(usize, usize)>)
        requires
            in_grid(coordinate),
        ensures
            r@ == neighbors_spec(coordinate),
    {
        let (x, y) = coordinate;
        let mut neighbors: Vec<(usize, usize)> = Vec::new();
        if x > 0 {
            neighbors.push((x - 1, y));
        }
        if x < GRID_SIZE - 1 {
            neighbors.push((x + 1, y));
        }
        if y > 0 {
            neighbors.push((x, y - 1));
        }
        if y < GRID_SIZE - 1 {
            neighbors.push((x, y + 1));
        }
        proof {
            let s1: Seq<(usize, usize)> = if x > 0 { seq![((x - 1) as usize, y)] } else { Seq::empty() };
            assert(x > 0 ==> s1 == Seq::<(usize, usize)>::empty().push(((x - 1) as usize, y)));
        }
        neighbors
    }

    /// Whether the frontier entry at `k` goes before every other entry.
    pub open spec fn is_best(&self, k: int) -> bool {
        &&& 0 <= k < self.frontier().len()
        &&& forall|j: int| 0 <= j < self.frontier().len() ==>
            precedes(self.f_at(self.frontier()[k]), self.frontier()[k],
                #[trigger] self.f_at(self.frontier()[j]), self.frontier()[j])
    }

    /// Takes the best frontier entry out of the frontier and returns it.
    fn find_best_node(&mut self) -> (r: (usize, usize))
        requires
            old(self).wf(),
            old(self).open_set@.len() > 0,
        ensures
            exists|k: int| #[trigger] old(self).is_best(k)
                && r == old(self).open_set@[k]
                && final(self).open_set@ == old(self).open_set@.remove(k),
            final(self).nodes == old(self).nodes,
            final(self).start_node == old(self).start_node,
            final(self).end_node == old(self).end_node,
            final(self).start_finding == old(self).start_finding,
            final(self).trace == old(self).trace,
            final(self).end == old(self).end,
            final(self).exhausted == old(self).exhausted,
    {
        let ghost s = self.open_set@;
        let mut best: usize = 0;
        let c0 = self.open_set[0];
        proof { assert(self.cell_ok(c0)); }
        let mut best_f: i32 = self.nodes[c0.1 * GRID_SIZE + c0.0].get_f();
        let mut j: usize = 1;
        while j < self.open_set.len()
            invariant
                self.wf(),
                self.open_set@ == s,
                1 <= j <= s.len(),
                best < j,
                best_f == self.f_at(s[best as int]),
                forall|i: int| 0 <= i < j ==>
                    precedes(self.f_at(s[best as int]), s[best as int], #[trigger] self.f_at(s[i]), s[i]),
            decreases s.len() - j,
        {
            let c = self.open_set[j];
            let b = self.open_set[best];
            proof { assert(self.cell_ok(c)); assert(in_grid(s[j as int])); }
            let f = self.nodes[c.1 * GRID_SIZE + c.0].get_f();
            if f < best_f || (f == best_f && (c.0 < b.0 || (c.0 == b.0 && c.1 <= b.1))) {
                best = j;
                best_f = f;
            }
            j = j + 1;
        }
        let r = self.open_set.remove(best);
        proof { assert(old(self).is_best(best as int)); }
        r
    }

    /// One input event, from state `pre` to state `post`: a search request is
    /// honoured once both a start and an end exist; a click on an empty cell
    /// places the start, else the end, else a wall; any other click is ignored.
    pub open spec fn input_spec(pre: AStar, post: AStar, search_requested: bool,
        click: Option<(usize, usize)>) -> bool {
        &&& post.searching() == (pre.searching() || (search_requested
            && pre.start_cell() is Some && pre.end_cell() is Some))
        &&& post.trace_cursor() == pre.trace_cursor()
        &&& post.done() == pre.done()
        &&& post.stalled() == pre.stalled()
        &&& (click is None || pre.cell(click->Some_0).node_type != NodeType::Empty) ==> {
            &&& forall|d: (usize, usize)| in_grid(d) ==> #[trigger] post.cell(d) == pre.cell(d)
            &&& post.frontier() == pre.frontier()
            &&& post.start_cell() == pre.start_cell()
            &&& post.end_cell() == pre.end_cell()
        }
        &&& (click is Some && pre.cell(click->Some_0).node_type == NodeType::Empty) ==> {
            let c = click->Some_0;
            let n = pre.cell(c);
            let placed = if pre.start_cell() is None {
                Node { node_type: NodeType::Start, g: 0, ..n }
            } else if pre.end_cell() is None {
                Node { node_type: NodeType::End, ..n }
            } else {
                Node { node_type: NodeType::Wall, ..n }
            };
            &&& forall|d: (usize, usize)| in_grid(d) ==> #[trigger] post.cell(d)
                == if d == c { placed } else { pre.cell(d) }
            &&& post.frontier() == if pre.start_cell() is None {
                pre.frontier().push(c)
            } else {
                pre.frontier()
            }
            &&& post.start_cell() == if pre.start_cell() is None {
                Some(c)
            } else {
                pre.start_cell()
            }
            &&& post.end_cell() == if pre.start_cell() is Some
                && pre.end_cell() is None {
                Some(c)
            } else {
                pre.end_cell()
            }
        }
    }

    /// The placement and search-request rules. `search_requested` starts the
    /// search when a start and an end exist. A click on an empty cell makes it
    /// the start, else the end, else a wall; a click on any other cell is ignored.
    pub fn handle_input(&mut self, search_requested: bool, click: Option<(usize, usize)>)
        requires
            old(self).wf(),
            click matches Some(c) ==> in_grid(c),
        ensures
            final(self).wf(),
            AStar::input_spec(*old(self), *final(self), search_requested, click),
    {
        if search_requested && self.start_node.is_some() && self.end_node.is_some() {
            self.start_finding = true;
        }
        proof {
            assert forall|d: (usize, usize)| in_grid(d) implies #[trigger] self.cell_ok(d) by {
                assert(old(self).cell_ok(d));
            }
            AStar::lemma_markers_kept(*old(self), *self, (0, 0));
        }
        if let Some((gx, gy)) = click {
            let i = gy * GRID_SIZE + gx;
            let mut n = self.nodes[i];
            if n.node_type == NodeType::Empty {
                if self.start_node.is_none() {
                    n.set_start();
                    n.g = 0;
                    self.start_node = Some((gx, gy));
                    self.open_set.push((gx, gy));
                } else if self.end_node.is_none() {
                    n.set_end();
                    self.end_node = Some((gx, gy));
                } else {
                    n.set_wall();
                }
                self.nodes.set(i, n);
                proof {
                    let c = (gx, gy);
                    assert forall|d: (usize, usize)| in_grid(d) implies #[trigger] self.cell_ok(d) by {
                        assert(old(self).cell_ok(d));
                        if d != c {
                            assert(idx(d) != idx(c));
                        }
                        if let Some(p) = self.cell(d).parent {
                            assert(old(self).cell_ok(p));
                            if p != c {
                                assert(idx(p) != idx(c));
                            }
                        }
                    }
                    assert forall|j: int| 0 <= j < self.open_set@.len() implies {
                        let e = #[trigger] self.open_set@[j];
                        in_grid(e) && self.cell(e).node_type != NodeType::Empty
                    } by {
                        let e = self.open_set@[j];
                        if j < old(self).open_set@.len() {
                            assert(old(self).open_set@[j] == e);
                            if e != c {
                                assert(idx(e) != idx(c));
                            }
                        }
                    }
                    if let Some(s) = self.start_node {
                        if s != c { assert(idx(s) != idx(c)); }
                    }
                    if let Some(e) = self.end_node {
                        if e != c { assert(idx(e) != idx(c)); }
                    }
                    assert(forall|d: (usize, usize)| in_grid(d) && d != c ==> idx(d) != idx(c));
                    assert forall|d: (usize, usize)| in_grid(d) && #[trigger] self.cell(d).node_type == NodeType::Start
                        implies self.start_node == Some(d) by {
                        if d != c {
                            assert(old(self).cell(d).node_type == NodeType::Start);
                        }
                    }
                    assert forall|d: (usize, usize)| in_grid(d) && #[trigger] self.cell(d).node_type == NodeType::End
                        implies self.end_node == Some(d) by {
                        if d != c {
                            assert(old(self).cell(d).node_type == NodeType::End);
                        }
                    }
                    if old(self).start_node is None {
                        assert forall|j: int| 0 <= j < old(self).open_set@.len() implies
                            old(self).open_set@[j] != c by {
                            let e = old(self).open_set@[j];
                            assert(in_grid(e) && old(self).cell(e).node_type != NodeType::Empty);
                        }
                        assert(self.open_set@ == old(self).open_set@.push(c));
                        assert forall|a: int, b: int| 0 <= a < b < self.open_set@.len() implies
                            self.open_set@[a] != self.open_set@[b] by {
                            if b == self.open_set@.len() - 1 {
                                assert(old(self).open_set@[a] != c);
                            } else {
                                assert(old(self).open_set@[a] != old(self).open_set@[b]);
                            }
                        }
                    }
                }
            }
        }
    }

    /// What cell `d` becomes when frontier entry `b` is expanded: `b` is marked
    /// expanded unless it is the start, each neighbour of `b` that is neither a
    /// wall nor the start is examined from `b`, and every other cell is kept.
    pub open spec fn expanded_cell(&self, b: (usize, usize), d: (usize, usize)) -> Node {
        let n = self.cell(d);
        if d == b {
            if n.node_type == NodeType::Start { n } else { Node { node_type: NodeType::Expanded, ..n } }
        } else if neighbors_spec(b).contains(d) && n.node_type != NodeType::Wall
            && n.node_type != NodeType::Start {
            relaxed(n, b, self.g_at(b), self.cell(self.end_cell()->Some_0))
        } else {
            n
        }
    }

    /// Whether a neighbour of `b` is the end cell.
    pub open spec fn touches_end(&self, b: (usize, usize)) -> bool {
        exists|j: int| 0 <= j < neighbors_spec(b).len()
            && #[trigger] self.cell(neighbors_spec(b)[j]).node_type == NodeType::End
    }

    /// A trace-back tick: the cursor's cell is marked as path unless it is the
    /// start, and the cursor moves to its parent, or the search ends.
    pub open spec fn trace_spec(pre: AStar, post: AStar) -> bool {
        let t = pre.trace_cursor()->Some_0;
        let n = pre.cell(t);
        &&& forall|d: (usize, usize)| in_grid(d) ==> #[trigger] post.cell(d) == if d == t {
            if n.node_type == NodeType::Start { n } else { Node { node_type: NodeType::Path, ..n } }
        } else {
            pre.cell(d)
        }
        &&& post.frontier() == pre.frontier()
        &&& post.trace_cursor() == if n.parent is Some { n.parent } else { pre.trace_cursor() }
        &&& post.done() == (n.parent is None)
        &&& post.stalled() == pre.stalled()
        &&& post.start_cell() == pre.start_cell()
        &&& post.end_cell() == pre.end_cell()
        &&& post.searching() == pre.searching()
    }

    /// An expansion tick: the best frontier entry `b` leaves the frontier and
    /// is expanded (see `expanded_cell`); neighbours that were empty join the
    /// frontier, and one that is the end sets the cursor to `b`.
    pub open spec fn expand_spec(pre: AStar, post: AStar) -> bool {
        exists|k: int| #[trigger] pre.is_best(k) && {
            let b = pre.frontier()[k];
            &&& forall|d: (usize, usize)| in_grid(d) ==>
                #[trigger] post.cell(d) == pre.expanded_cell(b, d)
            &&& forall|c: (usize, usize)| #[trigger] post.frontier().contains(c) <==>
                ((pre.frontier().contains(c) && c != b)
                || (neighbors_spec(b).contains(c) && pre.cell(c).node_type == NodeType::Empty))
            &&& post.frontier().no_duplicates()
            &&& post.trace_cursor() == if pre.touches_end(b) { Some(b) } else { None }
            &&& post.done() == pre.done()
            &&& post.stalled() == pre.stalled()
            &&& post.start_cell() == pre.start_cell()
            &&& post.end_cell() == pre.end_cell()
            &&& post.searching() == pre.searching()
        }
    }

    /// Whether `post` agrees with `pre` on every cell, the frontier, the
    /// markers and the flags, but for the exhausted flag, which is `stalled`.
    pub open spec fn unchanged_but_stalled(pre: AStar, post: AStar, stalled: bool) -> bool {
        &&& forall|d: (usize, usize)| in_grid(d) ==> #[trigger] post.cell(d) == pre.cell(d)
        &&& post.frontier() == pre.frontier()
        &&& post.start_cell() == pre.start_cell()
        &&& post.end_cell() == pre.end_cell()
        &&& post.searching() == pre.searching()
        &&& post.trace_cursor() == pre.trace_cursor()
        &&& post.done() == pre.done()
        &&& post.stalled() == stalled
    }

    /// One tick of the engine, from state `pre` to state `post`.
    ///
    /// Once done, nothing changes. While a trace cursor is set, its cell is
    /// marked as path (the start keeps its role) and the cursor moves to the
    /// cell's parent; a cell without a parent ends the search. Otherwise, while
    /// searching, an empty frontier marks the search exhausted, and a non-empty
    /// one has its best entry removed and expanded: neighbours that were empty
    /// join the frontier, and a neighbour that is the end sets the cursor to
    /// the expanded cell.
    pub open spec fn step_spec(pre: AStar, post: AStar) -> bool {
        if pre.done() {
            AStar::unchanged_but_stalled(pre, post, pre.stalled())
        } else if pre.trace_cursor() is Some {
            AStar::trace_spec(pre, post)
        } else if !pre.searching() {
            AStar::unchanged_but_stalled(pre, post, pre.stalled())
        } else if pre.frontier().len() == 0 {
            AStar::unchanged_but_stalled(pre, post, true)
        } else {
            AStar::expand_spec(pre, post)
        }
    }

    /// Examines neighbour `nb` from the expanded cell `cur`, whose contents
    /// before expansion are `node`, towards the goal cell `goal`.
    fn relax_neighbor(&mut self, node: Node, cur: (usize, usize), nb: (usize, usize), goal: Node)
        requires
            old(self).wf(),
            in_grid(cur),
            in_grid(nb),
            nb != cur,
            node.g_spec() == old(self).g_at(cur),
            node.x == cur.0 as i32,
            node.y == cur.1 as i32,
            0 <= goal.x < 40,
            0 <= goal.y < 40,
            old(self).cell(nb).node_type != NodeType::Wall,
            old(self).cell(nb).node_type != NodeType::Start,
            old(self).cell(cur).node_type != NodeType::End,
            old(self).cell(cur).node_type != NodeType::Empty,
            old(self).start_finding,
        ensures
            final(self).wf(),
            final(self).nodes@ == old(self).nodes@.update(idx(nb),
                relaxed(old(self).cell(nb), cur, node.g_spec(), goal)),
            final(self).open_set@ == if old(self).cell(nb).node_type == NodeType::Empty {
                old(self).open_set@.push(nb)
            } else {
                old(self).open_set@
            },
            final(self).trace == if old(self).cell(nb).node_type == NodeType::End {
                Some(cur)
            } else {
                old(self).trace
            },
            final(self).start_node == old(self).start_node,
            final(self).end_node == old(self).end_node,
            final(self).start_finding == old(self).start_finding,
            final(self).end == old(self).end,
            final(self).exhausted == old(self).exhausted,
    {
        let i = nb.1 * GRID_SIZE + nb.0;
        let mut neighbor = self.nodes[i];
        proof {
            assert(old(self).cell_ok(nb));
            assert(old(self).cell_ok(cur));
        }
        let g = node.get_g() + 1;
        if g < neighbor.get_g() {
            neighbor.set_parent(&node);
        }
        neighbor.h = neighbor.distance(&goal);
        let t = neighbor.node_type;
        if t == NodeType::Empty {
            neighbor.set_explored();
            self.open_set.push(nb);
        } else if t == NodeType::End {
            self.trace = Some(cur);
        }
        self.nodes.set(i, neighbor);
        proof {
            assert(neighbor == relaxed(old(self).cell(nb), cur, node.g_spec(), goal));
            assert(forall|d: (usize, usize)| in_grid(d) && d != nb ==> idx(d) != idx(nb));
            AStar::lemma_markers_kept(*old(self), *self, nb);
            assert forall|d: (usize, usize)| in_grid(d) implies #[trigger] self.cell_ok(d) by {
                assert(old(self).cell_ok(d));
                if let Some(p) = self.cell(d).parent {
                    if d != nb {
                        assert(old(self).cell_ok(p));
                    }
                }
            }
            if t == NodeType::Empty {
                lemma_push_contains(old(self).open_set@, nb);
                assert forall|j: int| 0 <= j < old(self).open_set@.len() implies
                    old(self).open_set@[j] != nb by {
                    let e = old(self).open_set@[j];
                    assert(in_grid(e) && old(self).cell(e).node_type != NodeType::Empty);
                }
                assert forall|a: int, b: int| 0 <= a < b < self.open_set@.len() implies
                    self.open_set@[a] != self.open_set@[b] by {
                    if b == self.open_set@.len() - 1 {
                        assert(old(self).open_set@[a] != nb);
                    } else {
                        assert(old(self).open_set@[a] != old(self).open_set@[b]);
                    }
                }
            }
            assert forall|j: int| 0 <= j < self.open_set@.len() implies {
                let e = #[trigger] self.open_set@[j];
                in_grid(e) && self.cell(e).node_type != NodeType::Empty
            } by {
                if j < old(self).open_set@.len() {
                    let e = old(self).open_set@[j];
                    assert(in_grid(e) && old(self).cell(e).node_type != NodeType::Empty);
                }
            }
            if let Some(tr) = self.trace {
                if tr == cur {
                    assert(idx(cur) != idx(nb));
                } else if tr != nb {
                    assert(idx(tr) != idx(nb));
                }
            }
        }
    }

    /// Marks the trace cursor's cell as path and moves the cursor to its parent.
    fn trace_step(&mut self)
        requires
            old(self).wf(),
            old(self).trace is Some,
            !old(self).end,
        ensures
            final(self).wf(),
            AStar::trace_spec(*old(self), *final(self)),
    {
        let (x, y) = self.trace.unwrap();
        let i = y * GRID_SIZE + x;
        let mut n = self.nodes[i];
        let ghost n0 = n;
        if n.node_type != NodeType::Start {
            n.set_path();
        }
        self.nodes.set(i, n);
        match n.parent {
            Some(p) => {
                self.trace = Some(p);
            },
            None => {
                self.end = true;
            },
        }
        proof {
            let t = (x, y);
            assert(old(self).cell_ok(t));
            assert(forall|d: (usize, usize)| in_grid(d) && d != t ==> idx(d) != idx(t));
            AStar::lemma_markers_kept(*old(self), *self, t);
            assert forall|d: (usize, usize)| in_grid(d) implies #[trigger] self.cell_ok(d) by {
                assert(old(self).cell_ok(d));
                if let Some(p) = self.cell(d).parent {
                    assert(old(self).cell_ok(p));
                }
            }
            assert forall|j: int| 0 <= j < self.open_set@.len() implies {
                let e = #[trigger] self.open_set@[j];
                in_grid(e) && self.cell(e).node_type != NodeType::Empty
            } by {
                let e = self.open_set@[j];
                assert(in_grid(e) && old(self).cell(e).node_type != NodeType::Empty);
            }
        }
    }

    /// Removes the best frontier entry and expands it.
    #[verifier::rlimit(50)]
    fn expand_step(&mut self)
        requires
            old(self).wf(),
            old(self).trace is None,
            old(self).start_finding,
            old(self).open_set@.len() > 0,
        ensures
            final(self).wf(),
            AStar::expand_spec(*old(self), *final(self)),
    {
        let ghost pre = *self;
        let (x, y) = self.find_best_node();
        let ghost b = (x, y);
        let ghost k = choose|k: int| pre.is_best(k) && b == pre.open_set@[k]
            && self.open_set@ == pre.open_set@.remove(k);
        proof {
            assert(pre.open_set@[k] == b);
            assert(in_grid(b));
            assert(pre.cell_ok(b));
            assert forall|d: (usize, usize)| in_grid(d) implies #[trigger] self.cell_ok(d) by {
                assert(pre.cell_ok(d));
            }
            assert forall|j: int| 0 <= j < self.open_set@.len() implies {
                let e = #[trigger] self.open_set@[j];
                in_grid(e) && self.cell(e).node_type != NodeType::Empty
            } by {
                if j < k {
                    assert(self.open_set@[j] == pre.open_set@[j]);
                } else {
                    assert(self.open_set@[j] == pre.open_set@[j + 1]);
                }
            }
        }
        let bi = y * GRID_SIZE + x;
        let node = self.nodes[bi];
        let (ex, ey) = self.end_node.unwrap();
        let end_node = self.nodes[ey * GRID_SIZE + ex];
        proof {
            assert(pre.cell_ok((ex, ey)));
        }
        if node.node_type != NodeType::Start {
            let mut m = node;
            m.set_expanded();
            self.nodes.set(bi, m);
        }
        proof {
            assert(forall|d: (usize, usize)| in_grid(d) && d != b ==> idx(d) != idx(b));
            AStar::lemma_markers_kept(pre, *self, b);
            assert forall|d: (usize, usize)| in_grid(d) implies #[trigger] self.cell_ok(d) by {
                assert(pre.cell_ok(d));
                if let Some(p) = self.cell(d).parent {
                    assert(pre.cell_ok(p));
                }
            }
            assert forall|j: int| 0 <= j < self.open_set@.len() implies {
                let e = #[trigger] self.open_set@[j];
                in_grid(e) && self.cell(e).node_type != NodeType::Empty
            } by {
                if j < k {
                    assert(self.open_set@[j] == pre.open_set@[j]);
                } else {
                    assert(self.open_set@[j] == pre.open_set@[j + 1]);
                }
            }
            assert(pre.open_set@.no_duplicates());
            assert forall|c: (usize, usize)| #[trigger] self.open_set@.contains(c) <==>
                (pre.open_set@.contains(c) && c != b) by {
                if self.open_set@.contains(c) {
                    let j = choose|j: int| 0 <= j < self.open_set@.len() && self.open_set@[j] == c;
                    if j < k {
                        assert(self.open_set@[j] == pre.open_set@[j]);
                    } else {
                        assert(self.open_set@[j] == pre.open_set@[j + 1]);
                    }
                }
                if pre.open_set@.contains(c) && c != b {
                    let j = choose|j: int| 0 <= j < pre.open_set@.len() && pre.open_set@[j] == c;
                    if j < k {
                        assert(self.open_set@[j] == c);
                    } else {
                        assert(self.open_set@[j - 1] == c);
                    }
                }
            }
            lemma_neighbors(b);
            lemma_remove_no_duplicates(pre.open_set@, k);
        }
        let neighbors = self.find_neighbors((x, y));
        let ghost nbrs = neighbors@;
        let mut i: usize = 0;
        while i < neighbors.len()
            invariant
                self.wf(),
                neighbors@ == nbrs,
                nbrs == neighbors_spec(b),
                b == (x, y),
                in_grid(b),
                0 <= i <= nbrs.len(),
                pre.wf(),
                pre.end_node == Some((ex, ey)),
                node == pre.cell(b),
                pre.cell_ok(b),
                pre.cell(b).node_type != NodeType::End,
                pre.cell(b).node_type != NodeType::Empty,
                end_node == pre.cell((ex, ey)),
                0 <= end_node.x < 40,
                0 <= end_node.y < 40,
                self.start_node == pre.start_node,
                self.end_node == pre.end_node,
                self.start_finding == pre.start_finding,
                pre.start_finding,
                self.end == pre.end,
                self.exhausted == pre.exhausted,
                forall|d: (usize, usize)| in_grid(d) ==> #[trigger] self.cell(d) ==
                    if d == b || nbrs.subrange(0, i as int).contains(d) {
                        pre.expanded_cell(b, d)
                    } else {
                        pre.cell(d)
                    },
                forall|c: (usize, usize)| #[trigger] self.open_set@.contains(c) <==>
                    ((pre.open_set@.contains(c) && c != b)
                    || (nbrs.subrange(0, i as int).contains(c) && pre.cell(c).node_type == NodeType::Empty)),
                self.trace == if (exists|j: int| 0 <= j < i
                    && #[trigger] pre.cell(nbrs[j]).node_type == NodeType::End) {
                    Some(b)
                } else {
                    None::<(usize, usize)>
                },
            decreases nbrs.len() - i,
        {
            let (nx, ny) = neighbors[i];
            let ghost nb = (nx, ny);
            proof {
                assert(nbrs[i as int] == nb);
                assert(nbrs.subrange(0, i as int).contains(nb) ==> false) by {
                    if nbrs.subrange(0, i as int).contains(nb) {
                        let j = choose|j: int| 0 <= j < i && nbrs.subrange(0, i as int)[j] == nb;
                        assert(nbrs[j] == nbrs[i as int]);
                    }
                }
                assert(self.cell(nb) == pre.cell(nb));
            }
            let ghost mid = *self;
            proof {
                assert(self.cell(b) == pre.expanded_cell(b, b));
                assert(self.g_at(b) == node.g_spec());
                lemma_push_contains(mid.open_set@, nb);
            }
            let t = self.nodes[ny * GRID_SIZE + nx].node_type;
            if t != NodeType::Wall && t != NodeType::Start {
                self.relax_neighbor(node, (x, y), (nx, ny), end_node);
            }
            proof {
                let sub = nbrs.subrange(0, i as int);
                let sub2 = nbrs.subrange(0, i as int + 1);
                assert(sub2 == sub.push(nb));
                assert(forall|d: (usize, usize)| in_grid(d) && d != nb ==> idx(d) != idx(nb));
                assert forall|d: (usize, usize)| in_grid(d) implies #[trigger] self.cell(d) ==
                    if d == b || sub2.contains(d) { pre.expanded_cell(b, d) } else { pre.cell(d) } by {
                    if d == nb {
                        assert(nbrs.contains(nb));
                        assert(sub2[i as int] == nb);
                    } else {
                        assert(sub2.contains(d) <==> sub.contains(d)) by {
                            if sub2.contains(d) {
                                let j = choose|j: int| 0 <= j < sub2.len() && sub2[j] == d;
                                assert(sub[j] == d);
                            }
                            if sub.contains(d) {
                                let j = choose|j: int| 0 <= j < sub.len() && sub[j] == d;
                                assert(sub2[j] == d);
                            }
                        }
                    }
                }
                assert forall|c: (usize, usize)| #[trigger] self.open_set@.contains(c) <==>
                    ((pre.open_set@.contains(c) && c != b)
                    || (sub2.contains(c) && pre.cell(c).node_type == NodeType::Empty)) by {
                    assert(sub2.contains(c) <==> (sub.contains(c) || c == nb)) by {
                        if sub2.contains(c) {
                            let j = choose|j: int| 0 <= j < sub2.len() && sub2[j] == c;
                            if j < i {
                                assert(sub[j] == c);
                            }
                        }
                        if sub.contains(c) {
                            let j = choose|j: int| 0 <= j < sub.len() && sub[j] == c;
                            assert(sub2[j] == c);
                        }
                        if c == nb {
                            assert(sub2[i as int] == c);
                        }
                    }
                    if c == nb && pre.cell(nb).node_type == NodeType::Empty {
                        assert(self.open_set@.last() == nb);
                    }
                }
                if pre.cell(nb).node_type == NodeType::End {
                    assert(pre.cell(nbrs[i as int]).node_type == NodeType::End);
                }
            }
            i = i + 1;
        }
        proof {
            assert(nbrs.subrange(0, nbrs.len() as int) == nbrs);
            assert(pre.is_best(k));
            assert forall|d: (usize, usize)| in_grid(d) implies #[trigger] self.cell(d) == pre.expanded_cell(b, d) by {
            }
            assert(pre.touches_end(b) == (exists|j: int| 0 <= j < nbrs.len()
                && #[trigger] pre.cell(nbrs[j]).node_type == NodeType::End));
        }
    }

    /// Advances the engine by one tick (see `step_spec`).
    pub fn path_find(&mut self)
        requires
            old(self).wf(),
        ensures
            final(self).wf(),
            AStar::step_spec(*old(self), *final(self)),
    {
        if self.end {
            return;
        }
        if self.trace.is_some() {
            self.trace_step();
            return;
        }
        if !self.start_finding {
            return;
        }
        if self.open_set.len() == 0 {
            self.exhausted = true;
            proof {
                assert forall|d: (usize, usize)| in_grid(d) implies #[trigger] self.cell_ok(d) by {
                    assert(old(self).cell_ok(d));
                }
                AStar::lemma_markers_kept(*old(self), *self, (0, 0));
            }
            return;
        }
        self.expand_step();
    }

    /// Whether following parent links from `c` reaches a cell without a parent
    /// within `fuel` steps.
    pub open spec fn chain_ends(&self, c: (usize, usize), fuel: nat) -> bool
        decreases fuel,
    {
        match self.cell(c).parent {
            None => true,
            Some(p) => if fuel == 0 { false } else { self.chain_ends(p, (fuel - 1) as nat) },
        }
    }

    proof fn lemma_chain_ends_within(&self, c: (usize, usize), fuel: nat)
        requires
            self.wf(),
            in_grid(c),
            fuel >= self.g_at(c),
        ensures
            self.chain_ends(c, fuel),
        decreases fuel,
    {
        assert(self.cell_ok(c));
        if let Some(p) = self.cell(c).parent {
            assert(self.cell_ok(p));
            self.lemma_chain_ends_within(p, (fuel - 1) as nat);
        }
    }

    /// The start's cost is 0; every cost lies between 0 and `UNREACHED`; a
    /// parent is strictly cheaper than its child; so the parent links hold no
    /// cycle, and following them from any cell ends, at a cell without a
    /// parent, within as many steps as the cell's cost.
    pub proof fn lemma_parent_chain(&self, c: (usize, usize))
        requires
            self.wf(),
            in_grid(c),
        ensures
            self.cell(c).node_type == NodeType::Start ==> self.g_at(c) == 0,
            0 <= self.g_at(c) <= UNREACHED,
            self.cell(c).parent matches Some(p) ==> in_grid(p) && self.g_at(p) < self.g_at(c),
            self.chain_ends(c, self.g_at(c) as nat),
            self.chain_ends(c, UNREACHED as nat),
    {
        assert(self.cell_ok(c));
        self.lemma_chain_ends_within(c, self.g_at(c) as nat);
        self.lemma_chain_ends_within(c, UNREACHED as nat);
    }

    /// Once the search is done, a tick changes nothing.
    pub proof fn lemma_done_is_final(pre: AStar, post: AStar)
        requires
            pre.done(),
            AStar::step_spec(pre, post),
        ensures
            AStar::unchanged_but_stalled(pre, post, pre.stalled()),
            forall|d: (usize, usize)| in_grid(d) ==> #[trigger] post.cell(d) == pre.cell(d),
    {
    }

    /// Two states that agree on every cell, on the frontier as a set, and on
    /// the engine's flags and markers.
    pub open spec fn same_view(&self, other: &AStar) -> bool {
        &&& forall|d: (usize, usize)| in_grid(d) ==> #[trigger] self.cell(d) == other.cell(d)
        &&& forall|c: (usize, usize)| #[trigger] self.frontier().contains(c) <==> other.frontier().contains(c)
        &&& self.start_cell() == other.start_cell()
        &&& self.end_cell() == other.end_cell()
        &&& self.searching() == other.searching()
        &&& self.trace_cursor() == other.trace_cursor()
        &&& self.done() == other.done()
        &&& self.stalled() == other.stalled()
    }

    /// A tick is deterministic: from states that agree, however their
    /// frontiers are ordered, it reaches states that agree. The frontier's
    /// best entry is unique because ties in cost are broken by coordinates.
    pub proof fn lemma_step_deterministic(a: AStar, b: AStar, a2: AStar, b2: AStar)
        requires
            a.wf(),
            b.wf(),
            a.same_view(&b),
            AStar::step_spec(a, a2),
            AStar::step_spec(b, b2),
        ensures
            a2.same_view(&b2),
    {
        if a.end {
        } else if a.trace is Some {
            let t = a.trace->Some_0;
            assert(a.cell(t) == b.cell(t));
            assert forall|d: (usize, usize)| in_grid(d) implies #[trigger] a2.cell(d) == b2.cell(d) by {
                assert(a.cell(d) == b.cell(d));
            }
        } else if !a.start_finding {
        } else if a.open_set@.len() == 0 {
            if b.open_set@.len() > 0 {
                assert(b.open_set@.contains(b.open_set@[0]));
                assert(a.open_set@.contains(b.open_set@[0]));
            }
            assert(b.open_set@.len() == 0);
            assert forall|d: (usize, usize)| in_grid(d) implies #[trigger] a2.cell(d) == b2.cell(d) by {
                assert(a.cell(d) == b.cell(d));
            }
        } else {
            assert(a.open_set@.contains(a.open_set@[0]));
            let ka = choose|k: int| #[trigger] a.is_best(k) && {
                let x = a.open_set@[k];
                &&& forall|d: (usize, usize)| in_grid(d) ==> #[trigger] a2.cell(d) == a.expanded_cell(x, d)
                &&& forall|c: (usize, usize)| #[trigger] a2.open_set@.contains(c) <==>
                    ((a.open_set@.contains(c) && c != x)
                    || (neighbors_spec(x).contains(c) && a.cell(c).node_type == NodeType::Empty))
                &&& a2.trace == if a.touches_end(x) { Some(x) } else { None }
            };
            let kb = choose|k: int| #[trigger] b.is_best(k) && {
                let x = b.open_set@[k];
                &&& forall|d: (usize, usize)| in_grid(d) ==> #[trigger] b2.cell(d) == b.expanded_cell(x, d)
                &&& forall|c: (usize, usize)| #[trigger] b2.open_set@.contains(c) <==>
                    ((b.open_set@.contains(c) && c != x)
                    || (neighbors_spec(x).contains(c) && b.cell(c).node_type == NodeType::Empty))
                &&& b2.trace == if b.touches_end(x) { Some(x) } else { None }
            };
            let xa = a.open_set@[ka];
            let xb = b.open_set@[kb];
            assert(a.open_set@[ka] == xa);
            assert(a.open_set@.contains(xa));
            assert(b.open_set@[kb] == xb);
            assert(b.open_set@.contains(xb));
            assert(b.open_set@.contains(xa));
            assert(a.open_set@.contains(xb));
            let ja = choose|j: int| 0 <= j < a.open_set@.len() && a.open_set@[j] == xb;
            let jb = choose|j: int| 0 <= j < b.open_set@.len() && b.open_set@[j] == xa;
            assert(a.open_set@[ja] == xb);
            assert(b.open_set@[jb] == xa);
            assert(a.cell(xa) == b.cell(xa));
            assert(a.cell(xb) == b.cell(xb));
            assert(precedes(a.f_at(xa), xa, a.f_at(xb), xb));
            assert(precedes(b.f_at(xb), xb, b.f_at(xa), xa));
            assert(xa == xb);
            assert(a.end_node == b.end_node);
            assert(a.cell(a.end_node->Some_0) == b.cell(b.end_node->Some_0));
            assert forall|d: (usize, usize)| in_grid(d) implies #[trigger] a2.cell(d) == b2.cell(d) by {
                assert(a.cell(d) == b.cell(d));
                assert(a.cell(xa) == b.cell(xa));
            }
            assert forall|c: (usize, usize)| #[trigger] a2.open_set@.contains(c) <==> b2.open_set@.contains(c) by {
                assert(a.open_set@.contains(c) <==> b.open_set@.contains(c));
                if neighbors_spec(xa).contains(c) {
                    lemma_neighbors(xa);
                    let j = choose|j: int| 0 <= j < neighbors_spec(xa).len() && neighbors_spec(xa)[j] == c;
                    assert(in_grid(neighbors_spec(xa)[j]));
                    assert(a.cell(c) == b.cell(c));
                }
            }
            assert(a.touches_end(xa) == b.touches_end(xa)) by {
                lemma_neighbors(xa);
                if a.touches_end(xa) {
                    let j = choose|j: int| 0 <= j < neighbors_spec(xa).len()
                        && #[trigger] a.cell(neighbors_spec(xa)[j]).node_type == NodeType::End;
                    assert(in_grid(neighbors_spec(xa)[j]));
                    assert(b.cell(neighbors_spec(xa)[j]).node_type == NodeType::End);
                }
                if b.touches_end(xa) {
                    let j = choose|j: int| 0 <= j < neighbors_spec(xa).len()
                        && #[trigger] b.cell(neighbors_spec(xa)[j]).node_type == NodeType::End;
                    assert(in_grid(neighbors_spec(xa)[j]));
                    assert(a.cell(neighbors_spec(xa)[j]).node_type == NodeType::End);
                }
            }
        }
    }

    /// An input event is deterministic: from states that agree, the same event
    /// reaches states that agree.
    pub proof fn lemma_input_deterministic(a: AStar, b: AStar, a2: AStar, b2: AStar,
        search_requested: bool, click: Option<(usize, usize)>)
        requires
            a.same_view(&b),
            click matches Some(c) ==> in_grid(c),
            AStar::input_spec(a, a2, search_requested, click),
            AStar::input_spec(b, b2, search_requested, click),
        ensures
            a2.same_view(&b2),
    {
        if let Some(c) = click {
            assert(a.cell(c) == b.cell(c));
            if a.cell(c).node_type == NodeType::Empty && a.start_node is None {
                lemma_push_contains(a.open_set@, c);
                lemma_push_contains(b.open_set@, c);
            }
        }
        assert forall|d: (usize, usize)| in_grid(d) implies #[trigger] a2.cell(d) == b2.cell(d) by {
            assert(a.cell(d) == b.cell(d));
        }
    }

    /// What the engine's invariant guarantees: the start and end markers name
    /// the only start and end cells; an end is placed only after a start; a
    /// search runs only with both; a trace cursor is set only while searching;
    /// the frontier holds distinct in-bounds cells that are neither empty nor
    /// the end; and each cell knows its own coordinates and has a cost between
    /// 0 and `UNREACHED`, a parent only if it is neither the start nor empty,
    /// and then a parent that is in bounds, not empty, not the end, and cheaper.
    pub proof fn lemma_wf_facts(&self)
        requires
            self.wf(),
        ensures
            self.start_cell() matches Some(s) ==> in_grid(s) && self.cell(s).node_type == NodeType::Start,
            self.end_cell() matches Some(e) ==> in_grid(e) && self.cell(e).node_type == NodeType::End,
            forall|c: (usize, usize)| in_grid(c) && #[trigger] self.cell(c).node_type == NodeType::Start
                ==> self.start_cell() == Some(c),
            forall|c: (usize, usize)| in_grid(c) && #[trigger] self.cell(c).node_type == NodeType::End
                ==> self.end_cell() == Some(c),
            self.end_cell() is Some ==> self.start_cell() is Some,
            self.searching() ==> self.start_cell() is Some && self.end_cell() is Some,
            self.trace_cursor() matches Some(t) ==> self.searching() && in_grid(t),
            self.frontier().no_duplicates(),
            forall|i: int| 0 <= i < self.frontier().len() ==> {
                let c = #[trigger] self.frontier()[i];
                &&& in_grid(c)
                &&& self.cell(c).node_type != NodeType::Empty
                &&& self.cell(c).node_type != NodeType::End
            },
            forall|c: (usize, usize)| in_grid(c) ==> {
                let n = #[trigger] self.cell(c);
                &&& n.x == c.0 as i32
                &&& n.y == c.1 as i32
                &&& 0 <= n.g_spec() <= UNREACHED
                &&& 0 <= n.h <= UNREACHED
                &&& (n.node_type == NodeType::Start || n.node_type == NodeType::Empty) ==> n.parent is None
                &&& n.parent matches Some(p) ==> {
                    &&& in_grid(p)
                    &&& self.g_at(p) < n.g_spec()
                    &&& self.cell(p).node_type != NodeType::End
                    &&& self.cell(p).node_type != NodeType::Empty
                }
            },
    {
        assert forall|c: (usize, usize)| in_grid(c) implies {
            let n = #[trigger] self.cell(c);
            &&& n.x == c.0 as i32
            &&& n.y == c.1 as i32
            &&& 0 <= n.g_spec() <= UNREACHED
            &&& 0 <= n.h <= UNREACHED
            &&& (n.node_type == NodeType::Start || n.node_type == NodeType::Empty) ==> n.parent is None
            &&& n.parent matches Some(p) ==> {
                &&& in_grid(p)
                &&& self.g_at(p) < n.g_spec()
                &&& self.cell(p).node_type != NodeType::End
                &&& self.cell(p).node_type != NodeType::Empty
            }
        } by {
            assert(self.cell_ok(c));
        }
    }

    /// The state of a newly made engine: every cell fresh and empty, no
    /// frontier, no markers, no search, no cursor, not done, not exhausted.
    pub open spec fn is_fresh(&self) -> bool {
        &&& forall|c: (usize, usize)| in_grid(c) ==>
            #[trigger] self.cell(c) == Node::new_spec(c.0 as i32, c.1 as i32)
        &&& self.frontier().len() == 0
        &&& self.start_cell() is None
        &&& self.end_cell() is None
        &&& !self.searching()
        &&& self.trace_cursor() is None
        &&& !self.done()
        &&& !self.stalled()
    }

    /// Two newly made engines agree, so the same events from them reach
    /// states that agree (see the two determinism lemmas).
    pub proof fn lemma_fresh_engines_agree(a: AStar, b: AStar)
        requires
            a.is_fresh(),
            b.is_fresh(),
        ensures
            a.same_view(&b),
    {
        assert forall|c: (usize, usize)| #[trigger] a.frontier().contains(c) <==> b.frontier().contains(c) by {
            if a.frontier().contains(c) {
                let j = choose|j: int| 0 <= j < a.frontier().len() && a.frontier()[j] == c;
            }
            if b.frontier().contains(c) {
                let j = choose|j: int| 0 <= j < b.frontier().len() && b.frontier()[j] == c;
            }
        }
    }
}

} // verus!
