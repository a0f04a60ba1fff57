use vstd::prelude::*;

use crate::maze::{Maze, MAX_SIDE, back_step, is_dir, md, step, walk, lemma_walk_snoc, lemma_route_snoc, lemma_route_split, lemma_route_end, lemma_md_route};

verus! {

/// A frontier entry: `value` is a cell id, `key` the negated estimated total
/// cost, so that the entry with the greatest key is the most promising one.
#[derive(Eq, PartialEq, Clone, Copy, Debug)]
pub struct Pair {
    pub key: i32,
    pub value: usize,
}

impl Pair {
    pub fn new(key: i32, value: usize) -> (p: Pair)
        ensures
            p.key == key,
            p.value == value,
    {
        Pair { key, value }
    }
}

/// Per-cell search state. `x` and `y` hold the grid's width and height, so a
/// node can compute its own cell id; `pos` is the cell's coordinate.
///
/// `g` is the best known number of moves from the cell to the search root
/// (`-1` while the cell has not been reached), `h` the Manhattan estimate of
/// the remaining distance to the search target, `best_pred` the id of the
/// neighbor through which the best `g` was found, and `direction` the move
/// that leads from this cell to that neighbor.
#[derive(Eq, PartialEq, Clone, Copy, Debug)]
pub struct Node {
    pub pos: [i32; 2],
    pub x: i32,
    pub y: i32,
    pub g: i32,
    pub h: i32,
    pub best_pred: usize,
    pub direction: char,
}

impl Node {
    /// An unreached node for the cell with id `i` on an `x` by `y` grid.
    pub fn new(i: i32, x: i32, y: i32) -> (n: Node)
        requires
            1 <= x,
            0 <= i,
        ensures
            n.pos@[0] == i as int % x as int,
            n.pos@[1] == i as int / x as int,
            n.x == x,
            n.y == y,
            n.g == -1,
            n.h == -1,
            n.best_pred == 0,
            n.direction == '@',
    {
        Node::from_pos([i % x, i / x], x, y)
    }

    /// An unreached node at the coordinate `pos` on an `x` by `y` grid.
    pub fn from_pos(pos: [i32; 2], x: i32, y: i32) -> (n: Node)
        ensures
            n.pos == pos,
            n.x == x,
            n.y == y,
            n.g == -1,
            n.h == -1,
            n.best_pred == 0,
            n.direction == '@',
    {
        Node { pos, x, y, g: -1, h: -1, best_pred: 0, direction: '@' }
    }

    /// The cell id: cells are numbered row by row.
    pub fn id(&self) -> (r: usize)
        requires
            1 <= self.x <= MAX_SIDE as i32,
            0 <= self.pos@[0] < self.x,
            0 <= self.pos@[1] <= MAX_SIDE as i32,
        ensures
            r as int == self.pos@[1] as int * self.x as int + self.pos@[0] as int,
    {
        proof {
            assert(0 <= self.x as int * self.pos@[1] as int <= 4096 * 4096) by (nonlinear_arith)
                requires
                    0 <= self.pos@[1] as int <= 4096,
                    0 <= self.x as int <= 4096,
            ;
        }
        (self.x * self.pos[1] + self.pos[0]) as usize
    }

    /// The frontier key: the negated sum of cost so far and estimated
    /// remaining cost, so that a greatest-key frontier acts as a min-heap.
    pub fn f(&self) -> (r: i32)
        requires
            0 <= self.g + self.h,
            self.g + self.h < 0x40000000,
        ensures
            r == -(self.g + self.h),
    {
        -(self.g + self.h)
    }

    pub fn x(&self) -> (r: i32)
        ensures
            r == self.pos@[0],
    {
        self.pos[0]
    }

    pub fn y(&self) -> (r: i32)
        ensures
            r == self.pos@[1],
    {
        self.pos[1]
    }
}

/// The Manhattan distance between the coordinates `s` and `t`: an admissible
/// and consistent heuristic for a grid with unit-cost cardinal moves.
pub fn calculate_shortest_possible(s: [i32; 2], t: [i32; 2]) -> (r: i32)
    requires
        0 <= s@[0] <= MAX_SIDE as i32,
        0 <= s@[1] <= MAX_SIDE as i32,
        0 <= t@[0] <= MAX_SIDE as i32,
        0 <= t@[1] <= MAX_SIDE as i32,
    ensures
        r as int == md((s@[0] as int, s@[1] as int), (t@[0] as int, t@[1] as int)),
{
    let dx: i32 = if s[0] >= t[0] {
        s[0] - t[0]
    } else {
        t[0] - s[0]
    };
    let dy: i32 = if s[1] >= t[1] {
        s[1] - t[1]
    } else {
        t[1] - s[1]
    };
    dx + dy
}


/// The coordinate of the cell with id `i` on a grid `w` cells wide.
pub open spec fn cell(w: int, i: int) -> (int, int) {
    (i % w, i / w)
}

/// The id of the cell at coordinate `p` on a grid `w` cells wide.
pub open spec fn idx(w: int, p: (int, int)) -> int {
    p.1 * w + p.0
}

/// The coordinate a node stands for.
pub open spec fn np(n: Node) -> (int, int) {
    ((n.pos@[0]) as int, (n.pos@[1]) as int)
}

spec fn wh(m: &Maze) -> int {
    m.width() * m.height()
}

spec fn root_id(m: &Maze) -> int {
    idx(m.width(), m.goal())
}

spec fn target_id(m: &Maze) -> int {
    idx(m.width(), m.start())
}

spec fn table_entry_ok(m: &Maze, n: Node, i: int) -> bool {
    &&& (n.x as int) == m.width()
    &&& (n.y as int) == m.height()
    &&& np(n) == cell(m.width(), i)
    &&& n.g >= -1
}

/// The node table holds one node per cell, each knowing its own coordinate.
spec fn table_ok(m: &Maze, ns: Seq<Node>) -> bool {
    &&& ns.len() == wh(m)
    &&& forall|i: int| 0 <= i < ns.len() ==> table_entry_ok(m, #[trigger] ns[i], i)
}

/// Every reached node lies on a passable cell of the grid and carries the
/// Manhattan estimate for its own coordinate.
spec fn disc_ok(m: &Maze, ns: Seq<Node>) -> bool {
    forall|i: int|
        0 <= i < ns.len() && (#[trigger] ns[i]).g >= 0 ==> {
            &&& m.in_grid(cell(m.width(), i))
            &&& m.open_at(cell(m.width(), i))
            &&& (ns[i].h as int) == md(cell(m.width(), i), m.start())
        }
}

/// No cost exceeds the number of finalized nodes.
spec fn gbound_ok(ns: Seq<Node>, cc: int) -> bool {
    forall|i: int| 0 <= i < ns.len() && (#[trigger] ns[i]).g >= 0 ==> (ns[i].g as int) <= cc
}

spec fn chain_entry_ok(m: &Maze, cl: Seq<bool>, n: Node, i: int) -> bool {
    &&& n.g >= 1
    &&& 0 <= (n.best_pred as int) < wh(m)
    &&& cl[n.best_pred as int]
    &&& is_dir(n.direction)
    &&& step(cell(m.width(), i), n.direction) == cell(m.width(), n.best_pred as int)
}

/// Every reached node other than the root records a finalized predecessor one
/// step closer to the root, and the move that leads to it. The cost step is
/// stated over pairs of nodes so that it only ever speaks of nodes already at
/// hand.
spec fn chain_ok(m: &Maze, ns: Seq<Node>, cl: Seq<bool>) -> bool {
    &&& ns.len() == wh(m)
    &&& forall|i: int|
        0 <= i < ns.len() && (#[trigger] ns[i]).g >= 0 && i != root_id(m) ==> chain_entry_ok(
            m,
            cl,
            ns[i],
            i,
        )
    &&& forall|i: int, j: int|
        #![trigger ns[i], ns[j]]
        0 <= i < ns.len() && 0 <= j < ns.len() && ns[i].g >= 0 && i != root_id(m) && j == (
        ns[i].best_pred as int) ==> ((ns[j].g) as int) == ((ns[i].g) as int) - 1
}

/// The root is reached at cost zero, and nothing else has cost zero.
spec fn root_ok(m: &Maze, ns: Seq<Node>) -> bool {
    &&& 0 <= root_id(m) < ns.len()
    &&& ns[root_id(m)].g == 0
    &&& forall|i: int| 0 <= i < ns.len() && (#[trigger] ns[i]).g == 0 ==> i == root_id(m)
}

spec fn closed_set(cl: Seq<bool>) -> Set<int> {
    Set::new(|i: int| 0 <= i < cl.len() && cl[i])
}

spec fn closed_card(cl: Seq<bool>) -> int {
    closed_set(cl).len() as int
}

/// Finalized nodes are reached, cost less than their number `cc`, the target
/// is never finalized, and the root is finalized first.
spec fn closed_ok(m: &Maze, ns: Seq<Node>, cl: Seq<bool>, cc: int) -> bool {
    &&& cl.len() == ns.len()
    &&& 0 <= target_id(m) < cl.len()
    &&& !cl[target_id(m)]
    &&& ((exists|i: int| 0 <= i < cl.len() && cl[i]) ==> cl[root_id(m)])
    &&& (forall|i: int|
        0 <= i < cl.len() && #[trigger] cl[i] ==> ns[i].g >= 0 && (ns[i].g as int) < cc)
    &&& cc == closed_card(cl)
    &&& 0 <= cc <= cl.len()
}

spec fn closure_entry_ok(m: &Maze, ns: Seq<Node>, cl: Seq<bool>, i: int, c: char) -> bool {
    let v = back_step(cell(m.width(), i), c);
    m.in_grid(v) && m.open_at(v) ==> {
        let vi = idx(m.width(), v);
        &&& 0 <= vi < ns.len()
        &&& ns[vi].g >= 0
        &&& (!cl[vi] ==> (ns[vi].g as int) <= (ns[i].g as int) + 1)
    }
}

/// Every passable neighbor of a finalized cell has been reached, at a cost at
/// most one above the finalized cost while it is not itself finalized. The
/// statement quantifies over the neighbor as well, so that it only ever
/// speaks of nodes already at hand.
spec fn closure_ok(m: &Maze, ns: Seq<Node>, cl: Seq<bool>) -> bool {
    forall|i: int, j: int, c: char|
        #![trigger cl[i], ns[j], is_dir(c)]
        0 <= i < cl.len() && cl[i] && is_dir(c) && 0 <= j < ns.len() && j == idx(
            m.width(),
            back_step(cell(m.width(), i), c),
        ) && m.in_grid(back_step(cell(m.width(), i), c)) && m.open_at(
            back_step(cell(m.width(), i), c),
        ) ==> ns[j].g >= 0 && (!cl[j] ==> ((ns[j].g) as int) <= ((ns[i].g) as int) + 1)
}

/// The cost of a finalized cell undercuts every walk from it to the goal.
spec fn closed_opt_ok(m: &Maze, ns: Seq<Node>, cl: Seq<bool>) -> bool {
    forall|i: int, q: Seq<char>|
        0 <= i < cl.len() && cl[i] && #[trigger] m.connects(cell(m.width(), i), q)
            ==> q.len() >= (ns[i].g as int)
}

spec fn entry_ok(ns: Seq<Node>, e: Pair) -> bool {
    &&& 0 <= (e.value as int) < ns.len()
    &&& ns[e.value as int].g >= 0
    &&& 0 - (e.key as int) >= (ns[e.value as int].g as int) + (ns[e.value as int].h as int)
}

/// Every frontier entry points at a reached node and its key is at most as
/// good as the node's current cost would give.
spec fn heap_ok(ns: Seq<Node>, op: Seq<Pair>) -> bool {
    forall|k: int| 0 <= k < op.len() ==> entry_ok(ns, #[trigger] op[k])
}

/// Every reached, unfinalized node except `skip` still has a frontier entry
/// carrying its current cost.
spec fn heap_cover(ns: Seq<Node>, cl: Seq<bool>, op: Seq<Pair>, skip: int) -> bool {
    forall|i: int|
        0 <= i < ns.len() && (#[trigger] ns[i]).g >= 0 && !cl[i] && i != skip ==> exists|k: int|
            0 <= k < op.len() && ((#[trigger] op[k]).value as int) == i && 0 - (op[k].key as int)
                == (ns[i].g as int) + (ns[i].h as int)
}

/// Cell ids and coordinates are inverse to one another: from an id.
proof fn lemma_cell_idx(w: int, hh: int, i: int)
    requires
        1 <= w,
        0 <= i,
        i < w * hh,
    ensures
        0 <= cell(w, i).0 < w,
        0 <= cell(w, i).1 < hh,
        idx(w, cell(w, i)) == i,
{
    vstd::arithmetic::div_mod::lemma_fundamental_div_mod(i, w);
    vstd::arithmetic::div_mod::lemma_mod_bound(i, w);
    vstd::arithmetic::div_mod::lemma_div_pos_is_pos(i, w);
    let q = i / w;
    let r = i % w;
    assert(q * w == w * q) by (nonlinear_arith);
    if q >= hh {
        assert(w * q >= w * hh) by (nonlinear_arith)
            requires
                1 <= w,
                q >= hh,
        ;
        assert(false);
    }
}

/// Cell ids and coordinates are inverse to one another: from a coordinate.
proof fn lemma_idx_cell(w: int, hh: int, p: (int, int))
    requires
        1 <= w,
        0 <= p.0 < w,
        0 <= p.1 < hh,
    ensures
        0 <= idx(w, p),
        idx(w, p) < w * hh,
        cell(w, idx(w, p)) == p,
{
    assert(0 <= p.1 * w + p.0 && p.1 * w + p.0 < w * hh) by (nonlinear_arith)
        requires
            1 <= w,
            0 <= p.0 < w,
            0 <= p.1 < hh,
    ;
    vstd::arithmetic::div_mod::lemma_fundamental_div_mod_converse(p.1 * w + p.0, w, p.1, p.0);
}


/// Walks `q` from `p` to a finalized cell and returns the first index at
/// which the walk stands on a finalized cell.
proof fn first_closed_index(m: &Maze, cl: Seq<bool>, p: (int, int), q: Seq<char>) -> (j: int)
    requires
        m.wf(),
        cl.len() == wh(m),
        m.route_ok(p, q),
        m.in_grid(p),
        m.in_grid(walk(p, q)),
        cl[idx(m.width(), walk(p, q))],
    ensures
        0 <= j <= q.len(),
        m.in_grid(walk(p, q.take(j))),
        cl[idx(m.width(), walk(p, q.take(j)))],
        forall|jj: int|
            0 <= jj < j ==> m.in_grid(#[trigger] walk(p, q.take(jj))) && !cl[idx(
                m.width(),
                walk(p, q.take(jj)),
            )],
    decreases q.len(),
{
    let w = m.width();
    lemma_idx_cell(w, m.height(), p);
    assert(q.take(0) =~= Seq::<char>::empty());
    if cl[idx(w, p)] {
        0
    } else {
        if q.len() == 0 {
            assert(walk(p, q) == p);
            assert(false);
        }
        let p1 = step(p, q[0]);
        assert(m.in_grid(p1) && m.open_at(p1) && m.route_ok(p1, q.skip(1)));
        assert(walk(p, q) == walk(p1, q.skip(1)));
        let j1 = first_closed_index(m, cl, p1, q.skip(1));
        let j = j1 + 1;
        assert forall|jj: int| 1 <= jj <= q.len() implies #[trigger] walk(p, q.take(jj)) == walk(
            p1,
            q.skip(1).take(jj - 1),
        ) by {
            assert(q.take(jj)[0] == q[0]);
            assert(q.take(jj).skip(1) =~= q.skip(1).take(jj - 1));
            assert(walk(p, q.take(jj)) == walk(step(p, q.take(jj)[0]), q.take(jj).skip(1)));
        }
        assert(walk(p, q.take(j)) == walk(p1, q.skip(1).take(j1)));
        assert forall|jj: int| 0 <= jj < j implies m.in_grid(#[trigger] walk(p, q.take(jj)))
            && !cl[idx(m.width(), walk(p, q.take(jj)))] by {
            if jj == 0 {
                assert(walk(p, q.take(0)) == p);
            } else {
                assert(walk(p, q.take(jj)) == walk(p1, q.skip(1).take(jj - 1)));
            }
        }
        j
    }
}

/// A walk from an unfinalized cell to the goal crosses, at its first
/// finalized cell, an edge from an unfinalized cell into the finalized set.
proof fn lemma_crossing(m: &Maze, cl: Seq<bool>, p0: (int, int), q: Seq<char>) -> (j: int)
    requires
        m.wf(),
        cl.len() == wh(m),
        m.in_grid(p0),
        !cl[idx(m.width(), p0)],
        m.route_ok(p0, q),
        walk(p0, q) == m.goal(),
        cl[root_id(m)],
    ensures
        1 <= j <= q.len(),
        m.in_grid(walk(p0, q.take(j))),
        cl[idx(m.width(), walk(p0, q.take(j)))],
        m.in_grid(walk(p0, q.take(j - 1))),
        m.open_at(walk(p0, q.take(j - 1))) || walk(p0, q.take(j - 1)) == p0,
        !cl[idx(m.width(), walk(p0, q.take(j - 1)))],
        is_dir(q[j - 1]),
        step(walk(p0, q.take(j - 1)), q[j - 1]) == walk(p0, q.take(j)),
        walk(p0, q.take(j - 1)) == back_step(walk(p0, q.take(j)), q[j - 1]),
        m.route_ok(walk(p0, q.take(j)), q.skip(j)),
        walk(walk(p0, q.take(j)), q.skip(j)) == m.goal(),
        m.route_ok(p0, q.take(j - 1)),
{
    let w = m.width();
    let hh = m.height();
    lemma_idx_cell(w, hh, m.goal());
    let j = first_closed_index(m, cl, p0, q);
    assert(q.take(0) =~= Seq::<char>::empty());
    if j == 0 {
        assert(walk(p0, q.take(0)) == p0);
        assert(false);
    }
    let u = walk(p0, q.take(j));
    let v = walk(p0, q.take(j - 1));
    if j - 1 > 0 {
        lemma_route_split(m, p0, q, j - 1);
        lemma_route_end(m, p0, q.take(j - 1));
    } else {
        assert(v == p0);
    }
    lemma_route_split(m, p0, q, j - 1);
    lemma_route_split(m, p0, q, j);
    assert(q.take(j) =~= q.take(j - 1).push(q[j - 1]));
    lemma_walk_snoc(p0, q.take(j - 1), q[j - 1]);
    lemma_route_snoc(m, p0, q.take(j - 1), q[j - 1]);
    assert(v == back_step(u, q[j - 1]));
    j
}

/// When a frontier entry with the best key is taken for an unfinalized node,
/// that node's cost undercuts every walk from its cell to the goal: the
/// classic argument for best-first search under a consistent heuristic.
#[verifier::rlimit(100)]
#[verifier::spinoff_prover]
proof fn lemma_pop_bound(
    m: &Maze,
    ns: Seq<Node>,
    cl: Seq<bool>,
    op: Seq<Pair>,
    c: int,
    key: int,
    q: Seq<char>,
)
    requires
        m.wf(),
        table_ok(m, ns),
        disc_ok(m, ns),
        chain_ok(m, ns, cl),
        root_ok(m, ns),
        cl.len() == ns.len(),
        forall|i: int| 0 <= i < cl.len() && #[trigger] cl[i] ==> ns[i].g >= 0,
        (exists|i: int| 0 <= i < cl.len() && cl[i]) ==> cl[root_id(m)],
        closure_ok(m, ns, cl),
        closed_opt_ok(m, ns, cl),
        heap_ok(ns, op),
        heap_cover(ns, cl, op, c),
        forall|k: int| 0 <= k < op.len() ==> ((#[trigger] op[k]).key as int) <= key,
        0 <= c < ns.len(),
        ns[c].g >= 0,
        !cl[c],
        0 - key >= (ns[c].g as int) + (ns[c].h as int),
        m.connects(cell(m.width(), c), q),
    ensures
        q.len() >= (ns[c].g as int),
{
    let w = m.width();
    let hh = m.height();
    let p0 = cell(w, c);
    lemma_cell_idx(w, hh, c);
    if !cl[root_id(m)] {
        assert(forall|i: int| 0 <= i < cl.len() ==> !(#[trigger] cl[i]));
        if c != root_id(m) {
            assert(chain_entry_ok(m, cl, ns[c], c));
            assert(false);
        }
    } else {
        let len = q.len() as int;
        let j = lemma_crossing(m, cl, p0, q);
        let u = walk(p0, q.take(j));
        let ui = idx(w, u);
        lemma_idx_cell(w, hh, u);
        assert(m.connects(cell(w, ui), q.skip(j)));
        assert(len - j >= (ns[ui].g as int));
        let v = walk(p0, q.take(j - 1));
        let vi = idx(w, v);
        assert(m.open_at(v));
        lemma_idx_cell(w, hh, v);
        assert(cl[ui] && is_dir(q[j - 1]));
        assert(vi == idx(w, back_step(cell(w, ui), q[j - 1])));
        assert(!cl[vi]);
        assert(ns[vi].g >= 0 && (ns[vi].g as int) <= (ns[ui].g as int) + 1);
        if vi == c {
            assert((ns[c].g as int) <= len - j + 1);
        } else {
            assert(exists|k: int|
                0 <= k < op.len() && ((#[trigger] op[k]).value as int) == vi && 0 - (op[k].key
                    as int) == (ns[vi].g as int) + (ns[vi].h as int));
            let k = choose|k: int|
                0 <= k < op.len() && ((#[trigger] op[k]).value as int) == vi && 0 - (op[k].key
                    as int) == (ns[vi].g as int) + (ns[vi].h as int);
            assert((op[k].key as int) <= key);
            assert((ns[c].g as int) + (ns[c].h as int) <= (ns[vi].g as int) + (ns[vi].h as int));
            assert((ns[c].h as int) == md(p0, m.start()));
            assert((ns[vi].h as int) == md(v, m.start()));
            lemma_md_route(p0, q.take(j - 1), m.start());
            assert(md(v, m.start()) <= md(p0, m.start()) + (j - 1));
            assert((ns[c].g as int) <= len);
        }
    }
}


/// After the entry at `best`, which points at `c`, is taken out by a swap
/// with the last entry, every other reached, unfinalized node keeps a
/// frontier entry.
proof fn lemma_cover_after_pop(ns: Seq<Node>, cl: Seq<bool>, op0: Seq<Pair>, best: int, c: int)
    requires
        heap_cover(ns, cl, op0, ns.len() as int),
        0 <= best < op0.len(),
        (op0[best].value as int) == c,
    ensures
        heap_cover(ns, cl, op0.update(best, op0[op0.len() - 1]).drop_last(), c),
{
    let newop = op0.update(best, op0[op0.len() - 1]).drop_last();
    assert forall|i: int|
        0 <= i < ns.len() && (#[trigger] ns[i]).g >= 0 && !cl[i] && i != c implies exists|k: int|
        0 <= k < newop.len() && ((#[trigger] newop[k]).value as int) == i && 0 - (newop[k].key
            as int) == (ns[i].g as int) + (ns[i].h as int) by {
        let k = choose|k: int|
            0 <= k < op0.len() && ((#[trigger] op0[k]).value as int) == i && 0 - (op0[k].key
                as int) == (ns[i].g as int) + (ns[i].h as int);
        assert(k != best);
        if k == op0.len() - 1 {
            assert(newop[best] == op0[k]);
            assert(0 <= best < newop.len() && ((newop[best]).value as int) == i && 0
                - (newop[best].key as int) == (ns[i].g as int) + (ns[i].h as int));
        } else {
            assert(newop[k] == op0[k]);
            assert(0 <= k < newop.len() && ((newop[k]).value as int) == i && 0 - (newop[k].key
                as int) == (ns[i].g as int) + (ns[i].h as int));
        }
    }
}

/// The heart of one relaxation step: updating the node of the improved
/// neighbor `nid` and pushing its new frontier entry preserves every search
/// invariant.
#[verifier::rlimit(100)]
#[verifier::spinoff_prover]
proof fn lemma_relax_update(
    m: &Maze,
    ns0: Seq<Node>,
    cl: Seq<bool>,
    op0: Seq<Pair>,
    c: int,
    dir: char,
    nid: int,
    nb2: Node,
    pr: Pair,
    cc: int,
)
    requires
        m.wf(),
        table_ok(m, ns0),
        disc_ok(m, ns0),
        gbound_ok(ns0, cc),
        chain_ok(m, ns0, cl),
        root_ok(m, ns0),
        cl.len() == wh(m),
        forall|i: int|
            0 <= i < cl.len() && #[trigger] cl[i] ==> ns0[i].g >= 0 && ((ns0[i].g) as int) < cc,
        0 <= cc <= wh(m),
        heap_ok(ns0, op0),
        heap_cover(ns0, cl, op0, wh(m)),
        0 <= c < ns0.len(),
        cl[c],
        is_dir(dir),
        0 <= nid < ns0.len(),
        !cl[nid],
        back_step(cell(m.width(), c), dir) == cell(m.width(), nid),
        m.in_grid(cell(m.width(), nid)),
        m.open_at(cell(m.width(), nid)),
        ns0[nid].g < 0 || ((ns0[nid].g) as int) > ((ns0[c].g) as int) + 1,
        nb2.pos == ns0[nid].pos,
        nb2.x == ns0[nid].x,
        nb2.y == ns0[nid].y,
        (nb2.best_pred as int) == c,
        nb2.direction == dir,
        ((nb2.g) as int) == ((ns0[c].g) as int) + 1,
        ((nb2.h) as int) == md(cell(m.width(), nid), m.start()),
        (pr.value as int) == nid,
        0 - ((pr.key) as int) == ((nb2.g) as int) + ((nb2.h) as int),
    ensures
        table_ok(m, ns0.update(nid, nb2)),
        disc_ok(m, ns0.update(nid, nb2)),
        gbound_ok(ns0.update(nid, nb2), cc),
        chain_ok(m, ns0.update(nid, nb2), cl),
        root_ok(m, ns0.update(nid, nb2)),
        forall|i: int|
            0 <= i < cl.len() && #[trigger] cl[i] ==> ns0.update(nid, nb2)[i].g >= 0 && ((ns0.update(
                nid,
                nb2,
            )[i].g) as int) < cc,
        heap_ok(ns0.update(nid, nb2), op0.push(pr)),
        heap_cover(ns0.update(nid, nb2), cl, op0.push(pr), wh(m)),
        forall|i: int|
            0 <= i < cl.len() && #[trigger] cl[i] ==> ns0.update(nid, nb2)[i] == ns0[i],
        forall|i: int|
            0 <= i < ns0.len() && (#[trigger] ns0[i]).g >= 0 ==> ns0.update(nid, nb2)[i].g >= 0 && ((
            ns0.update(nid, nb2)[i].g) as int) <= ((ns0[i].g) as int),
        closure_entry_ok(m, ns0.update(nid, nb2), cl, c, dir),
{
    let ns1 = ns0.update(nid, nb2);
    let op1 = op0.push(pr);
    lemma_cell_idx(m.width(), m.height(), nid);
    lemma_cell_idx(m.width(), m.height(), c);
    assert(ns0[c].g >= 0);
    assert(nid != c);
    assert(nid != root_id(m)) by {
        if nid == root_id(m) {
            assert(ns0[nid].g == 0);
        }
    }
    assert(step(back_step(cell(m.width(), c), dir), dir) == cell(m.width(), c));
    assert(table_ok(m, ns1)) by {
        assert forall|i: int| 0 <= i < ns1.len() implies table_entry_ok(
            m,
            #[trigger] ns1[i],
            i,
        ) by {
            if i != nid {
                assert(ns1[i] == ns0[i]);
                assert(table_entry_ok(m, ns0[i], i));
            } else {
                assert(table_entry_ok(m, ns0[nid], nid));
            }
        }
    }
    assert(disc_ok(m, ns1)) by {
        assert forall|i: int|
            0 <= i < ns1.len() && (#[trigger] ns1[i]).g >= 0 implies m.in_grid(cell(m.width(), i))
            && m.open_at(cell(m.width(), i)) && ((ns1[i].h) as int) == md(
            cell(m.width(), i),
            m.start(),
        ) by {
            if i != nid {
                assert(ns1[i] == ns0[i]);
                assert(ns0[i].g >= 0);
            }
        }
    }
    assert(gbound_ok(ns1, cc)) by {
        assert forall|i: int|
            0 <= i < ns1.len() && (#[trigger] ns1[i]).g >= 0 implies ((ns1[i].g) as int) <= cc by {
            if i != nid {
                assert(ns1[i] == ns0[i]);
                assert(ns0[i].g >= 0);
            }
        }
    }
    assert(chain_ok(m, ns1, cl)) by {
        assert forall|i: int|
            0 <= i < ns1.len() && (#[trigger] ns1[i]).g >= 0 && i != root_id(
            m,
        ) implies chain_entry_ok(m, cl, ns1[i], i) by {
            if i == nid {
                assert(cl[c]);
            } else {
                assert(ns1[i] == ns0[i]);
                assert(chain_entry_ok(m, cl, ns0[i], i));
            }
        }
        assert forall|i: int, j: int|
            #![trigger ns1[i], ns1[j]]
            0 <= i < ns1.len() && 0 <= j < ns1.len() && ns1[i].g >= 0 && i != root_id(m) && j == (
            ns1[i].best_pred as int) implies ((ns1[j].g) as int) == ((ns1[i].g) as int) - 1 by {
            if i == nid {
                assert(j == c);
                assert(ns1[c] == ns0[c]);
            } else {
                assert(ns1[i] == ns0[i]);
                assert(chain_entry_ok(m, cl, ns0[i], i));
                assert(cl[j]);
                assert(j != nid);
                assert(ns1[j] == ns0[j]);
            }
        }
    }
    assert(root_ok(m, ns1)) by {
        assert(ns1[root_id(m)] == ns0[root_id(m)]);
        assert forall|i: int| 0 <= i < ns1.len() && (#[trigger] ns1[i]).g == 0 implies i == root_id(
            m,
        ) by {
            if i != nid {
                assert(ns1[i] == ns0[i]);
            }
        }
    }
    assert(heap_ok(ns1, op1)) by {
        assert forall|k: int| 0 <= k < op1.len() implies entry_ok(ns1, #[trigger] op1[k]) by {
            if k < op1.len() - 1 {
                assert(op1[k] == op0[k]);
                assert(entry_ok(ns0, op1[k]));
                if (op1[k].value as int) == nid {
                    assert(ns0[nid].g >= 0);
                }
            } else {
                assert(op1[k] == pr);
            }
        }
    }
    assert(heap_cover(ns1, cl, op1, wh(m))) by {
        assert forall|i: int|
            0 <= i < ns1.len() && (#[trigger] ns1[i]).g >= 0 && !cl[i] && i != wh(
            m,
        ) implies exists|k: int|
            0 <= k < op1.len() && ((#[trigger] op1[k]).value as int) == i && 0 - (op1[k].key
                as int) == ((ns1[i].g) as int) + ((ns1[i].h) as int) by {
            if i == nid {
                assert(0 <= op1.len() - 1 < op1.len() && ((op1[op1.len() - 1]).value as int) == i
                    && 0 - (op1[op1.len() - 1].key as int) == ((ns1[i].g) as int) + ((ns1[i].h)
                    as int));
            } else {
                assert(ns0[i].g >= 0);
                let k = choose|k: int|
                    0 <= k < op0.len() && (((#[trigger] op0[k]).value) as int) == i && 0
                        - (op0[k].key as int) == ((ns0[i].g) as int) + ((ns0[i].h) as int);
                assert(op1[k] == op0[k]);
                assert(0 <= k < op1.len() && ((op1[k].value) as int) == i && 0 - (op1[k].key
                    as int) == ((ns1[i].g) as int) + ((ns1[i].h) as int));
            }
        }
    }
    assert(closure_entry_ok(m, ns1, cl, c, dir)) by {
        assert(idx(m.width(), back_step(cell(m.width(), c), dir)) == nid);
        assert(ns1[c] == ns0[c]);
        assert(ns1[nid].g >= 0);
    }
}

/// One relaxation of the `dir` neighbor of the just-finalized cell `c`: if
/// the neighbor is a passable cell of the grid that is not finalized and the
/// path through `c` improves on everything known, it is recorded and pushed.
#[verifier::rlimit(100)]
#[verifier::spinoff_prover]
fn relax(
    m: &Maze,
    w: i32,
    h: i32,
    target: [i32; 2],
    nodes: &mut Vec<Node>,
    closed_list: &Vec<bool>,
    open_list: &mut Vec<Pair>,
    current: Node,
    c: usize,
    dir: char,
    Ghost(cc): Ghost<int>,
)
    requires
        m.wf(),
        (w as int) == m.width(),
        (h as int) == m.height(),
        (((target@[0]) as int), ((target@[1]) as int)) == m.start(),
        table_ok(m, old(nodes)@),
        disc_ok(m, old(nodes)@),
        gbound_ok(old(nodes)@, cc),
        chain_ok(m, old(nodes)@, closed_list@),
        root_ok(m, old(nodes)@),
        closed_list@.len() == wh(m),
        forall|i: int|
            0 <= i < closed_list@.len() && #[trigger] closed_list@[i] ==> old(nodes)@[i].g >= 0
                && ((old(nodes)@[i].g) as int) < cc,
        0 <= cc <= wh(m),
        heap_ok(old(nodes)@, old(open_list)@),
        heap_cover(old(nodes)@, closed_list@, old(open_list)@, wh(m)),
        (c as int) < old(nodes)@.len(),
        closed_list@[c as int],
        old(nodes)@[c as int] == current,
        is_dir(dir),
    ensures
        final(nodes)@.len() == old(nodes)@.len(),
        table_ok(m, final(nodes)@),
        disc_ok(m, final(nodes)@),
        gbound_ok(final(nodes)@, cc),
        chain_ok(m, final(nodes)@, closed_list@),
        root_ok(m, final(nodes)@),
        forall|i: int|
            0 <= i < closed_list@.len() && #[trigger] closed_list@[i] ==> final(nodes)@[i].g >= 0
                && ((final(nodes)@[i].g) as int) < cc,
        heap_ok(final(nodes)@, final(open_list)@),
        heap_cover(final(nodes)@, closed_list@, final(open_list)@, wh(m)),
        forall|i: int|
            0 <= i < final(nodes)@.len() && #[trigger] closed_list@[i]
                ==> final(nodes)@[i] == old(nodes)@[i],
        forall|i: int|
            0 <= i < final(nodes)@.len() && (#[trigger] old(nodes)@[i]).g >= 0
                ==> final(nodes)@[i].g >= 0
                && ((final(nodes)@[i].g) as int) <= ((old(nodes)@[i].g) as int),
        closure_entry_ok(m, final(nodes)@, closed_list@, c as int, dir),
{
    proof {
        assert(m.width() * m.height() <= 16777216) by (nonlinear_arith)
            requires
                1 <= m.width() <= 4096,
                1 <= m.height() <= 4096,
        ;
        assert(wh(m) == m.width() * m.height());
        lemma_cell_idx(w as int, h as int, c as int);
    }
    let cx: i32 = current.pos[0];
    let cy: i32 = current.pos[1];
    let (nx, ny): (i32, i32) = if dir == 'N' {
        (cx, cy + 1)
    } else if dir == 'S' {
        (cx, cy - 1)
    } else if dir == 'E' {
        (cx - 1, cy)
    } else {
        (cx + 1, cy)
    };
    assert(((nx as int), (ny as int)) == back_step(cell(m.width(), c as int), dir));
    if !(nx >= w || nx < 0 || ny >= h || ny < 0) {
        if !(m.map[ny as usize][nx as usize] == 'X') {
            proof {
                lemma_idx_cell(w as int, h as int, ((nx as int), (ny as int)));
                assert(0 <= (ny as int) * (w as int) + (nx as int) < 4096 * 4096)
                    by (nonlinear_arith)
                    requires
                        0 <= (ny as int),
                        0 <= (nx as int) < (w as int),
                        1 <= (w as int) <= 4096,
                        (ny as int) < (h as int) <= 4096,
                ;
            }
            let nid: usize = (ny * w + nx) as usize;
            proof {
                lemma_cell_idx(w as int, h as int, nid as int);
            }
            if !closed_list[nid] {
                let nb: Node = nodes[nid];
                if nb.g < 0 || nb.g > current.g + 1 {
                    let mut nb2: Node = nb;
                    nb2.best_pred = c;
                    nb2.direction = dir;
                    nb2.g = current.g + 1;
                    nb2.h = calculate_shortest_possible(target, nb.pos);
                    proof {
                        assert(md(((nb.pos@[0]) as int, (nb.pos@[1]) as int), m.start()) == md(
                            m.start(),
                            ((nb.pos@[0]) as int, (nb.pos@[1]) as int),
                        ));
                        assert(md(cell(m.width(), nid as int), m.start()) <= 8192);
                    }
                    let ghost ns0 = nodes@;
                    nodes.set(nid, nb2);
                    let pr: Pair = Pair::new(nb2.f(), nid);
                    open_list.push(pr);
                    proof {
                        lemma_relax_update(
                            m,
                            ns0,
                            closed_list@,
                            old(open_list)@,
                            c as int,
                            dir,
                            nid as int,
                            nb2,
                            pr,
                            cc,
                        );
                        assert(nodes@ == ns0.update(nid as int, nb2));
                        assert(open_list@ == old(open_list)@.push(pr));
                    }
                }
            }
        }
    }
}

/// Reads the answer out of the node table: starting at the target's node it
/// follows the recorded predecessors back to the root, collecting the stored
/// moves, which are already in start-to-goal order.
fn read_path(
    m: &Maze,
    nodes: &Vec<Node>,
    closed_list: &Vec<bool>,
    c: usize,
    gx: i32,
    gy: i32,
) -> (r: Vec<char>)
    requires
        m.wf(),
        table_ok(m, nodes@),
        disc_ok(m, nodes@),
        chain_ok(m, nodes@, closed_list@),
        root_ok(m, nodes@),
        closed_list@.len() == wh(m),
        (c as int) < nodes@.len(),
        nodes@[c as int].g >= 0,
        cell(m.width(), c as int) == m.start(),
        (((gx as int), (gy as int))) == m.goal(),
    ensures
        r@.len() == nodes@[c as int].g,
        m.route_ok(m.start(), r@),
        walk(m.start(), r@) == m.goal(),
{
    let mut path: Vec<char> = Vec::new();
    let mut b: Node = nodes[c];
    let ghost mut bi: int = c as int;
    proof {
        assert(walk(m.start(), path@) == m.start());
    }
    while b.pos[0] != gx || b.pos[1] != gy
        invariant
            m.wf(),
            table_ok(m, nodes@),
            disc_ok(m, nodes@),
            chain_ok(m, nodes@, closed_list@),
            root_ok(m, nodes@),
            closed_list@.len() == wh(m),
            0 <= bi < nodes@.len(),
            nodes@[bi] == b,
            b.g >= 0,
            m.route_ok(m.start(), path@),
            walk(m.start(), path@) == cell(m.width(), bi),
            path@.len() + ((b.g) as int) == ((nodes@[c as int].g) as int),
            cell(m.width(), c as int) == m.start(),
            (((gx as int), (gy as int))) == m.goal(),
        decreases b.g,
    {
        proof {
            lemma_cell_idx(m.width(), m.height(), bi);
            lemma_idx_cell(m.width(), m.height(), m.goal());
            assert(bi != root_id(m));
            assert(chain_entry_ok(m, closed_list@, b, bi));
            assert((nodes@[(b.best_pred) as int].g as int) == ((b.g) as int) - 1);
            lemma_route_snoc(m, m.start(), path@, b.direction);
            lemma_walk_snoc(m.start(), path@, b.direction);
            lemma_cell_idx(m.width(), m.height(), (b.best_pred) as int);
        }
        path.push(b.direction);
        let pred_i: usize = b.best_pred;
        b = nodes[pred_i];
        proof {
            bi = pred_i as int;
        }
    }
    proof {
        lemma_cell_idx(m.width(), m.height(), bi);
        lemma_idx_cell(m.width(), m.height(), m.goal());
        assert(bi == root_id(m));
    }
    path
}



/// Finalizing the popped node `c` preserves the bookkeeping invariants about
/// the finalized set.
#[verifier::rlimit(100)]
#[verifier::spinoff_prover]
proof fn lemma_close_step(m: &Maze, ns: Seq<Node>, cl0: Seq<bool>, c: int, cc0: int)
    requires
        m.wf(),
        table_ok(m, ns),
        gbound_ok(ns, cc0),
        chain_ok(m, ns, cl0),
        root_ok(m, ns),
        closed_ok(m, ns, cl0, cc0),
        closed_opt_ok(m, ns, cl0),
        0 <= c < ns.len(),
        !cl0[c],
        ns[c].g >= 0,
        cell(m.width(), c) != m.start(),
        forall|q: Seq<char>|
            #[trigger] m.connects(cell(m.width(), c), q) ==> q.len() >= ((ns[c].g) as int),
    ensures
        closed_ok(m, ns, cl0.update(c, true), cc0 + 1),
        closed_opt_ok(m, ns, cl0.update(c, true)),
        chain_ok(m, ns, cl0.update(c, true)),
        gbound_ok(ns, cc0 + 1),
        closed_card(cl0.update(c, true)) == cc0 + 1,
{
    let cl1 = cl0.update(c, true);
    let csets0 = closed_set(cl0);
    assert(closed_set(cl1) =~= csets0.insert(c));
    vstd::set_lib::lemma_int_range(0, wh(m));
    vstd::set::axiom_set_remove_len(vstd::set_lib::set_int_range(0, wh(m)), c);
    assert(csets0.subset_of(vstd::set_lib::set_int_range(0, wh(m)).remove(c)));
    vstd::set_lib::lemma_len_subset(
        csets0,
        vstd::set_lib::set_int_range(0, wh(m)).remove(c),
    );
    vstd::set::axiom_set_insert_len(csets0, c);
    assert((c as int) != target_id(m)) by {
        lemma_idx_cell(m.width(), m.height(), m.start());
        lemma_cell_idx(m.width(), m.height(), c);
    }
    if !cl0[root_id(m)] {
        assert(forall|i2: int| 0 <= i2 < cl0.len() ==> !(#[trigger] cl0[i2]));
        if c != root_id(m) {
            assert(chain_entry_ok(m, cl0, ns[c], c));
            assert(false);
        }
    }
    assert(closed_ok(m, ns, cl1, cc0 + 1)) by {
        assert forall|i2: int|
            0 <= i2 < cl1.len() && #[trigger] cl1[i2] implies ns[i2].g >= 0 && ((ns[i2].g) as int)
            < cc0 + 1 by {
            if i2 != c {
                assert(cl0[i2]);
            }
        }
    }
    assert(closed_opt_ok(m, ns, cl1)) by {
        assert forall|i2: int, q: Seq<char>|
            0 <= i2 < cl1.len() && cl1[i2] && #[trigger] m.connects(
                cell(m.width(), i2),
                q,
            ) implies q.len() >= ((ns[i2].g) as int) by {
            if i2 != c {
                assert(cl0[i2]);
            }
        }
    }
    assert(chain_ok(m, ns, cl1)) by {
        assert forall|i2: int|
            0 <= i2 < ns.len() && (#[trigger] ns[i2]).g >= 0 && i2 != root_id(
            m) implies chain_entry_ok(m, cl1, ns[i2], i2) by {
            assert(chain_entry_ok(m, cl0, ns[i2], i2));
        }
    }
}

/// The four relaxations after finalizing `c` restore the frontier-closure
/// invariant: the states `ns1` to `ns4` are the node tables after each of
/// the four neighbor relaxations in order.
#[verifier::rlimit(100)]
#[verifier::spinoff_prover]
proof fn lemma_closure_rebuild(
    m: &Maze,
    ns0: Seq<Node>,
    ns1: Seq<Node>,
    ns2: Seq<Node>,
    ns3: Seq<Node>,
    ns4: Seq<Node>,
    cl0: Seq<bool>,
    cl1: Seq<bool>,
    c: int,
)
    requires
        m.wf(),
        closure_ok(m, ns0, cl0),
        cl0.len() == wh(m),
        ns0.len() == wh(m),
        ns1.len() == wh(m),
        ns2.len() == wh(m),
        ns3.len() == wh(m),
        ns4.len() == wh(m),
        0 <= c < wh(m),
        cl1 == cl0.update(c, true),
        forall|i: int|
            0 <= i < wh(m) && (#[trigger] ns0[i]).g >= 0 ==> ns1[i].g >= 0 && ((ns1[i].g) as int)
                <= ((ns0[i].g) as int),
        forall|i: int|
            0 <= i < wh(m) && (#[trigger] ns1[i]).g >= 0 ==> ns2[i].g >= 0 && ((ns2[i].g) as int)
                <= ((ns1[i].g) as int),
        forall|i: int|
            0 <= i < wh(m) && (#[trigger] ns2[i]).g >= 0 ==> ns3[i].g >= 0 && ((ns3[i].g) as int)
                <= ((ns2[i].g) as int),
        forall|i: int|
            0 <= i < wh(m) && (#[trigger] ns3[i]).g >= 0 ==> ns4[i].g >= 0 && ((ns4[i].g) as int)
                <= ((ns3[i].g) as int),
        forall|i: int| 0 <= i < wh(m) && #[trigger] cl1[i] ==> ns1[i] == ns0[i],
        forall|i: int| 0 <= i < wh(m) && #[trigger] cl1[i] ==> ns2[i] == ns1[i],
        forall|i: int| 0 <= i < wh(m) && #[trigger] cl1[i] ==> ns3[i] == ns2[i],
        forall|i: int| 0 <= i < wh(m) && #[trigger] cl1[i] ==> ns4[i] == ns3[i],
        closure_entry_ok(m, ns1, cl1, c, 'N'),
        closure_entry_ok(m, ns2, cl1, c, 'W'),
        closure_entry_ok(m, ns3, cl1, c, 'E'),
        closure_entry_ok(m, ns4, cl1, c, 'S'),
    ensures
        closure_ok(m, ns4, cl1),
{
    assert forall|i2: int, j2: int, ch: char|
        #![trigger cl1[i2], ns4[j2], is_dir(ch)]
        0 <= i2 < cl1.len() && cl1[i2] && is_dir(ch) && 0 <= j2 < ns4.len() && j2 == idx(
            m.width(),
            back_step(cell(m.width(), i2), ch),
        ) && m.in_grid(back_step(cell(m.width(), i2), ch)) && m.open_at(
            back_step(cell(m.width(), i2), ch),
        ) implies ns4[j2].g >= 0 && (!cl1[j2] ==> ((ns4[j2].g) as int) <= ((ns4[i2].g) as int)
        + 1) by {
        if i2 == c {
            assert(ns4[c] == ns1[c] && ns4[c] == ns2[c] && ns4[c] == ns3[c]);
            if ch == 'N' {
                assert(ns1[j2].g >= 0 && (!cl1[j2] ==> ((ns1[j2].g) as int) <= ((ns1[c].g) as int)
                    + 1));
            } else if ch == 'W' {
                assert(ns2[j2].g >= 0 && (!cl1[j2] ==> ((ns2[j2].g) as int) <= ((ns2[c].g) as int)
                    + 1));
            } else if ch == 'E' {
                assert(ns3[j2].g >= 0 && (!cl1[j2] ==> ((ns3[j2].g) as int) <= ((ns3[c].g) as int)
                    + 1));
            } else {
                assert(ns4[j2].g >= 0 && (!cl1[j2] ==> ((ns4[j2].g) as int) <= ((ns4[c].g) as int)
                    + 1));
            }
        } else {
            assert(cl0[i2]);
            assert(ns4[i2] == ns0[i2]);
            assert(ns0[j2].g >= 0 && (!cl0[j2] ==> ((ns0[j2].g) as int) <= ((ns0[i2].g) as int)
                + 1));
        }
    }
}

/// When the frontier is exhausted, every reached node is finalized; were the
/// maze still solvable from a passable start, the solving walk would cross
/// from an unfinalized cell into the finalized set, and that unfinalized cell
/// would be a reached, unfinalized node with no frontier entry: impossible.
proof fn lemma_exhausted(m: &Maze, ns: Seq<Node>, cl: Seq<bool>, q: Seq<char>)
    requires
        m.wf(),
        table_ok(m, ns),
        disc_ok(m, ns),
        root_ok(m, ns),
        closure_ok(m, ns, cl),
        cl.len() == wh(m),
        forall|i: int| 0 <= i < ns.len() && (#[trigger] ns[i]).g >= 0 ==> cl[i],
        0 <= target_id(m) < cl.len(),
        !cl[target_id(m)],
        m.open_at(m.start()),
        m.start() != m.goal(),
    ensures
        !m.solves(q),
{
    if !m.solves(q) {
        return ;
    }
    let w = m.width();
    let hh = m.height();
    lemma_idx_cell(w, hh, m.start());
    lemma_idx_cell(w, hh, m.goal());
    assert(cl[root_id(m)]);
    let j = lemma_crossing(m, cl, m.start(), q);
    let u = walk(m.start(), q.take(j));
    let ui = idx(w, u);
    lemma_idx_cell(w, hh, u);
    let v = walk(m.start(), q.take(j - 1));
    let vi = idx(w, v);
    lemma_idx_cell(w, hh, v);
    assert(m.open_at(v));
    assert(cl[ui] && is_dir(q[j - 1]));
    assert(vi == idx(w, back_step(cell(w, ui), q[j - 1])));
    assert(ns[vi].g >= 0);
    assert(cl[vi]);
    assert(!cl[vi]);
}

/// Solves the maze: the returned sequence of moves (`'N'`, `'S'`, `'E'`,
/// `'W'`) leads from the start to the goal over passable cells only, and no
/// shorter such sequence exists. An empty result means that the start already
/// is the goal, or that no such sequence exists at all; when the start and
/// the goal differ, the start is passable and some solving sequence exists,
/// the result is never empty.
///
/// The search is an informed best-first search with the Manhattan heuristic.
/// It runs backwards, from the maze's goal towards its start, so that the
/// arrival moves recorded on the nodes read in start-to-goal order without a
/// final reversal. The frontier admits stale duplicate entries; a finalized
/// set discards them when they surface.
///
/// The function is pure and deterministic: neighbors are expanded in the
/// fixed order north, west, east, south, and frontier ties break on the
/// lowest entry index, so repeated calls on the same maze return the same
/// sequence.
#[verifier::rlimit(100)]
#[verifier::spinoff_prover]
pub fn solve_maze(maze: &Maze) -> (r: Vec<char>)
    requires
        maze.wf(),
    ensures
        r@.len() > 0 ==> maze.solves(r@),
        maze.start() == maze.goal() ==> r@.len() == 0,
        forall|q: Seq<char>| #[trigger] maze.solves(q) ==> q.len() >= r@.len(),
        (forall|q: Seq<char>| !(#[trigger] maze.solves(q))) ==> r@.len() == 0,
        maze.start() != maze.goal() && maze.open_at(maze.start()) && (exists|q: Seq<char>|
            #[trigger] maze.solves(q)) ==> r@.len() > 0,
{
    let hgt_us: usize = maze.map.len();
    let w_us: usize = maze.map[0].len();
    let w: i32 = w_us as i32;
    let h: i32 = hgt_us as i32;
    let gx: i32 = maze.ending_position[0];
    let gy: i32 = maze.ending_position[1];
    let sx: i32 = maze.starting_position[0];
    let sy: i32 = maze.starting_position[1];
    proof {
        assert(maze.width() * maze.height() <= 16777216) by (nonlinear_arith)
            requires
                1 <= maze.width() <= 4096,
                1 <= maze.height() <= 4096,
        ;
        assert(wh(maze) == maze.width() * maze.height());
        lemma_idx_cell(w as int, h as int, maze.goal());
        lemma_idx_cell(w as int, h as int, maze.start());
    }
    if maze.map[gy as usize][gx as usize] == 'X' {
        proof {
            if maze.start() != maze.goal() && (exists|q: Seq<char>| #[trigger] maze.solves(q)) {
                let q = choose|q: Seq<char>| #[trigger] maze.solves(q);
                if q.len() == 0 {
                    assert(walk(maze.start(), q) == maze.start());
                } else {
                    lemma_route_end(maze, maze.start(), q);
                }
                assert(false);
            }
        }
        return Vec::new();
    }
    let wh_us: usize = w_us * hgt_us;
    let mut nodes: Vec<Node> = Vec::new();
    let mut i: usize = 0;
    while i < wh_us
        invariant
            maze.wf(),
            (w as int) == maze.width(),
            (h as int) == maze.height(),
            (wh_us as int) == wh(maze),
            wh_us <= 16777216,
            i <= wh_us,
            nodes@.len() == i as int,
            forall|k: int|
                0 <= k < i as int ==> table_entry_ok(maze, #[trigger] nodes@[k], k) && nodes@[k].g
                    == -1,
        decreases wh_us - i,
    {
        let n: Node = Node::new(i as i32, w, h);
        nodes.push(n);
        i = i + 1;
    }
    let mut closed_list: Vec<bool> = vec![false; wh_us];
    let mut open_list: Vec<Pair> = Vec::new();
    let ghost mut ccount: int = 0;
    let mut root: Node = Node::from_pos(maze.ending_position, w, h);
    root.g = 0;
    root.h = calculate_shortest_possible(maze.starting_position, root.pos);
    proof {
        assert(md(maze.start(), maze.goal()) == md(maze.goal(), maze.start()));
        assert(md(maze.goal(), maze.start()) <= 8192);
    }
    let root_idx: usize = root.id();
    proof {
        assert((root_idx as int) == root_id(maze));
    }
    nodes.set(root_idx, root);
    open_list.push(Pair::new(root.f(), root_idx));
    proof {
        broadcast use vstd::set::axiom_set_empty_len;

        assert(closed_set(closed_list@) =~= Set::<int>::empty());
        assert(table_ok(maze, nodes@)) by {
            assert forall|k: int| 0 <= k < nodes@.len() implies table_entry_ok(
                maze,
                #[trigger] nodes@[k],
                k,
            ) by {
                if k == root_idx as int {
                    assert(np(root) == cell(maze.width(), root_id(maze)));
                }
            }
        }
        assert(disc_ok(maze, nodes@));
        assert(gbound_ok(nodes@, ccount));
        assert(chain_ok(maze, nodes@, closed_list@));
        assert(root_ok(maze, nodes@));
        assert(closed_ok(maze, nodes@, closed_list@, ccount));
        assert(closure_ok(maze, nodes@, closed_list@));
        assert(closed_opt_ok(maze, nodes@, closed_list@));
        assert(heap_ok(nodes@, open_list@));
        assert(heap_cover(nodes@, closed_list@, open_list@, wh(maze))) by {
            assert forall|i2: int|
                0 <= i2 < nodes@.len() && (#[trigger] nodes@[i2]).g >= 0 && !closed_list@[i2] && i2
                    != wh(maze) implies exists|k2: int|
                0 <= k2 < open_list@.len() && ((#[trigger] open_list@[k2]).value as int) == i2 && 0
                    - (open_list@[k2].key as int) == ((nodes@[i2].g) as int) + ((nodes@[i2].h)
                as int) by {
                assert(i2 == root_idx as int);
                assert(0 <= 0 < open_list@.len() && ((open_list@[0]).value as int) == i2 && 0 - (
                open_list@[0].key as int) == ((nodes@[i2].g) as int) + ((nodes@[i2].h) as int));
            }
        }
    }
    while !open_list.is_empty()
        invariant
            maze.wf(),
            (w as int) == maze.width(),
            (h as int) == maze.height(),
            (wh_us as int) == wh(maze),
            wh_us <= 16777216,
            ((sx as int), (sy as int)) == maze.start(),
            ((gx as int), (gy as int)) == maze.goal(),
            table_ok(maze, nodes@),
            disc_ok(maze, nodes@),
            gbound_ok(nodes@, ccount),
            chain_ok(maze, nodes@, closed_list@),
            root_ok(maze, nodes@),
            closed_ok(maze, nodes@, closed_list@, ccount),
            closure_ok(maze, nodes@, closed_list@),
            closed_opt_ok(maze, nodes@, closed_list@),
            heap_ok(nodes@, open_list@),
            heap_cover(nodes@, closed_list@, open_list@, wh(maze)),
        decreases wh(maze) - ccount, open_list@.len(),
    {
        let mut best: usize = 0;
        let mut k: usize = 1;
        while k < open_list.len()
            invariant
                1 <= open_list@.len(),
                (best as int) < open_list@.len(),
                1 <= k as int <= open_list@.len(),
                forall|kk: int|
                    0 <= kk < k as int ==> ((#[trigger] open_list@[kk]).key as int) <= ((
                    open_list@[best as int].key) as int),
            decreases open_list@.len() - k as int,
        {
            if open_list[k].key > open_list[best].key {
                best = k;
            }
            k = k + 1;
        }
        let ghost op0 = open_list@;
        let top: Pair = open_list.swap_remove(best);
        let c_idx: usize = top.value;
        proof {
            assert(entry_ok(nodes@, top));
            lemma_cover_after_pop(nodes@, closed_list@, op0, best as int, c_idx as int);
            assert(open_list@ == op0.update(best as int, op0[op0.len() - 1]).drop_last());
            assert(heap_ok(nodes@, open_list@)) by {
                assert forall|kk: int| 0 <= kk < open_list@.len() implies entry_ok(
                    nodes@,
                    #[trigger] open_list@[kk],
                ) by {
                    if kk == best as int {
                        assert(open_list@[kk] == op0[op0.len() - 1]);
                    } else {
                        assert(open_list@[kk] == op0[kk]);
                    }
                }
            }
            assert(forall|kk: int|
                0 <= kk < open_list@.len() ==> ((#[trigger] open_list@[kk]).key as int) <= ((
                top.key) as int)) by {
                assert forall|kk: int| 0 <= kk < open_list@.len() implies ((
                #[trigger] open_list@[kk]).key as int) <= ((top.key) as int) by {
                    if kk == best as int {
                        assert(open_list@[kk] == op0[op0.len() - 1]);
                    } else {
                        assert(open_list@[kk] == op0[kk]);
                    }
                }
            }
        }
        if closed_list[c_idx] {
            proof {
                assert(heap_cover(nodes@, closed_list@, open_list@, wh(maze))) by {
                    assert forall|i2: int|
                        0 <= i2 < nodes@.len() && (#[trigger] nodes@[i2]).g >= 0
                            && !closed_list@[i2] && i2 != wh(maze) implies exists|k2: int|
                        0 <= k2 < open_list@.len() && ((#[trigger] open_list@[k2]).value as int)
                            == i2 && 0 - (open_list@[k2].key as int) == ((nodes@[i2].g) as int) + ((
                        nodes@[i2].h) as int) by {
                        assert(i2 != c_idx as int);
                    }
                }
            }
            continue ;
        }
        let current: Node = nodes[c_idx];
        proof {
            assert forall|q: Seq<char>|
                #[trigger] maze.connects(cell(maze.width(), c_idx as int), q) implies q.len() >= ((
            current.g) as int) by {
                lemma_pop_bound(
                    maze,
                    nodes@,
                    closed_list@,
                    open_list@,
                    c_idx as int,
                    top.key as int,
                    q,
                );
            }
            lemma_cell_idx(w as int, h as int, c_idx as int);
        }
        if current.pos[0] == sx && current.pos[1] == sy {
            proof {
                assert(cell(maze.width(), c_idx as int) == maze.start());
            }
            let path: Vec<char> = read_path(maze, &nodes, &closed_list, c_idx, gx, gy);
            proof {
                assert(maze.solves(path@));
                assert forall|q: Seq<char>| #[trigger] maze.solves(q) implies q.len()
                    >= path@.len() by {
                    assert(maze.connects(cell(maze.width(), c_idx as int), q));
                }
                if maze.start() == maze.goal() {
                    assert((c_idx as int) == root_id(maze));
                }
                if maze.start() != maze.goal() {
                    assert((c_idx as int) != root_id(maze));
                    assert(chain_entry_ok(maze, closed_list@, nodes@[c_idx as int], c_idx as int));
                    assert(path@.len() >= 1);
                }
            }
            return path;
        }
        let ghost cl0 = closed_list@;
        closed_list.set(c_idx, true);
        proof {
            lemma_close_step(maze, nodes@, cl0, c_idx as int, ccount);
            ccount = ccount + 1;
        }
        let ghost cl1 = closed_list@;
        let ghost ns0 = nodes@;
        relax(
            maze,
            w,
            h,
            maze.starting_position,
            &mut nodes,
            &closed_list,
            &mut open_list,
            current,
            c_idx,
            'N',
            Ghost(ccount),
        );
        let ghost ns1 = nodes@;
        relax(
            maze,
            w,
            h,
            maze.starting_position,
            &mut nodes,
            &closed_list,
            &mut open_list,
            current,
            c_idx,
            'W',
            Ghost(ccount),
        );
        let ghost ns2 = nodes@;
        relax(
            maze,
            w,
            h,
            maze.starting_position,
            &mut nodes,
            &closed_list,
            &mut open_list,
            current,
            c_idx,
            'E',
            Ghost(ccount),
        );
        let ghost ns3 = nodes@;
        relax(
            maze,
            w,
            h,
            maze.starting_position,
            &mut nodes,
            &closed_list,
            &mut open_list,
            current,
            c_idx,
            'S',
            Ghost(ccount),
        );
        proof {
            lemma_closure_rebuild(
                maze,
                ns0,
                ns1,
                ns2,
                ns3,
                nodes@,
                cl0,
                cl1,
                c_idx as int,
            );
        }
    }
    proof {
        assert forall|i2: int|
            0 <= i2 < nodes@.len() && (#[trigger] nodes@[i2]).g >= 0 implies closed_list@[i2] by {
            if !closed_list@[i2] {
                assert(false);
            }
        }
        if maze.start() != maze.goal() && maze.open_at(maze.start()) && (exists|q: Seq<char>|
            #[trigger] maze.solves(q)) {
            let q = choose|q: Seq<char>| #[trigger] maze.solves(q);
            lemma_exhausted(maze, nodes@, closed_list@, q);
            assert(false);
        }
    }
    Vec::new()
}


} // verus!
