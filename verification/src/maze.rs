use vstd::prelude::*;

verus! {

/// One rectangular maze: a grid of cells, `'X'` marking a wall and any other
/// character a passable cell, together with a start and a goal coordinate.
///
/// A coordinate is a pair `[x, y]`: `x` selects the column and `y` the row,
/// so the cell at `[x, y]` is `map[y][x]`. Row 0 is the northern edge of the
/// grid: moving north decreases `y`, moving south increases it, moving east
/// increases `x` and moving west decreases it.
pub struct Maze {
    pub name: String,
    pub maze_path: String,
    pub starting_position: [i32; 2],
    pub ending_position: [i32; 2],
    pub map: Vec<Vec<char>>,
}

/// Largest accepted width and height of a grid; it keeps every cell id and
/// every frontier priority far below the integer limits.
pub const MAX_SIDE: usize = 4096;

/// The four cardinal moves.
pub open spec fn is_dir(c: char) -> bool {
    c == 'N' || c == 'S' || c == 'E' || c == 'W'
}

/// The cell reached from `p` by the single move `c`.
pub open spec fn step(p: (int, int), c: char) -> (int, int) {
    if c == 'N' {
        (p.0, p.1 - 1)
    } else if c == 'S' {
        (p.0, p.1 + 1)
    } else if c == 'E' {
        (p.0 + 1, p.1)
    } else {
        (p.0 - 1, p.1)
    }
}

/// The cell that the move `c` leads away from when it arrives at `p`:
/// the inverse of `step`.
pub open spec fn back_step(p: (int, int), c: char) -> (int, int) {
    if c == 'N' {
        (p.0, p.1 + 1)
    } else if c == 'S' {
        (p.0, p.1 - 1)
    } else if c == 'E' {
        (p.0 - 1, p.1)
    } else {
        (p.0 + 1, p.1)
    }
}

/// The cell where the walk `q`, started at `p`, ends.
pub open spec fn walk(p: (int, int), q: Seq<char>) -> (int, int)
    decreases q.len(),
{
    if q.len() == 0 {
        p
    } else {
        walk(step(p, q[0]), q.skip(1))
    }
}

/// Manhattan distance between two cells: the length of a shortest move
/// sequence between them on a grid without walls.
pub open spec fn md(a: (int, int), b: (int, int)) -> int {
    vstd::math::abs(a.0 - b.0) as int + vstd::math::abs(a.1 - b.1) as int
}

impl Maze {
    pub open spec fn height(&self) -> int {
        self.map@.len() as int
    }

    pub open spec fn width(&self) -> int {
        self.map@[0]@.len() as int
    }

    pub open spec fn start(&self) -> (int, int) {
        (self.starting_position@[0] as int, self.starting_position@[1] as int)
    }

    pub open spec fn goal(&self) -> (int, int) {
        (self.ending_position@[0] as int, self.ending_position@[1] as int)
    }

    pub open spec fn in_grid(&self, p: (int, int)) -> bool {
        0 <= p.0 < self.width() && 0 <= p.1 < self.height()
    }

    /// The cell `p` is passable.
    pub open spec fn open_at(&self, p: (int, int)) -> bool {
        self.map@[p.1]@[p.0] != 'X'
    }

    /// A well-formed maze: a non-empty rectangular grid of bounded size with
    /// the start and the goal inside it.
    pub open spec fn wf(&self) -> bool {
        &&& 1 <= self.height() <= MAX_SIDE as int
        &&& 1 <= self.width() <= MAX_SIDE as int
        &&& forall|y: int|
            0 <= y < self.height() ==> (#[trigger] self.map@[y])@.len() == self.width()
        &&& self.in_grid(self.start())
        &&& self.in_grid(self.goal())
    }

    /// The walk `q`, started at `p`, only ever steps onto passable cells
    /// inside the grid.
    pub open spec fn route_ok(&self, p: (int, int), q: Seq<char>) -> bool
        decreases q.len(),
    {
        q.len() == 0 || {
            let n = step(p, q[0]);
            is_dir(q[0]) && self.in_grid(n) && self.open_at(n) && self.route_ok(n, q.skip(1))
        }
    }

    /// The walk `q` leads from `p` to the goal without touching a wall.
    pub open spec fn connects(&self, p: (int, int), q: Seq<char>) -> bool {
        self.route_ok(p, q) && walk(p, q) == self.goal()
    }

    /// The walk `q` solves the maze: it leads from the start to the goal
    /// without touching a wall.
    pub open spec fn solves(&self, q: Seq<char>) -> bool {
        self.connects(self.start(), q)
    }
}

/// Appending one move to a walk steps once from the walk's end.
pub proof fn lemma_walk_snoc(p: (int, int), q: Seq<char>, c: char)
    ensures
        walk(p, q.push(c)) == step(walk(p, q), c),
    decreases q.len(),
{
    if q.len() == 0 {
        assert(q.push(c)[0] == c);
        assert(q.push(c).skip(1) =~= Seq::<char>::empty());
        assert(walk(p, q.push(c)) == walk(step(p, c), q.push(c).skip(1)));
        assert(walk(step(p, c), Seq::<char>::empty()) == step(p, c));
        assert(walk(p, q) == p);
    } else {
        assert(q.push(c)[0] == q[0]);
        assert(q.push(c).skip(1) =~= q.skip(1).push(c));
        lemma_walk_snoc(step(p, q[0]), q.skip(1), c);
        assert(walk(p, q.push(c)) == walk(step(p, q[0]), q.skip(1).push(c)));
        assert(walk(p, q) == walk(step(p, q[0]), q.skip(1)));
    }
}

/// A walk extended by one move keeps to the grid exactly when the walk does
/// and the added move steps onto a passable cell of the grid.
pub proof fn lemma_route_snoc(m: &Maze, p: (int, int), q: Seq<char>, c: char)
    ensures
        m.route_ok(p, q.push(c)) <==> (m.route_ok(p, q) && is_dir(c) && m.in_grid(
            step(walk(p, q), c),
        ) && m.open_at(step(walk(p, q), c))),
    decreases q.len(),
{
    if q.len() == 0 {
        assert(q.push(c)[0] == c);
        assert(q.push(c).skip(1) =~= Seq::<char>::empty());
        assert(m.route_ok(step(p, c), Seq::<char>::empty()));
        assert(m.route_ok(p, q));
        assert(walk(p, q) == p);
    } else {
        let p1 = step(p, q[0]);
        assert(q.push(c)[0] == q[0]);
        assert(q.push(c).skip(1) =~= q.skip(1).push(c));
        lemma_route_snoc(m, p1, q.skip(1), c);
        lemma_walk_snoc(p1, q.skip(1), c);
        assert(m.route_ok(p, q.push(c)) <==> (is_dir(q[0]) && m.in_grid(p1) && m.open_at(p1)
            && m.route_ok(p1, q.skip(1).push(c))));
        assert(m.route_ok(p, q) <==> (is_dir(q[0]) && m.in_grid(p1) && m.open_at(p1)
            && m.route_ok(p1, q.skip(1))));
        assert(walk(p, q) == walk(p1, q.skip(1)));
    }
}

/// A walk that keeps to the grid splits at any point into two such walks,
/// the second starting where the first ends.
pub proof fn lemma_route_split(m: &Maze, p: (int, int), q: Seq<char>, j: int)
    requires
        m.route_ok(p, q),
        0 <= j <= q.len(),
    ensures
        m.route_ok(p, q.take(j)),
        m.route_ok(walk(p, q.take(j)), q.skip(j)),
        walk(p, q) == walk(walk(p, q.take(j)), q.skip(j)),
    decreases j,
{
    if j == 0 {
        assert(q.take(0) =~= Seq::<char>::empty());
        assert(q.skip(0) =~= q);
    } else {
        let p1 = step(p, q[0]);
        assert(q.take(j)[0] == q[0]);
        assert(q.take(j).skip(1) =~= q.skip(1).take(j - 1));
        assert(q.skip(j) =~= q.skip(1).skip(j - 1));
        lemma_route_split(m, p1, q.skip(1), j - 1);
    }
}

/// A non-empty walk that keeps to the grid ends on a passable cell inside it.
pub proof fn lemma_route_end(m: &Maze, p: (int, int), q: Seq<char>)
    requires
        m.route_ok(p, q),
        q.len() >= 1,
    ensures
        m.in_grid(walk(p, q)),
        m.open_at(walk(p, q)),
    decreases q.len(),
{
    let p1 = step(p, q[0]);
    assert(m.in_grid(p1) && m.open_at(p1) && m.route_ok(p1, q.skip(1)));
    if q.len() == 1 {
        assert(q.skip(1) =~= Seq::<char>::empty());
        assert(walk(p, q) == walk(p1, q.skip(1)));
        assert(walk(p1, Seq::<char>::empty()) == p1);
    } else {
        lemma_route_end(m, p1, q.skip(1));
        assert(walk(p, q) == walk(p1, q.skip(1)));
    }
}

/// Along a walk the Manhattan distance to any fixed cell changes by at most
/// one per move.
pub proof fn lemma_md_route(p: (int, int), q: Seq<char>, t: (int, int))
    ensures
        md(walk(p, q), t) >= md(p, t) - q.len(),
        md(walk(p, q), t) <= md(p, t) + q.len(),
    decreases q.len(),
{
    if q.len() > 0 {
        lemma_md_route(step(p, q[0]), q.skip(1), t);
    }
}

/// No walk between two cells is shorter than their Manhattan distance.
pub proof fn lemma_md_lower_bound(p: (int, int), q: Seq<char>, t: (int, int))
    requires
        walk(p, q) == t,
    ensures
        q.len() >= md(p, t),
{
    lemma_md_route(p, q, t);
}

} // verus!
