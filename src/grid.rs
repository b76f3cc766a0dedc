use vstd::prelude::*;

use crate::random::random_in;

verus! {

/// The state of one cell of the grid.
#[derive(Debug, Clone, Copy, PartialEq, Eq, Structural)]
pub enum Node {
    Wall,
    Floor,
}

/// The one way in which dungeon generation can fail.
#[derive(Debug, Clone, Copy, PartialEq, Eq, Structural)]
pub enum GridError {
    /// The grid is narrower or lower than three tiles, so no interior
    /// start position exists.
    InvalidDimensions,
}

/// The mathematical picture of a grid: its size and its tiles, row-major.
pub ghost struct GridModel {
    pub width: nat,
    pub height: nat,
    pub tiles: Seq<Node>,
}

impl GridModel {
    /// A grid of `width * height` tiles, every one a wall.
    pub open spec fn walls(width: nat, height: nat) -> GridModel {
        GridModel { width, height, tiles: Seq::new(width * height, |i: int| Node::Wall) }
    }

    /// One tile per cell.
    pub open spec fn wf(self) -> bool {
        self.tiles.len() == self.width * self.height
    }

    /// `(x, y)` lies on the grid.
    pub open spec fn in_bounds(self, x: int, y: int) -> bool {
        0 <= x < self.width && 0 <= y < self.height
    }

    /// The row-major position of `(x, y)` in `tiles`.
    pub open spec fn index(self, x: int, y: int) -> int {
        y * self.width + x
    }

    /// The tile at `(x, y)`, or `None` off the grid.
    pub open spec fn get(self, x: int, y: int) -> Option<Node> {
        if self.in_bounds(x, y) {
            Some(self.tiles[self.index(x, y)])
        } else {
            None
        }
    }

    /// The grid with `(x, y)` set to `node`; unchanged off the grid.
    pub open spec fn set(self, x: int, y: int, node: Node) -> GridModel {
        if self.in_bounds(x, y) {
            GridModel { tiles: self.tiles.update(self.index(x, y), node), ..self }
        } else {
            self
        }
    }

    /// The grid after the writes `writes` in order, each a position and a tile.
    pub open spec fn set_all(self, writes: Seq<(int, int, Node)>) -> GridModel
        decreases writes.len(),
    {
        if writes.len() == 0 {
            self
        } else {
            let w = writes.last();
            self.set_all(writes.drop_last()).set(w.0, w.1, w.2)
        }
    }

    /// Where one step in direction `dir` (0 left, 1 right, 2 up, 3 down)
    /// leads from `(x, y)`. `None` when the step would leave the grid or
    /// `dir` names no direction: such a step is skipped, not drawn again,
    /// which biases a walk near the border towards the inside.
    pub open spec fn step(self, x: int, y: int, dir: u8) -> Option<(int, int)> {
        if dir == 0 && x > 0 {
            Some((x - 1, y))
        } else if dir == 1 && x + 1 < self.width {
            Some((x + 1, y))
        } else if dir == 2 && y > 0 {
            Some((x, y - 1))
        } else if dir == 3 && y + 1 < self.height {
            Some((x, y + 1))
        } else {
            None
        }
    }

    /// One step of a walk at `(x, y)`: the new position, and the grid with
    /// the tile stepped onto made floor.
    pub open spec fn advance(self, x: int, y: int, dir: u8) -> (int, int, GridModel) {
        match self.step(x, y, dir) {
            Some(p) => (p.0, p.1, self.set(p.0, p.1, Node::Floor)),
            None => (x, y, self),
        }
    }

    /// A walk from `(sx, sy)` along `dirs`: where it ends, and the grid it
    /// leaves, with the start and every tile stepped onto made floor.
    pub open spec fn walk(self, sx: int, sy: int, dirs: Seq<u8>) -> (int, int, GridModel)
        decreases dirs.len(),
    {
        if dirs.len() == 0 {
            (sx, sy, self.set(sx, sy, Node::Floor))
        } else {
            let w = self.walk(sx, sy, dirs.drop_last());
            w.2.advance(w.0, w.1, dirs.last())
        }
    }

    /// The grid that a walk from `(sx, sy)` along `dirs` leaves.
    pub open spec fn walked(self, sx: int, sy: int, dirs: Seq<u8>) -> GridModel {
        self.walk(sx, sy, dirs).2
    }

    /// The grid after the walks `walks` in order, each a start and its steps.
    pub open spec fn walks(self, walks: Seq<(int, int, Seq<u8>)>) -> GridModel
        decreases walks.len(),
    {
        if walks.len() == 0 {
            self
        } else {
            let w = walks.last();
            self.walks(walks.drop_last()).walked(w.0, w.1, w.2)
        }
    }

    /// `walks` is one that generation may draw on this grid: `n` walks,
    /// each from a tile off the border, each of `steps` steps.
    pub open spec fn is_generation_plan(
        self,
        walks: Seq<(int, int, Seq<u8>)>,
        n: nat,
        steps: nat,
    ) -> bool {
        &&& walks.len() == n
        &&& forall|i: int|
            0 <= i < walks.len() ==> {
                &&& 1 <= (#[trigger] walks[i]).0 <= self.width - 2
                &&& 1 <= walks[i].1 <= self.height - 2
                &&& are_directions(walks[i].2, steps)
            }
    }

    /// The number of floor tiles.
    pub open spec fn floor_count(self) -> nat {
        floor_count(self.tiles)
    }
}

/// `dirs` holds `n` steps, each one of the four directions.
pub open spec fn are_directions(dirs: Seq<u8>, n: nat) -> bool {
    &&& dirs.len() == n
    &&& forall|k: int| 0 <= k < dirs.len() ==> #[trigger] dirs[k] < 4
}

/// The number of floor tiles in `s`.
pub open spec fn floor_count(s: Seq<Node>) -> nat
    decreases s.len(),
{
    if s.len() == 0 {
        0
    } else {
        floor_count(s.drop_last()) + if s.last() == Node::Floor {
            1nat
        } else {
            0nat
        }
    }
}

/// Making one tile floor adds one floor tile if it was a wall, else none.
pub proof fn lemma_floor_count_update(s: Seq<Node>, i: int)
    requires
        0 <= i < s.len(),
    ensures
        floor_count(s.update(i, Node::Floor)) == floor_count(s) + if s[i] == Node::Wall {
            1nat
        } else {
            0nat
        },
    decreases s.len(),
{
    let t = s.update(i, Node::Floor);
    if i < s.len() - 1 {
        assert(t.drop_last() =~= s.drop_last().update(i, Node::Floor));
        lemma_floor_count_update(s.drop_last(), i);
    } else {
        assert(t.drop_last() =~= s.drop_last());
    }
}

/// A sequence that holds a floor tile has a positive floor count.
pub proof fn lemma_floor_count_positive(s: Seq<Node>, i: int)
    requires
        0 <= i < s.len(),
        s[i] == Node::Floor,
    ensures
        floor_count(s) >= 1,
    decreases s.len(),
{
    if i < s.len() - 1 {
        lemma_floor_count_positive(s.drop_last(), i);
    }
}

/// A sequence of walls has no floor tile.
pub proof fn lemma_floor_count_walls(n: nat)
    ensures
        floor_count(Seq::new(n, |i: int| Node::Wall)) == 0,
    decreases n,
{
    if n > 0 {
        assert(Seq::new(n, |i: int| Node::Wall).drop_last() =~= Seq::new(
            (n - 1) as nat,
            |i: int| Node::Wall,
        ));
        lemma_floor_count_walls((n - 1) as nat);
    }
}

/// Making a tile floor keeps the size and every floor tile, and adds at
/// most one floor tile.
pub proof fn lemma_set_floor(g: GridModel, x: int, y: int)
    requires
        g.wf(),
    ensures
        ({
            let h = g.set(x, y, Node::Floor);
            &&& h.wf()
            &&& h.width == g.width
            &&& h.height == g.height
            &&& forall|k: int| 0 <= k < g.tiles.len() && g.tiles[k] == Node::Floor
                ==> #[trigger] h.tiles[k] == Node::Floor
            &&& g.floor_count() <= h.floor_count() <= g.floor_count() + 1
            &&& g.in_bounds(x, y) ==> h.get(x, y) == Some(Node::Floor)
        }),
{
    if g.in_bounds(x, y) {
        lemma_index_in_range(g.width as int, g.height as int, x, y);
        lemma_floor_count_update(g.tiles, g.index(x, y));
    }
}

/// A walk keeps the grid's size and every floor tile, and makes floor at
/// most one tile more than it takes steps. Started on the grid, it leaves
/// its start tile floor, so the grid holds at least one floor tile.
pub proof fn lemma_walk_carves(g: GridModel, sx: int, sy: int, dirs: Seq<u8>)
    requires
        g.wf(),
    ensures
        ({
            let h = g.walked(sx, sy, dirs);
            &&& h.wf()
            &&& h.width == g.width
            &&& h.height == g.height
            &&& forall|k: int| 0 <= k < g.tiles.len() && g.tiles[k] == Node::Floor
                ==> #[trigger] h.tiles[k] == Node::Floor
            &&& g.floor_count() <= h.floor_count() <= g.floor_count() + dirs.len() + 1
            &&& g.in_bounds(sx, sy) ==> h.get(sx, sy) == Some(Node::Floor)
            &&& g.in_bounds(sx, sy) ==> h.floor_count() >= 1
        }),
    decreases dirs.len(),
{
    if dirs.len() == 0 {
        lemma_set_floor(g, sx, sy);
    } else {
        let w = g.walk(sx, sy, dirs.drop_last());
        lemma_walk_carves(g, sx, sy, dirs.drop_last());
        match w.2.step(w.0, w.1, dirs.last()) {
            Some(p) => lemma_set_floor(w.2, p.0, p.1),
            None => {},
        }
    }
    let h = g.walked(sx, sy, dirs);
    if g.in_bounds(sx, sy) {
        lemma_index_in_range(g.width as int, g.height as int, sx, sy);
        lemma_floor_count_positive(h.tiles, g.index(sx, sy));
    }
}

/// A cell inside a `width` by `height` grid has a row-major index below
/// `width * height`.
pub proof fn lemma_index_in_range(width: int, height: int, x: int, y: int)
    requires
        0 <= x < width,
        0 <= y < height,
    ensures
        0 <= y * width + x < width * height,
{
    assert(y * width + x < width * height) by (nonlinear_arith)
        requires
            0 <= x < width,
            0 <= y < height,
    ;
    assert(0 <= y * width) by (nonlinear_arith)
        requires
            0 <= x < width,
            0 <= y,
    ;
}

/// Two cells of a grid of width `width` share a row-major index only if
/// they are the same cell.
pub proof fn lemma_index_injective(width: int, x1: int, y1: int, x2: int, y2: int)
    requires
        0 <= x1 < width,
        0 <= x2 < width,
        0 <= y1,
        0 <= y2,
        y1 * width + x1 == y2 * width + x2,
    ensures
        x1 == x2,
        y1 == y2,
{
    if y1 < y2 {
        assert(y1 * width + x1 < y2 * width + x2) by (nonlinear_arith)
            requires
                0 <= x1 < width,
                0 <= x2,
                y1 < y2,
        ;
    } else if y2 < y1 {
        assert(y2 * width + x2 < y1 * width + x1) by (nonlinear_arith)
            requires
                0 <= x2 < width,
                0 <= x1,
                y2 < y1,
        ;
    }
}

/// Writes keep the grid's size.
pub proof fn lemma_set_all_wf(g: GridModel, writes: Seq<(int, int, Node)>)
    requires
        g.wf(),
    ensures
        g.set_all(writes).wf(),
        g.set_all(writes).width == g.width,
        g.set_all(writes).height == g.height,
    decreases writes.len(),
{
    if writes.len() > 0 {
        let w = writes.last();
        lemma_set_all_wf(g, writes.drop_last());
        if g.in_bounds(w.0, w.1) {
            lemma_index_in_range(g.width as int, g.height as int, w.0, w.1);
        }
    }
}

/// After a run of writes, reading a cell gives the tile last written
/// there: `writes[j]` writes the on-grid `(x, y)` and no later write does.
pub proof fn lemma_last_write_wins(
    g: GridModel,
    writes: Seq<(int, int, Node)>,
    j: int,
    x: int,
    y: int,
)
    requires
        g.wf(),
        g.in_bounds(x, y),
        0 <= j < writes.len(),
        writes[j].0 == x && writes[j].1 == y,
        forall|k: int| j < k < writes.len() ==> !((#[trigger] writes[k]).0 == x && writes[k].1 == y),
    ensures
        g.set_all(writes).get(x, y) == Some(writes[j].2),
    decreases writes.len(),
{
    let rest = writes.drop_last();
    let w = writes.last();
    lemma_set_all_wf(g, rest);
    let h = g.set_all(rest);
    lemma_index_in_range(g.width as int, g.height as int, x, y);
    if j < writes.len() - 1 {
        assert forall|k: int| j < k < rest.len() implies !((#[trigger] rest[k]).0 == x && rest[k].1
            == y) by {
            assert(rest[k] == writes[k]);
        }
        lemma_last_write_wins(g, rest, j, x, y);
        assert(writes[writes.len() - 1] == w);
        if h.in_bounds(w.0, w.1) {
            lemma_index_in_range(g.width as int, g.height as int, w.0, w.1);
            if h.index(w.0, w.1) == h.index(x, y) {
                lemma_index_injective(g.width as int, w.0, w.1, x, y);
            }
        }
    }
}

/// Generation keeps the grid's size and every floor tile, and makes floor
/// at most `steps + 1` tiles per walk. With at least one walk the grid
/// holds a floor tile.
pub proof fn lemma_generation_carves(
    g: GridModel,
    walks: Seq<(int, int, Seq<u8>)>,
    n: nat,
    steps: nat,
)
    requires
        g.wf(),
        g.is_generation_plan(walks, n, steps),
    ensures
        ({
            let h = g.walks(walks);
            &&& h.wf()
            &&& h.width == g.width
            &&& h.height == g.height
            &&& g.floor_count() <= h.floor_count() <= g.floor_count() + n * (steps + 1)
            &&& n >= 1 ==> h.floor_count() >= 1
        }),
    decreases n,
{
    if n > 0 {
        let rest = walks.drop_last();
        assert(g.is_generation_plan(rest, (n - 1) as nat, steps)) by {
            assert forall|i: int| 0 <= i < rest.len() implies #[trigger] rest[i] == walks[i] by {}
        }
        lemma_generation_carves(g, rest, (n - 1) as nat, steps);
        let w = walks.last();
        assert(walks[n - 1] == w);
        lemma_walk_carves(g.walks(rest), w.0, w.1, w.2);
        assert((n - 1) * (steps + 1) + steps + 1 == n * (steps + 1)) by (nonlinear_arith);
    }
}

/// A dense, row-major grid of tiles.
pub struct Grid {
    pub width: usize,
    pub height: usize,
    pub nodes: Vec<Node>,
}

impl View for Grid {
    type V = GridModel;

    open spec fn view(&self) -> GridModel {
        GridModel { width: self.width as nat, height: self.height as nat, tiles: self.nodes@ }
    }
}

impl Grid {
    /// Well-formed: one tile per cell, and a cell count that fits in `usize`.
    pub open spec fn wf(&self) -> bool {
        &&& self@.wf()
        &&& self.width * self.height <= usize::MAX
    }

    /// Creates a `width` by `height` grid filled with walls.
    pub fn new(width: usize, height: usize) -> (grid: Self)
        requires
            width * height <= usize::MAX,
        ensures
            grid.width == width,
            grid.height == height,
            grid.wf(),
            grid@ == GridModel::walls(width as nat, height as nat),
            grid.nodes@.len() == width * height,
            forall|i: int| 0 <= i < grid.nodes@.len() ==> #[trigger] grid.nodes@[i] == Node::Wall,
            grid@.floor_count() == 0,
    {
        let n: usize = width * height;
        let mut nodes: Vec<Node> = Vec::with_capacity(n);
        let mut i: usize = 0;
        while i < n
            invariant
                i <= n,
                nodes@ == Seq::new(i as nat, |k: int| Node::Wall),
            decreases n - i,
        {
            nodes.push(Node::Wall);
            i = i + 1;
            assert(nodes@ =~= Seq::new(i as nat, |k: int| Node::Wall));
        }
        let grid = Grid { width, height, nodes };
        assert(grid@.tiles =~= GridModel::walls(width as nat, height as nat).tiles);
        proof {
            lemma_floor_count_walls((width * height) as nat);
        }
        grid
    }

    /// One step of a walk from `(x, y)` in direction `dir`; the tile
    /// stepped onto becomes floor. Returns the new position.
    fn advance(&mut self, x: usize, y: usize, dir: u8) -> (r: (usize, usize))
        requires
            old(self).wf(),
        ensures
            final(self).wf(),
            final(self).width == old(self).width,
            final(self).height == old(self).height,
            (r.0 as int, r.1 as int, final(self)@) == old(self)@.advance(x as int, y as int, dir),
    {
        let next: Option<(usize, usize)> = if dir == 0 && x > 0 {
            Some((x - 1, y))
        } else if dir == 1 && self.width > 0 && x < self.width - 1 {
            Some((x + 1, y))
        } else if dir == 2 && y > 0 {
            Some((x, y - 1))
        } else if dir == 3 && self.height > 0 && y < self.height - 1 {
            Some((x, y + 1))
        } else {
            None
        };
        match next {
            Some((nx, ny)) => {
                self.set_node(nx, ny, Node::Floor);
                (nx, ny)
            },
            None => (x, y),
        }
    }

    /// Carves the walk from `(start_x, start_y)` that takes the steps
    /// `dirs` (0 left, 1 right, 2 up, 3 down). The start and each tile
    /// stepped onto become floor; a step that would leave the grid, or a
    /// value that names no direction, is skipped.
    pub fn carve_walk(&mut self, start_x: usize, start_y: usize, dirs: &Vec<u8>)
        requires
            old(self).wf(),
        ensures
            final(self).wf(),
            final(self).width == old(self).width,
            final(self).height == old(self).height,
            final(self)@ == old(self)@.walked(start_x as int, start_y as int, dirs@),
    {
        self.set_node(start_x, start_y, Node::Floor);
        let mut x = start_x;
        let mut y = start_y;
        let mut i: usize = 0;
        while i < dirs.len()
            invariant
                self.wf(),
                self.width == old(self).width,
                self.height == old(self).height,
                i <= dirs.len(),
                (x as int, y as int, self@) == old(self)@.walk(
                    start_x as int,
                    start_y as int,
                    dirs@.subrange(0, i as int),
                ),
            decreases dirs.len() - i,
        {
            let p = self.advance(x, y, dirs[i]);
            x = p.0;
            y = p.1;
            assert(dirs@.subrange(0, i + 1).drop_last() =~= dirs@.subrange(0, i as int));
            i = i + 1;
        }
        assert(dirs@.subrange(0, dirs@.len() as int) =~= dirs@);
    }

    /// Carves a random walk of `steps` steps from `(start_x, start_y)`:
    /// each step draws one of the four directions uniformly.
    pub fn random_walk(&mut self, start_x: usize, start_y: usize, steps: usize)
        requires
            old(self).wf(),
        ensures
            final(self).wf(),
            final(self).width == old(self).width,
            final(self).height == old(self).height,
            exists|dirs: Seq<u8>|
                are_directions(dirs, steps as nat) && final(self)@ == old(self)@.walked(
                    start_x as int,
                    start_y as int,
                    dirs,
                ),
            old(self)@.floor_count() <= final(self)@.floor_count() <= old(self)@.floor_count()
                + steps + 1,
            old(self)@.in_bounds(start_x as int, start_y as int) ==> final(self)@.get(
                start_x as int,
                start_y as int,
            ) == Some(Node::Floor),
            old(self)@.in_bounds(start_x as int, start_y as int) ==> final(self)@.floor_count()
                >= 1,
    {
        self.set_node(start_x, start_y, Node::Floor);
        let mut x = start_x;
        let mut y = start_y;
        let ghost mut dirs: Seq<u8> = Seq::empty();
        let mut i: usize = 0;
        while i < steps
            invariant
                self.wf(),
                self.width == old(self).width,
                self.height == old(self).height,
                i <= steps,
                are_directions(dirs, i as nat),
                (x as int, y as int, self@) == old(self)@.walk(start_x as int, start_y as int, dirs),
            decreases steps - i,
        {
            let dir = random_in(0, 4) as u8;
            let p = self.advance(x, y, dir);
            x = p.0;
            y = p.1;
            proof {
                assert(dirs.push(dir).drop_last() =~= dirs);
                dirs = dirs.push(dir);
            }
            i = i + 1;
        }
        proof {
            lemma_walk_carves(old(self)@, start_x as int, start_y as int, dirs);
        }
    }

    /// Carves a dungeon by `num_walks` random walks of `steps_per_walk`
    /// steps, each from a start drawn uniformly among the tiles off the
    /// border. Fails with `InvalidDimensions`, leaving the grid as it was,
    /// when the grid is narrower or lower than three tiles.
    pub fn generate_dungeon(&mut self, num_walks: usize, steps_per_walk: usize) -> (r: Result<
        (),
        GridError,
    >)
        requires
            old(self).wf(),
        ensures
            final(self).wf(),
            final(self).width == old(self).width,
            final(self).height == old(self).height,
            r is Err <==> old(self).width < 3 || old(self).height < 3,
            r is Err ==> r == Err::<(), GridError>(GridError::InvalidDimensions) && final(self)@
                == old(self)@,
            r is Ok ==> exists|walks: Seq<(int, int, Seq<u8>)>|
                old(self)@.is_generation_plan(walks, num_walks as nat, steps_per_walk as nat)
                    && final(self)@ == old(self)@.walks(walks),
            r is Ok ==> old(self)@.floor_count() <= final(self)@.floor_count()
                <= old(self)@.floor_count() + num_walks * (steps_per_walk + 1),
            r is Ok && num_walks >= 1 ==> final(self)@.floor_count() >= 1,
    {
        if self.width < 3 || self.height < 3 {
            return Err(GridError::InvalidDimensions);
        }
        let ghost mut walks: Seq<(int, int, Seq<u8>)> = Seq::empty();
        let mut i: usize = 0;
        while i < num_walks
            invariant
                self.wf(),
                self.width == old(self).width,
                self.height == old(self).height,
                self.width >= 3,
                self.height >= 3,
                i <= num_walks,
                old(self)@.is_generation_plan(walks, i as nat, steps_per_walk as nat),
                self@ == old(self)@.walks(walks),
            decreases num_walks - i,
        {
            let start_x = random_in(1, self.width - 1);
            let start_y = random_in(1, self.height - 1);
            let ghost before = self@;
            self.random_walk(start_x, start_y, steps_per_walk);
            proof {
                let dirs = choose|dirs: Seq<u8>|
                    are_directions(dirs, steps_per_walk as nat) && self@ == before.walked(
                        start_x as int,
                        start_y as int,
                        dirs,
                    );
                let next = walks.push((start_x as int, start_y as int, dirs));
                assert(next.drop_last() =~= walks);
                assert forall|k: int| 0 <= k < walks.len() implies #[trigger] next[k] == walks[k] by {}
                walks = next;
            }
            i = i + 1;
        }
        proof {
            lemma_generation_carves(old(self)@, walks, num_walks as nat, steps_per_walk as nat);
        }
        Ok(())
    }

    /// Whether `(x, y)` lies on the grid.
    fn in_bounds(&self, x: usize, y: usize) -> (r: bool)
        ensures
            r == self@.in_bounds(x as int, y as int),
    {
        x < self.width && y < self.height
    }

    /// The row-major position of the on-grid cell `(x, y)` in `nodes`.
    fn idx(&self, x: usize, y: usize) -> (i: usize)
        requires
            self.wf(),
            self@.in_bounds(x as int, y as int),
        ensures
            i == self@.index(x as int, y as int),
            i < self.nodes@.len(),
    {
        proof {
            lemma_index_in_range(self.width as int, self.height as int, x as int, y as int);
        }
        y * self.width + x
    }

    /// Writes `node` at `(x, y)`; does nothing off the grid.
    pub fn set_node(&mut self, x: usize, y: usize, node: Node)
        requires
            old(self).wf(),
        ensures
            final(self).wf(),
            final(self).width == old(self).width,
            final(self).height == old(self).height,
            final(self)@ == old(self)@.set(x as int, y as int, node),
    {
        if self.in_bounds(x, y) {
            let i = self.idx(x, y);
            self.nodes.set(i, node);
        }
    }

    /// The tile at `(x, y)`, or `None` when `x >= width` or `y >= height`.
    pub fn get_node(&self, x: usize, y: usize) -> (r: Option<Node>)
        requires
            self.wf(),
        ensures
            r == self@.get(x as int, y as int),
            r is None <==> x >= self.width || y >= self.height,
    {
        if self.in_bounds(x, y) {
            Some(self.nodes[self.idx(x, y)])
        } else {
            None
        }
    }
}

} // verus!
