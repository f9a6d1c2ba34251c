//! The grid map and the mutable play state, with the move resolution rules.

use vstd::prelude::*;

verus! {

/// The static terrain kind of one grid cell. Tiles never change during play.
#[derive(Clone, Copy, Debug, PartialEq, Eq, Structural)]
pub enum Tile {
    /// Outside any defined area; unused by the rules.
    Empty,
    /// Walkable ground that is not a goal.
    Floor,
    /// Walkable ground that every box must end up on.
    Goal,
    /// Impassable, static.
    Wall,
}

/// A fixed-size rectangular arrangement of tiles, stored in row-major order:
/// the cell `(x, y)` lives at index `y * width + x`.
#[derive(Debug)]
pub struct GridMap {
    pub tiles: Vec<Tile>,
    pub width: usize,
    pub height: usize,
}

/// `0 <= y * w + x < w * h` for any cell `(x, y)` of a `w` by `h` grid.
proof fn lemma_row_major_in_range(x: int, y: int, w: int, h: int)
    by (nonlinear_arith)
    requires
        0 <= x < w,
        0 <= y < h,
    ensures
        0 <= y * w + x < w * h,
{
}

/// Splitting a row-major index back into coordinates inverts the indexing.
proof fn lemma_row_major_decompose(i: int, w: int, h: int)
    by (nonlinear_arith)
    requires
        0 < w,
        0 <= i < w * h,
    ensures
        0 <= i % w < w,
        0 <= i / w < h,
        (i / w) * w + (i % w) == i,
{
}

impl GridMap {
    /// The dimensions agree with the storage.
    pub open spec fn wf(self) -> bool {
        self.tiles@.len() == self.width * self.height
    }

    pub open spec fn in_bounds(self, x: int, y: int) -> bool {
        0 <= x < self.width && 0 <= y < self.height
    }

    pub open spec fn on_border(self, x: int, y: int) -> bool {
        x == 0 || y == 0 || x == self.width - 1 || y == self.height - 1
    }

    /// The tile stored for the cell `(x, y)`.
    pub open spec fn spec_tile(self, x: int, y: int) -> Tile {
        self.tiles@[y * self.width + x]
    }

    /// Every border cell is a wall, so play can never leave the grid.
    pub open spec fn closed(self) -> bool {
        forall|x: int, y: int|
            self.in_bounds(x, y) && self.on_border(x, y) ==> #[trigger] self.spec_tile(x, y)
                == Tile::Wall
    }

    pub fn get_tile(&self, x: usize, y: usize) -> (t: Tile)
        requires
            self.wf(),
            x < self.width,
            y < self.height,
        ensures
            t == self.spec_tile(x as int, y as int),
    {
        // Reading the length first records that `width * height` fits in a
        // `usize`, so the index arithmetic below cannot overflow.
        let n: usize = self.tiles.len();
        proof {
            lemma_row_major_in_range(x as int, y as int, self.width as int, self.height as int);
        }
        let i = y * self.width + x;
        self.tiles[i]
    }

    /// Every cell with its coordinates, exactly once, in row-major order.
    pub open spec fn entries(self) -> Seq<(Tile, int, int)> {
        Seq::new(
            self.tiles@.len(),
            |i: int| (self.tiles@[i], i % (self.width as int), i / (self.width as int)),
        )
    }

    /// A fresh traversal of all tiles, starting at the cell `(0, 0)`.
    pub fn iter_tiles(&self) -> (it: TileIterator<'_>)
        requires
            self.wf(),
        ensures
            it.map == self,
            it.index == 0,
    {
        TileIterator { map: self, index: 0 }
    }
}

/// A cursor over the cells of a map, yielding `(tile, x, y)` triples in
/// row-major order. A fresh one can be started at any time; traversal never
/// changes the map.
pub struct TileIterator<'a> {
    pub map: &'a GridMap,
    pub index: usize,
}

impl<'a> TileIterator<'a> {
    /// The next cell with its coordinates, or `None` once every cell of the
    /// map has been yielded.
    pub fn next(&mut self) -> (r: Option<(Tile, usize, usize)>)
        requires
            old(self).map.wf(),
        ensures
            final(self).map == old(self).map,
            old(self).index < old(self).map.entries().len() ==> {
                &&& final(self).index == old(self).index + 1
                &&& r == Some(
                    (
                        old(self).map.entries()[old(self).index as int].0,
                        old(self).map.entries()[old(self).index as int].1 as usize,
                        old(self).map.entries()[old(self).index as int].2 as usize,
                    ),
                )
            },
            old(self).index >= old(self).map.entries().len() ==> {
                &&& final(self).index == old(self).index
                &&& r is None
            },
    {
        if self.index < self.map.tiles.len() {
            proof {
                assert(self.map.width * self.map.height > 0);
                assert(self.map.width > 0) by (nonlinear_arith)
                    requires
                        (self.map.width as int) * (self.map.height as int) > 0,
                ;
                lemma_row_major_decompose(
                    self.index as int,
                    self.map.width as int,
                    self.map.height as int,
                );
            }
            let tile = self.map.tiles[self.index];
            let x = self.index % self.map.width;
            let y = self.index / self.map.width;
            self.index = self.index + 1;
            Some((tile, x, y))
        } else {
            None
        }
    }
}

/// A cell that is strictly inside a closed map whenever a piece may rest on
/// it: walls cover the whole border, so a non-wall cell has all four
/// neighbours in bounds.
proof fn lemma_open_cell_is_interior(m: GridMap, x: int, y: int)
    requires
        m.wf(),
        m.closed(),
        m.in_bounds(x, y),
        m.spec_tile(x, y) != Tile::Wall,
    ensures
        1 <= x < m.width - 1,
        1 <= y < m.height - 1,
{
    assert(!m.on_border(x, y));
}

/// One of the four unit directions a player may move in.
pub open spec fn unit_dir(dx: int, dy: int) -> bool {
    (dx == 0 && (dy == -1 || dy == 1)) || (dy == 0 && (dx == -1 || dx == 1))
}

/// One coordinate moved by one step of a unit direction.
fn step_coord(v: usize, d: isize) -> (r: usize)
    requires
        -1 <= d <= 1,
        d == -1 ==> v >= 1,
        d == 1 ==> v < usize::MAX,
    ensures
        r as int == v as int + d as int,
{
    if d == -1 {
        v - 1
    } else if d == 1 {
        v + 1
    } else {
        v
    }
}

/// Whether every border cell of a well-formed map is a wall.
fn closed_check(map: &GridMap) -> (r: bool)
    requires
        map.wf(),
    ensures
        r == map.closed(),
{
    if map.width == 0 || map.height == 0 {
        return true;
    }
    let bottom = map.height - 1;
    let right = map.width - 1;
    let mut x: usize = 0;
    while x < map.width
        invariant
            map.wf(),
            map.width >= 1,
            map.height >= 1,
            bottom == map.height - 1,
            x <= map.width,
            forall|i: int| 0 <= i < x ==> #[trigger] map.spec_tile(i, 0) == Tile::Wall,
            forall|i: int|
                0 <= i < x ==> #[trigger] map.spec_tile(i, map.height - 1) == Tile::Wall,
        decreases map.width - x,
    {
        if map.get_tile(x, 0) != Tile::Wall || map.get_tile(x, bottom) != Tile::Wall {
            return false;
        }
        x = x + 1;
    }
    let mut y: usize = 0;
    while y < map.height
        invariant
            map.wf(),
            map.width >= 1,
            map.height >= 1,
            right == map.width - 1,
            y <= map.height,
            forall|j: int| 0 <= j < y ==> #[trigger] map.spec_tile(0, j) == Tile::Wall,
            forall|j: int|
                0 <= j < y ==> #[trigger] map.spec_tile(map.width - 1, j) == Tile::Wall,
            forall|i: int| 0 <= i < map.width ==> #[trigger] map.spec_tile(i, 0) == Tile::Wall,
            forall|i: int|
                0 <= i < map.width ==> #[trigger] map.spec_tile(i, map.height - 1) == Tile::Wall,
        decreases map.height - y,
    {
        if map.get_tile(0, y) != Tile::Wall || map.get_tile(right, y) != Tile::Wall {
            return false;
        }
        y = y + 1;
    }
    proof {
        assert forall|a: int, b: int|
            map.in_bounds(a, b) && map.on_border(a, b) implies map.spec_tile(a, b)
            == Tile::Wall by {
            if b == 0 {
                assert(map.spec_tile(a, 0) == Tile::Wall);
            } else if b == map.height - 1 {
                assert(map.spec_tile(a, map.height - 1) == Tile::Wall);
            } else if a == 0 {
                assert(map.spec_tile(0, b) == Tile::Wall);
            } else {
                assert(map.spec_tile(map.width - 1, b) == Tile::Wall);
            }
        }
    }
    true
}

/// Whether no two stored box positions are equal.
fn distinct_check(boxes: &Vec<(usize, usize)>) -> (r: bool)
    ensures
        r == boxes@.no_duplicates(),
{
    let mut i: usize = 0;
    while i < boxes.len()
        invariant
            i <= boxes@.len(),
            forall|p: int, q: int| 0 <= p < q < i ==> boxes@[p] != boxes@[q],
        decreases boxes@.len() - i,
    {
        let b = boxes[i];
        let mut j: usize = 0;
        while j < i
            invariant
                j <= i,
                i < boxes@.len(),
                b == boxes@[i as int],
                forall|q: int| 0 <= q < j ==> boxes@[q] != boxes@[i as int],
            decreases i - j,
        {
            let c = boxes[j];
            if c.0 == b.0 && c.1 == b.1 {
                return false;
            }
            j = j + 1;
        }
        i = i + 1;
    }
    true
}

/// The mutable play state: one grid map, the box positions (no two equal),
/// and the player position.
#[derive(Debug)]
pub struct World {
    pub map: GridMap,
    pub boxes: Vec<(usize, usize)>,
    pub player_pos: (usize, usize),
}

/// The tiles of the built-in level, row by row:
///
/// ```text
/// #######
/// #.@ # #
/// #$* $ #
/// #   $ #
/// # ..  #
/// #  *  #
/// #######
/// ```
pub open spec fn classic_tiles() -> Seq<Tile> {
    seq![
        Tile::Wall, Tile::Wall, Tile::Wall, Tile::Wall, Tile::Wall, Tile::Wall, Tile::Wall,
        Tile::Wall, Tile::Goal, Tile::Floor, Tile::Floor, Tile::Wall, Tile::Floor, Tile::Wall,
        Tile::Wall, Tile::Floor, Tile::Goal, Tile::Floor, Tile::Floor, Tile::Floor, Tile::Wall,
        Tile::Wall, Tile::Floor, Tile::Floor, Tile::Floor, Tile::Floor, Tile::Floor, Tile::Wall,
        Tile::Wall, Tile::Floor, Tile::Goal, Tile::Goal, Tile::Floor, Tile::Floor, Tile::Wall,
        Tile::Wall, Tile::Floor, Tile::Floor, Tile::Goal, Tile::Floor, Tile::Floor, Tile::Wall,
        Tile::Wall, Tile::Wall, Tile::Wall, Tile::Wall, Tile::Wall, Tile::Wall, Tile::Wall,
    ]
}

/// The initial box positions of the built-in level.
pub open spec fn classic_boxes() -> Seq<(usize, usize)> {
    seq![(1usize, 2usize), (2usize, 2usize), (4usize, 2usize), (4usize, 3usize), (3usize, 5usize)]
}

impl World {
    /// The box positions as mathematical pairs, in storage order.
    pub open spec fn boxes_seq(self) -> Seq<(int, int)> {
        self.boxes@.map_values(|p: (usize, usize)| (p.0 as int, p.1 as int))
    }

    /// The set of box positions.
    pub open spec fn box_set(self) -> Set<(int, int)> {
        self.boxes_seq().to_set()
    }

    /// Whether a box rests on the cell `(x, y)`.
    pub open spec fn box_at(self, x: int, y: int) -> bool {
        self.box_set().contains((x, y))
    }

    /// The player position as a mathematical pair.
    pub open spec fn player(self) -> (int, int) {
        (self.player_pos.0 as int, self.player_pos.1 as int)
    }

    /// A cell a piece may rest on: inside the grid and not a wall.
    pub open spec fn open_cell(self, x: int, y: int) -> bool {
        self.map.in_bounds(x, y) && self.map.spec_tile(x, y) != Tile::Wall
    }

    /// The invariants that hold when a world is built and that every
    /// operation preserves: the map is well-formed and closed by a wall
    /// border, the player and every box rest on in-range non-wall cells, and
    /// no two boxes coincide.
    pub open spec fn wf(self) -> bool {
        &&& self.map.wf()
        &&& self.map.closed()
        &&& self.open_cell(self.player().0, self.player().1)
        &&& self.boxes_seq().no_duplicates()
        &&& forall|p: (int, int)| #[trigger] self.box_set().contains(p) ==> self.open_cell(p.0, p.1)
    }

    /// Build a world from an explicit level: a tile grid, the initial box
    /// positions, and the initial player position. Returns `None` exactly
    /// when the level breaks an invariant of play: storage that does not
    /// match the dimensions, a border cell that is not a wall, a player or
    /// box out of range or on a wall, or two boxes on one cell.
    pub fn from_level(map: GridMap, boxes: Vec<(usize, usize)>, player_pos: (usize, usize)) -> (r:
        Option<World>)
        ensures
            match r {
                Some(w) => {
                    &&& w.map == map
                    &&& w.boxes@ == boxes@
                    &&& w.player_pos == player_pos
                    &&& w.wf()
                },
                None => !(World { map, boxes, player_pos }).wf(),
            },
    {
        let w = World { map, boxes, player_pos };
        let len_ok: bool = match w.map.width.checked_mul(w.map.height) {
            Some(n) => w.map.tiles.len() == n,
            None => false,
        };
        if !len_ok {
            return None;
        }
        if !closed_check(&w.map) {
            return None;
        }
        if !(w.player_pos.0 < w.map.width && w.player_pos.1 < w.map.height) {
            return None;
        }
        if w.map.get_tile(w.player_pos.0, w.player_pos.1) == Tile::Wall {
            return None;
        }
        if !distinct_check(&w.boxes) {
            proof {
                let (p, q) = choose|p: int, q: int|
                    0 <= p < w.boxes@.len() && 0 <= q < w.boxes@.len() && p != q && w.boxes@[p]
                        == w.boxes@[q];
                assert(w.boxes_seq()[p] == w.boxes_seq()[q]);
            }
            return None;
        }
        let mut i: usize = 0;
        while i < w.boxes.len()
            invariant
                w == (World { map, boxes, player_pos }),
                w.map.wf(),
                i <= w.boxes@.len(),
                forall|j: int|
                    0 <= j < i ==> w.open_cell(
                        #[trigger] w.boxes_seq()[j].0,
                        w.boxes_seq()[j].1,
                    ),
            decreases w.boxes@.len() - i,
        {
            let b = w.boxes[i];
            if !(b.0 < w.map.width && b.1 < w.map.height) {
                proof {
                    w.lemma_stored_box_in_set(i as int);
                }
                return None;
            }
            if w.map.get_tile(b.0, b.1) == Tile::Wall {
                proof {
                    w.lemma_stored_box_in_set(i as int);
                }
                return None;
            }
            i = i + 1;
        }
        proof {
            assert(w.boxes_seq().no_duplicates()) by {
                assert forall|p: int, q: int|
                    0 <= p < w.boxes_seq().len() && 0 <= q < w.boxes_seq().len() && p != q
                    implies w.boxes_seq()[p] != w.boxes_seq()[q] by {
                    assert(w.boxes@[p] != w.boxes@[q]);
                }
            }
            assert forall|p: (int, int)| w.box_set().contains(p) implies w.open_cell(
                p.0,
                p.1,
            ) by {
                let j = choose|j: int| 0 <= j < w.boxes_seq().len() && w.boxes_seq()[j] == p;
                assert(w.open_cell(w.boxes_seq()[j].0, w.boxes_seq()[j].1));
            }
        }
        Some(w)
    }

    /// The built-in level: a 7 by 7 closed map with five goals, five boxes
    /// (two of them already on goals), and the player at `(2, 1)`.
    #[verifier::rlimit(100)]
    pub fn new() -> (w: World)
        ensures
            w.wf(),
            w.map.width == 7,
            w.map.height == 7,
            w.map.tiles@ == classic_tiles(),
            w.boxes@ == classic_boxes(),
            w.player_pos == (2usize, 1usize),
    {
        let tiles: Vec<Tile> = vec![
            Tile::Wall, Tile::Wall, Tile::Wall, Tile::Wall, Tile::Wall, Tile::Wall, Tile::Wall,
            Tile::Wall, Tile::Goal, Tile::Floor, Tile::Floor, Tile::Wall, Tile::Floor, Tile::Wall,
            Tile::Wall, Tile::Floor, Tile::Goal, Tile::Floor, Tile::Floor, Tile::Floor, Tile::Wall,
            Tile::Wall, Tile::Floor, Tile::Floor, Tile::Floor, Tile::Floor, Tile::Floor, Tile::Wall,
            Tile::Wall, Tile::Floor, Tile::Goal, Tile::Goal, Tile::Floor, Tile::Floor, Tile::Wall,
            Tile::Wall, Tile::Floor, Tile::Floor, Tile::Goal, Tile::Floor, Tile::Floor, Tile::Wall,
            Tile::Wall, Tile::Wall, Tile::Wall, Tile::Wall, Tile::Wall, Tile::Wall, Tile::Wall,
        ];
        let map = GridMap { tiles, width: 7, height: 7 };
        let boxes: Vec<(usize, usize)> = vec![(1, 2), (2, 2), (4, 2), (4, 3), (3, 5)];
        let w = World { map, boxes, player_pos: (2, 1) };
        proof {
            assert(w.map.tiles@ =~= classic_tiles());
            assert(w.boxes@ =~= classic_boxes());
            assert(w.map.closed()) by {
                assert forall|x: int, y: int|
                    w.map.in_bounds(x, y) && w.map.on_border(x, y) implies w.map.spec_tile(x, y)
                    == Tile::Wall by {
                    assert(w.map.tiles@[y * 7 + x] == Tile::Wall);
                }
            }
            assert forall|p: (int, int)| w.box_set().contains(p) implies w.open_cell(p.0, p.1) by {
                let j = choose|j: int| 0 <= j < w.boxes_seq().len() && w.boxes_seq()[j] == p;
                assert(w.open_cell(w.boxes_seq()[j].0, w.boxes_seq()[j].1));
            }
        }
        w
    }

    /// Membership in the box set matches membership in the stored vector.
    pub proof fn lemma_box_at_iff_stored(self, x: usize, y: usize)
        ensures
            self.box_at(x as int, y as int) <==> self.boxes@.contains((x, y)),
    {
        if self.boxes@.contains((x, y)) {
            let i = choose|i: int| 0 <= i < self.boxes@.len() && self.boxes@[i] == (x, y);
            assert(self.boxes_seq()[i] == (x as int, y as int));
            assert(self.boxes_seq().contains((x as int, y as int)));
        }
        if self.box_at(x as int, y as int) {
            assert(self.boxes_seq().contains((x as int, y as int)));
            let i = choose|i: int|
                0 <= i < self.boxes_seq().len() && self.boxes_seq()[i] == (x as int, y as int);
            assert(self.boxes@[i] == (x, y));
            assert(self.boxes@.contains((x, y)));
        }
    }

    /// Every stored box position is in the box set.
    pub proof fn lemma_stored_box_in_set(self, i: int)
        requires
            0 <= i < self.boxes@.len(),
        ensures
            self.box_set().contains(self.boxes_seq()[i]),
            self.boxes_seq()[i] == (self.boxes@[i].0 as int, self.boxes@[i].1 as int),
    {
        assert(self.boxes_seq().contains(self.boxes_seq()[i]));
    }

    /// The index of the box resting on `(x, y)`, if any.
    pub fn box_index_at(&self, x: usize, y: usize) -> (r: Option<usize>)
        ensures
            match r {
                Some(i) => i < self.boxes@.len() && self.boxes@[i as int] == (x, y)
                    && self.box_at(x as int, y as int),
                None => !self.box_at(x as int, y as int),
            },
    {
        let mut i: usize = 0;
        while i < self.boxes.len()
            invariant
                i <= self.boxes@.len(),
                forall|j: int| 0 <= j < i ==> self.boxes@[j] != (x, y),
            decreases self.boxes@.len() - i,
        {
            let b = self.boxes[i];
            if b.0 == x && b.1 == y {
                proof {
                    self.lemma_box_at_iff_stored(x, y);
                }
                return Some(i);
            }
            i = i + 1;
        }
        proof {
            self.lemma_box_at_iff_stored(x, y);
            assert(!self.boxes@.contains((x, y)));
        }
        None
    }

    /// Whether a box rests on the cell `(x, y)`.
    pub fn has_box(&self, x: usize, y: usize) -> (r: bool)
        ensures
            r == self.box_at(x as int, y as int),
    {
        self.box_index_at(x, y).is_some()
    }

    /// The tile at `(x, y)`, delegated to the owned map.
    pub fn get_tile(&self, x: usize, y: usize) -> (t: Tile)
        requires
            self.map.wf(),
            x < self.map.width,
            y < self.map.height,
        ensures
            t == self.map.spec_tile(x as int, y as int),
    {
        self.map.get_tile(x, y)
    }

    /// A fresh traversal of all tiles, delegated to the owned map.
    pub fn iter_tiles(&self) -> (it: TileIterator<'_>)
        requires
            self.map.wf(),
        ensures
            it.map == self.map,
            it.index == 0,
    {
        self.map.iter_tiles()
    }

    /// Whether every box rests on a goal tile.
    pub open spec fn spec_won(self) -> bool {
        forall|p: (int, int)| #[trigger] self.box_set().contains(p) ==> self.map.spec_tile(
            p.0,
            p.1,
        ) == Tile::Goal
    }

    /// The win condition: true exactly when every box position carries a
    /// `Goal` tile. A pure query with no side effects.
    pub fn is_won(&self) -> (r: bool)
        requires
            self.wf(),
        ensures
            r == self.spec_won(),
    {
        let mut i: usize = 0;
        while i < self.boxes.len()
            invariant
                self.wf(),
                i <= self.boxes@.len(),
                forall|j: int| 0 <= j < i ==> self.map.spec_tile(
                    #[trigger] self.boxes_seq()[j].0,
                    self.boxes_seq()[j].1,
                ) == Tile::Goal,
            decreases self.boxes@.len() - i,
        {
            let b = self.boxes[i];
            proof {
                self.lemma_stored_box_in_set(i as int);
            }
            let t = self.map.get_tile(b.0, b.1);
            if t != Tile::Goal {
                return false;
            }
            i = i + 1;
        }
        proof {
            assert forall|p: (int, int)| self.box_set().contains(p) implies self.map.spec_tile(
                p.0,
                p.1,
            ) == Tile::Goal by {
                assert(self.boxes_seq().contains(p));
                let j = choose|j: int|
                    0 <= j < self.boxes_seq().len() && self.boxes_seq()[j] == p;
                assert(self.map.spec_tile(self.boxes_seq()[j].0, self.boxes_seq()[j].1)
                    == Tile::Goal);
            }
        }
        true
    }

    /// The cell the player would step onto.
    pub open spec fn move_target(self, dx: int, dy: int) -> (int, int) {
        (self.player().0 + dx, self.player().1 + dy)
    }

    /// The cell a pushed box would be shoved onto: one step beyond the
    /// move target, in the same direction.
    pub open spec fn push_target(self, dx: int, dy: int) -> (int, int) {
        (self.player().0 + 2 * dx, self.player().1 + 2 * dy)
    }

    /// The move rule: a move succeeds exactly when the target cell is not a
    /// wall and, if a box rests there, the cell beyond the box is neither a
    /// wall nor occupied by another box.
    pub open spec fn move_allowed(self, dx: int, dy: int) -> bool {
        let t = self.move_target(dx, dy);
        let u = self.push_target(dx, dy);
        &&& self.map.spec_tile(t.0, t.1) != Tile::Wall
        &&& (self.box_at(t.0, t.1) ==> self.map.spec_tile(u.0, u.1) != Tile::Wall && !self.box_at(
            u.0,
            u.1,
        ))
    }

    /// Try to move the player one cell in the unit direction `(dx, dy)`,
    /// pushing at most the one box immediately in the way. Returns whether
    /// the player position changed; a failed move has no effect at all. On a
    /// successful push the box in the target cell moves to the push target
    /// and the number of boxes is unchanged.
    pub fn try_move_player(&mut self, dx: isize, dy: isize) -> (moved: bool)
        requires
            old(self).wf(),
            unit_dir(dx as int, dy as int),
        ensures
            final(self).wf(),
            final(self).map == old(self).map,
            moved == old(self).move_allowed(dx as int, dy as int),
            moved == (final(self).player() != old(self).player()),
            !moved ==> final(self).player_pos == old(self).player_pos && final(self).boxes@
                == old(self).boxes@,
            moved ==> final(self).player() == old(self).move_target(dx as int, dy as int),
            ({
                let t = old(self).move_target(dx as int, dy as int);
                let u = old(self).push_target(dx as int, dy as int);
                moved ==> if old(self).box_at(t.0, t.1) {
                    &&& final(self).box_set() == old(self).box_set().remove(t).insert(u)
                    &&& final(self).boxes@.len() == old(self).boxes@.len()
                } else {
                    final(self).boxes@ == old(self).boxes@
                }
            }),
            final(self).box_set().len() == old(self).box_set().len(),
    {
        let px = self.player_pos.0;
        let py = self.player_pos.1;
        proof {
            lemma_open_cell_is_interior(self.map, px as int, py as int);
        }
        let tx = step_coord(px, dx);
        let ty = step_coord(py, dy);
        match self.map.get_tile(tx, ty) {
            // The target cell is a wall: nothing happens.
            Tile::Wall => {
                proof {
                    old(self).lemma_box_count();
                }
                false
            },
            _ => {
                match self.box_index_at(tx, ty) {
                    // No box in the way: step onto the target cell.
                    None => {
                        self.player_pos = (tx, ty);
                        proof {
                            old(self).lemma_box_count();
                            self.lemma_box_count();
                        }
                        true
                    },
                    // A box is in the way: try to push it.
                    Some(i) => {
                        proof {
                            lemma_open_cell_is_interior(self.map, tx as int, ty as int);
                        }
                        let ux = step_coord(tx, dx);
                        let uy = step_coord(ty, dy);
                        match self.map.get_tile(ux, uy) {
                            // The box is blocked by a wall: nothing happens.
                            Tile::Wall => {
                                proof {
                                    old(self).lemma_box_count();
                                }
                                false
                            },
                            _ => {
                                match self.box_index_at(ux, uy) {
                                    // The box is blocked by another box:
                                    // nothing happens.
                                    Some(_) => {
                                        proof {
                                            old(self).lemma_box_count();
                                        }
                                        false
                                    },
                                    // The push succeeds: the box moves one
                                    // cell onward and the player takes its
                                    // place.
                                    None => {
                                        self.boxes[i] = (ux, uy);
                                        self.player_pos = (tx, ty);
                                        proof {
                                            old(self).lemma_push_updates_boxes(
                                                *self,
                                                i as int,
                                                tx as int,
                                                ty as int,
                                                ux as int,
                                                uy as int,
                                            );
                                        }
                                        true
                                    },
                                }
                            },
                        }
                    },
                }
            },
        }
    }

    /// With no two boxes equal, the box set is as large as the box vector.
    pub proof fn lemma_box_count(self)
        requires
            self.boxes_seq().no_duplicates(),
        ensures
            self.box_set().len() == self.boxes@.len(),
    {
        self.boxes_seq().unique_seq_to_set();
    }

    /// Replacing the one box stored at index `i` (resting on the move target
    /// `t`) by the push target `u` removes `t` from the box set, inserts `u`,
    /// and preserves distinctness and the box count.
    proof fn lemma_push_updates_boxes(self, pushed: World, i: int, tx: int, ty: int, ux: int, uy: int)
        requires
            self.boxes_seq().no_duplicates(),
            0 <= i < self.boxes@.len(),
            self.boxes_seq()[i] == (tx, ty),
            !self.box_at(ux, uy),
            pushed.boxes@ == self.boxes@.update(i, ((ux as usize), (uy as usize))),
            0 <= ux <= usize::MAX,
            0 <= uy <= usize::MAX,
        ensures
            pushed.boxes_seq() == self.boxes_seq().update(i, (ux, uy)),
            pushed.boxes_seq().no_duplicates(),
            pushed.box_set() == self.box_set().remove((tx, ty)).insert((ux, uy)),
            pushed.box_set().len() == self.box_set().len(),
    {
        assert(pushed.boxes_seq() =~= self.boxes_seq().update(i, (ux, uy)));
        assert forall|j: int, k: int|
            0 <= j < pushed.boxes_seq().len() && 0 <= k < pushed.boxes_seq().len() && j != k
                implies pushed.boxes_seq()[j] != pushed.boxes_seq()[k] by {
            if j != i && k != i {
                assert(self.boxes_seq()[j] != self.boxes_seq()[k]);
            } else if j == i {
                self.lemma_stored_box_in_set(k);
                assert(self.box_set().contains(self.boxes_seq()[k]));
            } else {
                self.lemma_stored_box_in_set(j);
                assert(self.box_set().contains(self.boxes_seq()[j]));
            }
        }
        assert(pushed.box_set() =~= self.box_set().remove((tx, ty)).insert((ux, uy))) by {
            assert forall|p: (int, int)| pushed.box_set().contains(p) implies self.box_set()
                .remove((tx, ty)).insert((ux, uy)).contains(p) by {
                let j = choose|j: int|
                    0 <= j < pushed.boxes_seq().len() && pushed.boxes_seq()[j] == p;
                if j == i {
                } else {
                    self.lemma_stored_box_in_set(j);
                    assert(self.boxes_seq()[j] != self.boxes_seq()[i]);
                }
            }
            assert forall|p: (int, int)| self.box_set().remove((tx, ty)).insert((ux, uy)).contains(
                p,
            ) implies pushed.box_set().contains(p) by {
                if p == ((ux as int), (uy as int)) {
                    assert(pushed.boxes_seq()[i] == p);
                    assert(pushed.boxes_seq().contains(p));
                } else {
                    assert(self.box_set().contains(p));
                    let j = choose|j: int|
                        0 <= j < self.boxes_seq().len() && self.boxes_seq()[j] == p;
                    assert(j != i);
                    assert(pushed.boxes_seq()[j] == p);
                    assert(pushed.boxes_seq().contains(p));
                }
            }
        }
        self.lemma_box_count();
        pushed.lemma_box_count();
    }
}

/// `(y * w + x) % w == x` and `(y * w + x) / w == y`: the coordinates of a
/// row-major index are recovered exactly.
proof fn lemma_row_major_mod_div(x: int, y: int, w: int)
    by (nonlinear_arith)
    requires
        0 <= x < w,
        0 <= y,
    ensures
        (y * w + x) % w == x,
        (y * w + x) / w == y,
{
}

/// Wall blocks movement: a move whose target cell is a wall is never allowed,
/// so `try_move_player` returns `false` and leaves the player and the boxes
/// unchanged.
pub proof fn lemma_wall_blocks_movement(w: World, dx: int, dy: int)
    requires
        w.map.spec_tile(w.move_target(dx, dy).0, w.move_target(dx, dy).1) == Tile::Wall,
    ensures
        !w.move_allowed(dx, dy),
{
}

/// Free move: a move whose target cell is neither a wall nor occupied by a
/// box is always allowed, so `try_move_player` returns `true`, puts the
/// player exactly on the target cell and keeps the boxes as they were.
pub proof fn lemma_free_move_allowed(w: World, dx: int, dy: int)
    requires
        w.map.spec_tile(w.move_target(dx, dy).0, w.move_target(dx, dy).1) != Tile::Wall,
        !w.box_at(w.move_target(dx, dy).0, w.move_target(dx, dy).1),
    ensures
        w.move_allowed(dx, dy),
{
}

/// Simple push: when a box rests on the target cell and the cell beyond it is
/// neither a wall nor occupied by a box, the move is allowed, so
/// `try_move_player` returns `true`, moves that box from the target to the
/// push target, puts the player on the target, and keeps the number of boxes.
pub proof fn lemma_simple_push_allowed(w: World, dx: int, dy: int)
    requires
        w.wf(),
        w.box_at(w.move_target(dx, dy).0, w.move_target(dx, dy).1),
        w.map.spec_tile(w.push_target(dx, dy).0, w.push_target(dx, dy).1) != Tile::Wall,
        !w.box_at(w.push_target(dx, dy).0, w.push_target(dx, dy).1),
    ensures
        w.move_allowed(dx, dy),
{
}

/// Blocked push, wall beyond: when a box rests on the target cell and the
/// cell beyond it is a wall, the move is not allowed, so `try_move_player`
/// returns `false` and moves neither the box nor the player.
pub proof fn lemma_push_blocked_by_wall(w: World, dx: int, dy: int)
    requires
        w.box_at(w.move_target(dx, dy).0, w.move_target(dx, dy).1),
        w.map.spec_tile(w.push_target(dx, dy).0, w.push_target(dx, dy).1) == Tile::Wall,
    ensures
        !w.move_allowed(dx, dy),
{
}

/// Blocked push, box beyond: when boxes rest both on the target cell and on
/// the cell beyond it, the move is not allowed, so `try_move_player` returns
/// `false` and moves nothing: there is no chain push.
pub proof fn lemma_push_blocked_by_box(w: World, dx: int, dy: int)
    requires
        w.box_at(w.move_target(dx, dy).0, w.move_target(dx, dy).1),
        w.box_at(w.push_target(dx, dy).0, w.push_target(dx, dy).1),
    ensures
        !w.move_allowed(dx, dy),
{
}

/// Idempotent queries: the results of `get_tile`, `is_won` and a full
/// traversal are pinned to functions of the world alone, so any two calls
/// without an intervening move return identical values.
pub proof fn lemma_repeated_queries_agree(
    w: World,
    x: int,
    y: int,
    t1: Tile,
    t2: Tile,
    r1: bool,
    r2: bool,
)
    requires
        t1 == w.map.spec_tile(x, y),
        t2 == w.map.spec_tile(x, y),
        r1 == w.spec_won(),
        r2 == w.spec_won(),
    ensures
        t1 == t2,
        r1 == r2,
{
}

/// Traversal completeness: a full traversal has exactly `width * height`
/// entries; the entry at index `y * width + x` carries the tile at `(x, y)`
/// and the coordinates `(x, y)` themselves, so every cell appears, and no
/// coordinate pair appears at two different positions.
pub proof fn lemma_traversal_complete(m: GridMap)
    requires
        m.wf(),
    ensures
        m.entries().len() == m.width * m.height,
        forall|x: int, y: int|
            m.in_bounds(x, y) ==> #[trigger] m.entries()[y * m.width + x] == (
                m.spec_tile(x, y),
                x,
                y,
            ),
        forall|i: int, j: int|
            #![trigger m.entries()[i], m.entries()[j]]
            0 <= i < m.entries().len() && 0 <= j < m.entries().len() && i != j ==> !(
            m.entries()[i].1 == m.entries()[j].1 && m.entries()[i].2 == m.entries()[j].2),
{
    assert forall|x: int, y: int| m.in_bounds(x, y) implies #[trigger] m.entries()[y * m.width + x]
        == (m.spec_tile(x, y), x, y) by {
        lemma_row_major_in_range(x, y, m.width as int, m.height as int);
        lemma_row_major_mod_div(x, y, m.width as int);
    }
    assert forall|i: int, j: int|
        #![trigger m.entries()[i], m.entries()[j]]
        0 <= i < m.entries().len() && 0 <= j < m.entries().len() && i != j implies !(
    m.entries()[i].1 == m.entries()[j].1 && m.entries()[i].2 == m.entries()[j].2) by {
        assert(m.width * m.height > 0);
        assert(m.width > 0) by (nonlinear_arith)
            requires
                (m.width as int) * (m.height as int) > 0,
        ;
        lemma_row_major_decompose(i, m.width as int, m.height as int);
        lemma_row_major_decompose(j, m.width as int, m.height as int);
    }
}

} // verus!
