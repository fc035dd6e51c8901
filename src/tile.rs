use vstd::prelude::*;
use vstd::string::StringSliceAdditionalSpecFns;
use crate::unit::Pos;

verus! {

#[derive(Clone, Copy, Debug, PartialEq, Eq, Hash, Structural)]
pub enum Tile {
    Empty,
    Floor,
    Wall,
    Stairs,
}

/// Floor and stairs can be stood on; empty space and walls cannot.
pub open spec fn passable(tile: Tile) -> bool {
    tile == Tile::Floor || tile == Tile::Stairs
}

pub fn is_passable(tile: Tile) -> (r: bool)
    ensures
        r == passable(tile),
{
    match tile {
        Tile::Floor | Tile::Stairs => true,
        _ => false,
    }
}

/// The tile a character of a map plan stands for.
pub open spec fn tile_of_byte(b: u8) -> Tile {
    if b == 35 {
        Tile::Wall
    } else if b == 46 {
        Tile::Floor
    } else if b == 60 {
        Tile::Stairs
    } else {
        Tile::Empty
    }
}

fn byte_to_tile(b: u8) -> (r: Tile)
    ensures
        r == tile_of_byte(b),
{
    if b == 35 {
        Tile::Wall
    } else if b == 46 {
        Tile::Floor
    } else if b == 60 {
        Tile::Stairs
    } else {
        Tile::Empty
    }
}

/// A rectangular grid of tiles, stored row by row.
#[derive(Clone)]
pub struct TileMap {
    tiles: Vec<Tile>,
    width: usize,
    height: usize,
}

impl TileMap {
    pub closed spec fn spec_width(&self) -> nat {
        self.width as nat
    }

    pub closed spec fn spec_height(&self) -> nat {
        self.height as nat
    }

    /// The tile at column `x`, row `y`; meaningful inside the grid.
    pub closed spec fn cell(&self, x: int, y: int) -> Tile {
        self.tiles@[x + y * self.width]
    }

    pub closed spec fn wf(&self) -> bool {
        &&& self.tiles@.len() == self.width * self.height
        &&& self.width * self.height <= usize::MAX
        &&& self.width <= i32::MAX
        &&& self.height <= i32::MAX
    }

    pub open spec fn inside(&self, x: int, y: int) -> bool {
        0 <= x < self.spec_width() && 0 <= y < self.spec_height()
    }

    /// What a checked read at `(x, y)` gives.
    pub open spec fn tile_at(&self, x: int, y: int) -> Option<Tile> {
        if self.inside(x, y) {
            Some(self.cell(x, y))
        } else {
            None
        }
    }

    pub open spec fn passable_at(&self, x: int, y: int) -> bool {
        self.inside(x, y) && passable(self.cell(x, y))
    }

    proof fn lemma_index(&self, x: int, y: int)
        requires
            self.wf(),
            self.inside(x, y),
        ensures
            0 <= y * self.width <= x + y * self.width < self.tiles@.len() <= usize::MAX,
    {
        assert(0 <= y * self.width) by (nonlinear_arith)
            requires
                0 <= y,
        ;
        assert(x + y * self.width < self.width * self.height) by (nonlinear_arith)
            requires
                0 <= x < self.width,
                0 <= y < self.height,
        ;
    }

    pub proof fn lemma_dims(&self)
        requires
            self.wf(),
        ensures
            self.spec_width() <= i32::MAX,
            self.spec_height() <= i32::MAX,
            self.spec_width() * self.spec_height() <= usize::MAX,
    {
    }

    pub fn new(width: usize, height: usize) -> (r: TileMap)
        requires
            width <= i32::MAX,
            height <= i32::MAX,
            width * height <= usize::MAX,
        ensures
            r.wf(),
            r.spec_width() == width,
            r.spec_height() == height,
            forall|x: int, y: int| r.inside(x, y) ==> r.cell(x, y) == Tile::Empty,
    {
        let n: usize = width * height;
        let mut tiles: Vec<Tile> = Vec::with_capacity(n);
        while tiles.len() < n
            invariant
                tiles.len() <= n,
                forall|i: int| 0 <= i < tiles.len() ==> tiles@[i] == Tile::Empty,
            decreases n - tiles.len(),
        {
            tiles.push(Tile::Empty);
        }
        let r = TileMap { tiles, width, height };
        assert forall|x: int, y: int| r.inside(x, y) implies r.cell(x, y) == Tile::Empty by {
            r.lemma_index(x, y);
        }
        r
    }

    /// Both grids have the same size and the same tile on every square.
    pub open spec fn same_tiles(&self, o: TileMap) -> bool {
        &&& self.spec_width() == o.spec_width()
        &&& self.spec_height() == o.spec_height()
        &&& forall|x: int, y: int|
            #![trigger self.cell(x, y)]
            #![trigger o.cell(x, y)]
            self.inside(x, y) ==> self.cell(x, y) == o.cell(x, y)
    }

    /// A copy of the grid, square by square.
    pub fn duplicate(&self) -> (r: TileMap)
        requires
            self.wf(),
        ensures
            r.wf(),
            r.same_tiles(*self),
    {
        let mut tiles: Vec<Tile> = Vec::with_capacity(self.tiles.len());
        let mut i: usize = 0;
        while i < self.tiles.len()
            invariant
                i <= self.tiles@.len(),
                tiles@ == self.tiles@.subrange(0, i as int),
            decreases self.tiles@.len() - i,
        {
            tiles.push(self.tiles[i]);
            i += 1;
            assert(tiles@ =~= self.tiles@.subrange(0, i as int));
        }
        assert(tiles@ =~= self.tiles@);
        TileMap { tiles, width: self.width, height: self.height }
    }

    pub fn get_width(&self) -> (r: usize)
        ensures
            r == self.spec_width(),
    {
        self.width
    }

    pub fn get_height(&self) -> (r: usize)
        ensures
            r == self.spec_height(),
    {
        self.height
    }

    pub fn is_inside(&self, pos: Pos) -> (r: bool)
        requires
            self.wf(),
        ensures
            r == self.inside(pos.x as int, pos.y as int),
    {
        pos.x >= 0 && pos.x < self.width as i32 && pos.y >= 0 && pos.y < self.height as i32
    }

    /// Writes `tile` at `pos`; a position outside the grid is ignored.
    pub fn set(&mut self, pos: Pos, tile: Tile)
        requires
            old(self).wf(),
        ensures
            final(self).wf(),
            final(self).spec_width() == old(self).spec_width(),
            final(self).spec_height() == old(self).spec_height(),
            forall|x: int, y: int|
                #![trigger final(self).cell(x, y)]
                final(self).inside(x, y) ==> final(self).cell(x, y) == if x == pos.x && y
                    == pos.y {
                    tile
                } else {
                    old(self).cell(x, y)
                },
    {
        if pos.x < 0 || pos.y < 0 {
            return ;
        }
        let x = pos.x as usize;
        let y = pos.y as usize;
        if x >= self.width || y >= self.height {
            return ;
        }
        proof {
            self.lemma_index(x as int, y as int);
        }
        let idx: usize = x + y * self.width;
        self.tiles.set(idx, tile);
        proof {
            assert forall|a: int, b: int| #[trigger]
                self.inside(a, b) implies self.cell(a, b) == if a == pos.x && b == pos.y {
                tile
            } else {
                old(self).cell(a, b)
            } by {
                self.lemma_index(a, b);
                if a != x || b != y {
                    if a + b * self.width == x + y * self.width {
                        lemma_same_index(a, b, x as int, y as int, self.width as int);
                    }
                }
            }
        }
    }

    pub fn get(&self, pos: Pos) -> (r: Option<Tile>)
        requires
            self.wf(),
        ensures
            r == self.tile_at(pos.x as int, pos.y as int),
    {
        if pos.x < 0 || pos.y < 0 {
            return None;
        }
        let x = pos.x as usize;
        let y = pos.y as usize;
        if x >= self.width || y >= self.height {
            None
        } else {
            proof {
                self.lemma_index(x as int, y as int);
            }
            Some(self.tiles[x + y * self.width])
        }
    }

    pub fn get_unchecked(&self, pos: Pos) -> (r: Tile)
        requires
            self.wf(),
            self.inside(pos.x as int, pos.y as int),
        ensures
            r == self.cell(pos.x as int, pos.y as int),
    {
        let x = pos.x as usize;
        let y = pos.y as usize;
        proof {
            self.lemma_index(x as int, y as int);
        }
        self.tiles[x + y * self.width]
    }

    pub fn is_passable(&self, pos: Pos) -> (r: bool)
        requires
            self.wf(),
        ensures
            r == self.passable_at(pos.x as int, pos.y as int),
    {
        match self.get(pos) {
            Some(tile) => is_passable(tile),
            None => false,
        }
    }

    /// The first square holding `tile_type`, scanning row by row from the top.
    pub fn find_tile(&self, tile_type: Tile) -> (r: Option<Pos>)
        requires
            self.wf(),
        ensures
            r is None ==> forall|x: int, y: int|
                self.inside(x, y) ==> self.cell(x, y) != tile_type,
            r matches Some(p) ==> {
                &&& self.inside(p.x as int, p.y as int)
                &&& self.cell(p.x as int, p.y as int) == tile_type
                &&& forall|x: int, y: int|
                    self.inside(x, y) && (y < p.y || (y == p.y && x < p.x)) ==> self.cell(x, y)
                        != tile_type
            },
    {
        let mut y: usize = 0;
        while y < self.height
            invariant
                self.wf(),
                y <= self.height,
                forall|a: int, b: int|
                    self.inside(a, b) && b < y ==> self.cell(a, b) != tile_type,
            decreases self.height - y,
        {
            let mut x: usize = 0;
            while x < self.width
                invariant
                    self.wf(),
                    y < self.height,
                    x <= self.width,
                    forall|a: int, b: int|
                        self.inside(a, b) && (b < y || (b == y && a < x)) ==> self.cell(a, b)
                            != tile_type,
                decreases self.width - x,
            {
                let p = Pos { x: x as i32, y: y as i32 };
                if self.get_unchecked(p) == tile_type {
                    return Some(p);
                }
                x += 1;
            }
            y += 1;
        }
        None
    }

    /// Builds a grid from a plan, one string per row: `#` is a wall, `.` floor,
    /// `<` stairs, anything else empty. The first row sets the width.
    pub fn from_rows(rows: &[&str]) -> (r: TileMap)
        requires
            rows@.len() > 0,
            rows@[0].spec_bytes().len() <= i32::MAX,
            rows@.len() <= i32::MAX,
            rows@[0].spec_bytes().len() * rows@.len() <= usize::MAX,
        ensures
            r.wf(),
            r.spec_width() == rows@[0].spec_bytes().len(),
            r.spec_height() == rows@.len(),
            forall|x: int, y: int|
                r.inside(x, y) ==> r.cell(x, y) == if x < rows@[y].spec_bytes().len() {
                    tile_of_byte(rows@[y].spec_bytes()[x])
                } else {
                    Tile::Empty
                },
    {
        let width = rows[0].as_bytes().len();
        let height = rows.len();
        let mut tilemap = TileMap::new(width, height);
        let mut y: usize = 0;
        while y < height
            invariant
                tilemap.wf(),
                height == rows@.len(),
                height <= i32::MAX,
                width <= i32::MAX,
                tilemap.spec_width() == width,
                tilemap.spec_height() == height,
                y <= height,
                forall|a: int, b: int|
                    tilemap.inside(a, b) ==> tilemap.cell(a, b) == if b < y && a
                        < rows@[b].spec_bytes().len() {
                        tile_of_byte(rows@[b].spec_bytes()[a])
                    } else {
                        Tile::Empty
                    },
            decreases height - y,
        {
            let line = rows[y].as_bytes();
            let mut x: usize = 0;
            while x < line.len() && x < width
                invariant
                    tilemap.wf(),
                    height == rows@.len(),
                    height <= i32::MAX,
                    width <= i32::MAX,
                    tilemap.spec_width() == width,
                    tilemap.spec_height() == height,
                    y < height,
                    line@ == rows@[y as int].spec_bytes(),
                    x <= line@.len(),
                    forall|a: int, b: int|
                        tilemap.inside(a, b) ==> tilemap.cell(a, b) == if (b < y || (b == y
                            && a < x)) && a < rows@[b].spec_bytes().len() {
                            tile_of_byte(rows@[b].spec_bytes()[a])
                        } else {
                            Tile::Empty
                        },
                decreases line@.len() - x,
            {
                tilemap.set(Pos { x: x as i32, y: y as i32 }, byte_to_tile(line[x]));
                x += 1;
            }
            y += 1;
        }
        tilemap
    }
}

proof fn lemma_same_index(a: int, b: int, x: int, y: int, w: int)
    requires
        0 <= a < w,
        0 <= x < w,
        0 <= b,
        0 <= y,
        a + b * w == x + y * w,
    ensures
        a == x && b == y,
{
    if b < y {
        assert(b * w + w <= y * w) by (nonlinear_arith)
            requires
                b < y,
                0 <= w,
        ;
    } else if b > y {
        assert(y * w + w <= b * w) by (nonlinear_arith)
            requires
                y < b,
                0 <= w,
        ;
    }
}

} // verus!
