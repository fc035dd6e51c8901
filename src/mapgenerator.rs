use vstd::prelude::*;
use rand::rngs::SmallRng;
use crate::random::gen_range;
use crate::tile::{Tile, TileMap, passable};
use crate::unit::Pos;
use crate::utils::{dist2, sq_dist};

verus! {

/// An axis-aligned rectangle of squares: columns `x..x + w`, rows `y..y + h`.
#[derive(Clone, Copy, Debug, PartialEq, Eq, Structural)]
pub struct Rect {
    pub x: i64,
    pub y: i64,
    pub w: i64,
    pub h: i64,
}

pub open spec fn in_rect(r: Rect, x: int, y: int) -> bool {
    r.x <= x < r.x + r.w && r.y <= y < r.y + r.h
}

/// Coordinates small enough that walking the rectangle cannot overflow.
pub open spec fn rect_ok(r: Rect) -> bool {
    -0x100_0000_0000 <= r.x <= 0x100_0000_0000 && -0x100_0000_0000 <= r.y <= 0x100_0000_0000
        && 0 <= r.w <= 0x1_0000 && 0 <= r.h <= 0x1_0000
}

/// Side of the square start room.
pub const START_ROOM: i64 = 5;

/// Rooms that an attempt must carve besides the start room.
pub const ROOMS: usize = 5;

/// Attempts of `generate` before it gives up.
pub const MAX_ATTEMPTS: u32 = 100_000;

pub open spec fn start_rect(corner: Pos) -> Rect {
    Rect { x: corner.x as i64, y: corner.y as i64, w: START_ROOM, h: START_ROOM }
}

pub open spec fn all_passable(map: TileMap, r: Rect) -> bool {
    forall|x: int, y: int| #[trigger] in_rect(r, x, y) ==> map.passable_at(x, y)
}

pub open spec fn disjoint(a: Rect, b: Rect) -> bool {
    forall|x: int, y: int| #[trigger] in_rect(a, x, y) ==> !in_rect(b, x, y)
}

/// Exactly one square of the grid holds stairs.
pub open spec fn one_stairs(map: TileMap) -> bool {
    exists|sx: int, sy: int|
        #![trigger map.cell(sx, sy)]
        map.inside(sx, sy) && map.cell(sx, sy) == Tile::Stairs && forall|x: int, y: int|
            #![trigger map.cell(x, y)]
            map.inside(x, y) && map.cell(x, y) == Tile::Stairs ==> x == sx && y == sy
}

/// Whether `(x, y)` lies in the start room or in one of `rooms`.
pub open spec fn in_rooms(start: Rect, rooms: Seq<Rect>, x: int, y: int) -> bool {
    in_rect(start, x, y) || exists|k: int| 0 <= k < rooms.len() && #[trigger] in_rect(rooms[k], x, y)
}

/// Whether `(a, b)` and `(c, d)` share a side.
pub open spec fn neighbours(a: int, b: int, c: int, d: int) -> bool {
    (a == c && (b - d == 1 || d - b == 1)) || (b == d && (a - c == 1 || c - a == 1))
}

/// `room` has a square beside a square of the start room or of `earlier`.
pub open spec fn touches(start: Rect, room: Rect, earlier: Seq<Rect>) -> bool {
    exists|a: int, b: int, c: int, d: int|
        #![trigger in_rect(room, a, b), in_rooms(start, earlier, c, d)]
        in_rect(room, a, b) && neighbours(a, b, c, d) && in_rooms(start, earlier, c, d)
}

/// Each room touches the start room or an earlier room, so that start room
/// and rooms form one connected region.
pub open spec fn rooms_linked(start: Rect, rooms: Seq<Rect>) -> bool {
    forall|k: int|
        #![trigger rooms[k]]
        0 <= k < rooms.len() ==> touches(start, rooms[k], rooms.subrange(0, k))
}

/// `path` is a walk over walkable squares, each step to a side neighbour.
pub open spec fn is_walk(map: TileMap, path: Seq<(int, int)>) -> bool {
    &&& path.len() > 0
    &&& forall|i: int| 0 <= i < path.len() ==> map.passable_at(#[trigger] path[i].0, path[i].1)
    &&& forall|i: int|
        0 <= i < path.len() - 1 ==> neighbours(
            #[trigger] path[i].0,
            path[i].1,
            path[i + 1].0,
            path[i + 1].1,
        )
}

/// Some walk leads from `a` to `b`.
pub open spec fn reachable(map: TileMap, a: (int, int), b: (int, int)) -> bool {
    exists|path: Seq<(int, int)>| is_walk(map, path) && path[0] == a && path.last() == b
}

/// `rooms` are at least `ROOMS` rooms of 2 to 7 squares a side, all
/// walkable, apart from each other and from the start room `start`, each
/// attached to the start room or an earlier room. Every other square of
/// the grid is empty: no walls, and nothing walkable outside the rooms.
pub open spec fn rooms_carved(map: TileMap, start: Rect, rooms: Seq<Rect>) -> bool {
    &&& rooms.len() >= ROOMS
    &&& forall|k: int|
        #![trigger rooms[k]]
        0 <= k < rooms.len() ==> {
            &&& 2 <= rooms[k].w <= 7
            &&& 2 <= rooms[k].h <= 7
            &&& all_passable(map, rooms[k])
            &&& disjoint(rooms[k], start)
        }
    &&& forall|k: int, l: int|
        0 <= k < l < rooms.len() ==> disjoint(#[trigger] rooms[k], #[trigger] rooms[l])
    &&& rooms_linked(start, rooms)
    &&& forall|x: int, y: int|
        #![trigger map.cell(x, y)]
        map.inside(x, y) ==> map.cell(x, y) == Tile::Empty || (passable(map.cell(x, y))
            && in_rooms(start, rooms, x, y))
}

/// What a finished map holds: one stairs square, a walkable 5 by 5 start
/// room centred on `start`, and at least `ROOMS` further rooms; every
/// walkable square, the stairs among them, can be walked to from `start`.
pub open spec fn generated_ok(map: TileMap, start: Pos) -> bool {
    let corner = Pos { x: (start.x - 2) as i32, y: (start.y - 2) as i32 };
    &&& map.wf()
    &&& one_stairs(map)
    &&& start.x >= 2 && start.y >= 2
    &&& map.inside(corner.x as int, corner.y as int)
    &&& all_passable(map, start_rect(corner))
    &&& exists|rooms: Seq<Rect>| rooms_carved(map, start_rect(corner), rooms)
    &&& forall|x: int, y: int|
        #[trigger] map.passable_at(x, y) ==> reachable(map, (start.x as int, start.y as int), (x, y))
}

/// No square of the grid holds stairs.
pub open spec fn no_stairs(map: TileMap) -> bool {
    forall|x: int, y: int|
        #![trigger map.cell(x, y)]
        map.inside(x, y) ==> map.cell(x, y) != Tile::Stairs
}

/// The number of squares among `p` and its four neighbours that hold floor.
pub open spec fn floor_touch_count(map: TileMap, p: Pos) -> int {
    (if map.tile_at(p.x as int, p.y as int) == Some(Tile::Floor) { 1int } else { 0int })
        + (if map.tile_at(p.x - 1, p.y as int) == Some(Tile::Floor) { 1int } else { 0int })
        + (if map.tile_at(p.x + 1, p.y as int) == Some(Tile::Floor) { 1int } else { 0int })
        + (if map.tile_at(p.x as int, p.y - 1) == Some(Tile::Floor) { 1int } else { 0int })
        + (if map.tile_at(p.x as int, p.y + 1) == Some(Tile::Floor) { 1int } else { 0int })
}

fn gen_ivec2(rng: &mut SmallRng, min: i32, max: i32) -> (r: (i32, i32))
    requires
        min < max,
    ensures
        min <= r.0 < max,
        min <= r.1 < max,
{
    let x = gen_range(rng, min, max);
    let y = gen_range(rng, min, max);
    (x, y)
}

fn is_floor(map: &TileMap, x: i64, y: i64) -> (r: bool)
    requires
        map.wf(),
    ensures
        r == (map.tile_at(x as int, y as int) == Some(Tile::Floor)),
{
    proof {
        map.lemma_dims();
    }
    if x < 0 || y < 0 || x > i32::MAX as i64 || y > i32::MAX as i64 {
        return false;
    }
    match map.get(Pos { x: x as i32, y: y as i32 }) {
        Some(Tile::Floor) => true,
        _ => false,
    }
}

/// Whether `p` touches floor at exactly one of itself and its four
/// neighbours: a place where a new room can be attached.
fn is_room_edge(map: &TileMap, p: Pos) -> (r: bool)
    requires
        map.wf(),
    ensures
        r == (floor_touch_count(*map, p) == 1),
{
    let x = p.x as i64;
    let y = p.y as i64;
    let mut count: usize = 0;
    if is_floor(map, x, y) {
        count += 1;
    }
    if is_floor(map, x - 1, y) {
        count += 1;
    }
    if is_floor(map, x + 1, y) {
        count += 1;
    }
    if is_floor(map, x, y - 1) {
        count += 1;
    }
    if is_floor(map, x, y + 1) {
        count += 1;
    }
    count == 1
}

/// Of the sampled squares that hold floor, one farthest from `from` (of
/// equally far ones, the last); none if no sample holds floor.
fn choose_stairs(map: &TileMap, samples: &Vec<Pos>, from: Pos) -> (r: Option<Pos>)
    requires
        map.wf(),
    ensures
        r is None <==> forall|i: int|
            0 <= i < samples@.len() ==> map.tile_at(
                (#[trigger] samples@[i]).x as int,
                samples@[i].y as int,
            ) != Some(Tile::Floor),
        r matches Some(p) ==> {
            &&& samples@.contains(p)
            &&& map.tile_at(p.x as int, p.y as int) == Some(Tile::Floor)
            &&& forall|i: int|
                0 <= i < samples@.len() && map.tile_at(
                    (#[trigger] samples@[i]).x as int,
                    samples@[i].y as int,
                ) == Some(Tile::Floor) ==> sq_dist(samples@[i], from) <= sq_dist(p, from)
        },
{
    let mut best: Option<Pos> = None;
    let mut best_d: i128 = 0;
    let mut i: usize = 0;
    while i < samples.len()
        invariant
            map.wf(),
            i <= samples@.len(),
            best is None <==> forall|j: int|
                0 <= j < i ==> map.tile_at(
                    (#[trigger] samples@[j]).x as int,
                    samples@[j].y as int,
                ) != Some(Tile::Floor),
            best matches Some(p) ==> {
                &&& samples@.contains(p)
                &&& map.tile_at(p.x as int, p.y as int) == Some(Tile::Floor)
                &&& best_d == sq_dist(p, from)
                &&& forall|j: int|
                    0 <= j < i && map.tile_at(
                        (#[trigger] samples@[j]).x as int,
                        samples@[j].y as int,
                    ) == Some(Tile::Floor) ==> sq_dist(samples@[j], from) <= best_d
            },
        decreases samples@.len() - i,
    {
        let p = samples[i];
        if is_floor(map, p.x as i64, p.y as i64) {
            let d = dist2(&p, &from);
            if best.is_none() || d >= best_d {
                best = Some(p);
                best_d = d;
            }
            assert(samples@[i as int] == p);
        }
        i += 1;
    }
    best
}

/// Adding a room that has a square beside the rooms so far keeps the
/// rooms linked.
proof fn lemma_link_push(
    start: Rect,
    rooms: Seq<Rect>,
    room: Rect,
    ex: int,
    ey: int,
    c: int,
    d: int,
)
    requires
        rooms_linked(start, rooms),
        in_rect(room, ex, ey),
        neighbours(ex, ey, c, d),
        in_rooms(start, rooms, c, d),
    ensures
        rooms_linked(start, rooms.push(room)),
{
    let more = rooms.push(room);
    let n = rooms.len() as int;
    assert(more.subrange(0, n) =~= rooms);
    assert(in_rect(room, ex, ey) && in_rooms(start, rooms, c, d));
    assert(touches(start, room, rooms));
    assert forall|k: int| #![trigger more[k]] 0 <= k < more.len() implies touches(
        start,
        more[k],
        more.subrange(0, k),
    ) by {
        if k < n {
            assert(more[k] == rooms[k]);
            assert(more.subrange(0, k) =~= rooms.subrange(0, k));
        }
    }
}

proof fn lemma_walk_push(map: TileMap, path: Seq<(int, int)>, c: (int, int))
    requires
        is_walk(map, path),
        neighbours(path.last().0, path.last().1, c.0, c.1),
        map.passable_at(c.0, c.1),
    ensures
        is_walk(map, path.push(c)),
        path.push(c)[0] == path[0],
        path.push(c).last() == c,
{
    let q = path.push(c);
    assert forall|i: int| 0 <= i < q.len() implies map.passable_at(#[trigger] q[i].0, q[i].1) by {
        if i < path.len() {
            assert(q[i] == path[i]);
        }
    }
    assert forall|i: int| 0 <= i < q.len() - 1 implies neighbours(
        #[trigger] q[i].0,
        q[i].1,
        q[i + 1].0,
        q[i + 1].1,
    ) by {
        assert(q[i] == path[i]);
        if i + 1 < path.len() {
            assert(q[i + 1] == path[i + 1]);
        }
    }
}

/// From a square reachable from `s`, every square of the same walkable
/// rectangle is reachable from `s`.
proof fn lemma_rect_extend(map: TileMap, r: Rect, s: (int, int), p: (int, int), q: (int, int))
    requires
        all_passable(map, r),
        in_rect(r, p.0, p.1),
        in_rect(r, q.0, q.1),
        reachable(map, s, p),
    ensures
        reachable(map, s, q),
    decreases (if p.0 > q.0 { p.0 - q.0 } else { q.0 - p.0 }) + (if p.1 > q.1 { p.1 - q.1 } else { q.1 - p.1 }),
{
    if p != q {
        let prev: (int, int) = if q.0 < p.0 {
            (q.0 + 1, q.1)
        } else if q.0 > p.0 {
            (q.0 - 1, q.1)
        } else if q.1 < p.1 {
            (q.0, q.1 + 1)
        } else {
            (q.0, q.1 - 1)
        };
        lemma_rect_extend(map, r, s, p, prev);
        let path = choose|path: Seq<(int, int)>|
            is_walk(map, path) && path[0] == s && path.last() == prev;
        assert(in_rect(r, q.0, q.1));
        lemma_walk_push(map, path, q);
    }
}

/// Every square of the start room and of the first `k` rooms can be walked
/// to from `s`, a square of the start room.
proof fn lemma_rooms_reachable(
    map: TileMap,
    start: Rect,
    rooms: Seq<Rect>,
    s: (int, int),
    k: int,
    x: int,
    y: int,
)
    requires
        0 <= k <= rooms.len(),
        in_rect(start, s.0, s.1),
        all_passable(map, start),
        forall|j: int| 0 <= j < rooms.len() ==> all_passable(map, #[trigger] rooms[j]),
        rooms_linked(start, rooms),
        in_rooms(start, rooms.subrange(0, k), x, y),
    ensures
        reachable(map, s, (x, y)),
    decreases k,
{
    if in_rect(start, x, y) {
        assert(map.passable_at(s.0, s.1));
        let path = seq![s];
        assert(is_walk(map, path));
        assert(path[0] == s && path.last() == s);
        assert(reachable(map, s, s));
        lemma_rect_extend(map, start, s, s, (x, y));
    } else {
        let sub = rooms.subrange(0, k);
        let j = choose|j: int| 0 <= j < sub.len() && #[trigger] in_rect(sub[j], x, y);
        assert(sub[j] == rooms[j]);
        if j < k - 1 {
            assert(rooms.subrange(0, k - 1)[j] == rooms[j]);
            assert(in_rooms(start, rooms.subrange(0, k - 1), x, y));
            lemma_rooms_reachable(map, start, rooms, s, k - 1, x, y);
        } else {
            let room = rooms[k - 1];
            let earlier = rooms.subrange(0, k - 1);
            assert(touches(start, rooms[k - 1], rooms.subrange(0, k - 1)));
            let (a, b, c, d) = choose|a: int, b: int, c: int, d: int|
                #![trigger in_rect(room, a, b), in_rooms(start, earlier, c, d)]
                in_rect(room, a, b) && neighbours(a, b, c, d) && in_rooms(start, earlier, c, d);
            lemma_rooms_reachable(map, start, rooms, s, k - 1, c, d);
            let path = choose|path: Seq<(int, int)>|
                is_walk(map, path) && path[0] == s && path.last() == (c, d);
            assert(map.passable_at(a, b));
            lemma_walk_push(map, path, (a, b));
            lemma_rect_extend(map, room, s, (a, b), (x, y));
        }
    }
}

/// In a map whose walkable squares all lie in linked rooms, every walkable
/// square can be walked to from any square of the start room.
proof fn lemma_carved_connected(map: TileMap, start: Rect, rooms: Seq<Rect>, s: (int, int))
    requires
        rooms_carved(map, start, rooms),
        in_rect(start, s.0, s.1),
        all_passable(map, start),
    ensures
        forall|x: int, y: int| #[trigger] map.passable_at(x, y) ==> reachable(map, s, (x, y)),
{
    assert forall|x: int, y: int| #[trigger] map.passable_at(x, y) implies reachable(map, s, (x, y)) by {
        assert(map.inside(x, y));
        assert(map.cell(x, y) != Tile::Empty);
        assert(rooms.subrange(0, rooms.len() as int) =~= rooms);
        lemma_rooms_reachable(map, start, rooms, s, rooms.len() as int, x, y);
    }
}

/// A copy of a finished map is a finished map.
proof fn lemma_generated_ok_copy(a: TileMap, b: TileMap, start: Pos)
    requires
        generated_ok(a, start),
        b.wf(),
        b.same_tiles(a),
    ensures
        generated_ok(b, start),
{
    let corner = Pos { x: (start.x - 2) as i32, y: (start.y - 2) as i32 };
    let (sx, sy) = choose|sx: int, sy: int|
        #![trigger a.cell(sx, sy)]
        a.inside(sx, sy) && a.cell(sx, sy) == Tile::Stairs && forall|x: int, y: int|
            #![trigger a.cell(x, y)]
            a.inside(x, y) && a.cell(x, y) == Tile::Stairs ==> x == sx && y == sy;
    assert(b.cell(sx, sy) == Tile::Stairs);
    assert(one_stairs(b));
    let rooms = choose|rooms: Seq<Rect>| rooms_carved(a, start_rect(corner), rooms);
    assert forall|k: int| 0 <= k < rooms.len() implies all_passable(b, #[trigger] rooms[k]) by {
        assert forall|x: int, y: int| #[trigger] in_rect(rooms[k], x, y) implies b.passable_at(
            x,
            y,
        ) by {
            assert(a.passable_at(x, y));
        }
    }
    assert forall|x: int, y: int| #[trigger]
        in_rect(start_rect(corner), x, y) implies b.passable_at(x, y) by {
        assert(a.passable_at(x, y));
    }
    assert(rooms_carved(b, start_rect(corner), rooms));
    assert forall|x: int, y: int| #[trigger] b.passable_at(x, y) implies reachable(
        b,
        (start.x as int, start.y as int),
        (x, y),
    ) by {
        assert(a.passable_at(x, y));
        let path = choose|path: Seq<(int, int)>|
            is_walk(a, path) && path[0] == (start.x as int, start.y as int) && path.last() == (x, y);
        assert forall|i: int| 0 <= i < path.len() implies b.passable_at(#[trigger] path[i].0, path[i].1) by {
            assert(a.passable_at(path[i].0, path[i].1));
        }
        assert(is_walk(b, path));
    }
}

pub struct MapGenerator {
    pub tilemap: TileMap,
    pub start_pos: Pos,
    pub rng: SmallRng,
}

pub struct MapGeneratorResult {
    pub tilemap: TileMap,
    pub start_pos: Pos,
}

impl MapGenerator {
    pub fn new(rng: SmallRng, width: usize, height: usize) -> (r: MapGenerator)
        requires
            width <= i32::MAX,
            height <= i32::MAX,
            width * height <= usize::MAX,
        ensures
            r.tilemap.wf(),
            r.tilemap.spec_width() == width,
            r.tilemap.spec_height() == height,
            r.start_pos == (Pos { x: 0, y: 0 }),
    {
        MapGenerator { tilemap: TileMap::new(width, height), start_pos: Pos { x: 0, y: 0 }, rng }
    }

    /// Floors every square of `rect` that lies on the grid.
    fn make_room(&mut self, rect: &Rect)
        requires
            old(self).tilemap.wf(),
            rect_ok(*rect),
        ensures
            final(self).tilemap.wf(),
            final(self).tilemap.spec_width() == old(self).tilemap.spec_width(),
            final(self).tilemap.spec_height() == old(self).tilemap.spec_height(),
            final(self).start_pos == old(self).start_pos,
            forall|x: int, y: int|
                #![trigger final(self).tilemap.cell(x, y)]
                final(self).tilemap.inside(x, y) ==> final(self).tilemap.cell(x, y) == if in_rect(
                    *rect,
                    x,
                    y,
                ) {
                    Tile::Floor
                } else {
                    old(self).tilemap.cell(x, y)
                },
    {
        let ghost old_map = self.tilemap;
        proof {
            self.tilemap.lemma_dims();
        }
        let mut dy: i64 = 0;
        while dy < rect.h
            invariant
                rect_ok(*rect),
                0 <= dy <= rect.h,
                self.tilemap.wf(),
                self.tilemap.spec_width() == old_map.spec_width(),
                self.tilemap.spec_height() == old_map.spec_height(),
                self.start_pos == old(self).start_pos,
                forall|x: int, y: int|
                    #![trigger self.tilemap.cell(x, y)]
                    self.tilemap.inside(x, y) ==> self.tilemap.cell(x, y) == if in_rect(*rect, x, y)
                        && y < rect.y + dy {
                        Tile::Floor
                    } else {
                        old_map.cell(x, y)
                    },
            decreases rect.h - dy,
        {
            let mut dx: i64 = 0;
            while dx < rect.w
                invariant
                    rect_ok(*rect),
                    0 <= dy < rect.h,
                    0 <= dx <= rect.w,
                    self.tilemap.wf(),
                    self.tilemap.spec_width() == old_map.spec_width(),
                    self.tilemap.spec_height() == old_map.spec_height(),
                    self.start_pos == old(self).start_pos,
                    forall|x: int, y: int|
                        #![trigger self.tilemap.cell(x, y)]
                        self.tilemap.inside(x, y) ==> self.tilemap.cell(x, y) == if in_rect(
                            *rect,
                            x,
                            y,
                        ) && (y < rect.y + dy || (y == rect.y + dy && x < rect.x + dx)) {
                            Tile::Floor
                        } else {
                            old_map.cell(x, y)
                        },
                decreases rect.w - dx,
            {
                let x = rect.x + dx;
                let y = rect.y + dy;
                proof {
                    self.tilemap.lemma_dims();
                }
                if 0 <= x && x <= i32::MAX as i64 && 0 <= y && y <= i32::MAX as i64 {
                    self.tilemap.set(Pos { x: x as i32, y: y as i32 }, Tile::Floor);
                }
                dx += 1;
            }
            dy += 1;
        }
    }

    /// Whether every square of `rect` lies on the grid and is empty.
    fn can_place_room(&self, rect: &Rect) -> (r: bool)
        requires
            self.tilemap.wf(),
            rect_ok(*rect),
        ensures
            r == forall|x: int, y: int|
                #![trigger in_rect(*rect, x, y)]
                in_rect(*rect, x, y) ==> self.tilemap.tile_at(x, y) == Some(Tile::Empty),
    {
        proof {
            self.tilemap.lemma_dims();
        }
        let mut dy: i64 = 0;
        while dy < rect.h
            invariant
                rect_ok(*rect),
                self.tilemap.wf(),
                0 <= dy <= rect.h,
                forall|x: int, y: int|
                    #![trigger in_rect(*rect, x, y)]
                    in_rect(*rect, x, y) && y < rect.y + dy ==> self.tilemap.tile_at(x, y) == Some(
                        Tile::Empty,
                    ),
            decreases rect.h - dy,
        {
            let mut dx: i64 = 0;
            while dx < rect.w
                invariant
                    rect_ok(*rect),
                    self.tilemap.wf(),
                    0 <= dy < rect.h,
                    0 <= dx <= rect.w,
                    forall|x: int, y: int|
                        #![trigger in_rect(*rect, x, y)]
                        in_rect(*rect, x, y) && (y < rect.y + dy || (y == rect.y + dy && x < rect.x
                            + dx)) ==> self.tilemap.tile_at(x, y) == Some(Tile::Empty),
                decreases rect.w - dx,
            {
                let x = rect.x + dx;
                let y = rect.y + dy;
                proof {
                    self.tilemap.lemma_dims();
                }
                if x < 0 || x > i32::MAX as i64 || y < 0 || y > i32::MAX as i64 {
                    assert(in_rect(*rect, x as int, y as int));
                    return false;
                }
                match self.tilemap.get(Pos { x: x as i32, y: y as i32 }) {
                    Some(Tile::Empty) => {},
                    _ => {
                        assert(in_rect(*rect, x as int, y as int));
                        return false;
                    },
                }
                dx += 1;
            }
            dy += 1;
        }
        true
    }

    /// A square of the grid drawn at random.
    pub fn random_tile_pos(&mut self) -> (r: Pos)
        requires
            old(self).tilemap.wf(),
            old(self).tilemap.spec_width() > 0,
            old(self).tilemap.spec_height() > 0,
        ensures
            final(self).tilemap == old(self).tilemap,
            final(self).start_pos == old(self).start_pos,
            0 <= r.x < old(self).tilemap.spec_width(),
            0 <= r.y < old(self).tilemap.spec_height(),
    {
        proof {
            self.tilemap.lemma_dims();
        }
        let w = self.tilemap.get_width() as i32;
        let h = self.tilemap.get_height() as i32;
        let x = gen_range(&mut self.rng, 0, w);
        let y = gen_range(&mut self.rng, 0, h);
        Pos { x, y }
    }

    /// Samples up to a hundred squares for a room edge (see `is_room_edge`).
    fn find_room_edge(&mut self) -> (r: Option<Pos>)
        requires
            old(self).tilemap.wf(),
            old(self).tilemap.spec_width() > 0,
            old(self).tilemap.spec_height() > 0,
        ensures
            final(self).tilemap == old(self).tilemap,
            final(self).start_pos == old(self).start_pos,
            r matches Some(p) ==> {
                &&& old(self).tilemap.inside(p.x as int, p.y as int)
                &&& floor_touch_count(old(self).tilemap, p) == 1
            },
    {
        let mut i: usize = 0;
        while i < 100
            invariant
                self.tilemap == old(self).tilemap,
                self.start_pos == old(self).start_pos,
                self.tilemap.wf(),
                self.tilemap.spec_width() > 0,
                self.tilemap.spec_height() > 0,
            decreases 100 - i,
        {
            let pos = self.random_tile_pos();
            if is_room_edge(&self.tilemap, pos) {
                return Some(pos);
            }
            i += 1;
        }
        None
    }

    /// One attempt: carve the start room, then up to `ROOMS` rooms, each
    /// placed with its corner on a room edge, then put the stairs on the
    /// sampled floor square farthest from the start room's corner. On
    /// success the start position is moved to the start room's centre; a
    /// failed attempt leaves no stairs.
    #[verifier::rlimit(50)]
    fn try_generate(&mut self) -> (r: bool)
        requires
            old(self).tilemap.wf(),
            old(self).tilemap.spec_width() >= START_ROOM,
            old(self).tilemap.spec_height() >= START_ROOM,
            forall|x: int, y: int|
                #![trigger old(self).tilemap.cell(x, y)]
                old(self).tilemap.inside(x, y) ==> old(self).tilemap.cell(x, y) == Tile::Empty,
        ensures
            final(self).tilemap.wf(),
            final(self).tilemap.spec_width() == old(self).tilemap.spec_width(),
            final(self).tilemap.spec_height() == old(self).tilemap.spec_height(),
            r ==> generated_ok(final(self).tilemap, final(self).start_pos),
            !r ==> no_stairs(final(self).tilemap),
    {
        let ghost width = self.tilemap.spec_width();
        let ghost height = self.tilemap.spec_height();
        proof {
            self.tilemap.lemma_dims();
        }
        let w = self.tilemap.get_width() as i32;
        let h = self.tilemap.get_height() as i32;
        let sx = gen_range(&mut self.rng, 0, w - 4);
        let sy = gen_range(&mut self.rng, 0, h - 4);
        self.start_pos = Pos { x: sx, y: sy };
        let start_room = Rect { x: sx as i64, y: sy as i64, w: START_ROOM, h: START_ROOM };
        self.make_room(&start_room);
        let mut generated_room_count: usize = 0;
        let ghost mut rooms: Seq<Rect> = seq![];
        let mut attempt: usize = 0;
        while attempt < 100 && generated_room_count < ROOMS
            invariant
                self.tilemap.wf(),
                self.tilemap.spec_width() == width,
                self.tilemap.spec_height() == height,
                width >= START_ROOM,
                height >= START_ROOM,
                self.start_pos == (Pos { x: sx, y: sy }),
                start_room == start_rect(self.start_pos),
                0 <= sx <= width - START_ROOM,
                0 <= sy <= height - START_ROOM,
                forall|x: int, y: int|
                    #![trigger in_rect(start_room, x, y)]
                    in_rect(start_room, x, y) ==> self.tilemap.tile_at(x, y) == Some(Tile::Floor),
                rooms.len() == generated_room_count,
                forall|k: int|
                    #![trigger rooms[k]]
                    0 <= k < rooms.len() ==> {
                        &&& 2 <= rooms[k].w <= 7
                        &&& 2 <= rooms[k].h <= 7
                        &&& disjoint(rooms[k], start_room)
                        &&& forall|x: int, y: int|
                            #![trigger in_rect(rooms[k], x, y)]
                            in_rect(rooms[k], x, y) ==> self.tilemap.tile_at(x, y) == Some(
                                Tile::Floor,
                            )
                    },
                forall|k: int, l: int|
                    0 <= k < l < rooms.len() ==> disjoint(#[trigger] rooms[k], #[trigger] rooms[l]),
                rooms_linked(start_room, rooms),
                forall|x: int, y: int|
                    #![trigger self.tilemap.cell(x, y)]
                    self.tilemap.inside(x, y) ==> self.tilemap.cell(x, y) == Tile::Empty || (
                    self.tilemap.cell(x, y) == Tile::Floor && in_rooms(start_room, rooms, x, y)),
            decreases 100 - attempt,
        {
            match self.find_room_edge() {
                Some(edge_pos) => {
                    let (rw, rh) = gen_ivec2(&mut self.rng, 2, 8);
                    let room = Rect {
                        x: edge_pos.x as i64,
                        y: edge_pos.y as i64,
                        w: rw as i64,
                        h: rh as i64,
                    };
                    if self.can_place_room(&room) {
                        let ghost before = self.tilemap;
                        let ghost old_rooms = rooms;
                        let ghost n = rooms.len() as int;
                        let ghost ex = edge_pos.x as int;
                        let ghost ey = edge_pos.y as int;
                        proof {
                            assert forall|k: int| 0 <= k < rooms.len() implies disjoint(
                                #[trigger] rooms[k],
                                room,
                            ) by {
                                assert forall|x: int, y: int| #[trigger]
                                    in_rect(rooms[k], x, y) implies !in_rect(room, x, y) by {
                                    assert(self.tilemap.tile_at(x, y) == Some(Tile::Floor));
                                }
                            }
                            assert forall|x: int, y: int| #[trigger]
                                in_rect(room, x, y) implies !in_rect(start_room, x, y) by {
                                assert(self.tilemap.tile_at(x, y) == Some(Tile::Empty));
                            }
                            assert(in_rect(room, ex, ey));
                            assert(before.tile_at(ex, ey) == Some(Tile::Empty));
                        }
                        let ghost c: int = if before.tile_at(ex - 1, ey) == Some(Tile::Floor) {
                            ex - 1
                        } else if before.tile_at(ex + 1, ey) == Some(Tile::Floor) {
                            ex + 1
                        } else {
                            ex
                        };
                        let ghost d: int = if before.tile_at(ex - 1, ey) == Some(Tile::Floor)
                            || before.tile_at(ex + 1, ey) == Some(Tile::Floor) {
                            ey
                        } else if before.tile_at(ex, ey - 1) == Some(Tile::Floor) {
                            ey - 1
                        } else {
                            ey + 1
                        };
                        proof {
                            assert(before.tile_at(c, d) == Some(Tile::Floor));
                            assert(before.inside(c, d) && before.cell(c, d) == Tile::Floor);
                            assert(in_rooms(start_room, old_rooms, c, d));
                        }
                        self.make_room(&room);
                        generated_room_count += 1;
                        proof {
                            rooms = rooms.push(room);
                            lemma_link_push(start_room, old_rooms, room, ex, ey, c, d);
                            assert(rooms[n] == room);
                            assert forall|x: int, y: int| #[trigger]
                                in_rect(room, x, y) implies self.tilemap.tile_at(x, y) == Some(
                                Tile::Floor,
                            ) by {
                                assert(before.tile_at(x, y) == Some(Tile::Empty));
                            }
                            assert forall|x: int, y: int| #[trigger]
                                in_rect(start_room, x, y) implies self.tilemap.tile_at(x, y)
                                == Some(Tile::Floor) by {
                                assert(before.tile_at(x, y) == Some(Tile::Floor));
                            }
                            assert forall|k: int|
                                #![trigger rooms[k]]
                                0 <= k < rooms.len() - 1 implies forall|x: int, y: int|
                                #![trigger in_rect(rooms[k], x, y)]
                                in_rect(rooms[k], x, y) ==> self.tilemap.tile_at(x, y) == Some(
                                    Tile::Floor,
                                ) by {
                                assert forall|x: int, y: int| #[trigger]
                                    in_rect(rooms[k], x, y) implies self.tilemap.tile_at(x, y)
                                    == Some(Tile::Floor) by {
                                    assert(before.tile_at(x, y) == Some(Tile::Floor));
                                }
                            }
                            assert forall|x: int, y: int|
                                #![trigger self.tilemap.cell(x, y)]
                                self.tilemap.inside(x, y) implies self.tilemap.cell(x, y)
                                == Tile::Empty || (self.tilemap.cell(x, y) == Tile::Floor
                                && in_rooms(start_room, rooms, x, y)) by {
                                if in_rect(room, x, y) {
                                    assert(in_rect(rooms[n], x, y));
                                } else if before.cell(x, y) != Tile::Empty && !in_rect(
                                    start_room,
                                    x,
                                    y,
                                ) {
                                    assert(in_rooms(start_room, old_rooms, x, y));
                                    let k = choose|k: int|
                                        0 <= k < old_rooms.len() && #[trigger] in_rect(
                                            old_rooms[k],
                                            x,
                                            y,
                                        );
                                    assert(rooms[k] == old_rooms[k]);
                                    assert(in_rect(rooms[k], x, y));
                                }
                            }
                        }
                    }
                },
                None => {},
            }
            attempt += 1;
        }
        if generated_room_count < ROOMS {
            return false;
        }
        let mut samples: Vec<Pos> = Vec::new();
        let mut i: usize = 0;
        let ghost carved = self.tilemap;
        while i < 100
            invariant
                self.tilemap == carved,
                self.start_pos == (Pos { x: sx, y: sy }),
                self.tilemap.wf(),
                self.tilemap.spec_width() == width,
                self.tilemap.spec_height() == height,
                width >= START_ROOM,
                height >= START_ROOM,
            decreases 100 - i,
        {
            let pos = self.random_tile_pos();
            samples.push(pos);
            i += 1;
        }
        let stairs_pos = match choose_stairs(&self.tilemap, &samples, self.start_pos) {
            Some(p) => p,
            None => {
                return false;
            },
        };
        let ghost before = self.tilemap;
        let ghost stx = stairs_pos.x as int;
        let ghost sty = stairs_pos.y as int;
        proof {
            assert(before.inside(stx, sty) && before.cell(stx, sty) == Tile::Floor);
        }
        self.tilemap.set(stairs_pos, Tile::Stairs);
        self.start_pos = Pos { x: sx + 2, y: sy + 2 };
        proof {
            let map = self.tilemap;
            let corner = Pos { x: (self.start_pos.x - 2) as i32, y: (self.start_pos.y - 2) as i32 };
            assert(corner == (Pos { x: sx, y: sy }));
            assert(start_rect(corner) == start_room);
            assert forall|x: int, y: int| #[trigger]
                in_rect(start_room, x, y) implies map.passable_at(x, y) by {
                assert(before.tile_at(x, y) == Some(Tile::Floor));
            }
            assert forall|kk: int| 0 <= kk < rooms.len() implies all_passable(
                map,
                #[trigger] rooms[kk],
            ) by {
                assert forall|x: int, y: int| #[trigger]
                    in_rect(rooms[kk], x, y) implies map.passable_at(x, y) by {
                    assert(before.tile_at(x, y) == Some(Tile::Floor));
                }
            }
            assert forall|x: int, y: int|
                #![trigger map.cell(x, y)]
                map.inside(x, y) implies map.cell(x, y) == Tile::Empty || (passable(map.cell(x, y))
                && in_rooms(start_room, rooms, x, y)) by {
                assert(before.cell(x, y) == Tile::Empty || (before.cell(x, y) == Tile::Floor
                    && in_rooms(start_room, rooms, x, y)));
            }
            assert(rooms_carved(map, start_room, rooms));
            assert(in_rect(start_room, sx + 2, sy + 2));
            lemma_carved_connected(map, start_room, rooms, (sx + 2, sy + 2));
            assert(map.cell(stx, sty) == Tile::Stairs);
            assert forall|x: int, y: int|
                #![trigger map.cell(x, y)]
                map.inside(x, y) && map.cell(x, y) == Tile::Stairs implies x == stx && y == sty by {
                assert(before.cell(x, y) != Tile::Stairs);
            }
            assert(one_stairs(map));
            assert(map.inside(sx as int, sy as int)) by {
                assert(in_rect(start_room, sx as int, sy as int));
            }
        }
        true
    }

    /// Generates maps until an attempt succeeds, giving up after
    /// `MAX_ATTEMPTS` attempts. The grid must fit the 5 by 5 start room.
    /// The generator keeps the map it returns.
    pub fn generate(&mut self) -> (r: Option<MapGeneratorResult>)
        requires
            old(self).tilemap.wf(),
            old(self).tilemap.spec_width() >= START_ROOM,
            old(self).tilemap.spec_height() >= START_ROOM,
        ensures
            final(self).tilemap.wf(),
            final(self).tilemap.spec_width() == old(self).tilemap.spec_width(),
            final(self).tilemap.spec_height() == old(self).tilemap.spec_height(),
            r matches Some(res) ==> {
                &&& res.tilemap.spec_width() == old(self).tilemap.spec_width()
                &&& res.tilemap.spec_height() == old(self).tilemap.spec_height()
                &&& generated_ok(res.tilemap, res.start_pos)
                &&& final(self).tilemap.same_tiles(res.tilemap)
                &&& final(self).start_pos == res.start_pos
            },
    {
        let ghost width = self.tilemap.spec_width();
        let ghost height = self.tilemap.spec_height();
        proof {
            self.tilemap.lemma_dims();
        }
        let w = self.tilemap.get_width();
        let h = self.tilemap.get_height();
        let mut attempt: u32 = 0;
        while attempt < MAX_ATTEMPTS
            invariant
                self.tilemap.wf(),
                self.tilemap.spec_width() == width,
                self.tilemap.spec_height() == height,
                w == width,
                h == height,
                width == old(self).tilemap.spec_width(),
                height == old(self).tilemap.spec_height(),
                width >= START_ROOM,
                height >= START_ROOM,
                w <= i32::MAX,
                h <= i32::MAX,
                w * h <= usize::MAX,
            decreases MAX_ATTEMPTS - attempt,
        {
            self.tilemap = TileMap::new(w, h);
            if self.try_generate() {
                let tilemap = self.tilemap.duplicate();
                proof {
                    lemma_generated_ok_copy(self.tilemap, tilemap, self.start_pos);
                }
                return Some(MapGeneratorResult { tilemap, start_pos: self.start_pos });
            }
            attempt += 1;
        }
        None
    }
}

} // verus!
