//! Hiking trails through a forest, some of them steep slopes that can only
//! be walked downhill; the solver looks for the longest walk that visits
//! no tile twice.

use vstd::prelude::*;
use crate::marks::Marks;
use vstd::string::StringSliceAdditionalSpecFns;
use crate::text::{split_lines, trim_bytes, push_char, views, lines, trim};

verus! {

#[derive(Debug, Clone, Copy, PartialEq, Eq, Hash, Structural)]
pub enum Dir {
    U,
    D,
    L,
    R,
}

/// The two directions point against each other.
pub open spec fn opposite(a: Dir, b: Dir) -> bool {
    (a == Dir::U && b == Dir::D) || (a == Dir::D && b == Dir::U) || (a == Dir::L && b == Dir::R)
        || (a == Dir::R && b == Dir::L)
}

/// The direction of the slope that a byte writes.
pub open spec fn dir_of(value: u8) -> Option<Dir> {
    if value == 94 {
        Some(Dir::U)
    } else if value == 118 {
        Some(Dir::D)
    } else if value == 60 {
        Some(Dir::L)
    } else if value == 62 {
        Some(Dir::R)
    } else {
        None
    }
}

impl Dir {
    pub fn is_opposite(&self, other: Dir) -> (r: bool)
        ensures
            r == opposite(*self, other),
    {
        match (self, other) {
            (Dir::U, Dir::D) => true,
            (Dir::D, Dir::U) => true,
            (Dir::L, Dir::R) => true,
            (Dir::R, Dir::L) => true,
            _ => false,
        }
    }

    /// The direction that `value` writes: `^`, `v`, `<` or `>`.
    pub fn from_byte(value: u8) -> (r: Option<Dir>)
        ensures
            r == dir_of(value),
    {
        if value == 94 {
            Some(Dir::U)
        } else if value == 118 {
            Some(Dir::D)
        } else if value == 60 {
            Some(Dir::L)
        } else if value == 62 {
            Some(Dir::R)
        } else {
            None
        }
    }

    /// The character that writes the direction.
    pub fn to_char(self) -> (c: char)
        ensures
            c == match self {
                Dir::U => '^',
                Dir::D => 'v',
                Dir::L => '<',
                Dir::R => '>',
            },
    {
        match self {
            Dir::U => '^',
            Dir::D => 'v',
            Dir::L => '<',
            Dir::R => '>',
        }
    }
}

#[derive(Debug, Clone, Copy, PartialEq, Eq)]
pub enum Tile {
    Path,
    Forest,
    Slope(Dir),
}

/// The tile that a byte writes.
pub open spec fn tile_of(value: u8) -> Option<Tile> {
    if value == 46 {
        Some(Tile::Path)
    } else if value == 35 {
        Some(Tile::Forest)
    } else {
        match dir_of(value) {
            Some(dir) => Some(Tile::Slope(dir)),
            None => None,
        }
    }
}

/// The character that writes a tile: a dot for a path, a hash for forest,
/// and for a slope the arrow of its direction.
pub open spec fn tile_char(tile: Tile) -> char {
    match tile {
        Tile::Path => '.',
        Tile::Forest => '#',
        Tile::Slope(Dir::U) => '^',
        Tile::Slope(Dir::D) => 'v',
        Tile::Slope(Dir::L) => '<',
        Tile::Slope(Dir::R) => '>',
    }
}

/// The characters of the first `x` tiles of row `y`.
pub open spec fn row_chars(map: Trails, y: int, x: nat) -> Seq<char>
    decreases x,
{
    if x == 0 {
        Seq::empty()
    } else {
        row_chars(map, y, (x - 1) as nat).push(tile_char(map.tiles@[x - 1 + map.width * y]))
    }
}

/// The characters of the first `y` rows, each row with a line feed.
pub open spec fn map_chars(map: Trails, y: nat) -> Seq<char>
    decreases y,
{
    if y == 0 {
        Seq::empty()
    } else {
        map_chars(map, (y - 1) as nat) + row_chars(map, y - 1, map.width as nat).push('\n')
    }
}

impl Tile {
    /// The tile that `value` writes, if it writes one.
    pub fn from_byte(value: u8) -> (r: Option<Tile>)
        ensures
            r == tile_of(value),
    {
        if value == 46 {
            Some(Tile::Path)
        } else if value == 35 {
            Some(Tile::Forest)
        } else {
            match Dir::from_byte(value) {
                Some(dir) => Some(Tile::Slope(dir)),
                None => None,
            }
        }
    }

    /// The character that writes the tile.
    pub fn to_char(self) -> (c: char)
        ensures
            c == tile_char(self),
    {
        match self {
            Tile::Path => '.',
            Tile::Forest => '#',
            Tile::Slope(dir) => dir.to_char(),
        }
    }
}

#[derive(Debug, Clone, Copy, PartialEq, Eq, Hash, Structural)]
pub struct Point {
    pub x: usize,
    pub y: usize,
}

/// The point one step from `p` in direction `dir`; before the first
/// column and above the first row lies the largest machine word.
pub open spec fn stepped(p: Point, dir: Dir) -> Point {
    match dir {
        Dir::U => Point {
            x: p.x,
            y: if p.y == 0 {
                usize::MAX
            } else {
                (p.y - 1) as usize
            },
        },
        Dir::D => Point { x: p.x, y: (p.y + 1) as usize },
        Dir::L => Point {
            x: if p.x == 0 {
                usize::MAX
            } else {
                (p.x - 1) as usize
            },
            y: p.y,
        },
        Dir::R => Point { x: (p.x + 1) as usize, y: p.y },
    }
}

/// The tile in column `x` and row `y`, if the map has one there.
pub open spec fn tile_at(map: Trails, x: int, y: int) -> Option<Tile> {
    if 0 <= x < map.width && 0 <= y < map.height {
        Some(map.tiles@[x + map.width * y])
    } else {
        None
    }
}

/// A step in direction `dir` onto `tile` is possible: onto a path, or
/// onto a slope that points the same way.
pub open spec fn walkable(tile: Option<Tile>, dir: Dir) -> bool {
    match tile {
        Some(Tile::Path) => true,
        Some(Tile::Slope(slope_dir)) => dir == slope_dir,
        _ => false,
    }
}

impl Point {
    pub fn update_position(&self, dir: Dir) -> (r: Point)
        requires
            self.x < usize::MAX,
            self.y < usize::MAX,
        ensures
            r == stepped(*self, dir),
    {
        match dir {
            Dir::U => Point { x: self.x, y: self.y.wrapping_sub(1) },
            Dir::D => Point { x: self.x, y: self.y + 1 },
            Dir::L => Point { x: self.x.wrapping_sub(1), y: self.y },
            Dir::R => Point { x: self.x + 1, y: self.y },
        }
    }

    /// The point one step in direction `dir`, if one can step there.
    pub fn can_move(&self, dir: Dir, map: &Trails) -> (r: Option<Point>)
        requires
            map.wf(),
            self.x < usize::MAX,
            self.y < usize::MAX,
        ensures
            r == if walkable(
                tile_at(*map, stepped(*self, dir).x as int, stepped(*self, dir).y as int),
                dir,
            ) {
                Some(stepped(*self, dir))
            } else {
                None
            },
            r matches Some(p) ==> p.x < map.width && p.y < map.height,
    {
        let next = self.update_position(dir);
        match map.get_tile(next.x, next.y) {
            Some(tile) => match tile {
                Tile::Path => Some(next),
                Tile::Forest => None,
                Tile::Slope(slope_dir) => {
                    if dir == slope_dir {
                        Some(next)
                    } else {
                        None
                    }
                },
            },
            None => None,
        }
    }
}

/// The tiles of the forest, row after row; column 0 is the left edge and
/// row 0 the upper edge.
pub struct Trails {
    pub tiles: Vec<Tile>,
    pub width: usize,
    pub height: usize,
}

impl Trails {
    /// There is a tile for every place.
    pub open spec fn wf(&self) -> bool {
        self.tiles@.len() == self.width * self.height
    }

    pub fn get_tile(&self, x: usize, y: usize) -> (r: Option<Tile>)
        requires
            self.wf(),
        ensures
            r == tile_at(*self, x as int, y as int),
    {
        if x >= self.width || y >= self.height {
            return None;
        }
        proof {
            crate::d21::lemma_cell_in_range(
                self.width as int,
                self.height as int,
                x as int,
                y as int,
            );
            assert(self.width * y == y * self.width) by (nonlinear_arith);
        }
        let n = self.tiles.len();
        let idx = x + self.width * y;
        Some(self.tiles[idx])
    }

    /// The number of the cell in column `x` and row `y`.
    pub fn cell(&self, p: Point) -> (r: usize)
        requires
            self.wf(),
            p.x < self.width,
            p.y < self.height,
        ensures
            r < self.tiles@.len(),
    {
        proof {
            crate::d21::lemma_cell_in_range(
                self.width as int,
                self.height as int,
                p.x as int,
                p.y as int,
            );
            assert(self.width * p.y == p.y * self.width) by (nonlinear_arith);
        }
        let n = self.tiles.len();
        p.x + self.width * p.y
    }

    /// The goal: the tile before the last of the last row.
    pub fn get_end(&self) -> (p: Point)
        requires
            self.width >= 2,
            self.height >= 1,
        ensures
            p.x == self.width - 2,
            p.y == self.height - 1,
    {
        Point { x: self.width - 2, y: self.height - 1 }
    }

    /// The map with every slope turned into a path.
    pub fn remove_slopes(self) -> (r: Self)
        ensures
            r.width == self.width,
            r.height == self.height,
            r.tiles@.len() == self.tiles@.len(),
            forall|i: int|
                0 <= i < r.tiles@.len() ==> (#[trigger] r.tiles@[i]) == if self.tiles@[i]
                    == Tile::Forest {
                    Tile::Forest
                } else {
                    Tile::Path
                },
    {
        let n = self.tiles.len();
        let mut tiles: Vec<Tile> = Vec::new();
        let mut i: usize = 0;
        while i < n
            invariant
                n == self.tiles@.len(),
                i <= n,
                tiles@.len() == i,
                forall|k: int|
                    0 <= k < i ==> (#[trigger] tiles@[k]) == if self.tiles@[k] == Tile::Forest {
                        Tile::Forest
                    } else {
                        Tile::Path
                    },
            decreases n - i,
        {
            match self.tiles[i] {
                Tile::Forest => {
                    tiles.push(Tile::Forest);
                },
                _ => {
                    tiles.push(Tile::Path);
                },
            }
            i += 1;
        }
        Trails { tiles, width: self.width, height: self.height }
    }

    /// The rows of the map as text, each with a line feed.
    pub fn to_string(&self) -> (s: String)
        requires
            self.wf(),
        ensures
            s@ == map_chars(*self, self.height as nat),
    {
        let mut text = String::new();
        let mut y: usize = 0;
        assert(text@ =~= map_chars(*self, 0));
        while y < self.height
            invariant
                self.wf(),
                y <= self.height,
                text@ == map_chars(*self, y as nat),
            decreases self.height - y,
        {
            let ghost before = text@;
            let mut x: usize = 0;
            assert(text@ =~= before + row_chars(*self, y as int, 0));
            while x < self.width
                invariant
                    self.wf(),
                    y < self.height,
                    x <= self.width,
                    text@ == before + row_chars(*self, y as int, x as nat),
                decreases self.width - x,
            {
                match self.get_tile(x, y) {
                    Some(tile) => {
                        push_char(&mut text, tile.to_char());
                    },
                    None => {},
                }
                assert(text@ =~= before + row_chars(*self, y as int, (x + 1) as nat));
                x += 1;
            }
            push_char(&mut text, '\n');
            assert(text@ =~= map_chars(*self, (y + 1) as nat));
            y += 1;
        }
        text
    }
}

/// The rows, without the white space at their ends, show a map: there is
/// a row, all rows are as long as the first, and every byte writes a tile.
pub open spec fn shows_trails(rows: Seq<Seq<u8>>) -> bool {
    &&& rows.len() > 0
    &&& forall|y: int| 0 <= y < rows.len() ==> trim(#[trigger] rows[y]).len() == trim(rows[0]).len()
    &&& forall|x: int, y: int|
        0 <= y < rows.len() && 0 <= x < trim(rows[y]).len() ==> tile_of(
            #[trigger] trim(rows[y])[x],
        ) is Some
}

/// `map` holds the tiles that the rows write, row by row.
pub open spec fn reads_trails(rows: Seq<Seq<u8>>, map: Trails) -> bool {
    &&& shows_trails(rows)
    &&& map.wf()
    &&& map.height == rows.len()
    &&& map.width == trim(rows[0]).len()
    &&& forall|x: int, y: int|
        0 <= y < map.height && 0 <= x < map.width ==> tile_of(trim(rows[y])[x]) == Some(
            #[trigger] map.tiles@[x + map.width * y],
        )
}

/// Reads the map, one row from each line without the white space at its
/// ends. `None` if there is no line, the lines differ in length, or a byte
/// writes no tile.
pub fn parse_input(inp: &str) -> (r: Option<Trails>)
    ensures
        r matches Some(map) ==> map.wf() && map.height > 0,
        match r {
            Some(map) => reads_trails(lines(inp.spec_bytes()), map),
            None => !shows_trails(lines(inp.spec_bytes())),
        },
{
    let all = split_lines(inp.as_bytes());
    let ghost rows = lines(inp.spec_bytes());
    let height = all.len();
    if height == 0 {
        return None;
    }
    assert(rows[0] == all@[0]@);
    let first = trim_bytes(all[0].as_slice());
    let width = first.len();
    let mut tiles: Vec<Tile> = Vec::new();
    let mut y: usize = 0;
    assert(width * 0 == 0);
    while y < height
        invariant
            height == all@.len(),
            rows == views(all@),
            rows == lines(inp.spec_bytes()),
            width == trim(rows[0]).len(),
            y <= height,
            tiles@.len() == width * y,
            forall|b: int| 0 <= b < y ==> trim(#[trigger] rows[b]).len() == width,
            forall|a: int, b: int|
                0 <= b < y && 0 <= a < width ==> tile_of(trim(rows[b])[a]) == Some(
                    #[trigger] tiles@[a + width * b],
                ),
        decreases height - y,
    {
        assert(rows[y as int] == all@[y as int]@);
        let line = trim_bytes(all[y].as_slice());
        if line.len() != width {
            assert(trim(rows[y as int]).len() != trim(rows[0]).len());
            return None;
        }
        let mut x: usize = 0;
        while x < width
            invariant
                width == line@.len(),
                line@ == trim(rows[y as int]),
                rows == lines(inp.spec_bytes()),
                x <= width,
                y < height,
                height == rows.len(),
                tiles@.len() == width * y + x,
                forall|a: int, b: int|
                    0 <= b <= y && 0 <= a < width && (b < y || a < x) ==> tile_of(
                        trim(rows[b])[a],
                    ) == Some(#[trigger] tiles@[a + width * b]),
            decreases width - x,
        {
            let ghost before = tiles@;
            match Tile::from_byte(line[x]) {
                Some(tile) => {
                    tiles.push(tile);
                },
                None => {
                    assert(tile_of(trim(rows[y as int])[x as int]) is None);
                    return None;
                },
            }
            assert forall|a: int, b: int|
                0 <= b <= y && 0 <= a < width && (b < y || a < x + 1) implies tile_of(
                trim(rows[b])[a],
            ) == Some(#[trigger] tiles@[a + width * b]) by {
                assert(width * b == b * width && width * y == y * width) by (nonlinear_arith);
                if b < y || a < x {
                    crate::d21::lemma_cell_before(width as int, a, b, x as int, y as int);
                    assert(tiles@[a + width * b] == before[a + width * b]);
                }
            }
            x += 1;
        }
        assert(width * (y + 1) == width * y + width) by (nonlinear_arith);
        y += 1;
    }
    let map = Trails { tiles, width, height };
    proof {
        assert(rows.len() == height);
        assert forall|x: int, y: int|
            0 <= y < rows.len() && 0 <= x < trim(rows[y]).len() implies tile_of(
            #[trigger] trim(rows[y])[x],
        ) is Some by {
            assert(trim(rows[y]).len() == width);
            assert(tile_of(trim(rows[y])[x]) == Some(tiles@[x + width * y]));
        }
    }
    Some(map)
}

/// The junctions of the trails, and from each the junctions that a trail
/// leads to, with the number of steps of the trail.
pub struct Graph {
    pub nodes: Vec<Point>,
    pub edges: Vec<Vec<(usize, usize)>>,
}

impl Graph {
    /// Every junction has its list of trails, and every trail leads to a
    /// junction.
    pub open spec fn wf(&self) -> bool {
        &&& self.nodes@.len() == self.edges@.len()
        &&& forall|i: int, k: int|
            0 <= i < self.edges@.len() && 0 <= k < self.edges@[i]@.len() ==> (
            #[trigger] self.edges@[i]@[k]).0 < self.nodes@.len()
    }

    /// The number of the junction at `p`: the first, where there are
    /// several.
    pub fn find(&self, p: Point) -> (r: Option<usize>)
        ensures
            match r {
                Some(i) => i < self.nodes@.len() && self.nodes@[i as int] == p && forall|k: int|
                    0 <= k < i ==> self.nodes@[k] != p,
                None => !self.nodes@.contains(p),
            },
    {
        let mut i: usize = 0;
        while i < self.nodes.len()
            invariant
                i <= self.nodes@.len(),
                forall|k: int| 0 <= k < i ==> self.nodes@[k] != p,
            decreases self.nodes@.len() - i,
        {
            if self.nodes[i].x == p.x && self.nodes[i].y == p.y {
                return Some(i);
            }
            i += 1;
        }
        None
    }

    /// The number of the junction at `p`, which is added if it is new.
    fn node(&mut self, p: Point) -> (r: usize)
        requires
            old(self).wf(),
        ensures
            final(self).wf(),
            r < final(self).nodes@.len(),
            final(self).nodes@.len() >= old(self).nodes@.len(),
            final(self).nodes@[r as int] == p,
            forall|a: int|
                0 <= a < old(self).nodes@.len() ==> (#[trigger] final(self).nodes@[a])
                    == old(self).nodes@[a] && final(self).edges@[a]@ == old(self).edges@[a]@,
            forall|a: int|
                old(self).nodes@.len() <= a < final(self).nodes@.len() ==> (
                #[trigger] final(self).edges@[a])@.len() == 0,
    {
        match self.find(p) {
            Some(i) => i,
            None => {
                let i = self.nodes.len();
                let ghost before = self.edges@;
                self.nodes.push(p);
                self.edges.push(Vec::new());
                assert forall|a: int| 0 <= a < before.len() implies self.edges@[a]@ == before[a]@ by {
                    assert(self.edges@[a] == before[a]);
                }
                assert forall|a: int, k: int|
                    0 <= a < self.edges@.len() && 0 <= k < self.edges@[a]@.len() implies (
                #[trigger] self.edges@[a]@[k]).0 < self.nodes@.len() by {
                    if a < before.len() {
                        assert(self.edges@[a] == before[a]);
                    }
                }
                i
            },
        }
    }

    /// Adds the trail from junction `from` to junction `to` if it is not
    /// there yet.
    fn link(&mut self, from: usize, to: usize, cost: usize)
        requires
            old(self).wf(),
            from < old(self).nodes@.len(),
            to < old(self).nodes@.len(),
        ensures
            final(self).wf(),
            final(self).nodes@ == old(self).nodes@,
            final(self).edges@.len() == old(self).edges@.len(),
            forall|a: int|
                0 <= a < old(self).edges@.len() && a != from ==> (#[trigger] final(self).edges@[a])@
                    == old(self).edges@[a]@,
            final(self).edges@[from as int]@ == if old(self).edges@[from as int]@.contains(
                (to, cost),
            ) {
                old(self).edges@[from as int]@
            } else {
                old(self).edges@[from as int]@.push((to, cost))
            },
    {
        let len = self.edges[from].len();
        let mut k: usize = 0;
        while k < len
            invariant
                self.wf(),
                self.nodes@ == old(self).nodes@,
                self.edges@ == old(self).edges@,
                from < self.nodes@.len(),
                len == self.edges@[from as int]@.len(),
                k <= len,
                forall|j: int| 0 <= j < k ==> self.edges@[from as int]@[j] != (to, cost),
            decreases len - k,
        {
            let edge = self.edges[from][k];
            if edge.0 == to && edge.1 == cost {
                assert(self.edges@[from as int]@[k as int] == (to, cost));
                return ;
            }
            k += 1;
        }
        let ghost before = self.edges@;
        self.edges[from].push((to, cost));
        assert forall|a: int| 0 <= a < before.len() && a != from implies (#[trigger] self.edges@[a])@
            == before[a]@ by {
            assert(self.edges@[a] == before[a]);
        }
        assert forall|a: int, k: int|
            0 <= a < self.edges@.len() && 0 <= k < self.edges@[a]@.len() implies (
        #[trigger] self.edges@[a]@[k]).0 < self.nodes@.len() by {
            if a != from {
                assert(self.edges@[a] == before[a]);
            } else if k < before[a]@.len() {
                assert(self.edges@[a]@[k] == before[a]@[k]);
            }
        }
    }
}

/// The map has a start in the first row and a goal in the last.
pub open spec fn hikeable(map: Trails) -> bool {
    map.wf() && map.width >= 2 && map.height >= 1 && map.width < usize::MAX && map.height
        < usize::MAX
}

/// The direction with the number `k`: up, down, left, right.
pub open spec fn dir_no(k: int) -> Dir {
    if k == 0 {
        Dir::U
    } else if k == 1 {
        Dir::D
    } else if k == 2 {
        Dir::L
    } else {
        Dir::R
    }
}

/// The point one step from `p` in direction `dir`, if one can step there.
pub open spec fn step_to(map: Trails, p: Point, dir: Dir) -> Option<Point> {
    if walkable(tile_at(map, stepped(p, dir).x as int, stepped(p, dir).y as int), dir) {
        Some(stepped(p, dir))
    } else {
        None
    }
}

/// The ways on from `p` in the first `k` directions, for a walker who
/// came in direction `coming` and does not turn back.
pub open spec fn ways_on(map: Trails, p: Point, coming: Dir, k: nat) -> Seq<(Point, Dir)>
    decreases k,
{
    if k == 0 {
        Seq::empty()
    } else {
        let d = dir_no(k - 1);
        let before = ways_on(map, p, coming, (k - 1) as nat);
        if !opposite(d, coming) && step_to(map, p, d) is Some {
            before.push((step_to(map, p, d).unwrap(), d))
        } else {
            before
        }
    }
}

/// Where the trail that reaches `p` in direction `dir` after `steps` steps
/// ends: at the goal, or at the first point with more than one way on,
/// with those ways and the number of steps. Nothing at a dead end, after
/// `fuel` more steps, or when the steps leave the machine word.
pub open spec fn trail(map: Trails, p: Point, dir: Dir, steps: nat, fuel: nat) -> Option<
    (Point, Seq<(Point, Dir)>, nat),
>
    decreases fuel,
{
    let ways = ways_on(map, p, dir, 4);
    if p.x == map.width - 2 && p.y == map.height - 1 {
        Some((p, Seq::empty(), steps))
    } else if ways.len() == 0 {
        None
    } else if ways.len() > 1 {
        Some((p, ways, steps))
    } else if fuel == 0 || steps >= usize::MAX {
        None
    } else {
        trail(map, ways[0].0, ways[0].1, steps + 1, (fuel - 1) as nat)
    }
}

/// Follows the trail that leaves `point` in direction `dir` up to the
/// next junction or the goal, and returns that point, the ways on from
/// it, and the number of steps walked, beginning with `steps`. `None` at a
/// dead end, or when the trail is longer than `fuel` steps.
pub fn follow_path(map: &Trails, point: Point, dir: Dir, steps: usize, fuel: usize) -> (r: Option<
    (Point, Vec<(Point, Dir)>, usize),
>)
    requires
        hikeable(*map),
        point.x < map.width,
        point.y < map.height,
    ensures
        r matches Some((junction, ways, cost)) ==> junction.x < map.width && junction.y
            < map.height && cost >= steps && forall|i: int|
            0 <= i < ways@.len() ==> (#[trigger] ways@[i]).0.x < map.width && ways@[i].0.y
                < map.height,
        match r {
            Some((junction, ways, cost)) => trail(*map, point, dir, steps as nat, fuel as nat)
                == Some((junction, ways@, cost as nat)),
            None => trail(*map, point, dir, steps as nat, fuel as nat) is None,
        },
    decreases fuel,
{
    let end = map.get_end();
    if point.x == end.x && point.y == end.y {
        let none: Vec<(Point, Dir)> = Vec::new();
        assert(none@ =~= Seq::<(Point, Dir)>::empty());
        return Some((point, none, steps));
    }
    let mut next_points: Vec<(Point, Dir)> = Vec::new();
    let mut k: usize = 0;
    assert(next_points@ =~= ways_on(*map, point, dir, 0));
    while k < 4
        invariant
            k <= 4,
            hikeable(*map),
            point.x < map.width,
            point.y < map.height,
            forall|i: int|
                0 <= i < next_points@.len() ==> (#[trigger] next_points@[i]).0.x < map.width
                    && next_points@[i].0.y < map.height,
            next_points@ == ways_on(*map, point, dir, k as nat),
        decreases 4 - k,
    {
        let d = if k == 0 {
            Dir::U
        } else if k == 1 {
            Dir::D
        } else if k == 2 {
            Dir::L
        } else {
            Dir::R
        };
        assert(d == dir_no(k as int));
        if !d.is_opposite(dir) {
            match point.can_move(d, map) {
                Some(p) => {
                    next_points.push((p, d));
                },
                None => {},
            }
        }
        k += 1;
    }
    if next_points.len() == 0 {
        return None;
    }
    if next_points.len() > 1 {
        return Some((point, next_points, steps));
    }
    if fuel == 0 || steps == usize::MAX {
        return None;
    }
    let (next, dir) = next_points[0];
    follow_path(map, next, dir, steps + 1, fuel - 1)
}

/// Where the trail that leaves `from` in direction `dir` ends, and the
/// number of its steps, if there is such a trail.
pub open spec fn trail_to(map: Trails, from: Point, dir: Dir) -> Option<(Point, nat)> {
    match step_to(map, from, dir) {
        Some(next) => match trail(map, next, dir, 1, map.tiles@.len()) {
            Some((junction, _, cost)) => Some((junction, cost)),
            None => None,
        },
        None => None,
    }
}

/// A trail of `cost` steps leads from `from` to `to`.
pub open spec fn is_trail(map: Trails, from: Point, to: Point, cost: nat) -> bool {
    exists|dir: Dir| #[trigger] trail_to(map, from, dir) == Some((to, cost))
}

/// Every trail of the graph is a trail of the map between its junctions,
/// or, where trails are entered both ways, the way back of one.
pub open spec fn trails_of(map: Trails, graph: Graph, is_directed: bool) -> bool {
    forall|a: int, k: int|
        0 <= a < graph.edges@.len() && 0 <= k < graph.edges@[a]@.len() ==> {
            let edge = #[trigger] graph.edges@[a]@[k];
            is_trail(map, graph.nodes@[a], graph.nodes@[edge.0 as int], edge.1 as nat) || (
            !is_directed && is_trail(map, graph.nodes@[edge.0 as int], graph.nodes@[a], edge.1 as nat))
        }
}

/// The junctions of the map with the trails between them: from the start
/// every trail is followed to the next junction, and from every new
/// junction all ways on. Where `is_directed` is not set, every trail is
/// entered for the way back too.
pub fn compact_edges(map: &Trails, start: Point, is_directed: bool) -> (graph: Graph)
    requires
        hikeable(*map),
        start.x < map.width,
        start.y < map.height,
    ensures
        graph.wf(),
        trails_of(*map, graph, is_directed),
{
    let cells = map.tiles.len();
    let mut graph = Graph { nodes: Vec::new(), edges: Vec::new() };
    let mut visited = Marks::new(cells);
    visited.insert(map.cell(start));
    let mut queue: Vec<(Point, Dir)> = Vec::new();
    queue.push((start, Dir::D));
    let end = map.get_end();
    while queue.len() > 0
        invariant
            hikeable(*map),
            graph.wf(),
            visited.wf(),
            visited@.len() == cells,
            cells == map.tiles@.len(),
            visited.count <= cells,
            forall|i: int|
                0 <= i < queue@.len() ==> (#[trigger] queue@[i]).0.x < map.width && queue@[i].0.y
                    < map.height,
            trails_of(*map, graph, is_directed),
        decreases cells - visited.count, queue@.len(),
    {
        let ghost old_queue = queue@;
        let (parent, dir) = match queue.pop() {
            Some(item) => item,
            None => (start, Dir::D),
        };
        assert(old_queue[old_queue.len() - 1] == (parent, dir));
        assert forall|i: int| 0 <= i < queue@.len() implies (#[trigger] queue@[i]).0.x < map.width
            && queue@[i].0.y < map.height by {
            assert(queue@[i] == old_queue[i]);
        }
        let next = match parent.can_move(dir, map) {
            Some(next) => next,
            None => {
                continue ;
            },
        };
        let (junction, next_points, cost) = match follow_path(map, next, dir, 1, cells) {
            None => {
                continue ;
            },
            Some(tpl) => tpl,
        };
        assert(trail_to(*map, parent, dir) == Some((junction, cost as nat)));
        assert(is_trail(*map, parent, junction, cost as nat));
        let ghost g0 = graph;
        let from = graph.node(parent);
        let ghost g1 = graph;
        let to = graph.node(junction);
        let ghost g2 = graph;
        proof {
            assert(graph.nodes@[from as int] == parent);
            assert(graph.nodes@[to as int] == junction);
            assert forall|a: int, k: int|
                0 <= a < graph.edges@.len() && 0 <= k < graph.edges@[a]@.len() implies {
                let edge = #[trigger] graph.edges@[a]@[k];
                is_trail(*map, graph.nodes@[a], graph.nodes@[edge.0 as int], edge.1 as nat) || (
                !is_directed && is_trail(
                    *map,
                    graph.nodes@[edge.0 as int],
                    graph.nodes@[a],
                    edge.1 as nat,
                ))
            } by {
                if a < g0.nodes@.len() {
                    assert(g1.nodes@[a] == g0.nodes@[a]);
                    assert(g2.nodes@[a] == g1.nodes@[a]);
                    assert(g1.edges@[a]@ == g0.edges@[a]@);
                    assert(g2.edges@[a]@ == g1.edges@[a]@);
                    let edge = g0.edges@[a]@[k];
                    assert(edge.0 < g0.nodes@.len());
                    assert(g1.nodes@[edge.0 as int] == g0.nodes@[edge.0 as int]);
                    assert(g2.nodes@[edge.0 as int] == g1.nodes@[edge.0 as int]);
                } else if a < g1.nodes@.len() {
                    assert(g1.edges@[a]@.len() == 0);
                    assert(g2.nodes@[a] == g1.nodes@[a]);
                    assert(g2.edges@[a]@ == g1.edges@[a]@);
                } else {
                    assert(g2.edges@[a]@.len() == 0);
                }
            }
        }
        graph.link(from, to, cost);
        let ghost g3 = graph;
        proof {
            assert forall|a: int, k: int|
                0 <= a < graph.edges@.len() && 0 <= k < graph.edges@[a]@.len() implies {
                let edge = #[trigger] graph.edges@[a]@[k];
                is_trail(*map, graph.nodes@[a], graph.nodes@[edge.0 as int], edge.1 as nat) || (
                !is_directed && is_trail(
                    *map,
                    graph.nodes@[edge.0 as int],
                    graph.nodes@[a],
                    edge.1 as nat,
                ))
            } by {
                if a != from {
                    assert(g3.edges@[a]@ == g2.edges@[a]@);
                } else if k < g2.edges@[a]@.len() {
                    assert(g3.edges@[a]@[k] == g2.edges@[a]@[k]);
                } else {
                    assert(g3.edges@[a]@[k] == (to, cost));
                }
            }
        }
        if !is_directed {
            graph.link(to, from, cost);
            proof {
                assert forall|a: int, k: int|
                    0 <= a < graph.edges@.len() && 0 <= k < graph.edges@[a]@.len() implies {
                    let edge = #[trigger] graph.edges@[a]@[k];
                    is_trail(*map, graph.nodes@[a], graph.nodes@[edge.0 as int], edge.1 as nat)
                        || (!is_directed && is_trail(
                        *map,
                        graph.nodes@[edge.0 as int],
                        graph.nodes@[a],
                        edge.1 as nat,
                    ))
                } by {
                    if a != to {
                        assert(graph.edges@[a]@ == g3.edges@[a]@);
                    } else if k < g3.edges@[a]@.len() {
                        assert(graph.edges@[a]@[k] == g3.edges@[a]@[k]);
                    } else {
                        assert(graph.edges@[a]@[k] == (from, cost));
                    }
                }
            }
        }
        let at = map.cell(junction);
        if visited.contains(at) || (junction.x == end.x && junction.y == end.y) {
            continue ;
        }
        visited.insert(at);
        let mut k: usize = 0;
        while k < next_points.len()
            invariant
                k <= next_points@.len(),
                junction.x < map.width,
                junction.y < map.height,
                forall|i: int|
                    0 <= i < queue@.len() ==> (#[trigger] queue@[i]).0.x < map.width
                        && queue@[i].0.y < map.height,
            decreases next_points@.len() - k,
        {
            let ghost before = queue@;
            queue.push((junction, next_points[k].1));
            assert forall|i: int| 0 <= i < queue@.len() implies (#[trigger] queue@[i]).0.x
                < map.width && queue@[i].0.y < map.height by {
                if i < before.len() {
                    assert(queue@[i] == before[i]);
                }
            }
            k += 1;
        }
    }
    graph
}

/// The greater of two numbers of steps, where there are two.
pub open spec fn longer(a: Option<nat>, b: Option<nat>) -> Option<nat> {
    match (a, b) {
        (Some(x), Some(y)) => if y > x {
            Some(y)
        } else {
            Some(x)
        },
        (Some(x), None) => Some(x),
        (None, other) => other,
    }
}

/// The greatest number of steps of a walk from junction `node` to
/// junction `end` of at most `fuel` trails that passes no junction twice
/// and none marked in `visited`, among the walks whose steps fit the
/// machine word.
pub open spec fn longest(graph: Graph, node: int, end: int, visited: Seq<bool>, fuel: nat) -> Option<
    nat,
>
    decreases fuel, 0nat,
{
    if node == end {
        Some(0)
    } else if fuel == 0 || visited[node] {
        None
    } else {
        longest_by(
            graph,
            node,
            end,
            visited.update(node, true),
            (fuel - 1) as nat,
            graph.edges@[node]@.len(),
        )
    }
}

/// The greatest number of steps of such a walk that leaves `node` by one
/// of its first `k` trails.
pub open spec fn longest_by(
    graph: Graph,
    node: int,
    end: int,
    visited: Seq<bool>,
    fuel: nat,
    k: nat,
) -> Option<nat>
    decreases fuel, k + 1,
{
    if k == 0 {
        None
    } else {
        let (neighbour, cost) = graph.edges@[node]@[k - 1];
        let before = longest_by(graph, node, end, visited, fuel, (k - 1) as nat);
        if visited[neighbour as int] {
            before
        } else {
            match longest(graph, neighbour as int, end, visited, fuel) {
                Some(rest) => if rest + cost <= usize::MAX {
                    longer(before, Some((rest + cost) as nat))
                } else {
                    before
                },
                None => before,
            }
        }
    }
}

/// The greatest number of steps of a walk from junction `node` to
/// junction `end` that passes no junction twice and none marked in
/// `visited`; `None` if there is no such walk or its length does not fit
/// the machine word.
fn longest_from(graph: &Graph, node: usize, end: usize, visited: &mut Vec<bool>, fuel: usize) -> (r:
    Option<usize>)
    requires
        graph.wf(),
        node < graph.nodes@.len(),
        old(visited)@.len() == graph.nodes@.len(),
    ensures
        final(visited)@ == old(visited)@,
        match r {
            Some(steps) => longest(*graph, node as int, end as int, old(visited)@, fuel as nat)
                == Some(steps as nat),
            None => longest(*graph, node as int, end as int, old(visited)@, fuel as nat) is None,
        },
    decreases fuel,
{
    if node == end {
        return Some(0);
    }
    if fuel == 0 || visited[node] {
        return None;
    }
    let ghost before = visited@;
    let was = visited[node];
    visited.set(node, true);
    let mut best: Option<usize> = None;
    let n = graph.edges[node].len();
    let mut k: usize = 0;
    while k < n
        invariant
            graph.wf(),
            node < graph.nodes@.len(),
            n == graph.edges@[node as int]@.len(),
            k <= n,
            fuel > 0,
            visited@ == before.update(node as int, true),
            before.len() == graph.nodes@.len(),
            match best {
                Some(b) => longest_by(
                    *graph,
                    node as int,
                    end as int,
                    before.update(node as int, true),
                    (fuel - 1) as nat,
                    k as nat,
                ) == Some(b as nat),
                None => longest_by(
                    *graph,
                    node as int,
                    end as int,
                    before.update(node as int, true),
                    (fuel - 1) as nat,
                    k as nat,
                ) is None,
            },
        decreases n - k,
    {
        let (neighbour, cur_cost) = graph.edges[node][k];
        assert(graph.edges@[node as int]@[k as int] == (neighbour, cur_cost));
        if !visited[neighbour] {
            match longest_from(graph, neighbour, end, visited, fuel - 1) {
                Some(rest) => match rest.checked_add(cur_cost) {
                    Some(total) => {
                        best = match best {
                            Some(b) => if total > b {
                                Some(total)
                            } else {
                                Some(b)
                            },
                            None => Some(total),
                        };
                    },
                    None => {},
                },
                None => {},
            }
        }
        k += 1;
    }
    visited.set(node, was);
    assert(visited@ =~= before);
    best
}

/// `i` is the first place of `p` among the junctions.
pub open spec fn first_at(nodes: Seq<Point>, p: Point, i: int) -> bool {
    0 <= i < nodes.len() && nodes[i] == p && forall|k: int| 0 <= k < i ==> nodes[k] != p
}

/// The number of the junction at `p`: its first place among the
/// junctions.
pub open spec fn junction_of(nodes: Seq<Point>, p: Point) -> int {
    choose|i: int| first_at(nodes, p, i)
}

/// The first place of a junction is the number of the junction.
pub proof fn lemma_first_index(nodes: Seq<Point>, p: Point, i: int)
    requires
        first_at(nodes, p, i),
    ensures
        junction_of(nodes, p) == i,
{
    let c = junction_of(nodes, p);
    assert(first_at(nodes, p, c));
    if c < i {
        assert(nodes[c] != p);
    }
    if i < c {
        assert(nodes[i] != p);
    }
}

/// The number of steps of the longest walk from `start` to `end` along
/// the trails of `graph` that passes no junction twice; zero if one of
/// them is no junction or there is no walk.
pub open spec fn longest_walk(graph: Graph, start: Point, end: Point) -> nat {
    if graph.nodes@.contains(start) && graph.nodes@.contains(end) {
        match longest(
            graph,
            junction_of(graph.nodes@, start),
            junction_of(graph.nodes@, end),
            Seq::new(graph.nodes@.len(), |i: int| false),
            graph.nodes@.len(),
        ) {
            Some(steps) => steps,
            None => 0,
        }
    } else {
        0
    }
}

/// The number of steps of the longest walk from `start` to `end` along
/// the trails of `graph` that passes no junction twice; zero if there is
/// none.
pub fn bfs(start: Point, end: Point, graph: Graph) -> (r: usize)
    requires
        graph.wf(),
    ensures
        r == longest_walk(graph, start, end),
{
    let from = match graph.find(start) {
        Some(from) => from,
        None => {
            return 0;
        },
    };
    let to = match graph.find(end) {
        Some(to) => to,
        None => {
            return 0;
        },
    };
    proof {
        lemma_first_index(graph.nodes@, start, from as int);
        lemma_first_index(graph.nodes@, end, to as int);
    }
    let n = graph.nodes.len();
    let mut visited: Vec<bool> = Vec::new();
    let mut i: usize = 0;
    while i < n
        invariant
            i <= n,
            visited@.len() == i,
            forall|k: int| 0 <= k < i ==> !visited@[k],
        decreases n - i,
    {
        visited.push(false);
        i += 1;
    }
    assert(visited@ =~= Seq::new(graph.nodes@.len(), |i: int| false));
    match longest_from(&graph, from, to, &mut visited, n) {
        Some(cost) => cost,
        None => 0,
    }
}

/// Whether the map has room for a start and a goal.
pub fn is_hikeable(map: &Trails) -> (r: bool)
    requires
        map.wf(),
    ensures
        r == hikeable(*map),
{
    map.width >= 2 && map.height >= 1 && map.width < usize::MAX && map.height < usize::MAX
}

/// The rows show a map with room for a start and a goal: at least two
/// columns, and fewer columns and rows than the largest machine word.
pub open spec fn shows_hike(rows: Seq<Seq<u8>>) -> bool {
    shows_trails(rows) && 2 <= trim(rows[0]).len() < usize::MAX && rows.len() < usize::MAX
}

/// `steps` is the longest walk from the start to the goal of `map` along
/// the trails of a graph of junctions whose trails are all trails of the
/// map.
pub open spec fn is_longest(map: Trails, is_directed: bool, steps: nat) -> bool {
    exists|graph: Graph| #[trigger]
        graph.wf() && trails_of(map, graph, is_directed) && steps == longest_walk(
            graph,
            Point { x: 1, y: 0 },
            Point { x: (map.width - 2) as usize, y: (map.height - 1) as usize },
        )
}

/// `steps` is the longest walk from the start to the goal of the map
/// that the rows show, along such a graph whose trails lead one way.
pub open spec fn is_longest_hike(rows: Seq<Seq<u8>>, steps: nat) -> bool {
    exists|map: Trails| reads_trails(rows, map) && #[trigger] is_longest(map, true, steps)
}

/// `flat` is `map` with every slope turned into a path.
pub open spec fn levelled(map: Trails, flat: Trails) -> bool {
    &&& flat.width == map.width
    &&& flat.height == map.height
    &&& flat.tiles@.len() == map.tiles@.len()
    &&& forall|i: int|
        0 <= i < flat.tiles@.len() ==> (#[trigger] flat.tiles@[i]) == if map.tiles@[i]
            == Tile::Forest {
            Tile::Forest
        } else {
            Tile::Path
        }
}

/// `steps` is the longest walk from the start to the goal of the map
/// that the rows show, with its slopes turned into paths, along such a
/// graph whose trails lead both ways.
pub open spec fn is_longest_climb(rows: Seq<Seq<u8>>, steps: nat) -> bool {
    exists|map: Trails, flat: Trails|
        reads_trails(rows, map) && #[trigger] levelled(map, flat) && is_longest(flat, false, steps)
}

/// The longest walk from the start to the goal when slopes are walked
/// downhill only.
pub fn get_solution_1(input: &str) -> (r: Option<usize>)
    ensures
        r is Some <==> shows_hike(lines(input.spec_bytes())),
        r matches Some(steps) ==> is_longest_hike(lines(input.spec_bytes()), steps as nat),
{
    let map = match parse_input(input) {
        Some(map) => map,
        None => {
            return None;
        },
    };
    if !is_hikeable(&map) {
        return None;
    }
    let start = Point { x: 1, y: 0 };
    let end = map.get_end();
    let graph = compact_edges(&map, Point { x: 1, y: 0 }, true);
    let steps = bfs(start, end, graph);
    proof {
        assert(graph.wf());
        assert(reads_trails(lines(input.spec_bytes()), map));
        assert(is_longest(map, true, steps as nat));
        assert(is_longest_hike(lines(input.spec_bytes()), steps as nat));
    }
    Some(steps)
}

/// The longest walk from the start to the goal when slopes are walked
/// like paths.
pub fn get_solution_2(input: &str) -> (r: Option<usize>)
    ensures
        r is Some <==> shows_hike(lines(input.spec_bytes())),
        r matches Some(steps) ==> is_longest_climb(lines(input.spec_bytes()), steps as nat),
{
    let read = match parse_input(input) {
        Some(map) => map,
        None => {
            return None;
        },
    };
    let map = read.remove_slopes();
    if !is_hikeable(&map) {
        return None;
    }
    let start = Point { x: 1, y: 0 };
    let end = map.get_end();
    let graph = compact_edges(&map, Point { x: 1, y: 0 }, false);
    let steps = bfs(start, end, graph);
    proof {
        assert(graph.wf());
        assert(levelled(read, map));
        assert(reads_trails(lines(input.spec_bytes()), read) && is_longest(map, false, steps as nat));
        assert(is_longest_climb(lines(input.spec_bytes()), steps as nat));
    }
    Some(steps)
}

} // verus!
