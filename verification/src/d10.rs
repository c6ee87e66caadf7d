//! A loop of pipes runs through a field; the solver walks the loop from
//! the start tile and counts the tiles that the loop encloses.

use vstd::prelude::*;
use crate::marks::{grid_trues, grid_cells, one_more, lemma_grid_trues_bounded, lemma_grid_one_more, blank_like};
use vstd::string::StringSliceAdditionalSpecFns;
use crate::text::{views, lines, split_lines};

verus! {

#[derive(Debug, Clone, Copy, PartialEq, Eq, Structural)]
pub enum Tile {
    Vertical,
    Horizontal,
    NorthEast,
    NorthWest,
    SouthEast,
    SouthWest,
    Ground,
    Start,
}

/// The tile that a byte writes; every byte that is no pipe and no ground
/// is the start.
pub open spec fn tile_of(c: u8) -> Tile {
    if c == 124 {
        Tile::Vertical
    } else if c == 45 {
        Tile::Horizontal
    } else if c == 76 {
        Tile::NorthEast
    } else if c == 74 {
        Tile::NorthWest
    } else if c == 55 {
        Tile::SouthWest
    } else if c == 70 {
        Tile::SouthEast
    } else if c == 46 {
        Tile::Ground
    } else {
        Tile::Start
    }
}

impl Tile {
    pub fn from(c: u8) -> (t: Tile)
        ensures
            t == tile_of(c),
    {
        if c == 124 {
            Tile::Vertical
        } else if c == 45 {
            Tile::Horizontal
        } else if c == 76 {
            Tile::NorthEast
        } else if c == 74 {
            Tile::NorthWest
        } else if c == 55 {
            Tile::SouthWest
        } else if c == 70 {
            Tile::SouthEast
        } else if c == 46 {
            Tile::Ground
        } else {
            Tile::Start
        }
    }
}

#[derive(Debug, Clone, Copy, PartialEq, Eq, Structural)]
pub enum Dir {
    North,
    East,
    South,
    West,
}

pub struct Field {
    pub tiles: Vec<Vec<Tile>>,
}

/// The tile in column `x` and row `y`; ground outside the field.
pub open spec fn tile_at(tiles: Seq<Vec<Tile>>, x: int, y: int) -> Tile {
    if 0 <= y < tiles.len() && 0 <= x < tiles[y]@.len() {
        tiles[y]@[x]
    } else {
        Tile::Ground
    }
}

/// The tile has an opening towards `dir`.
pub open spec fn opens(tile: Tile, dir: Dir) -> bool {
    match dir {
        Dir::North => tile == Tile::NorthEast || tile == Tile::NorthWest || tile == Tile::Vertical,
        Dir::East => tile == Tile::NorthEast || tile == Tile::SouthEast || tile == Tile::Horizontal,
        Dir::South => tile == Tile::SouthEast || tile == Tile::SouthWest || tile == Tile::Vertical,
        Dir::West => tile == Tile::NorthWest || tile == Tile::SouthWest || tile == Tile::Horizontal,
    }
}

/// The direction from which one comes back.
pub open spec fn opposite(dir: Dir) -> Dir {
    match dir {
        Dir::North => Dir::South,
        Dir::East => Dir::West,
        Dir::South => Dir::North,
        Dir::West => Dir::East,
    }
}

/// The column one step in direction `dir`.
pub open spec fn step_x(x: int, dir: Dir) -> int {
    match dir {
        Dir::East => x + 1,
        Dir::West => x - 1,
        _ => x,
    }
}

/// The row one step in direction `dir`.
pub open spec fn step_y(y: int, dir: Dir) -> int {
    match dir {
        Dir::South => y + 1,
        Dir::North => y - 1,
        _ => y,
    }
}

/// The tile at `(x, y)` opens towards `dir`, and the tile next to it in
/// that direction opens back.
pub open spec fn connected(tiles: Seq<Vec<Tile>>, x: int, y: int, dir: Dir) -> bool {
    opens(tile_at(tiles, x, y), dir) && opens(
        tile_at(tiles, step_x(x, dir), step_y(y, dir)),
        opposite(dir),
    )
}

/// The position has a neighbour in direction `dir` within the machine
/// word.
pub open spec fn has_neighbour(pos: (usize, usize), dir: Dir) -> bool {
    0 <= step_x(pos.0 as int, dir) <= usize::MAX && 0 <= step_y(pos.1 as int, dir) <= usize::MAX
}

/// The tile next to `(x, y)` in direction `dir` opens towards `(x, y)`.
pub open spec fn opens_back(tiles: Seq<Vec<Tile>>, x: int, y: int, dir: Dir) -> bool {
    opens(tile_at(tiles, step_x(x, dir), step_y(y, dir)), opposite(dir))
}

/// The pipe that fits the start: the first of north-east, vertical,
/// north-west, south-east and horizontal on whose two sides the tiles
/// next to the start open towards it, else south-west.
pub open spec fn start_tile(tiles: Seq<Vec<Tile>>, x: int, y: int) -> Tile {
    let north = opens_back(tiles, x, y, Dir::North);
    let east = opens_back(tiles, x, y, Dir::East);
    let south = opens_back(tiles, x, y, Dir::South);
    let west = opens_back(tiles, x, y, Dir::West);
    if north && east {
        Tile::NorthEast
    } else if north && south {
        Tile::Vertical
    } else if north && west {
        Tile::NorthWest
    } else if east && south {
        Tile::SouthEast
    } else if east && west {
        Tile::Horizontal
    } else {
        Tile::SouthWest
    }
}

impl Field {
    /// The field with the pipe that fits put in the place of the start.
    pub fn new(start: (usize, usize), tiles: Vec<Vec<Tile>>) -> (map: Field)
        ensures
            map.tiles@.len() == tiles@.len(),
    {
        let mut map = Field { tiles };
        let tile = map.determine_start_tile(start);
        map.set_start_tile(start, tile);
        map
    }

    /// The tile at `index`, a column and a row; ground outside the field.
    pub fn get(&self, index: (usize, usize)) -> (tile: Tile)
        ensures
            tile == tile_at(self.tiles@, index.0 as int, index.1 as int),
    {
        if index.1 < self.tiles.len() && index.0 < self.tiles[index.1].len() {
            self.tiles[index.1][index.0]
        } else {
            Tile::Ground
        }
    }

    /// Whether the pipe at `pos` leads on towards `dir`.
    pub fn can_move(&self, pos: (usize, usize), dir: Dir) -> (r: bool)
        ensures
            r == connected(self.tiles@, pos.0 as int, pos.1 as int, dir),
            r ==> has_neighbour(pos, dir),
    {
        if !self.is_valid_direction(pos, dir) {
            return false;
        }
        self.neighbour_opens(pos, dir)
    }

    /// Whether the tile next to `pos` in direction `dir` opens towards
    /// `pos`.
    pub fn neighbour_opens(&self, pos: (usize, usize), dir: Dir) -> (r: bool)
        ensures
            r == opens_back(self.tiles@, pos.0 as int, pos.1 as int, dir),
            r ==> has_neighbour(pos, dir),
    {
        let height = self.tiles.len();
        proof {
            if pos.1 < height {
                vstd::std_specs::vec::axiom_spec_len(&self.tiles@[pos.1 as int]);
            }
        }
        match dir {
            Dir::North => {
                if pos.1 == 0 {
                    false
                } else {
                    let t = self.get((pos.0, pos.1 - 1));
                    t == Tile::SouthWest || t == Tile::SouthEast || t == Tile::Vertical
                }
            },
            Dir::East => {
                if pos.0 == usize::MAX {
                    false
                } else {
                    let t = self.get((pos.0 + 1, pos.1));
                    t == Tile::SouthWest || t == Tile::NorthWest || t == Tile::Horizontal
                }
            },
            Dir::South => {
                if pos.1 == usize::MAX {
                    false
                } else {
                    let t = self.get((pos.0, pos.1 + 1));
                    t == Tile::NorthEast || t == Tile::NorthWest || t == Tile::Vertical
                }
            },
            Dir::West => {
                if pos.0 == 0 {
                    false
                } else {
                    let t = self.get((pos.0 - 1, pos.1));
                    t == Tile::NorthEast || t == Tile::SouthEast || t == Tile::Horizontal
                }
            },
        }
    }

    /// Whether the tile at `pos` has an opening towards `dir`.
    pub fn is_valid_direction(&self, pos: (usize, usize), dir: Dir) -> (r: bool)
        ensures
            r == opens(tile_at(self.tiles@, pos.0 as int, pos.1 as int), dir),
            r ==> pos.1 < self.tiles@.len() && pos.0 < self.tiles@[pos.1 as int]@.len(),
    {
        let tile = self.get(pos);
        match dir {
            Dir::North => tile == Tile::NorthEast || tile == Tile::NorthWest || tile
                == Tile::Vertical,
            Dir::East => tile == Tile::NorthEast || tile == Tile::SouthEast || tile
                == Tile::Horizontal,
            Dir::South => tile == Tile::SouthEast || tile == Tile::SouthWest || tile
                == Tile::Vertical,
            Dir::West => tile == Tile::NorthWest || tile == Tile::SouthWest || tile
                == Tile::Horizontal,
        }
    }

    /// The pipe that fits at `start`, judged by the tiles around it that
    /// open towards it.
    pub fn determine_start_tile(&self, start: (usize, usize)) -> (tile: Tile)
        ensures
            tile == start_tile(self.tiles@, start.0 as int, start.1 as int),
    {
        let north = self.neighbour_opens(start, Dir::North);
        let east = self.neighbour_opens(start, Dir::East);
        let south = self.neighbour_opens(start, Dir::South);
        let west = self.neighbour_opens(start, Dir::West);
        if north && east {
            Tile::NorthEast
        } else if north && south {
            Tile::Vertical
        } else if north && west {
            Tile::NorthWest
        } else if east && south {
            Tile::SouthEast
        } else if east && west {
            Tile::Horizontal
        } else {
            Tile::SouthWest
        }
    }

    /// Puts `tile` at `start`, if that is a place of the field.
    pub fn set_start_tile(&mut self, start: (usize, usize), tile: Tile)
        ensures
            final(self).tiles@.len() == old(self).tiles@.len(),
            forall|x: int, y: int|
                tile_at(final(self).tiles@, x, y) == if x == start.0 && y == start.1 && 0 <= y < old(
                    self,
                ).tiles@.len() && 0 <= x < old(self).tiles@[y]@.len() {
                    tile
                } else {
                    tile_at(old(self).tiles@, x, y)
                },
            forall|y: int|
                0 <= y < old(self).tiles@.len() ==> (#[trigger] final(self).tiles@[y])@.len() == old(
                    self,
                ).tiles@[y]@.len(),
    {
        if start.1 < self.tiles.len() && start.0 < self.tiles[start.1].len() {
            self.tiles[start.1][start.0] = tile;
        }
    }
}

/// `raw` holds the tiles that the rows write.
pub open spec fn reads_tiles(rows: Seq<Seq<u8>>, raw: Seq<Vec<Tile>>) -> bool {
    &&& raw.len() == rows.len()
    &&& forall|y: int| 0 <= y < raw.len() ==> (#[trigger] raw[y])@.len() == rows[y].len()
    &&& forall|x: int, y: int|
        0 <= y < raw.len() && 0 <= x < raw[y]@.len() ==> #[trigger] raw[y]@[x] == tile_of(rows[y][x])
}

/// `(x, y)` is the first place, row by row, whose byte writes a start.
pub open spec fn first_start(rows: Seq<Seq<u8>>, x: int, y: int) -> bool {
    &&& 0 <= y < rows.len()
    &&& 0 <= x < rows[y].len()
    &&& tile_of(rows[y][x]) == Tile::Start
    &&& forall|a: int, b: int|
        0 <= b < rows.len() && 0 <= a < rows[b].len() && (b < y || (b == y && a < x)) ==> tile_of(
            #[trigger] rows[b][a],
        ) != Tile::Start
}

/// No byte of the rows writes a start.
pub open spec fn no_start(rows: Seq<Seq<u8>>) -> bool {
    forall|a: int, b: int|
        0 <= b < rows.len() && 0 <= a < rows[b].len() ==> tile_of(#[trigger] rows[b][a])
            != Tile::Start
}

/// `field` holds the tiles that the rows write, but at `start`, the first
/// start, the pipe that fits there.
pub open spec fn reads_field(rows: Seq<Seq<u8>>, start: (usize, usize), field: Seq<Vec<Tile>>) -> bool {
    exists|raw: Seq<Vec<Tile>>| #[trigger]
        reads_tiles(rows, raw) && first_start(rows, start.0 as int, start.1 as int) && field.len()
            == raw.len() && (forall|y: int|
            0 <= y < raw.len() ==> (#[trigger] field[y])@.len() == raw[y]@.len()) && forall|
            x: int,
            y: int,
        |
            tile_at(field, x, y) == if x == start.0 && y == start.1 {
                start_tile(raw, x, y)
            } else {
                tile_at(raw, x, y)
            }
}

/// Reads the field and finds the start, the first tile that is neither
/// pipe nor ground. `None` if there is no start.
pub fn parse_input(input: &str) -> (r: Option<((usize, usize), Field)>)
    ensures
        match r {
            Some((start, field)) => reads_field(lines(input.spec_bytes()), start, field.tiles@),
            None => no_start(lines(input.spec_bytes())),
        },
{
    let all = split_lines(input.as_bytes());
    let ghost rows = lines(input.spec_bytes());
    let height = all.len();
    let mut tiles: Vec<Vec<Tile>> = Vec::new();
    let mut position: Option<(usize, usize)> = None;
    let mut y: usize = 0;
    while y < height
        invariant
            height == all@.len(),
            rows == views(all@),
            y <= height,
            tiles@.len() == y,
            forall|b: int| 0 <= b < y ==> (#[trigger] tiles@[b])@.len() == rows[b].len(),
            forall|a: int, b: int|
                0 <= b < y && 0 <= a < tiles@[b]@.len() ==> #[trigger] tiles@[b]@[a] == tile_of(
                    rows[b][a],
                ),
            match position {
                Some(p) => p.1 < y && first_start(rows, p.0 as int, p.1 as int),
                None => forall|a: int, b: int|
                    0 <= b < y && 0 <= a < rows[b].len() ==> tile_of(#[trigger] rows[b][a])
                        != Tile::Start,
            },
        decreases height - y,
    {
        let line = &all[y];
        let width = line.len();
        assert(rows[y as int] == line@);
        let mut row: Vec<Tile> = Vec::new();
        let mut x: usize = 0;
        while x < width
            invariant
                width == line@.len(),
                rows[y as int] == line@,
                y < height,
                height == rows.len(),
                x <= width,
                row@.len() == x,
                forall|a: int| 0 <= a < x ==> #[trigger] row@[a] == tile_of(line@[a]),
                match position {
                    Some(p) => (p.1 < y || (p.1 == y && p.0 < x)) && first_start(
                        rows,
                        p.0 as int,
                        p.1 as int,
                    ),
                    None => forall|a: int, b: int|
                        0 <= b < rows.len() && 0 <= a < rows[b].len() && (b < y || (b == y && a
                            < x)) ==> tile_of(#[trigger] rows[b][a]) != Tile::Start,
                },
            decreases width - x,
        {
            let tile = Tile::from(line[x]);
            if tile == Tile::Start && position.is_none() {
                position = Some((x, y));
            }
            row.push(tile);
            x += 1;
        }
        let ghost before = tiles@;
        tiles.push(row);
        assert forall|a: int, b: int|
            0 <= b < y + 1 && 0 <= a < tiles@[b]@.len() implies #[trigger] tiles@[b]@[a] == tile_of(
            rows[b][a],
        ) by {
            if b < y {
                assert(tiles@[b] == before[b]);
            }
        }
        assert forall|b: int| 0 <= b < y + 1 implies (#[trigger] tiles@[b])@.len()
            == rows[b].len() by {
            if b < y {
                assert(tiles@[b] == before[b]);
            }
        }
        y += 1;
    }
    match position {
        Some(position) => {
            let ghost raw = tiles@;
            let mut map = Field { tiles };
            let tile = map.determine_start_tile(position);
            map.set_start_tile(position, tile);
            proof {
                assert(reads_tiles(rows, raw));
                assert forall|x: int, y: int|
                    tile_at(map.tiles@, x, y) == if x == position.0 && y == position.1 {
                        start_tile(raw, x, y)
                    } else {
                        tile_at(raw, x, y)
                    } by {}
            }
            Some((position, map))
        },
        None => None,
    }
}

/// The position one step from `position` in direction `dir`.
pub fn move_position(dir: Dir, position: (usize, usize)) -> (r: (usize, usize))
    requires
        has_neighbour(position, dir),
    ensures
        r.0 == step_x(position.0 as int, dir),
        r.1 == step_y(position.1 as int, dir),
{
    match dir {
        Dir::North => (position.0, position.1 - 1),
        Dir::East => (position.0 + 1, position.1),
        Dir::South => (position.0, position.1 + 1),
        Dir::West => (position.0 - 1, position.1),
    }
}

/// The tiles of a loop, as marks on the field, and their number.
pub struct Pipe {
    pub marks: Vec<Vec<bool>>,
    pub len: usize,
}

/// The marks have the shape of the field.
pub open spec fn same_shape(tiles: Seq<Vec<Tile>>, marks: Seq<Vec<bool>>) -> bool {
    &&& marks.len() == tiles.len()
    &&& forall|y: int| 0 <= y < marks.len() ==> (#[trigger] marks[y])@.len() == tiles[y]@.len()
}

/// The direction with the number `d`, counted clockwise from north.
pub open spec fn dir_at(d: int) -> Dir {
    if d == 0 {
        Dir::North
    } else if d == 1 {
        Dir::East
    } else if d == 2 {
        Dir::South
    } else {
        Dir::West
    }
}

/// The first direction, from number `d` on, in which the pipe at `cur`
/// leads on to another place than `prev`.
pub open spec fn first_way(tiles: Seq<Vec<Tile>>, cur: (int, int), prev: (int, int), d: int) -> Option<Dir>
    decreases 4 - d,
{
    if d < 0 || d >= 4 {
        None
    } else if connected(tiles, cur.0, cur.1, dir_at(d)) && (step_x(cur.0, dir_at(d)), step_y(
        cur.1,
        dir_at(d),
    )) != prev {
        Some(dir_at(d))
    } else {
        first_way(tiles, cur, prev, d + 1)
    }
}

/// Where the walk stands after `k` steps, and where it stood before, if
/// it found a way at every step.
pub open spec fn walk(tiles: Seq<Vec<Tile>>, start: (int, int), k: nat) -> Option<
    ((int, int), (int, int)),
>
    decreases k,
{
    if k == 0 {
        Some((start, (usize::MAX as int, usize::MAX as int)))
    } else {
        match walk(tiles, start, (k - 1) as nat) {
            Some((cur, prev)) => match first_way(tiles, cur, prev, 0) {
                Some(dir) => Some(((step_x(cur.0, dir), step_y(cur.1, dir)), cur)),
                None => None,
            },
            None => None,
        }
    }
}

/// The walk stands on `(x, y)` after `j` steps.
pub open spec fn stands_on(tiles: Seq<Vec<Tile>>, start: (int, int), j: nat, x: int, y: int) -> bool {
    match walk(tiles, start, j) {
        Some((cur, _)) => cur == (x, y),
        None => false,
    }
}

/// The walk stands on `(x, y)` after some number of steps up to `k`.
pub open spec fn visited(tiles: Seq<Vec<Tile>>, start: (int, int), k: nat, x: int, y: int) -> bool {
    exists|j: nat| j <= k && #[trigger] stands_on(tiles, start, j, x, y)
}

/// The marks are set on the places that the walk visits in `k` steps.
pub open spec fn marks_walk(
    tiles: Seq<Vec<Tile>>,
    start: (int, int),
    k: nat,
    marks: Seq<Vec<bool>>,
) -> bool {
    forall|x: int, y: int|
        0 <= y < marks.len() && 0 <= x < marks[y]@.len() ==> (#[trigger] marks[y]@[x] <==> visited(
            tiles,
            start,
            k,
            x,
            y,
        ))
}

/// The walk of `k` steps is a loop: it is back at the start for the first
/// time, or it never left because no pipe leads on from the start.
pub open spec fn closes(tiles: Seq<Vec<Tile>>, start: (int, int), k: nat) -> bool {
    &&& walk(tiles, start, k) is Some
    &&& if k == 0 {
        first_way(tiles, start, (usize::MAX as int, usize::MAX as int), 0) is None
    } else {
        stands_on(tiles, start, k, start.0, start.1) && forall|j: nat|
            0 < j < k ==> !#[trigger] stands_on(tiles, start, j, start.0, start.1)
    }
}

/// The place lies in the field.
pub open spec fn in_field(tiles: Seq<Vec<Tile>>, at: (int, int)) -> bool {
    0 <= at.1 < tiles.len() && 0 <= at.0 < tiles[at.1]@.len()
}

/// The field has more tiles than the machine word counts.
pub open spec fn too_large(tiles: Seq<Vec<Tile>>) -> bool {
    exists|marks: Seq<Vec<bool>>| #[trigger]
        same_shape(tiles, marks) && grid_cells(marks, marks.len()) > usize::MAX
}

/// The walk has not come back to the start in `k` steps, and the next
/// step fails: there is no way on, or the next place lies outside the
/// field or was visited before and is not the start.
pub open spec fn strays(tiles: Seq<Vec<Tile>>, start: (int, int), k: nat) -> bool {
    &&& walk(tiles, start, k) is Some
    &&& forall|j: nat| 0 < j <= k ==> !#[trigger] stands_on(tiles, start, j, start.0, start.1)
    &&& match walk(tiles, start, k + 1) {
        None => k > 0,
        Some((next, _)) => next != start && (!in_field(tiles, next) || visited(
            tiles,
            start,
            k,
            next.0,
            next.1,
        )),
    }
}

/// Walks along the pipes from `start`, never straight back, until the
/// walk is at `start` again, and returns the tiles walked over. `None` if
/// the walk comes to a dead end or meets itself elsewhere.
pub fn traverse(start: (usize, usize), map: &Field) -> (r: Option<Pipe>)
    ensures
        r is None ==> !in_field(map.tiles@, (start.0 as int, start.1 as int)) || too_large(
            map.tiles@,
        ) || exists|k: nat| #[trigger] strays(map.tiles@, (start.0 as int, start.1 as int), k),
        r matches Some(pipe) ==> same_shape(map.tiles@, pipe.marks@) && pipe.len == grid_trues(
            pipe.marks@,
            pipe.marks@.len(),
        ) && exists|k: nat| #[trigger]
            closes(map.tiles@, (start.0 as int, start.1 as int), k) && marks_walk(
                map.tiles@,
                (start.0 as int, start.1 as int),
                k,
                pipe.marks@,
            ),
{
    if start.1 >= map.tiles.len() || start.0 >= map.tiles[start.1].len() {
        return None;
    }
    assert forall|y: int| 0 <= y < map.tiles@.len() implies (#[trigger] map.tiles@[y])@.len() * 1
        <= usize::MAX by {
        vstd::std_specs::vec::axiom_spec_len(&map.tiles@[y]);
    }
    let ghost tiles = map.tiles@;
    let ghost origin = (start.0 as int, start.1 as int);
    let mut marks = blank_like(&map.tiles, 1);
    let ghost blank = marks@;
    marks[start.1][start.0] = true;
    let mut len: usize = 1;
    proof {
        assert(one_more(blank, marks@, start.1 as int, start.0 as int));
        lemma_none_set(blank, blank.len());
        lemma_grid_one_more(blank, marks@, start.1 as int, start.0 as int, blank.len());
        lemma_grid_trues_bounded(marks@, marks@.len());
        assert forall|y: int| 0 <= y < marks@.len() implies (#[trigger] marks@[y])@.len()
            == map.tiles@[y]@.len() by {
            assert(blank[y]@.len() == map.tiles@[y]@.len() * 1);
        }
        assert(stands_on(tiles, origin, 0, origin.0, origin.1));
        assert forall|x: int, y: int|
            0 <= y < marks@.len() && 0 <= x < marks@[y]@.len() implies (#[trigger] marks@[y]@[x]
            <==> visited(tiles, origin, 0, x, y)) by {
            if y != start.1 {
                assert(marks@[y]@ == blank[y]@);
            }
            if visited(tiles, origin, 0, x, y) {
                let j = choose|j: nat| j <= 0 && #[trigger] stands_on(tiles, origin, j, x, y);
                assert(j == 0);
            }
        }
    }
    let mut cur = start;
    let mut prev = (usize::MAX, usize::MAX);
    let ghost mut k: nat = 0;
    loop
        invariant
            tiles == map.tiles@,
            origin == (start.0 as int, start.1 as int),
            same_shape(tiles, marks@),
            len == grid_trues(marks@, marks@.len()),
            grid_trues(marks@, marks@.len()) <= grid_cells(marks@, marks@.len()),
            walk(tiles, origin, k) == Some(
                ((cur.0 as int, cur.1 as int), (prev.0 as int, prev.1 as int)),
            ),
            marks_walk(tiles, origin, k, marks@),
            forall|j: nat| 0 < j <= k ==> !#[trigger] stands_on(tiles, origin, j, origin.0, origin.1),
            k == 0 ==> cur == start,
            in_field(tiles, origin),
        decreases grid_cells(marks@, marks@.len()) - grid_trues(marks@, marks@.len()),
    {
        let ghost here = (cur.0 as int, cur.1 as int);
        let ghost back = (prev.0 as int, prev.1 as int);
        let ghost before = marks@;
        let mut moved = false;
        let mut next = cur;
        let mut d: usize = 0;
        while d < 4 && !moved
            invariant
                d <= 4,
                tiles == map.tiles@,
                here == (cur.0 as int, cur.1 as int),
                back == (prev.0 as int, prev.1 as int),
                !moved ==> first_way(tiles, here, back, 0) == first_way(tiles, here, back, d as int),
                moved ==> first_way(tiles, here, back, 0) is Some && (next.0 as int, next.1 as int)
                    == (
                    step_x(here.0, first_way(tiles, here, back, 0).unwrap()),
                    step_y(here.1, first_way(tiles, here, back, 0).unwrap()),
                ),
            decreases 4 - d + if moved { 0int } else { 1int },
        {
            let dir = if d == 0 {
                Dir::North
            } else if d == 1 {
                Dir::East
            } else if d == 2 {
                Dir::South
            } else {
                Dir::West
            };
            assert(dir == dir_at(d as int));
            if map.can_move(cur, dir) {
                let to = move_position(dir, cur);
                if to.0 != prev.0 || to.1 != prev.1 {
                    next = to;
                    moved = true;
                }
            }
            d += 1;
        }
        if !moved {
            if cur.0 == start.0 && cur.1 == start.1 {
                proof {
                    if k > 0 {
                        assert(stands_on(tiles, origin, k, origin.0, origin.1));
                    }
                    assert(closes(tiles, origin, k));
                }
                return Some(Pipe { marks, len });
            }
            proof {
                assert(walk(tiles, origin, k + 1) is None);
                assert(strays(tiles, origin, k));
            }
            return None;
        }
        proof {
            assert(walk(tiles, origin, k + 1) == Some(((next.0 as int, next.1 as int), here)));
            assert(stands_on(tiles, origin, k + 1, next.0 as int, next.1 as int));
        }
        if next.1 >= map.tiles.len() || next.0 >= map.tiles[next.1].len() {
            proof {
                assert(!in_field(tiles, (next.0 as int, next.1 as int)));
                assert(strays(tiles, origin, k));
            }
            return None;
        }
        if next.0 == start.0 && next.1 == start.1 {
            proof {
                assert forall|x: int, y: int|
                    0 <= y < marks@.len() && 0 <= x < marks@[y]@.len() implies (
                #[trigger] marks@[y]@[x] <==> visited(tiles, origin, k + 1, x, y)) by {
                    if visited(tiles, origin, k + 1, x, y) {
                        let j = choose|j: nat|
                            j <= k + 1 && #[trigger] stands_on(tiles, origin, j, x, y);
                        if j == k + 1 {
                            assert(stands_on(tiles, origin, 0, x, y));
                            assert(visited(tiles, origin, k, x, y));
                        } else {
                            assert(visited(tiles, origin, k, x, y));
                        }
                    }
                    if visited(tiles, origin, k, x, y) {
                        let j = choose|j: nat| j <= k && #[trigger] stands_on(tiles, origin, j, x, y);
                        assert(j <= k + 1 && stands_on(tiles, origin, j, x, y));
                    }
                }
                assert(closes(tiles, origin, k + 1));
            }
            return Some(Pipe { marks, len });
        }
        if marks[next.1][next.0] {
            proof {
                assert(marks@[next.1 as int]@[next.0 as int]);
                assert(visited(tiles, origin, k, next.0 as int, next.1 as int));
                assert(strays(tiles, origin, k));
            }
            return None;
        }
        marks[next.1][next.0] = true;
        proof {
            assert(one_more(before, marks@, next.1 as int, next.0 as int));
            lemma_grid_one_more(before, marks@, next.1 as int, next.0 as int, before.len());
            lemma_grid_trues_bounded(marks@, marks@.len());
            assert forall|y: int| 0 <= y < marks@.len() implies (#[trigger] marks@[y])@.len()
                == map.tiles@[y]@.len() by {
                assert(before[y]@.len() == map.tiles@[y]@.len());
            }
            assert forall|x: int, y: int|
                0 <= y < marks@.len() && 0 <= x < marks@[y]@.len() implies (
            #[trigger] marks@[y]@[x] <==> visited(tiles, origin, k + 1, x, y)) by {
                if y != next.1 {
                    assert(marks@[y]@ == before[y]@);
                }
                assert(before[y]@[x] <==> visited(tiles, origin, k, x, y));
                if visited(tiles, origin, k + 1, x, y) {
                    let j = choose|j: nat| j <= k + 1 && #[trigger] stands_on(tiles, origin, j, x, y);
                    if j <= k {
                        assert(visited(tiles, origin, k, x, y));
                    }
                }
                if visited(tiles, origin, k, x, y) {
                    let j = choose|j: nat| j <= k && #[trigger] stands_on(tiles, origin, j, x, y);
                    assert(j <= k + 1 && stands_on(tiles, origin, j, x, y));
                }
            }
            assert forall|j: nat| 0 < j <= k + 1 implies !#[trigger] stands_on(
                tiles,
                origin,
                j,
                origin.0,
                origin.1,
            ) by {}
        }
        len = match len.checked_add(1) {
            Some(len) => len,
            None => {
                assert(same_shape(tiles, marks@) && grid_cells(marks@, marks@.len()) > usize::MAX);
                return None;
            },
        };
        prev = cur;
        cur = next;
        proof {
            k = k + 1;
        }
    }
}

/// A grid without marks counts none.
pub proof fn lemma_none_set(rows: Seq<Vec<bool>>, k: nat)
    requires
        k <= rows.len(),
        forall|y: int, j: int| 0 <= y < rows.len() && 0 <= j < rows[y]@.len() ==> !rows[y]@[j],
    ensures
        grid_trues(rows, k) == 0,
    decreases k,
{
    if k > 0 {
        lemma_none_set(rows, (k - 1) as nat);
        crate::marks::lemma_trues_none(rows[k - 1]@, rows[k - 1]@.len());
    }
}

/// The state of the scan after the first `k` tiles of a row: whether the
/// scan is outside the loop, and how many tiles inside it has counted. A
/// tile of the loop with an opening to the north changes sides; a tile
/// off the loop is counted when the scan is inside.
pub open spec fn scan_row(row: Seq<Tile>, marks: Seq<bool>, k: nat, from: (bool, nat)) -> (bool, nat)
    decreases k,
{
    if k == 0 {
        from
    } else {
        let (outside, count) = scan_row(row, marks, (k - 1) as nat, from);
        let tile = row[k - 1];
        if marks[k - 1] && (tile == Tile::NorthWest || tile == Tile::NorthEast || tile
            == Tile::Vertical) {
            (!outside, count)
        } else if !marks[k - 1] && !outside {
            (outside, count + 1)
        } else {
            (outside, count)
        }
    }
}

/// The state of the scan after the first `k` rows.
pub open spec fn scan(tiles: Seq<Vec<Tile>>, marks: Seq<Vec<bool>>, k: nat) -> (bool, nat)
    decreases k,
{
    if k == 0 {
        (true, 0)
    } else {
        scan_row(
            tiles[k - 1]@,
            marks[k - 1]@,
            tiles[k - 1]@.len(),
            scan(tiles, marks, (k - 1) as nat),
        )
    }
}

/// The count of a scan never falls along a row.
pub proof fn lemma_scan_row_grows(row: Seq<Tile>, marks: Seq<bool>, a: nat, b: nat, from: (bool, nat))
    requires
        a <= b,
    ensures
        scan_row(row, marks, a, from).1 <= scan_row(row, marks, b, from).1,
    decreases b,
{
    if a < b {
        lemma_scan_row_grows(row, marks, a, (b - 1) as nat, from);
    }
}

/// The count of a scan never falls from row to row.
pub proof fn lemma_scan_grows(tiles: Seq<Vec<Tile>>, marks: Seq<Vec<bool>>, a: nat, b: nat)
    requires
        a <= b,
    ensures
        scan(tiles, marks, a).1 <= scan(tiles, marks, b).1,
    decreases b,
{
    if a < b {
        lemma_scan_grows(tiles, marks, a, (b - 1) as nat);
        lemma_scan_row_grows(
            tiles[b - 1]@,
            marks[b - 1]@,
            0,
            tiles[b - 1]@.len(),
            scan(tiles, marks, (b - 1) as nat),
        );
    }
}

/// Counts the tiles that the loop encloses: row by row, each crossing of
/// a loop tile that opens to the north changes between outside and
/// inside. `None` if the count does not fit the machine word.
pub fn count_inside_tiles(map: &Field, pipe: Pipe) -> (r: Option<usize>)
    requires
        same_shape(map.tiles@, pipe.marks@),
    ensures
        r matches Some(count) ==> count == scan(map.tiles@, pipe.marks@, map.tiles@.len()).1,
        r is Some <==> scan(map.tiles@, pipe.marks@, map.tiles@.len()).1 <= usize::MAX,
{
    let mut is_outside = true;
    let mut inside_tiles: usize = 0;
    let height = map.tiles.len();
    let mut y: usize = 0;
    while y < height
        invariant
            same_shape(map.tiles@, pipe.marks@),
            height == map.tiles@.len(),
            y <= height,
            (is_outside, inside_tiles as nat) == scan(map.tiles@, pipe.marks@, y as nat),
        decreases height - y,
    {
        let row = &map.tiles[y];
        let marks = &pipe.marks[y];
        let width = row.len();
        let ghost from = (is_outside, inside_tiles as nat);
        let mut x: usize = 0;
        while x < width
            invariant
                width == row@.len(),
                marks@.len() == width,
                x <= width,
                (is_outside, inside_tiles as nat) == scan_row(row@, marks@, x as nat, from),
                from == scan(map.tiles@, pipe.marks@, y as nat),
                row@ == map.tiles@[y as int]@,
                marks@ == pipe.marks@[y as int]@,
                y < height,
                height == map.tiles@.len(),
            decreases width - x,
        {
            let tile = row[x];
            if marks[x] && (tile == Tile::NorthWest || tile == Tile::NorthEast || tile
                == Tile::Vertical) {
                is_outside = !is_outside;
            } else if !marks[x] && !is_outside {
                inside_tiles = match inside_tiles.checked_add(1) {
                    Some(count) => count,
                    None => {
                        proof {
                            assert(scan_row(row@, marks@, (x + 1) as nat, from).1 > usize::MAX);
                            lemma_scan_row_grows(row@, marks@, (x + 1) as nat, width as nat, from);
                            lemma_scan_grows(
                                map.tiles@,
                                pipe.marks@,
                                (y + 1) as nat,
                                height as nat,
                            );
                        }
                        return None;
                    },
                };
            }
            x += 1;
        }
        y += 1;
    }
    Some(inside_tiles)
}

/// The pipes of the field that the text shows close to a loop through
/// the start, on which `marks` are set and on which `len` tiles lie.
pub open spec fn is_loop(input: Seq<u8>, field: Seq<Vec<Tile>>, marks: Seq<Vec<bool>>, len: nat) -> bool {
    exists|start: (usize, usize), k: nat|
        reads_field(lines(input), start, field) && #[trigger] closes(
            field,
            (start.0 as int, start.1 as int),
            k,
        ) && marks_walk(field, (start.0 as int, start.1 as int), k, marks) && same_shape(
            field,
            marks,
        ) && len == grid_trues(marks, marks.len())
}

/// The walk from `start` finds no loop: the start lies outside the field,
/// the field is too large, or the walk strays.
pub open spec fn no_loop(field: Seq<Vec<Tile>>, start: (usize, usize)) -> bool {
    !in_field(field, (start.0 as int, start.1 as int)) || too_large(field) || exists|k: nat| #[trigger]
        strays(field, (start.0 as int, start.1 as int), k)
}

/// The number of steps from the start to the farthest tile of the loop:
/// half the number of its tiles.
pub fn get_solution_1(input: &str) -> (r: Option<usize>)
    ensures
        r matches Some(steps) ==> exists|field: Seq<Vec<Tile>>, marks: Seq<Vec<bool>>, len: nat| #[trigger]
            is_loop(input.spec_bytes(), field, marks, len) && steps == len / 2,
        r is None ==> no_start(lines(input.spec_bytes())) || exists|
            start: (usize, usize),
            field: Seq<Vec<Tile>>,
        | #[trigger]
            reads_field(lines(input.spec_bytes()), start, field) && no_loop(field, start),
{
    let (position, map) = match parse_input(input) {
        Some(parsed) => parsed,
        None => {
            return None;
        },
    };
    match traverse(position, &map) {
        Some(pipe) => {
            proof {
                let k = choose|k: nat| #[trigger]
                    closes(map.tiles@, (position.0 as int, position.1 as int), k) && marks_walk(
                        map.tiles@,
                        (position.0 as int, position.1 as int),
                        k,
                        pipe.marks@,
                    );
                assert(closes(map.tiles@, (position.0 as int, position.1 as int), k));
                assert(is_loop(input.spec_bytes(), map.tiles@, pipe.marks@, pipe.len as nat));
            }
            Some(pipe.len / 2)
        },
        None => {
            assert(reads_field(lines(input.spec_bytes()), position, map.tiles@) && no_loop(
                map.tiles@,
                position,
            ));
            None
        },
    }
}

/// The number of tiles that the loop encloses.
pub fn get_solution_2(input: &str) -> (r: Option<usize>)
    ensures
        r matches Some(count) ==> exists|field: Seq<Vec<Tile>>, marks: Seq<Vec<bool>>, len: nat| #[trigger]
            is_loop(input.spec_bytes(), field, marks, len) && count == scan(
                field,
                marks,
                field.len(),
            ).1,
        r is None ==> no_start(lines(input.spec_bytes())) || exists|
            start: (usize, usize),
            field: Seq<Vec<Tile>>,
        | #[trigger]
            reads_field(lines(input.spec_bytes()), start, field) && (no_loop(field, start)
                || exists|marks: Seq<Vec<bool>>, len: nat| #[trigger]
                is_loop(input.spec_bytes(), field, marks, len) && scan(field, marks, field.len()).1
                    > usize::MAX),
{
    let (position, map) = match parse_input(input) {
        Some(parsed) => parsed,
        None => {
            return None;
        },
    };
    match traverse(position, &map) {
        Some(pipe) => {
            let ghost marks = pipe.marks@;
            let ghost len = pipe.len;
            proof {
                let k = choose|k: nat| #[trigger]
                    closes(map.tiles@, (position.0 as int, position.1 as int), k) && marks_walk(
                        map.tiles@,
                        (position.0 as int, position.1 as int),
                        k,
                        pipe.marks@,
                    );
                assert(closes(map.tiles@, (position.0 as int, position.1 as int), k));
                assert(is_loop(input.spec_bytes(), map.tiles@, marks, len as nat));
            }
            let r = count_inside_tiles(&map, pipe);
            proof {
                if r is None {
                    assert(reads_field(lines(input.spec_bytes()), position, map.tiles@) && (
                    exists|marks: Seq<Vec<bool>>, len: nat| #[trigger]
                        is_loop(input.spec_bytes(), map.tiles@, marks, len) && scan(
                            map.tiles@,
                            marks,
                            map.tiles@.len(),
                        ).1 > usize::MAX));
                }
            }
            r
        },
        None => {
            assert(reads_field(lines(input.spec_bytes()), position, map.tiles@) && no_loop(
                map.tiles@,
                position,
            ));
            None
        },
    }
}

} // verus!
