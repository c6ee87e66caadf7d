//! A gardener walks over garden plots between rocks; the solver counts
//! the plots that can be reached in a given number of steps.

use vstd::prelude::*;
use std::collections::VecDeque;
use crate::marks::Marks;
use vstd::string::StringSliceAdditionalSpecFns;
use crate::text::{views, lines, first_index, split_lines, find_byte, push_char};

verus! {

/// The number of steps of part two.
pub const GOAL_STEPS: usize = 26501365;

#[derive(Debug, Clone, Copy, PartialEq, Eq, Structural)]
pub enum Tile {
    Garden,
    Rock,
}

impl Tile {
    /// The character that writes the tile.
    pub fn to_char(self) -> (c: char)
        ensures
            c == if self == Tile::Garden {
                '.'
            } else {
                '#'
            },
    {
        match self {
            Tile::Garden => '.',
            Tile::Rock => '#',
        }
    }
}

/// A rectangle of tiles, kept row after row.
pub struct Garden {
    pub tiles: Vec<Tile>,
    pub width: usize,
    pub height: usize,
}

/// The tile in column `x` and row `y`, if the garden has one there.
pub open spec fn tile_at(tiles: Seq<Tile>, width: int, height: int, x: int, y: int) -> Option<Tile> {
    if 0 <= x < width && 0 <= y < height {
        Some(tiles[x + y * width])
    } else {
        None
    }
}

/// A place inside a rectangle has its cell among the cells of the
/// rectangle.
pub proof fn lemma_cell_in_range(width: int, height: int, x: int, y: int)
    requires
        0 <= x < width,
        0 <= y < height,
    ensures
        0 <= x + y * width < width * height,
{
    assert(y * width <= (height - 1) * width) by (nonlinear_arith)
        requires
            0 <= y <= height - 1,
            width >= 0,
    ;
    assert((height - 1) * width + width == width * height) by (nonlinear_arith);
    assert(y * width >= 0) by (nonlinear_arith)
        requires
            y >= 0,
            width >= 0,
    ;
}

/// The place `(x, y)` alone if it is a garden plot, and nothing
/// otherwise.
pub open spec fn plot_at(tiles: Seq<Tile>, width: int, height: int, x: int, y: int) -> Seq<
    (usize, usize),
> {
    if tile_at(tiles, width, height, x, y) == Some(Tile::Garden) {
        seq![(x as usize, y as usize)]
    } else {
        Seq::empty()
    }
}

/// The garden plots next to `(x, y)`: to the right, to the left, below
/// and above, in this order.
pub open spec fn plots_around(tiles: Seq<Tile>, width: int, height: int, x: int, y: int) -> Seq<
    (usize, usize),
> {
    plot_at(tiles, width, height, x + 1, y) + plot_at(tiles, width, height, x - 1, y) + plot_at(
        tiles,
        width,
        height,
        x,
        y + 1,
    ) + plot_at(tiles, width, height, x, y - 1)
}

impl Garden {
    /// There is a tile for every place.
    pub open spec fn wf(&self) -> bool {
        self.tiles@.len() == self.width * self.height
    }

    /// The plots next to `(x, y)`: to the right, to the left, below and
    /// above, in this order, as far as they are garden.
    pub fn get_next_positions(&self, pos: (usize, usize)) -> (r: Vec<(usize, usize)>)
        requires
            self.wf(),
            pos.0 < usize::MAX,
            pos.1 < usize::MAX,
        ensures
            r@ == plots_around(
                self.tiles@,
                self.width as int,
                self.height as int,
                pos.0 as int,
                pos.1 as int,
            ),
            r@.len() <= 4,
            forall|i: int|
                0 <= i < r@.len() ==> tile_at(
                    self.tiles@,
                    self.width as int,
                    self.height as int,
                    (#[trigger] r@[i]).0 as int,
                    r@[i].1 as int,
                ) == Some(Tile::Garden) && (r@[i].0 - pos.0 == 1 && r@[i].1 == pos.1 || pos.0
                    - r@[i].0 == 1 && r@[i].1 == pos.1 || r@[i].0 == pos.0 && r@[i].1 - pos.1 == 1
                    || r@[i].0 == pos.0 && pos.1 - r@[i].1 == 1),
    {
        let (x, y) = pos;
        let ghost t = self.tiles@;
        let ghost w = self.width as int;
        let ghost h = self.height as int;
        let mut out: Vec<(usize, usize)> = Vec::new();
        match self.get_tile((x + 1, y)) {
            Some(Tile::Garden) => {
                out.push((x + 1, y));
            },
            _ => {},
        }
        assert(out@ =~= plot_at(t, w, h, x + 1, y as int));
        if x > 0 {
            match self.get_tile((x - 1, y)) {
                Some(Tile::Garden) => {
                    out.push((x - 1, y));
                },
                _ => {},
            }
        }
        assert(out@ =~= plot_at(t, w, h, x + 1, y as int) + plot_at(t, w, h, x - 1, y as int));
        match self.get_tile((x, y + 1)) {
            Some(Tile::Garden) => {
                out.push((x, y + 1));
            },
            _ => {},
        }
        assert(out@ =~= plot_at(t, w, h, x + 1, y as int) + plot_at(t, w, h, x - 1, y as int)
            + plot_at(t, w, h, x as int, y + 1));
        if y > 0 {
            match self.get_tile((x, y - 1)) {
                Some(Tile::Garden) => {
                    out.push((x, y - 1));
                },
                _ => {},
            }
        }
        assert(out@ =~= plots_around(t, w, h, x as int, y as int));
        out
    }

    /// The tile in column `x` and row `y`.
    pub fn get_tile(&self, pos: (usize, usize)) -> (r: Option<Tile>)
        requires
            self.wf(),
        ensures
            r == tile_at(
                self.tiles@,
                self.width as int,
                self.height as int,
                pos.0 as int,
                pos.1 as int,
            ),
    {
        let (x, y) = pos;
        if x >= self.width || y >= self.height {
            return None;
        }
        proof {
            lemma_cell_in_range(self.width as int, self.height as int, x as int, y as int);
        }
        let n = self.tiles.len();
        Some(self.tiles[x + y * self.width])
    }

    /// The number of the cell in column `x` and row `y`.
    pub fn cell(&self, pos: (usize, usize)) -> (r: usize)
        requires
            self.wf(),
            pos.0 < self.width,
            pos.1 < self.height,
        ensures
            r == pos.0 + pos.1 * self.width,
            r < self.tiles@.len(),
    {
        proof {
            lemma_cell_in_range(self.width as int, self.height as int, pos.0 as int, pos.1 as int);
        }
        let n = self.tiles.len();
        pos.0 + pos.1 * self.width
    }

    /// The rows of the garden as text, each with a line feed.
    pub fn to_string(&self) -> (s: String)
        requires
            self.wf(),
        ensures
            s@.len() == (self.width + 1) * self.height,
    {
        let mut buf = String::new();
        let mut row: usize = 0;
        assert((self.width + 1) * 0 == 0);
        while row < self.height
            invariant
                self.wf(),
                row <= self.height,
                buf@.len() == (self.width + 1) * row,
            decreases self.height - row,
        {
            let mut col: usize = 0;
            while col < self.width
                invariant
                    self.wf(),
                    row < self.height,
                    col <= self.width,
                    buf@.len() == (self.width + 1) * row + col,
                decreases self.width - col,
            {
                match self.get_tile((col, row)) {
                    Some(tile) => {
                        push_char(&mut buf, tile.to_char());
                    },
                    None => {
                        push_char(&mut buf, '#');
                    },
                }
                col += 1;
            }
            push_char(&mut buf, '\n');
            assert((self.width + 1) * (row + 1) == (self.width + 1) * row + self.width + 1)
                by (nonlinear_arith);
            row += 1;
        }
        buf
    }
}

/// The tile that a byte writes: a rock for `#`, a plot for anything else.
pub open spec fn tile_of(c: u8) -> Tile {
    if c == 35 {
        Tile::Rock
    } else {
        Tile::Garden
    }
}

/// The byte marks the place where the walk starts.
pub open spec fn marks_start(c: u8) -> bool {
    c != 46 && c != 35
}

/// A cell that comes before another, row by row, has the smaller number.
pub proof fn lemma_cell_before(width: int, a: int, b: int, x: int, y: int)
    requires
        0 <= a < width,
        0 <= b,
        0 <= x <= width,
        b < y || (b == y && a < x),
    ensures
        a + b * width < x + y * width,
{
    if b < y {
        assert(y * width >= (b + 1) * width) by (nonlinear_arith)
            requires
                y >= b + 1,
                width >= 0,
        ;
        assert((b + 1) * width == b * width + width) by (nonlinear_arith);
    }
}

/// `map` holds the tiles that the rows write, and `start` is the last
/// place that marks a start.
pub open spec fn reads_garden(input: Seq<u8>, start: (usize, usize), map: Garden) -> bool {
    let rows = lines(input);
    &&& map.wf()
    &&& map.width == first_index(input, 10u8)
    &&& map.height == rows.len()
    &&& forall|y: int| 0 <= y < rows.len() ==> (#[trigger] rows[y]).len() == map.width
    &&& forall|x: int, y: int|
        0 <= y < map.height && 0 <= x < map.width ==> #[trigger] map.tiles@[x + y * map.width]
            == tile_of(rows[y][x])
    &&& start.0 < map.width && start.1 < map.height && marks_start(
        rows[start.1 as int][start.0 as int],
    )
    &&& forall|x: int, y: int|
        0 <= y < map.height && 0 <= x < map.width && (y > start.1 || (y == start.1 && x > start.0))
            ==> !marks_start(#[trigger] rows[y][x])
}

/// The text has a line feed, all its lines are as long as the first, and
/// a start is marked somewhere but in the top left corner.
pub open spec fn shows_garden(input: Seq<u8>) -> bool {
    let rows = lines(input);
    &&& input.contains(10u8)
    &&& forall|y: int| 0 <= y < rows.len() ==> (#[trigger] rows[y]).len() == first_index(input, 10u8)
    &&& exists|x: int, y: int|
        0 <= y < rows.len() && 0 <= x < first_index(input, 10u8) && (x != 0 || y != 0)
            && marks_start(#[trigger] rows[y][x])
}

/// Reads the garden: `.` is a plot, `#` a rock, and any other byte the
/// plot where the walk starts. `None` if the text has no line feed, is no
/// rectangle, or has its start in the top left corner or nowhere.
pub fn parse_input(input: &str) -> (r: Option<((usize, usize), Garden)>)
    ensures
        r matches Some((start, map)) ==> reads_garden(input.spec_bytes(), start, map) && is_plot(
            map,
            (start.0 as int, start.1 as int),
        ),
        r is None ==> !shows_garden(input.spec_bytes()),
{
    let bytes = input.as_bytes();
    let width = match find_byte(bytes, 10u8) {
        Some(width) => width,
        None => {
            return None;
        },
    };
    let all = split_lines(bytes);
    let ghost rows = lines(input.spec_bytes());
    let height = all.len();
    let mut tiles: Vec<Tile> = Vec::new();
    let mut start: (usize, usize) = (0, 0);
    let mut found = false;
    let mut y: usize = 0;
    assert(width * 0 == 0);
    while y < height
        invariant
            height == all@.len(),
            rows == views(all@),
            rows == lines(input.spec_bytes()),
            width == first_index(input.spec_bytes(), 10u8),
            y <= height,
            tiles@.len() == y * width,
            forall|b: int| 0 <= b < y ==> (#[trigger] rows[b]).len() == width,
            forall|a: int, b: int|
                0 <= b < y && 0 <= a < width ==> #[trigger] tiles@[a + b * width] == tile_of(
                    rows[b][a],
                ),
            found ==> start.0 < width && start.1 < y && marks_start(
                rows[start.1 as int][start.0 as int],
            ),
            !found ==> start == (0usize, 0usize),
            forall|a: int, b: int|
                0 <= b < y && 0 <= a < width && (!found || b > start.1 || (b == start.1 && a
                    > start.0)) ==> !marks_start(#[trigger] rows[b][a]),
        decreases height - y,
    {
        let line = &all[y];
        assert(rows[y as int] == line@);
        if line.len() != width {
            assert(rows[y as int].len() != width);
            return None;
        }
        let mut x: usize = 0;
        while x < width
            invariant
                width == line@.len(),
                rows[y as int] == line@,
                x <= width,
                y < height,
                height == rows.len(),
                tiles@.len() == x + y * width,
                forall|b: int| 0 <= b < y ==> (#[trigger] rows[b]).len() == width,
                forall|a: int, b: int|
                    0 <= b <= y && 0 <= a < width && (b < y || a < x) ==> #[trigger] tiles@[a + b
                        * width] == tile_of(rows[b][a]),
                found ==> start.0 < width && (start.1 < y || (start.1 == y && start.0 < x))
                    && marks_start(rows[start.1 as int][start.0 as int]),
                !found ==> start == (0usize, 0usize),
                forall|a: int, b: int|
                    0 <= b <= y && 0 <= a < width && (b < y || a < x) && (!found || b > start.1
                        || (b == start.1 && a > start.0)) ==> !marks_start(#[trigger] rows[b][a]),
            decreases width - x,
        {
            let c = line[x];
            let ghost before = tiles@;
            if c == 46 {
                tiles.push(Tile::Garden);
            } else if c == 35 {
                tiles.push(Tile::Rock);
            } else {
                start = (x, y);
                found = true;
                tiles.push(Tile::Garden);
            }
            assert forall|a: int, b: int|
                0 <= b <= y && 0 <= a < width && (b < y || a < x + 1) implies #[trigger] tiles@[a
                + b * width] == tile_of(rows[b][a]) by {
                if b < y || a < x {
                    lemma_cell_before(width as int, a, b, x as int, y as int);
                    assert(tiles@[a + b * width] == before[a + b * width]);
                }
            }
            x += 1;
        }
        assert((y + 1) * width == y * width + width) by (nonlinear_arith);
        y += 1;
    }
    if start.0 == 0 && start.1 == 0 {
        assert forall|x: int, y: int|
            0 <= y < rows.len() && 0 <= x < width && (x != 0 || y != 0) implies !marks_start(
            #[trigger] rows[y][x],
        ) by {}
        return None;
    }
    let map = Garden { tiles, width, height };
    proof {
        assert(width * height == height * width) by (nonlinear_arith);
        lemma_cell_in_range(width as int, height as int, start.0 as int, start.1 as int);
        assert(map.tiles@[start.0 + start.1 * width] == tile_of(
            rows[start.1 as int][start.0 as int],
        ));
    }
    Some((start, map))
}

/// The place lies in the garden.
pub open spec fn inside(map: Garden, p: (int, int)) -> bool {
    0 <= p.0 < map.width && 0 <= p.1 < map.height
}

/// The place is a garden plot.
pub open spec fn is_plot(map: Garden, p: (int, int)) -> bool {
    tile_at(map.tiles@, map.width as int, map.height as int, p.0, p.1) == Some(Tile::Garden)
}

/// The two places lie next to each other.
pub open spec fn near(a: (int, int), b: (int, int)) -> bool {
    (a.1 == b.1 && (a.0 - b.0 == 1 || b.0 - a.0 == 1)) || (a.0 == b.0 && (a.1 - b.1 == 1 || b.1
        - a.1 == 1))
}

/// The place lies in the garden and is marked in the table.
pub open spec fn set_at(map: Garden, table: Seq<bool>, p: (int, int)) -> bool {
    inside(map, p) && table[p.0 + p.1 * map.width]
}

/// A place next to `p` is marked in the table.
pub open spec fn fed(map: Garden, table: Seq<bool>, p: (int, int)) -> bool {
    set_at(map, table, (p.0 + 1, p.1)) || set_at(map, table, (p.0 - 1, p.1)) || set_at(
        map,
        table,
        (p.0, p.1 + 1),
    ) || set_at(map, table, (p.0, p.1 - 1))
}

/// Every place of `path` is a garden plot next to the one before it.
pub open spec fn is_walk(map: Garden, path: Seq<(int, int)>) -> bool {
    &&& path.len() >= 1
    &&& forall|i: int| 0 <= i < path.len() ==> is_plot(map, #[trigger] path[i])
    &&& forall|i: int| 0 <= i < path.len() - 1 ==> near(#[trigger] path[i], path[i + 1])
}

/// A walk of exactly `k` steps leads from `start` to `p`.
pub open spec fn walked(map: Garden, start: (int, int), p: (int, int), k: nat) -> bool {
    exists|path: Seq<(int, int)>| #[trigger]
        is_walk(map, path) && path.len() == k + 1 && path.first() == start && path.last() == p
}

/// A walk of at most `n` steps, their number odd or even as `odd` says,
/// leads from `start` to `p`.
pub open spec fn within(map: Garden, start: (int, int), p: (int, int), n: nat, odd: bool) -> bool {
    exists|k: nat| k <= n && (k % 2 == 1) == odd && #[trigger] walked(map, start, p, k)
}

/// The number is odd.
pub open spec fn is_odd(n: nat) -> bool {
    n % 2 == 1
}

/// The table marks the places that a walk of at most `n` steps of the
/// given parity reaches.
pub open spec fn holds(map: Garden, start: (int, int), table: Seq<bool>, n: nat, odd: bool) -> bool {
    &&& table.len() == map.tiles@.len()
    &&& forall|x: int, y: int|
        inside(map, (x, y)) ==> (#[trigger] table[x + y * map.width] <==> within(
            map,
            start,
            (x, y),
            n,
            odd,
        ))
}

/// Two places of the garden with the same cell number are one place.
pub proof fn lemma_cell_unique(width: int, x1: int, y1: int, x2: int, y2: int)
    requires
        0 <= x1 < width,
        0 <= x2 < width,
        0 <= y1,
        0 <= y2,
        x1 + y1 * width == x2 + y2 * width,
    ensures
        x1 == x2,
        y1 == y2,
{
    if y1 < y2 {
        assert(y2 * width >= (y1 + 1) * width) by (nonlinear_arith)
            requires
                y2 >= y1 + 1,
                width >= 0,
        ;
        assert((y1 + 1) * width == y1 * width + width) by (nonlinear_arith);
    } else if y2 < y1 {
        assert(y1 * width >= (y2 + 1) * width) by (nonlinear_arith)
            requires
                y1 >= y2 + 1,
                width >= 0,
        ;
        assert((y2 + 1) * width == y2 * width + width) by (nonlinear_arith);
    }
}

/// A walk to a plot next to `p` goes on to `p` with one step more.
pub proof fn lemma_walk_on(map: Garden, start: (int, int), q: (int, int), p: (int, int), k: nat)
    requires
        walked(map, start, q, k),
        near(q, p),
        is_plot(map, p),
    ensures
        walked(map, start, p, k + 1),
{
    let path = choose|path: Seq<(int, int)>| #[trigger]
        is_walk(map, path) && path.len() == k + 1 && path.first() == start && path.last() == q;
    let longer = path.push(p);
    assert forall|i: int| 0 <= i < longer.len() - 1 implies near(
        #[trigger] longer[i],
        longer[i + 1],
    ) by {
        if i < path.len() - 1 {
            assert(near(path[i], path[i + 1]));
        }
    }
    assert forall|i: int| 0 <= i < longer.len() implies is_plot(map, #[trigger] longer[i]) by {
        if i < path.len() {
            assert(is_plot(map, path[i]));
        }
    }
    assert(is_walk(map, longer) && longer.len() == k + 2 && longer.first() == start
        && longer.last() == p);
}

/// A walk of at least one step comes from a plot next to its end, which a
/// walk of one step less reaches.
pub proof fn lemma_walk_back(map: Garden, start: (int, int), p: (int, int), k: nat) -> (q: (
    int,
    int,
))
    requires
        k >= 1,
        walked(map, start, p, k),
    ensures
        walked(map, start, q, (k - 1) as nat),
        near(q, p),
        is_plot(map, p),
{
    let path = choose|path: Seq<(int, int)>| #[trigger]
        is_walk(map, path) && path.len() == k + 1 && path.first() == start && path.last() == p;
    let shorter = path.drop_last();
    let q = path[k - 1];
    assert(near(path[k - 1], path[k - 1 + 1]));
    assert(is_plot(map, path[k as int]));
    assert forall|i: int| 0 <= i < shorter.len() - 1 implies near(
        #[trigger] shorter[i],
        shorter[i + 1],
    ) by {
        assert(near(path[i], path[i + 1]));
    }
    assert forall|i: int| 0 <= i < shorter.len() implies is_plot(map, #[trigger] shorter[i]) by {
        assert(is_plot(map, path[i]));
    }
    assert(is_walk(map, shorter) && shorter.len() == k && shorter.first() == start
        && shorter.last() == q);
    q
}

/// What a walk reaches is a garden plot.
pub proof fn lemma_within_plot(map: Garden, start: (int, int), p: (int, int), n: nat, odd: bool)
    requires
        within(map, start, p, n, odd),
    ensures
        is_plot(map, p),
        inside(map, p),
{
    let k = choose|k: nat| k <= n && (k % 2 == 1) == odd && #[trigger] walked(map, start, p, k);
    let path = choose|path: Seq<(int, int)>| #[trigger]
        is_walk(map, path) && path.len() == k + 1 && path.first() == start && path.last() == p;
    assert(is_plot(map, path[k as int]));
}

/// What is reached within `n` steps is reached within `n + 1`.
pub proof fn lemma_within_grows(map: Garden, start: (int, int), p: (int, int), n: nat, odd: bool)
    requires
        within(map, start, p, n, odd),
    ensures
        within(map, start, p, n + 1, odd),
{
    let k = choose|k: nat| k <= n && (k % 2 == 1) == odd && #[trigger] walked(map, start, p, k);
    assert(k <= n + 1 && walked(map, start, p, k));
}

/// A plot next to a marked place is reached with one step more.
pub proof fn lemma_within_fed(map: Garden, start: (int, int), table: Seq<bool>, p: (int, int), n: nat)
    requires
        holds(map, start, table, n, is_odd(n)),
        is_plot(map, p),
        fed(map, table, p),
    ensures
        within(map, start, p, n + 1, is_odd(n + 1)),
{
    let q = if set_at(map, table, (p.0 + 1, p.1)) {
        (p.0 + 1, p.1)
    } else if set_at(map, table, (p.0 - 1, p.1)) {
        (p.0 - 1, p.1)
    } else if set_at(map, table, (p.0, p.1 + 1)) {
        (p.0, p.1 + 1)
    } else {
        (p.0, p.1 - 1)
    };
    assert(set_at(map, table, q));
    assert(table[q.0 + q.1 * map.width]);
    assert(within(map, start, q, n, is_odd(n)));
    let k = choose|k: nat| k <= n && (k % 2 == 1) == is_odd(n) && #[trigger] walked(map, start, q, k);
    lemma_walk_on(map, start, q, p, k);
    assert(k + 1 <= n + 1 && walked(map, start, p, k + 1));
}

/// What is newly reached with the last step is a plot next to a marked
/// place.
pub proof fn lemma_within_new(map: Garden, start: (int, int), table: Seq<bool>, p: (int, int), n: nat)
    requires
        holds(map, start, table, n, is_odd(n)),
        within(map, start, p, n + 1, is_odd(n + 1)),
        !within(map, start, p, n, is_odd(n + 1)),
    ensures
        is_plot(map, p),
        fed(map, table, p),
{
    let k = choose|k: nat|
        k <= n + 1 && (k % 2 == 1) == is_odd(n + 1) && #[trigger] walked(map, start, p, k);
    if k <= n {
        assert(within(map, start, p, n, is_odd(n + 1)));
    } else {
        let q = lemma_walk_back(map, start, p, k);
        assert(within(map, start, q, n, is_odd(n)));
        lemma_within_plot(map, start, q, n, is_odd(n));
        assert(table[q.0 + q.1 * map.width]);
        assert(set_at(map, table, q));
    }
}

/// With one step more nothing new is reached after a number of steps of
/// the parity of the steps before.
pub proof fn lemma_within_same(map: Garden, start: (int, int), p: (int, int), n: nat)
    requires
        within(map, start, p, n + 1, is_odd(n)),
    ensures
        within(map, start, p, n, is_odd(n)),
{
    let k = choose|k: nat|
        k <= n + 1 && (k % 2 == 1) == is_odd(n) && #[trigger] walked(map, start, p, k);
    assert(k <= n);
}

/// One step more: a place is reached within `n + 1` steps of the parity
/// of `n + 1` exactly if it was reached within `n` steps of that parity,
/// or is a plot next to a place reached within `n` steps of the other
/// parity. Within `n + 1` steps of the other parity nothing new is
/// reached.
pub proof fn lemma_within_step(map: Garden, start: (int, int), table: Seq<bool>, p: (int, int), n: nat)
    requires
        holds(map, start, table, n, is_odd(n)),
    ensures
        within(map, start, p, n + 1, is_odd(n + 1)) <==> within(map, start, p, n, is_odd(n + 1))
            || (is_plot(map, p) && fed(map, table, p)),
        within(map, start, p, n + 1, is_odd(n)) <==> within(map, start, p, n, is_odd(n)),
{
    if within(map, start, p, n + 1, is_odd(n + 1)) && !within(map, start, p, n, is_odd(n + 1)) {
        lemma_within_new(map, start, table, p, n);
    }
    if within(map, start, p, n, is_odd(n + 1)) {
        lemma_within_grows(map, start, p, n, is_odd(n + 1));
    }
    if is_plot(map, p) && fed(map, table, p) {
        lemma_within_fed(map, start, table, p, n);
    }
    if within(map, start, p, n + 1, is_odd(n)) {
        lemma_within_same(map, start, p, n);
    }
    if within(map, start, p, n, is_odd(n)) {
        lemma_within_grows(map, start, p, n, is_odd(n));
    }
}

/// Whether the place lies in the garden and is marked in the table.
fn is_set(map: &Garden, table: &Marks, x: usize, y: usize) -> (r: bool)
    requires
        map.wf(),
        table@.len() == map.tiles@.len(),
    ensures
        r == set_at(*map, table@, (x as int, y as int)),
{
    if x >= map.width || y >= map.height {
        return false;
    }
    table.contains(map.cell((x, y)))
}

/// Marks, in `next`, the garden plots one step from a plot marked in
/// `cur`.
fn spread(map: &Garden, cur: &Marks, next: &mut Marks)
    requires
        map.wf(),
        cur.wf(),
        old(next).wf(),
        cur@.len() == map.tiles@.len(),
        old(next)@.len() == map.tiles@.len(),
    ensures
        final(next).wf(),
        final(next)@.len() == map.tiles@.len(),
        forall|x: int, y: int|
            inside(*map, (x, y)) ==> (#[trigger] final(next)@[x + y * map.width] <==> old(next)@[x
                + y * map.width] || (is_plot(*map, (x, y)) && fed(*map, cur@, (x, y)))),
{
    let mut y: usize = 0;
    while y < map.height
        invariant
            map.wf(),
            cur.wf(),
            next.wf(),
            cur@.len() == map.tiles@.len(),
            next@.len() == map.tiles@.len(),
            old(next)@.len() == map.tiles@.len(),
            y <= map.height,
            forall|a: int, b: int|
                inside(*map, (a, b)) ==> (#[trigger] next@[a + b * map.width] <==> old(next)@[a + b
                    * map.width] || (b < y && is_plot(*map, (a, b)) && fed(*map, cur@, (a, b)))),
        decreases map.height - y,
    {
        let mut x: usize = 0;
        while x < map.width
            invariant
                map.wf(),
                cur.wf(),
                next.wf(),
                cur@.len() == map.tiles@.len(),
                next@.len() == map.tiles@.len(),
                old(next)@.len() == map.tiles@.len(),
                y < map.height,
                x <= map.width,
                forall|a: int, b: int|
                    inside(*map, (a, b)) ==> (#[trigger] next@[a + b * map.width] <==> old(next)@[a
                        + b * map.width] || ((b < y || (b == y && a < x)) && is_plot(*map, (a, b))
                        && fed(*map, cur@, (a, b)))),
            decreases map.width - x,
        {
            let plot = match map.get_tile((x, y)) {
                Some(Tile::Garden) => true,
                _ => false,
            };
            let right = x < usize::MAX && is_set(map, cur, x + 1, y);
            let left = x > 0 && is_set(map, cur, x - 1, y);
            let down = y < usize::MAX && is_set(map, cur, x, y + 1);
            let up = y > 0 && is_set(map, cur, x, y - 1);
            assert(plot == is_plot(*map, (x as int, y as int)));
            assert((right || left || down || up) == fed(*map, cur@, (x as int, y as int)));
            if plot && (right || left || down || up) {
                let ghost before = next@;
                let at = map.cell((x, y));
                next.insert(at);
                assert forall|a: int, b: int| inside(*map, (a, b)) implies (#[trigger] next@[a + b
                    * map.width] <==> old(next)@[a + b * map.width] || ((b < y || (b == y && a < x
                    + 1)) && is_plot(*map, (a, b)) && fed(*map, cur@, (a, b)))) by {
                    lemma_cell_in_range(map.width as int, map.height as int, a, b);
                    if a + b * map.width == at {
                        lemma_cell_unique(map.width as int, a, b, x as int, y as int);
                    } else {
                        assert(next@[a + b * map.width] == before[a + b * map.width]);
                    }
                }
            }
            x += 1;
        }
        y += 1;
    }
}

/// The number of garden plots on which a walk of `n_steps` steps from
/// `start` can end: the plots that some walk of up to `n_steps` steps
/// reaches after a number of steps of the same parity.
pub fn calculate_reachable_number_of_tiles(start: (usize, usize), map: Garden, n_steps: usize) -> (r:
    usize)
    requires
        map.wf(),
        is_plot(map, (start.0 as int, start.1 as int)),
    ensures
        exists|table: Seq<bool>| #[trigger]
            holds(
                map,
                (start.0 as int, start.1 as int),
                table,
                n_steps as nat,
                is_odd(n_steps as nat),
            ) && r == crate::marks::trues(table, table.len()),
{
    let ghost origin = (start.0 as int, start.1 as int);
    let n = map.tiles.len();
    let mut even = Marks::new(n);
    let mut odd = Marks::new(n);
    let at = map.cell(start);
    even.insert(at);
    proof {
        let path = seq![origin];
        assert(is_walk(map, path) && path.len() == 1 && path.first() == origin && path.last()
            == origin);
        assert(walked(map, origin, origin, 0));
        assert(within(map, origin, origin, 0, false));
        assert forall|x: int, y: int| inside(map, (x, y)) implies (#[trigger] even@[x + y
            * map.width] <==> within(map, origin, (x, y), 0, false)) by {
            lemma_cell_in_range(map.width as int, map.height as int, x, y);
            if x + y * map.width == at {
                lemma_cell_unique(map.width as int, x, y, origin.0, origin.1);
            }
            if within(map, origin, (x, y), 0, false) {
                let k = choose|k: nat|
                    k <= 0 && (k % 2 == 1) == false && #[trigger] walked(map, origin, (x, y), k);
                let path = choose|path: Seq<(int, int)>| #[trigger]
                    is_walk(map, path) && path.len() == k + 1 && path.first() == origin
                        && path.last() == (x, y);
                assert(path[0] == origin);
            }
        }
        assert forall|x: int, y: int| inside(map, (x, y)) implies (#[trigger] odd@[x + y
            * map.width] <==> within(map, origin, (x, y), 0, true)) by {
            lemma_cell_in_range(map.width as int, map.height as int, x, y);
            if within(map, origin, (x, y), 0, true) {
                let k = choose|k: nat|
                    k <= 0 && (k % 2 == 1) == true && #[trigger] walked(map, origin, (x, y), k);
            }
        }
    }
    let mut i: usize = 0;
    while i < n_steps
        invariant
            map.wf(),
            even.wf(),
            odd.wf(),
            even@.len() == n,
            odd@.len() == n,
            n == map.tiles@.len(),
            i <= n_steps,
            origin == (start.0 as int, start.1 as int),
            holds(map, origin, even@, i as nat, false),
            holds(map, origin, odd@, i as nat, true),
        decreases n_steps - i,
    {
        let ghost old_even = even@;
        let ghost old_odd = odd@;
        if i % 2 == 0 {
            spread(&map, &even, &mut odd);
            proof {
                assert forall|x: int, y: int| inside(map, (x, y)) implies (#[trigger] odd@[x + y
                    * map.width] <==> within(map, origin, (x, y), (i + 1) as nat, true)) by {
                    lemma_within_step(map, origin, old_even, (x, y), i as nat);
                    assert(old_odd[x + y * map.width] <==> within(map, origin, (x, y), i as nat, true));
                }
                assert forall|x: int, y: int| inside(map, (x, y)) implies (#[trigger] even@[x + y
                    * map.width] <==> within(map, origin, (x, y), (i + 1) as nat, false)) by {
                    lemma_within_step(map, origin, old_even, (x, y), i as nat);
                }
            }
        } else {
            spread(&map, &odd, &mut even);
            proof {
                assert forall|x: int, y: int| inside(map, (x, y)) implies (#[trigger] even@[x + y
                    * map.width] <==> within(map, origin, (x, y), (i + 1) as nat, false)) by {
                    lemma_within_step(map, origin, old_odd, (x, y), i as nat);
                    assert(old_even[x + y * map.width] <==> within(
                        map,
                        origin,
                        (x, y),
                        i as nat,
                        false,
                    ));
                }
                assert forall|x: int, y: int| inside(map, (x, y)) implies (#[trigger] odd@[x + y
                    * map.width] <==> within(map, origin, (x, y), (i + 1) as nat, true)) by {
                    lemma_within_step(map, origin, old_odd, (x, y), i as nat);
                }
            }
        }
        i += 1;
    }
    if n_steps % 2 == 0 {
        assert(holds(map, origin, even@, n_steps as nat, is_odd(n_steps as nat)));
        even.count
    } else {
        assert(holds(map, origin, odd@, n_steps as nat, is_odd(n_steps as nat)));
        odd.count
    }
}

/// Every number of steps in the table is the number of steps of a walk
/// from `start` to the place of its cell.
pub open spec fn paced(map: Garden, start: (int, int), steps: Seq<Option<usize>>) -> bool {
    forall|x: int, y: int|
        inside(map, (x, y)) ==> match #[trigger] steps[x + y * map.width] {
            Some(d) => walked(map, start, (x, y), d as nat),
            None => true,
        }
}

/// For every cell the least number of steps from `start` to it, if it
/// can be reached at all.
pub fn get_shortest_paths_per_tile(start: (usize, usize), map: Garden) -> (r: Vec<Option<usize>>)
    requires
        map.wf(),
        start.0 < map.width,
        start.1 < map.height,
    ensures
        r@.len() == map.tiles@.len(),
        r@[start.0 + start.1 * map.width] == Some(0usize),
        forall|i: int| 0 <= i < r@.len() ==> match #[trigger] r@[i] {
            Some(d) => d < r@.len(),
            None => true,
        },
        is_plot(map, (start.0 as int, start.1 as int)) ==> paced(
            map,
            (start.0 as int, start.1 as int),
            r@,
        ),
{
    let ghost from = (start.0 as int, start.1 as int);
    let n = map.tiles.len();
    let mut seen = Marks::new(n);
    let mut dists: Vec<Option<usize>> = Vec::new();
    let mut k: usize = 0;
    while k < n
        invariant
            k <= n,
            dists@.len() == k,
            forall|i: int| 0 <= i < k ==> (#[trigger] dists@[i]) is None,
        decreases n - k,
    {
        dists.push(None);
        k += 1;
    }
    let mut queue: VecDeque<((usize, usize), usize)> = VecDeque::new();
    let origin = map.cell(start);
    seen.insert(origin);
    dists.set(origin, Some(0));
    proof {
        if is_plot(map, from) {
            let path = seq![from];
            assert(is_walk(map, path) && path.len() == 1 && path.first() == from && path.last()
                == from);
            assert(walked(map, from, from, 0));
            assert forall|x: int, y: int| inside(map, (x, y)) implies match #[trigger] dists@[x + y
                * map.width] {
                Some(d) => walked(map, from, (x, y), d as nat),
                None => true,
            } by {
                lemma_cell_in_range(map.width as int, map.height as int, x, y);
                if x + y * map.width == origin {
                    lemma_cell_unique(map.width as int, x, y, start.0 as int, start.1 as int);
                }
            }
        }
    }
    let first = map.get_next_positions(start);
    let mut k: usize = 0;
    while k < first.len()
        invariant
            map.wf(),
            k <= first@.len(),
            seen.count == 1,
            from == (start.0 as int, start.1 as int),
            is_plot(map, from) ==> walked(map, from, from, 0),
            first@ == plots_around(
                map.tiles@,
                map.width as int,
                map.height as int,
                start.0 as int,
                start.1 as int,
            ),
            forall|i: int|
                0 <= i < first@.len() ==> near(
                    from,
                    ((#[trigger] first@[i]).0 as int, first@[i].1 as int),
                ),
            is_plot(map, from) ==> forall|i: int|
                0 <= i < queue@.len() ==> walked(
                    map,
                    from,
                    ((#[trigger] queue@[i]).0.0 as int, queue@[i].0.1 as int),
                    queue@[i].1 as nat,
                ),
            forall|i: int|
                0 <= i < first@.len() ==> tile_at(
                    map.tiles@,
                    map.width as int,
                    map.height as int,
                    (#[trigger] first@[i]).0 as int,
                    first@[i].1 as int,
                ) == Some(Tile::Garden),
            forall|i: int|
                0 <= i < queue@.len() ==> (#[trigger] queue@[i]).0.0 < map.width && queue@[i].0.1
                    < map.height && queue@[i].1 <= seen.count,
        decreases first@.len() - k,
    {
        let next_pos = first[k];
        assert(tile_at(
            map.tiles@,
            map.width as int,
            map.height as int,
            next_pos.0 as int,
            next_pos.1 as int,
        ) is Some);
        let ghost before = queue@;
        queue.push_back((next_pos, 1));
        assert forall|i: int| 0 <= i < queue@.len() implies (#[trigger] queue@[i]).0.0 < map.width
            && queue@[i].0.1 < map.height && queue@[i].1 <= seen.count by {
            if i < before.len() {
                assert(queue@[i] == before[i]);
            }
        }
        proof {
            if is_plot(map, from) {
                assert(near(from, (first@[k as int].0 as int, first@[k as int].1 as int)));
                lemma_walk_on(map, from, from, (next_pos.0 as int, next_pos.1 as int), 0);
                assert forall|i: int| 0 <= i < queue@.len() implies walked(
                    map,
                    from,
                    ((#[trigger] queue@[i]).0.0 as int, queue@[i].0.1 as int),
                    queue@[i].1 as nat,
                ) by {
                    if i < before.len() {
                        assert(queue@[i] == before[i]);
                    }
                }
            }
        }
        k += 1;
    }
    while queue.len() > 0
        invariant
            map.wf(),
            seen.wf(),
            seen@.len() == n,
            dists@.len() == n,
            n == map.tiles@.len(),
            seen.count <= n,
            start.0 < map.width,
            start.1 < map.height,
            forall|i: int|
                0 <= i < queue@.len() ==> (#[trigger] queue@[i]).0.0 < map.width && queue@[i].0.1
                    < map.height && queue@[i].1 <= seen.count,
            forall|i: int| 0 <= i < n ==> match #[trigger] dists@[i] {
                Some(d) => d < n && seen@[i],
                None => true,
            },
            origin == start.0 + start.1 * map.width,
            origin < n,
            dists@[origin as int] == Some(0usize),
            from == (start.0 as int, start.1 as int),
            is_plot(map, from) ==> forall|i: int|
                0 <= i < queue@.len() ==> walked(
                    map,
                    from,
                    ((#[trigger] queue@[i]).0.0 as int, queue@[i].0.1 as int),
                    queue@[i].1 as nat,
                ),
            is_plot(map, from) ==> paced(map, from, dists@),
        decreases n - seen.count, queue@.len(),
    {
        let ghost old_queue = queue@;
        let (pos, dist) = match queue.pop_front() {
            Some(item) => item,
            None => ((0, 0), 0),
        };
        assert(old_queue[0] == (pos, dist));
        assert(queue@ =~= old_queue.skip(1));
        assert forall|i: int| 0 <= i < queue@.len() implies (#[trigger] queue@[i]).0.0 < map.width
            && queue@[i].0.1 < map.height && queue@[i].1 <= seen.count by {
            assert(queue@[i] == old_queue[i + 1]);
        }
        let ghost here = (pos.0 as int, pos.1 as int);
        proof {
            if is_plot(map, from) {
                assert(walked(map, from, here, dist as nat));
                assert forall|i: int| 0 <= i < queue@.len() implies walked(
                    map,
                    from,
                    ((#[trigger] queue@[i]).0.0 as int, queue@[i].0.1 as int),
                    queue@[i].1 as nat,
                ) by {
                    assert(queue@[i] == old_queue[i + 1]);
                }
            }
        }
        let idx = map.cell(pos);
        if seen.contains(idx) {
            continue ;
        }
        seen.insert(idx);
        let ghost old_dists = dists@;
        dists.set(idx, Some(dist));
        proof {
            if is_plot(map, from) {
                assert forall|x: int, y: int| inside(map, (x, y)) implies match #[trigger] dists@[x
                    + y * map.width] {
                    Some(d) => walked(map, from, (x, y), d as nat),
                    None => true,
                } by {
                    lemma_cell_in_range(map.width as int, map.height as int, x, y);
                    if x + y * map.width == idx {
                        lemma_cell_unique(map.width as int, x, y, pos.0 as int, pos.1 as int);
                    } else {
                        assert(dists@[x + y * map.width] == old_dists[x + y * map.width]);
                    }
                }
            }
        }
        let around = map.get_next_positions(pos);
        let mut k: usize = 0;
        while k < around.len()
            invariant
                map.wf(),
                seen.wf(),
                seen@.len() == n,
                n == map.tiles@.len(),
                k <= around@.len(),
                dist < seen.count <= n,
                from == (start.0 as int, start.1 as int),
                here == (pos.0 as int, pos.1 as int),
                is_plot(map, from) ==> walked(map, from, here, dist as nat),
                forall|i: int|
                    0 <= i < around@.len() ==> near(
                        here,
                        ((#[trigger] around@[i]).0 as int, around@[i].1 as int),
                    ),
                is_plot(map, from) ==> forall|i: int|
                    0 <= i < queue@.len() ==> walked(
                        map,
                        from,
                        ((#[trigger] queue@[i]).0.0 as int, queue@[i].0.1 as int),
                        queue@[i].1 as nat,
                    ),
                forall|i: int|
                    0 <= i < around@.len() ==> tile_at(
                        map.tiles@,
                        map.width as int,
                        map.height as int,
                        (#[trigger] around@[i]).0 as int,
                        around@[i].1 as int,
                    ) == Some(Tile::Garden),
                forall|i: int|
                    0 <= i < queue@.len() ==> (#[trigger] queue@[i]).0.0 < map.width && queue@[i].0.1
                        < map.height && queue@[i].1 <= seen.count,
            decreases around@.len() - k,
        {
            let next_pos = around[k];
            assert(tile_at(
                map.tiles@,
                map.width as int,
                map.height as int,
                next_pos.0 as int,
                next_pos.1 as int,
            ) is Some);
            if !seen.contains(map.cell(next_pos)) {
                let ghost before = queue@;
                queue.push_back((next_pos, dist + 1));
                assert forall|i: int| 0 <= i < queue@.len() implies (#[trigger] queue@[i]).0.0
                    < map.width && queue@[i].0.1 < map.height && queue@[i].1 <= seen.count by {
                    if i < before.len() {
                        assert(queue@[i] == before[i]);
                    }
                }
                proof {
                    if is_plot(map, from) {
                        assert(near(here, (around@[k as int].0 as int, around@[k as int].1 as int)));
                        lemma_walk_on(
                            map,
                            from,
                            here,
                            (next_pos.0 as int, next_pos.1 as int),
                            dist as nat,
                        );
                        assert forall|i: int| 0 <= i < queue@.len() implies walked(
                            map,
                            from,
                            ((#[trigger] queue@[i]).0.0 as int, queue@[i].0.1 as int),
                            queue@[i].1 as nat,
                        ) by {
                            if i < before.len() {
                                assert(queue@[i] == before[i]);
                            }
                        }
                    }
                }
            }
            k += 1;
        }
    }
    dists
}

/// How many of the first `k` cells were reached with a number of steps
/// of parity `odd`, and, if `far` is set, with more than 65 steps.
pub open spec fn count_steps(visited: Seq<Option<usize>>, odd: bool, far: bool, k: nat) -> nat
    decreases k,
{
    if k == 0 {
        0
    } else {
        count_steps(visited, odd, far, (k - 1) as nat) + match visited[k - 1] {
            Some(steps) => if (steps % 2 == 1) == odd && (!far || steps > 65) {
                1nat
            } else {
                0nat
            },
            None => 0nat,
        }
    }
}

/// The number of plots reached after the steps of part two in a garden
/// that repeats in all directions, from the counts of one garden of side
/// `dim`: with `n` gardens in a row to each side of the first,
/// `(n+1)^2 * odd + n^2 * even - (n+1) * odd_corners + n * even_corners`.
pub open spec fn visited_spec(visited: Seq<Option<usize>>, dim: int) -> int {
    let len = visited.len();
    let n = (GOAL_STEPS - dim / 2) / dim;
    (n + 1) * (n + 1) * count_steps(visited, true, false, len) + n * n * count_steps(
        visited,
        false,
        false,
        len,
    ) - (n + 1) * count_steps(visited, true, true, len) + n * count_steps(
        visited,
        false,
        true,
        len,
    )
}

/// The side is neither zero nor too long, and every number on the way to
/// the count of part two fits the machine word.
pub open spec fn visit_fits(visited: Seq<Option<usize>>, dim: int) -> bool {
    let len = visited.len();
    let n = (GOAL_STEPS - dim / 2) / dim;
    let odd = count_steps(visited, true, false, len);
    let even = count_steps(visited, false, false, len);
    let odd_corners = count_steps(visited, true, true, len);
    let even_corners = count_steps(visited, false, true, len);
    &&& dim > 0
    &&& dim / 2 <= GOAL_STEPS
    &&& (n + 1) * (n + 1) <= usize::MAX
    &&& (n + 1) * (n + 1) * odd <= usize::MAX
    &&& n * n <= usize::MAX
    &&& n * n * even <= usize::MAX
    &&& (n + 1) * odd_corners <= usize::MAX
    &&& n * even_corners <= usize::MAX
    &&& (n + 1) * (n + 1) * odd + n * n * even <= usize::MAX
    &&& (n + 1) * (n + 1) * odd + n * n * even - (n + 1) * odd_corners >= 0
    &&& (n + 1) * (n + 1) * odd + n * n * even - (n + 1) * odd_corners + n * even_corners
        <= usize::MAX
}

/// Counts the cells reached with a number of steps of parity `odd`, and,
/// if `far` is set, with more than 65 steps.
fn count_where(visited: &Vec<Option<usize>>, odd: bool, far: bool) -> (r: usize)
    ensures
        r == count_steps(visited@, odd, far, visited@.len()),
{
    let n = visited.len();
    let mut count: usize = 0;
    let mut k: usize = 0;
    while k < n
        invariant
            n == visited@.len(),
            k <= n,
            count == count_steps(visited@, odd, far, k as nat),
            count <= k,
        decreases n - k,
    {
        match visited[k] {
            Some(steps) => {
                if (steps % 2 == 1) == odd && (!far || steps > 65) {
                    count += 1;
                }
            },
            None => {},
        }
        k += 1;
    }
    count
}

/// The number of plots reached after the steps of part two, by the
/// geometry of the repeating garden. `None` if the side is zero or too
/// long, or a number on the way does not fit the machine word.
pub fn calculate_visited_tiles(visited_tiles: Vec<Option<usize>>, dim: usize) -> (r: Option<usize>)
    ensures
        r matches Some(v) ==> dim > 0 && v == visited_spec(visited_tiles@, dim as int),
        r is Some <==> visit_fits(visited_tiles@, dim as int),
{
    if dim == 0 || dim / 2 > GOAL_STEPS {
        return None;
    }
    let even_corners = count_where(&visited_tiles, false, true);
    let odd_corners = count_where(&visited_tiles, true, true);
    let even_full = count_where(&visited_tiles, false, false);
    let odd_full = count_where(&visited_tiles, true, false);
    let n_squares = (GOAL_STEPS - (dim / 2)) / dim;
    let n1 = n_squares + 1;
    let a = match n1.checked_mul(n1) {
        Some(sq) => match sq.checked_mul(odd_full) {
            Some(a) => a,
            None => {
                return None;
            },
        },
        None => {
            return None;
        },
    };
    let b = match n_squares.checked_mul(n_squares) {
        Some(sq) => match sq.checked_mul(even_full) {
            Some(b) => b,
            None => {
                return None;
            },
        },
        None => {
            return None;
        },
    };
    let c = match n1.checked_mul(odd_corners) {
        Some(c) => c,
        None => {
            return None;
        },
    };
    let d = match n_squares.checked_mul(even_corners) {
        Some(d) => d,
        None => {
            return None;
        },
    };
    let ab = match a.checked_add(b) {
        Some(ab) => ab,
        None => {
            return None;
        },
    };
    let abc = match ab.checked_sub(c) {
        Some(abc) => abc,
        None => {
            return None;
        },
    };
    abc.checked_add(d)
}

/// The number of plots on which a walk of 64 steps can end.
pub fn get_solution_1(input: &str) -> (r: Option<usize>)
    ensures
        r matches Some(count) ==> exists|start: (usize, usize), map: Garden, table: Seq<bool>|
            reads_garden(input.spec_bytes(), start, map) && #[trigger] holds(
                map,
                (start.0 as int, start.1 as int),
                table,
                64,
                false,
            ) && count == crate::marks::trues(table, table.len()),
        r is None ==> !shows_garden(input.spec_bytes()),
{
    match parse_input(input) {
        Some((start, map)) => {
            let ghost garden = map;
            let count = calculate_reachable_number_of_tiles(start, map, 64);
            proof {
                let table = choose|table: Seq<bool>| #[trigger]
                    holds(garden, (start.0 as int, start.1 as int), table, 64, is_odd(64)) && count
                        == crate::marks::trues(table, table.len());
                assert(holds(garden, (start.0 as int, start.1 as int), table, 64, false));
            }
            Some(count)
        },
        None => None,
    }
}

/// `steps` holds a number of steps or none for every cell of the garden,
/// and zero steps for the start.
pub open spec fn searched(map: Garden, start: (usize, usize), steps: Seq<Option<usize>>) -> bool {
    steps.len() == map.tiles@.len() && steps[start.0 + start.1 * map.width] == Some(0usize)
        && map.height > 0 && paced(map, (start.0 as int, start.1 as int), steps)
}

/// The number of plots on which a walk of 26501365 steps can end when the
/// garden repeats in all directions, counted from the numbers of steps
/// that a search from the start takes to each plot of the one garden.
pub fn get_solution_2(input: &str) -> (r: Option<usize>)
    ensures
        r matches Some(count) ==> exists|start: (usize, usize), map: Garden, steps: Seq<Option<usize>>|
            reads_garden(input.spec_bytes(), start, map) && #[trigger] searched(map, start, steps)
                && count == visited_spec(steps, map.height as int),
        r is None ==> !shows_garden(input.spec_bytes()) || exists|
            start: (usize, usize),
            map: Garden,
            steps: Seq<Option<usize>>,
        |
            reads_garden(input.spec_bytes(), start, map) && #[trigger] searched(map, start, steps)
                && !visit_fits(steps, map.height as int),
{
    match parse_input(input) {
        Some((start, map)) => {
            let ghost garden = map;
            let dim = map.height;
            let shortest_paths_per_tile = get_shortest_paths_per_tile(start, map);
            let ghost steps = shortest_paths_per_tile@;
            let r = calculate_visited_tiles(shortest_paths_per_tile, dim);
            proof {
                assert(reads_garden(input.spec_bytes(), start, garden) && searched(
                    garden,
                    start,
                    steps,
                ));
            }
            r
        },
        None => None,
    }
}

} // verus!
