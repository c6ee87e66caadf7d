//! A beam of light crosses a grid of mirrors and splitters; the tiles that
//! it passes are energized.

use vstd::prelude::*;
use std::collections::VecDeque;
use crate::marks::{grid_trues, grid_cells, one_more, lemma_grid_trues_bounded, lemma_grid_one_more, blank_like};
use vstd::string::StringSliceAdditionalSpecFns;
use crate::text::{views, lines, split_lines};

verus! {

#[derive(Clone, Copy, Hash, PartialEq, Eq, Debug, Structural)]
pub enum Dir {
    Up,
    Right,
    Down,
    Left,
}

/// The number of a direction, counted clockwise from up.
pub open spec fn dir_index(dir: Dir) -> int {
    match dir {
        Dir::Up => 0,
        Dir::Right => 1,
        Dir::Down => 2,
        Dir::Left => 3,
    }
}

/// The direction with the number `inp`; left for every number above two.
pub open spec fn dir_from(inp: int) -> Dir {
    if inp == 0 {
        Dir::Up
    } else if inp == 1 {
        Dir::Right
    } else if inp == 2 {
        Dir::Down
    } else {
        Dir::Left
    }
}

/// The direction of a beam after a mirror: `/` turns a beam that goes up
/// or down clockwise, `\` one that goes left or right; every other meeting
/// turns it counter-clockwise.
pub open spec fn turn_spec(dir: Dir, mirror: u8) -> Dir {
    if ((dir == Dir::Up || dir == Dir::Down) && mirror == 47) || ((dir == Dir::Left || dir
        == Dir::Right) && mirror == 92) {
        dir_from((dir_index(dir) + 1) % 4)
    } else {
        dir_from((dir_index(dir) + 7) % 4)
    }
}

/// The directions of a beam after a splitter that it meets broadside;
/// otherwise it goes on.
pub open spec fn split_spec(dir: Dir, splitter: u8) -> (Dir, Option<Dir>) {
    if (dir == Dir::Up || dir == Dir::Down) && splitter == 45 {
        (Dir::Left, Some(Dir::Right))
    } else if (dir == Dir::Left || dir == Dir::Right) && splitter == 124 {
        (Dir::Up, Some(Dir::Down))
    } else {
        (dir, None)
    }
}

/// The directions in which a beam leaves a tile.
pub open spec fn next_dirs(dir: Dir, tile: u8) -> (Dir, Option<Dir>) {
    if tile == 47 || tile == 92 {
        (turn_spec(dir, tile), None)
    } else {
        split_spec(dir, tile)
    }
}

impl Dir {
    pub fn from(inp: usize) -> (dir: Dir)
        ensures
            dir == dir_from(inp as int),
    {
        if inp == 0 {
            Dir::Up
        } else if inp == 1 {
            Dir::Right
        } else if inp == 2 {
            Dir::Down
        } else {
            Dir::Left
        }
    }

    /// The number of the direction.
    pub fn index(self) -> (i: usize)
        ensures
            i == dir_index(self),
    {
        match self {
            Dir::Up => 0,
            Dir::Right => 1,
            Dir::Down => 2,
            Dir::Left => 3,
        }
    }

    pub fn turn_clockwise(self) -> (dir: Dir)
        ensures
            dir == dir_from((dir_index(self) + 1) % 4),
    {
        Dir::from((self.index() + 1) % 4)
    }

    pub fn turn_counter_clockwise(self) -> (dir: Dir)
        ensures
            dir == dir_from((dir_index(self) + 7) % 4),
    {
        Dir::from((self.index() + 7) % 4)
    }

    pub fn turn(self, mirror: u8) -> (dir: Dir)
        ensures
            dir == turn_spec(self, mirror),
    {
        let vertical = match self {
            Dir::Up => true,
            Dir::Down => true,
            _ => false,
        };
        if (vertical && mirror == 47) || (!vertical && mirror == 92) {
            self.turn_clockwise()
        } else {
            self.turn_counter_clockwise()
        }
    }

    pub fn split(self, splitter: u8) -> (dirs: (Dir, Option<Dir>))
        ensures
            dirs == split_spec(self, splitter),
    {
        let vertical = match self {
            Dir::Up => true,
            Dir::Down => true,
            _ => false,
        };
        if vertical && splitter == 45 {
            (Dir::Left, Some(Dir::Right))
        } else if !vertical && splitter == 124 {
            (Dir::Up, Some(Dir::Down))
        } else {
            (self, None)
        }
    }

    pub fn next_dir(self, tile: u8) -> (dirs: (Dir, Option<Dir>))
        ensures
            dirs == next_dirs(self, tile),
    {
        if tile == 47 || tile == 92 {
            (self.turn(tile), None)
        } else {
            self.split(tile)
        }
    }
}

/// A beam on its way: the column and row of a tile, and the direction in
/// which the beam enters it.
pub struct Beam {
    pub x: int,
    pub y: int,
    pub dir: Dir,
}

/// The beam is on a tile of the grid.
pub open spec fn on_map(cells: Seq<Seq<u8>>, b: Beam) -> bool {
    0 <= b.y < cells.len() && 0 <= b.x < cells[b.y].len()
}

/// The beam one tile further in direction `dir`.
pub open spec fn ahead(b: Beam, dir: Dir) -> Beam {
    match dir {
        Dir::Up => Beam { x: b.x, y: b.y - 1, dir },
        Dir::Right => Beam { x: b.x + 1, y: b.y, dir },
        Dir::Down => Beam { x: b.x, y: b.y + 1, dir },
        Dir::Left => Beam { x: b.x - 1, y: b.y, dir },
    }
}

/// The beam `q` is what the tile of `p` makes of the beam `p`, or one of
/// the two beams that it makes of it.
pub open spec fn follows(cells: Seq<Seq<u8>>, p: Beam, q: Beam) -> bool {
    on_map(cells, p) && (q == ahead(p, next_dirs(p.dir, cells[p.y][p.x]).0) || (next_dirs(
        p.dir,
        cells[p.y][p.x],
    ).1 is Some && q == ahead(p, next_dirs(p.dir, cells[p.y][p.x]).1->0)))
}

/// Every beam of `path` is on the grid, and each follows from the one
/// before it.
pub open spec fn is_path(cells: Seq<Seq<u8>>, path: Seq<Beam>) -> bool {
    &&& path.len() >= 1
    &&& forall|i: int| 0 <= i < path.len() ==> on_map(cells, #[trigger] path[i])
    &&& forall|i: int| 0 <= i < path.len() - 1 ==> follows(cells, #[trigger] path[i], path[i + 1])
}

/// The beam `s` arises from the beam `start`: it is `start`, or follows
/// from a beam that arises from `start`.
pub open spec fn lit(cells: Seq<Seq<u8>>, start: Beam, s: Beam) -> bool {
    exists|path: Seq<Beam>| #[trigger]
        is_path(cells, path) && path.first() == start && path.last() == s
}

/// A beam that arises from `start` enters the tile in column `x` and row
/// `y` in direction `dir`.
pub open spec fn lit_at(cells: Seq<Seq<u8>>, start: Beam, x: int, y: int, dir: Dir) -> bool {
    lit(cells, start, Beam { x, y, dir })
}

/// Some beam that arises from `start` passes the tile in column `x` and
/// row `y`.
pub open spec fn energized(cells: Seq<Seq<u8>>, start: Beam, x: int, y: int) -> bool {
    exists|dir: Dir| #[trigger] lit_at(cells, start, x, y, dir)
}

/// The beam that an entry of the queue stands for.
pub open spec fn beam_of(item: ((usize, usize), Dir)) -> Beam {
    Beam { x: item.0.0 as int, y: item.0.1 as int, dir: item.1 }
}

/// The table of marks has four marks for every tile.
pub open spec fn shaped(cells: Seq<Seq<u8>>, seen: Seq<Vec<bool>>) -> bool {
    &&& seen.len() == cells.len()
    &&& forall|y: int| 0 <= y < seen.len() ==> (#[trigger] seen[y])@.len() == 4 * cells[y].len()
}

/// The beam is marked as seen.
pub open spec fn marked(seen: Seq<Vec<bool>>, b: Beam) -> bool {
    seen[b.y]@[4 * b.x + dir_index(b.dir)]
}

/// The beam waits in the queue.
pub open spec fn queued(queue: Seq<((usize, usize), Dir)>, q: Beam) -> bool {
    exists|i: int| 0 <= i < queue.len() && beam_of(#[trigger] queue[i]) == q
}

/// Every beam marked as seen arises from the start.
pub open spec fn sound(cells: Seq<Seq<u8>>, start: Beam, seen: Seq<Vec<bool>>) -> bool {
    forall|b: Beam| on_map(cells, b) && #[trigger] marked(seen, b) ==> lit(cells, start, b)
}

/// Every beam in the queue that is on the grid arises from the start.
pub open spec fn queue_sound(
    cells: Seq<Seq<u8>>,
    start: Beam,
    queue: Seq<((usize, usize), Dir)>,
) -> bool {
    forall|i: int|
        0 <= i < queue.len() && on_map(cells, beam_of(#[trigger] queue[i])) ==> lit(
            cells,
            start,
            beam_of(queue[i]),
        )
}

/// What follows a beam marked as seen is marked as seen or waits in the
/// queue.
pub open spec fn closed(
    cells: Seq<Seq<u8>>,
    seen: Seq<Vec<bool>>,
    queue: Seq<((usize, usize), Dir)>,
) -> bool {
    forall|p: Beam, q: Beam|
        on_map(cells, p) && marked(seen, p) && #[trigger] follows(cells, p, q) && on_map(cells, q)
            ==> marked(seen, q) || queued(queue, q)
}

/// What follows a beam that arises from the start arises from it too.
pub proof fn lemma_lit_step(cells: Seq<Seq<u8>>, start: Beam, p: Beam, q: Beam)
    requires
        lit(cells, start, p),
        follows(cells, p, q),
        on_map(cells, q),
    ensures
        lit(cells, start, q),
{
    let path = choose|path: Seq<Beam>| #[trigger]
        is_path(cells, path) && path.first() == start && path.last() == p;
    let longer = path.push(q);
    assert forall|i: int| 0 <= i < longer.len() - 1 implies follows(
        cells,
        #[trigger] longer[i],
        longer[i + 1],
    ) by {
        if i < path.len() - 1 {
            assert(follows(cells, path[i], path[i + 1]));
        }
    }
    assert(is_path(cells, longer));
    assert(longer.first() == start && longer.last() == q);
}

/// The start arises from itself if it is on the grid.
pub proof fn lemma_lit_start(cells: Seq<Seq<u8>>, start: Beam)
    requires
        on_map(cells, start),
    ensures
        lit(cells, start, start),
{
    let path = seq![start];
    assert(is_path(cells, path));
    assert(path.first() == start && path.last() == start);
}

/// When nothing waits any more, every beam on a path from the start is
/// marked as seen.
pub proof fn lemma_all_seen(cells: Seq<Seq<u8>>, seen: Seq<Vec<bool>>, path: Seq<Beam>, i: int)
    requires
        closed(cells, seen, Seq::empty()),
        is_path(cells, path),
        marked(seen, path.first()),
        0 <= i < path.len(),
    ensures
        marked(seen, path[i]),
    decreases i,
{
    if i > 0 {
        lemma_all_seen(cells, seen, path, i - 1);
        assert(follows(cells, path[i - 1], path[i]));
        assert(!queued(Seq::<((usize, usize), Dir)>::empty(), path[i]));
    }
}

pub trait Position: Sized {
    /// The position is the column and row of the beam `at`.
    spec fn stands_at(&self, at: Beam) -> bool;

    /// The position one step further in the direction `dir`.
    fn move_pos(self, dir: &Dir) -> (r: Self)
        requires
            exists|at: Beam| self.stands_at(at) && at.x < usize::MAX && at.y < usize::MAX,
        ensures
            forall|at: Beam|
                self.stands_at(at) && (ahead(at, *dir).x >= 0 && ahead(at, *dir).y >= 0)
                    ==> r.stands_at(ahead(at, *dir)),
            forall|at: Beam|
                self.stands_at(at) && !(ahead(at, *dir).x >= 0 && ahead(at, *dir).y >= 0)
                    ==> r.stands_at(Beam {
                    x: if ahead(at, *dir).x < 0 {
                        usize::MAX as int
                    } else {
                        ahead(at, *dir).x
                    },
                    y: if ahead(at, *dir).y < 0 {
                        usize::MAX as int
                    } else {
                        ahead(at, *dir).y
                    },
                    dir: at.dir,
                }),
    ;
}

impl Position for (usize, usize) {
    open spec fn stands_at(&self, at: Beam) -> bool {
        self.0 == at.x && self.1 == at.y
    }

    fn move_pos(self, dir: &Dir) -> (r: Self) {
        match dir {
            Dir::Up => (self.0, self.1.wrapping_sub(1)),
            Dir::Right => (self.0 + 1, self.1),
            Dir::Down => (self.0, self.1 + 1),
            Dir::Left => (self.0.wrapping_sub(1), self.1),
        }
    }
}

/// The rows of the grid.
pub fn parse_input(input: &str) -> (map: Vec<Vec<u8>>)
    ensures
        views(map@) == lines(input.spec_bytes()),
{
    split_lines(input.as_bytes())
}

/// Four marks fit for every tile of every row.
pub open spec fn markable(map: Seq<Vec<u8>>) -> bool {
    forall|y: int| 0 <= y < map.len() ==> (#[trigger] map[y])@.len() * 4 <= usize::MAX
}

/// Whether four marks fit for every tile of every row.
pub fn is_markable(map: &Vec<Vec<u8>>) -> (r: bool)
    ensures
        r == markable(map@),
{
    let mut y: usize = 0;
    while y < map.len()
        invariant
            y <= map@.len(),
            forall|k: int| 0 <= k < y ==> (#[trigger] map@[k])@.len() * 4 <= usize::MAX,
        decreases map@.len() - y,
    {
        if map[y].len() > usize::MAX / 4 {
            return false;
        }
        y += 1;
    }
    true
}

/// `tiles` lists, each once, the tiles that a beam from `start` passes.
pub open spec fn lights(cells: Seq<Seq<u8>>, start: Beam, tiles: Seq<(usize, usize)>) -> bool {
    &&& tiles.no_duplicates()
    &&& forall|i: int|
        0 <= i < tiles.len() ==> energized(
            cells,
            start,
            (#[trigger] tiles[i]).0 as int,
            tiles[i].1 as int,
        )
    &&& forall|x: int, y: int| #[trigger]
        energized(cells, start, x, y) ==> 0 <= x <= usize::MAX && 0 <= y <= usize::MAX
            && tiles.contains((x as usize, y as usize))
}

/// Follows the beam that enters the grid at `start` in direction `dir`
/// through all mirrors and splitters, and returns the tiles that it or a
/// beam split off from it passes, row by row.
pub fn bfs(map: &Vec<Vec<u8>>, start: (usize, usize), dir: Dir) -> (tiles: Vec<(usize, usize)>)
    requires
        markable(map@),
    ensures
        lights(views(map@), beam_of((start, dir)), tiles@),
{
    let ghost cells = views(map@);
    let ghost origin = beam_of((start, dir));
    let height = map.len();
    let mut seen = blank_like(map, 4);
    let mut queue: VecDeque<((usize, usize), Dir)> = VecDeque::new();
    queue.push_back((start, dir));
    proof {
        assert(queue@[0] == (start, dir));
        assert(queued(queue@, origin));
        if on_map(cells, origin) {
            lemma_lit_start(cells, origin);
        }
        assert(shaped(cells, seen@)) by {
            assert forall|y: int| 0 <= y < seen@.len() implies (#[trigger] seen@[y])@.len() == 4
                * cells[y].len() by {
                assert(seen@[y]@.len() == map@[y]@.len() * 4);
            }
        }
        lemma_grid_trues_bounded(seen@, seen@.len());
    }
    while queue.len() > 0
        invariant
            markable(map@),
            cells == views(map@),
            origin == beam_of((start, dir)),
            height == map@.len(),
            shaped(cells, seen@),
            sound(cells, origin, seen@),
            queue_sound(cells, origin, queue@),
            closed(cells, seen@, queue@),
            on_map(cells, origin) ==> marked(seen@, origin) || queued(queue@, origin),
            grid_trues(seen@, seen@.len()) <= grid_cells(seen@, seen@.len()),
        decreases grid_cells(seen@, seen@.len()) - grid_trues(seen@, seen@.len()), queue@.len(),
    {
        let ghost old_queue = queue@;
        let ghost old_seen = seen@;
        let (pos, dir) = match queue.pop_front() {
            Some(item) => item,
            None => ((0, 0), Dir::Up),
        };
        let ghost here = beam_of((pos, dir));
        assert(old_queue[0] == (pos, dir));
        assert(queue@ =~= old_queue.skip(1));
        if pos.1 >= height {
            proof {
                assert(!on_map(cells, here));
                lemma_queue_shrinks(cells, origin, seen@, old_queue);
            }
            continue ;
        }
        assert(views(map@)[pos.1 as int] == map@[pos.1 as int]@);
        if pos.0 >= map[pos.1].len() {
            proof {
                assert(!on_map(cells, here));
                lemma_queue_shrinks(cells, origin, seen@, old_queue);
            }
            continue ;
        }
        assert(map@[pos.1 as int]@.len() * 4 <= usize::MAX);
        assert(on_map(cells, here));
        let tile = map[pos.1][pos.0];
        let slot = 4 * pos.0 + dir.index();
        if seen[pos.1][slot] {
            proof {
                assert(marked(seen@, here));
                lemma_queue_shrinks(cells, origin, seen@, old_queue);
            }
            continue ;
        }
        seen[pos.1][slot] = true;
        let (first_dir, second_dir_opt) = dir.next_dir(tile);
        assert(pos.stands_at(here));
        let first_pos = pos.move_pos(&first_dir);
        queue.push_back((first_pos, first_dir));
        match second_dir_opt {
            Some(second_dir) => {
                let second_pos = pos.move_pos(&second_dir);
                queue.push_back((second_pos, second_dir));
            },
            None => {},
        }
        proof {
            assert(one_more(old_seen, seen@, pos.1 as int, slot as int));
            lemma_grid_one_more(old_seen, seen@, pos.1 as int, slot as int, seen@.len());
            lemma_grid_trues_bounded(seen@, seen@.len());
            assert(lit(cells, origin, here));
            lemma_marked_after(cells, old_seen, seen@, here);
            assert(shaped(cells, seen@)) by {
                assert forall|y: int| 0 <= y < seen@.len() implies (#[trigger] seen@[y])@.len() == 4
                    * cells[y].len() by {
                    assert(old_seen[y]@.len() == 4 * cells[y].len());
                }
            }
            let first = ahead(here, first_dir);
            assert(queue@[old_queue.len() - 1] == (first_pos, first_dir));
            assert forall|i: int| 0 <= i < queue@.len() && on_map(
                cells,
                beam_of(#[trigger] queue@[i]),
            ) implies lit(cells, origin, beam_of(queue@[i])) by {
                if i < old_queue.len() - 1 {
                    assert(queue@[i] == old_queue[i + 1]);
                } else if i == old_queue.len() - 1 {
                    assert(beam_of(queue@[i]) == first);
                    assert(follows(cells, here, first));
                    lemma_lit_step(cells, origin, here, first);
                } else {
                    let second = ahead(here, second_dir_opt->0);
                    assert(beam_of(queue@[i]) == second);
                    assert(follows(cells, here, second));
                    lemma_lit_step(cells, origin, here, second);
                }
            }
            assert forall|p: Beam, q: Beam|
                on_map(cells, p) && marked(seen@, p) && #[trigger] follows(cells, p, q) && on_map(
                    cells,
                    q,
                ) implies marked(seen@, q) || queued(queue@, q) by {
                if p == here {
                    if q == first {
                        assert(beam_of(queue@[old_queue.len() - 1]) == q);
                    } else {
                        assert(beam_of(queue@[old_queue.len() as int]) == q);
                    }
                } else {
                    assert(marked(old_seen, p));
                    if !marked(old_seen, q) {
                        assert(queued(old_queue, q));
                        let i = choose|i: int|
                            0 <= i < old_queue.len() && beam_of(#[trigger] old_queue[i]) == q;
                        if i > 0 {
                            assert(queue@[i - 1] == old_queue[i]);
                            assert(beam_of(queue@[i - 1]) == q);
                        }
                    }
                }
            }
            assert forall|b: Beam| on_map(cells, b) && #[trigger] marked(seen@, b) implies lit(
                cells,
                origin,
                b,
            ) by {
                if b != here {
                    assert(marked(old_seen, b));
                }
            }
            if on_map(cells, origin) && !marked(seen@, origin) {
                assert(queued(old_queue, origin));
                let i = choose|i: int|
                    0 <= i < old_queue.len() && beam_of(#[trigger] old_queue[i]) == origin;
                assert(i > 0);
                assert(queue@[i - 1] == old_queue[i]);
                assert(beam_of(queue@[i - 1]) == origin);
            }
        }
    }
    let mut tiles: Vec<(usize, usize)> = Vec::new();
    let mut y: usize = 0;
    proof {
        assert(queue@ =~= Seq::empty());
    }
    while y < height
        invariant
            markable(map@),
            cells == views(map@),
            height == map@.len(),
            y <= height,
            shaped(cells, seen@),
            sound(cells, origin, seen@),
            closed(cells, seen@, Seq::empty()),
            on_map(cells, origin) ==> marked(seen@, origin),
            tiles@.no_duplicates(),
            forall|i: int|
                0 <= i < tiles@.len() ==> (#[trigger] tiles@[i]).1 < y && energized(
                    cells,
                    origin,
                    tiles@[i].0 as int,
                    tiles@[i].1 as int,
                ),
            forall|cx: int, cy: int| #[trigger]
                energized(cells, origin, cx, cy) && cy < y ==> 0 <= cx <= usize::MAX && 0 <= cy
                    && tiles@.contains((cx as usize, cy as usize)),
        decreases height - y,
    {
        let width = map[y].len();
        assert(views(map@)[y as int] == map@[y as int]@);
        assert(map@[y as int]@.len() * 4 <= usize::MAX);
        assert(seen@[y as int]@.len() == 4 * cells[y as int].len());
        let mut x: usize = 0;
        while x < width
            invariant
                cells == views(map@),
                height == map@.len(),
                y < height,
                width == cells[y as int].len(),
                x <= width,
                4 * width <= usize::MAX,
                shaped(cells, seen@),
                sound(cells, origin, seen@),
                closed(cells, seen@, Seq::empty()),
                on_map(cells, origin) ==> marked(seen@, origin),
                tiles@.no_duplicates(),
                forall|i: int|
                    0 <= i < tiles@.len() ==> ((#[trigger] tiles@[i]).1 < y || (tiles@[i].1 == y
                        && tiles@[i].0 < x)) && energized(
                        cells,
                        origin,
                        tiles@[i].0 as int,
                        tiles@[i].1 as int,
                    ),
                forall|cx: int, cy: int| #[trigger]
                    energized(cells, origin, cx, cy) && (cy < y || (cy == y && cx < x)) ==> 0 <= cx
                        <= usize::MAX && 0 <= cy && tiles@.contains((cx as usize, cy as usize)),
            decreases width - x,
        {
            let row = &seen[y];
            let passed = row[4 * x] || row[4 * x + 1] || row[4 * x + 2] || row[4 * x + 3];
            let ghost before = tiles@;
            proof {
                lemma_tile_passed(cells, origin, seen@, x as int, y as int);
            }
            if passed {
                tiles.push((x, y));
                assert(tiles@.no_duplicates()) by {
                    assert forall|i: int, j: int|
                        0 <= i < tiles@.len() && 0 <= j < tiles@.len() && i != j implies tiles@[i]
                        != tiles@[j] by {
                        if i < before.len() && j < before.len() {
                            assert(before[i] != before[j]);
                        }
                    }
                }
            }
            assert forall|cx: int, cy: int| #[trigger]
                energized(cells, origin, cx, cy) && (cy < y || (cy == y && cx < x + 1)) implies 0
                <= cx <= usize::MAX && 0 <= cy && tiles@.contains((cx as usize, cy as usize)) by {
                if cy == y && cx == x {
                    assert(passed);
                    assert(tiles@[tiles@.len() - 1] == (x, y));
                } else {
                    assert(before.contains((cx as usize, cy as usize)));
                    let i = choose|i: int| 0 <= i < before.len() && before[i] == (cx as usize, cy as usize);
                    assert(tiles@[i] == (cx as usize, cy as usize));
                }
            }
            x += 1;
        }
        proof {
            assert forall|cx: int, cy: int| #[trigger]
                energized(cells, origin, cx, cy) && cy < y + 1 implies 0 <= cx <= usize::MAX && 0
                <= cy && tiles@.contains((cx as usize, cy as usize)) by {
                if cy == y && cx >= width {
                    let d = choose|d: Dir| #[trigger] lit_at(cells, origin, cx, cy, d);
                    lemma_lit_on_map(cells, origin, Beam { x: cx, y: cy, dir: d });
                }
                if cy == y && cx < 0 {
                    let d = choose|d: Dir| #[trigger] lit_at(cells, origin, cx, cy, d);
                    lemma_lit_on_map(cells, origin, Beam { x: cx, y: cy, dir: d });
                }
            }
        }
        y += 1;
    }
    proof {
        assert forall|cx: int, cy: int| #[trigger] energized(cells, origin, cx, cy) implies 0 <= cx
            <= usize::MAX && 0 <= cy <= usize::MAX && tiles@.contains((cx as usize, cy as usize)) by {
            let d = choose|d: Dir| #[trigger] lit_at(cells, origin, cx, cy, d);
            lemma_lit_on_map(cells, origin, Beam { x: cx, y: cy, dir: d });
        }
    }
    tiles
}

/// A beam that arises from the start is on the grid.
pub proof fn lemma_lit_on_map(cells: Seq<Seq<u8>>, start: Beam, s: Beam)
    requires
        lit(cells, start, s),
    ensures
        on_map(cells, s),
{
    let path = choose|path: Seq<Beam>| #[trigger]
        is_path(cells, path) && path.first() == start && path.last() == s;
    assert(on_map(cells, path[path.len() - 1]));
}

/// Taking the first beam out of the queue keeps the queue in order if the
/// beam is off the grid or marked as seen.
pub proof fn lemma_queue_shrinks(
    cells: Seq<Seq<u8>>,
    start: Beam,
    seen: Seq<Vec<bool>>,
    queue: Seq<((usize, usize), Dir)>,
)
    requires
        queue.len() > 0,
        queue_sound(cells, start, queue),
        closed(cells, seen, queue),
        on_map(cells, start) ==> marked(seen, start) || queued(queue, start),
        !on_map(cells, beam_of(queue[0])) || marked(seen, beam_of(queue[0])),
    ensures
        queue_sound(cells, start, queue.skip(1)),
        closed(cells, seen, queue.skip(1)),
        on_map(cells, start) ==> marked(seen, start) || queued(queue.skip(1), start),
{
    let rest = queue.skip(1);
    assert forall|i: int| 0 <= i < rest.len() && on_map(cells, beam_of(#[trigger] rest[i])) implies lit(
        cells,
        start,
        beam_of(rest[i]),
    ) by {
        assert(rest[i] == queue[i + 1]);
    }
    assert forall|p: Beam, q: Beam|
        on_map(cells, p) && marked(seen, p) && #[trigger] follows(cells, p, q) && on_map(
            cells,
            q,
        ) implies marked(seen, q) || queued(rest, q) by {
        if !marked(seen, q) {
            assert(queued(queue, q));
            let i = choose|i: int| 0 <= i < queue.len() && beam_of(#[trigger] queue[i]) == q;
            assert(i > 0);
            assert(rest[i - 1] == queue[i]);
            assert(beam_of(rest[i - 1]) == q);
        }
    }
    if on_map(cells, start) && !marked(seen, start) {
        let i = choose|i: int| 0 <= i < queue.len() && beam_of(#[trigger] queue[i]) == start;
        assert(i > 0);
        assert(rest[i - 1] == queue[i]);
        assert(beam_of(rest[i - 1]) == start);
    }
}

/// After the mark of the beam `here` was set, the beams marked are those
/// marked before and `here`.
pub proof fn lemma_marked_after(
    cells: Seq<Seq<u8>>,
    before: Seq<Vec<bool>>,
    after: Seq<Vec<bool>>,
    here: Beam,
)
    requires
        shaped(cells, before),
        on_map(cells, here),
        one_more(before, after, here.y, 4 * here.x + dir_index(here.dir)),
    ensures
        forall|b: Beam|
            on_map(cells, b) ==> (#[trigger] marked(after, b) <==> marked(before, b) || b == here),
{
    assert forall|b: Beam| on_map(cells, b) implies (#[trigger] marked(after, b) <==> marked(
        before,
        b,
    ) || b == here) by {
        if b.y != here.y {
            assert(after[b.y]@ == before[b.y]@);
        } else {
            assert(before[b.y]@.len() == 4 * cells[b.y].len());
        }
    }
}

/// A tile is passed exactly if one of its four marks is set, once nothing
/// waits any more.
pub proof fn lemma_tile_passed(cells: Seq<Seq<u8>>, start: Beam, seen: Seq<Vec<bool>>, x: int, y: int)
    requires
        shaped(cells, seen),
        sound(cells, start, seen),
        closed(cells, seen, Seq::empty()),
        on_map(cells, start) ==> marked(seen, start),
        0 <= y < cells.len(),
        0 <= x < cells[y].len(),
    ensures
        energized(cells, start, x, y) <==> (seen[y]@[4 * x] || seen[y]@[4 * x + 1] || seen[y]@[4 * x
            + 2] || seen[y]@[4 * x + 3]),
{
    let up = Beam { x, y, dir: Dir::Up };
    let right = Beam { x, y, dir: Dir::Right };
    let down = Beam { x, y, dir: Dir::Down };
    let left = Beam { x, y, dir: Dir::Left };
    assert(marked(seen, up) == seen[y]@[4 * x]);
    assert(marked(seen, right) == seen[y]@[4 * x + 1]);
    assert(marked(seen, down) == seen[y]@[4 * x + 2]);
    assert(marked(seen, left) == seen[y]@[4 * x + 3]);
    if energized(cells, start, x, y) {
        let d = choose|d: Dir| #[trigger] lit_at(cells, start, x, y, d);
        let b = Beam { x, y, dir: d };
        let path = choose|path: Seq<Beam>| #[trigger]
            is_path(cells, path) && path.first() == start && path.last() == b;
        assert(on_map(cells, path[0]));
        lemma_all_seen(cells, seen, path, path.len() - 1);
    }
    if marked(seen, up) {
        assert(lit_at(cells, start, x, y, Dir::Up));
    }
    if marked(seen, right) {
        assert(lit_at(cells, start, x, y, Dir::Right));
    }
    if marked(seen, down) {
        assert(lit_at(cells, start, x, y, Dir::Down));
    }
    if marked(seen, left) {
        assert(lit_at(cells, start, x, y, Dir::Left));
    }
}

/// The beam enters the grid at an edge tile, straight from outside: down
/// into the first row, up into the last, to the right into the first
/// column, or to the left into the place where the first row ends.
pub open spec fn enters_at_edge(cells: Seq<Seq<u8>>, s: Beam) -> bool {
    let height = cells.len() as int;
    let width = if height == 0 {
        0
    } else {
        cells[0].len() as int
    };
    ||| (s.dir == Dir::Down && s.y == 0 && 0 <= s.x < width)
    ||| (s.dir == Dir::Up && s.y == height - 1 && 0 <= s.x < width)
    ||| (s.dir == Dir::Right && s.x == 0 && 0 <= s.y < height)
    ||| (s.dir == Dir::Left && s.x == (if width == 0 {
        usize::MAX as int
    } else {
        width - 1
    }) && 0 <= s.y < height)
}

/// Two lists of the tiles that a beam passes are equally long.
pub proof fn lemma_lights_len(
    cells: Seq<Seq<u8>>,
    start: Beam,
    a: Seq<(usize, usize)>,
    b: Seq<(usize, usize)>,
)
    requires
        lights(cells, start, a),
        lights(cells, start, b),
    ensures
        a.len() == b.len(),
{
    a.unique_seq_to_set();
    b.unique_seq_to_set();
    assert forall|t: (usize, usize)| a.to_set().contains(t) == b.to_set().contains(t) by {
        if a.contains(t) {
            let i = choose|i: int| 0 <= i < a.len() && a[i] == t;
            assert(energized(cells, start, a[i].0 as int, a[i].1 as int));
            assert(b.contains((t.0 as int as usize, t.1 as int as usize)));
        }
        if b.contains(t) {
            let i = choose|i: int| 0 <= i < b.len() && b[i] == t;
            assert(energized(cells, start, b[i].0 as int, b[i].1 as int));
            assert(a.contains((t.0 as int as usize, t.1 as int as usize)));
        }
    }
    assert(a.to_set() =~= b.to_set());
}

/// The beam enters at an edge, into one of the first `columns` columns
/// from above or below, or into one of the first `rows` rows from a
/// side.
pub open spec fn tried(cells: Seq<Seq<u8>>, s: Beam, columns: int, rows: int) -> bool {
    enters_at_edge(cells, s) && (if s.dir == Dir::Down || s.dir == Dir::Up {
        s.x < columns
    } else {
        s.y < rows
    })
}

/// No beam tried energizes more tiles than `best` lists, and `best` lists
/// the tiles of one of them unless it is empty.
pub open spec fn is_best(cells: Seq<Seq<u8>>, best: Seq<(usize, usize)>, columns: int, rows: int) -> bool {
    &&& best.no_duplicates()
    &&& best.len() == 0 || exists|s: Beam|
        tried(cells, s, columns, rows) && #[trigger] lights(cells, s, best)
    &&& forall|s: Beam, tiles: Seq<(usize, usize)>|
        tried(cells, s, columns, rows) && #[trigger] lights(cells, s, tiles) ==> tiles.len()
            <= best.len()
}

/// The length of the first row, or zero if there is none.
pub open spec fn first_width(cells: Seq<Seq<u8>>) -> int {
    if cells.len() == 0 {
        0
    } else {
        cells[0].len() as int
    }
}

/// The tiles passed by the beam that energizes most, among the beams that
/// enter the grid at an edge tile straight from outside.
pub fn bfs_all_positions(map: &Vec<Vec<u8>>) -> (tiles: Vec<(usize, usize)>)
    requires
        markable(map@),
    ensures
        tiles@.no_duplicates(),
        tiles@.len() == 0 || exists|s: Beam|
            enters_at_edge(views(map@), s) && #[trigger] lights(views(map@), s, tiles@),
        forall|s: Beam, other: Seq<(usize, usize)>|
            enters_at_edge(views(map@), s) && #[trigger] lights(views(map@), s, other)
                ==> other.len() <= tiles@.len(),
{
    let ghost cells = views(map@);
    let height = map.len();
    let width = if height == 0 {
        0
    } else {
        map[0].len()
    };
    proof {
        if height > 0 {
            assert(views(map@)[0] == map@[0]@);
        }
    }
    let mut best: Vec<(usize, usize)> = Vec::new();
    let mut x: usize = 0;
    while x < width
        invariant
            markable(map@),
            cells == views(map@),
            height == cells.len(),
            width == first_width(cells),
            x <= width,
            is_best(cells, best@, x as int, 0),
        decreases width - x,
    {
        let ghost before = best@;
        let down = bfs(map, (x, 0), Dir::Down);
        let up = bfs(map, (x, height.wrapping_sub(1)), Dir::Up);
        let ghost down_start = beam_of(((x, 0usize), Dir::Down));
        let ghost up_start = beam_of(((x, height.wrapping_sub(1)), Dir::Up));
        let ghost down_tiles = down@;
        let ghost up_tiles = up@;
        if down.len() > best.len() {
            best = down;
        }
        if up.len() > best.len() {
            best = up;
        }
        proof {
            assert(tried(cells, down_start, x + 1, 0));
            assert(tried(cells, up_start, x + 1, 0));
            assert forall|s: Beam, tiles: Seq<(usize, usize)>|
                tried(cells, s, x + 1, 0) && #[trigger] lights(cells, s, tiles) implies tiles.len()
                <= best@.len() by {
                if tried(cells, s, x as int, 0) {
                    assert(tiles.len() <= before.len());
                } else if s.dir == Dir::Down {
                    assert(s == down_start);
                    lemma_lights_len(cells, s, tiles, down_tiles);
                } else {
                    assert(s == up_start);
                    lemma_lights_len(cells, s, tiles, up_tiles);
                }
            }
            if best@.len() > 0 {
                if best@ == before {
                    let s = choose|s: Beam|
                        tried(cells, s, x as int, 0) && #[trigger] lights(cells, s, before);
                    assert(tried(cells, s, x + 1, 0) && lights(cells, s, best@));
                } else if best@ == down_tiles {
                    assert(tried(cells, down_start, x + 1, 0) && lights(cells, down_start, best@));
                } else {
                    assert(tried(cells, up_start, x + 1, 0) && lights(cells, up_start, best@));
                }
            }
        }
        x += 1;
    }
    let mut y: usize = 0;
    while y < height
        invariant
            markable(map@),
            cells == views(map@),
            height == cells.len(),
            width == first_width(cells),
            y <= height,
            is_best(cells, best@, width as int, y as int),
        decreases height - y,
    {
        let ghost before = best@;
        let right = bfs(map, (0, y), Dir::Right);
        let left = bfs(map, (width.wrapping_sub(1), y), Dir::Left);
        let ghost right_start = beam_of(((0usize, y), Dir::Right));
        let ghost left_start = beam_of(((width.wrapping_sub(1), y), Dir::Left));
        let ghost right_tiles = right@;
        let ghost left_tiles = left@;
        if right.len() > best.len() {
            best = right;
        }
        if left.len() > best.len() {
            best = left;
        }
        proof {
            assert(tried(cells, right_start, width as int, y + 1));
            assert(tried(cells, left_start, width as int, y + 1));
            assert forall|s: Beam, tiles: Seq<(usize, usize)>|
                tried(cells, s, width as int, y + 1) && #[trigger] lights(
                    cells,
                    s,
                    tiles,
                ) implies tiles.len() <= best@.len() by {
                if tried(cells, s, width as int, y as int) {
                    assert(tiles.len() <= before.len());
                } else if s.dir == Dir::Right {
                    assert(s == right_start);
                    lemma_lights_len(cells, s, tiles, right_tiles);
                } else {
                    assert(s == left_start);
                    lemma_lights_len(cells, s, tiles, left_tiles);
                }
            }
            if best@.len() > 0 {
                if best@ == before {
                    let s = choose|s: Beam|
                        tried(cells, s, width as int, y as int) && #[trigger] lights(
                            cells,
                            s,
                            before,
                        );
                    assert(tried(cells, s, width as int, y + 1) && lights(cells, s, best@));
                } else if best@ == right_tiles {
                    assert(tried(cells, right_start, width as int, y + 1) && lights(
                        cells,
                        right_start,
                        best@,
                    ));
                } else {
                    assert(tried(cells, left_start, width as int, y + 1) && lights(
                        cells,
                        left_start,
                        best@,
                    ));
                }
            }
        }
        y += 1;
    }
    proof {
        assert forall|s: Beam| enters_at_edge(cells, s) implies tried(
            cells,
            s,
            width as int,
            height as int,
        ) by {}
        if best@.len() > 0 {
            let s = choose|s: Beam|
                tried(cells, s, width as int, height as int) && #[trigger] lights(cells, s, best@);
            assert(enters_at_edge(cells, s) && lights(cells, s, best@));
        }
    }
    best
}

/// Four marks fit for every tile of every row.
pub open spec fn rows_markable(cells: Seq<Seq<u8>>) -> bool {
    forall|y: int| 0 <= y < cells.len() ==> (#[trigger] cells[y]).len() * 4 <= usize::MAX
}

/// The number of tiles energized by the beam that enters at the top left
/// towards the right. `None` if a row is too long to be marked.
pub fn get_solution_1(input: &str) -> (r: Option<usize>)
    ensures
        match r {
            Some(n) => exists|tiles: Seq<(usize, usize)>| #[trigger]
                lights(
                    lines(input.spec_bytes()),
                    Beam { x: 0, y: 0, dir: Dir::Right },
                    tiles,
                ) && n == tiles.len(),
            None => !rows_markable(lines(input.spec_bytes())),
        },
{
    let map = parse_input(input);
    proof {
        if markable(map@) {
            assert forall|y: int| 0 <= y < views(map@).len() implies (#[trigger] views(
                map@,
            )[y]).len() * 4 <= usize::MAX by {
                assert(map@[y]@.len() * 4 <= usize::MAX);
            }
        }
        if rows_markable(views(map@)) {
            assert forall|y: int| 0 <= y < map@.len() implies (#[trigger] map@[y])@.len() * 4
                <= usize::MAX by {
                assert(views(map@)[y].len() * 4 <= usize::MAX);
            }
        }
    }
    if !is_markable(&map) {
        return None;
    }
    let tiles = bfs(&map, (0, 0), Dir::Right);
    Some(tiles.len())
}

/// The greatest number of tiles that a beam from an edge energizes.
/// `None` if a row is too long to be marked.
pub fn get_solution_2(input: &str) -> (r: Option<usize>)
    ensures
        match r {
            Some(n) => (n == 0 || exists|s: Beam, tiles: Seq<(usize, usize)>|
                enters_at_edge(lines(input.spec_bytes()), s) && #[trigger] lights(
                    lines(input.spec_bytes()),
                    s,
                    tiles,
                ) && n == tiles.len()) && forall|s: Beam, other: Seq<(usize, usize)>|
                enters_at_edge(lines(input.spec_bytes()), s) && #[trigger] lights(
                    lines(input.spec_bytes()),
                    s,
                    other,
                ) ==> other.len() <= n,
            None => !rows_markable(lines(input.spec_bytes())),
        },
{
    let map = parse_input(input);
    proof {
        if markable(map@) {
            assert forall|y: int| 0 <= y < views(map@).len() implies (#[trigger] views(
                map@,
            )[y]).len() * 4 <= usize::MAX by {
                assert(map@[y]@.len() * 4 <= usize::MAX);
            }
        }
        if rows_markable(views(map@)) {
            assert forall|y: int| 0 <= y < map@.len() implies (#[trigger] map@[y])@.len() * 4
                <= usize::MAX by {
                assert(views(map@)[y].len() * 4 <= usize::MAX);
            }
        }
    }
    if !is_markable(&map) {
        return None;
    }
    let best = bfs_all_positions(&map);
    proof {
        if best@.len() > 0 {
            let s = choose|s: Beam|
                enters_at_edge(views(map@), s) && #[trigger] lights(views(map@), s, best@);
            assert(enters_at_edge(lines(input.spec_bytes()), s) && lights(
                lines(input.spec_bytes()),
                s,
                best@,
            ) && best@.len() == best@.len());
        }
    }
    Some(best.len())
}

} // verus!
