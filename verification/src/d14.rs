//! Round rocks roll on a tilted platform until a cube rock or another
//! rock stops them; part two spins the platform a thousand million times.

use vstd::prelude::*;
use vstd::string::StringSliceAdditionalSpecFns;
use crate::util::Rotate;
use crate::text::{views, lines, split_lines, copy_range, same_bytes};
use crate::util::{rectangular, is_rectangular, turn, lemma_quarter_turn, width_of};

verus! {

/// The number of spin cycles of part two.
pub const N_CYCLES: usize = 1000000000;

/// Where a rock that rolls up the column `col` comes to rest: below the
/// lowest cell that is not empty, or at the top.
pub open spec fn landing(col: Seq<u8>) -> int
    decreases col.len(),
{
    if col.len() == 0 {
        0
    } else if col.last() != 46u8 {
        col.len() as int
    } else {
        landing(col.drop_last())
    }
}

/// The first `k` cells of the column `col` after its round rocks have
/// rolled up, one after the other from the top.
pub open spec fn tilted(col: Seq<u8>, k: nat) -> Seq<u8>
    decreases k,
{
    if k == 0 {
        Seq::empty()
    } else {
        let above = tilted(col, (k - 1) as nat);
        if col[k - 1] == 79u8 {
            above.push(46u8).update(landing(above), 79u8)
        } else {
            above.push(col[k - 1])
        }
    }
}

/// Column `c` of a grid, from the top down.
pub open spec fn column(cells: Seq<Seq<u8>>, c: int) -> Seq<u8> {
    Seq::new(cells.len(), |r: int| cells[r][c])
}

/// The grid after every round rock has rolled up as far as it can.
pub open spec fn tilt_spec(cells: Seq<Seq<u8>>) -> Seq<Seq<u8>> {
    Seq::new(
        cells.len(),
        |r: int| Seq::new(cells[0].len(), |c: int| tilted(column(cells, c), cells.len())[r]),
    )
}

/// The grid after one spin cycle: four times a tilt and a quarter turn.
pub open spec fn cycle_spec(cells: Seq<Seq<u8>>) -> Seq<Seq<u8>> {
    turn(tilt_spec(turn(tilt_spec(turn(tilt_spec(turn(tilt_spec(cells))))))))
}

/// The grid after `n` spin cycles.
pub open spec fn cycles_spec(cells: Seq<Seq<u8>>, n: nat) -> Seq<Seq<u8>>
    decreases n,
{
    if n == 0 {
        cells
    } else {
        cycle_spec(cycles_spec(cells, (n - 1) as nat))
    }
}

/// How many of the first `k` cells of `row` hold a round rock.
pub open spec fn rocks_in(row: Seq<u8>, k: nat) -> nat
    decreases k,
{
    if k == 0 {
        0
    } else {
        rocks_in(row, (k - 1) as nat) + if row[k - 1] == 79u8 {
            1nat
        } else {
            0nat
        }
    }
}

/// The load of the first `k` rows: each round rock counts the number of
/// rows from its own down to the last.
pub open spec fn load_of(cells: Seq<Seq<u8>>, k: nat) -> nat
    decreases k,
{
    if k == 0 {
        0
    } else {
        load_of(cells, (k - 1) as nat) + rocks_in(cells[k - 1], cells[k - 1].len()) * (cells.len()
            - (k - 1)) as nat
    }
}

/// A grid of at least one row, all rows equally long.
pub open spec fn platform(grid: Seq<Vec<u8>>) -> bool {
    grid.len() > 0 && rectangular(grid)
}

/// A tilted column is as long as the part that was tilted, and a rock
/// lands within it.
pub proof fn lemma_tilted_len(col: Seq<u8>, k: nat)
    ensures
        tilted(col, k).len() == k,
    decreases k,
{
    if k > 0 {
        lemma_tilted_len(col, (k - 1) as nat);
        lemma_landing_within(tilted(col, (k - 1) as nat));
    }
}

/// A rock lands at or above the end of the column, and every cell from
/// where it lands to the end is empty.
pub proof fn lemma_landing_within(col: Seq<u8>)
    ensures
        0 <= landing(col) <= col.len(),
        forall|q: int| landing(col) <= q < col.len() ==> col[q] == 46u8,
        landing(col) > 0 ==> col[landing(col) - 1] != 46u8,
    decreases col.len(),
{
    if col.len() > 0 && col.last() == 46u8 {
        lemma_landing_within(col.drop_last());
        assert forall|q: int| landing(col) <= q < col.len() implies col[q] == 46u8 by {
            if q < col.len() - 1 {
                assert(col.drop_last()[q] == col[q]);
            }
        }
        if landing(col) > 0 {
            assert(col.drop_last()[landing(col) - 1] == col[landing(col) - 1]);
        }
    }
}

/// The position where a rock lands does not depend on the empty cells
/// below it.
pub proof fn lemma_landing_found(col: Seq<u8>, p: int)
    requires
        0 <= p <= col.len(),
        forall|q: int| p <= q < col.len() ==> col[q] == 46u8,
        p > 0 ==> col[p - 1] != 46u8,
    ensures
        landing(col) == p,
    decreases col.len(),
{
    if col.len() > 0 && col.last() == 46u8 {
        if p == col.len() {
            assert(col[p - 1] == 46u8);
        }
        assert forall|q: int| p <= q < col.drop_last().len() implies col.drop_last()[q] == 46u8 by {
            assert(col.drop_last()[q] == col[q]);
        }
        if p > 0 {
            assert(col.drop_last()[p - 1] == col[p - 1]);
        }
        lemma_landing_found(col.drop_last(), p);
    } else if col.len() > 0 {
        if p < col.len() {
            assert(col[col.len() - 1] == 46u8);
        }
    }
}

/// The lines of `input` as rows of a grid.
pub fn parse_input(input: &str) -> (grid: Vec<Vec<u8>>)
    ensures
        views(grid@) == lines(input.spec_bytes()),
{
    split_lines(input.as_bytes())
}

/// A copy of `grid`.
pub fn copy_grid(grid: &Vec<Vec<u8>>) -> (copy: Vec<Vec<u8>>)
    ensures
        views(copy@) == views(grid@),
        rectangular(grid@) ==> rectangular(copy@),
{
    let mut copy: Vec<Vec<u8>> = Vec::new();
    let mut r: usize = 0;
    while r < grid.len()
        invariant
            r <= grid@.len(),
            copy@.len() == r,
            forall|q: int| 0 <= q < r ==> (#[trigger] copy@[q])@ == grid@[q]@,
        decreases grid@.len() - r,
    {
        let row = copy_range(grid[r].as_slice(), 0, grid[r].len());
        assert(row@ =~= grid@[r as int]@);
        copy.push(row);
        r += 1;
    }
    assert(views(copy@) =~= views(grid@));
    assert(rectangular(grid@) ==> rectangular(copy@)) by {
        if rectangular(grid@) {
            assert forall|i: int| 0 <= i < copy@.len() implies (#[trigger] copy@[i])@.len()
                == width_of(copy@) by {
                assert(copy@[i]@ == grid@[i]@);
                assert(copy@[0]@ == grid@[0]@);
                assert(grid@[i]@.len() == width_of(grid@));
            }
        }
    }
    copy
}

/// Whether two grids hold the same cells.
pub fn same_grid(a: &Vec<Vec<u8>>, b: &Vec<Vec<u8>>) -> (r: bool)
    ensures
        r == (views(a@) == views(b@)),
{
    if a.len() != b.len() {
        return false;
    }
    let mut i: usize = 0;
    while i < a.len()
        invariant
            a@.len() == b@.len(),
            i <= a@.len(),
            forall|q: int| 0 <= q < i ==> (#[trigger] a@[q])@ == b@[q]@,
        decreases a@.len() - i,
    {
        if !same_bytes(a[i].as_slice(), b[i].as_slice()) {
            assert(views(a@)[i as int] != views(b@)[i as int]);
            return false;
        }
        i += 1;
    }
    assert(views(a@) =~= views(b@));
    true
}

/// Lets every round rock roll up until a cell that is not empty stops it.
pub fn tilt_up(grid: Vec<Vec<u8>>) -> (tilted_grid: Vec<Vec<u8>>)
    requires
        platform(grid@),
    ensures
        views(tilted_grid@) == tilt_spec(views(grid@)),
        platform(tilted_grid@),
        tilted_grid@.len() == grid@.len(),
        width_of(tilted_grid@) == width_of(grid@),
{
    let height = grid.len();
    let width = grid[0].len();
    let ghost cells = views(grid@);
    let mut new_grid: Vec<Vec<u8>> = Vec::new();
    let mut r: usize = 0;
    while r < height
        invariant
            platform(grid@),
            cells == views(grid@),
            height == grid@.len(),
            width == width_of(grid@),
            r <= height,
            new_grid@.len() == r,
            forall|q: int| 0 <= q < r ==> (#[trigger] new_grid@[q])@.len() == width,
            forall|q: int, c: int|
                0 <= q < r && 0 <= c < width ==> (#[trigger] new_grid@[q]@[c]) == tilted(
                    column(cells, c),
                    r as nat,
                )[q],
        decreases height - r,
    {
        let mut row: Vec<u8> = Vec::new();
        let mut c: usize = 0;
        assert(grid@[r as int]@.len() == width);
        while c < width
            invariant
                platform(grid@),
                cells == views(grid@),
                height == grid@.len(),
                width == width_of(grid@),
                r < height,
                c <= width,
                row@.len() == c,
                new_grid@.len() == r,
                forall|q: int| 0 <= q < r ==> (#[trigger] new_grid@[q])@.len() == width,
                forall|q: int, x: int|
                    0 <= q < r && 0 <= x < c ==> (#[trigger] new_grid@[q]@[x]) == tilted(
                        column(cells, x),
                        (r + 1) as nat,
                    )[q],
                forall|x: int|
                    0 <= x < c ==> (#[trigger] row@[x]) == tilted(column(cells, x), (r + 1) as nat)[r as int],
                forall|q: int, x: int|
                    0 <= q < r && c <= x < width ==> (#[trigger] new_grid@[q]@[x]) == tilted(
                        column(cells, x),
                        r as nat,
                    )[q],
            decreases width - c,
        {
            let cell = grid[r][c];
            let ghost col = column(cells, c as int);
            let ghost above = tilted(col, r as nat);
            proof {
                lemma_tilted_len(col, r as nat);
                lemma_tilted_len(col, (r + 1) as nat);
                lemma_landing_within(above);
                assert(col[r as int] == cell);
            }
            if cell != 79u8 {
                row.push(cell);
            } else {
                let mut k: usize = r;
                while k > 0 && new_grid[k - 1][c] == 46u8
                    invariant
                        k <= r,
                        c < width,
                        new_grid@.len() == r,
                        above.len() == r,
                        forall|q: int| 0 <= q < r ==> (#[trigger] new_grid@[q])@.len() == width,
                        forall|q: int| 0 <= q < r ==> new_grid@[q]@[c as int] == above[q],
                        forall|q: int| k <= q < r ==> above[q] == 46u8,
                    decreases k,
                {
                    k -= 1;
                }
                proof {
                    lemma_landing_found(above, k as int);
                }
                if k == r {
                    row.push(79u8);
                } else {
                    row.push(46u8);
                    let ghost before = new_grid@;
                    let mut target = new_grid.remove(k);
                    target[c] = 79u8;
                    new_grid.insert(k, target);
                    assert(new_grid@.len() == r);
                    assert forall|q: int| 0 <= q < r implies (#[trigger] new_grid@[q])@.len()
                        == width by {
                        assert(before[q]@.len() == width);
                    }
                    assert forall|q: int, x: int| 0 <= q < r && 0 <= x < width implies (
                    #[trigger] new_grid@[q]@[x]) == if q == k && x == c {
                        79u8
                    } else {
                        before[q]@[x]
                    } by {
                        assert(before[q]@.len() == width);
                    }
                }
            }
            c += 1;
        }
        new_grid.push(row);
        r += 1;
    }
    proof {
        let out = views(new_grid@);
        let want = tilt_spec(cells);
        assert(cells[0].len() == width);
        assert(out.len() == want.len());
        assert forall|q: int| 0 <= q < out.len() implies out[q] == want[q] by {
            assert(new_grid@[q]@.len() == width);
            assert forall|x: int| 0 <= x < width implies out[q][x] == want[q][x] by {
                assert(new_grid@[q]@[x] == tilted(column(cells, x), height as nat)[q]);
            }
            assert(out[q] =~= want[q]);
        }
        assert(out =~= want);
    }
    new_grid
}

/// One spin cycle: the platform is tilted and turned by a quarter, four
/// times.
pub fn do_cycle(grid: Vec<Vec<u8>>) -> (spun: Vec<Vec<u8>>)
    requires
        platform(grid@),
        width_of(grid@) > 0,
    ensures
        views(spun@) == cycle_spec(views(grid@)),
        platform(spun@),
        width_of(spun@) > 0,
        spun@.len() == grid@.len(),
        width_of(spun@) == width_of(grid@),
{
    let mut grid = grid;
    let ghost first = views(grid@);
    grid = tilt_up(grid);
    let north = grid.rotate();
    proof {
        lemma_quarter_turn(grid@, north@);
        lemma_turn_shape(grid@, north@);
    }
    grid = tilt_up(north);
    let west = grid.rotate();
    proof {
        lemma_quarter_turn(grid@, west@);
        lemma_turn_shape(grid@, west@);
    }
    grid = tilt_up(west);
    let south = grid.rotate();
    proof {
        lemma_quarter_turn(grid@, south@);
        lemma_turn_shape(grid@, south@);
    }
    grid = tilt_up(south);
    let east = grid.rotate();
    proof {
        lemma_quarter_turn(grid@, east@);
        lemma_turn_shape(grid@, east@);
    }
    east
}

/// A quarter turn swaps the height and the width of a platform.
pub proof fn lemma_turn_shape(grid: Seq<Vec<u8>>, turned: Seq<Vec<u8>>)
    requires
        platform(grid),
        width_of(grid) > 0,
        crate::util::quarter_turn(grid, turned),
    ensures
        platform(turned),
        turned.len() == width_of(grid),
        width_of(turned) == grid.len(),
{
    assert(turned[0]@.len() == grid.len());
    assert forall|i: int| 0 <= i < turned.len() implies (#[trigger] turned[i])@.len() == width_of(
        turned,
    ) by {}
}

/// The number of round rocks in `row`.
fn count_rocks(row: &Vec<u8>) -> (n: usize)
    ensures
        n == rocks_in(row@, row@.len()),
{
    let mut n: usize = 0;
    let mut k: usize = 0;
    while k < row.len()
        invariant
            k <= row@.len(),
            n == rocks_in(row@, k as nat),
            n <= k,
        decreases row@.len() - k,
    {
        if row[k] == 79u8 {
            n += 1;
        }
        k += 1;
    }
    n
}

/// The load of more rows is not less.
pub proof fn lemma_load_grows(cells: Seq<Seq<u8>>, j: nat, k: nat)
    requires
        j <= k <= cells.len(),
    ensures
        load_of(cells, j) <= load_of(cells, k),
    decreases k,
{
    if j < k {
        lemma_load_grows(cells, j, (k - 1) as nat);
    }
}

/// The total load on the upper edge: every round rock counts the number
/// of rows from its own down to the last. `None` if the sum does not fit
/// the machine word.
pub fn get_total_load(grid: &Vec<Vec<u8>>) -> (r: Option<usize>)
    ensures
        match r {
            Some(load) => load == load_of(views(grid@), grid@.len()),
            None => load_of(views(grid@), grid@.len()) > usize::MAX,
        },
{
    let height = grid.len();
    let mut load: usize = 0;
    let mut k: usize = 0;
    while k < height
        invariant
            height == grid@.len(),
            k <= height,
            load == load_of(views(grid@), k as nat),
        decreases height - k,
    {
        proof {
            lemma_load_grows(views(grid@), (k + 1) as nat, height as nat);
        }
        let rocks = count_rocks(&grid[k]);
        let part = match rocks.checked_mul(height - k) {
            Some(part) => part,
            None => {
                return None;
            },
        };
        load = match load.checked_add(part) {
            Some(load) => load,
            None => {
                return None;
            },
        };
        k += 1;
    }
    Some(load)
}

/// Spinning `n` more cycles after `m` is spinning `m + n` cycles.
pub proof fn lemma_cycles_add(cells: Seq<Seq<u8>>, m: nat, n: nat)
    ensures
        cycles_spec(cycles_spec(cells, m), n) == cycles_spec(cells, m + n),
    decreases n,
{
    if n > 0 {
        lemma_cycles_add(cells, m, (n - 1) as nat);
    }
}

/// Once the grid after `i` cycles is the grid after `start` cycles, the
/// grids repeat with period `i - start`: whole periods can be left out.
pub proof fn lemma_cycles_repeat(cells: Seq<Seq<u8>>, start: nat, i: nat, periods: nat, rest: nat)
    requires
        start < i,
        cycles_spec(cells, i) == cycles_spec(cells, start),
    ensures
        cycles_spec(cells, (i + periods * (i - start) + rest) as nat) == cycles_spec(cells, i + rest),
    decreases periods,
{
    let p = (i - start) as nat;
    if periods > 0 {
        lemma_cycles_repeat(cells, start, i, (periods - 1) as nat, rest);
        let shorter = ((periods - 1) * p + rest) as nat;
        assert(periods * p == (periods - 1) * p + p) by (nonlinear_arith);
        assert((periods - 1) * p >= 0) by (nonlinear_arith)
            requires
                periods >= 1,
                p >= 0,
        ;
        // i + periods * p + rest == start + p + (periods - 1) * p + rest + p
        lemma_cycles_add(cells, i, shorter);
        lemma_cycles_add(cells, start, shorter);
        assert(cycles_spec(cells, i + shorter) == cycles_spec(cells, start + shorter));
        assert(start + shorter + p == i + shorter);
        lemma_cycles_add(cells, start + shorter, p);
        lemma_cycles_add(cells, i + shorter, p);
        assert(i + shorter + p == i + periods * p + rest);
        assert(start + shorter + p == i + (periods - 1) * p + rest);
    } else {
        assert(periods * (i - start) == 0) by (nonlinear_arith)
            requires
                periods == 0,
        ;
    }
}

/// The load after a thousand million spin cycles. The grids are compared
/// with all earlier ones; as soon as one returns, the cycles that only
/// repeat it are left out.
pub fn find_repetition(grid: Vec<Vec<u8>>) -> (r: Option<usize>)
    requires
        platform(grid@),
        width_of(grid@) > 0,
    ensures
        match r {
            Some(load) => load == load_of(
                cycles_spec(views(grid@), N_CYCLES as nat),
                grid@.len(),
            ),
            None => load_of(cycles_spec(views(grid@), N_CYCLES as nat), grid@.len())
                > usize::MAX,
        },
{
    let ghost first = views(grid@);
    let height = grid.len();
    let mut seen: Vec<Vec<Vec<u8>>> = Vec::new();
    seen.push(copy_grid(&grid));
    let mut current = grid;
    let mut i: usize = 0;
    while i < N_CYCLES
        invariant
            first == views(grid@),
            height == grid@.len(),
            platform(current@),
            width_of(current@) > 0,
            current@.len() == height,
            i <= N_CYCLES,
            views(current@) == cycles_spec(first, i as nat),
            seen@.len() == i + 1,
            forall|s: int| 0 <= s <= i ==> views((#[trigger] seen@[s])@) == cycles_spec(first, s as nat),
        decreases N_CYCLES - i,
    {
        current = do_cycle(current);
        i += 1;
        let mut start: usize = 0;
        while start < i
            invariant
                first == views(grid@),
                height == grid@.len(),
                platform(current@),
                width_of(current@) > 0,
                current@.len() == height,
                1 <= i <= N_CYCLES,
                start <= i,
                views(current@) == cycles_spec(first, i as nat),
                seen@.len() == i,
                forall|s: int|
                    0 <= s < i ==> views((#[trigger] seen@[s])@) == cycles_spec(first, s as nat),
            decreases i - start,
        {
            if same_grid(&seen[start], &current) {
                let period = i - start;
                let j = (N_CYCLES - i) % period;
                let ghost periods = ((N_CYCLES - i) / (period as int)) as nat;
                proof {
                    assert(N_CYCLES - i == periods * period + j) by (nonlinear_arith)
                        requires
                            period > 0,
                            N_CYCLES - i >= 0,
                            periods == (N_CYCLES - i) / (period as int),
                            j == (N_CYCLES - i) % (period as int),
                    ;
                    lemma_cycles_repeat(first, start as nat, i as nat, periods, j as nat);
                    assert(i + periods * (i - start) + j == N_CYCLES);
                    assert(cycles_spec(first, (i + j) as nat) == cycles_spec(first, N_CYCLES as nat));
                }
                let mut done: usize = 0;
                while done < j
                    invariant
                        first == views(grid@),
                        height == grid@.len(),
                        platform(current@),
                        width_of(current@) > 0,
                        current@.len() == height,
                        done <= j,
                        i + j <= N_CYCLES,
                        cycles_spec(first, (i + j) as nat) == cycles_spec(first, N_CYCLES as nat),
                        views(current@) == cycles_spec(first, (i + done) as nat),
                    decreases j - done,
                {
                    current = do_cycle(current);
                    done += 1;
                }
                return get_total_load(&current);
            }
            start += 1;
        }
        seen.push(copy_grid(&current));
    }
    get_total_load(&current)
}

/// The rows are a rectangle of at least one row.
pub open spec fn is_platform(cells: Seq<Seq<u8>>) -> bool {
    cells.len() > 0 && forall|i: int| 0 <= i < cells.len() ==> (#[trigger] cells[i]).len()
        == cells[0].len()
}

/// A grid is a platform exactly if its rows are.
pub proof fn lemma_platform_rows(grid: Seq<Vec<u8>>)
    ensures
        platform(grid) == is_platform(views(grid)),
{
    if platform(grid) {
        assert forall|i: int| 0 <= i < views(grid).len() implies (#[trigger] views(grid)[i]).len()
            == views(grid)[0].len() by {
            assert(grid[i]@.len() == width_of(grid));
            assert(grid[0]@.len() == width_of(grid));
        }
    }
    if is_platform(views(grid)) {
        assert forall|i: int| 0 <= i < grid.len() implies (#[trigger] grid[i])@.len() == width_of(
            grid,
        ) by {
            assert(views(grid)[i].len() == views(grid)[0].len());
        }
    }
}

/// The load after the platform was tilted once. `None` if the text is not
/// a rectangle of at least one row, or the load does not fit the machine
/// word.
pub fn get_solution_1(input: &str) -> (r: Option<usize>)
    ensures
        match r {
            Some(load) => is_platform(lines(input.spec_bytes())) && load == load_of(
                tilt_spec(lines(input.spec_bytes())),
                lines(input.spec_bytes()).len(),
            ),
            None => !is_platform(lines(input.spec_bytes())) || load_of(
                tilt_spec(lines(input.spec_bytes())),
                lines(input.spec_bytes()).len(),
            ) > usize::MAX,
        },
{
    let grid = parse_input(input);
    proof {
        lemma_platform_rows(grid@);
    }
    if grid.len() == 0 || !is_rectangular(&grid) {
        return None;
    }
    get_total_load(&tilt_up(grid))
}

/// The load after a thousand million spin cycles. `None` if the text is
/// not a rectangle of at least one row and one column, or the load does
/// not fit the machine word.
pub fn get_solution_2(input: &str) -> (r: Option<usize>)
    ensures
        match r {
            Some(load) => is_platform(lines(input.spec_bytes())) && lines(
                input.spec_bytes(),
            )[0].len() > 0 && load == load_of(
                cycles_spec(lines(input.spec_bytes()), N_CYCLES as nat),
                lines(input.spec_bytes()).len(),
            ),
            None => !is_platform(lines(input.spec_bytes())) || lines(input.spec_bytes())[0].len()
                == 0 || load_of(
                cycles_spec(lines(input.spec_bytes()), N_CYCLES as nat),
                lines(input.spec_bytes()).len(),
            ) > usize::MAX,
        },
{
    let grid = parse_input(input);
    proof {
        lemma_platform_rows(grid@);
    }
    if grid.len() == 0 || !is_rectangular(&grid) || grid[0].len() == 0 {
        return None;
    }
    assert(views(grid@)[0] == grid@[0]@);
    find_repetition(grid)
}

} // verus!
