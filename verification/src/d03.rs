//! An engine schematic: numbers next to a symbol are part numbers, and a
//! `*` next to exactly two numbers is a gear.

use vstd::prelude::*;
use vstd::string::StringSliceAdditionalSpecFns;
use crate::text::{split_lines, views, lines};
use crate::util::{rectangular, width_of};

verus! {

/// There is a row, the rows are all as long as the first, and with two
/// more rows and two more columns they stay within the machine word.
pub open spec fn frameable(rows: Seq<Seq<u8>>) -> bool {
    &&& 0 < rows.len() <= usize::MAX - 2
    &&& rows[0].len() <= usize::MAX - 2
    &&& forall|y: int| 0 <= y < rows.len() ==> (#[trigger] rows[y]).len() == rows[0].len()
}

/// The byte at `(y, x)` of the rows with a frame of dots around them.
pub open spec fn framed_at(rows: Seq<Seq<u8>>, y: int, x: int) -> u8 {
    if 1 <= y <= rows.len() && 1 <= x <= rows[0].len() {
        rows[y - 1][x - 1]
    } else {
        46u8
    }
}

/// `map` holds the rows with a frame of dots around them.
pub open spec fn is_framed(rows: Seq<Seq<u8>>, map: Seq<Vec<u8>>) -> bool {
    &&& map.len() == rows.len() + 2
    &&& forall|y: int| 0 <= y < map.len() ==> (#[trigger] map[y])@.len() == rows[0].len() + 2
    &&& forall|y: int, x: int|
        0 <= y < map.len() && 0 <= x < rows[0].len() + 2 ==> #[trigger] map[y]@[x] == framed_at(
            rows,
            y,
            x,
        )
}

/// The schematic with a frame of dots around it: a dot before and behind
/// every line, and a line of dots above and below. `None` if the text has
/// no line or its lines differ in length.
pub fn parse_input(input: &str) -> (r: Option<Vec<Vec<u8>>>)
    ensures
        r matches Some(map) ==> rectangular(map@) && map@.len() >= 3 && width_of(map@) >= 2,
        match r {
            Some(map) => frameable(lines(input.spec_bytes())) && is_framed(
                lines(input.spec_bytes()),
                map@,
            ),
            None => !frameable(lines(input.spec_bytes())),
        },
{
    let all = split_lines(input.as_bytes());
    let ghost rows = lines(input.spec_bytes());
    if all.len() == 0 || all.len() > usize::MAX - 2 {
        return None;
    }
    assert(rows[0] == all@[0]@);
    let inner = all[0].len();
    if inner > usize::MAX - 2 {
        return None;
    }
    let width = inner + 2;
    let mut map: Vec<Vec<u8>> = Vec::new();
    map.push(dots(width));
    let mut y: usize = 0;
    while y < all.len()
        invariant
            y <= all@.len(),
            rows == views(all@),
            rows == lines(input.spec_bytes()),
            inner == rows[0].len(),
            0 < rows.len() <= usize::MAX - 2,
            width == inner + 2,
            map@.len() == y + 1,
            forall|r: int| 0 <= r < map@.len() ==> (#[trigger] map@[r])@.len() == width,
            forall|r: int| 0 <= r < y ==> (#[trigger] rows[r]).len() == inner,
            forall|r: int, x: int|
                0 <= r < y + 1 && 0 <= x < width ==> #[trigger] map@[r]@[x] == framed_at(rows, r, x),
        decreases all@.len() - y,
    {
        let line = &all[y];
        assert(rows[y as int] == line@);
        if line.len() != inner {
            return None;
        }
        let mut row: Vec<u8> = Vec::new();
        row.push(46u8);
        let mut x: usize = 0;
        while x < inner
            invariant
                inner == line@.len(),
                x <= inner,
                row@.len() == x + 1,
                row@[0] == 46u8,
                forall|k: int| 1 <= k < x + 1 ==> #[trigger] row@[k] == line@[k - 1],
            decreases inner - x,
        {
            row.push(line[x]);
            x += 1;
        }
        row.push(46u8);
        let ghost before = map@;
        map.push(row);
        assert forall|r: int, x: int| 0 <= r < y + 2 && 0 <= x < width implies #[trigger] map@[r]@[x]
            == framed_at(rows, r, x) by {
            if r < y + 1 {
                assert(map@[r] == before[r]);
            }
        }
        y += 1;
    }
    let ghost before = map@;
    map.push(dots(width));
    assert(map@[0]@.len() == width);
    assert forall|r: int, x: int|
        0 <= r < map@.len() && 0 <= x < rows[0].len() + 2 implies #[trigger] map@[r]@[x]
        == framed_at(rows, r, x) by {
        if r < before.len() {
            assert(map@[r] == before[r]);
        }
    }
    Some(map)
}

/// A row of `n` dots.
fn dots(n: usize) -> (row: Vec<u8>)
    ensures
        row@.len() == n,
        forall|i: int| 0 <= i < n ==> row@[i] == 46u8,
{
    let mut row: Vec<u8> = Vec::new();
    let mut i: usize = 0;
    while i < n
        invariant
            i <= n,
            row@.len() == i,
            forall|k: int| 0 <= k < i ==> row@[k] == 46u8,
        decreases n - i,
    {
        row.push(46u8);
        i += 1;
    }
    row
}

/// `b` is a decimal digit.
pub open spec fn is_digit(b: u8) -> bool {
    48 <= b <= 57
}

/// The number of digits of `row` in a row from column `col` on.
pub open spec fn num_width(row: Seq<u8>, col: int) -> nat
    decreases row.len() - col,
{
    if 0 <= col < row.len() && is_digit(row[col]) {
        1 + num_width(row, col + 1)
    } else {
        0
    }
}

/// The number of digits in a row that begin at `(row, col)`.
pub fn get_num_width(row: usize, col: usize, map: &Vec<Vec<u8>>) -> (width: usize)
    requires
        rectangular(map@),
        row < map@.len(),
    ensures
        width == num_width(map@[row as int]@, col as int),
        col + width <= usize::MAX,
        width > 0 ==> col + width <= map@[row as int]@.len(),
{
    let len = map[0].len();
    assert(map@[row as int]@.len() == len);
    let mut width: usize = 0;
    let mut cc: usize = col;
    while cc < len && map[row][cc] >= 48 && map[row][cc] <= 57
        invariant
            len == map@[row as int]@.len(),
            row < map@.len(),
            cc == col + width,
            width > 0 ==> cc <= len,
            num_width(map@[row as int]@, col as int) == width + num_width(
                map@[row as int]@,
                cc as int,
            ),
        decreases len - cc,
    {
        width += 1;
        cc += 1;
    }
    width
}

/// The places around a number of `width` digits at `(row, col)`: the row
/// above from one column before to one behind, the places before and
/// behind the number, and the row below.
pub open spec fn around(row: int, col: int, width: int) -> Seq<(usize, usize)> {
    Seq::new((width + 2) as nat, |i: int| ((row - 1) as usize, (col - 1 + i) as usize)) + seq![
        (row as usize, (col - 1) as usize),
        (row as usize, (col + width) as usize),
    ] + Seq::new((width + 2) as nat, |i: int| ((row + 1) as usize, (col - 1 + i) as usize))
}

/// The places around a number of `width` digits at `(row, col)`.
pub fn get_adjacent(row: usize, col: usize, width: usize) -> (adjacent: Vec<(usize, usize)>)
    requires
        row >= 1,
        col >= 1,
        row < usize::MAX,
        col + width < usize::MAX,
    ensures
        adjacent@ == around(row as int, col as int, width as int),
{
    let mut adjacent: Vec<(usize, usize)> = Vec::new();
    let ghost top = Seq::new((width + 2) as nat, |i: int| ((row - 1) as usize, (col - 1 + i) as usize));
    let ghost bottom = Seq::new(
        (width + 2) as nat,
        |i: int| ((row + 1) as usize, (col - 1 + i) as usize),
    );
    let mut c: usize = col - 1;
    while c < col + width + 1
        invariant
            col >= 1,
            row >= 1,
            col + width < usize::MAX,
            col - 1 <= c <= col + width + 1,
            adjacent@ == top.take(c - (col - 1)),
            top == Seq::new((width + 2) as nat, |i: int| ((row - 1) as usize, (col - 1 + i) as usize)),
        decreases col + width + 1 - c,
    {
        adjacent.push((row - 1, c));
        c += 1;
        assert(adjacent@ =~= top.take(c - (col - 1)));
    }
    assert(adjacent@ =~= top);
    adjacent.push((row, col - 1));
    adjacent.push((row, col + width));
    let ghost middle = adjacent@;
    let mut c: usize = col - 1;
    while c < col + width + 1
        invariant
            col >= 1,
            row < usize::MAX,
            col + width < usize::MAX,
            col - 1 <= c <= col + width + 1,
            adjacent@ == middle + bottom.take(c - (col - 1)),
            bottom == Seq::new(
                (width + 2) as nat,
                |i: int| ((row + 1) as usize, (col - 1 + i) as usize),
            ),
        decreases col + width + 1 - c,
    {
        adjacent.push((row + 1, c));
        c += 1;
        assert(adjacent@ =~= middle + bottom.take(c - (col - 1)));
    }
    assert(adjacent@ =~= around(row as int, col as int, width as int));
    adjacent
}

/// Every place of `places` is a place of the map.
pub open spec fn all_on_map(places: Seq<(usize, usize)>, map: Seq<Vec<u8>>) -> bool {
    forall|i: int|
        0 <= i < places.len() ==> (#[trigger] places[i]).0 < map.len() && places[i].1
            < map[places[i].0 as int]@.len()
}

/// The places around a number inside the frame are places of the map.
pub proof fn lemma_around_on_map(map: Seq<Vec<u8>>, row: int, col: int, width: int)
    requires
        rectangular(map),
        1 <= row < map.len() - 1,
        1 <= col,
        0 <= width,
        col + width < width_of(map),
        map.len() <= usize::MAX,
        width_of(map) <= usize::MAX,
    ensures
        all_on_map(around(row, col, width), map),
{
    let places = around(row, col, width);
    assert forall|i: int| 0 <= i < places.len() implies (#[trigger] places[i]).0 < map.len()
        && places[i].1 < map[places[i].0 as int]@.len() by {
        assert(map[row - 1]@.len() == width_of(map));
        assert(map[row]@.len() == width_of(map));
        assert(map[row + 1]@.len() == width_of(map));
    }
}

/// Whether a place around the number holds anything but a dot.
pub fn has_adjacent(row: usize, col: usize, width: usize, map: &Vec<Vec<u8>>) -> (r: bool)
    requires
        row >= 1,
        col >= 1,
        row < usize::MAX,
        col + width < usize::MAX,
        all_on_map(around(row as int, col as int, width as int), map@),
    ensures
        r == exists|i: int|
            0 <= i < around(row as int, col as int, width as int).len() && map@[(#[trigger] around(
                row as int,
                col as int,
                width as int,
            )[i]).0 as int]@[around(row as int, col as int, width as int)[i].1 as int] != 46u8,
{
    let adjacent = get_adjacent(row, col, width);
    let mut i: usize = 0;
    while i < adjacent.len()
        invariant
            adjacent@ == around(row as int, col as int, width as int),
            all_on_map(adjacent@, map@),
            i <= adjacent@.len(),
            forall|k: int|
                0 <= k < i ==> map@[(#[trigger] adjacent@[k]).0 as int]@[adjacent@[k].1 as int]
                    == 46u8,
        decreases adjacent@.len() - i,
    {
        let (r, c) = adjacent[i];
        if map[r][c] != 46u8 {
            return true;
        }
        i += 1;
    }
    false
}

/// The first of the places from index `k` on that holds a `*`.
pub open spec fn first_star(map: Seq<Vec<u8>>, places: Seq<(usize, usize)>, k: int) -> Option<
    (usize, usize),
>
    decreases places.len() - k,
{
    if k < 0 || k >= places.len() {
        None
    } else if map[places[k].0 as int]@[places[k].1 as int] == 42u8 {
        Some(places[k])
    } else {
        first_star(map, places, k + 1)
    }
}

/// The first of the places that holds a `*`.
pub fn has_gear(adjacent: &Vec<(usize, usize)>, map: &Vec<Vec<u8>>) -> (r: Option<(usize, usize)>)
    requires
        all_on_map(adjacent@, map@),
    ensures
        r == first_star(map@, adjacent@, 0),
        match r {
            Some(place) => exists|i: int|
                0 <= i < adjacent@.len() && #[trigger] adjacent@[i] == place && map@[place.0 as int]@[place.1 as int]
                    == 42u8 && forall|k: int|
                    0 <= k < i ==> map@[(#[trigger] adjacent@[k]).0 as int]@[adjacent@[k].1 as int]
                        != 42u8,
            None => forall|k: int|
                0 <= k < adjacent@.len() ==> map@[(#[trigger] adjacent@[k]).0 as int]@[adjacent@[k].1 as int]
                    != 42u8,
        },
{
    let mut i: usize = 0;
    while i < adjacent.len()
        invariant
            all_on_map(adjacent@, map@),
            i <= adjacent@.len(),
            forall|k: int|
                0 <= k < i ==> map@[(#[trigger] adjacent@[k]).0 as int]@[adjacent@[k].1 as int]
                    != 42u8,
            first_star(map@, adjacent@, 0) == first_star(map@, adjacent@, i as int),
        decreases adjacent@.len() - i,
    {
        let (r, c) = adjacent[i];
        if map[r][c] == 42u8 {
            assert(adjacent@[i as int] == (r, c));
            return Some((r, c));
        }
        i += 1;
    }
    None
}

/// The number that the digits among the first `k` bytes from `start` on
/// write; bytes that are no digits are passed over.
pub open spec fn num_value(row: Seq<u8>, start: int, k: nat) -> nat
    decreases k,
{
    if k == 0 {
        0
    } else if is_digit(row[start + k - 1]) {
        num_value(row, start, (k - 1) as nat) * 10 + (row[start + k - 1] - 48) as nat
    } else {
        num_value(row, start, (k - 1) as nat)
    }
}

/// One of the first `k` bytes from `start` on is a digit.
pub open spec fn any_digit(row: Seq<u8>, start: int, k: nat) -> bool {
    exists|i: int| start <= i < start + k && is_digit(#[trigger] row[i])
}

/// The number that the `width` bytes of `row` from `start` on write.
/// `None` if none of them is a digit, or the number does not fit.
pub fn parse_num(row: &Vec<u8>, start: usize, width: usize) -> (r: Option<u32>)
    requires
        start + width <= row@.len(),
    ensures
        r matches Some(n) ==> any_digit(row@, start as int, width as nat) && n == num_value(
            row@,
            start as int,
            width as nat,
        ),
        r is None ==> !any_digit(row@, start as int, width as nat) || num_value(
            row@,
            start as int,
            width as nat,
        ) > u32::MAX,
{
    let len = row.len();
    let mut acc: u32 = 0;
    let mut seen = false;
    let mut k: usize = 0;
    while k < width
        invariant
            len == row@.len(),
            start + width <= row@.len(),
            k <= width,
            acc == num_value(row@, start as int, k as nat),
            seen == any_digit(row@, start as int, k as nat),
        decreases width - k,
    {
        let c = row[start + k];
        proof {
            lemma_num_value_grows(row@, start as int, (k + 1) as nat, width as nat);
        }
        if 48 <= c && c <= 57 {
            acc = match acc.checked_mul(10) {
                Some(a) => match a.checked_add((c - 48) as u32) {
                    Some(b) => b,
                    None => {
                        return None;
                    },
                },
                None => {
                    return None;
                },
            };
            seen = true;
            assert(is_digit(row@[start + k]));
        } else {
            assert(any_digit(row@, start as int, (k + 1) as nat) == any_digit(
                row@,
                start as int,
                k as nat,
            )) by {
                if any_digit(row@, start as int, (k + 1) as nat) {
                    let i = choose|i: int| start <= i < start + k + 1 && is_digit(#[trigger] row@[i]);
                    assert(i != start + k);
                }
            }
        }
        k += 1;
    }
    if seen {
        Some(acc)
    } else {
        None
    }
}

/// The number that more bytes write is not less.
pub proof fn lemma_num_value_grows(row: Seq<u8>, start: int, j: nat, k: nat)
    requires
        j <= k,
    ensures
        num_value(row, start, j) <= num_value(row, start, k),
    decreases k,
{
    if j < k {
        lemma_num_value_grows(row, start, j, (k - 1) as nat);
    }
}

/// The gears with the numbers next to each, as plain values.
pub open spec fn gear_view(gears: Seq<((usize, usize), Vec<u32>)>) -> Seq<
    ((usize, usize), Seq<u32>),
> {
    Seq::new(gears.len(), |g: int| (gears[g].0, gears[g].1@))
}

/// The index from `k` on of the gear at `place`, or the number of gears.
pub open spec fn gear_index(
    gears: Seq<((usize, usize), Seq<u32>)>,
    place: (usize, usize),
    k: int,
) -> int
    decreases gears.len() - k,
{
    if k < 0 || k >= gears.len() {
        gears.len() as int
    } else if gears[k].0 == place {
        k
    } else {
        gear_index(gears, place, k + 1)
    }
}

/// The gears with `num` entered under the gear at `place`, which comes
/// last if it is new.
pub open spec fn entered(
    gears: Seq<((usize, usize), Seq<u32>)>,
    place: (usize, usize),
    num: u32,
) -> Seq<((usize, usize), Seq<u32>)> {
    let g = gear_index(gears, place, 0);
    if g < gears.len() {
        gears.update(g, (place, gears[g].1.push(num)))
    } else {
        gears.push((place, seq![num]))
    }
}

/// Enters `num` under the gear at `(row, col)`.
pub fn add_gear_num(row: usize, col: usize, num: u32, gears: &mut Vec<((usize, usize), Vec<u32>)>)
    ensures
        final(gears)@.len() >= old(gears)@.len(),
        exists|g: int|
            0 <= g < final(gears)@.len() && (#[trigger] final(gears)@[g]).0 == (row, col)
                && final(gears)@[g].1@.len() > 0 && final(gears)@[g].1@.last() == num,
        gear_view(final(gears)@) == entered(gear_view(old(gears)@), (row, col), num),
{
    let n = gears.len();
    let ghost before = gear_view(gears@);
    let mut g: usize = 0;
    while g < n
        invariant
            n == gears@.len(),
            gears@ == old(gears)@,
            before == gear_view(gears@),
            g <= n,
            gear_index(before, (row, col), 0) == gear_index(before, (row, col), g as int),
        decreases n - g,
    {
        assert(before[g as int].0 == gears@[g as int].0);
        if gears[g].0.0 == row && gears[g].0.1 == col {
            let ghost old_gears = gears@;
            gears[g].1.push(num);
            assert(gears@[g as int].0 == (row, col));
            assert(gear_view(gears@) =~= entered(before, (row, col), num)) by {
                assert forall|k: int| 0 <= k < n implies gear_view(gears@)[k] == entered(
                    before,
                    (row, col),
                    num,
                )[k] by {
                    if k != g {
                        assert(gears@[k] == old_gears[k]);
                    }
                }
            }
            return ;
        }
        g += 1;
    }
    let ghost old_gears = gears@;
    let mut nums: Vec<u32> = Vec::new();
    nums.push(num);
    assert(nums@ =~= seq![num]);
    gears.push(((row, col), nums));
    assert(gears@[n as int].0 == (row, col));
    assert(gear_view(gears@) =~= entered(before, (row, col), num)) by {
        assert forall|k: int| 0 <= k < n + 1 implies gear_view(gears@)[k] == entered(
            before,
            (row, col),
            num,
        )[k] by {
            if k < n {
                assert(gears@[k] == old_gears[k]);
            }
        }
    }
}

/// A place around the number of `width` digits at `(row, col)` holds
/// anything but a dot.
pub open spec fn touched(map: Seq<Vec<u8>>, row: int, col: int, width: int) -> bool {
    exists|i: int|
        0 <= i < around(row, col, width).len() && map[(#[trigger] around(row, col, width)[i]).0 as int]@[around(
            row,
            col,
            width,
        )[i].1 as int] != 46u8
}

/// The sum of the numbers with a symbol next to them that begin at or
/// behind `(i, j)`, within the frame: a number is read from its first
/// digit to its last, and the scan goes on behind it.
pub open spec fn parts_from(map: Seq<Vec<u8>>, i: int, j: int) -> nat
    decreases map.len() - i, width_of(map) - j,
{
    if i < 1 || i >= map.len() - 1 {
        0
    } else if j < 1 || j >= width_of(map) - 1 {
        parts_from(map, i + 1, 1)
    } else {
        let w = num_width(map[i]@, j);
        if w == 0 {
            parts_from(map, i, j + 1)
        } else {
            (if j + w <= width_of(map) {
                parts_from(map, i, j + w)
            } else {
                0
            }) + if touched(map, i, j, w as int) {
                num_value(map[i]@, j, w)
            } else {
                0
            }
        }
    }
}

/// A number ends before the first byte behind its beginning that is no
/// digit.
pub proof fn lemma_width_stops(row: Seq<u8>, col: int, stop: int)
    requires
        0 <= col <= stop < row.len(),
        !is_digit(row[stop]),
    ensures
        col + num_width(row, col) <= stop,
    decreases stop - col,
{
    if col < stop && is_digit(row[col]) {
        lemma_width_stops(row, col + 1, stop);
    }
}

/// `total` is the sum of the numbers of the rows that have a symbol next
/// to them.
pub open spec fn parts_total(rows: Seq<Seq<u8>>, total: nat) -> bool {
    exists|map: Seq<Vec<u8>>| #[trigger] is_framed(rows, map) && parts_from(map, 1, 1) == total
}

/// The sum of all numbers that have a symbol next to them. `None` if the
/// rows are no rectangle, or a number or the sum does not fit 32 bits.
pub fn get_solution_1(input: &str) -> (r: Option<u32>)
    ensures
        match r {
            Some(sum) => frameable(lines(input.spec_bytes())) && parts_total(
                lines(input.spec_bytes()),
                sum as nat,
            ),
            None => !frameable(lines(input.spec_bytes())) || exists|total: nat|
                total > u32::MAX && #[trigger] parts_total(lines(input.spec_bytes()), total),
        },
{
    let map = match parse_input(input) {
        Some(map) => map,
        None => {
            return None;
        },
    };
    let ghost rows = lines(input.spec_bytes());
    let ghost total = parts_from(map@, 1, 1);
    assert(parts_total(rows, total));
    let height = map.len();
    let width = map[0].len();
    let mut sum: u32 = 0;
    let mut i: usize = 1;
    while i < height - 1
        invariant
            rectangular(map@),
            is_framed(rows, map@),
            height == map@.len(),
            width == width_of(map@),
            width == rows[0].len() + 2,
            height >= 3,
            width >= 2,
            1 <= i <= height,
            total == parts_from(map@, 1, 1),
            sum + parts_from(map@, i as int, 1) == total,
            rows == lines(input.spec_bytes()),
            parts_total(rows, total),
        decreases height - i,
    {
        assert(map@[i as int]@.len() == width);
        let mut j: usize = 1;
        while j < width - 1
            invariant
                rectangular(map@),
                is_framed(rows, map@),
                height == map@.len(),
                width == width_of(map@),
                width == rows[0].len() + 2,
                1 <= i,
                i + 1 < height,
                width >= 2,
                1 <= j <= width,
                map@[i as int]@.len() == width,
                total == parts_from(map@, 1, 1),
                sum + parts_from(map@, i as int, j as int) == total,
                rows == lines(input.spec_bytes()),
                parts_total(rows, total),
            decreases width - j,
        {
            if !(map[i][j] >= 48 && map[i][j] <= 57) {
                assert(num_width(map@[i as int]@, j as int) == 0);
                j += 1;
                continue ;
            }
            let w = get_num_width(i, j, &map);
            proof {
                assert(map@[i as int]@[width - 1] == framed_at(rows, i as int, width - 1));
                lemma_width_stops(map@[i as int]@, j as int, width - 1);
                assert(w >= 1);
            }
            if j + w >= width {
                return None;
            }
            proof {
                lemma_around_on_map(map@, i as int, j as int, w as int);
            }
            if has_adjacent(i, j, w, &map) {
                assert(touched(map@, i as int, j as int, w as int));
                assert(is_digit(map@[i as int]@[j as int]));
                assert(any_digit(map@[i as int]@, j as int, w as nat));
                let n = match parse_num(&map[i], j, w) {
                    Some(n) => n,
                    None => {
                        return None;
                    },
                };
                sum = match sum.checked_add(n) {
                    Some(sum) => sum,
                    None => {
                        return None;
                    },
                };
            } else {
                assert(!touched(map@, i as int, j as int, w as int));
            }
            j += w;
        }
        i += 1;
    }
    Some(sum)
}

/// The gears with their numbers after the scan from `(i, j)` on, begun
/// with `gears`: each number with a `*` next to it is entered under the
/// first such `*`.
pub open spec fn gear_scan(
    map: Seq<Vec<u8>>,
    i: int,
    j: int,
    gears: Seq<((usize, usize), Seq<u32>)>,
) -> Seq<((usize, usize), Seq<u32>)>
    decreases map.len() - i, width_of(map) - j,
{
    if i < 1 || i >= map.len() - 1 {
        gears
    } else if j < 1 || j >= width_of(map) - 1 {
        gear_scan(map, i + 1, 1, gears)
    } else {
        let w = num_width(map[i]@, j);
        if w == 0 {
            gear_scan(map, i, j + 1, gears)
        } else {
            let next = match first_star(map, around(i, j, w as int), 0) {
                Some(place) => entered(gears, place, num_value(map[i]@, j, w) as u32),
                None => gears,
            };
            if j + w <= width_of(map) {
                gear_scan(map, i, j + w, next)
            } else {
                next
            }
        }
    }
}

/// Every number from `(i, j)` on with a `*` next to it fits 32 bits.
pub open spec fn stars_fit(map: Seq<Vec<u8>>, i: int, j: int) -> bool
    decreases map.len() - i, width_of(map) - j,
{
    if i < 1 || i >= map.len() - 1 {
        true
    } else if j < 1 || j >= width_of(map) - 1 {
        stars_fit(map, i + 1, 1)
    } else {
        let w = num_width(map[i]@, j);
        if w == 0 {
            stars_fit(map, i, j + 1)
        } else {
            (first_star(map, around(i, j, w as int), 0) is Some ==> num_value(map[i]@, j, w)
                <= u32::MAX) && (j + w <= width_of(map) ==> stars_fit(map, i, j + w))
        }
    }
}

/// The sum over the first `k` gears with exactly two numbers of the
/// product of the two.
pub open spec fn ratios(gears: Seq<((usize, usize), Seq<u32>)>, k: nat) -> nat
    decreases k,
{
    if k == 0 {
        0
    } else {
        ratios(gears, (k - 1) as nat) + if gears[k - 1].1.len() == 2 {
            (gears[k - 1].1[0] * gears[k - 1].1[1]) as nat
        } else {
            0
        }
    }
}

/// The sum of the products grows with the number of gears.
pub proof fn lemma_ratios_grow(gears: Seq<((usize, usize), Seq<u32>)>, a: nat, b: nat)
    requires
        a <= b,
    ensures
        ratios(gears, a) <= ratios(gears, b),
    decreases b,
{
    if a < b {
        lemma_ratios_grow(gears, a, (b - 1) as nat);
    }
}

/// The outcome of adding up the gears of the rows: the sum of their
/// products, or nothing where a number next to a `*` or the sum does not
/// fit 32 bits.
pub open spec fn geared(rows: Seq<Seq<u8>>, outcome: Option<u32>) -> bool {
    exists|map: Seq<Vec<u8>>| #[trigger]
        is_framed(rows, map) && {
            let gears = gear_scan(map, 1, 1, Seq::empty());
            match outcome {
                Some(sum) => stars_fit(map, 1, 1) && sum == ratios(gears, gears.len()),
                None => !stars_fit(map, 1, 1) || ratios(gears, gears.len()) > u32::MAX,
            }
        }
}

/// The sum over all gears of the product of their two numbers. `None` if
/// the rows are no rectangle, or a number or the sum does not fit 32
/// bits.
pub fn get_solution_2(input: &str) -> (r: Option<u32>)
    ensures
        match r {
            Some(sum) => frameable(lines(input.spec_bytes())) && geared(
                lines(input.spec_bytes()),
                Some(sum),
            ),
            None => !frameable(lines(input.spec_bytes())) || geared(
                lines(input.spec_bytes()),
                None,
            ),
        },
{
    let map = match parse_input(input) {
        Some(map) => map,
        None => {
            return None;
        },
    };
    let ghost rows = lines(input.spec_bytes());
    let ghost all = gear_scan(map@, 1, 1, Seq::empty());
    let height = map.len();
    let width = map[0].len();
    let mut gears: Vec<((usize, usize), Vec<u32>)> = Vec::new();
    assert(gear_view(gears@) =~= Seq::empty());
    let mut i: usize = 1;
    while i < height - 1
        invariant
            rectangular(map@),
            is_framed(rows, map@),
            rows == lines(input.spec_bytes()),
            height == map@.len(),
            width == width_of(map@),
            width == rows[0].len() + 2,
            height >= 3,
            width >= 2,
            1 <= i <= height,
            all == gear_scan(map@, 1, 1, Seq::empty()),
            all == gear_scan(map@, i as int, 1, gear_view(gears@)),
            stars_fit(map@, 1, 1) == stars_fit(map@, i as int, 1),
        decreases height - i,
    {
        assert(map@[i as int]@.len() == width);
        let mut j: usize = 1;
        while j < width - 1
            invariant
                rectangular(map@),
                is_framed(rows, map@),
                rows == lines(input.spec_bytes()),
                height == map@.len(),
                width == width_of(map@),
                width == rows[0].len() + 2,
                1 <= i,
                i + 1 < height,
                width >= 2,
                1 <= j <= width,
                map@[i as int]@.len() == width,
                all == gear_scan(map@, 1, 1, Seq::empty()),
                all == gear_scan(map@, i as int, j as int, gear_view(gears@)),
                stars_fit(map@, 1, 1) == stars_fit(map@, i as int, j as int),
            decreases width - j,
        {
            if !(map[i][j] >= 48 && map[i][j] <= 57) {
                assert(num_width(map@[i as int]@, j as int) == 0);
                j += 1;
                continue ;
            }
            let w = get_num_width(i, j, &map);
            proof {
                assert(map@[i as int]@[width - 1] == framed_at(rows, i as int, width - 1));
                lemma_width_stops(map@[i as int]@, j as int, width - 1);
                assert(w >= 1);
            }
            if j + w >= width {
                return None;
            }
            proof {
                lemma_around_on_map(map@, i as int, j as int, w as int);
            }
            let adjacent = get_adjacent(i, j, w);
            match has_gear(&adjacent, &map) {
                Some((r, c)) => {
                    assert(is_digit(map@[i as int]@[j as int]));
                    assert(any_digit(map@[i as int]@, j as int, w as nat));
                    let n = match parse_num(&map[i], j, w) {
                        Some(n) => n,
                        None => {
                            assert(!stars_fit(map@, i as int, j as int));
                            assert(geared(rows, None));
                            return None;
                        },
                    };
                    add_gear_num(r, c, n, &mut gears);
                },
                None => {},
            }
            j += w;
        }
        i += 1;
    }
    assert(all == gear_view(gears@));
    let mut sum: u32 = 0;
    let mut g: usize = 0;
    while g < gears.len()
        invariant
            g <= gears@.len(),
            all == gear_view(gears@),
            all == gear_scan(map@, 1, 1, Seq::empty()),
            is_framed(rows, map@),
            rows == lines(input.spec_bytes()),
            stars_fit(map@, 1, 1),
            sum == ratios(all, g as nat),
        decreases gears@.len() - g,
    {
        assert(all[g as int].1 == gears@[g as int].1@);
        if gears[g].1.len() == 2 {
            let product = match gears[g].1[0].checked_mul(gears[g].1[1]) {
                Some(product) => product,
                None => {
                    proof {
                        lemma_ratios_grow(all, (g + 1) as nat, all.len());
                        assert(geared(rows, None));
                    }
                    return None;
                },
            };
            sum = match sum.checked_add(product) {
                Some(sum) => sum,
                None => {
                    proof {
                        lemma_ratios_grow(all, (g + 1) as nat, all.len());
                        assert(geared(rows, None));
                    }
                    return None;
                },
            };
        }
        g += 1;
    }
    assert(geared(rows, Some(sum)));
    Some(sum)
}

} // verus!
