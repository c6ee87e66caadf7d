//! A trench is dug by a plan of directions and lengths; the lagoon is the
//! trench and everything that it encloses.

use vstd::prelude::*;
use vstd::string::StringSliceAdditionalSpecFns;
use crate::text::{
    views, lines, words, parse_nat, split_lines, split_words, parse_usize, copy_range,
};

verus! {

#[derive(Debug, Clone, Copy, Eq, PartialEq, Hash)]
pub enum Dir {
    Up,
    Right,
    Down,
    Left,
}

/// The direction that a word writes: a letter in the plan, a digit in a
/// colour.
pub open spec fn dir_of(inp: Seq<u8>) -> Option<Dir> {
    if inp.len() != 1 {
        None
    } else if inp[0] == 85 || inp[0] == 51 {
        Some(Dir::Up)
    } else if inp[0] == 82 || inp[0] == 48 {
        Some(Dir::Right)
    } else if inp[0] == 68 || inp[0] == 49 {
        Some(Dir::Down)
    } else if inp[0] == 76 || inp[0] == 50 {
        Some(Dir::Left)
    } else {
        None
    }
}

impl Dir {
    /// Reads a direction: `U`, `R`, `D`, `L`, or `3`, `0`, `1`, `2`.
    pub fn try_from(inp: &[u8]) -> (r: Result<Dir, &'static str>)
        ensures
            match r {
                Ok(dir) => dir_of(inp@) == Some(dir),
                Err(_) => dir_of(inp@) is None,
            },
    {
        if inp.len() != 1 {
            return Err("got invalid direction");
        }
        let c = inp[0];
        if c == 85 || c == 51 {
            Ok(Dir::Up)
        } else if c == 82 || c == 48 {
            Ok(Dir::Right)
        } else if c == 68 || c == 49 {
            Ok(Dir::Down)
        } else if c == 76 || c == 50 {
            Ok(Dir::Left)
        } else {
            Err("got invalid direction")
        }
    }
}

/// The value of a hexadecimal digit.
pub open spec fn hex_digit(c: u8) -> Option<nat> {
    if 48 <= c <= 57 {
        Some((c - 48) as nat)
    } else if 97 <= c <= 102 {
        Some((c - 87) as nat)
    } else if 65 <= c <= 70 {
        Some((c - 55) as nat)
    } else {
        None
    }
}

/// The number that the first `k` hexadecimal digits write.
pub open spec fn hex_value(digits: Seq<u8>, k: nat) -> Option<nat>
    decreases k,
{
    if k == 0 {
        Some(0)
    } else {
        match (hex_value(digits, (k - 1) as nat), hex_digit(digits[k - 1])) {
            (Some(v), Some(d)) => Some(v * 16 + d),
            _ => None,
        }
    }
}

/// What a colour means: a number sign, five hexadecimal digits for the
/// length, and one digit for the direction.
pub open spec fn hex_spec(hex: Seq<u8>) -> Option<(nat, Dir)> {
    if hex.len() < 7 || hex[0] != 35 {
        None
    } else {
        match (hex_value(hex.subrange(1, 6), 5), dir_of(hex.subrange(6, 7))) {
            (Some(v), Some(dir)) => Some((v, dir)),
            _ => None,
        }
    }
}

/// Reads the length and the direction from a colour.
pub fn parse_hex(hex: &[u8]) -> (r: Option<(isize, Dir)>)
    ensures
        match r {
            Some((steps, dir)) => hex_spec(hex@) == Some((steps as nat, dir)) && 0 <= steps
                < 1048576,
            None => hex_spec(hex@) is None,
        },
{
    if hex.len() < 7 || hex[0] != 35 {
        return None;
    }
    let ghost digits = hex@.subrange(1, 6);
    let mut value: isize = 0;
    let mut k: usize = 0;
    while k < 5
        invariant
            hex@.len() >= 7,
            digits == hex@.subrange(1, 6),
            k <= 5,
            0 <= value < 1048576,
            k == 0 ==> value == 0,
            k == 1 ==> value < 16,
            k == 2 ==> value < 256,
            k == 3 ==> value < 4096,
            k == 4 ==> value < 65536,
            hex_value(digits, k as nat) == Some(value as nat),
        decreases 5 - k,
    {
        let c = hex[1 + k];
        assert(digits[k as int] == c);
        let d: isize = if 48 <= c && c <= 57 {
            (c - 48) as isize
        } else if 97 <= c && c <= 102 {
            (c - 87) as isize
        } else if 65 <= c && c <= 70 {
            (c - 55) as isize
        } else {
            proof {
                lemma_hex_value_fails(digits, (k + 1) as nat, 5);
            }
            return None;
        };
        value = value * 16 + d;
        k += 1;
    }
    let word = copy_range(hex, 6, 7);
    match Dir::try_from(word.as_slice()) {
        Ok(dir) => Some((value, dir)),
        Err(_) => None,
    }
}

/// Once a digit is none, the number is none.
pub proof fn lemma_hex_value_fails(digits: Seq<u8>, j: nat, k: nat)
    requires
        j <= k,
        hex_value(digits, j) is None,
    ensures
        hex_value(digits, k) is None,
    decreases k,
{
    if j < k {
        lemma_hex_value_fails(digits, j, (k - 1) as nat);
    }
}

/// One line of the plan.
pub struct DigEntry {
    pub dir: Dir,
    pub steps: usize,
    pub color: Vec<u8>,
}

/// What a line of the plan holds: a direction, a length and a colour
/// without its brackets; or what is wrong with the line.
pub open spec fn entry_spec(line: Seq<u8>) -> Result<(Dir, usize, Seq<u8>), Seq<char>> {
    let parts = words(line);
    if parts.len() == 0 {
        Err("empty line"@)
    } else if dir_of(parts[0]) is None {
        Err("got invalid direction"@)
    } else if parts.len() < 2 {
        Err("steps missing"@)
    } else if !nat_fits(parse_nat(parts[1])) {
        Err("cannot parse steps"@)
    } else if parts.len() < 3 || parts[2].len() < 2 {
        Err("color missing"@)
    } else {
        Ok(
            (
                dir_of(parts[0]).unwrap(),
                parse_nat(parts[1]).unwrap() as usize,
                parts[2].subrange(1, parts[2].len() - 1),
            ),
        )
    }
}

/// A number was read, and it fits the machine word.
pub open spec fn nat_fits(v: Option<nat>) -> bool {
    match v {
        Some(n) => n <= usize::MAX,
        None => false,
    }
}

/// The entry holds what the line writes.
pub open spec fn reads_entry(line: Seq<u8>, entry: DigEntry) -> bool {
    entry_spec(line) == Ok::<(Dir, usize, Seq<u8>), Seq<char>>(
        (entry.dir, entry.steps, entry.color@),
    )
}

impl DigEntry {
    /// Reads a direction, a length and a colour in brackets from a line.
    pub fn try_from(inp: &[u8]) -> (r: Result<DigEntry, &'static str>)
        ensures
            match r {
                Ok(entry) => reads_entry(inp@, entry),
                Err(msg) => entry_spec(inp@) == Err::<(Dir, usize, Seq<u8>), Seq<char>>(msg@),
            },
    {
        let parts = split_words(inp);
        if parts.len() == 0 {
            return Err("empty line");
        }
        assert(views(parts@)[0] == parts@[0]@);
        let dir = match Dir::try_from(parts[0].as_slice()) {
            Ok(dir) => dir,
            Err(e) => {
                return Err("got invalid direction");
            },
        };
        if parts.len() < 2 {
            return Err("steps missing");
        }
        assert(views(parts@)[1] == parts@[1]@);
        let steps = match parse_usize(parts[1].as_slice()) {
            Some(steps) => steps,
            None => {
                return Err("cannot parse steps");
            },
        };
        if parts.len() < 3 {
            return Err("color missing");
        }
        assert(views(parts@)[2] == parts@[2]@);
        let word = &parts[2];
        let len = word.len();
        if len < 2 {
            return Err("color missing");
        }
        let color = copy_range(word.as_slice(), 1, len - 1);
        Ok(DigEntry { dir, steps, color })
    }
}

/// Every one of the first `k` lines writes an entry.
pub open spec fn all_read(rows: Seq<Seq<u8>>, k: int) -> bool {
    forall|i: int| 0 <= i < k ==> entry_spec(#[trigger] rows[i]) is Ok
}

/// Reads the plan, one entry from each line, or what is wrong with the
/// first line that is no entry.
pub fn parse_input(inp: &str) -> (r: Result<Vec<DigEntry>, &'static str>)
    ensures
        match r {
            Ok(plan) => plan@.len() == lines(inp.spec_bytes()).len() && forall|i: int|
                0 <= i < plan@.len() ==> #[trigger] reads_entry(
                    lines(inp.spec_bytes())[i],
                    plan@[i],
                ),
            Err(msg) => exists|i: int|
                0 <= i < lines(inp.spec_bytes()).len() && all_read(lines(inp.spec_bytes()), i)
                    && entry_spec(#[trigger] lines(inp.spec_bytes())[i]) == Err::<
                    (Dir, usize, Seq<u8>),
                    Seq<char>,
                >(msg@),
        },
{
    let all = split_lines(inp.as_bytes());
    let ghost rows = lines(inp.spec_bytes());
    let mut plan: Vec<DigEntry> = Vec::new();
    let mut i: usize = 0;
    while i < all.len()
        invariant
            i <= all@.len(),
            rows == lines(inp.spec_bytes()),
            views(all@) == rows,
            plan@.len() == i,
            forall|k: int| 0 <= k < i ==> #[trigger] reads_entry(rows[k], plan@[k]),
        decreases all@.len() - i,
    {
        assert(rows[i as int] == all@[i as int]@);
        match DigEntry::try_from(all[i].as_slice()) {
            Ok(entry) => {
                let ghost before = plan@;
                plan.push(entry);
                assert forall|k: int| 0 <= k < i + 1 implies #[trigger] reads_entry(
                    rows[k],
                    plan@[k],
                ) by {
                    if k < i {
                        assert(plan@[k] == before[k]);
                        assert(reads_entry(rows[k], before[k]));
                    }
                }
            },
            Err(e) => {
                assert forall|k: int| 0 <= k < i implies entry_spec(#[trigger] rows[k]) is Ok by {
                    assert(reads_entry(rows[k], plan@[k]));
                }
                return Err(e);
            },
        }
        i += 1;
    }
    Ok(plan)
}

/// The length and the direction that a line of the plan gives.
pub open spec fn plain_side(line: Seq<u8>) -> (isize, Dir) {
    match entry_spec(line) {
        Ok((dir, steps, _)) => (steps as isize, dir),
        Err(_) => (0, Dir::Up),
    }
}

/// The length and the direction that the colour of a line gives.
pub open spec fn colour_side(line: Seq<u8>) -> (isize, Dir) {
    match entry_spec(line) {
        Ok((_, _, colour)) => match hex_spec(colour) {
            Some((steps, dir)) => (steps as isize, dir),
            None => (0, Dir::Up),
        },
        Err(_) => (0, Dir::Up),
    }
}

/// The sides of the trench as the plan gives them.
pub open spec fn plain_sides(rows: Seq<Seq<u8>>) -> Seq<(isize, Dir)> {
    Seq::new(rows.len(), |i: int| plain_side(rows[i]))
}

/// The sides of the trench as the colours give them.
pub open spec fn colour_sides(rows: Seq<Seq<u8>>) -> Seq<(isize, Dir)> {
    Seq::new(rows.len(), |i: int| colour_side(rows[i]))
}

/// The corner of the trench after the first `k` entries.
pub open spec fn corner(map: Seq<(isize, Dir)>, k: nat) -> (int, int)
    decreases k,
{
    if k == 0 {
        (0, 0)
    } else {
        let (x, y) = corner(map, (k - 1) as nat);
        let d = map[k - 1].0 as int;
        match map[k - 1].1 {
            Dir::Up => (x, y - d),
            Dir::Down => (x, y + d),
            Dir::Right => (x + d, y),
            Dir::Left => (x - d, y),
        }
    }
}

/// Twice the area that the first `k` sides enclose with the start, by the
/// shoelace rule.
pub open spec fn shoelace(map: Seq<(isize, Dir)>, k: nat) -> int
    decreases k,
{
    if k == 0 {
        0
    } else {
        let (x, y) = corner(map, (k - 1) as nat);
        let (x_1, y_1) = corner(map, k);
        shoelace(map, (k - 1) as nat) + (y + y_1) * (x - x_1)
    }
}

/// The length of the first `k` sides.
pub open spec fn perimeter(map: Seq<(isize, Dir)>, k: nat) -> int
    decreases k,
{
    if k == 0 {
        0
    } else {
        perimeter(map, (k - 1) as nat) + map[k - 1].0
    }
}

/// The number of cells of the lagoon: half the doubled area, plus half
/// the perimeter, plus one; both halves rounded towards zero.
pub open spec fn lagoon(map: Seq<(isize, Dir)>) -> int {
    truncated_half(shoelace(map, map.len())) + truncated_half(perimeter(map, map.len())) + 1
}

/// Half of `v`, rounded towards zero.
pub open spec fn truncated_half(v: int) -> int {
    if v >= 0 {
        v / 2
    } else {
        -((-v) / 2)
    }
}

/// `v` fits the signed machine word.
pub open spec fn in_word(v: int) -> bool {
    isize::MIN <= v <= isize::MAX
}

/// What the side at place `k` adds to the corner, the perimeter and the
/// doubled area fits the signed machine word, and so do the sum and the
/// difference that are multiplied for the area.
pub open spec fn side_fits(map: Seq<(isize, Dir)>, k: nat) -> bool {
    let (x, y) = corner(map, k);
    let (x_1, y_1) = corner(map, k + 1);
    &&& in_word(x_1)
    &&& in_word(y_1)
    &&& in_word(perimeter(map, k + 1))
    &&& in_word(y + y_1)
    &&& in_word(x - x_1)
    &&& in_word((y + y_1) * (x - x_1))
    &&& in_word(shoelace(map, k + 1))
}

/// Every number on the way to the size of the lagoon fits the signed
/// machine word.
pub open spec fn picks_fit(map: Seq<(isize, Dir)>) -> bool {
    &&& forall|k: nat| k < map.len() ==> #[trigger] side_fits(map, k)
    &&& in_word(
        truncated_half(shoelace(map, map.len())) + truncated_half(perimeter(map, map.len())),
    )
    &&& in_word(lagoon(map))
}

/// The number of cells that the trench and its inside take up, by Pick's
/// theorem. `None` if a number on the way does not fit the signed machine
/// word.
pub fn picks_theorem(map: &Vec<(isize, Dir)>) -> (r: Option<isize>)
    ensures
        r matches Some(cells) ==> cells == lagoon(map@),
        r is Some <==> picks_fit(map@),
{
    let mut area: isize = 0;
    let mut x: isize = 0;
    let mut y: isize = 0;
    let mut perim: isize = 0;
    let mut k: usize = 0;
    while k < map.len()
        invariant
            k <= map@.len(),
            (x as int, y as int) == corner(map@, k as nat),
            area == shoelace(map@, k as nat),
            perim == perimeter(map@, k as nat),
            forall|j: nat| j < k ==> #[trigger] side_fits(map@, j),
        decreases map@.len() - k,
    {
        let (d, dir) = map[k];
        let mut x_1 = x;
        let mut y_1 = y;
        match dir {
            Dir::Up => {
                y_1 = match y.checked_sub(d) {
                    Some(v) => v,
                    None => {
                        assert(!side_fits(map@, k as nat));
                        return None;
                    },
                };
            },
            Dir::Down => {
                y_1 = match y.checked_add(d) {
                    Some(v) => v,
                    None => {
                        assert(!side_fits(map@, k as nat));
                        return None;
                    },
                };
            },
            Dir::Right => {
                x_1 = match x.checked_add(d) {
                    Some(v) => v,
                    None => {
                        assert(!side_fits(map@, k as nat));
                        return None;
                    },
                };
            },
            Dir::Left => {
                x_1 = match x.checked_sub(d) {
                    Some(v) => v,
                    None => {
                        assert(!side_fits(map@, k as nat));
                        return None;
                    },
                };
            },
        }
        perim = match perim.checked_add(d) {
            Some(v) => v,
            None => {
                assert(!side_fits(map@, k as nat));
                return None;
            },
        };
        let ys = match y.checked_add(y_1) {
            Some(v) => v,
            None => {
                assert(!side_fits(map@, k as nat));
                return None;
            },
        };
        let xs = match x.checked_sub(x_1) {
            Some(v) => v,
            None => {
                assert(!side_fits(map@, k as nat));
                return None;
            },
        };
        let part = match ys.checked_mul(xs) {
            Some(v) => v,
            None => {
                assert(!side_fits(map@, k as nat));
                return None;
            },
        };
        area = match area.checked_add(part) {
            Some(v) => v,
            None => {
                assert(!side_fits(map@, k as nat));
                return None;
            },
        };
        assert(side_fits(map@, k as nat));
        y = y_1;
        x = x_1;
        k += 1;
    }
    let half_area = half(area);
    let half_perim = half(perim);
    match half_area.checked_add(half_perim) {
        Some(v) => v.checked_add(1),
        None => None,
    }
}

/// Half of `v`, rounded towards zero.
fn half(v: isize) -> (r: isize)
    ensures
        r == truncated_half(v as int),
{
    if v >= 0 {
        v / 2
    } else if v == isize::MIN {
        -(isize::MAX / 2) - 1
    } else {
        -((-v) / 2)
    }
}

/// Every line writes an entry whose length fits the signed machine word.
pub open spec fn lengths_fit(rows: Seq<Seq<u8>>) -> bool {
    forall|i: int|
        0 <= i < rows.len() ==> match entry_spec(#[trigger] rows[i]) {
            Ok((_, steps, _)) => steps <= isize::MAX,
            Err(_) => false,
        }
}

/// Every line writes an entry whose colour gives a side.
pub open spec fn colours_read(rows: Seq<Seq<u8>>) -> bool {
    forall|i: int|
        0 <= i < rows.len() ==> match entry_spec(#[trigger] rows[i]) {
            Ok((_, _, colour)) => hex_spec(colour) is Some,
            Err(_) => false,
        }
}

/// The size of the lagoon dug by the directions and lengths of the plan.
/// `None` if a line is no entry, or a number on the way does not fit.
pub fn get_solution_1(input: &str) -> (r: Option<usize>)
    ensures
        r matches Some(cells) ==> all_read(
            lines(input.spec_bytes()),
            lines(input.spec_bytes()).len() as int,
        ) && cells == lagoon(plain_sides(lines(input.spec_bytes()))),
        r is Some <==> lengths_fit(lines(input.spec_bytes())) && picks_fit(
            plain_sides(lines(input.spec_bytes())),
        ) && lagoon(plain_sides(lines(input.spec_bytes()))) >= 0,
{
    let plan = match parse_input(input) {
        Ok(plan) => plan,
        Err(_) => {
            return None;
        },
    };
    let ghost rows = lines(input.spec_bytes());
    let mut inp: Vec<(isize, Dir)> = Vec::new();
    let mut i: usize = 0;
    while i < plan.len()
        invariant
            i <= plan@.len(),
            rows == lines(input.spec_bytes()),
            plan@.len() == rows.len(),
            forall|k: int| 0 <= k < plan@.len() ==> #[trigger] reads_entry(rows[k], plan@[k]),
            inp@.len() == i,
            forall|k: int| 0 <= k < i ==> (#[trigger] inp@[k]) == plain_sides(rows)[k],
            forall|k: int| 0 <= k < i ==> (#[trigger] plan@[k]).steps <= isize::MAX,
        decreases plan@.len() - i,
    {
        assert(reads_entry(rows[i as int], plan@[i as int]));
        if plan[i].steps > isize::MAX as usize {
            return None;
        }
        inp.push((plan[i].steps as isize, plan[i].dir));
        i += 1;
    }
    assert(inp@ =~= plain_sides(rows));
    assert forall|k: int| 0 <= k < rows.len() implies entry_spec(#[trigger] rows[k]) is Ok by {
        assert(reads_entry(rows[k], plan@[k]));
    }
    assert(lengths_fit(rows)) by {
        assert forall|k: int| 0 <= k < rows.len() implies match entry_spec(#[trigger] rows[k]) {
            Ok((_, steps, _)) => steps <= isize::MAX,
            Err(_) => false,
        } by {
            assert(reads_entry(rows[k], plan@[k]));
            assert(plan@[k].steps <= isize::MAX);
        }
    }
    match picks_theorem(&inp) {
        Some(cells) => if cells >= 0 {
            Some(cells as usize)
        } else {
            None
        },
        None => None,
    }
}

/// The size of the lagoon dug by what the colours of the plan mean.
/// `None` if a line is no entry or its colour no side, or a number on the
/// way does not fit.
pub fn get_solution_2(input: &str) -> (r: Option<usize>)
    ensures
        r matches Some(cells) ==> all_read(
            lines(input.spec_bytes()),
            lines(input.spec_bytes()).len() as int,
        ) && cells == lagoon(colour_sides(lines(input.spec_bytes()))),
        r is Some <==> colours_read(lines(input.spec_bytes())) && picks_fit(
            colour_sides(lines(input.spec_bytes())),
        ) && lagoon(colour_sides(lines(input.spec_bytes()))) >= 0,
{
    let plan = match parse_input(input) {
        Ok(plan) => plan,
        Err(_) => {
            return None;
        },
    };
    let ghost rows = lines(input.spec_bytes());
    let mut inp: Vec<(isize, Dir)> = Vec::new();
    let mut i: usize = 0;
    while i < plan.len()
        invariant
            i <= plan@.len(),
            rows == lines(input.spec_bytes()),
            plan@.len() == rows.len(),
            forall|k: int| 0 <= k < plan@.len() ==> #[trigger] reads_entry(rows[k], plan@[k]),
            inp@.len() == i,
            forall|k: int| 0 <= k < i ==> (#[trigger] inp@[k]) == colour_sides(rows)[k],
            forall|k: int| 0 <= k < i ==> hex_spec((#[trigger] plan@[k]).color@) is Some,
        decreases plan@.len() - i,
    {
        assert(reads_entry(rows[i as int], plan@[i as int]));
        match parse_hex(plan[i].color.as_slice()) {
            Some(side) => {
                inp.push(side);
            },
            None => {
                return None;
            },
        }
        i += 1;
    }
    assert(inp@ =~= colour_sides(rows));
    assert forall|k: int| 0 <= k < rows.len() implies entry_spec(#[trigger] rows[k]) is Ok by {
        assert(reads_entry(rows[k], plan@[k]));
    }
    assert(colours_read(rows)) by {
        assert forall|k: int| 0 <= k < rows.len() implies match entry_spec(#[trigger] rows[k]) {
            Ok((_, _, colour)) => hex_spec(colour) is Some,
            Err(_) => false,
        } by {
            assert(reads_entry(rows[k], plan@[k]));
            assert(hex_spec(plan@[k].color@) is Some);
        }
    }
    match picks_theorem(&inp) {
        Some(cells) => if cells >= 0 {
            Some(cells as usize)
        } else {
            None
        },
        None => None,
    }
}

} // verus!
