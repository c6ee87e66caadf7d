//! Galaxies drift apart: every row and column without a galaxy grows, and
//! the distances between all pairs of galaxies are added up.

use vstd::prelude::*;
use vstd::string::StringSliceAdditionalSpecFns;
use crate::text::{views, lines, first_index, split_lines, find_byte};

verus! {

pub const COL: usize = 0;

pub const ROW: usize = 1;

/// The galaxies by column and row, and the size of the picture.
#[derive(Debug)]
pub struct Universe {
    pub galaxies: Vec<[usize; 2]>,
    pub width: usize,
    pub height: usize,
}

pub struct ExpandedUniverse {
    pub galaxies: Vec<[usize; 2]>,
}

/// No galaxy stands in line `p` along `axis`.
pub open spec fn empty_line(galaxies: Seq<[usize; 2]>, axis: int, p: int) -> bool {
    forall|g: int| 0 <= g < galaxies.len() ==> (#[trigger] galaxies[g])@[axis] != p
}

/// How many of the lines below `k` along `axis` are empty and lie before
/// the coordinate `x`.
pub open spec fn empty_before(galaxies: Seq<[usize; 2]>, axis: int, x: int, k: nat) -> nat
    decreases k,
{
    if k == 0 {
        0
    } else {
        empty_before(galaxies, axis, x, (k - 1) as nat) + if empty_line(galaxies, axis, k - 1) && x
            > k - 1 {
            1nat
        } else {
            0nat
        }
    }
}

/// Where the coordinate `x` along `axis` lies after every empty line
/// among the first `len` has grown by `rate`.
pub open spec fn expanded_coord(galaxies: Seq<[usize; 2]>, axis: int, x: int, len: nat, rate: nat) -> int {
    x + rate * empty_before(galaxies, axis, x, len)
}

/// The distance between two galaxies: the steps along the columns and
/// along the rows.
pub open spec fn distance(a: [usize; 2], b: [usize; 2]) -> nat {
    let dx = if a@[0] >= b@[0] {
        a@[0] - b@[0]
    } else {
        b@[0] - a@[0]
    };
    let dy = if a@[1] >= b@[1] {
        a@[1] - b@[1]
    } else {
        b@[1] - a@[1]
    };
    (dx + dy) as nat
}

/// The distances from galaxy `i` to the galaxies after it, up to `j`.
pub open spec fn dists_from(galaxies: Seq<[usize; 2]>, i: int, j: int) -> Seq<usize>
    decreases j - i,
{
    if j <= i + 1 {
        Seq::empty()
    } else {
        dists_from(galaxies, i, j - 1).push(distance(galaxies[i], galaxies[j - 1]) as usize)
    }
}

/// The distances of all pairs whose first galaxy is among the first `k`.
pub open spec fn all_dists(galaxies: Seq<[usize; 2]>, k: nat) -> Seq<usize>
    decreases k,
{
    if k == 0 {
        Seq::empty()
    } else {
        all_dists(galaxies, (k - 1) as nat) + dists_from(galaxies, k - 1, galaxies.len() as int)
    }
}

/// Whether no galaxy stands in line `p` along `axis`.
fn is_empty_line(galaxies: &Vec<[usize; 2]>, axis: usize, p: usize) -> (r: bool)
    requires
        axis < 2,
    ensures
        r == empty_line(galaxies@, axis as int, p as int),
{
    let mut g: usize = 0;
    while g < galaxies.len()
        invariant
            axis < 2,
            g <= galaxies@.len(),
            forall|k: int| 0 <= k < g ==> (#[trigger] galaxies@[k])@[axis as int] != p,
        decreases galaxies@.len() - g,
    {
        if galaxies[g][axis] == p {
            return false;
        }
        g += 1;
    }
    true
}

/// `expanded` holds the galaxies after every empty column among the first
/// `width` and every empty row among the first `height` has grown by
/// `rate`.
pub open spec fn is_expansion(
    galaxies: Seq<[usize; 2]>,
    width: nat,
    height: nat,
    rate: nat,
    expanded: Seq<[usize; 2]>,
) -> bool {
    &&& expanded.len() == galaxies.len()
    &&& forall|g: int|
        0 <= g < expanded.len() ==> (#[trigger] expanded[g])@[0] == expanded_coord(
            galaxies,
            0,
            galaxies[g]@[0] as int,
            width,
            rate,
        ) && expanded[g]@[1] == expanded_coord(galaxies, 1, galaxies[g]@[1] as int, height, rate)
}

/// Every galaxy stays within the machine word when the empty lines grow
/// by `rate`.
pub open spec fn expansion_fits(galaxies: Seq<[usize; 2]>, width: nat, height: nat, rate: nat) -> bool {
    forall|g: int|
        0 <= g < galaxies.len() ==> expanded_coord(
            galaxies,
            0,
            (#[trigger] galaxies[g])@[0] as int,
            width,
            rate,
        ) <= usize::MAX && expanded_coord(galaxies, 1, galaxies[g]@[1] as int, height, rate)
            <= usize::MAX
}

impl Universe {
    /// Moves every galaxy by `rate` for each empty column to its left and
    /// each empty row above it. `None` if a coordinate does not fit the
    /// machine word.
    pub fn expand(self, rate: usize) -> (r: Option<ExpandedUniverse>)
        ensures
            r matches Some(e) ==> is_expansion(
                self.galaxies@,
                self.width as nat,
                self.height as nat,
                rate as nat,
                e.galaxies@,
            ),
            r is Some <==> expansion_fits(
                self.galaxies@,
                self.width as nat,
                self.height as nat,
                rate as nat,
            ),
    {
        let n = self.galaxies.len();
        let mut expanded: Vec<[usize; 2]> = Vec::new();
        let mut g: usize = 0;
        while g < n
            invariant
                n == self.galaxies@.len(),
                g <= n,
                expanded@.len() == g,
                forall|k: int|
                    0 <= k < g ==> (#[trigger] expanded@[k])@[0] == expanded_coord(
                        self.galaxies@,
                        0,
                        self.galaxies@[k]@[0] as int,
                        self.width as nat,
                        rate as nat,
                    ) && expanded@[k]@[1] == expanded_coord(
                        self.galaxies@,
                        1,
                        self.galaxies@[k]@[1] as int,
                        self.height as nat,
                        rate as nat,
                    ),
            decreases n - g,
        {
            let old_galaxy = self.galaxies[g];
            assert(old_galaxy == self.galaxies@[g as int]);
            let x = match expand_coord(&self.galaxies, COL, old_galaxy[COL], self.width, rate) {
                Some(x) => x,
                None => {
                    return None;
                },
            };
            let y = match expand_coord(&self.galaxies, ROW, old_galaxy[ROW], self.height, rate) {
                Some(y) => y,
                None => {
                    return None;
                },
            };
            expanded.push([x, y]);
            g += 1;
        }
        assert forall|k: int| 0 <= k < n implies expanded_coord(
            self.galaxies@,
            0,
            (#[trigger] self.galaxies@[k])@[0] as int,
            self.width as nat,
            rate as nat,
        ) <= usize::MAX && expanded_coord(
            self.galaxies@,
            1,
            self.galaxies@[k]@[1] as int,
            self.height as nat,
            rate as nat,
        ) <= usize::MAX by {
            assert(expanded@[k]@[0] <= usize::MAX);
            assert(expanded@[k]@[1] <= usize::MAX);
        }
        Some(ExpandedUniverse { galaxies: expanded })
    }
}

/// The number of empty lines before a coordinate grows with the number
/// of lines that are looked at, and so does the place it moves to.
pub proof fn lemma_expanded_coord_grows(
    galaxies: Seq<[usize; 2]>,
    axis: int,
    x: int,
    a: nat,
    b: nat,
    rate: nat,
)
    requires
        a <= b,
    ensures
        empty_before(galaxies, axis, x, a) <= empty_before(galaxies, axis, x, b),
        expanded_coord(galaxies, axis, x, a, rate) <= expanded_coord(galaxies, axis, x, b, rate),
    decreases b,
{
    if a < b {
        lemma_expanded_coord_grows(galaxies, axis, x, a, (b - 1) as nat, rate);
    }
    let m = empty_before(galaxies, axis, x, a);
    let n = empty_before(galaxies, axis, x, b);
    assert(rate * m <= rate * n) by (nonlinear_arith)
        requires
            m <= n,
            rate >= 0,
    ;
}

/// The coordinate `x` after every empty line before it has grown.
fn expand_coord(galaxies: &Vec<[usize; 2]>, axis: usize, x: usize, len: usize, rate: usize) -> (r:
    Option<usize>)
    requires
        axis < 2,
    ensures
        r matches Some(v) ==> v == expanded_coord(
            galaxies@,
            axis as int,
            x as int,
            len as nat,
            rate as nat,
        ),
        r is Some <==> expanded_coord(galaxies@, axis as int, x as int, len as nat, rate as nat)
            <= usize::MAX,
{
    let mut moved: usize = x;
    let mut p: usize = 0;
    assert(rate * empty_before(galaxies@, axis as int, x as int, 0) == 0) by {
        assert(empty_before(galaxies@, axis as int, x as int, 0) == 0);
        assert(rate * 0 == 0);
    }
    while p < len
        invariant
            axis < 2,
            p <= len,
            moved == x + rate * empty_before(galaxies@, axis as int, x as int, p as nat),
        decreases len - p,
    {
        if x > p && is_empty_line(galaxies, axis, p) {
            assert(rate * (empty_before(galaxies@, axis as int, x as int, p as nat) + 1) == rate
                * empty_before(galaxies@, axis as int, x as int, p as nat) + rate)
                by (nonlinear_arith);
            moved = match moved.checked_add(rate) {
                Some(moved) => moved,
                None => {
                    proof {
                        lemma_expanded_coord_grows(
                            galaxies@,
                            axis as int,
                            x as int,
                            (p + 1) as nat,
                            len as nat,
                            rate as nat,
                        );
                    }
                    return None;
                },
            };
        }
        p += 1;
    }
    Some(moved)
}

/// The distance between two galaxies, if it fits the machine word.
fn galaxy_distance(a: &[usize; 2], b: &[usize; 2]) -> (r: Option<usize>)
    ensures
        match r {
            Some(d) => d == distance(*a, *b),
            None => distance(*a, *b) > usize::MAX,
        },
{
    let dx = if a[COL] >= b[COL] {
        a[COL] - b[COL]
    } else {
        b[COL] - a[COL]
    };
    let dy = if a[ROW] >= b[ROW] {
        a[ROW] - b[ROW]
    } else {
        b[ROW] - a[ROW]
    };
    dx.checked_add(dy)
}

/// The distance between every two galaxies fits the machine word.
pub open spec fn dists_fit(galaxies: Seq<[usize; 2]>) -> bool {
    forall|i: int, j: int|
        0 <= i < j < galaxies.len() ==> #[trigger] distance(galaxies[i], galaxies[j]) <= usize::MAX
}

impl ExpandedUniverse {
    /// The distances between all pairs of galaxies: for each galaxy those
    /// to the galaxies after it. `None` if a distance does not fit the
    /// machine word.
    pub fn shortest_dists(self) -> (r: Option<Vec<usize>>)
        ensures
            r matches Some(dists) ==> dists@ == all_dists(self.galaxies@, self.galaxies@.len()),
            r is Some <==> dists_fit(self.galaxies@),
    {
        let n = self.galaxies.len();
        let mut dists: Vec<usize> = Vec::new();
        let mut i: usize = 0;
        while i < n
            invariant
                n == self.galaxies@.len(),
                i <= n,
                dists@ == all_dists(self.galaxies@, i as nat),
                forall|a: int, b: int|
                    0 <= a < i && a < b < n ==> #[trigger] distance(
                        self.galaxies@[a],
                        self.galaxies@[b],
                    ) <= usize::MAX,
            decreases n - i,
        {
            let ghost before = dists@;
            let mut j: usize = i + 1;
            while j < n
                invariant
                    n == self.galaxies@.len(),
                    i < n,
                    i + 1 <= j <= n,
                    dists@ == before + dists_from(self.galaxies@, i as int, j as int),
                    forall|b: int|
                        i < b < j ==> #[trigger] distance(self.galaxies@[i as int], self.galaxies@[b])
                            <= usize::MAX,
                decreases n - j,
            {
                match galaxy_distance(&self.galaxies[i], &self.galaxies[j]) {
                    Some(d) => {
                        dists.push(d);
                        assert(dists@ =~= before + dists_from(self.galaxies@, i as int, j + 1));
                    },
                    None => {
                        assert(distance(self.galaxies@[i as int], self.galaxies@[j as int])
                            > usize::MAX);
                        return None;
                    },
                }
                j += 1;
            }
            i += 1;
        }
        Some(dists)
    }
}

/// The places of the galaxies among the first `k` bytes of row `y`.
pub open spec fn row_stars(row: Seq<u8>, y: int, k: nat) -> Seq<(int, int)>
    decreases k,
{
    if k == 0 {
        Seq::empty()
    } else if row[k - 1] == 35u8 {
        row_stars(row, y, (k - 1) as nat).push((k - 1, y))
    } else {
        row_stars(row, y, (k - 1) as nat)
    }
}

/// The places of the galaxies in the first `k` rows, row by row.
pub open spec fn all_stars(rows: Seq<Seq<u8>>, k: nat) -> Seq<(int, int)>
    decreases k,
{
    if k == 0 {
        Seq::empty()
    } else {
        all_stars(rows, (k - 1) as nat) + row_stars(rows[k - 1], k - 1, rows[k - 1].len())
    }
}

/// The column and the row of each galaxy.
pub open spec fn places(galaxies: Seq<[usize; 2]>) -> Seq<(int, int)> {
    Seq::new(galaxies.len(), |i: int| (galaxies[i]@[0] as int, galaxies[i]@[1] as int))
}

/// Reads the galaxies, written as `#`, with their column and row. The
/// width is the length of the first line, the height the number of
/// lines. `None` if the text has no line feed.
pub fn parse_input(input: &str) -> (r: Option<Universe>)
    ensures
        match r {
            Some(u) => input.spec_bytes().contains(10u8) && u.width == first_index(
                input.spec_bytes(),
                10u8,
            ) && u.height == lines(input.spec_bytes()).len() && places(u.galaxies@) == all_stars(
                lines(input.spec_bytes()),
                lines(input.spec_bytes()).len(),
            ),
            None => !input.spec_bytes().contains(10u8),
        },
{
    let bytes = input.as_bytes();
    let width = match find_byte(bytes, 10u8) {
        Some(width) => width,
        None => {
            return None;
        },
    };
    let all = split_lines(bytes);
    let ghost rows = lines(input.spec_bytes());
    let height = all.len();
    let mut galaxies: Vec<[usize; 2]> = Vec::new();
    let mut y: usize = 0;
    assert(places(galaxies@) =~= all_stars(rows, 0));
    while y < height
        invariant
            height == all@.len(),
            rows == views(all@),
            y <= height,
            places(galaxies@) == all_stars(rows, y as nat),
        decreases height - y,
    {
        let row = &all[y];
        let len = row.len();
        assert(rows[y as int] == row@);
        let ghost before = places(galaxies@);
        let mut x: usize = 0;
        assert(places(galaxies@) =~= before + row_stars(row@, y as int, 0));
        while x < len
            invariant
                len == row@.len(),
                x <= len,
                places(galaxies@) == before + row_stars(row@, y as int, x as nat),
            decreases len - x,
        {
            if row[x] == 35u8 {
                let ghost old_places = places(galaxies@);
                let galaxy: [usize; 2] = [x, y];
                assert(galaxy@[0] == x && galaxy@[1] == y);
                galaxies.push(galaxy);
                assert(places(galaxies@) =~= old_places.push((x as int, y as int)));
                assert(places(galaxies@) =~= before + row_stars(row@, y as int, (x + 1) as nat));
            }
            x += 1;
        }
        y += 1;
    }
    Some(Universe { galaxies, width, height })
}

/// The sum of the first `k` numbers.
pub open spec fn sum_of(values: Seq<usize>, k: nat) -> nat
    decreases k,
{
    if k == 0 {
        0
    } else {
        sum_of(values, (k - 1) as nat) + values[k - 1] as nat
    }
}

/// The sum grows with the number of numbers.
pub proof fn lemma_sum_of_grows(values: Seq<usize>, a: nat, b: nat)
    requires
        a <= b,
    ensures
        sum_of(values, a) <= sum_of(values, b),
    decreases b,
{
    if a < b {
        lemma_sum_of_grows(values, a, (b - 1) as nat);
    }
}

/// The sum of the numbers, if it fits the machine word.
pub fn sum(values: &Vec<usize>) -> (r: Option<usize>)
    ensures
        r matches Some(total) ==> total == sum_of(values@, values@.len()),
        r is Some <==> sum_of(values@, values@.len()) <= usize::MAX,
{
    let mut total: usize = 0;
    let mut i: usize = 0;
    while i < values.len()
        invariant
            i <= values@.len(),
            total == sum_of(values@, i as nat),
        decreases values@.len() - i,
    {
        total = match total.checked_add(values[i]) {
            Some(total) => total,
            None => {
                proof {
                    lemma_sum_of_grows(values@, (i + 1) as nat, values@.len());
                }
                return None;
            },
        };
        i += 1;
    }
    Some(total)
}

/// `total` is the sum of the distances between all pairs of the galaxies
/// that the text shows, after every empty line has grown by `rate`.
pub open spec fn is_total(input: Seq<u8>, rate: nat, total: nat) -> bool {
    exists|galaxies: Seq<[usize; 2]>, expanded: Seq<[usize; 2]>|
        places(galaxies) == all_stars(lines(input), lines(input).len()) && #[trigger] is_expansion(
            galaxies,
            first_index(input, 10u8) as nat,
            lines(input).len(),
            rate,
            expanded,
        ) && total == sum_of(
            all_dists(expanded, expanded.len()),
            all_dists(expanded, expanded.len()).len(),
        )
}

/// The galaxies, moved apart by `rate`, leave the machine word, or a
/// distance between two of them or the sum of the distances does.
pub open spec fn too_far(galaxies: Seq<[usize; 2]>, width: nat, height: nat, rate: nat) -> bool {
    !expansion_fits(galaxies, width, height, rate) || exists|expanded: Seq<[usize; 2]>| #[trigger]
        is_expansion(galaxies, width, height, rate, expanded) && (!dists_fit(expanded) || sum_of(
            all_dists(expanded, expanded.len()),
            all_dists(expanded, expanded.len()).len(),
        ) > usize::MAX)
}

/// The text has no line feed, or the galaxies that it shows are too far
/// apart when every empty line has grown by `rate`.
pub open spec fn no_total(input: Seq<u8>, rate: nat) -> bool {
    !input.contains(10u8) || exists|galaxies: Seq<[usize; 2]>|
        places(galaxies) == all_stars(lines(input), lines(input).len()) && #[trigger] too_far(
            galaxies,
            first_index(input, 10u8) as nat,
            lines(input).len(),
            rate,
        )
}

/// The sum of the distances when every empty line grows by `rate`.
fn solve(input: &str, rate: usize) -> (r: Option<usize>)
    ensures
        r matches Some(total) ==> is_total(input.spec_bytes(), rate as nat, total as nat),
        r is None ==> no_total(input.spec_bytes(), rate as nat),
{
    let universe = match parse_input(input) {
        Some(universe) => universe,
        None => {
            return None;
        },
    };
    let ghost galaxies = universe.galaxies@;
    let ghost width = first_index(input.spec_bytes(), 10u8) as nat;
    let ghost height = lines(input.spec_bytes()).len();
    let expanded = match universe.expand(rate) {
        Some(expanded) => expanded,
        None => {
            assert(too_far(galaxies, width, height, rate as nat));
            return None;
        },
    };
    let ghost moved = expanded.galaxies@;
    assert(is_expansion(galaxies, width, height, rate as nat, moved));
    match expanded.shortest_dists() {
        Some(dists) => {
            let r = sum(&dists);
            proof {
                if r is None {
                    assert(too_far(galaxies, width, height, rate as nat));
                }
            }
            r
        },
        None => {
            assert(too_far(galaxies, width, height, rate as nat));
            None
        },
    }
}

/// The sum of the distances when every empty line counts twice.
pub fn get_solution_1(input: &str) -> (r: Option<usize>)
    ensures
        r matches Some(total) ==> is_total(input.spec_bytes(), 1, total as nat),
        r is None ==> no_total(input.spec_bytes(), 1),
{
    solve(input, 1)
}

/// The sum of the distances when every empty line counts a million
/// times.
pub fn get_solution_2(input: &str) -> (r: Option<usize>)
    ensures
        r matches Some(total) ==> is_total(input.spec_bytes(), 999999, total as nat),
        r is None ==> no_total(input.spec_bytes(), 999999),
{
    solve(input, 999999)
}

} // verus!
