//! Seeds are carried through a chain of maps, each a list of ranges that
//! are shifted; part two carries whole ranges of seeds.

use vstd::prelude::*;
use vstd::string::StringSliceAdditionalSpecFns;
use crate::text::{
    views, lines, words, numbers_among, first_index, split_lines, split_words, parse_usizes,
    find_byte, copy_range,
};

verus! {

/// One line of a map: the `range` items from `source` on go to `dest` on.
#[derive(Debug, Clone, Copy, PartialEq, Eq)]
pub struct MapEntry {
    pub dest: usize,
    pub source: usize,
    pub range: usize,
}

/// The larger of two numbers.
pub open spec fn larger(a: int, b: int) -> int {
    if a >= b {
        a
    } else {
        b
    }
}

/// The smaller of two numbers.
pub open spec fn smaller(a: int, b: int) -> int {
    if a <= b {
        a
    } else {
        b
    }
}

impl MapEntry {
    /// Neither the source range nor the destination range runs past the
    /// largest machine word.
    pub open spec fn wf(&self) -> bool {
        self.source + self.range <= usize::MAX && self.dest + self.range <= usize::MAX
    }

    /// Where the part of `seed` inside the source range begins.
    pub open spec fn inner_start(&self, seed: (usize, usize)) -> int {
        larger(seed.0 as int, self.source as int)
    }

    /// Where the part of `seed` inside the source range ends.
    pub open spec fn inner_end(&self, seed: (usize, usize)) -> int {
        smaller(seed.1 as int, self.source + self.range)
    }

    /// What of the seed ranges `seeds` lies outside the source range, in
    /// order: for each the part to the left, then the part to the right.
    pub open spec fn left_over(&self, seeds: Seq<(usize, usize)>) -> Seq<(usize, usize)>
        decreases seeds.len(),
    {
        if seeds.len() == 0 {
            seeds
        } else {
            let seed = seeds.last();
            let before = self.left_over(seeds.drop_last());
            let with_left = if seed.0 < self.inner_start(seed) {
                before.push((seed.0, smaller(self.inner_start(seed), seed.1 as int) as usize))
            } else {
                before
            };
            if seed.1 > self.inner_end(seed) {
                with_left.push((larger(self.inner_end(seed), seed.0 as int) as usize, seed.1))
            } else {
                with_left
            }
        }
    }

    /// What of the seed ranges `seeds` lies inside the source range, in
    /// order and shifted to the destination.
    pub open spec fn carried(&self, seeds: Seq<(usize, usize)>) -> Seq<(usize, usize)>
        decreases seeds.len(),
    {
        if seeds.len() == 0 {
            seeds
        } else {
            let seed = seeds.last();
            let before = self.carried(seeds.drop_last());
            if self.inner_start(seed) < self.inner_end(seed) {
                before.push(
                    (
                        (self.inner_start(seed) + self.dest - self.source) as usize,
                        (self.inner_end(seed) + self.dest - self.source) as usize,
                    ),
                )
            } else {
                before
            }
        }
    }

    /// Whether `item` lies in the source range.
    pub fn in_range(&self, item: usize) -> (r: bool)
        ensures
            r == (self.source <= item < self.source + self.range),
    {
        self.source <= item && item - self.source < self.range
    }

    /// Where `item` goes, if it lies in the source range.
    pub fn try_convert(&self, item: usize) -> (r: Option<usize>)
        requires
            self.wf(),
        ensures
            r == if self.source <= item < self.source + self.range {
                Some((item - self.source + self.dest) as usize)
            } else {
                None
            },
    {
        if self.in_range(item) {
            Some(item - self.source + self.dest)
        } else {
            None
        }
    }

    /// Splits each seed range, given as start and end with the end left
    /// out, at the borders of the source range. The parts inside are
    /// shifted and appended to `mapped`; the parts outside are returned.
    pub fn do_split(&self, seeds: Vec<(usize, usize)>, mapped: &mut Vec<(usize, usize)>) -> (rest:
        Vec<(usize, usize)>)
        requires
            self.wf(),
        ensures
            rest@ == self.left_over(seeds@),
            final(mapped)@ == old(mapped)@ + self.carried(seeds@),
    {
        let mut rest: Vec<(usize, usize)> = Vec::new();
        let mut i: usize = 0;
        let limit = self.source + self.range;
        assert(seeds@.take(0) =~= Seq::<(usize, usize)>::empty());
        assert(mapped@ =~= old(mapped)@ + self.carried(seeds@.take(0)));
        while i < seeds.len()
            invariant
                self.wf(),
                limit == self.source + self.range,
                i <= seeds@.len(),
                rest@ == self.left_over(seeds@.take(i as int)),
                mapped@ == old(mapped)@ + self.carried(seeds@.take(i as int)),
            decreases seeds@.len() - i,
        {
            let (start, end) = seeds[i];
            assert(seeds@.take(i + 1).drop_last() =~= seeds@.take(i as int));
            assert(seeds@.take(i + 1).last() == (start, end));
            let mstart = if start >= self.source {
                start
            } else {
                self.source
            };
            let mend = if end <= limit {
                end
            } else {
                limit
            };
            let ghost before = mapped@;
            if mstart < mend {
                mapped.push((mstart - self.source + self.dest, mend - self.source + self.dest));
            }
            assert(mapped@ =~= old(mapped)@ + self.carried(seeds@.take(i + 1)));
            if start < mstart {
                rest.push(
                    (
                        start,
                        if mstart <= end {
                            mstart
                        } else {
                            end
                        },
                    ),
                );
            }
            if end > mend {
                rest.push(
                    (
                        if mend >= start {
                            mend
                        } else {
                            start
                        },
                        end,
                    ),
                );
            }
            i += 1;
        }
        assert(seeds@.take(i as int) =~= seeds@);
        rest
    }
}

/// Where the first entry of `map`, from index `k` on, that holds `seed` in
/// its source range sends it; `seed` itself if there is none.
pub open spec fn through_map(map: Seq<MapEntry>, seed: usize, k: int) -> usize
    decreases map.len() - k,
{
    if k < 0 || k >= map.len() {
        seed
    } else if map[k].source <= seed < map[k].source + map[k].range {
        (seed - map[k].source + map[k].dest) as usize
    } else {
        through_map(map, seed, k + 1)
    }
}

/// Where `seed` ends up after the first `k` maps.
pub open spec fn location_of(maps: Seq<Seq<MapEntry>>, seed: usize, k: nat) -> usize
    decreases k,
{
    if k == 0 {
        seed
    } else {
        through_map(maps[k - 1], location_of(maps, seed, (k - 1) as nat), 0)
    }
}

/// Every entry of every map is well formed.
pub open spec fn maps_wf(maps: Seq<Vec<MapEntry>>) -> bool {
    forall|m: int, e: int|
        0 <= m < maps.len() && 0 <= e < maps[m]@.len() ==> (#[trigger] maps[m]@[e]).wf()
}

/// Carries one seed through all maps in order.
pub fn map_to_location(seed: usize, maps: &Vec<Vec<MapEntry>>) -> (r: usize)
    requires
        maps_wf(maps@),
    ensures
        r == location_of(views(maps@), seed, maps@.len()),
{
    let mut seed = seed;
    let ghost first = seed;
    let mut m: usize = 0;
    while m < maps.len()
        invariant
            maps_wf(maps@),
            m <= maps@.len(),
            seed == location_of(views(maps@), first, m as nat),
        decreases maps@.len() - m,
    {
        let map = &maps[m];
        assert(views(maps@)[m as int] == maps@[m as int]@);
        let mut next = seed;
        let mut e: usize = 0;
        let mut found = false;
        while e < map.len()
            invariant
                maps_wf(maps@),
                m < maps@.len(),
                map@ == maps@[m as int]@,
                e <= map@.len(),
                !found ==> next == seed && through_map(map@, seed, 0) == through_map(
                    map@,
                    seed,
                    e as int,
                ),
                found ==> e == map@.len() && next == through_map(map@, seed, 0),
            decreases map@.len() - e,
        {
            assert(maps@[m as int]@[e as int].wf());
            match map[e].try_convert(seed) {
                Some(n) => {
                    next = n;
                    found = true;
                    e = map.len();
                },
                None => {
                    e += 1;
                },
            }
        }
        seed = next;
        m += 1;
    }
    seed
}

/// The seed ranges after one map: every entry in turn takes what lies in
/// its source range out of what is left; what no entry took follows, then
/// what was taken, shifted.
pub open spec fn ranges_through_map(
    map: Seq<MapEntry>,
    seeds: Seq<(usize, usize)>,
    k: nat,
) -> (Seq<(usize, usize)>, Seq<(usize, usize)>)
    decreases k,
{
    if k == 0 {
        (seeds, Seq::empty())
    } else {
        let (left, taken) = ranges_through_map(map, seeds, (k - 1) as nat);
        (map[k - 1].left_over(left), taken + map[k - 1].carried(left))
    }
}

/// The seed ranges after the first `k` maps.
pub open spec fn ranges_located(maps: Seq<Seq<MapEntry>>, seeds: Seq<(usize, usize)>, k: nat) -> Seq<
    (usize, usize),
>
    decreases k,
{
    if k == 0 {
        seeds
    } else {
        let before = ranges_located(maps, seeds, (k - 1) as nat);
        let (left, taken) = ranges_through_map(maps[k - 1], before, maps[k - 1].len());
        left + taken
    }
}

/// Carries ranges of seeds through all maps in order.
pub fn map_to_location_range(seeds: Vec<(usize, usize)>, maps: &Vec<Vec<MapEntry>>) -> (r: Vec<
    (usize, usize),
>)
    requires
        maps_wf(maps@),
    ensures
        r@ == ranges_located(views(maps@), seeds@, maps@.len()),
{
    let mut seeds = seeds;
    let ghost first = seeds@;
    let mut m: usize = 0;
    while m < maps.len()
        invariant
            maps_wf(maps@),
            m <= maps@.len(),
            seeds@ == ranges_located(views(maps@), first, m as nat),
        decreases maps@.len() - m,
    {
        let map = &maps[m];
        assert(views(maps@)[m as int] == maps@[m as int]@);
        let mut mapped_seeds: Vec<(usize, usize)> = Vec::new();
        let ghost before = seeds@;
        let mut e: usize = 0;
        while e < map.len()
            invariant
                maps_wf(maps@),
                m < maps@.len(),
                map@ == maps@[m as int]@,
                e <= map@.len(),
                (seeds@, mapped_seeds@) == ranges_through_map(map@, before, e as nat),
            decreases map@.len() - e,
        {
            assert(maps@[m as int]@[e as int].wf());
            let ghost taken = mapped_seeds@;
            seeds = map[e].do_split(seeds, &mut mapped_seeds);
            e += 1;
        }
        let ghost left = seeds@;
        seeds.append(&mut mapped_seeds);
        m += 1;
    }
    seeds
}

/// The first three numbers of `numbers` as an entry: destination, source
/// and length.
pub fn entry_from(numbers: &Vec<usize>) -> (r: Option<MapEntry>)
    ensures
        match r {
            Some(entry) => numbers@.len() >= 3 && entry == (MapEntry {
                dest: numbers@[0],
                source: numbers@[1],
                range: numbers@[2],
            }) && entry.wf(),
            None => numbers@.len() < 3 || !(MapEntry {
                dest: numbers@[0],
                source: numbers@[1],
                range: numbers@[2],
            }).wf(),
        },
{
    if numbers.len() < 3 {
        return None;
    }
    let entry = MapEntry { dest: numbers[0], source: numbers[1], range: numbers[2] };
    if entry.source <= usize::MAX - entry.range && entry.dest <= usize::MAX - entry.range {
        Some(entry)
    } else {
        None
    }
}

/// The entry that three numbers or more write, if its ranges fit the
/// machine word.
pub open spec fn entry_of(numbers: Seq<usize>) -> Option<MapEntry> {
    if numbers.len() >= 3 && (MapEntry {
        dest: numbers[0],
        source: numbers[1],
        range: numbers[2],
    }).wf() {
        Some(MapEntry { dest: numbers[0], source: numbers[1], range: numbers[2] })
    } else {
        None
    }
}

/// The entries from line `i` up to the next empty line, added to `acc`,
/// and the index of that line.
pub open spec fn read_entries(rows: Seq<Seq<u8>>, i: int, acc: Seq<MapEntry>) -> Option<
    (Seq<MapEntry>, int),
>
    decreases rows.len() - i,
{
    if i < 0 || i >= rows.len() || rows[i].len() == 0 {
        Some((acc, i))
    } else {
        match entry_of(numbers_among(words(rows[i]))) {
            Some(entry) => read_entries(rows, i + 1, acc.push(entry)),
            None => None,
        }
    }
}

/// The maps from line `i` on, added to `acc`: each a heading, its
/// entries, and an empty line unless the text ends.
pub open spec fn read_maps(rows: Seq<Seq<u8>>, i: int, acc: Seq<Seq<MapEntry>>) -> Option<
    Seq<Seq<MapEntry>>,
>
    decreases rows.len() - i,
{
    if i < 0 || i >= rows.len() {
        Some(acc)
    } else {
        match read_entries(rows, i + 1, Seq::empty()) {
            Some((map, end)) => if end <= i {
                None
            } else if end < rows.len() {
                read_maps(rows, end + 1, acc.push(map))
            } else {
                Some(acc.push(map))
            },
            None => None,
        }
    }
}

/// The seeds that the first line names behind its colon.
pub open spec fn seeds_of(rows: Seq<Seq<u8>>) -> Seq<usize> {
    numbers_among(words(rows[0].skip(first_index(rows[0], 58u8) + 1)))
}

/// The seeds and the maps that the lines write.
pub open spec fn almanac(rows: Seq<Seq<u8>>) -> Option<(Seq<usize>, Seq<Seq<MapEntry>>)> {
    if rows.len() == 0 || first_index(rows[0], 58u8) >= rows[0].len() {
        None
    } else {
        match read_maps(rows, 2, Seq::empty()) {
            Some(maps) => Some((seeds_of(rows), maps)),
            None => None,
        }
    }
}

/// The end of a run of entries lies behind its beginning, within the
/// lines.
pub proof fn lemma_read_entries_end(rows: Seq<Seq<u8>>, i: int, acc: Seq<MapEntry>)
    requires
        0 <= i <= rows.len(),
    ensures
        read_entries(rows, i, acc) matches Some((_, end)) ==> i <= end <= rows.len(),
    decreases rows.len() - i,
{
    if i < rows.len() && rows[i].len() != 0 {
        match entry_of(numbers_among(words(rows[i]))) {
            Some(entry) => {
                lemma_read_entries_end(rows, i + 1, acc.push(entry));
            },
            None => {},
        }
    }
}

/// Reads the seeds from the first line and then the maps, each a heading
/// and its entries up to the next empty line. `None` if there is no first
/// line with a colon, or an entry has fewer than three numbers or a range
/// that runs past the largest machine word.
pub fn parse_input(input: &str) -> (r: Option<(Vec<usize>, Vec<Vec<MapEntry>>)>)
    ensures
        match r {
            Some((seeds, maps)) => maps_wf(maps@) && almanac(lines(input.spec_bytes())) == Some(
                (seeds@, views(maps@)),
            ),
            None => almanac(lines(input.spec_bytes())) is None,
        },
{
    let all = split_lines(input.as_bytes());
    let ghost rows = lines(input.spec_bytes());
    let n = all.len();
    if n == 0 {
        return None;
    }
    assert(rows[0] == all@[0]@);
    let colon = match find_byte(all[0].as_slice(), 58u8) {
        Some(c) => c,
        None => {
            return None;
        },
    };
    let tail = copy_range(all[0].as_slice(), colon + 1, all[0].len());
    assert(tail@ =~= rows[0].skip(colon + 1));
    let seeds = parse_usizes(&split_words(tail.as_slice()));
    let mut maps: Vec<Vec<MapEntry>> = Vec::new();
    let mut i: usize = 2;
    assert(views(maps@) =~= Seq::<Seq<MapEntry>>::empty());
    while i < n
        invariant
            n == all@.len(),
            rows == lines(input.spec_bytes()),
            views(all@) == rows,
            maps_wf(maps@),
            2 <= i,
            colon < rows[0].len(),
            colon == first_index(rows[0], 58u8),
            read_maps(rows, 2, Seq::empty()) == read_maps(rows, i as int, views(maps@))
                || (i >= n && read_maps(rows, 2, Seq::empty()) == Some(views(maps@))),
        decreases n - i,
    {
        let ghost heading = i;
        let ghost done = views(maps@);
        i += 1;
        let mut map: Vec<MapEntry> = Vec::new();
        proof {
            lemma_read_entries_end(rows, heading + 1, Seq::empty());
        }
        while i < n && all[i].len() > 0
            invariant
                n == all@.len(),
                views(all@) == rows,
                rows == lines(input.spec_bytes()),
                2 <= heading < i <= n,
                colon < rows[0].len(),
                colon == first_index(rows[0], 58u8),
                read_maps(rows, 2, Seq::empty()) == read_maps(rows, heading as int, done),
                forall|e: int| 0 <= e < map@.len() ==> (#[trigger] map@[e]).wf(),
                read_entries(rows, heading + 1, Seq::empty()) == read_entries(
                    rows,
                    i as int,
                    map@,
                ),
            decreases n - i,
        {
            assert(rows[i as int] == all@[i as int]@);
            let numbers = parse_usizes(&split_words(all[i].as_slice()));
            match entry_from(&numbers) {
                Some(entry) => {
                    map.push(entry);
                },
                None => {
                    assert(read_entries(rows, i as int, map@) is None);
                    assert(read_maps(rows, heading as int, done) is None);
                    return None;
                },
            }
            i += 1;
        }
        proof {
            if i < n {
                assert(rows[i as int] == all@[i as int]@);
            }
            assert(read_entries(rows, heading + 1, Seq::empty()) == Some((map@, i as int)));
        }
        if i < n {
            i += 1;
        }
        let ghost old_maps = maps@;
        maps.push(map);
        assert(views(maps@) =~= done.push(map@));
        assert forall|m: int, e: int|
            0 <= m < maps@.len() && 0 <= e < maps@[m]@.len() implies (#[trigger] maps@[m]@[e]).wf() by {
            if m < old_maps.len() {
                assert(maps@[m] == old_maps[m]);
            }
        }
    }
    Some((seeds, maps))
}

/// The least of the first `k` numbers; the largest machine word for none.
pub open spec fn least(values: Seq<usize>, k: nat) -> usize
    decreases k,
{
    if k == 0 {
        usize::MAX
    } else if values[k - 1] < least(values, (k - 1) as nat) {
        values[k - 1]
    } else {
        least(values, (k - 1) as nat)
    }
}

/// The locations of the seeds.
pub open spec fn locations(seeds: Seq<usize>, maps: Seq<Seq<MapEntry>>) -> Seq<usize> {
    Seq::new(seeds.len(), |i: int| location_of(maps, seeds[i], maps.len()))
}

/// The nearest location that any seed ends up at; the largest machine word
/// if there is no seed. `None` if the text cannot be read.
pub fn get_solution_1(input: &str) -> (r: Option<usize>)
    ensures
        match almanac(lines(input.spec_bytes())) {
            Some((seeds, maps)) => r == Some(least(locations(seeds, maps), seeds.len())),
            None => r is None,
        },
{
    let (seeds, maps) = match parse_input(input) {
        Some(parsed) => parsed,
        None => {
            return None;
        },
    };
    let mut best: usize = usize::MAX;
    let mut i: usize = 0;
    while i < seeds.len()
        invariant
            maps_wf(maps@),
            i <= seeds@.len(),
            best == least(locations(seeds@, views(maps@)), i as nat),
        decreases seeds@.len() - i,
    {
        let location = map_to_location(seeds[i], &maps);
        if location < best {
            best = location;
        }
        i += 1;
    }
    Some(best)
}

/// The range that the `i`-th pair of seed numbers describes ends within
/// the machine word.
pub open spec fn pair_fits(seeds: Seq<usize>, i: int) -> bool {
    seeds[2 * i] + seeds[2 * i + 1] <= usize::MAX
}

/// The seed numbers as ranges: each pair a start and a length.
pub open spec fn pairs_of(seeds: Seq<usize>) -> Seq<(usize, usize)> {
    Seq::new(
        (seeds.len() / 2) as nat,
        |i: int| (seeds[2 * i], (seeds[2 * i] + seeds[2 * i + 1]) as usize),
    )
}

/// Every range of seeds ends within the machine word.
pub open spec fn pairs_fit(seeds: Seq<usize>) -> bool {
    forall|i: int| 0 <= i < seeds.len() / 2 ==> #[trigger] pair_fits(seeds, i)
}

/// The seed numbers read as pairs of start and length.
pub fn seed_ranges(seeds: &Vec<usize>) -> (r: Option<Vec<(usize, usize)>>)
    ensures
        match r {
            Some(ranges) => pairs_fit(seeds@) && ranges@ == pairs_of(seeds@),
            None => !pairs_fit(seeds@),
        },
{
    let mut ranges: Vec<(usize, usize)> = Vec::new();
    let mut i: usize = 0;
    while i + 1 < seeds.len()
        invariant
            i % 2 == 0,
            i <= seeds@.len(),
            ranges@.len() == i / 2,
            forall|k: int| 0 <= k < ranges@.len() ==> #[trigger] pair_fits(seeds@, k),
            forall|k: int|
                0 <= k < ranges@.len() ==> (#[trigger] ranges@[k]) == pairs_of(seeds@)[k],
        decreases seeds@.len() - i,
    {
        let start = seeds[i];
        let length = seeds[i + 1];
        if start > usize::MAX - length {
            assert(!pair_fits(seeds@, (i / 2) as int));
            return None;
        }
        let ghost before = ranges@;
        ranges.push((start, start + length));
        assert forall|k: int| 0 <= k < ranges@.len() implies #[trigger] pair_fits(seeds@, k) by {
            if k < before.len() {
                assert(pair_fits(seeds@, k));
            }
        }
        i += 2;
    }
    assert(ranges@ =~= pairs_of(seeds@));
    Some(ranges)
}

/// The least start among the first `k` ranges; the largest machine word
/// for none.
pub open spec fn least_start(ranges: Seq<(usize, usize)>, k: nat) -> usize
    decreases k,
{
    if k == 0 {
        usize::MAX
    } else if ranges[k - 1].0 < least_start(ranges, (k - 1) as nat) {
        ranges[k - 1].0
    } else {
        least_start(ranges, (k - 1) as nat)
    }
}

/// The nearest location that any seed of the seed ranges ends up at.
/// `None` if the text cannot be read, a range of seeds runs past the
/// largest machine word, or there is no seed range.
pub fn get_solution_2(input: &str) -> (r: Option<usize>)
    ensures
        match almanac(lines(input.spec_bytes())) {
            Some((seeds, maps)) => if pairs_fit(seeds) && ranges_located(
                maps,
                pairs_of(seeds),
                maps.len(),
            ).len() > 0 {
                r == Some(
                    least_start(
                        ranges_located(maps, pairs_of(seeds), maps.len()),
                        ranges_located(maps, pairs_of(seeds), maps.len()).len(),
                    ),
                )
            } else {
                r is None
            },
            None => r is None,
        },
{
    let (seeds, maps) = match parse_input(input) {
        Some(parsed) => parsed,
        None => {
            return None;
        },
    };
    let ranges = match seed_ranges(&seeds) {
        Some(ranges) => ranges,
        None => {
            return None;
        },
    };
    let located = map_to_location_range(ranges, &maps);
    if located.len() == 0 {
        return None;
    }
    let mut best: usize = located[0].0;
    let mut i: usize = 1;
    assert(least_start(located@, 0) == usize::MAX);
    assert(least_start(located@, 1) == located@[0].0);
    while i < located.len()
        invariant
            1 <= i <= located@.len(),
            best == least_start(located@, i as nat),
        decreases located@.len() - i,
    {
        if located[i].0 < best {
            best = located[i].0;
        }
        i += 1;
    }
    Some(best)
}

} // verus!
