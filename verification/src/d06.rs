//! Boat races: the button is held for some of the time, and the boat then
//! travels one unit for each unit held in each unit of time that is left.

use vstd::prelude::*;

verus! {

/// Holding the button for `pushed` of `time` units beats `record`.
pub open spec fn beats(time: usize, record: usize, pushed: int) -> bool {
    (time - pushed) * pushed > record
}

/// The hold times below `k` that beat the record, in rising order.
pub open spec fn ways(time: usize, record: usize, k: nat) -> Seq<usize>
    decreases k,
{
    if k == 0 {
        Seq::empty()
    } else if beats(time, record, k - 1) {
        ways(time, record, (k - 1) as nat).push((k - 1) as usize)
    } else {
        ways(time, record, (k - 1) as nat)
    }
}

/// Whether holding the button for `pushed` units beats the record.
fn is_win(time: usize, record: usize, pushed: usize) -> (r: bool)
    requires
        pushed <= time,
    ensures
        r == beats(time, record, pushed as int),
{
    let left = (time - pushed) as u128;
    let held = pushed as u128;
    assert(left * held <= usize::MAX * usize::MAX) by (nonlinear_arith)
        requires
            0 <= left <= usize::MAX,
            0 <= held <= usize::MAX,
    ;
    assert(usize::MAX * usize::MAX <= u128::MAX) by (nonlinear_arith)
        requires
            usize::MAX <= u64::MAX,
    ;
    left * held > record as u128
}

/// All hold times from zero up to the whole time of the race that beat
/// the record.
pub fn determine_ways_to_beat(race: (usize, usize)) -> (r: Vec<usize>)
    requires
        race.0 < usize::MAX,
    ensures
        r@ == ways(race.0, race.1, (race.0 + 1) as nat),
{
    let (time, record) = race;
    let mut out: Vec<usize> = Vec::new();
    let mut pushed: usize = 0;
    while pushed <= time
        invariant
            time < usize::MAX,
            pushed <= time + 1,
            out@ == ways(time, record, pushed as nat),
        decreases time + 1 - pushed,
    {
        if is_win(time, record, pushed) {
            out.push(pushed);
        }
        pushed += 1;
    }
    out
}

/// The product over the first `k` races of the number of ways to win.
pub open spec fn ways_product(races: Seq<(usize, usize)>, k: nat) -> nat
    decreases k,
{
    if k == 0 {
        1
    } else {
        ways_product(races, (k - 1) as nat) * ways(
            races[k - 1].0,
            races[k - 1].1,
            (races[k - 1].0 + 1) as nat,
        ).len()
    }
}

/// Every race takes less than the largest machine word of time, and the
/// product of the ways fits the machine word after each race.
pub open spec fn races_fit(races: Seq<(usize, usize)>) -> bool {
    &&& forall|i: int| 0 <= i < races.len() ==> (#[trigger] races[i]).0 < usize::MAX
    &&& forall|k: nat| k <= races.len() ==> #[trigger] ways_product(races, k) <= usize::MAX
}

/// The product of the numbers of ways to win each race. `None` if a race
/// takes the largest machine word of time, or the product does not fit.
pub fn get_solution_1(races: &Vec<(usize, usize)>) -> (r: Option<usize>)
    ensures
        r matches Some(product) ==> product == ways_product(races@, races@.len()),
        r is Some <==> races_fit(races@),
{
    let mut product: usize = 1;
    let mut i: usize = 0;
    while i < races.len()
        invariant
            i <= races@.len(),
            product == ways_product(races@, i as nat),
            forall|t: int| 0 <= t < i ==> (#[trigger] races@[t]).0 < usize::MAX,
            forall|k: nat| k <= i ==> #[trigger] ways_product(races@, k) <= usize::MAX,
        decreases races@.len() - i,
    {
        if races[i].0 == usize::MAX {
            assert(!(races@[i as int].0 < usize::MAX));
            return None;
        }
        let count = determine_ways_to_beat(races[i]).len();
        product = match product.checked_mul(count) {
            Some(product) => product,
            None => {
                assert(ways_product(races@, (i + 1) as nat) > usize::MAX);
                return None;
            },
        };
        i += 1;
    }
    Some(product)
}

/// The number of ways to win the one long race.
pub fn get_solution_2(race: (usize, usize)) -> (r: usize)
    requires
        race.0 < usize::MAX,
    ensures
        r == ways(race.0, race.1, (race.0 + 1) as nat).len(),
{
    determine_ways_to_beat(race).len()
}

} // verus!
