//! Cubes of three colours are drawn from a bag several times in a game;
//! the solver asks which games a given bag allows, and which bag is the
//! smallest that allows a game.

use vstd::prelude::*;
use vstd::string::StringSliceAdditionalSpecFns;
use crate::text::{
    views, lines, words, split, parse_nat, first_index, split_lines, split_bytes, split_words,
    parse_usize, find_byte, copy_range,
};

verus! {

#[derive(Debug, Clone, Copy, PartialEq, Eq)]
pub enum Color {
    R,
    G,
    B,
}

/// The colour that a word names.
pub open spec fn color_of(s: Seq<u8>) -> Option<Color> {
    if s == seq![114u8, 101u8, 100u8] {
        Some(Color::R)
    } else if s == seq![103u8, 114u8, 101u8, 101u8, 110u8] {
        Some(Color::G)
    } else if s == seq![98u8, 108u8, 117u8, 101u8] {
        Some(Color::B)
    } else {
        None
    }
}

/// The place of a colour in a draw.
pub open spec fn color_index(color: Color) -> int {
    match color {
        Color::R => 0,
        Color::G => 1,
        Color::B => 2,
    }
}

impl Color {
    /// The colour that `s` names: `red`, `green` or `blue`.
    pub fn from(s: &[u8]) -> (r: Option<Color>)
        ensures
            r == color_of(s@),
    {
        if s.len() == 3 && s[0] == 114 && s[1] == 101 && s[2] == 100 {
            assert(s@ =~= seq![114u8, 101u8, 100u8]);
            Some(Color::R)
        } else if s.len() == 5 && s[0] == 103 && s[1] == 114 && s[2] == 101 && s[3] == 101 && s[4]
            == 110 {
            assert(s@ =~= seq![103u8, 114u8, 101u8, 101u8, 110u8]);
            Some(Color::G)
        } else if s.len() == 4 && s[0] == 98 && s[1] == 108 && s[2] == 117 && s[3] == 101 {
            assert(s@ =~= seq![98u8, 108u8, 117u8, 101u8]);
            Some(Color::B)
        } else {
            proof {
                let red = seq![114u8, 101u8, 100u8];
                let green = seq![103u8, 114u8, 101u8, 101u8, 110u8];
                let blue = seq![98u8, 108u8, 117u8, 101u8];
                if s@ == red {
                    assert(s@[0] == red[0] && s@[1] == red[1] && s@[2] == red[2]);
                }
                if s@ == green {
                    assert(s@[0] == green[0] && s@[1] == green[1] && s@[2] == green[2] && s@[3]
                        == green[3] && s@[4] == green[4]);
                }
                if s@ == blue {
                    assert(s@[0] == blue[0] && s@[1] == blue[1] && s@[2] == blue[2] && s@[3]
                        == blue[3]);
                }
            }
            None
        }
    }
}

/// The number of cubes of `color` in the draw.
pub fn index(draw: &[usize; 3], color: Color) -> (n: usize)
    ensures
        n == draw@[color_index(color)],
{
    match color {
        Color::R => draw[0],
        Color::G => draw[1],
        Color::B => draw[2],
    }
}

/// The draw with `n` cubes of `color`.
pub fn index_mut(draw: &mut [usize; 3], color: Color, n: usize)
    ensures
        final(draw)@ == old(draw)@.update(color_index(color), n),
{
    match color {
        Color::R => {
            draw[0] = n;
        },
        Color::G => {
            draw[1] = n;
        },
        Color::B => {
            draw[2] = n;
        },
    }
    assert(draw@ =~= old(draw)@.update(color_index(color), n));
}

/// What one item of a draw says: a number of cubes and their colour.
pub open spec fn ball_spec(ball: Seq<u8>) -> Option<(Color, usize)> {
    let parts = words(ball);
    if parts.len() != 2 {
        None
    } else {
        match (parse_nat(parts[0]), color_of(parts[1])) {
            (Some(n), Some(color)) => if n <= usize::MAX {
                Some((color, n as usize))
            } else {
                None
            },
            _ => None,
        }
    }
}

/// The cubes of each colour after the first `k` items of a draw: red,
/// green and blue; a later item of a colour counts in place of an
/// earlier one.
pub open spec fn draw_spec(balls: Seq<Seq<u8>>, k: nat) -> Option<Seq<usize>>
    decreases k,
{
    if k == 0 {
        Some(seq![0usize, 0usize, 0usize])
    } else {
        match (draw_spec(balls, (k - 1) as nat), ball_spec(balls[k - 1])) {
            (Some(bag), Some((color, n))) => Some(bag.update(color_index(color), n)),
            _ => None,
        }
    }
}

/// The first `k` draws of a game.
pub open spec fn draws_spec(draws: Seq<Seq<u8>>, k: nat) -> Option<Seq<Seq<usize>>>
    decreases k,
{
    if k == 0 {
        Some(Seq::empty())
    } else {
        match (
            draws_spec(draws, (k - 1) as nat),
            draw_spec(split(draws[k - 1], 44u8), split(draws[k - 1], 44u8).len()),
        ) {
            (Some(game), Some(bag)) => Some(game.push(bag)),
            _ => None,
        }
    }
}

/// The draws that a line writes behind its colon and a blank.
pub open spec fn game_spec(line: Seq<u8>) -> Option<Seq<Seq<usize>>> {
    let colon = first_index(line, 58u8);
    if colon >= line.len() || line.len() - colon < 2 {
        None
    } else {
        draws_spec(split(line.skip(colon + 2), 59u8), split(line.skip(colon + 2), 59u8).len())
    }
}

/// The draws of a game as sequences of three numbers.
pub open spec fn bags(game: Seq<[usize; 3]>) -> Seq<Seq<usize>> {
    Seq::new(game.len(), |i: int| game[i]@)
}

/// `game` holds the draws that the line writes.
pub open spec fn reads_game(line: Seq<u8>, game: Vec<[usize; 3]>) -> bool {
    game_spec(line) == Some(bags(game@))
}

/// `games` holds the game of each line.
pub open spec fn reads_games(rows: Seq<Seq<u8>>, games: Seq<Vec<[usize; 3]>>) -> bool {
    games.len() == rows.len() && forall|i: int|
        0 <= i < rows.len() ==> #[trigger] reads_game(rows[i], games[i])
}

/// A failure stays a failure when more items follow.
pub proof fn lemma_draw_fails(balls: Seq<Seq<u8>>, j: nat, k: nat)
    requires
        j <= k,
        draw_spec(balls, j) is None,
    ensures
        draw_spec(balls, k) is None,
    decreases k,
{
    if j < k {
        lemma_draw_fails(balls, j, (k - 1) as nat);
    }
}

/// A failure stays a failure when more draws follow.
pub proof fn lemma_draws_fail(draws: Seq<Seq<u8>>, j: nat, k: nat)
    requires
        j <= k,
        draws_spec(draws, j) is None,
    ensures
        draws_spec(draws, k) is None,
    decreases k,
{
    if j < k {
        lemma_draws_fail(draws, j, (k - 1) as nat);
    }
}

/// The draws of one game.
fn parse_game(line: &Vec<u8>) -> (r: Option<Vec<[usize; 3]>>)
    ensures
        match r {
            Some(game) => game_spec(line@) == Some(bags(game@)),
            None => game_spec(line@) is None,
        },
{
    let len = line.len();
    let colon = match find_byte(line.as_slice(), 58u8) {
        Some(colon) => colon,
        None => {
            return None;
        },
    };
    if len - colon < 2 {
        return None;
    }
    let body = copy_range(line.as_slice(), colon + 2, len);
    assert(body@ =~= line@.skip(colon + 2));
    let draws = split_bytes(body.as_slice(), 59u8);
    let ghost texts = views(draws@);
    let mut game: Vec<[usize; 3]> = Vec::new();
    let mut d: usize = 0;
    assert(bags(game@) =~= Seq::<Seq<usize>>::empty());
    assert(game_spec(line@) == draws_spec(texts, texts.len()));
    while d < draws.len()
        invariant
            d <= draws@.len(),
            texts == views(draws@),
            game_spec(line@) == draws_spec(texts, texts.len()),
            draws_spec(texts, d as nat) == Some(bags(game@)),
        decreases draws@.len() - d,
    {
        assert(texts[d as int] == draws@[d as int]@);
        let mut bag: [usize; 3] = [0, 0, 0];
        let balls = split_bytes(draws[d].as_slice(), 44u8);
        let ghost items = views(balls@);
        let mut b: usize = 0;
        assert(bag@ =~= seq![0usize, 0usize, 0usize]);
        while b < balls.len()
            invariant
                b <= balls@.len(),
                items == views(balls@),
                items == split(texts[d as int], 44u8),
                d < texts.len(),
                game_spec(line@) == draws_spec(texts, texts.len()),
                draw_spec(items, b as nat) == Some(bag@),
                draws_spec(texts, d as nat) is Some,
            decreases balls@.len() - b,
        {
            assert(items[b as int] == balls@[b as int]@);
            let parts = split_words(balls[b].as_slice());
            if parts.len() != 2 {
                proof {
                    lemma_draw_fails(items, (b + 1) as nat, items.len());
                    lemma_draws_fail(texts, (d + 1) as nat, texts.len());
                }
                return None;
            }
            assert(views(parts@)[0] == parts@[0]@);
            assert(views(parts@)[1] == parts@[1]@);
            let n = match parse_usize(parts[0].as_slice()) {
                Some(n) => n,
                None => {
                    proof {
                        lemma_draw_fails(items, (b + 1) as nat, items.len());
                        lemma_draws_fail(texts, (d + 1) as nat, texts.len());
                    }
                    return None;
                },
            };
            match Color::from(parts[1].as_slice()) {
                Some(color) => {
                    index_mut(&mut bag, color, n);
                },
                None => {
                    proof {
                        lemma_draw_fails(items, (b + 1) as nat, items.len());
                        lemma_draws_fail(texts, (d + 1) as nat, texts.len());
                    }
                    return None;
                },
            }
            b += 1;
        }
        let ghost before = bags(game@);
        game.push(bag);
        assert(bags(game@) =~= before.push(bag@));
        d += 1;
    }
    Some(game)
}

/// The games, one from each line: behind the colon the draws with
/// semicolons between them, each a list of a number and a colour, with
/// commas between them. `None` if a line is not so.
pub fn parse_input(inp: &str) -> (r: Option<Vec<Vec<[usize; 3]>>>)
    ensures
        match r {
            Some(games) => reads_games(lines(inp.spec_bytes()), games@),
            None => exists|i: int|
                0 <= i < lines(inp.spec_bytes()).len() && game_spec(
                    #[trigger] lines(inp.spec_bytes())[i],
                ) is None,
        },
{
    let all = split_lines(inp.as_bytes());
    let ghost rows = lines(inp.spec_bytes());
    let mut games: Vec<Vec<[usize; 3]>> = Vec::new();
    let mut l: usize = 0;
    while l < all.len()
        invariant
            l <= all@.len(),
            rows == views(all@),
            rows == lines(inp.spec_bytes()),
            games@.len() == l,
            forall|i: int| 0 <= i < l ==> #[trigger] reads_game(rows[i], games@[i]),
        decreases all@.len() - l,
    {
        assert(rows[l as int] == all@[l as int]@);
        match parse_game(&all[l]) {
            Some(game) => {
                let ghost before = games@;
                games.push(game);
                assert forall|i: int| 0 <= i < l + 1 implies #[trigger] reads_game(
                    rows[i],
                    games@[i],
                ) by {
                    if i < l {
                        assert(games@[i] == before[i]);
                        assert(reads_game(rows[i], before[i]));
                    }
                }
            },
            None => {
                return None;
            },
        }
        l += 1;
    }
    Some(games)
}

/// Some draw of the game shows more red, green or blue cubes than
/// `limits` allows.
pub open spec fn over(game: Seq<[usize; 3]>, limits: (usize, usize, usize)) -> bool {
    exists|d: int|
        0 <= d < game.len() && ((#[trigger] game[d])@[0] > limits.0 || game[d]@[1] > limits.1
            || game[d]@[2] > limits.2)
}

/// Some draw of the game shows more cubes of a colour than `max` holds.
pub open spec fn exceeds(game: Seq<[usize; 3]>, max: [usize; 3]) -> bool {
    over(game, (max@[0], max@[1], max@[2]))
}

/// Whether some draw of the game shows more cubes of a colour than the
/// bag `max` holds.
pub fn too_many(game: &Vec<[usize; 3]>, max: &[usize; 3]) -> (r: bool)
    ensures
        r == exceeds(game@, *max),
{
    let mut d: usize = 0;
    while d < game.len()
        invariant
            d <= game@.len(),
            forall|k: int|
                0 <= k < d ==> !((#[trigger] game@[k])@[0] > max@[0] || game@[k]@[1] > max@[1]
                    || game@[k]@[2] > max@[2]),
        decreases game@.len() - d,
    {
        let draw = &game[d];
        if index(draw, Color::R) > index(max, Color::R) || index(draw, Color::G) > index(
            max,
            Color::G,
        ) || index(draw, Color::B) > index(max, Color::B) {
            return true;
        }
        d += 1;
    }
    false
}

/// The greatest number of cubes of the colour at place `c` that one of
/// the first `k` draws shows.
pub open spec fn most(game: Seq<[usize; 3]>, c: int, k: nat) -> usize
    decreases k,
{
    if k == 0 {
        0
    } else if game[k - 1]@[c] > most(game, c, (k - 1) as nat) {
        game[k - 1]@[c]
    } else {
        most(game, c, (k - 1) as nat)
    }
}

/// The smallest bag that allows the game: of each colour the greatest
/// number that a draw shows.
pub fn determine_fewest(game: &Vec<[usize; 3]>) -> (max: [usize; 3])
    ensures
        max@[0] == most(game@, 0, game@.len()),
        max@[1] == most(game@, 1, game@.len()),
        max@[2] == most(game@, 2, game@.len()),
{
    let mut max: [usize; 3] = [0, 0, 0];
    let mut d: usize = 0;
    while d < game.len()
        invariant
            d <= game@.len(),
            max@[0] == most(game@, 0, d as nat),
            max@[1] == most(game@, 1, d as nat),
            max@[2] == most(game@, 2, d as nat),
        decreases game@.len() - d,
    {
        let draw = &game[d];
        if index(draw, Color::R) > index(&max, Color::R) {
            index_mut(&mut max, Color::R, index(draw, Color::R));
        }
        if index(draw, Color::G) > index(&max, Color::G) {
            index_mut(&mut max, Color::G, index(draw, Color::G));
        }
        if index(draw, Color::B) > index(&max, Color::B) {
            index_mut(&mut max, Color::B, index(draw, Color::B));
        }
        d += 1;
    }
    max
}

/// The sum of the numbers, counted from one, of the first `k` games that
/// the bag `max` allows.
pub open spec fn allowed_sum(games: Seq<Vec<[usize; 3]>>, max: (usize, usize, usize), k: nat) -> nat
    decreases k,
{
    if k == 0 {
        0
    } else {
        allowed_sum(games, max, (k - 1) as nat) + if over(games[k - 1]@, max) {
            0
        } else {
            k
        }
    }
}

/// The sum of the allowed games grows with their number.
pub proof fn lemma_allowed_sum_grows(
    games: Seq<Vec<[usize; 3]>>,
    max: (usize, usize, usize),
    a: nat,
    b: nat,
)
    requires
        a <= b,
    ensures
        allowed_sum(games, max, a) <= allowed_sum(games, max, b),
    decreases b,
{
    if a < b {
        lemma_allowed_sum_grows(games, max, a, (b - 1) as nat);
    }
}

/// Two games with the same draws have the same draws one by one.
pub proof fn lemma_same_draws(a: Seq<[usize; 3]>, b: Seq<[usize; 3]>)
    requires
        bags(a) == bags(b),
    ensures
        a.len() == b.len(),
        forall|d: int| 0 <= d < a.len() ==> (#[trigger] a[d])@ == b[d]@,
        forall|d: int| 0 <= d < a.len() ==> a[d]@ == (#[trigger] b[d])@,
{
    assert(bags(a).len() == a.len());
    assert(bags(b).len() == b.len());
    assert forall|d: int| 0 <= d < a.len() implies a[d]@ == b[d]@ by {
        assert(bags(a)[d] == a[d]@);
        assert(bags(b)[d] == b[d]@);
    }
}

/// Two games with the same draws are allowed by the same bags and need
/// the same cubes.
pub proof fn lemma_same_game(a: Seq<[usize; 3]>, b: Seq<[usize; 3]>, c: int, k: nat)
    requires
        bags(a) == bags(b),
        k <= a.len(),
    ensures
        most(a, c, k) == most(b, c, k),
        forall|limits: (usize, usize, usize)| over(a, limits) == over(b, limits),
    decreases k,
{
    lemma_same_draws(a, b);
    if k > 0 {
        lemma_same_game(a, b, c, (k - 1) as nat);
    }
    assert forall|limits: (usize, usize, usize)| over(a, limits) == over(b, limits) by {
        if over(a, limits) {
            let d = choose|d: int|
                0 <= d < a.len() && ((#[trigger] a[d])@[0] > limits.0 || a[d]@[1] > limits.1
                    || a[d]@[2] > limits.2);
            assert(b[d]@ == a[d]@);
        }
        if over(b, limits) {
            let d = choose|d: int|
                0 <= d < b.len() && ((#[trigger] b[d])@[0] > limits.0 || b[d]@[1] > limits.1
                    || b[d]@[2] > limits.2);
            assert(b[d]@ == a[d]@);
        }
    }
}

/// Two readings of the same lines give the same sums.
pub proof fn lemma_same_games(
    rows: Seq<Seq<u8>>,
    a: Seq<Vec<[usize; 3]>>,
    b: Seq<Vec<[usize; 3]>>,
    max: (usize, usize, usize),
    k: nat,
)
    requires
        reads_games(rows, a),
        reads_games(rows, b),
        k <= rows.len(),
    ensures
        allowed_sum(a, max, k) == allowed_sum(b, max, k),
        powers_sum(a, k) == powers_sum(b, k),
        forall|i: int| 0 <= i < rows.len() ==> power_fits(a[i]@) == power_fits(b[i]@),
    decreases k,
{
    assert forall|i: int| 0 <= i < rows.len() implies power_fits(a[i]@) == power_fits(b[i]@) by {
        assert(reads_game(rows[i], a[i]));
        assert(reads_game(rows[i], b[i]));
        lemma_same_draws(a[i]@, b[i]@);
        lemma_same_game(a[i]@, b[i]@, 0, a[i]@.len());
        lemma_same_game(a[i]@, b[i]@, 1, a[i]@.len());
        lemma_same_game(a[i]@, b[i]@, 2, a[i]@.len());
    }
    if k > 0 {
        lemma_same_games(rows, a, b, max, (k - 1) as nat);
        assert(reads_game(rows[k - 1], a[k - 1]));
        assert(reads_game(rows[k - 1], b[k - 1]));
        lemma_same_draws(a[k - 1]@, b[k - 1]@);
        lemma_same_game(a[k - 1]@, b[k - 1]@, 0, a[k - 1]@.len());
        lemma_same_game(a[k - 1]@, b[k - 1]@, 1, a[k - 1]@.len());
        lemma_same_game(a[k - 1]@, b[k - 1]@, 2, a[k - 1]@.len());
    }
}

/// No line can be read as a game when one of them writes none.
pub proof fn lemma_no_games(rows: Seq<Seq<u8>>, i: int)
    requires
        0 <= i < rows.len(),
        game_spec(rows[i]) is None,
    ensures
        forall|games: Seq<Vec<[usize; 3]>>| !#[trigger] reads_games(rows, games),
{
    assert forall|games: Seq<Vec<[usize; 3]>>| !#[trigger] reads_games(rows, games) by {
        if reads_games(rows, games) {
            assert(reads_game(rows[i], games[i]));
        }
    }
}

/// The sum of the numbers of the games that the bag `max` allows.
pub fn sum_allowed(games: &Vec<Vec<[usize; 3]>>, max: &[usize; 3]) -> (r: Option<usize>)
    ensures
        r matches Some(sum) ==> sum == allowed_sum(
            games@,
            (max@[0], max@[1], max@[2]),
            games@.len(),
        ),
        r is Some <==> allowed_sum(games@, (max@[0], max@[1], max@[2]), games@.len())
            <= usize::MAX,
{
    let mut sum: usize = 0;
    let mut i: usize = 0;
    while i < games.len()
        invariant
            i <= games@.len(),
            sum == allowed_sum(games@, (max@[0], max@[1], max@[2]), i as nat),
        decreases games@.len() - i,
    {
        if !too_many(&games[i], max) {
            sum = match sum.checked_add(i + 1) {
                Some(sum) => sum,
                None => {
                    proof {
                        lemma_allowed_sum_grows(
                            games@,
                            (max@[0], max@[1], max@[2]),
                            (i + 1) as nat,
                            games@.len(),
                        );
                    }
                    return None;
                },
            };
        }
        i += 1;
    }
    Some(sum)
}

/// The sum of the numbers, counted from one, of the games that a bag of
/// 12 red, 13 green and 14 blue cubes allows.
pub fn get_solution_1(input: &str) -> (r: Option<usize>)
    ensures
        r matches Some(sum) ==> exists|games: Seq<Vec<[usize; 3]>>| #[trigger]
            reads_games(lines(input.spec_bytes()), games) && sum == allowed_sum(
                games,
                (12usize, 13usize, 14usize),
                games.len(),
            ),
        r is Some <==> exists|games: Seq<Vec<[usize; 3]>>| #[trigger]
            reads_games(lines(input.spec_bytes()), games) && allowed_sum(
                games,
                (12usize, 13usize, 14usize),
                games.len(),
            ) <= usize::MAX,
{
    let ghost rows = lines(input.spec_bytes());
    let games = match parse_input(input) {
        Some(games) => games,
        None => {
            proof {
                let i = choose|i: int| 0 <= i < rows.len() && game_spec(#[trigger] rows[i]) is None;
                lemma_no_games(rows, i);
            }
            return None;
        },
    };
    let max: [usize; 3] = [12, 13, 14];
    let r = sum_allowed(&games, &max);
    proof {
        assert(max@[0] == 12 && max@[1] == 13 && max@[2] == 14);
        assert(reads_games(rows, games@));
        assert forall|other: Seq<Vec<[usize; 3]>>| #[trigger]
            reads_games(rows, other) implies allowed_sum(
            other,
            (12usize, 13usize, 14usize),
            other.len(),
        ) == allowed_sum(games@, (12usize, 13usize, 14usize), games@.len()) by {
            lemma_same_games(rows, games@, other, (12usize, 13usize, 14usize), rows.len());
        }
    }
    r
}

/// The sum over the first `k` games of the product of the numbers of
/// cubes in the smallest bag that allows the game.
pub open spec fn powers_sum(games: Seq<Vec<[usize; 3]>>, k: nat) -> nat
    decreases k,
{
    if k == 0 {
        0
    } else {
        powers_sum(games, (k - 1) as nat) + (most(games[k - 1]@, 0, games[k - 1]@.len()) * most(
            games[k - 1]@,
            1,
            games[k - 1]@.len(),
        ) * most(games[k - 1]@, 2, games[k - 1]@.len())) as nat
    }
}

/// The product of the numbers of cubes that the game needs fits the
/// machine word, and so does the product of the first two of them.
pub open spec fn power_fits(game: Seq<[usize; 3]>) -> bool {
    &&& most(game, 0, game.len()) * most(game, 1, game.len()) <= usize::MAX
    &&& most(game, 0, game.len()) * most(game, 1, game.len()) * most(game, 2, game.len())
        <= usize::MAX
}

/// Every product and the sum of them all fit the machine word.
pub open spec fn powers_fit(games: Seq<Vec<[usize; 3]>>) -> bool {
    &&& forall|i: int| 0 <= i < games.len() ==> power_fits(#[trigger] games[i]@)
    &&& powers_sum(games, games.len()) <= usize::MAX
}

/// The sum of the products grows with the number of games.
pub proof fn lemma_powers_sum_grows(games: Seq<Vec<[usize; 3]>>, a: nat, b: nat)
    requires
        a <= b,
    ensures
        powers_sum(games, a) <= powers_sum(games, b),
    decreases b,
{
    if a < b {
        lemma_powers_sum_grows(games, a, (b - 1) as nat);
    }
}

/// The sum over the games of the product of the numbers of cubes in the
/// smallest bag that allows the game.
pub fn sum_powers(games: &Vec<Vec<[usize; 3]>>) -> (r: Option<usize>)
    ensures
        r matches Some(sum) ==> sum == powers_sum(games@, games@.len()),
        r is Some <==> powers_fit(games@),
{
    let mut sum: usize = 0;
    let mut i: usize = 0;
    while i < games.len()
        invariant
            i <= games@.len(),
            sum == powers_sum(games@, i as nat),
            forall|t: int| 0 <= t < i ==> power_fits(#[trigger] games@[t]@),
        decreases games@.len() - i,
    {
        let fewest = determine_fewest(&games[i]);
        let power = match fewest[0].checked_mul(fewest[1]) {
            Some(p) => match p.checked_mul(fewest[2]) {
                Some(power) => power,
                None => {
                    assert(!power_fits(games@[i as int]@));
                    return None;
                },
            },
            None => {
                assert(!power_fits(games@[i as int]@));
                return None;
            },
        };
        assert(power_fits(games@[i as int]@));
        sum = match sum.checked_add(power) {
            Some(sum) => sum,
            None => {
                proof {
                    lemma_powers_sum_grows(games@, (i + 1) as nat, games@.len());
                }
                return None;
            },
        };
        i += 1;
    }
    Some(sum)
}

/// The sum over all games of the product of the numbers of cubes in the
/// smallest bag that allows the game.
pub fn get_solution_2(input: &str) -> (r: Option<usize>)
    ensures
        r matches Some(sum) ==> exists|games: Seq<Vec<[usize; 3]>>| #[trigger]
            reads_games(lines(input.spec_bytes()), games) && sum == powers_sum(games, games.len()),
        r is Some <==> exists|games: Seq<Vec<[usize; 3]>>| #[trigger]
            reads_games(lines(input.spec_bytes()), games) && powers_fit(games),
{
    let ghost rows = lines(input.spec_bytes());
    let games = match parse_input(input) {
        Some(games) => games,
        None => {
            proof {
                let i = choose|i: int| 0 <= i < rows.len() && game_spec(#[trigger] rows[i]) is None;
                lemma_no_games(rows, i);
            }
            return None;
        },
    };
    let r = sum_powers(&games);
    proof {
        assert(reads_games(rows, games@));
        assert forall|other: Seq<Vec<[usize; 3]>>| #[trigger]
            reads_games(rows, other) && powers_fit(other) implies powers_fit(games@) by {
            lemma_same_games(rows, games@, other, (0usize, 0usize, 0usize), rows.len());
            assert forall|i: int| 0 <= i < games@.len() implies power_fits(
                #[trigger] games@[i]@,
            ) by {
                assert(power_fits(other[i]@));
            }
        }
    }
    r
}

} // verus!
