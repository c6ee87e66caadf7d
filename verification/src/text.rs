//! Reading puzzle input: bytes are cut into lines, fields and words, and
//! decimal numbers are read from them. Each function is specified over the
//! sequence of bytes it is given.

use vstd::prelude::*;
use vstd::string::StrSliceExecFns;

verus! {

/// The pieces of `s` between the occurrences of `d`, read left to right: a
/// separator closes the piece in progress and opens an empty one, so `n`
/// separators give `n + 1` pieces.
pub open spec fn split(s: Seq<u8>, d: u8) -> Seq<Seq<u8>>
    decreases s.len(),
{
    if s.len() == 0 {
        seq![Seq::<u8>::empty()]
    } else {
        let before = split(s.drop_last(), d);
        if s.last() == d {
            before.push(Seq::<u8>::empty())
        } else {
            before.drop_last().push(before.last().push(s.last()))
        }
    }
}

/// `line` without one carriage return at its end.
pub open spec fn strip_cr(line: Seq<u8>) -> Seq<u8> {
    if line.len() > 0 && line.last() == 13u8 {
        line.drop_last()
    } else {
        line
    }
}

/// The lines of `s`: the pieces between line feeds, each without the
/// carriage return that stood before its line feed; what follows the last
/// line feed is a line only if it is not empty.
pub open spec fn lines(s: Seq<u8>) -> Seq<Seq<u8>> {
    let parts = split(s, 10u8);
    let ended = Seq::new((parts.len() - 1) as nat, |i: int| strip_cr(parts[i]));
    if parts.last().len() == 0 {
        ended
    } else {
        ended.push(parts.last())
    }
}

/// Blank, tab, line feed, vertical tab, form feed or carriage return.
pub open spec fn is_space(b: u8) -> bool {
    b == 32 || (9 <= b <= 13)
}

/// The words of `s` with the word in progress kept apart: white space
/// closes a word that has begun.
pub open spec fn words_open(s: Seq<u8>) -> (Seq<Seq<u8>>, Seq<u8>)
    decreases s.len(),
{
    if s.len() == 0 {
        (Seq::<Seq<u8>>::empty(), Seq::<u8>::empty())
    } else {
        let (done, word) = words_open(s.drop_last());
        if !is_space(s.last()) {
            (done, word.push(s.last()))
        } else if word.len() > 0 {
            (done.push(word), Seq::<u8>::empty())
        } else {
            (done, word)
        }
    }
}

/// The maximal runs of bytes of `s` that are not white space, in order.
pub open spec fn words(s: Seq<u8>) -> Seq<Seq<u8>> {
    let (done, word) = words_open(s);
    if word.len() > 0 {
        done.push(word)
    } else {
        done
    }
}

/// `s` without the white space at its start.
pub open spec fn trim_start(s: Seq<u8>) -> Seq<u8>
    decreases s.len(),
{
    if s.len() > 0 && is_space(s.first()) {
        trim_start(s.skip(1))
    } else {
        s
    }
}

/// `s` without the white space at its end.
pub open spec fn trim_end(s: Seq<u8>) -> Seq<u8>
    decreases s.len(),
{
    if s.len() > 0 && is_space(s.last()) {
        trim_end(s.drop_last())
    } else {
        s
    }
}

/// `s` without the white space at both ends.
pub open spec fn trim(s: Seq<u8>) -> Seq<u8> {
    trim_end(trim_start(s))
}

/// The views of the vectors of `v`.
pub open spec fn views<T>(v: Seq<Vec<T>>) -> Seq<Seq<T>> {
    Seq::new(v.len(), |i: int| v[i]@)
}

/// The index of the first `d` in `s`, or the length of `s` if it has none.
pub open spec fn first_index(s: Seq<u8>, d: u8) -> int
    decreases s.len(),
{
    if s.len() == 0 {
        0
    } else if s.first() == d {
        0
    } else {
        1 + first_index(s.skip(1), d)
    }
}

/// `b` is a decimal digit.
pub open spec fn is_digit(b: u8) -> bool {
    48 <= b <= 57
}

/// Every byte of `s` is a decimal digit.
pub open spec fn all_digits(s: Seq<u8>) -> bool {
    forall|i: int| 0 <= i < s.len() ==> is_digit(#[trigger] s[i])
}

/// The number that the decimal digits `s` write.
pub open spec fn digits_value(s: Seq<u8>) -> nat
    decreases s.len(),
{
    if s.len() == 0 {
        0
    } else {
        digits_value(s.drop_last()) * 10 + (s.last() - 48) as nat
    }
}

/// The natural number that `s` writes: one or more decimal digits, with a
/// plus sign before them or without.
pub open spec fn parse_nat(s: Seq<u8>) -> Option<nat> {
    let digits = if s.len() > 0 && s.first() == 43u8 {
        s.skip(1)
    } else {
        s
    };
    if digits.len() > 0 && all_digits(digits) {
        Some(digits_value(digits))
    } else {
        None
    }
}

/// The integer that `s` writes: one or more decimal digits, with a plus or
/// a minus sign before them or without.
pub open spec fn parse_int(s: Seq<u8>) -> Option<int> {
    if s.len() > 0 && s.first() == 45u8 {
        if s.len() > 1 && all_digits(s.skip(1)) {
            Some(-(digits_value(s.skip(1)) as int))
        } else {
            None
        }
    } else {
        match parse_nat(s) {
            Some(v) => Some(v as int),
            None => None,
        }
    }
}

/// A copy of the bytes of `s` from `from` up to `to`.
pub fn copy_range(s: &[u8], from: usize, to: usize) -> (r: Vec<u8>)
    requires
        from <= to <= s@.len(),
    ensures
        r@ == s@.subrange(from as int, to as int),
{
    let mut r: Vec<u8> = Vec::new();
    let mut i: usize = from;
    while i < to
        invariant
            from <= i <= to <= s@.len(),
            r@ == s@.subrange(from as int, i as int),
        decreases to - i,
    {
        r.push(s[i]);
        i += 1;
        assert(r@ =~= s@.subrange(from as int, i as int));
    }
    r
}

/// Whether `a` and `b` hold the same bytes.
pub fn same_bytes(a: &[u8], b: &[u8]) -> (r: bool)
    ensures
        r == (a@ == b@),
{
    if a.len() != b.len() {
        return false;
    }
    let mut i: usize = 0;
    while i < a.len()
        invariant
            a@.len() == b@.len(),
            i <= a@.len(),
            a@.take(i as int) == b@.take(i as int),
        decreases a@.len() - i,
    {
        if a[i] != b[i] {
            return false;
        }
        i += 1;
        assert(a@.take(i as int) =~= a@.take(i - 1).push(a@[i - 1]));
        assert(b@.take(i as int) =~= b@.take(i - 1).push(b@[i - 1]));
    }
    assert(a@ =~= a@.take(a@.len() as int));
    assert(b@ =~= b@.take(b@.len() as int));
    true
}

/// The position of the first `d` in `s`.
pub fn find_byte(s: &[u8], d: u8) -> (r: Option<usize>)
    ensures
        match r {
            Some(i) => i < s@.len() && i == first_index(s@, d) && s@[i as int] == d,
            None => first_index(s@, d) == s@.len(),
        },
        r is None <==> !s@.contains(d),
{
    let mut i: usize = 0;
    assert(s@.skip(0) =~= s@);
    while i < s.len()
        invariant
            i <= s@.len(),
            first_index(s@, d) == i + first_index(s@.skip(i as int), d),
            forall|j: int| 0 <= j < i ==> s@[j] != d,
        decreases s@.len() - i,
    {
        if s[i] == d {
            assert(s@.skip(i as int).first() == d);
            assert(s@.contains(d));
            return Some(i);
        }
        assert(s@.skip(i as int).skip(1) =~= s@.skip(i + 1));
        i += 1;
    }
    assert(s@.skip(i as int).len() == 0);
    None
}

/// Cuts `s` at every `d`.
pub fn split_bytes(s: &[u8], d: u8) -> (r: Vec<Vec<u8>>)
    ensures
        views(r@) == split(s@, d),
        r@.len() >= 1,
{
    let mut pieces: Vec<Vec<u8>> = Vec::new();
    let mut piece: Vec<u8> = Vec::new();
    let mut i: usize = 0;
    while i < s.len()
        invariant
            i <= s@.len(),
            split(s@.take(i as int), d) == views(pieces@).push(piece@),
        decreases s@.len() - i,
    {
        let ghost before = views(pieces@);
        let ghost word = piece@;
        assert(s@.take(i + 1).drop_last() =~= s@.take(i as int));
        if s[i] == d {
            pieces.push(piece);
            piece = Vec::new();
            assert(views(pieces@) =~= before.push(word));
        } else {
            piece.push(s[i]);
            assert(before.push(word).drop_last() =~= before);
        }
        i += 1;
    }
    assert(s@.take(s@.len() as int) =~= s@);
    let ghost before = views(pieces@);
    pieces.push(piece);
    assert(views(pieces@) =~= before.push(piece@));
    pieces
}

/// Cuts `s` into its lines.
pub fn split_lines(s: &[u8]) -> (r: Vec<Vec<u8>>)
    ensures
        views(r@) == lines(s@),
{
    let parts = split_bytes(s, 10u8);
    let mut out: Vec<Vec<u8>> = Vec::new();
    let last = parts.len() - 1;
    let mut i: usize = 0;
    while i < last
        invariant
            last == parts@.len() - 1,
            i <= last,
            views(out@) == Seq::new(i as nat, |k: int| strip_cr(views(parts@)[k])),
        decreases last - i,
    {
        let ghost before = views(out@);
        let part = &parts[i];
        let n = part.len();
        let line = if n > 0 && part[n - 1] == 13u8 {
            copy_range(part.as_slice(), 0, n - 1)
        } else {
            copy_range(part.as_slice(), 0, n)
        };
        assert(line@ =~= strip_cr(part@));
        assert(views(parts@)[i as int] == part@);
        out.push(line);
        assert(views(out@) =~= before.push(line@));
        i += 1;
        assert(views(out@) =~= Seq::new(i as nat, |k: int| strip_cr(views(parts@)[k])));
    }
    assert(views(parts@).last() == parts@[last as int]@);
    if parts[last].len() > 0 {
        let ghost before = views(out@);
        let line = copy_range(parts[last].as_slice(), 0, parts[last].len());
        assert(line@ =~= parts@[last as int]@);
        out.push(line);
        assert(views(out@) =~= before.push(line@));
    }
    out
}

/// Whether `b` is white space.
pub fn is_space_byte(b: u8) -> (r: bool)
    ensures
        r == is_space(b),
{
    b == 32 || (9 <= b && b <= 13)
}

/// Cuts `s` into its words.
pub fn split_words(s: &[u8]) -> (r: Vec<Vec<u8>>)
    ensures
        views(r@) == words(s@),
{
    let mut done: Vec<Vec<u8>> = Vec::new();
    let mut word: Vec<u8> = Vec::new();
    let mut i: usize = 0;
    while i < s.len()
        invariant
            i <= s@.len(),
            words_open(s@.take(i as int)) == (views(done@), word@),
        decreases s@.len() - i,
    {
        let ghost before = views(done@);
        let ghost open = word@;
        assert(s@.take(i + 1).drop_last() =~= s@.take(i as int));
        if !is_space_byte(s[i]) {
            word.push(s[i]);
        } else if word.len() > 0 {
            done.push(word);
            word = Vec::new();
            assert(views(done@) =~= before.push(open));
        }
        i += 1;
    }
    assert(s@.take(s@.len() as int) =~= s@);
    if word.len() > 0 {
        let ghost before = views(done@);
        done.push(word);
        assert(views(done@) =~= before.push(word@));
    }
    done
}

/// A copy of `s` without the white space at its ends.
pub fn trim_bytes(s: &[u8]) -> (r: Vec<u8>)
    ensures
        r@ == trim(s@),
{
    let mut from: usize = 0;
    assert(s@.skip(0) =~= s@);
    while from < s.len() && is_space_byte(s[from])
        invariant
            from <= s@.len(),
            trim_start(s@) == trim_start(s@.skip(from as int)),
        decreases s@.len() - from,
    {
        assert(s@.skip(from as int).skip(1) =~= s@.skip(from + 1));
        from += 1;
    }
    assert(trim_start(s@) == s@.skip(from as int));
    let mut to: usize = s.len();
    assert(s@.skip(from as int) =~= s@.subrange(from as int, to as int));
    while to > from && is_space_byte(s[to - 1])
        invariant
            from <= to <= s@.len(),
            trim(s@) == trim_end(s@.subrange(from as int, to as int)),
        decreases to,
    {
        assert(s@.subrange(from as int, to as int).drop_last() =~= s@.subrange(
            from as int,
            to - 1,
        ));
        to -= 1;
    }
    copy_range(s, from, to)
}

/// A copy of `s` without the white space at its end.
pub fn trim_end_bytes(s: &[u8]) -> (r: Vec<u8>)
    ensures
        r@ == trim_end(s@),
{
    let mut to: usize = s.len();
    assert(s@ =~= s@.subrange(0, to as int));
    while to > 0 && is_space_byte(s[to - 1])
        invariant
            to <= s@.len(),
            trim_end(s@) == trim_end(s@.subrange(0, to as int)),
        decreases to,
    {
        assert(s@.subrange(0, to as int).drop_last() =~= s@.subrange(0, to - 1));
        to -= 1;
    }
    copy_range(s, 0, to)
}

/// Reads the decimal digits `s[from..]`, if there are any and nothing else.
fn read_digits(s: &[u8], from: usize) -> (r: Option<usize>)
    requires
        from <= s@.len(),
    ensures
        match r {
            Some(v) => s@.len() > from && all_digits(s@.skip(from as int)) && v == digits_value(
                s@.skip(from as int),
            ),
            None => s@.len() == from || !all_digits(s@.skip(from as int)) || digits_value(
                s@.skip(from as int),
            ) > usize::MAX,
        },
{
    if from == s.len() {
        return None;
    }
    let ghost digits = s@.skip(from as int);
    let mut value: usize = 0;
    let mut i: usize = from;
    let mut fits = true;
    while i < s.len()
        invariant
            from <= i <= s@.len(),
            digits == s@.skip(from as int),
            all_digits(digits.take(i - from)),
            fits ==> value == digits_value(digits.take(i - from)),
            !fits ==> digits_value(digits.take(i - from)) > usize::MAX,
        decreases s@.len() - i,
    {
        let b = s[i];
        assert(digits[i - from] == b);
        if b < 48 || b > 57 {
            assert(!is_digit(digits[i - from]));
            return None;
        }
        let ghost prefix = digits.take(i - from);
        let ghost longer = digits.take(i + 1 - from);
        assert(longer.drop_last() =~= prefix);
        assert(longer.last() == b);
        assert(all_digits(longer)) by {
            assert forall|j: int| 0 <= j < longer.len() implies is_digit(#[trigger] longer[j]) by {
                if j < prefix.len() {
                    assert(longer[j] == prefix[j]);
                }
            }
        }
        let d = (b - 48) as usize;
        if fits && value <= (usize::MAX - d) / 10 {
            value = value * 10 + d;
        } else {
            fits = false;
        }
        i += 1;
    }
    assert(digits.take(i - from) =~= digits);
    if fits {
        Some(value)
    } else {
        None
    }
}

/// Reads a natural number that fits the machine word.
pub fn parse_usize(s: &[u8]) -> (r: Option<usize>)
    ensures
        match r {
            Some(v) => parse_nat(s@) == Some(v as nat),
            None => match parse_nat(s@) {
                Some(v) => v > usize::MAX,
                None => true,
            },
        },
{
    if s.len() > 0 && s[0] == 43u8 {
        read_digits(s, 1)
    } else {
        assert(s@.skip(0) =~= s@);
        read_digits(s, 0)
    }
}

/// Reads an integer that fits the signed machine word.
pub fn parse_isize(s: &[u8]) -> (r: Option<isize>)
    ensures
        match r {
            Some(v) => parse_int(s@) == Some(v as int),
            None => match parse_int(s@) {
                Some(v) => v > isize::MAX || v < isize::MIN,
                None => true,
            },
        },
{
    if s.len() > 0 && s[0] == 45u8 {
        match read_digits(s, 1) {
            Some(v) => {
                if v <= isize::MAX as usize {
                    Some(-(v as isize))
                } else if v == isize::MAX as usize + 1 {
                    Some(isize::MIN)
                } else {
                    None
                }
            },
            None => None,
        }
    } else {
        match parse_usize(s) {
            Some(v) => {
                if v <= isize::MAX as usize {
                    Some(v as isize)
                } else {
                    None
                }
            },
            None => None,
        }
    }
}

/// The numbers among `words`, in order: each word that writes a natural
/// number within the machine word gives one, every other word is passed
/// over.
pub open spec fn numbers_among(words: Seq<Seq<u8>>) -> Seq<usize>
    decreases words.len(),
{
    if words.len() == 0 {
        Seq::empty()
    } else {
        let before = numbers_among(words.drop_last());
        match parse_nat(words.last()) {
            Some(v) => if v <= usize::MAX {
                before.push(v as usize)
            } else {
                before
            },
            None => before,
        }
    }
}

/// Reads the numbers among `words`.
pub fn parse_usizes(words: &Vec<Vec<u8>>) -> (r: Vec<usize>)
    ensures
        r@ == numbers_among(views(words@)),
{
    let mut out: Vec<usize> = Vec::new();
    let mut i: usize = 0;
    assert(views(words@).take(0) =~= Seq::<Seq<u8>>::empty());
    while i < words.len()
        invariant
            i <= words@.len(),
            out@ == numbers_among(views(words@).take(i as int)),
        decreases words@.len() - i,
    {
        assert(views(words@).take(i + 1).drop_last() =~= views(words@).take(i as int));
        assert(views(words@).take(i + 1).last() == words@[i as int]@);
        match parse_usize(words[i].as_slice()) {
            Some(v) => {
                out.push(v);
            },
            None => {},
        }
        i += 1;
    }
    assert(views(words@).take(i as int) =~= views(words@));
    out
}

/// The integers among `words`, in order: each word that writes an integer
/// within the signed machine word gives one, every other word is passed
/// over.
pub open spec fn integers_among(words: Seq<Seq<u8>>) -> Seq<isize>
    decreases words.len(),
{
    if words.len() == 0 {
        Seq::empty()
    } else {
        let before = integers_among(words.drop_last());
        match parse_int(words.last()) {
            Some(v) => if isize::MIN <= v <= isize::MAX {
                before.push(v as isize)
            } else {
                before
            },
            None => before,
        }
    }
}

/// Reads the integers among `words`.
pub fn parse_isizes(words: &Vec<Vec<u8>>) -> (r: Vec<isize>)
    ensures
        r@ == integers_among(views(words@)),
{
    let mut out: Vec<isize> = Vec::new();
    let mut i: usize = 0;
    assert(views(words@).take(0) =~= Seq::<Seq<u8>>::empty());
    while i < words.len()
        invariant
            i <= words@.len(),
            out@ == integers_among(views(words@).take(i as int)),
        decreases words@.len() - i,
    {
        assert(views(words@).take(i + 1).drop_last() =~= views(words@).take(i as int));
        assert(views(words@).take(i + 1).last() == words@[i as int]@);
        match parse_isize(words[i].as_slice()) {
            Some(v) => {
                out.push(v);
            },
            None => {},
        }
        i += 1;
    }
    assert(views(words@).take(i as int) =~= views(words@));
    out
}

/// Appends `c` to `s`. The body calls `String::push` of the standard
/// library, which is not verified here; the contract claims what its
/// documentation says: the string afterwards is the string before with the
/// character at its end.
#[verifier::external_body]
pub(crate) fn push_char(s: &mut String, c: char)
    ensures
        final(s)@ == old(s)@.push(c),
{
    s.push(c)
}

/// Appends the characters of `t` to `s`.
pub fn append_str(s: &mut String, t: &str)
    ensures
        final(s)@ == old(s)@ + t@,
{
    let n = t.unicode_len();
    let mut i: usize = 0;
    while i < n
        invariant
            n == t@.len(),
            i <= n,
            s@ == old(s)@ + t@.take(i as int),
        decreases n - i,
    {
        push_char(s, t.get_char(i));
        i += 1;
        assert(s@ =~= old(s)@ + t@.take(i as int));
    }
    assert(t@.take(n as int) =~= t@);
}

/// The bytes as characters, each byte one character.
pub open spec fn chars_of(bytes: Seq<u8>) -> Seq<char> {
    Seq::new(bytes.len(), |i: int| bytes[i] as char)
}

/// Appends the bytes of `t` to `s`, each as one character.
pub fn append_bytes(s: &mut String, t: &[u8])
    ensures
        final(s)@ == old(s)@ + chars_of(t@),
{
    let n = t.len();
    let mut i: usize = 0;
    while i < n
        invariant
            n == t@.len(),
            i <= n,
            s@ == old(s)@ + chars_of(t@).take(i as int),
        decreases n - i,
    {
        push_char(s, t[i] as char);
        i += 1;
        assert(s@ =~= old(s)@ + chars_of(t@).take(i as int));
    }
    assert(chars_of(t@).take(n as int) =~= chars_of(t@));
}

} // verus!
