//! Text as a sequence of characters: the cuts, searches and replacements that
//! the readings of `/proc` and `/sys` are made of.

use vstd::prelude::*;

verus! {

/// `String::push` of std: the character is added at the end.
pub assume_specification[ String::push ](s: &mut String, ch: char)
    ensures
        final(s)@ == old(s)@.push(ch),
;

/// The characters of `s`, in order.
pub fn chars_of(s: &str) -> (out: Vec<char>)
    ensures
        out@ == s@,
{
    let mut out: Vec<char> = Vec::new();
    for c in it: s.chars()
        invariant
            it.seq() == s@,
            out@ == s@.take(it.index()),
    {
        out.push(c);
    }
    assert(s@.take(s@.len() as int) == s@);
    out
}

/// The string made of the characters of `cs`.
pub fn string_of(cs: &[char]) -> (out: String)
    ensures
        out@ == cs@,
{
    let mut out = String::new();
    let mut i: usize = 0;
    while i < cs.len()
        invariant
            i <= cs.len(),
            out@ == cs@.take(i as int),
        decreases cs.len() - i,
    {
        out.push(cs[i]);
        i += 1;
        assert(cs@.take(i as int) == cs@.take(i - 1).push(cs@[i - 1]));
    }
    assert(cs@.take(cs@.len() as int) == cs@);
    out
}

/// Unicode white space.
pub open spec fn is_white(c: char) -> bool {
    ||| '\u{9}' <= c <= '\u{d}'
    ||| c == ' '
    ||| c == '\u{85}'
    ||| c == '\u{a0}'
    ||| c == '\u{1680}'
    ||| '\u{2000}' <= c <= '\u{200a}'
    ||| c == '\u{2028}'
    ||| c == '\u{2029}'
    ||| c == '\u{202f}'
    ||| c == '\u{205f}'
    ||| c == '\u{3000}'
}

/// Whether `c` is Unicode white space.
pub fn white(c: char) -> (r: bool)
    ensures
        r == is_white(c),
{
    ('\u{9}' <= c && c <= '\u{d}') || c == ' ' || c == '\u{85}' || c == '\u{a0}' || c == '\u{1680}'
        || ('\u{2000}' <= c && c <= '\u{200a}') || c == '\u{2028}' || c == '\u{2029}' || c
        == '\u{202f}' || c == '\u{205f}' || c == '\u{3000}'
}

/// `s` without its leading white space.
pub open spec fn trim_start(s: Seq<char>) -> Seq<char>
    decreases s.len(),
{
    if s.len() > 0 && is_white(s.first()) {
        trim_start(s.drop_first())
    } else {
        s
    }
}

/// `s` without its trailing white space.
pub open spec fn trim_end(s: Seq<char>) -> Seq<char>
    decreases s.len(),
{
    if s.len() > 0 && is_white(s.last()) {
        trim_end(s.drop_last())
    } else {
        s
    }
}

/// `s` without its leading and trailing white space.
pub open spec fn trim(s: Seq<char>) -> Seq<char> {
    trim_end(trim_start(s))
}

/// `s` without the trailing characters that equal `c`.
pub open spec fn trim_end_of(s: Seq<char>, c: char) -> Seq<char>
    decreases s.len(),
{
    if s.len() > 0 && s.last() == c {
        trim_end_of(s.drop_last(), c)
    } else {
        s
    }
}

/// `cs` without its leading and trailing white space.
pub fn trimmed(cs: &[char]) -> (out: Vec<char>)
    ensures
        out@ == trim(cs@),
{
    let mut from: usize = 0;
    assert(cs@.skip(0) == cs@);
    while from < cs.len() && white(cs[from])
        invariant
            from <= cs.len(),
            trim_start(cs@) == trim_start(cs@.skip(from as int)),
        decreases cs.len() - from,
    {
        assert(cs@.skip(from as int).drop_first() == cs@.skip(from + 1));
        from += 1;
    }
    let mut to: usize = cs.len();
    assert(cs@.subrange(from as int, to as int) == cs@.skip(from as int));
    while from < to && white(cs[to - 1])
        invariant
            from <= to <= cs.len(),
            trim_end(cs@.skip(from as int)) == trim_end(cs@.subrange(from as int, to as int)),
        decreases to - from,
    {
        assert(cs@.subrange(from as int, to as int).drop_last() == cs@.subrange(
            from as int,
            to - 1,
        ));
        to -= 1;
    }
    copy_range(cs, from, to)
}

/// `cs` without the trailing characters that equal `c`.
pub fn trimmed_end_of(cs: &[char], c: char) -> (out: Vec<char>)
    ensures
        out@ == trim_end_of(cs@, c),
{
    let mut to: usize = cs.len();
    assert(cs@.take(to as int) == cs@);
    while 0 < to && cs[to - 1] == c
        invariant
            to <= cs.len(),
            trim_end_of(cs@, c) == trim_end_of(cs@.take(to as int), c),
        decreases to,
    {
        assert(cs@.take(to as int).drop_last() == cs@.take(to - 1));
        to -= 1;
    }
    assert(cs@.take(to as int) == cs@.subrange(0, to as int));
    copy_range(cs, 0, to)
}

/// The characters of `cs` from position `from` up to `to`.
pub fn copy_range(cs: &[char], from: usize, to: usize) -> (out: Vec<char>)
    requires
        from <= to <= cs@.len(),
    ensures
        out@ == cs@.subrange(from as int, to as int),
{
    let mut out: Vec<char> = Vec::new();
    let mut i: usize = from;
    while i < to
        invariant
            from <= i <= to <= cs@.len(),
            out@ == cs@.subrange(from as int, i as int),
        decreases to - i,
    {
        out.push(cs[i]);
        i += 1;
    }
    out
}

/// Whether `a` and `b` are the same text.
pub fn same(a: &[char], b: &[char]) -> (r: bool)
    ensures
        r == (a@ == b@),
{
    if a.len() != b.len() {
        return false;
    }
    let mut i: usize = 0;
    while i < a.len()
        invariant
            i <= a.len(),
            a@.len() == b@.len(),
            forall|k: int| 0 <= k < i ==> a@[k] == b@[k],
        decreases a.len() - i,
    {
        if a[i] != b[i] {
            assert(a@[i as int] != b@[i as int]);
            return false;
        }
        i += 1;
    }
    assert(a@ =~= b@);
    true
}

/// Whether the text `a` is the string `b`.
pub fn equals(a: &[char], b: &str) -> (r: bool)
    ensures
        r == (a@ == b@),
{
    let b = chars_of(b);
    same(a, b.as_slice())
}

/// The number of characters before the first white space in `s`.
pub open spec fn word_len(s: Seq<char>) -> nat
    decreases s.len(),
{
    if s.len() == 0 || is_white(s.first()) {
        0
    } else {
        1 + word_len(s.drop_first())
    }
}

/// A word is not longer than the text, and not empty where the text begins with
/// one.
pub proof fn lemma_word_len(s: Seq<char>)
    ensures
        word_len(s) <= s.len(),
        s.len() > 0 && !is_white(s.first()) ==> word_len(s) > 0,
    decreases s.len(),
{
    if s.len() > 0 && !is_white(s.first()) {
        lemma_word_len(s.drop_first());
    }
}

/// The non-empty pieces of `s` between white space, in order.
pub open spec fn words(s: Seq<char>) -> Seq<Seq<char>>
    decreases s.len(),
    via words_decreases
{
    if s.len() == 0 {
        Seq::empty()
    } else if is_white(s.first()) {
        words(s.drop_first())
    } else {
        seq![s.take(word_len(s) as int)] + words(s.skip(word_len(s) as int))
    }
}

#[via_fn]
proof fn words_decreases(s: Seq<char>) {
    lemma_word_len(s);
}

/// The texts that a list of character vectors stands for.
pub open spec fn texts(v: Seq<Vec<char>>) -> Seq<Seq<char>> {
    v.map_values(|w: Vec<char>| w@)
}

/// One more character vector is one more text.
pub proof fn lemma_texts_push(v: Seq<Vec<char>>, w: Vec<char>)
    ensures
        texts(v.push(w)) == texts(v).push(w@),
{
    assert(texts(v.push(w)) =~= texts(v).push(w@));
}

/// The white-space separated words of `cs`.
pub fn words_of(cs: &[char]) -> (out: Vec<Vec<char>>)
    ensures
        texts(out@) == words(cs@),
{
    let mut out: Vec<Vec<char>> = Vec::new();
    let mut i: usize = 0;
    assert(cs@.skip(0) == cs@);
    assert(texts(out@) + words(cs@) =~= words(cs@));
    while i < cs.len()
        invariant
            i <= cs.len(),
            texts(out@) + words(cs@.skip(i as int)) == words(cs@),
        decreases cs.len() - i,
    {
        let ghost rest = cs@.skip(i as int);
        if white(cs[i]) {
            assert(rest.drop_first() == cs@.skip(i + 1));
            i += 1;
        } else {
            let from = i;
            let ghost before = texts(out@);
            assert(cs@.skip(i as int) == rest);
            while i < cs.len() && !white(cs[i])
                invariant
                    from <= i <= cs.len(),
                    rest == cs@.skip(from as int),
                    word_len(rest) == (i - from) + word_len(cs@.skip(i as int)),
                decreases cs.len() - i,
            {
                assert(cs@.skip(i as int).drop_first() == cs@.skip(i + 1));
                i += 1;
            }
            assert(word_len(cs@.skip(i as int)) == 0);
            let w = copy_range(cs, from, i);
            proof {
                lemma_word_len(rest);
                assert(w@ == rest.take(word_len(rest) as int));
                assert(rest.skip(word_len(rest) as int) == cs@.skip(i as int));
                lemma_texts_push(out@, w);
            }
            out.push(w);
            assert(before.push(w@) + words(cs@.skip(i as int)) =~= before + (seq![w@] + words(
                cs@.skip(i as int),
            )));
        }
    }
    assert(cs@.skip(i as int).len() == 0);
    assert(texts(out@) + words(cs@.skip(i as int)) =~= texts(out@));
    out
}

/// The position of the first `c` at or after `from`, or the length of `s`.
pub open spec fn index_from(s: Seq<char>, c: char, from: int) -> int
    decreases s.len() - from,
{
    if from >= s.len() || s[from] == c {
        from
    } else {
        index_from(s, c, from + 1)
    }
}

/// The position that is found is the first one.
pub proof fn lemma_index_from(s: Seq<char>, c: char, from: int)
    requires
        0 <= from <= s.len(),
    ensures
        from <= index_from(s, c, from) <= s.len(),
        forall|k: int| from <= k < index_from(s, c, from) ==> s[k] != c,
        index_from(s, c, from) < s.len() ==> s[index_from(s, c, from)] == c,
    decreases s.len() - from,
{
    if from < s.len() && s[from] != c {
        lemma_index_from(s, c, from + 1);
    }
}

/// The position of the first `c` at or after `from`, or the length of `cs`.
pub fn position_from(cs: &[char], c: char, from: usize) -> (r: usize)
    requires
        from <= cs@.len(),
    ensures
        r == index_from(cs@, c, from as int),
        from <= r <= cs@.len(),
{
    let mut i: usize = from;
    while i < cs.len() && cs[i] != c
        invariant
            from <= i <= cs.len(),
            index_from(cs@, c, from as int) == index_from(cs@, c, i as int),
        decreases cs.len() - i,
    {
        i += 1;
    }
    i
}

/// The pieces of `s` from position `from` on that the separator `c` cuts it
/// into; there is always at least one.
pub open spec fn pieces_from(s: Seq<char>, c: char, from: int) -> Seq<Seq<char>>
    decreases s.len() - from,
    when 0 <= from <= s.len()
    via pieces_decreases
{
    let end = index_from(s, c, from);
    if end < s.len() {
        seq![s.subrange(from, end)] + pieces_from(s, c, end + 1)
    } else {
        seq![s.subrange(from, end)]
    }
}

#[via_fn]
proof fn pieces_decreases(s: Seq<char>, c: char, from: int) {
    lemma_index_from(s, c, from);
}

/// The pieces of `s` between the separators `c`.
pub open spec fn pieces(s: Seq<char>, c: char) -> Seq<Seq<char>> {
    pieces_from(s, c, 0)
}

/// The pieces of `cs` between the separators `c`.
pub fn pieces_of(cs: &[char], c: char) -> (out: Vec<Vec<char>>)
    ensures
        texts(out@) == pieces(cs@, c),
        out@.len() >= 1,
{
    let mut out: Vec<Vec<char>> = Vec::new();
    let mut from: usize = 0;
    assert(texts(out@) + pieces_from(cs@, c, 0) =~= pieces(cs@, c));
    loop
        invariant
            from <= cs.len(),
            texts(out@) + pieces_from(cs@, c, from as int) == pieces(cs@, c),
        decreases cs.len() - from,
    {
        let end = position_from(cs, c, from);
        let piece = copy_range(cs, from, end);
        let ghost before = texts(out@);
        proof {
            lemma_texts_push(out@, piece);
        }
        if end < cs.len() {
            out.push(piece);
            assert(before.push(piece@) + pieces_from(cs@, c, end + 1) =~= before + (seq![piece@]
                + pieces_from(cs@, c, end + 1)));
            from = end + 1;
        } else {
            out.push(piece);
            assert(before.push(piece@) =~= before + seq![piece@]);
            return out;
        }
    }
}

/// The piece of `s` after the first `c` and before the second, if there is one.
pub open spec fn second_piece(s: Seq<char>, c: char) -> Option<Seq<char>> {
    if pieces(s, c).len() > 1 {
        Some(pieces(s, c)[1])
    } else {
        None
    }
}

/// The second of the pieces that `c` cuts `cs` into.
pub fn second_piece_of(cs: &[char], c: char) -> (out: Option<Vec<char>>)
    ensures
        match out {
            Some(p) => second_piece(cs@, c) == Some(p@),
            None => second_piece(cs@, c) is None,
        },
{
    let ps = pieces_of(cs, c);
    if ps.len() > 1 {
        assert(texts(ps@)[1] == ps@[1]@);
        let p = copy_range(ps[1].as_slice(), 0, ps[1].len());
        assert(p@ =~= ps@[1]@);
        Some(p)
    } else {
        None
    }
}

/// A line without the carriage return that precedes its line feed.
pub open spec fn without_return(s: Seq<char>) -> Seq<char> {
    if s.len() > 0 && s.last() == '\r' {
        s.drop_last()
    } else {
        s
    }
}

/// The lines of `s` from position `from` on. A line ends at a line feed, with
/// or without a carriage return before it; the last one needs no ending, and
/// nothing follows the last ending.
pub open spec fn lines_from(s: Seq<char>, from: int) -> Seq<Seq<char>>
    decreases s.len() - from,
    when 0 <= from <= s.len()
    via lines_decreases
{
    let end = index_from(s, '\n', from);
    if end < s.len() {
        seq![without_return(s.subrange(from, end))] + lines_from(s, end + 1)
    } else if from < s.len() {
        seq![s.subrange(from, end)]
    } else {
        Seq::empty()
    }
}

#[via_fn]
proof fn lines_decreases(s: Seq<char>, from: int) {
    lemma_index_from(s, '\n', from);
}

/// The lines of `s`.
pub open spec fn lines(s: Seq<char>) -> Seq<Seq<char>> {
    lines_from(s, 0)
}

/// The lines of `cs`.
pub fn lines_of(cs: &[char]) -> (out: Vec<Vec<char>>)
    ensures
        texts(out@) == lines(cs@),
{
    let mut out: Vec<Vec<char>> = Vec::new();
    let mut from: usize = 0;
    assert(texts(out@) + lines_from(cs@, 0) =~= lines(cs@));
    loop
        invariant
            from <= cs.len(),
            texts(out@) + lines_from(cs@, from as int) == lines(cs@),
        decreases cs.len() - from,
    {
        let end = position_from(cs, '\n', from);
        let ghost before = texts(out@);
        if end < cs.len() {
            let line = if from < end && cs[end - 1] == '\r' {
                copy_range(cs, from, end - 1)
            } else {
                copy_range(cs, from, end)
            };
            assert(line@ =~= without_return(cs@.subrange(from as int, end as int)));
            proof {
                lemma_texts_push(out@, line);
            }
            out.push(line);
            assert(before.push(line@) + lines_from(cs@, end + 1) =~= before + (seq![line@]
                + lines_from(cs@, end + 1)));
            from = end + 1;
        } else if from < cs.len() {
            let line = copy_range(cs, from, end);
            proof {
                lemma_texts_push(out@, line);
            }
            out.push(line);
            assert(before.push(line@) =~= before + seq![line@]);
            return out;
        } else {
            assert(before + Seq::<Seq<char>>::empty() =~= before);
            return out;
        }
    }
}

/// Whether `p` stands in `s` at position `i`.
pub open spec fn stands_at(s: Seq<char>, p: Seq<char>, i: int) -> bool {
    0 <= i && i + p.len() <= s.len() && s.subrange(i, i + p.len()) == p
}

/// Whether `p` begins `s`.
pub open spec fn starts(s: Seq<char>, p: Seq<char>) -> bool {
    stands_at(s, p, 0)
}

/// Whether `p` ends `s`.
pub open spec fn ends(s: Seq<char>, p: Seq<char>) -> bool {
    stands_at(s, p, s.len() - p.len())
}

/// Whether `p` stands somewhere in `s`.
pub open spec fn contains(s: Seq<char>, p: Seq<char>) -> bool {
    exists|i: int| stands_at(s, p, i)
}

/// Whether `p` stands in `cs` at position `i`.
pub fn stands(cs: &[char], p: &[char], i: usize) -> (r: bool)
    ensures
        r == stands_at(cs@, p@, i as int),
{
    if i > cs.len() || p.len() > cs.len() - i {
        return false;
    }
    let mut k: usize = 0;
    while k < p.len()
        invariant
            k <= p.len(),
            i + p@.len() <= cs.len(),
            forall|j: int| 0 <= j < k ==> cs@[i + j] == p@[j],
        decreases p.len() - k,
    {
        if cs[i + k] != p[k] {
            assert(cs@.subrange(i as int, i + p@.len())[k as int] != p@[k as int]);
            return false;
        }
        k += 1;
    }
    assert(cs@.subrange(i as int, i + p@.len()) =~= p@);
    true
}

/// Whether the string `p` begins `cs`.
pub fn begins_with(cs: &[char], p: &str) -> (r: bool)
    ensures
        r == starts(cs@, p@),
{
    let p = chars_of(p);
    stands(cs, p.as_slice(), 0)
}

/// Whether the string `p` ends `cs`.
pub fn finishes_with(cs: &[char], p: &str) -> (r: bool)
    ensures
        r == ends(cs@, p@),
{
    let p = chars_of(p);
    if p.len() > cs.len() {
        false
    } else {
        stands(cs, p.as_slice(), cs.len() - p.len())
    }
}

/// The position of the first `p` in `s`.
pub open spec fn first_of(s: Seq<char>, p: Seq<char>) -> Option<int> {
    first_from(s, p, 0)
}

/// The position of the first `p` in `s` at or after `from`.
pub open spec fn first_from(s: Seq<char>, p: Seq<char>, from: int) -> Option<int>
    decreases s.len() - from + 1,
{
    if from + p.len() > s.len() {
        None
    } else if stands_at(s, p, from) {
        Some(from)
    } else {
        first_from(s, p, from + 1)
    }
}

/// A search finds the first place of a text: the text stands there and nowhere
/// before, and where the search finds nothing it stands nowhere.
pub proof fn first_of_is_first(s: Seq<char>, p: Seq<char>)
    ensures
        match first_of(s, p) {
            Some(i) => stands_at(s, p, i) && forall|k: int| k < i ==> !stands_at(s, p, k),
            None => !contains(s, p),
        },
{
    lemma_first_from(s, p, 0);
}

proof fn lemma_first_from(s: Seq<char>, p: Seq<char>, from: int)
    requires
        0 <= from,
    ensures
        match first_from(s, p, from) {
            Some(i) => stands_at(s, p, i) && from <= i && forall|k: int|
                from <= k < i ==> !stands_at(s, p, k),
            None => forall|k: int| from <= k ==> !stands_at(s, p, k),
        },
    decreases s.len() - from + 1,
{
    if from + p.len() <= s.len() && !stands_at(s, p, from) {
        lemma_first_from(s, p, from + 1);
    }
}

/// The position of the first `p` in `cs`.
pub fn find(cs: &[char], p: &[char]) -> (r: Option<usize>)
    ensures
        match r {
            Some(i) => first_of(cs@, p@) == Some(i as int) && i <= cs@.len(),
            None => first_of(cs@, p@) is None,
        },
        r is Some <==> contains(cs@, p@),
{
    proof {
        first_of_is_first(cs@, p@);
    }
    if p.len() > cs.len() {
        return None;
    }
    let last: usize = cs.len() - p.len();
    let mut i: usize = 0;
    loop
        invariant
            i <= last,
            last == cs@.len() - p@.len(),
            first_of(cs@, p@) == first_from(cs@, p@, i as int),
            first_of(cs@, p@) is None ==> !contains(cs@, p@),
        decreases last - i,
    {
        if stands(cs, p, i) {
            return Some(i);
        }
        if i == last {
            assert(first_from(cs@, p@, i + 1) is None);
            return None;
        }
        i += 1;
    }
}

/// Whether the string `p` stands somewhere in `cs`.
pub fn holds(cs: &[char], p: &str) -> (r: bool)
    ensures
        r == contains(cs@, p@),
{
    let p = chars_of(p);
    find(cs, p.as_slice()).is_some()
}

/// The position of the last `c` in `s`.
pub open spec fn last_index(s: Seq<char>, c: char) -> Option<int>
    decreases s.len(),
{
    if s.len() == 0 {
        None
    } else if s.last() == c {
        Some(s.len() - 1)
    } else {
        last_index(s.drop_last(), c)
    }
}

/// The position of the last `c` in `cs`.
pub fn last_position(cs: &[char], c: char) -> (r: Option<usize>)
    ensures
        match r {
            Some(i) => last_index(cs@, c) == Some(i as int) && i < cs@.len(),
            None => last_index(cs@, c) is None,
        },
{
    let mut n: usize = cs.len();
    assert(cs@.take(n as int) == cs@);
    while 0 < n
        invariant
            n <= cs@.len(),
            last_index(cs@, c) == last_index(cs@.take(n as int), c),
        decreases n,
    {
        if cs[n - 1] == c {
            return Some(n - 1);
        }
        assert(cs@.take(n as int).drop_last() == cs@.take(n - 1));
        n -= 1;
    }
    None
}

/// `s` with every `from`, taken from the left and without overlap, replaced by
/// `to`.
pub open spec fn replaced(s: Seq<char>, from: Seq<char>, to: Seq<char>) -> Seq<char>
    decreases s.len(),
{
    if s.len() == 0 || from.len() == 0 {
        s
    } else if starts(s, from) {
        to + replaced(s.skip(from.len() as int), from, to)
    } else {
        seq![s.first()] + replaced(s.drop_first(), from, to)
    }
}

/// `cs` with every `from` replaced by `to`.
pub fn replace(cs: &[char], from: &str, to: &str) -> (out: Vec<char>)
    requires
        from@.len() > 0,
    ensures
        out@ == replaced(cs@, from@, to@),
{
    let from = chars_of(from);
    let to = chars_of(to);
    let mut out: Vec<char> = Vec::new();
    let mut i: usize = 0;
    assert(cs@.skip(0) == cs@);
    assert(out@ + replaced(cs@, from@, to@) =~= replaced(cs@, from@, to@));
    while i < cs.len()
        invariant
            i <= cs.len(),
            from@.len() > 0,
            out@ + replaced(cs@.skip(i as int), from@, to@) == replaced(cs@, from@, to@),
        decreases cs.len() - i,
    {
        let ghost before = out@;
        let ghost rest = cs@.skip(i as int);
        if stands(cs, from.as_slice(), i) {
            assert(rest.subrange(0, from@.len() as int) == cs@.subrange(i as int, i + from@.len()));
            assert(starts(rest, from@));
            push_all(&mut out, to.as_slice());
            assert(rest.skip(from@.len() as int) == cs@.skip(i + from@.len()));
            i += from.len();
            assert(before + to@ + replaced(cs@.skip(i as int), from@, to@) =~= before + (to@
                + replaced(cs@.skip(i as int), from@, to@)));
        } else {
            assert(starts(rest, from@) ==> stands_at(cs@, from@, i as int)) by {
                if starts(rest, from@) {
                    assert(rest.subrange(0, from@.len() as int) == cs@.subrange(
                        i as int,
                        i + from@.len(),
                    ));
                }
            }
            out.push(cs[i]);
            assert(rest.drop_first() == cs@.skip(i + 1));
            i += 1;
            assert(before.push(rest.first()) + replaced(cs@.skip(i as int), from@, to@) =~= before
                + (seq![rest.first()] + replaced(cs@.skip(i as int), from@, to@)));
        }
    }
    assert(cs@.skip(i as int).len() == 0);
    assert(out@ + replaced(cs@.skip(i as int), from@, to@) =~= out@);
    out
}

/// Adds the characters of `cs` to the end of `out`.
pub fn push_all(out: &mut Vec<char>, cs: &[char])
    ensures
        final(out)@ == old(out)@ + cs@,
{
    let ghost before = out@;
    let mut i: usize = 0;
    assert(before + cs@.take(0) =~= before);
    while i < cs.len()
        invariant
            i <= cs.len(),
            out@ == before + cs@.take(i as int),
        decreases cs.len() - i,
    {
        out.push(cs[i]);
        i += 1;
        assert(before + cs@.take(i as int) =~= (before + cs@.take(i - 1)).push(cs@[i - 1]));
    }
    assert(cs@.take(cs@.len() as int) =~= cs@);
}

/// Adds the string `s` to the end of `out`.
pub fn push_str(out: &mut Vec<char>, s: &str)
    ensures
        final(out)@ == old(out)@ + s@,
{
    let cs = chars_of(s);
    push_all(out, cs.as_slice());
}

/// A text stands in another one at a position if and only if the other one is
/// made of as many characters, the text and a rest.
pub proof fn a_part_stands_between_the_others(s: Seq<char>, p: Seq<char>, i: int)
    ensures
        stands_at(s, p, i) <==> exists|a: Seq<char>, b: Seq<char>|
            a.len() == i && #[trigger] (a + p + b) == s,
{
    if stands_at(s, p, i) {
        let a = s.take(i);
        let b = s.skip(i + p.len());
        assert(a + p + b =~= s) by {
            assert forall|k: int| 0 <= k < s.len() implies (a + p + b)[k] == s[k] by {
                if i <= k < i + p.len() {
                    assert(s.subrange(i, i + p.len())[k - i] == s[k]);
                }
            }
        }
    }
    assert forall|a: Seq<char>, b: Seq<char>|
        a.len() == i && #[trigger] (a + p + b) == s implies stands_at(s, p, i) by {
        assert(s.subrange(i, i + p.len()) =~= p);
    }
}

/// A text holds another one if and only if it is made of a beginning, the other
/// one and a rest, it begins with it if and only if that beginning is empty, and
/// ends with it if and only if the rest is.
pub proof fn a_text_holds_its_parts(s: Seq<char>, p: Seq<char>)
    ensures
        contains(s, p) <==> exists|a: Seq<char>, b: Seq<char>| #[trigger] (a + p + b) == s,
        starts(s, p) <==> exists|b: Seq<char>| #[trigger] (p + b) == s,
        ends(s, p) <==> exists|a: Seq<char>| #[trigger] (a + p) == s,
{
    if contains(s, p) {
        let i = choose|i: int| stands_at(s, p, i);
        a_part_stands_between_the_others(s, p, i);
    }
    assert forall|a: Seq<char>, b: Seq<char>| #[trigger] (a + p + b) == s implies contains(
        s,
        p,
    ) by {
        a_part_stands_between_the_others(s, p, a.len() as int);
    }
    if starts(s, p) {
        assert(p + s.skip(p.len() as int) =~= s) by {
            assert forall|k: int| 0 <= k < p.len() implies p[k] == s[k] by {
                assert(s.subrange(0, p.len() as int)[k] == s[k]);
            }
        }
    }
    assert forall|b: Seq<char>| #[trigger] (p + b) == s implies starts(s, p) by {
        assert(s.subrange(0, p.len() as int) =~= p);
    }
    if ends(s, p) {
        let n = s.len() - p.len();
        assert(s.take(n) + p =~= s) by {
            assert forall|k: int| n <= k < s.len() implies p[k - n] == s[k] by {
                assert(s.subrange(n, s.len() as int)[k - n] == s[k]);
            }
        }
    }
    assert forall|a: Seq<char>| #[trigger] (a + p) == s implies ends(s, p) by {
        assert(s.subrange(s.len() - p.len(), s.len() as int) =~= p);
    }
}

/// Spaces, tabs and the ends of lines are white, and nothing that is printed of
/// ASCII is.
pub proof fn what_is_printed_is_not_white(c: char)
    ensures
        c == ' ' || c == '\t' || c == '\n' || c == '\r' ==> is_white(c),
        '!' <= c <= '~' ==> !is_white(c),
{
}

/// Whether a text has white space only.
pub open spec fn is_blank(s: Seq<char>) -> bool {
    forall|i: int| 0 <= i < s.len() ==> is_white(#[trigger] s[i])
}

/// Whether a text has no white space.
pub open spec fn is_dense(s: Seq<char>) -> bool {
    forall|i: int| 0 <= i < s.len() ==> !is_white(#[trigger] s[i])
}

/// Trimming takes away the white space on both sides of a text, however much
/// there is, and nothing else.
pub proof fn trimming_takes_the_white_space_away(a: Seq<char>, s: Seq<char>, b: Seq<char>)
    requires
        is_blank(a),
        is_blank(b),
        s.len() == 0 || (!is_white(s.first()) && !is_white(s.last())),
    ensures
        trim(a + s + b) == s,
{
    lemma_trim_start(a, s + b);
    assert(a + (s + b) =~= a + s + b);
    if s.len() == 0 {
        assert(s + b =~= b);
        lemma_trim_start(b, Seq::empty());
        assert(b + Seq::<char>::empty() =~= b);
        assert(trim_end(trim_start(b)) =~= s);
    } else {
        assert((s + b).first() == s.first());
        lemma_trim_end(s, b);
    }
}

proof fn lemma_trim_start(a: Seq<char>, s: Seq<char>)
    requires
        is_blank(a),
    ensures
        trim_start(a + s) == trim_start(s),
    decreases a.len(),
{
    if a.len() == 0 {
        assert(a + s =~= s);
    } else {
        assert((a + s).first() == a[0]);
        assert((a + s).drop_first() =~= a.drop_first() + s);
        lemma_trim_start(a.drop_first(), s);
    }
}

proof fn lemma_trim_end(s: Seq<char>, b: Seq<char>)
    requires
        is_blank(b),
        s.len() > 0,
        !is_white(s.last()),
    ensures
        trim_end(s + b) == s,
    decreases b.len(),
{
    if b.len() == 0 {
        assert(s + b =~= s);
    } else {
        assert((s + b).last() == b[b.len() - 1]);
        assert((s + b).drop_last() =~= s + b.drop_last());
        lemma_trim_end(s, b.drop_last());
    }
}

/// Trimming a character from the end takes all of it that stands there.
pub proof fn trimming_takes_a_character_away(s: Seq<char>, c: char, n: nat)
    requires
        s.len() == 0 || s.last() != c,
    ensures
        trim_end_of(s + Seq::new(n, |i: int| c), c) == s,
    decreases n,
{
    let tail = Seq::new(n, |i: int| c);
    if n == 0 {
        assert(s + tail =~= s);
    } else {
        trimming_takes_a_character_away(s, c, (n - 1) as nat);
        assert((s + tail).last() == c);
        assert((s + tail).drop_last() =~= s + Seq::new((n - 1) as nat, |i: int| c));
    }
}

/// A text is cut into words at white space: white space before it changes
/// nothing, and what stands before the next white space is a word.
pub proof fn words_stand_between_white_space(w: Seq<char>, c: char, rest: Seq<char>)
    requires
        is_white(c),
        is_dense(w),
    ensures
        words(Seq::<char>::empty()) == Seq::<Seq<char>>::empty(),
        words(seq![c] + rest) == words(rest),
        w.len() > 0 ==> words(w) == seq![w],
        w.len() > 0 ==> words(w + seq![c] + rest) == seq![w] + words(rest),
{
    let none = Seq::<char>::empty();
    let after = seq![c] + rest;
    let n = w.len() as int;
    assert(after.first() == c && after.drop_first() =~= rest);
    assert(words(after) == words(rest));
    assert(words(none) =~= Seq::<Seq<char>>::empty());
    if w.len() > 0 {
        assert(w.first() == w[0] && !is_white(w.first()));
        lemma_dense_word(w, none);
        assert(w + none =~= w);
        assert(w.take(n) =~= w && w.skip(n) =~= none);
        assert(words(w) == seq![w.take(n)] + words(w.skip(n)));
        assert(seq![w] + words(none) =~= seq![w]);
        let s = w + seq![c] + rest;
        lemma_dense_word(w, after);
        assert(w + after =~= s);
        assert(s.first() == w[0]);
        assert(s.take(n) =~= w && s.skip(n) =~= after);
        assert(words(s) == seq![s.take(n)] + words(s.skip(n)));
    }
}

proof fn lemma_dense_word(w: Seq<char>, rest: Seq<char>)
    requires
        is_dense(w),
        rest.len() == 0 || is_white(rest.first()),
    ensures
        word_len(w + rest) == w.len(),
    decreases w.len(),
{
    if w.len() == 0 {
        assert(w + rest =~= rest);
    } else {
        assert((w + rest).first() == w[0]);
        assert((w + rest).drop_first() =~= w.drop_first() + rest);
        lemma_dense_word(w.drop_first(), rest);
    }
}

proof fn lemma_index_shift(s: Seq<char>, c: char, from: int, t: Seq<char>, at: int)
    requires
        0 <= from <= s.len(),
        0 <= at <= t.len(),
        s.skip(from) == t.skip(at),
    ensures
        index_from(s, c, from) - from == index_from(t, c, at) - at,
    decreases s.len() - from,
{
    assert(s.skip(from).len() == s.len() - from);
    assert(t.skip(at).len() == t.len() - at);
    if from < s.len() {
        assert(s.skip(from)[0] == s[from]);
        assert(t.skip(at)[0] == t[at]);
        assert(s.skip(from + 1) =~= s.skip(from).drop_first());
        assert(t.skip(at + 1) =~= t.skip(at).drop_first());
        lemma_index_shift(s, c, from + 1, t, at + 1);
    }
}

proof fn lemma_pieces_shift(s: Seq<char>, c: char, from: int, t: Seq<char>, at: int)
    requires
        0 <= from <= s.len(),
        0 <= at <= t.len(),
        s.skip(from) == t.skip(at),
    ensures
        pieces_from(s, c, from) == pieces_from(t, c, at),
    decreases s.len() - from,
{
    lemma_index_from(s, c, from);
    lemma_index_from(t, c, at);
    lemma_index_shift(s, c, from, t, at);
    let end = index_from(s, c, from);
    let till = index_from(t, c, at);
    assert(s.skip(from).len() == t.skip(at).len());
    assert(s.subrange(from, end) =~= s.skip(from).take(end - from));
    assert(t.subrange(at, till) =~= t.skip(at).take(till - at));
    if end < s.len() {
        assert(s.skip(end + 1) =~= s.skip(from).skip(end + 1 - from));
        assert(t.skip(till + 1) =~= t.skip(at).skip(till + 1 - at));
        lemma_pieces_shift(s, c, end + 1, t, till + 1);
    }
}

/// A text is cut at each separator: what stands before the first is the first
/// piece, and a text without separators is one piece.
pub proof fn pieces_stand_between_separators(p: Seq<char>, c: char, rest: Seq<char>)
    requires
        !p.contains(c),
    ensures
        pieces(p, c) == seq![p],
        pieces(p + seq![c] + rest, c) == seq![p] + pieces(rest, c),
{
    lemma_index_from(p, c, 0);
    let i = index_from(p, c, 0);
    if i < p.len() {
        assert(p.contains(p[i]));
    }
    assert(p.subrange(0, i) =~= p);
    let s = p + seq![c] + rest;
    lemma_index_from(s, c, 0);
    let end = index_from(s, c, 0);
    assert(s[p.len() as int] == c);
    if end < p.len() {
        assert(p[end] == c);
        assert(p.contains(c));
    }
    assert(s.subrange(0, end) =~= p);
    assert(s.skip(end + 1) =~= rest.skip(0));
    lemma_pieces_shift(s, c, end + 1, rest, 0);
}

proof fn lemma_lines_shift(s: Seq<char>, from: int, t: Seq<char>, at: int)
    requires
        0 <= from <= s.len(),
        0 <= at <= t.len(),
        s.skip(from) == t.skip(at),
    ensures
        lines_from(s, from) == lines_from(t, at),
    decreases s.len() - from,
{
    let c = '\n';
    lemma_index_from(s, c, from);
    lemma_index_from(t, c, at);
    lemma_index_shift(s, c, from, t, at);
    let end = index_from(s, c, from);
    let till = index_from(t, c, at);
    assert(s.skip(from).len() == t.skip(at).len());
    assert(s.subrange(from, end) =~= s.skip(from).take(end - from));
    assert(t.subrange(at, till) =~= t.skip(at).take(till - at));
    if end < s.len() {
        assert(s.skip(end + 1) =~= s.skip(from).skip(end + 1 - from));
        assert(t.skip(till + 1) =~= t.skip(at).skip(till + 1 - at));
        lemma_lines_shift(s, end + 1, t, till + 1);
    }
}

/// A line feed ends a line, a carriage return before it belongs to the ending,
/// and what stands behind the last line feed is a line where there is anything.
pub proof fn lines_end_at_line_feeds(l: Seq<char>, rest: Seq<char>)
    requires
        !l.contains('\n'),
    ensures
        lines(Seq::<char>::empty()) == Seq::<Seq<char>>::empty(),
        l.len() > 0 ==> lines(l) == seq![l],
        l.len() == 0 || l.last() != '\r' ==> lines(l + seq!['\n'] + rest) == seq![l] + lines(rest),
        lines(l + seq!['\r', '\n'] + rest) == seq![l] + lines(rest),
{
    let c = '\n';
    lemma_index_from(l, c, 0);
    let i = index_from(l, c, 0);
    if i < l.len() {
        assert(l.contains(l[i]));
    }
    assert(l.subrange(0, i) =~= l);
    lemma_first_line(l, rest);
    let r = l.push('\r');
    assert(!r.contains(c)) by {
        if r.contains(c) {
            let k = choose|k: int| 0 <= k < r.len() && r[k] == c;
            assert(l[k] == c);
        }
    }
    lemma_first_line(r, rest);
    assert(r + seq![c] + rest =~= l + seq!['\r', '\n'] + rest);
    assert(r.drop_last() =~= l);
}

proof fn lemma_first_line(l: Seq<char>, rest: Seq<char>)
    requires
        !l.contains('\n'),
    ensures
        lines(l + seq!['\n'] + rest) == seq![without_return(l)] + lines(rest),
{
    let c = '\n';
    let s = l + seq![c] + rest;
    lemma_index_from(s, c, 0);
    let end = index_from(s, c, 0);
    assert(s[l.len() as int] == c);
    if end < l.len() {
        assert(l[end] == c);
        assert(l.contains(c));
    }
    assert(s.subrange(0, end) =~= l);
    assert(s.skip(end + 1) =~= rest.skip(0));
    lemma_lines_shift(s, end + 1, rest, 0);
}

/// The last place of a character is the one with none behind it.
pub proof fn the_last_place_has_none_behind_it(a: Seq<char>, c: char, b: Seq<char>)
    requires
        !b.contains(c),
    ensures
        last_index(a + seq![c] + b, c) == Some(a.len() as int),
        last_index(b, c) is None,
    decreases b.len(),
{
    let s = a + seq![c] + b;
    if b.len() == 0 {
        assert(s.last() == c);
    } else {
        assert(s.last() == b.last());
        assert(b.contains(b.last()));
        assert(s.drop_last() =~= a + seq![c] + b.drop_last());
        assert(!b.drop_last().contains(c)) by {
            if b.drop_last().contains(c) {
                let i = choose|i: int| 0 <= i < b.drop_last().len() && b.drop_last()[i] == c;
                assert(b[i] == c);
            }
        }
        the_last_place_has_none_behind_it(a, c, b.drop_last());
    }
}

/// A text in which another one does not stand has nothing replaced; otherwise
/// its first place is replaced, and then those in the rest.
pub proof fn every_place_is_replaced(
    a: Seq<char>,
    from: Seq<char>,
    rest: Seq<char>,
    to: Seq<char>,
)
    requires
        from.len() > 0,
        forall|k: int| 0 <= k < a.len() ==> !stands_at(a + from + rest, from, k),
    ensures
        replaced(a + from + rest, from, to) == a + to + replaced(rest, from, to),
        !contains(a, from) ==> replaced(a, from, to) == a,
    decreases a.len(),
{
    let s = a + from + rest;
    if a.len() == 0 {
        assert(s =~= from + rest);
        assert(s.subrange(0, from.len() as int) =~= from);
        assert(s.skip(from.len() as int) =~= rest);
        assert(a + to + replaced(rest, from, to) =~= to + replaced(rest, from, to));
    } else {
        let b = a.drop_first();
        let t = b + from + rest;
        assert(s.drop_first() =~= t);
        assert(!stands_at(s, from, 0));
        assert forall|k: int| 0 <= k < b.len() implies !stands_at(t, from, k) by {
            assert(!stands_at(s, from, k + 1));
            if stands_at(t, from, k) {
                assert(s.subrange(k + 1, k + 1 + from.len()) =~= t.subrange(k, k + from.len()));
            }
        }
        every_place_is_replaced(b, from, rest, to);
        assert(seq![s.first()] + (b + to + replaced(rest, from, to)) =~= a + to + replaced(
            rest,
            from,
            to,
        ));
        if !contains(a, from) {
            assert(!stands_at(a, from, 0));
            assert(!contains(b, from)) by {
                if contains(b, from) {
                    let k = choose|k: int| stands_at(b, from, k);
                    assert(a.subrange(k + 1, k + 1 + from.len()) =~= b.subrange(
                        k,
                        k + from.len(),
                    ));
                    assert(stands_at(a, from, k + 1));
                }
            }
            assert(seq![a.first()] + b =~= a);
        }
    }
}

/// Whether a text has a part: it is made of a beginning, the part and a rest.
pub open spec fn has_part(text: Seq<char>, part: Seq<char>) -> bool {
    exists|a: Seq<char>, b: Seq<char>| #[trigger] (a + part + b) == text
}

/// Whether a text begins with the given characters.
pub open spec fn begins(l: Seq<char>, p: Seq<char>) -> bool {
    l.len() >= p.len() && forall|i: int| 0 <= i < p.len() ==> #[trigger] l[i] == p[i]
}

/// A text begins with another one if it has its characters at its beginning.
pub proof fn lemma_starts_begins(l: Seq<char>, p: Seq<char>)
    ensures
        starts(l, p) <==> begins(l, p),
{
    if starts(l, p) {
        assert forall|i: int| 0 <= i < p.len() implies #[trigger] l[i] == p[i] by {
            assert(l.subrange(0, p.len() as int)[i] == p[i]);
        }
    }
    if begins(l, p) {
        assert(l.subrange(0, p.len() as int) =~= p);
    }
}

/// White space is what Unicode calls so: the twenty-five characters that are listed
/// here by their numbers, and no others.
pub proof fn white_space_has_these_characters(c: char)
    ensures
        is_white(c) <==> ({
            let n = c as u32;
            n == 9 || n == 10 || n == 11 || n == 12 || n == 13 || n == 32 || n == 133 || n == 160 || n
                == 5760 || n == 8192 || n == 8193 || n == 8194 || n == 8195 || n == 8196 || n == 8197
                || n == 8198 || n == 8199 || n == 8200 || n == 8201 || n == 8202 || n == 8232 || n
                == 8233 || n == 8239 || n == 8287 || n == 12288
        }),
{
}

} // verus!
