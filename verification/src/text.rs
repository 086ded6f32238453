//! Text as a sequence of characters: searching, splitting, trimming, numbers.
//!
//! Every executable function states its result through a spec function over
//! `Seq<char>`, so the callers' contracts can speak of texts without bytes.

use vstd::prelude::*;

verus! {

/// `String::push` appends one character.
pub assume_specification[ String::push ](s: &mut String, c: char)
    ensures
        final(s)@ == old(s)@.push(c),
;

/// `==` on two string slices holds exactly when they hold the same characters.
pub assume_specification[ <str as PartialEq<str>>::eq ](a: &str, b: &str) -> (r: bool)
    ensures
        r == (a@ == b@),
;

/// The characters of each string of a list.
pub open spec fn views(v: Seq<String>) -> Seq<Seq<char>> {
    v.map_values(|s: String| s@)
}

/// The characters of an optional string.
pub open spec fn opt_view(o: Option<String>) -> Option<Seq<char>> {
    match o {
        Some(s) => Some(s@),
        None => None,
    }
}

/// Whether two texts are the same.
pub fn same(a: &str, b: &str) -> (r: bool)
    ensures
        r == (a@ == b@),
{
    *a == *b
}

/// The characters of a text, one by one.
pub fn chars_of(s: &str) -> (v: Vec<char>)
    ensures
        v@ == s@,
{
    let mut v: Vec<char> = Vec::new();
    for c in it: s.chars()
        invariant
            it.seq() == s@,
            v@ == s@.take(it.index() as int),
    {
        v.push(c);
        assert(v@ == s@.take(it.index() as int + 1));
    }
    assert(s@.take(s@.len() as int) == s@);
    v
}

/// The text made of the characters `from .. to` of `v`.
pub fn text_of(v: &Vec<char>, from: usize, to: usize) -> (s: String)
    requires
        from <= to <= v@.len(),
    ensures
        s@ == v@.subrange(from as int, to as int),
{
    let mut s = String::new();
    let mut i: usize = from;
    while i < to
        invariant
            from <= i <= to <= v@.len(),
            s@ == v@.subrange(from as int, i as int),
        decreases to - i,
    {
        s.push(v[i]);
        assert(s@ == v@.subrange(from as int, i + 1));
        i = i + 1;
    }
    s
}


// ---------------------------------------------------------------------------
// Searching
// ---------------------------------------------------------------------------

/// `pat` stands in `s` at position `i`.
pub open spec fn occurs_at(s: Seq<char>, pat: Seq<char>, i: int) -> bool {
    &&& 0 <= i
    &&& i + pat.len() <= s.len()
    &&& s.subrange(i, i + pat.len()) == pat
}

/// `pat` stands somewhere in `s`.
pub open spec fn holds(s: Seq<char>, pat: Seq<char>) -> bool {
    exists|i: int| occurs_at(s, pat, i)
}

/// The first position at or after `from` at which `pat` stands in `s`.
pub open spec fn find_from(s: Seq<char>, pat: Seq<char>, from: int) -> Option<int>
    decreases s.len() + 1 - from,
{
    if from < 0 || from + pat.len() > s.len() {
        None
    } else if occurs_at(s, pat, from) {
        Some(from)
    } else {
        find_from(s, pat, from + 1)
    }
}

/// The first position at which `pat` stands in `s`.
pub open spec fn find(s: Seq<char>, pat: Seq<char>) -> Option<int> {
    find_from(s, pat, 0)
}

/// `s` begins with `pat`.
pub open spec fn starts(s: Seq<char>, pat: Seq<char>) -> bool {
    occurs_at(s, pat, 0)
}

/// `s` ends with `pat`.
pub open spec fn ends(s: Seq<char>, pat: Seq<char>) -> bool {
    occurs_at(s, pat, s.len() - pat.len())
}

/// What follows the prefix `pat` of `s`; `None` when `s` does not begin with it.
pub open spec fn after_prefix(s: Seq<char>, pat: Seq<char>) -> Option<Seq<char>> {
    if starts(s, pat) {
        Some(s.skip(pat.len() as int))
    } else {
        None
    }
}

/// What precedes the suffix `pat` of `s`; `None` when `s` does not end with it.
pub open spec fn before_suffix(s: Seq<char>, pat: Seq<char>) -> Option<Seq<char>> {
    if ends(s, pat) {
        Some(s.take(s.len() - pat.len()))
    } else {
        None
    }
}

/// The texts before and after the first occurrence of `pat` in `s`.
pub open spec fn cut(s: Seq<char>, pat: Seq<char>) -> Option<(Seq<char>, Seq<char>)> {
    match find(s, pat) {
        Some(i) => Some((s.take(i), s.skip(i + pat.len()))),
        None => None,
    }
}

/// A search result is an occurrence, and none stands between `from` and it.
pub proof fn lemma_find_from(s: Seq<char>, pat: Seq<char>, from: int)
    requires
        0 <= from,
    ensures
        match find_from(s, pat, from) {
            Some(i) => from <= i && occurs_at(s, pat, i) && (forall|j: int|
                from <= j < i ==> !occurs_at(s, pat, j)),
            None => forall|j: int| from <= j ==> !occurs_at(s, pat, j),
        },
    decreases s.len() + 1 - from,
{
    if from + pat.len() > s.len() {
    } else if occurs_at(s, pat, from) {
    } else {
        lemma_find_from(s, pat, from + 1);
    }
}

/// A text holds a pattern exactly when searching for it succeeds.
pub proof fn lemma_holds_is_find(s: Seq<char>, pat: Seq<char>)
    ensures
        holds(s, pat) == (find(s, pat) is Some),
{
    lemma_find_from(s, pat, 0);
}

fn occurs_in(v: &Vec<char>, pat: &Vec<char>, i: usize) -> (r: bool)
    requires
        i + pat@.len() <= v@.len(),
    ensures
        r == occurs_at(v@, pat@, i as int),
{
    let n: usize = v.len();
    let mut k: usize = 0;
    while k < pat.len()
        invariant
            n == v@.len(),
            k <= pat@.len(),
            i + pat@.len() <= v@.len(),
            forall|j: int| 0 <= j < k ==> v@[i + j] == pat@[j],
        decreases pat@.len() - k,
    {
        if v[i + k] != pat[k] {
            assert(v@.subrange(i as int, i + pat@.len())[k as int] != pat@[k as int]);
            return false;
        }
        k = k + 1;
    }
    assert(v@.subrange(i as int, i + pat@.len()) == pat@);
    true
}

/// The first position, counted in characters, at which `pat` stands in `v`.
pub fn find_chars(v: &Vec<char>, pat: &Vec<char>) -> (r: Option<usize>)
    ensures
        match r {
            Some(i) => find(v@, pat@) == Some(i as int) && i + pat@.len() <= v@.len(),
            None => find(v@, pat@) is None,
        },
{
    if pat.len() > v.len() {
        return None;
    }
    let last: usize = v.len() - pat.len();
    let mut i: usize = 0;
    while i <= last
        invariant
            last == v@.len() - pat@.len(),
            i <= last + 1,
            find_from(v@, pat@, i as int) == find(v@, pat@),
        decreases last + 1 - i,
    {
        if occurs_in(v, pat, i) {
            return Some(i);
        }
        if i == last {
            return None;
        }
        i = i + 1;
    }
    None
}

/// Whether `pat` stands somewhere in `s`.
pub fn contains_text(s: &str, pat: &str) -> (r: bool)
    ensures
        r == holds(s@, pat@),
{
    let v = chars_of(s);
    let p = chars_of(pat);
    proof {
        lemma_holds_is_find(s@, pat@);
    }
    find_chars(&v, &p).is_some()
}

/// Whether `s` begins with `pat`.
pub fn starts_with(s: &str, pat: &str) -> (r: bool)
    ensures
        r == starts(s@, pat@),
{
    let v = chars_of(s);
    let p = chars_of(pat);
    p.len() <= v.len() && occurs_in(&v, &p, 0)
}

/// Whether `s` ends with `pat`.
pub fn ends_with(s: &str, pat: &str) -> (r: bool)
    ensures
        r == ends(s@, pat@),
{
    let v = chars_of(s);
    let p = chars_of(pat);
    p.len() <= v.len() && occurs_in(&v, &p, v.len() - p.len())
}

/// What follows the prefix `pat`.
pub fn strip_prefix(s: &str, pat: &str) -> (r: Option<String>)
    ensures
        opt_view(r) == after_prefix(s@, pat@),
{
    let v = chars_of(s);
    let p = chars_of(pat);
    if p.len() <= v.len() && occurs_in(&v, &p, 0) {
        let t = text_of(&v, p.len(), v.len());
        assert(t@ == s@.skip(pat@.len() as int));
        Some(t)
    } else {
        None
    }
}

/// What precedes the suffix `pat`.
pub fn strip_suffix(s: &str, pat: &str) -> (r: Option<String>)
    ensures
        opt_view(r) == before_suffix(s@, pat@),
{
    let v = chars_of(s);
    let p = chars_of(pat);
    if p.len() <= v.len() && occurs_in(&v, &p, v.len() - p.len()) {
        let t = text_of(&v, 0, v.len() - p.len());
        assert(t@ == s@.take(s@.len() - pat@.len()));
        Some(t)
    } else {
        None
    }
}

/// The texts before and after the first occurrence of `pat`.
pub fn split_once(s: &str, pat: &str) -> (r: Option<(String, String)>)
    ensures
        match r {
            Some((a, b)) => cut(s@, pat@) == Some((a@, b@)),
            None => cut(s@, pat@) is None,
        },
{
    let v = chars_of(s);
    let p = chars_of(pat);
    let n: usize = v.len();
    match find_chars(&v, &p) {
        Some(i) => {
            let a = text_of(&v, 0, i);
            let b = text_of(&v, i + p.len(), n);
            assert(a@ == s@.take(i as int));
            assert(b@ == s@.skip(i + pat@.len()));
            Some((a, b))
        },
        None => None,
    }
}

// ---------------------------------------------------------------------------
// Splitting
// ---------------------------------------------------------------------------

/// The characters with the Unicode property White_Space.
pub open spec fn is_space(c: char) -> bool {
    ||| '\u{9}' <= c <= '\u{d}'
    ||| c == ' '
    ||| c == '\u{85}'
    ||| c == '\u{a0}'
    ||| c == '\u{1680}'
    ||| '\u{2000}' <= c <= '\u{200a}'
    ||| c == '\u{2028}'
    ||| c == '\u{2029}'
    ||| c == '\u{202f}'
    ||| c == '\u{205f}'
    ||| c == '\u{3000}'
}

/// Whether `c` is white space.
pub fn space(c: char) -> (r: bool)
    ensures
        r == is_space(c),
{
    ('\u{9}' <= c && c <= '\u{d}') || c == ' ' || c == '\u{85}' || c == '\u{a0}' || c == '\u{1680}'
        || ('\u{2000}' <= c && c <= '\u{200a}') || c == '\u{2028}' || c == '\u{2029}' || c
        == '\u{202f}' || c == '\u{205f}' || c == '\u{3000}'
}

/// The number of characters before the first white space.
pub open spec fn word_len(s: Seq<char>) -> nat
    decreases s.len(),
{
    if s.len() == 0 || is_space(s[0]) {
        0
    } else {
        1 + word_len(s.skip(1))
    }
}

/// The maximal runs of characters that are not white space.
pub open spec fn words(s: Seq<char>) -> Seq<Seq<char>>
    decreases s.len(),
{
    if s.len() == 0 {
        seq![]
    } else if is_space(s[0]) {
        words(s.skip(1))
    } else {
        proof {
            lemma_word_len(s);
        }
        seq![s.take(word_len(s) as int)] + words(s.skip(word_len(s) as int))
    }
}

/// A word is no longer than its text, and begins at a character that is not
/// white space.
pub proof fn lemma_word_len(s: Seq<char>)
    ensures
        word_len(s) <= s.len(),
        s.len() > 0 && !is_space(s[0]) ==> word_len(s) > 0,
    decreases s.len(),
{
    if s.len() > 0 && !is_space(s[0]) {
        lemma_word_len(s.skip(1));
    }
}

/// The words of a text, in order.
pub fn split_words(s: &str) -> (r: Vec<String>)
    ensures
        views(r@) == words(s@),
{
    let v = chars_of(s);
    let mut r: Vec<String> = Vec::new();
    let mut i: usize = 0;
    assert(s@.skip(0) == s@);
    assert(views(r@) + words(s@.skip(0)) == words(s@));
    while i < v.len()
        invariant
            v@ == s@,
            i <= v@.len(),
            views(r@) + words(s@.skip(i as int)) == words(s@),
        decreases v@.len() - i,
    {
        if space(v[i]) {
            assert(s@.skip(i as int).skip(1) == s@.skip(i + 1));
            i = i + 1;
        } else {
            let start: usize = i;
            let ghost rest = s@.skip(start as int);
            proof {
                lemma_word_len(rest);
                assert(rest.skip(0) == rest);
            }
            while i < v.len() && !space(v[i])
                invariant
                    v@ == s@,
                    start <= i <= v@.len(),
                    rest == s@.skip(start as int),
                    word_len(rest) == (i - start) + word_len(rest.skip(i - start)),
                decreases v@.len() - i,
            {
                assert(rest.skip(i - start)[0] == s@[i as int]);
                assert(rest.skip(i - start).skip(1) == rest.skip(i - start + 1));
                i = i + 1;
            }
            let w = text_of(&v, start, i);
            proof {
                let tail = rest.skip(i - start);
                assert(i < v@.len() ==> tail[0] == s@[i as int]);
                assert(word_len(tail) == 0);
                assert(w@ == rest.take(word_len(rest) as int));
                assert(rest.skip(word_len(rest) as int) == s@.skip(i as int));
            }
            let ghost before = r@;
            r.push(w);
            assert(views(r@) == views(before).push(w@));
            assert(views(before) + (seq![w@] + words(s@.skip(i as int))) == views(r@) + words(
                s@.skip(i as int),
            ));
        }
    }
    assert(words(s@.skip(v@.len() as int)) == Seq::<Seq<char>>::empty());
    r
}

/// The pieces of `s` between the occurrences of `c`.
pub open spec fn pieces(s: Seq<char>, c: char) -> Seq<Seq<char>>
    decreases s.len(),
{
    match find(s, seq![c]) {
        Some(i) => if 0 <= i < s.len() {
            seq![s.take(i)] + pieces(s.skip(i + 1), c)
        } else {
            seq![s]
        },
        None => seq![s],
    }
}

/// The text without a trailing carriage return.
pub open spec fn without_cr(s: Seq<char>) -> Seq<char> {
    if s.len() > 0 && s.last() == '\r' {
        s.drop_last()
    } else {
        s
    }
}

/// The lines of a text: each ends with `\n` or `\r\n`, the last may end
/// without, and the ending is not part of the line.
pub open spec fn lines(s: Seq<char>) -> Seq<Seq<char>>
    decreases s.len(),
{
    if s.len() == 0 {
        seq![]
    } else {
        match find(s, seq!['\n']) {
            Some(i) => if 0 <= i < s.len() {
                seq![without_cr(s.take(i))] + lines(s.skip(i + 1))
            } else {
                seq![s]
            },
            None => seq![s],
        }
    }
}

/// The first position of `c` at or after `from`, or the length of `v`.
fn index_of_char(v: &Vec<char>, c: char, from: usize) -> (r: usize)
    requires
        from <= v@.len(),
    ensures
        from <= r <= v@.len(),
        match find(v@.skip(from as int), seq![c]) {
            Some(i) => r == from + i && r < v@.len(),
            None => r == v@.len(),
        },
{
    let ghost rest = v@.skip(from as int);
    let mut i: usize = from;
    while i < v.len() && v[i] != c
        invariant
            rest == v@.skip(from as int),
            from <= i <= v@.len(),
            find_from(rest, seq![c], i - from) == find(rest, seq![c]),
        decreases v@.len() - i,
    {
        assert(rest.subrange(i - from, i - from + 1)[0] == v@[i as int]);
        assert(!occurs_at(rest, seq![c], i - from)) by {
            if rest.subrange(i - from, i - from + 1) == seq![c] {
                assert(rest.subrange(i - from, i - from + 1)[0] == c);
            }
        }
        i = i + 1;
    }
    if i < v.len() {
        assert(rest.subrange(i - from, i - from + 1) == seq![c]);
        assert(occurs_at(rest, seq![c], i - from));
    }
    i
}

/// The pieces of a text between the occurrences of `c`, in order.
pub fn split_char(s: &str, c: char) -> (r: Vec<String>)
    ensures
        views(r@) == pieces(s@, c),
        r@.len() > 0,
{
    let v = chars_of(s);
    let mut r: Vec<String> = Vec::new();
    let mut i: usize = 0;
    assert(s@.skip(0) == s@);
    assert(views(r@) + pieces(s@.skip(0), c) == pieces(s@, c));
    loop
        invariant
            v@ == s@,
            i <= v@.len(),
            views(r@) + pieces(s@.skip(i as int), c) == pieces(s@, c),
        decreases v@.len() - i,
    {
        let e = index_of_char(&v, c, i);
        let w = text_of(&v, i, e);
        let ghost rest = s@.skip(i as int);
        assert(w@ == rest.take(e - i));
        let ghost before = r@;
        r.push(w);
        assert(views(r@) == views(before).push(w@));
        if e == v.len() {
            assert(rest.take(e - i) == rest);
            assert(views(before) + seq![w@] == views(r@));
            return r;
        }
        assert(rest.skip(e - i + 1) == s@.skip(e + 1));
        assert(views(before) + (seq![w@] + pieces(s@.skip(e + 1), c)) == views(r@) + pieces(
            s@.skip(e + 1),
            c,
        ));
        i = e + 1;
    }
}

/// The lines of a text, in order.
pub fn split_lines(s: &str) -> (r: Vec<String>)
    ensures
        views(r@) == lines(s@),
{
    let v = chars_of(s);
    let mut r: Vec<String> = Vec::new();
    let mut i: usize = 0;
    assert(s@.skip(0) == s@);
    assert(views(r@) + lines(s@.skip(0)) == lines(s@));
    while i < v.len()
        invariant
            v@ == s@,
            i <= v@.len(),
            views(r@) + lines(s@.skip(i as int)) == lines(s@),
        decreases v@.len() - i,
    {
        let e = index_of_char(&v, '\n', i);
        let ghost rest = s@.skip(i as int);
        let ghost before = r@;
        if e == v.len() {
            let w = text_of(&v, i, e);
            assert(w@ == rest);
            r.push(w);
            assert(views(r@) == views(before).push(w@));
            assert(views(before) + seq![w@] == views(r@));
            return r;
        }
        let cr: bool = e > i && v[e - 1] == '\r';
        let w = text_of(&v, i, if cr { e - 1 } else { e });
        assert(w@ == without_cr(rest.take(e - i))) by {
            let t = rest.take(e - i);
            if t.len() > 0 {
                assert(t.last() == v@[e - 1]);
                assert(t.drop_last() == v@.subrange(i as int, e - 1));
            }
            assert(t == v@.subrange(i as int, e as int));
        }
        r.push(w);
        assert(views(r@) == views(before).push(w@));
        assert(rest.skip(e - i + 1) == s@.skip(e + 1));
        assert(views(before) + (seq![w@] + lines(s@.skip(e + 1))) == views(r@) + lines(
            s@.skip(e + 1),
        ));
        i = e + 1;
    }
    assert(lines(s@.skip(v@.len() as int)) == Seq::<Seq<char>>::empty());
    r
}

// ---------------------------------------------------------------------------
// Trimming
// ---------------------------------------------------------------------------

/// The text without leading white space.
pub open spec fn trim_start(s: Seq<char>) -> Seq<char>
    decreases s.len(),
{
    if s.len() > 0 && is_space(s[0]) {
        trim_start(s.skip(1))
    } else {
        s
    }
}

/// The text without trailing white space.
pub open spec fn trim_end(s: Seq<char>) -> Seq<char>
    decreases s.len(),
{
    if s.len() > 0 && is_space(s.last()) {
        trim_end(s.drop_last())
    } else {
        s
    }
}

/// The text without white space at either end.
pub open spec fn trim(s: Seq<char>) -> Seq<char> {
    trim_end(trim_start(s))
}

/// The text without leading `c`s.
pub open spec fn trim_start_char(s: Seq<char>, c: char) -> Seq<char>
    decreases s.len(),
{
    if s.len() > 0 && s[0] == c {
        trim_start_char(s.skip(1), c)
    } else {
        s
    }
}

/// The text without trailing `c`s.
pub open spec fn trim_end_char(s: Seq<char>, c: char) -> Seq<char>
    decreases s.len(),
{
    if s.len() > 0 && s.last() == c {
        trim_end_char(s.drop_last(), c)
    } else {
        s
    }
}

/// The text without `c`s at either end.
pub open spec fn trim_char(s: Seq<char>, c: char) -> Seq<char> {
    trim_end_char(trim_start_char(s, c), c)
}

fn start_without_space(v: &Vec<char>) -> (r: usize)
    ensures
        r <= v@.len(),
        v@.skip(r as int) == trim_start(v@),
{
    let mut i: usize = 0;
    assert(v@.skip(0) == v@);
    while i < v.len() && space(v[i])
        invariant
            i <= v@.len(),
            trim_start(v@.skip(i as int)) == trim_start(v@),
        decreases v@.len() - i,
    {
        assert(v@.skip(i as int)[0] == v@[i as int]);
        assert(v@.skip(i as int).skip(1) == v@.skip(i + 1));
        i = i + 1;
    }
    assert(i < v@.len() ==> v@.skip(i as int)[0] == v@[i as int]);
    i
}

fn end_without_space(v: &Vec<char>, from: usize) -> (r: usize)
    requires
        from <= v@.len(),
    ensures
        from <= r <= v@.len(),
        v@.subrange(from as int, r as int) == trim_end(v@.skip(from as int)),
{
    let mut i: usize = v.len();
    let ghost rest = v@.skip(from as int);
    assert(v@.subrange(from as int, i as int) == rest);
    while i > from && space(v[i - 1])
        invariant
            from <= i <= v@.len(),
            trim_end(v@.subrange(from as int, i as int)) == trim_end(rest),
        decreases i,
    {
        let ghost cur = v@.subrange(from as int, i as int);
        assert(cur.last() == v@[i - 1]);
        assert(cur.drop_last() == v@.subrange(from as int, i - 1));
        i = i - 1;
    }
    assert(i > from ==> v@.subrange(from as int, i as int).last() == v@[i - 1]);
    i
}

/// The text without leading white space.
pub fn trim_left(s: &str) -> (r: String)
    ensures
        r@ == trim_start(s@),
{
    let v = chars_of(s);
    let a = start_without_space(&v);
    let r = text_of(&v, a, v.len());
    assert(r@ == v@.skip(a as int));
    r
}

/// The text without white space at either end.
pub fn trimmed(s: &str) -> (r: String)
    ensures
        r@ == trim(s@),
{
    let v = chars_of(s);
    let a = start_without_space(&v);
    let b = end_without_space(&v, a);
    text_of(&v, a, b)
}

/// The text without `c`s at its end.
pub fn trimmed_end_of(s: &str, c: char) -> (r: String)
    ensures
        r@ == trim_end_char(s@, c),
{
    let v = chars_of(s);
    let mut i: usize = v.len();
    assert(v@.take(i as int) == v@);
    while i > 0 && v[i - 1] == c
        invariant
            i <= v@.len(),
            v@ == s@,
            trim_end_char(v@.take(i as int), c) == trim_end_char(s@, c),
        decreases i,
    {
        assert(v@.take(i as int).last() == v@[i - 1]);
        assert(v@.take(i as int).drop_last() == v@.take(i - 1));
        i = i - 1;
    }
    assert(i > 0 ==> v@.take(i as int).last() == v@[i - 1]);
    let r = text_of(&v, 0, i);
    assert(r@ == v@.take(i as int));
    r
}

/// The text without `c`s at either end.
pub fn trimmed_of(s: &str, c: char) -> (r: String)
    ensures
        r@ == trim_char(s@, c),
{
    let v = chars_of(s);
    let mut i: usize = 0;
    assert(v@.skip(0) == v@);
    while i < v.len() && v[i] == c
        invariant
            i <= v@.len(),
            v@ == s@,
            trim_start_char(v@.skip(i as int), c) == trim_start_char(s@, c),
        decreases v@.len() - i,
    {
        assert(v@.skip(i as int)[0] == v@[i as int]);
        assert(v@.skip(i as int).skip(1) == v@.skip(i + 1));
        i = i + 1;
    }
    assert(i < v@.len() ==> v@.skip(i as int)[0] == v@[i as int]);
    let t = text_of(&v, i, v.len());
    assert(t@ == v@.skip(i as int));
    trimmed_end_of(t.as_str(), c)
}

/// An ASCII letter in lower case, any other character as it is.
pub open spec fn lower(c: char) -> char {
    if 'A' <= c <= 'Z' {
        (c as int - 'A' as int + 'a' as int) as char
    } else {
        c
    }
}

/// The same text up to the case of the ASCII letters.
pub open spec fn same_ignoring_case(a: Seq<char>, b: Seq<char>) -> bool {
    a.map_values(|c: char| lower(c)) == b.map_values(|c: char| lower(c))
}

fn lower_of(c: char) -> (r: char)
    ensures
        r == lower(c),
{
    if 'A' <= c && c <= 'Z' {
        ((c as u8) - 65 + 97) as char
    } else {
        c
    }
}

/// Whether two texts are the same up to the case of the ASCII letters.
pub fn eq_ignore_case(a: &str, b: &str) -> (r: bool)
    ensures
        r == same_ignoring_case(a@, b@),
{
    let v = chars_of(a);
    let w = chars_of(b);
    let ghost la = a@.map_values(|c: char| lower(c));
    let ghost lb = b@.map_values(|c: char| lower(c));
    if v.len() != w.len() {
        assert(la.len() != lb.len());
        return false;
    }
    let mut i: usize = 0;
    while i < v.len()
        invariant
            v@ == a@,
            w@ == b@,
            v@.len() == w@.len(),
            i <= v@.len(),
            la == a@.map_values(|c: char| lower(c)),
            lb == b@.map_values(|c: char| lower(c)),
            forall|j: int| 0 <= j < i ==> la[j] == lb[j],
        decreases v@.len() - i,
    {
        if lower_of(v[i]) != lower_of(w[i]) {
            assert(la[i as int] != lb[i as int]);
            return false;
        }
        i = i + 1;
    }
    assert(la == lb);
    true
}

// ---------------------------------------------------------------------------
// Numbers
// ---------------------------------------------------------------------------

/// The value of a digit in bases up to sixteen.
pub open spec fn digit(c: char, radix: int) -> Option<int> {
    let d = if '0' <= c <= '9' {
        c as int - '0' as int
    } else if 'a' <= c <= 'f' {
        c as int - 'a' as int + 10
    } else if 'A' <= c <= 'F' {
        c as int - 'A' as int + 10
    } else {
        radix
    };
    if d < radix {
        Some(d)
    } else {
        None
    }
}

/// The value of a run of digits; `None` when a character is not a digit.
pub open spec fn digits_value(s: Seq<char>, radix: int) -> Option<int>
    decreases s.len(),
{
    if s.len() == 0 {
        Some(0)
    } else {
        match (digits_value(s.drop_last(), radix), digit(s.last(), radix)) {
            (Some(v), Some(d)) => Some(v * radix + d),
            _ => None,
        }
    }
}

/// The value of a text that is an optional `+` and at least one digit.
pub open spec fn unsigned_value(s: Seq<char>, radix: int) -> Option<int> {
    let body = if s.len() > 1 && s[0] == '+' {
        s.skip(1)
    } else {
        s
    };
    if body.len() == 0 {
        None
    } else {
        digits_value(body, radix)
    }
}

/// The value of a text that is an optional sign and at least one decimal digit.
pub open spec fn signed_value(s: Seq<char>) -> Option<int> {
    if s.len() > 1 && s[0] == '-' {
        match digits_value(s.skip(1), 10) {
            Some(v) => Some(-v),
            None => None,
        }
    } else {
        unsigned_value(s, 10)
    }
}

/// `v` when it is at most `max`.
pub open spec fn at_most(v: Option<int>, max: int) -> Option<int> {
    match v {
        Some(n) => if n <= max {
            Some(n)
        } else {
            None
        },
        None => None,
    }
}

/// `v` when it lies between `min` and `max`.
pub open spec fn between(v: Option<int>, min: int, max: int) -> Option<int> {
    match v {
        Some(n) => if min <= n <= max {
            Some(n)
        } else {
            None
        },
        None => None,
    }
}

fn digit_of(c: char, radix: u64) -> (r: Option<u64>)
    requires
        2 <= radix <= 16,
    ensures
        match r {
            Some(d) => digit(c, radix as int) == Some(d as int) && d < radix,
            None => digit(c, radix as int) is None,
        },
{
    let d: u64 = if '0' <= c && c <= '9' {
        c as u64 - '0' as u64
    } else if 'a' <= c && c <= 'f' {
        c as u64 - 'a' as u64 + 10
    } else if 'A' <= c && c <= 'F' {
        c as u64 - 'A' as u64 + 10
    } else {
        radix
    };
    if d < radix {
        Some(d)
    } else {
        None
    }
}

/// Digits only make a value larger.
proof fn lemma_digits_grow(s: Seq<char>, radix: int, k: int)
    requires
        2 <= radix,
        0 <= k <= s.len(),
    ensures
        digits_value(s, radix) matches Some(v) ==> v >= 0 && (digits_value(s.take(k), radix) matches Some(
            w,
        ) && 0 <= w <= v),
    decreases s.len(),
{
    if s.len() == 0 {
        assert(s.take(k) == s);
    } else if k == s.len() {
        assert(s.take(k) == s);
        lemma_digits_grow(s.drop_last(), radix, s.len() - 1);
        if let Some(v) = digits_value(s.drop_last(), radix) {
            assert(v * radix >= 0) by (nonlinear_arith)
                requires
                    v >= 0,
                    radix >= 2,
            ;
        }
    } else {
        lemma_digits_grow(s.drop_last(), radix, k);
        assert(s.drop_last().take(k) == s.take(k));
        if let Some(v) = digits_value(s.drop_last(), radix) {
            assert(v * radix >= v) by (nonlinear_arith)
                requires
                    v >= 0,
                    radix >= 2,
            ;
        }
    }
}

/// The value of the digits of `v` from position `from` on, when it is at most `max`.
fn parse_digits(v: &Vec<char>, from: usize, radix: u64, max: u64) -> (r: Option<u64>)
    requires
        from < v@.len(),
        2 <= radix <= 16,
    ensures
        match r {
            Some(n) => at_most(digits_value(v@.skip(from as int), radix as int), max as int) == Some(
                n as int,
            ),
            None => at_most(digits_value(v@.skip(from as int), radix as int), max as int) is None,
        },
{
    let ghost body = v@.skip(from as int);
    let mut acc: u64 = 0;
    let mut i: usize = from;
    while i < v.len()
        invariant
            body == v@.skip(from as int),
            from <= i <= v@.len(),
            2 <= radix <= 16,
            digits_value(body.take(i - from), radix as int) == Some(acc as int),
            acc <= max,
        decreases v@.len() - i,
    {
        proof {
            lemma_digits_grow(body, radix as int, i - from + 1);
            assert(body.take(i - from + 1).drop_last() == body.take(i - from));
            assert(body.take(i - from + 1).last() == v@[i as int]);
        }
        match digit_of(v[i], radix) {
            None => {
                return None;
            },
            Some(d) => {
                assert(acc * radix <= 0xffff_ffff_ffff_ffff * 16) by (nonlinear_arith)
                    requires
                        acc <= 0xffff_ffff_ffff_ffff,
                        radix <= 16,
                ;
                assert(acc * radix >= 0) by (nonlinear_arith)
                    requires
                        acc >= 0,
                        radix >= 0,
                ;
                let wide: u128 = (acc as u128) * (radix as u128) + (d as u128);
                if wide > max as u128 {
                    return None;
                }
                acc = wide as u64;
            },
        }
        i = i + 1;
    }
    assert(body.take(v@.len() - from) == body);
    Some(acc)
}

/// Parse an unsigned number of the given base, at most `max`.
pub fn parse_unsigned(s: &str, radix: u64, max: u64) -> (r: Option<u64>)
    requires
        2 <= radix <= 16,
    ensures
        match r {
            Some(n) => at_most(unsigned_value(s@, radix as int), max as int) == Some(n as int),
            None => at_most(unsigned_value(s@, radix as int), max as int) is None,
        },
{
    let v = chars_of(s);
    if v.len() == 0 {
        return None;
    }
    let from: usize = if v.len() > 1 && v[0] == '+' {
        1
    } else {
        0
    };
    assert(v@.skip(0) == v@);
    parse_digits(&v, from, radix, max)
}

/// Parse a decimal `u64`.
pub fn parse_u64(s: &str) -> (r: Option<u64>)
    ensures
        match r {
            Some(n) => at_most(unsigned_value(s@, 10), u64::MAX as int) == Some(n as int),
            None => at_most(unsigned_value(s@, 10), u64::MAX as int) is None,
        },
{
    parse_unsigned(s, 10, 0xffff_ffff_ffff_ffff)
}

/// Parse a decimal `i64`.
pub fn parse_i64(s: &str) -> (r: Option<i64>)
    ensures
        match r {
            Some(n) => between(signed_value(s@), i64::MIN as int, i64::MAX as int) == Some(n as int),
            None => between(signed_value(s@), i64::MIN as int, i64::MAX as int) is None,
        },
{
    let v = chars_of(s);
    if v.len() > 1 && v[0] == '-' {
        proof {
            lemma_digits_grow(s@.skip(1), 10, 0);
        }
        match parse_digits(&v, 1, 10, 0x8000_0000_0000_0000) {
            Some(n) => {
                if n == 0x8000_0000_0000_0000 {
                    Some(i64::MIN)
                } else {
                    Some(-(n as i64))
                }
            },
            None => None,
        }
    } else {
        proof {
            let body = if s@.len() > 1 && s@[0] == '+' {
                s@.skip(1)
            } else {
                s@
            };
            lemma_digits_grow(body, 10, 0);
        }
        match parse_unsigned(s, 10, 0x7fff_ffff_ffff_ffff) {
            Some(n) => Some(n as i64),
            None => None,
        }
    }
}

/// The character of a digit.
pub open spec fn digit_char(d: int) -> char {
    if d < 10 {
        (d + '0' as int) as char
    } else {
        (d - 10 + 'a' as int) as char
    }
}

/// The digits of a number, most significant first, without leading zeros.
pub open spec fn digits(n: nat, radix: nat) -> Seq<char>
    decreases n,
    when radix >= 2
{
    if n < radix {
        seq![digit_char(n as int)]
    } else {
        proof {
            assert(n / radix < n) by (nonlinear_arith)
                requires
                    n >= radix,
                    radix >= 2,
            ;
        }
        digits(n / radix, radix).push(digit_char((n % radix) as int))
    }
}

/// A natural number in decimal.
pub open spec fn dec(n: nat) -> Seq<char> {
    digits(n, 10)
}

/// An integer in decimal.
pub open spec fn dec_int(n: int) -> Seq<char> {
    if n < 0 {
        seq!['-'] + dec((-n) as nat)
    } else {
        dec(n as nat)
    }
}

fn char_of_digit(d: u64) -> (c: char)
    requires
        d < 16,
    ensures
        c == digit_char(d as int),
{
    let b: u8 = if d < 10 {
        d as u8 + 48
    } else {
        d as u8 - 10 + 97
    };
    b as char
}

fn push_digits(out: &mut String, n: u64, radix: u64)
    requires
        2 <= radix <= 16,
    ensures
        final(out)@ == old(out)@ + digits(n as nat, radix as nat),
    decreases n,
{
    if n < radix {
        out.push(char_of_digit(n));
        assert(out@ == old(out)@ + digits(n as nat, radix as nat));
    } else {
        proof {
            assert(n / radix < n) by (nonlinear_arith)
                requires
                    n >= radix,
                    radix >= 2,
            ;
            assert(n % radix < radix) by (nonlinear_arith)
                requires
                    radix >= 2,
            ;
        }
        push_digits(out, n / radix, radix);
        let ghost mid = out@;
        out.push(char_of_digit(n % radix));
        assert(out@ == old(out)@ + digits(n as nat, radix as nat));
    }
}

/// A number in decimal.
pub fn dec_u64(n: u64) -> (r: String)
    ensures
        r@ == dec(n as nat),
{
    let mut s = String::new();
    push_digits(&mut s, n, 10);
    assert(s@ == dec(n as nat));
    s
}

/// A signed number in decimal.
pub fn dec_i64(n: i64) -> (r: String)
    ensures
        r@ == dec_int(n as int),
{
    let mut s = String::new();
    if n < 0 {
        s.push('-');
        let m: u64 = if n == i64::MIN {
            0x8000_0000_0000_0000
        } else {
            (-n) as u64
        };
        push_digits(&mut s, m, 10);
    } else {
        push_digits(&mut s, n as u64, 10);
    }
    assert(s@ == dec_int(n as int));
    s
}

/// A number in hexadecimal, lower case, without leading zeros.
pub fn hex_u64(n: u64) -> (r: String)
    ensures
        r@ == digits(n as nat, 16),
{
    let mut s = String::new();
    push_digits(&mut s, n, 16);
    assert(s@ == digits(n as nat, 16));
    s
}

// ---------------------------------------------------------------------------
// Building
// ---------------------------------------------------------------------------

/// As many zeros as are given.
pub open spec fn zeros(n: nat) -> Seq<char> {
    Seq::new(n, |_i: int| '0')
}

/// A text with zeros before it, up to a width.
pub open spec fn zero_padded(s: Seq<char>, width: nat) -> Seq<char> {
    if s.len() < width {
        zeros((width - s.len()) as nat) + s
    } else {
        s
    }
}

/// Put zeros before a text, up to a width.
pub fn pad_zeros(s: &str, width: usize) -> (r: String)
    ensures
        r@ == zero_padded(s@, width as nat),
{
    let n = chars_of(s).len();
    let mut r = String::new();
    let mut k: usize = n;
    while k < width
        invariant
            n <= k,
            k <= width || k == n,
            n == s@.len(),
            r@ == zeros((k - n) as nat),
        decreases width - k,
    {
        r.push('0');
        assert(r@ =~= zeros((k + 1 - n) as nat));
        k = k + 1;
    }
    r.append(s);
    assert(r@ =~= zero_padded(s@, width as nat));
    r
}

/// An integer in decimal with zeros before its digits, up to a width that
/// counts its sign.
pub open spec fn padded_int(n: int, width: nat) -> Seq<char> {
    if n < 0 {
        seq!['-'] + zero_padded(dec((-n) as nat), (width - 1) as nat)
    } else {
        zero_padded(dec(n as nat), width)
    }
}

/// Write an integer with zeros before its digits, up to a width.
pub fn pad_i64(n: i64, width: usize) -> (r: String)
    requires
        width >= 1,
    ensures
        r@ == padded_int(n as int, width as nat),
{
    if n < 0 {
        let size: u64 = (-(n as i128)) as u64;
        let mut r = String::new();
        r.push('-');
        r.append(pad_zeros(dec_u64(size).as_str(), width - 1).as_str());
        assert(r@ =~= padded_int(n as int, width as nat));
        r
    } else {
        pad_zeros(dec_u64(n as u64).as_str(), width)
    }
}

/// An owned copy of a text.
pub fn owned(s: &str) -> (r: String)
    ensures
        r@ == s@,
{
    s.to_string()
}

/// The texts one after the other with `sep` between them.
pub open spec fn join(parts: Seq<Seq<char>>, sep: Seq<char>) -> Seq<char>
    decreases parts.len(),
{
    if parts.len() == 0 {
        seq![]
    } else if parts.len() == 1 {
        parts[0]
    } else {
        join(parts.drop_last(), sep) + sep + parts.last()
    }
}

/// The texts of `parts` from `from` up to `to`, one after the other with
/// `sep` between them.
pub fn joined_range(parts: &Vec<String>, from: usize, to: usize, sep: &str) -> (r: String)
    requires
        from <= to <= parts@.len(),
    ensures
        r@ == join(views(parts@).subrange(from as int, to as int), sep@),
{
    let ghost all = views(parts@).subrange(from as int, to as int);
    let mut s = String::new();
    let mut i: usize = from;
    while i < to
        invariant
            from <= i <= to <= parts@.len(),
            all == views(parts@).subrange(from as int, to as int),
            s@ == join(all.take(i - from), sep@),
        decreases to - i,
    {
        assert(all.take(i - from + 1).drop_last() == all.take(i - from));
        assert(all.take(i - from + 1).last() == parts@[i as int]@);
        if i > from {
            s.append(sep);
            s.append(parts[i].as_str());
        } else {
            s.append(parts[i].as_str());
            assert(s@ == parts@[i as int]@);
        }
        i = i + 1;
    }
    assert(all.take(to - from) == all);
    s
}

/// The texts one after the other with `sep` between them.
pub fn joined(parts: &Vec<String>, sep: &str) -> (r: String)
    ensures
        r@ == join(views(parts@), sep@),
{
    let r = joined_range(parts, 0, parts.len(), sep);
    assert(views(parts@).subrange(0, parts@.len() as int) == views(parts@));
    r
}

/// A copy of a list of texts.
pub fn copied(v: &Vec<String>) -> (r: Vec<String>)
    ensures
        views(r@) == views(v@),
{
    let mut r: Vec<String> = Vec::new();
    let mut i: usize = 0;
    while i < v.len()
        invariant
            i <= v@.len(),
            r@.len() == i,
            forall|j: int| 0 <= j < i ==> (#[trigger] r@[j])@ == v@[j]@,
        decreases v@.len() - i,
    {
        r.push(v[i].clone());
        i = i + 1;
    }
    assert(views(r@) =~= views(v@));
    r
}

/// The texts of `s`, and `t` as the last when `present`.
pub open spec fn push_if(s: Seq<Seq<char>>, present: bool, t: Seq<char>) -> Seq<Seq<char>> {
    if present {
        s.push(t)
    } else {
        s
    }
}

/// Append a text to a list when it is present.
pub fn add_if(parts: &mut Vec<String>, present: bool, t: &str)
    ensures
        views(final(parts)@) == push_if(views(old(parts)@), present, t@),
{
    if present {
        let ghost before = parts@;
        parts.push(owned(t));
        assert(views(parts@) == views(before).push(t@));
    }
}

/// The text with every occurrence of `from`, found from left to right,
/// replaced by `to`.
pub open spec fn replace_all(s: Seq<char>, from: Seq<char>, to: Seq<char>) -> Seq<char>
    decreases s.len(),
{
    match find(s, from) {
        Some(i) => if from.len() > 0 && 0 <= i && i + from.len() <= s.len() {
            s.take(i) + to + replace_all(s.skip(i + from.len()), from, to)
        } else {
            s
        },
        None => s,
    }
}

/// The text with every occurrence of `from` replaced by `to`.
pub fn replaced(s: &str, from: &str, to: &str) -> (r: String)
    requires
        from@.len() > 0,
    ensures
        r@ == replace_all(s@, from@, to@),
{
    let mut out = String::new();
    let mut rest = owned(s);
    assert(out@ + replace_all(rest@, from@, to@) == replace_all(s@, from@, to@));
    loop
        invariant
            from@.len() > 0,
            out@ + replace_all(rest@, from@, to@) == replace_all(s@, from@, to@),
        decreases rest@.len(),
    {
        match split_once(rest.as_str(), from) {
            None => {
                out.append(rest.as_str());
                return out;
            },
            Some((a, b)) => {
                proof {
                    lemma_find_from(rest@, from@, 0);
                    assert(a@ + to@ + replace_all(b@, from@, to@) == replace_all(
                        rest@,
                        from@,
                        to@,
                    ));
                    assert(out@ + (a@ + to@ + replace_all(b@, from@, to@)) == (out@ + a@ + to@)
                        + replace_all(b@, from@, to@));
                }
                out.append(a.as_str());
                out.append(to);
                rest = b;
            },
        }
    }
}

/// The digits of a number are read back as the number.
pub proof fn law_digits_read_back(n: nat, radix: nat)
    requires
        2 <= radix <= 16,
    ensures
        digits(n, radix).len() > 0,
        digits_value(digits(n, radix), radix as int) == Some(n as int),
    decreases n,
{
    if n < radix {
        let s = digits(n, radix);
        lemma_digit_reads_back(n as int, radix as int);
        assert(s.drop_last() =~= seq![]);
        assert(digits_value(s.drop_last(), radix as int) == Some(0int));
        assert(0 * radix == 0) by (nonlinear_arith);
    } else {
        assert(n / radix < n) by (nonlinear_arith)
            requires
                n >= radix,
                radix >= 2,
        ;
        law_digits_read_back(n / radix, radix);
        vstd::arithmetic::div_mod::lemma_fundamental_div_mod(n as int, radix as int);
        vstd::arithmetic::div_mod::lemma_mod_bound(n as int, radix as int);
        lemma_digit_reads_back((n % radix) as int, radix as int);
        let s = digits(n, radix);
        assert(s.drop_last() =~= digits(n / radix, radix));
        assert(s.last() == digit_char((n % radix) as int));
        assert((n / radix) * radix == radix * (n / radix)) by (nonlinear_arith);
    }
}

proof fn lemma_digit_reads_back(d: int, radix: int)
    requires
        0 <= d < radix <= 16,
    ensures
        digit(digit_char(d), radix) == Some(d),
{
}

/// Every character of a number's digits is a digit.
pub proof fn lemma_digits_are_digits(n: nat, radix: nat)
    requires
        2 <= radix <= 16,
    ensures
        forall|i: int|
            0 <= i < digits(n, radix).len() ==> digit(
                #[trigger] digits(n, radix)[i],
                radix as int,
            ) is Some,
    decreases n,
{
    if n < radix {
        lemma_digit_reads_back(n as int, radix as int);
    } else {
        assert(n / radix < n) by (nonlinear_arith)
            requires
                n >= radix,
                radix >= 2,
        ;
        lemma_digits_are_digits(n / radix, radix);
        vstd::arithmetic::div_mod::lemma_mod_bound(n as int, radix as int);
        lemma_digit_reads_back((n % radix) as int, radix as int);
    }
}

/// A number below a power of the base has as many digits at most.
pub proof fn lemma_digits_fit(n: nat, radix: nat, k: nat)
    requires
        2 <= radix <= 16,
        k >= 1,
        n < vstd::arithmetic::power::pow(radix as int, k),
    ensures
        digits(n, radix).len() <= k,
    decreases k,
{
    reveal(vstd::arithmetic::power::pow);
    if n >= radix {
        if k == 1 {
            vstd::arithmetic::power::lemma_pow1(radix as int);
        } else {
            let p = vstd::arithmetic::power::pow(radix as int, (k - 1) as nat);
            assert(vstd::arithmetic::power::pow(radix as int, k) == radix * p);
            assert(n / radix < p) by (nonlinear_arith)
                requires
                    n < radix * p,
                    radix >= 2,
            ;
            lemma_digits_fit(n / radix, radix, (k - 1) as nat);
        }
    }
}

/// Zeros before the digits of a number do not change it, and a text that is
/// short enough is padded to the width.
pub proof fn law_padding_keeps_the_value(s: Seq<char>, width: nat, radix: nat)
    requires
        2 <= radix <= 16,
    ensures
        digits_value(zero_padded(s, width), radix as int) == digits_value(s, radix as int),
        s.len() <= width ==> zero_padded(s, width).len() == width,
{
    if s.len() < width {
        lemma_zeros_before(s, (width - s.len()) as nat, radix);
    }
}

proof fn lemma_zeros_before(s: Seq<char>, k: nat, radix: nat)
    requires
        2 <= radix <= 16,
    ensures
        digits_value(zeros(k) + s, radix as int) == digits_value(s, radix as int),
    decreases s.len(), k,
{
    let t = zeros(k) + s;
    if s.len() > 0 {
        assert(t.drop_last() =~= zeros(k) + s.drop_last());
        lemma_zeros_before(s.drop_last(), k, radix);
    } else if k > 0 {
        assert(t.drop_last() =~= zeros((k - 1) as nat) + s);
        lemma_zeros_before(s, (k - 1) as nat, radix);
        assert(0 * radix == 0) by (nonlinear_arith);
        assert(t.last() == '0');
    } else {
        assert(t =~= s);
    }
}

/// Where a character stands first in two equal texts at a place that neither
/// head reaches, the heads are equal, and so are the rests.
pub proof fn lemma_same_around(
    a: Seq<char>,
    ra: Seq<char>,
    b: Seq<char>,
    rb: Seq<char>,
    c: char,
)
    requires
        a + seq![c] + ra == b + seq![c] + rb,
        !a.contains(c),
        !b.contains(c),
    ensures
        a == b,
        ra == rb,
{
    let s = a + seq![c] + ra;
    let t = b + seq![c] + rb;
    assert(s[a.len() as int] == c);
    assert(t[b.len() as int] == c);
    if a.len() < b.len() {
        assert(b[a.len() as int] == t[a.len() as int]);
    }
    if b.len() < a.len() {
        assert(a[b.len() as int] == s[b.len() as int]);
    }
    assert(a =~= s.take(a.len() as int));
    assert(b =~= t.take(b.len() as int));
    assert(ra =~= s.skip(a.len() as int + 1));
    assert(rb =~= t.skip(b.len() as int + 1));
}

/// A pattern whose first character a text does not hold is found behind it.
pub proof fn law_cut_at_the_first(a: Seq<char>, pat: Seq<char>, b: Seq<char>)
    requires
        pat.len() > 0,
        !a.contains(pat[0]),
    ensures
        find(a + pat + b, pat) == Some(a.len() as int),
        cut(a + pat + b, pat) == Some((a, b)),
{
    let s = a + pat + b;
    let n = a.len() as int;
    assert(s.subrange(n, n + pat.len()) =~= pat);
    assert(occurs_at(s, pat, n));
    lemma_find_from(s, pat, 0);
    assert forall|j: int| 0 <= j < n implies !occurs_at(s, pat, j) by {
        if occurs_at(s, pat, j) {
            assert(s.subrange(j, j + pat.len())[0] == s[j]);
            assert(a[j] == pat[0]);
        }
    }
    assert(find(s, pat) is Some);
    let i = find(s, pat)->0;
    assert(i == n);
    assert(s.take(n) =~= a);
    assert(s.skip(n + pat.len()) =~= b);
}

/// A text is cut where the pattern stands first.
pub proof fn lemma_cut_here(a: Seq<char>, pat: Seq<char>, b: Seq<char>)
    requires
        forall|j: int| 0 <= j < a.len() ==> !occurs_at(a + pat + b, pat, j),
    ensures
        cut(a + pat + b, pat) == Some((a, b)),
{
    let s = a + pat + b;
    let n = a.len() as int;
    assert(s.subrange(n, n + pat.len()) =~= pat);
    assert(occurs_at(s, pat, n));
    lemma_find_from(s, pat, 0);
    assert(s.take(n) =~= a);
    assert(s.skip(n + pat.len()) =~= b);
}

/// A text that does not hold a pattern's first character is not cut.
pub proof fn law_no_cut_without_the_pattern(a: Seq<char>, pat: Seq<char>)
    requires
        pat.len() > 0,
        !a.contains(pat[0]),
    ensures
        find(a, pat) is None,
        cut(a, pat) is None,
{
    lemma_find_from(a, pat, 0);
    if find(a, pat) is Some {
        let i = find(a, pat)->0;
        assert(a.subrange(i, i + pat.len())[0] == a[i]);
    }
}

/// A text begins with a prefix exactly when it is the prefix and a rest.
pub proof fn law_prefix_and_rest(pat: Seq<char>, rest: Seq<char>)
    ensures
        after_prefix(pat + rest, pat) == Some(rest),
        before_suffix(rest + pat, pat) == Some(rest),
{
    assert((pat + rest).subrange(0, pat.len() as int) =~= pat);
    assert((pat + rest).skip(pat.len() as int) =~= rest);
    let s = rest + pat;
    assert(s.subrange(rest.len() as int, rest.len() + pat.len() as int) =~= pat);
    assert(s.take(rest.len() as int) =~= rest);
}

/// A word and white space, before the rest of a text, is its first word.
pub proof fn law_words_one_by_one(w: Seq<char>, c: char, rest: Seq<char>)
    requires
        is_word(w),
        is_space(c),
    ensures
        words(w + seq![c] + rest) == seq![w] + words(rest),
        words(w) == seq![w],
{
    let s = w + seq![c] + rest;
    lemma_word_len_is(s, w.len() as int);
    lemma_word_len_is(w, w.len() as int);
    assert(s.take(w.len() as int) =~= w);
    let t = s.skip(w.len() as int);
    assert(t[0] == c);
    assert(t.skip(1) =~= rest);
    assert(words(t) == words(rest));
    assert(w.take(w.len() as int) =~= w);
    assert(words(w.skip(w.len() as int)) =~= seq![]);
    assert(words(w) =~= seq![w]);
}

proof fn lemma_word_len_is(s: Seq<char>, n: int)
    requires
        0 <= n <= s.len(),
        forall|i: int| 0 <= i < n ==> !is_space(#[trigger] s[i]),
        n < s.len() ==> is_space(s[n]),
    ensures
        word_len(s) == n,
    decreases n,
{
    if n > 0 {
        assert(!is_space(s[0]));
        let t = s.skip(1);
        assert forall|i: int| 0 <= i < n - 1 implies !is_space(#[trigger] t[i]) by {
            assert(t[i] == s[i + 1]);
        }
        lemma_word_len_is(t, n - 1);
    }
}

/// A text that is not empty and holds no white space.
pub open spec fn is_word(w: Seq<char>) -> bool {
    w.len() > 0 && forall|i: int| 0 <= i < w.len() ==> !is_space(#[trigger] w[i])
}

/// Words are not empty and hold no white space.
pub proof fn law_words_hold_no_space(s: Seq<char>)
    ensures
        forall|k: int| 0 <= k < words(s).len() ==> is_word(#[trigger] words(s)[k]),
    decreases s.len(),
{
    if s.len() > 0 {
        if is_space(s[0]) {
            law_words_hold_no_space(s.skip(1));
            assert(words(s) == words(s.skip(1)));
        } else {
            lemma_word_len(s);
            lemma_word_holds_no_space(s);
            let w = s.take(word_len(s) as int);
            let more = words(s.skip(word_len(s) as int));
            law_words_hold_no_space(s.skip(word_len(s) as int));
            assert(words(s) == seq![w] + more);
            assert(is_word(w));
            assert forall|k: int| 0 <= k < words(s).len() implies is_word(
                #[trigger] words(s)[k],
            ) by {
                if k > 0 {
                    assert(words(s)[k] == more[k - 1]);
                }
            }
        }
    }
}

proof fn lemma_word_holds_no_space(s: Seq<char>)
    ensures
        word_len(s) <= s.len(),
        forall|i: int| 0 <= i < word_len(s) ==> !is_space(#[trigger] s[i]),
    decreases s.len(),
{
    if s.len() > 0 && !is_space(s[0]) {
        lemma_word_holds_no_space(s.skip(1));
        assert forall|i: int| 0 <= i < word_len(s) implies !is_space(#[trigger] s[i]) by {
            if i > 0 {
                assert(s.skip(1)[i - 1] == s[i]);
            }
        }
    }
}

/// The text before the first separator is the first piece.
pub proof fn law_pieces_one_by_one(a: Seq<char>, c: char, rest: Seq<char>)
    requires
        !a.contains(c),
    ensures
        pieces(a + seq![c] + rest, c) == seq![a] + pieces(rest, c),
        pieces(a, c) == seq![a],
{
    let s = a + seq![c] + rest;
    law_cut_at_the_first(a, seq![c], rest);
    law_no_cut_without_the_pattern(a, seq![c]);
    assert(s.take(a.len() as int) =~= a);
    assert(s.skip(a.len() as int + 1) =~= rest);
}

/// The pieces of a text, with the separator between them, are the text, and
/// none holds the separator.
pub proof fn law_pieces_make_the_text(s: Seq<char>, c: char)
    ensures
        pieces(s, c).len() > 0,
        join(pieces(s, c), seq![c]) == s,
        forall|k: int| 0 <= k < pieces(s, c).len() ==> !(#[trigger] pieces(s, c)[k]).contains(c),
    decreases s.len(),
{
    lemma_find_from(s, seq![c], 0);
    match find(s, seq![c]) {
        Some(i) => {
            let rest = s.skip(i + 1);
            law_pieces_make_the_text(rest, c);
            let a = s.take(i);
            let ps = pieces(rest, c);
            assert(s.subrange(i, i + 1)[0] == s[i]);
            assert forall|j: int| 0 <= j < a.len() implies a[j] != c by {
                if a[j] == c {
                    assert(s.subrange(j, j + 1) =~= seq![c]);
                    assert(occurs_at(s, seq![c], j));
                }
            }
            lemma_join_first(a, ps, seq![c]);
            assert(a + seq![c] + rest =~= s);
            assert forall|k: int| 0 <= k < pieces(s, c).len() implies !(
            #[trigger] pieces(s, c)[k]).contains(c) by {
                if k > 0 {
                    assert(pieces(s, c)[k] == ps[k - 1]);
                } else {
                    assert(pieces(s, c)[0] == a);
                }
            }
        },
        None => {
            assert forall|j: int| 0 <= j < s.len() implies s[j] != c by {
                if s[j] == c {
                    assert(s.subrange(j, j + 1) =~= seq![c]);
                    assert(occurs_at(s, seq![c], j));
                }
            }
        },
    }
}

/// A text before others is joined to them by the separator.
pub proof fn lemma_join_first(a: Seq<char>, ps: Seq<Seq<char>>, sep: Seq<char>)
    requires
        ps.len() > 0,
    ensures
        join(seq![a] + ps, sep) == a + sep + join(ps, sep),
    decreases ps.len(),
{
    let all = seq![a] + ps;
    if ps.len() == 1 {
        assert(all.drop_last() =~= seq![a]);
        assert(join(seq![a], sep) == a);
        assert(all.last() == ps[0]);
        assert(join(all, sep) =~= a + sep + join(ps, sep));
    } else {
        lemma_join_first(a, ps.drop_last(), sep);
        assert(all.drop_last() =~= seq![a] + ps.drop_last());
        assert(join(all, sep) =~= a + sep + join(ps, sep));
    }
}

/// What stands before the first line end is the first line, without a carriage
/// return at its end.
pub proof fn law_lines_one_by_one(l: Seq<char>, rest: Seq<char>)
    requires
        !l.contains('\n'),
    ensures
        l.len() == 0 || l.last() != '\r' ==> lines(l + seq!['\n'] + rest) == seq![l] + lines(rest),
        l.len() > 0 && l.last() == '\r' ==> lines(l + seq!['\n'] + rest) == seq![l.drop_last()]
            + lines(rest),
        l.len() > 0 ==> lines(l) == seq![l],
        lines(seq![]).len() == 0,
{
    let s = l + seq!['\n'] + rest;
    law_cut_at_the_first(l, seq!['\n'], rest);
    law_no_cut_without_the_pattern(l, seq!['\n']);
    assert(s.take(l.len() as int) =~= l);
    assert(s.skip(l.len() as int + 1) =~= rest);
}

/// Trimming takes white space from both ends, all of it, and nothing else.
pub proof fn law_trim_takes_the_space(s: Seq<char>)
    ensures
        exists|a: Seq<char>, b: Seq<char>|
            s == #[trigger] (a + trim(s) + b) && (forall|i: int|
                0 <= i < a.len() ==> is_space(#[trigger] a[i])) && (forall|i: int|
                0 <= i < b.len() ==> is_space(#[trigger] b[i])),
        trim(s).len() > 0 ==> !is_space(trim(s)[0]) && !is_space(trim(s).last()),
{
    lemma_trim_start_parts(s);
    let t = trim_start(s);
    lemma_trim_end_parts(t);
    let n = s.len() - t.len();
    let a = s.take(n);
    let b = t.skip(trim_end(t).len() as int);
    assert(s =~= a + trim(s) + b);
    if trim(s).len() > 0 {
        assert(t[0] == trim(s)[0]);
    }
}

proof fn lemma_trim_start_parts(s: Seq<char>)
    ensures
        trim_start(s).len() <= s.len(),
        trim_start(s) == s.skip(s.len() - trim_start(s).len()),
        forall|i: int| 0 <= i < s.len() - trim_start(s).len() ==> is_space(#[trigger] s[i]),
        trim_start(s).len() > 0 ==> !is_space(trim_start(s)[0]),
    decreases s.len(),
{
    if s.len() > 0 && is_space(s[0]) {
        let t = s.skip(1);
        lemma_trim_start_parts(t);
        assert forall|i: int| 0 <= i < s.len() - trim_start(s).len() implies is_space(
            #[trigger] s[i],
        ) by {
            if i > 0 {
                assert(t[i - 1] == s[i]);
            }
        }
        assert(t.skip(t.len() - trim_start(t).len()) =~= s.skip(s.len() - trim_start(s).len()));
    } else {
        assert(s.skip(0) =~= s);
    }
}

proof fn lemma_trim_end_parts(s: Seq<char>)
    ensures
        trim_end(s).len() <= s.len(),
        trim_end(s) == s.take(trim_end(s).len() as int),
        forall|i: int| trim_end(s).len() <= i < s.len() ==> is_space(#[trigger] s[i]),
        trim_end(s).len() > 0 ==> !is_space(trim_end(s).last()),
    decreases s.len(),
{
    if s.len() > 0 && is_space(s.last()) {
        let t = s.drop_last();
        lemma_trim_end_parts(t);
        assert forall|i: int| trim_end(s).len() <= i < s.len() implies is_space(
            #[trigger] s[i],
        ) by {
            if i < t.len() {
                assert(t[i] == s[i]);
            }
        }
        assert(t.take(trim_end(t).len() as int) =~= s.take(trim_end(s).len() as int));
    } else {
        assert(s.take(s.len() as int) =~= s);
    }
}

/// A text without white space at its ends is left as it is.
pub proof fn lemma_trim_nothing(s: Seq<char>)
    requires
        s.len() == 0 || (!is_space(s[0]) && !is_space(s.last())),
    ensures
        trim(s) == s,
        trim_start(s) == s,
{
}

/// Numbers are written and read alike.
pub proof fn law_numbers_read_back(n: int)
    ensures
        signed_value(dec_int(n)) == Some(n),
        n >= 0 ==> unsigned_value(dec(n as nat), 10) == Some(n),
{
    if n < 0 {
        let d = dec((-n) as nat);
        law_digits_read_back((-n) as nat, 10);
        assert((seq!['-'] + d).skip(1) =~= d);
    } else {
        let d = dec(n as nat);
        law_digits_read_back(n as nat, 10);
        lemma_digits_are_digits(n as nat, 10);
        assert(digit(d[0], 10) is Some);
    }
}

/// A text that does not begin with white space keeps its start.
pub proof fn lemma_trim_nothing_before(s: Seq<char>)
    requires
        s.len() > 0,
        !is_space(s[0]),
    ensures
        trim_start(s) == s,
{
}

/// Replacing a pattern replaces where it stands first, and goes on behind.
pub proof fn law_replace_at_the_first(
    a: Seq<char>,
    from: Seq<char>,
    b: Seq<char>,
    to: Seq<char>,
)
    requires
        from.len() > 0,
        !a.contains(from[0]),
    ensures
        replace_all(a + from + b, from, to) == a + to + replace_all(b, from, to),
{
    law_cut_at_the_first(a, from, b);
    let s = a + from + b;
    assert(s.take(a.len() as int) =~= a);
    assert(s.skip(a.len() as int + from.len()) =~= b);
}

/// Where a pattern does not stand, nothing is replaced.
pub proof fn law_nothing_to_replace(s: Seq<char>, from: Seq<char>, to: Seq<char>)
    requires
        from.len() > 0,
        !s.contains(from[0]),
    ensures
        replace_all(s, from, to) == s,
{
    law_no_cut_without_the_pattern(s, from);
}

/// Quotes around a text that has none at its ends are taken off.
pub proof fn law_quotes_are_taken_off(s: Seq<char>)
    requires
        s.len() > 0,
        s[0] != '"',
        s.last() != '"',
    ensures
        trim_char(seq!['"'] + s + seq!['"'], '"') == s,
{
    let q = seq!['"'] + s + seq!['"'];
    let t = s + seq!['"'];
    assert(q.skip(1) =~= t);
    assert(t[0] == s[0]);
    assert(trim_start_char(q, '"') == trim_start_char(t, '"'));
    assert(t.drop_last() =~= s);
    assert(trim_end_char(t, '"') == trim_end_char(s, '"'));
}

/// A text that holds a separator, up to the first and behind it.
pub proof fn lemma_at_first_separator(s: Seq<char>, c: char) -> (r: (Seq<char>, Seq<char>))
    requires
        s.contains(c),
    ensures
        s == r.0 + seq![c] + r.1,
        !r.0.contains(c),
        r.1.len() < s.len(),
    decreases s.len(),
{
    if s[0] == c {
        let rest = s.skip(1);
        assert(s =~= Seq::<char>::empty() + seq![c] + rest);
        (seq![], rest)
    } else {
        let t = s.skip(1);
        let k = choose|k: int| 0 <= k < s.len() && s[k] == c;
        assert(t[k - 1] == c);
        let (a, b) = lemma_at_first_separator(t, c);
        let head = seq![s[0]] + a;
        assert(s =~= seq![s[0]] + t);
        assert(seq![s[0]] + (a + seq![c] + b) =~= head + seq![c] + b);
        assert(!head.contains(c)) by {
            if head.contains(c) {
                let j = choose|j: int| 0 <= j < head.len() && head[j] == c;
                assert(j > 0);
                assert(a[j - 1] == c);
            }
        }
        (head, b)
    }
}

/// Two texts with a separator between them have the pieces of both.
pub proof fn law_pieces_of_both(a: Seq<char>, c: char, b: Seq<char>)
    ensures
        pieces(a + seq![c] + b, c) == pieces(a, c) + pieces(b, c),
    decreases a.len(),
{
    if a.contains(c) {
        let (head, rest) = lemma_at_first_separator(a, c);
        law_pieces_of_both(rest, c, b);
        law_pieces_one_by_one(head, c, rest);
        law_pieces_one_by_one(head, c, rest + seq![c] + b);
        assert(a + seq![c] + b =~= head + seq![c] + (rest + seq![c] + b));
        assert(seq![head] + (pieces(rest, c) + pieces(b, c)) =~= seq![head] + pieces(rest, c)
            + pieces(b, c));
    } else {
        law_pieces_one_by_one(a, c, b);
    }
}

proof fn lemma_longer_holds_none(x: char, s: Seq<char>, c: char)
    requires
        x != c,
        !s.contains(c),
    ensures
        !(seq![x] + s).contains(c),
        !(s + seq![x]).contains(c),
{
    let front = seq![x] + s;
    let back = s + seq![x];
    if front.contains(c) {
        let j = choose|j: int| 0 <= j < front.len() && front[j] == c;
        assert(s[j - 1] == c);
    }
    if back.contains(c) {
        let j = choose|j: int| 0 <= j < back.len() && back[j] == c;
        assert(s[j] == c);
    }
}

/// Another character before a text stands before its first piece.
pub proof fn lemma_pieces_front(x: char, s: Seq<char>, c: char)
    requires
        x != c,
    ensures
        pieces(s, c).len() > 0,
        pieces(seq![x] + s, c) == pieces(s, c).update(0, seq![x] + pieces(s, c)[0]),
{
    if s.contains(c) {
        let (head, rest) = lemma_at_first_separator(s, c);
        lemma_longer_holds_none(x, head, c);
        law_pieces_one_by_one(head, c, rest);
        law_pieces_one_by_one(seq![x] + head, c, rest);
        assert(seq![x] + s =~= seq![x] + head + seq![c] + rest);
        assert((seq![head] + pieces(rest, c)).update(0, seq![x] + head) =~= seq![seq![x] + head]
            + pieces(rest, c));
    } else {
        lemma_longer_holds_none(x, s, c);
        law_pieces_one_by_one(s, c, seq![]);
        law_pieces_one_by_one(seq![x] + s, c, seq![]);
        assert(seq![s].update(0, seq![x] + s) =~= seq![seq![x] + s]);
    }
}

/// Another character behind a text stands behind its last piece.
pub proof fn lemma_pieces_back(s: Seq<char>, y: char, c: char)
    requires
        y != c,
    ensures
        pieces(s, c).len() > 0,
        pieces(s + seq![y], c) == pieces(s, c).drop_last().push(pieces(s, c).last() + seq![y]),
    decreases s.len(),
{
    if s.contains(c) {
        let (head, rest) = lemma_at_first_separator(s, c);
        lemma_pieces_back(rest, y, c);
        law_pieces_one_by_one(head, c, rest);
        law_pieces_one_by_one(head, c, rest + seq![y]);
        assert(s + seq![y] =~= head + seq![c] + (rest + seq![y]));
        let ps = pieces(rest, c);
        let last = ps.last() + seq![y];
        assert((seq![head] + ps).last() == ps.last());
        assert(seq![head] + ps.drop_last().push(last) =~= (seq![head] + ps).drop_last().push(last));
    } else {
        lemma_longer_holds_none(y, s, c);
        law_pieces_one_by_one(s, c, seq![]);
        law_pieces_one_by_one(s + seq![y], c, seq![]);
        assert(seq![s].drop_last().push(s + seq![y]) =~= seq![s + seq![y]]);
    }
}

/// A text within a text within another stands in the last.
pub proof fn lemma_holds_within(before: Seq<char>, mid: Seq<char>, after: Seq<char>, pat: Seq<char>)
    requires
        holds(mid, pat),
    ensures
        holds(before + mid + after, pat),
{
    let s = before + mid + after;
    let i = choose|i: int| occurs_at(mid, pat, i);
    let k = before.len() + i;
    assert(s.subrange(k, k + pat.len()) =~= mid.subrange(i, i + pat.len()));
    assert(occurs_at(s, pat, k));
}

/// Texts that are joined stand in what they are joined to.
pub proof fn law_joined_texts_are_held(parts: Seq<Seq<char>>, sep: Seq<char>, i: int)
    requires
        0 <= i < parts.len(),
    ensures
        holds(join(parts, sep), parts[i]),
    decreases parts.len(),
{
    let none = Seq::<char>::empty();
    assert(parts[i].subrange(0, parts[i].len() as int) =~= parts[i]);
    assert(occurs_at(parts[i], parts[i], 0));
    if parts.len() > 1 {
        let head = join(parts.drop_last(), sep);
        if i < parts.len() - 1 {
            law_joined_texts_are_held(parts.drop_last(), sep, i);
            lemma_holds_within(none, head, sep + parts.last(), parts[i]);
            assert(none + head + (sep + parts.last()) =~= head + sep + parts.last());
        } else {
            lemma_holds_within(head + sep, parts[i], none, parts[i]);
            assert(head + sep + parts[i] + none =~= head + sep + parts.last());
        }
    }
}

} // verus!
