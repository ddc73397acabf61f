//! Character-level text handling: the whitespace, trimming, splitting and
//! line-breaking rules of `str`, stated over `Seq<char>` and computed over
//! index ranges of a `Vec<char>`.

use vstd::prelude::*;

verus! {

broadcast use vstd::string::group_string_axioms;

/// Unicode `White_Space`: the characters that `char::is_whitespace`,
/// `str::trim` and `str::split_whitespace` treat as blank.
pub open spec fn is_space(c: char) -> bool {
    let n = c as u32;
    ||| 9 <= n <= 13
    ||| n == 32 || n == 0x85 || n == 0xa0 || n == 0x1680
    ||| 0x2000 <= n <= 0x200a
    ||| n == 0x2028 || n == 0x2029 || n == 0x202f || n == 0x205f || n == 0x3000
}

pub fn is_space_char(c: char) -> (b: bool)
    ensures
        b == is_space(c),
{
    let n = c as u32;
    (9 <= n && n <= 13) || n == 32 || n == 0x85 || n == 0xa0 || n == 0x1680 || (0x2000 <= n
        && n <= 0x200a) || n == 0x2028 || n == 0x2029 || n == 0x202f || n == 0x205f || n == 0x3000
}

/// The characters of a string slice, in order.
pub fn chars_of(s: &str) -> (v: Vec<char>)
    ensures
        v@ == s@,
{
    let mut v: Vec<char> = Vec::new();
    for c in it: s.chars()
        invariant
            v@ == it.seq().take(it.index() as int),
            it.seq() == s@,
    {
        v.push(c);
    }
    v
}

/// Index of the first `c` in `s` (counted in characters).
pub open spec fn find_char(s: Seq<char>, c: char) -> Option<int>
    decreases s.len(),
{
    if s.len() == 0 {
        None
    } else if s[0] == c {
        Some(0)
    } else {
        match find_char(s.drop_first(), c) {
            Some(i) => Some(i + 1),
            None => None,
        }
    }
}

pub proof fn lemma_find_char(s: Seq<char>, c: char)
    ensures
        match find_char(s, c) {
            Some(i) => 0 <= i < s.len() && s[i] == c && forall|j: int| 0 <= j < i ==> s[j] != c,
            None => forall|j: int| 0 <= j < s.len() ==> s[j] != c,
        },
    decreases s.len(),
{
    if s.len() > 0 && s[0] != c {
        lemma_find_char(s.drop_first(), c);
        assert forall|j: int| 1 <= j < s.len() implies s[j] == s.drop_first()[j - 1] by {}
    }
}

/// A first occurrence is the one `find_char` reports.
pub proof fn lemma_find_char_at(s: Seq<char>, c: char, i: int)
    requires
        0 <= i < s.len(),
        s[i] == c,
        forall|j: int| 0 <= j < i ==> s[j] != c,
    ensures
        find_char(s, c) == Some(i),
{
    lemma_find_char(s, c);
    match find_char(s, c) {
        Some(k) => {
            if k < i {
                assert(s[k] != c);
            }
            if i < k {
                assert(s[i] != c);
            }
        },
        None => {
            assert(s[i] != c);
        },
    }
}

pub proof fn lemma_find_char_none(s: Seq<char>, c: char)
    requires
        forall|j: int| 0 <= j < s.len() ==> s[j] != c,
    ensures
        find_char(s, c) is None,
{
    lemma_find_char(s, c);
    if let Some(k) = find_char(s, c) {
        assert(s[k] != c);
    }
}

/// First `c` in `v[lo..hi]`, as an index into `v`.
pub fn find_char_in(v: &Vec<char>, lo: usize, hi: usize, c: char) -> (r: Option<usize>)
    requires
        lo <= hi <= v@.len(),
    ensures
        match r {
            Some(i) => lo <= i < hi && find_char(v@.subrange(lo as int, hi as int), c) == Some(
                i - lo,
            ),
            None => find_char(v@.subrange(lo as int, hi as int), c) is None,
        },
{
    let ghost s = v@.subrange(lo as int, hi as int);
    let mut i = lo;
    while i < hi
        invariant
            lo <= i <= hi <= v@.len(),
            s == v@.subrange(lo as int, hi as int),
            forall|j: int| 0 <= j < i - lo ==> s[j] != c,
        decreases hi - i,
    {
        if v[i] == c {
            proof {
                lemma_find_char_at(s, c, i - lo);
            }
            return Some(i);
        }
        i = i + 1;
    }
    proof {
        lemma_find_char_none(s, c);
    }
    None
}

/// The pieces of `s` between occurrences of `c`, as `str::split` with a
/// `char` pattern yields them (a string without `c` is one piece).
pub open spec fn split_on(s: Seq<char>, c: char) -> Seq<Seq<char>>
    decreases s.len(),
{
    proof {
        lemma_find_char(s, c);
    }
    match find_char(s, c) {
        None => seq![s],
        Some(i) => seq![s.take(i)] + split_on(s.skip(i + 1), c),
    }
}

pub open spec fn trim_start(s: Seq<char>) -> Seq<char>
    decreases s.len(),
{
    if s.len() > 0 && is_space(s[0]) {
        trim_start(s.drop_first())
    } else {
        s
    }
}

pub open spec fn trim_end(s: Seq<char>) -> Seq<char>
    decreases s.len(),
{
    if s.len() > 0 && is_space(s.last()) {
        trim_end(s.drop_last())
    } else {
        s
    }
}

/// `str::trim`: `s` without its leading and trailing whitespace.
pub open spec fn trim(s: Seq<char>) -> Seq<char> {
    trim_end(trim_start(s))
}

/// Bounds of `trim(v[lo..hi])` inside `v`.
pub fn trim_bounds(v: &Vec<char>, lo: usize, hi: usize) -> (r: (usize, usize))
    requires
        lo <= hi <= v@.len(),
    ensures
        lo <= r.0 <= r.1 <= hi,
        v@.subrange(r.0 as int, r.1 as int) == trim(v@.subrange(lo as int, hi as int)),
{
    let mut a = lo;
    while a < hi && is_space_char(v[a])
        invariant
            lo <= a <= hi <= v@.len(),
            trim_start(v@.subrange(lo as int, hi as int)) == trim_start(
                v@.subrange(a as int, hi as int),
            ),
        decreases hi - a,
    {
        assert(v@.subrange(a as int, hi as int).drop_first() =~= v@.subrange(
            a + 1,
            hi as int,
        ));
        a = a + 1;
    }
    let mut b = hi;
    while b > a && is_space_char(v[b - 1])
        invariant
            lo <= a <= b <= hi <= v@.len(),
            trim(v@.subrange(lo as int, hi as int)) == trim_end(v@.subrange(a as int, b as int)),
        decreases b - a,
    {
        assert(v@.subrange(a as int, b as int).drop_last() =~= v@.subrange(a as int, b - 1));
        b = b - 1;
    }
    (a, b)
}

/// Length of the run of non-whitespace characters that starts `s`.
pub open spec fn word_len(s: Seq<char>) -> nat
    decreases s.len(),
{
    if s.len() == 0 || is_space(s[0]) {
        0
    } else {
        1 + word_len(s.drop_first())
    }
}

pub proof fn lemma_word_len(s: Seq<char>)
    ensures
        word_len(s) <= s.len(),
        s.len() > 0 && !is_space(s[0]) ==> word_len(s) >= 1,
    decreases s.len(),
{
    if s.len() > 0 && !is_space(s[0]) {
        lemma_word_len(s.drop_first());
    }
}

pub proof fn lemma_word_len_is(s: Seq<char>, n: int)
    requires
        0 <= n <= s.len(),
        forall|j: int| 0 <= j < n ==> !is_space(#[trigger] s[j]),
        n == s.len() || is_space(s[n]),
    ensures
        word_len(s) == n,
    decreases s.len(),
{
    if n > 0 {
        assert(!is_space(s[0]));
        let t = s.drop_first();
        assert forall|j: int| 0 <= j < n - 1 implies !is_space(#[trigger] t[j]) by {
            assert(t[j] == s[j + 1]);
        }
        if n < s.len() {
            assert(t[n - 1] == s[n]);
        }
        lemma_word_len_is(t, n - 1);
    }
}

/// `str::split_whitespace`: the maximal runs of non-whitespace characters.
pub open spec fn words(s: Seq<char>) -> Seq<Seq<char>>
    decreases s.len(),
{
    if s.len() == 0 {
        seq![]
    } else if is_space(s[0]) {
        words(s.drop_first())
    } else {
        proof {
            lemma_word_len(s);
        }
        seq![s.take(word_len(s) as int)] + words(s.skip(word_len(s) as int))
    }
}

/// Drops one trailing carriage return.
pub open spec fn strip_cr(l: Seq<char>) -> Seq<char> {
    if l.len() > 0 && l.last() == '\r' {
        l.drop_last()
    } else {
        l
    }
}

/// `str::lines`: pieces ended by `\n` (with a `\r` before it dropped); the
/// last piece has no `\n` and is kept as it is, unless it is empty.
pub open spec fn lines(s: Seq<char>) -> Seq<Seq<char>>
    decreases s.len(),
{
    proof {
        lemma_find_char(s, '\n');
    }
    if s.len() == 0 {
        seq![]
    } else {
        match find_char(s, '\n') {
            None => seq![s],
            Some(i) => seq![strip_cr(s.take(i))] + lines(s.skip(i + 1)),
        }
    }
}

/// The texts that a list of `(start, end)` index pairs marks out in `s`.
pub open spec fn span_texts(s: Seq<char>, spans: Seq<(usize, usize)>) -> Seq<Seq<char>> {
    Seq::new(spans.len(), |k: int| s.subrange(spans[k].0 as int, spans[k].1 as int))
}

pub open spec fn spans_within(spans: Seq<(usize, usize)>, lo: int, hi: int) -> bool {
    forall|k: int|
        0 <= k < spans.len() ==> lo <= (#[trigger] spans[k]).0 <= spans[k].1 <= hi
}

/// The words of `v[lo..hi]`, each as its index range in `v`.
pub fn word_spans(v: &Vec<char>, lo: usize, hi: usize) -> (spans: Vec<(usize, usize)>)
    requires
        lo <= hi <= v@.len(),
    ensures
        spans_within(spans@, lo as int, hi as int),
        span_texts(v@, spans@) == words(v@.subrange(lo as int, hi as int)),
{
    let mut spans: Vec<(usize, usize)> = Vec::new();
    let mut pos = lo;
    while pos < hi
        invariant
            lo <= pos <= hi <= v@.len(),
            spans_within(spans@, lo as int, pos as int),
            words(v@.subrange(lo as int, hi as int)) == span_texts(v@, spans@) + words(
                v@.subrange(pos as int, hi as int),
            ),
        decreases hi - pos,
    {
        let ghost rest = v@.subrange(pos as int, hi as int);
        if is_space_char(v[pos]) {
            assert(rest.drop_first() =~= v@.subrange(pos + 1, hi as int));
            pos = pos + 1;
        } else {
            let mut e = pos + 1;
            while e < hi && !is_space_char(v[e])
                invariant
                    pos < e <= hi <= v@.len(),
                    rest == v@.subrange(pos as int, hi as int),
                    forall|j: int| 0 <= j < e - pos ==> !is_space(#[trigger] rest[j]),
                decreases hi - e,
            {
                e = e + 1;
            }
            proof {
                lemma_word_len_is(rest, e - pos);
                assert(rest.take(e - pos) =~= v@.subrange(pos as int, e as int));
                assert(rest.skip(e - pos) =~= v@.subrange(e as int, hi as int));
            }
            let ghost old_spans = spans@;
            spans.push((pos, e));
            assert(span_texts(v@, spans@) =~= span_texts(v@, old_spans) + seq![
                v@.subrange(pos as int, e as int),
            ]);
            pos = e;
        }
    }
    assert(v@.subrange(hi as int, hi as int) =~= Seq::<char>::empty());
    assert(span_texts(v@, spans@) + words(v@.subrange(hi as int, hi as int)) =~= span_texts(
        v@,
        spans@,
    ));
    spans
}

/// The lines of `v`, each as its index range in `v`.
pub fn line_spans(v: &Vec<char>) -> (spans: Vec<(usize, usize)>)
    ensures
        spans_within(spans@, 0, v@.len() as int),
        span_texts(v@, spans@) == lines(v@),
{
    let n = v.len();
    let mut spans: Vec<(usize, usize)> = Vec::new();
    let mut pos: usize = 0;
    assert(v@.subrange(0, n as int) =~= v@);
    while pos < n
        invariant
            pos <= n == v@.len(),
            spans_within(spans@, 0, n as int),
            lines(v@) == span_texts(v@, spans@) + lines(v@.subrange(pos as int, n as int)),
        decreases n - pos,
    {
        let ghost rest = v@.subrange(pos as int, n as int);
        let ghost old_spans = spans@;
        match find_char_in(v, pos, n, '\n') {
            None => {
                spans.push((pos, n));
                assert(span_texts(v@, spans@) =~= span_texts(v@, old_spans) + seq![rest]);
                assert(span_texts(v@, spans@) + lines(v@.subrange(n as int, n as int))
                    =~= span_texts(v@, spans@));
                pos = n;
            },
            Some(i) => {
                let mut end = i;
                if i > pos && v[i - 1] == '\r' {
                    end = i - 1;
                }
                proof {
                    let piece = rest.take(i - pos);
                    assert(piece =~= v@.subrange(pos as int, i as int));
                    if i > pos && v@[i - 1] == '\r' {
                        assert(strip_cr(piece) =~= v@.subrange(pos as int, end as int));
                    } else {
                        assert(strip_cr(piece) =~= v@.subrange(pos as int, end as int));
                    }
                    assert(rest.skip(i - pos + 1) =~= v@.subrange(i + 1, n as int));
                }
                spans.push((pos, end));
                assert(span_texts(v@, spans@) =~= span_texts(v@, old_spans) + seq![
                    v@.subrange(pos as int, end as int),
                ]);
                pos = i + 1;
            },
        }
    }
    assert(v@.subrange(n as int, n as int) =~= Seq::<char>::empty());
    assert(span_texts(v@, spans@) + lines(v@.subrange(n as int, n as int)) =~= span_texts(
        v@,
        spans@,
    ));
    spans
}

/// Splitting a text that does not hold `c` gives the text alone; a piece
/// without `c`, then `c`, then the rest splits into that piece and the
/// pieces of the rest.
pub proof fn lemma_split_on_pieces(a: Seq<char>, b: Seq<char>, c: char)
    requires
        forall|j: int| 0 <= j < a.len() ==> a[j] != c,
    ensures
        split_on(a, c) == seq![a],
        split_on(a + seq![c] + b, c) == seq![a] + split_on(b, c),
{
    lemma_find_char_none(a, c);
    let w = a + seq![c] + b;
    assert forall|j: int| 0 <= j < a.len() implies w[j] != c by {
        assert(w[j] == a[j]);
    }
    lemma_find_char_at(w, c, a.len() as int);
    assert(w.take(a.len() as int) =~= a);
    assert(w.skip(a.len() as int + 1) =~= b);
}

/// Blanks around a text that neither starts nor ends with a blank are what
/// `trim` removes, and all it removes.
pub proof fn lemma_trim_blanks(front: Seq<char>, t: Seq<char>, back: Seq<char>)
    requires
        forall|j: int| 0 <= j < front.len() ==> is_space(#[trigger] front[j]),
        forall|j: int| 0 <= j < back.len() ==> is_space(#[trigger] back[j]),
        t.len() > 0,
        !is_space(t[0]),
        !is_space(t.last()),
    ensures
        trim(front + t + back) == t,
{
    lemma_trim_start_blanks(front, t + back);
    assert(front + t + back =~= front + (t + back));
    lemma_trim_end_blanks(t, back);
}

proof fn lemma_trim_start_blanks(front: Seq<char>, rest: Seq<char>)
    requires
        forall|j: int| 0 <= j < front.len() ==> is_space(#[trigger] front[j]),
        rest.len() > 0,
        !is_space(rest[0]),
    ensures
        trim_start(front + rest) == rest,
    decreases front.len(),
{
    if front.len() == 0 {
        assert(front + rest =~= rest);
    } else {
        let f = front.drop_first();
        assert forall|j: int| 0 <= j < f.len() implies is_space(#[trigger] f[j]) by {
            assert(f[j] == front[j + 1]);
        }
        assert((front + rest).drop_first() =~= f + rest);
        assert(is_space((front + rest)[0]));
        lemma_trim_start_blanks(f, rest);
    }
}

proof fn lemma_trim_end_blanks(t: Seq<char>, back: Seq<char>)
    requires
        forall|j: int| 0 <= j < back.len() ==> is_space(#[trigger] back[j]),
        t.len() > 0,
        !is_space(t.last()),
    ensures
        trim_end(t + back) == t,
    decreases back.len(),
{
    if back.len() == 0 {
        assert(t + back =~= t);
    } else {
        let b = back.drop_last();
        assert forall|j: int| 0 <= j < b.len() implies is_space(#[trigger] b[j]) by {
            assert(b[j] == back[j]);
        }
        assert((t + back).drop_last() =~= t + b);
        assert((t + back).last() == back.last());
        assert(is_space(back[back.len() - 1]));
        lemma_trim_end_blanks(t, b);
    }
}

/// A word (non-empty, without blanks) followed by a blank and more text
/// is the first word of the whole, and the rest gives the remaining words.
pub proof fn lemma_words_first(word: Seq<char>, sep: char, rest: Seq<char>)
    requires
        word.len() > 0,
        forall|j: int| 0 <= j < word.len() ==> !is_space(#[trigger] word[j]),
        is_space(sep),
    ensures
        words(word) == seq![word],
        words(word + seq![sep] + rest) == seq![word] + words(rest),
{
    let w = word + seq![sep] + rest;
    assert forall|j: int| 0 <= j < word.len() implies !is_space(#[trigger] w[j]) by {
        assert(w[j] == word[j]);
    }
    lemma_word_len_is(w, word.len() as int);
    lemma_word_len_is(word, word.len() as int);
    assert(w.take(word.len() as int) =~= word);
    assert(w.skip(word.len() as int).drop_first() =~= rest);
    assert(w.skip(word.len() as int)[0] == sep);
    assert(words(w.skip(word.len() as int)) == words(rest));
    assert(words(w) == seq![w.take(word.len() as int)] + words(w.skip(word.len() as int)));
    assert(word.take(word.len() as int) =~= word);
    assert(word.skip(word.len() as int) =~= Seq::<char>::empty());
    assert(words(Seq::<char>::empty()) == Seq::<Seq<char>>::empty());
    assert(seq![word] + Seq::<Seq<char>>::empty() =~= seq![word]);
}

/// A line without `\n` (and not ending in `\r`), then `\n`, then more
/// text is the first line of the whole, and the rest gives the other lines.
pub proof fn lemma_lines_first(line: Seq<char>, rest: Seq<char>)
    requires
        forall|j: int| 0 <= j < line.len() ==> line[j] != '\n',
        line.len() == 0 || line.last() != '\r',
    ensures
        lines(line + seq!['\n'] + rest) == seq![line] + lines(rest),
{
    let w = line + seq!['\n'] + rest;
    assert forall|j: int| 0 <= j < line.len() implies w[j] != '\n' by {
        assert(w[j] == line[j]);
    }
    lemma_find_char_at(w, '\n', line.len() as int);
    assert(w.take(line.len() as int) =~= line);
    assert(w.skip(line.len() as int + 1) =~= rest);
}

} // verus!
