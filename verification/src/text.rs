//! Character-level text operations with exact specifications.
//!
//! Text is handled as sequences of Unicode scalar values (`Seq<char>`); the
//! executable functions work on `&[char]`/`Vec<char>` and are proved against
//! the spec functions of this module.

use vstd::prelude::*;

verus! {

broadcast use vstd::string::group_string_axioms;

// ---------------------------------------------------------------------------
// Conversions between `str`/`String` and character vectors
// ---------------------------------------------------------------------------

/// `String::push`: appends one character.
#[verifier::external_body]
pub(crate) fn push_char(s: &mut String, c: char)
    ensures
        final(s)@ == old(s)@.push(c),
{
    s.push(c);
}

/// The characters of a string slice, in order.
pub fn chars_of(s: &str) -> (r: Vec<char>)
    ensures
        r@ == s@,
{
    let mut r: Vec<char> = Vec::new();
    for c in it: s.chars()
        invariant
            it.seq() == s@,
            r@ == it.seq().take(it.index() as int),
    {
        r.push(c);
    }
    r
}

/// Builds a string from a sequence of characters.
pub fn string_of(v: &[char]) -> (r: String)
    ensures
        r@ == v@,
{
    let mut r = String::new();
    let mut i: usize = 0;
    while i < v.len()
        invariant
            i <= v.len(),
            r@ == v@.take(i as int),
        decreases v.len() - i,
    {
        push_char(&mut r, v[i]);
        assert(v@.take(i as int + 1) =~= v@.take(i as int).push(v@[i as int]));
        i = i + 1;
    }
    assert(v@.take(v.len() as int) =~= v@);
    r
}

/// The characters of a string literal.
pub fn lit(s: &str) -> (r: Vec<char>)
    ensures
        r@ == s@,
{
    chars_of(s)
}

/// Views of a sequence of character vectors.
pub open spec fn texts(v: Seq<Vec<char>>) -> Seq<Seq<char>> {
    Seq::new(v.len(), |i: int| v[i]@)
}

/// Views of a sequence of strings.
pub open spec fn strings(v: Seq<String>) -> Seq<Seq<char>> {
    Seq::new(v.len(), |i: int| v[i]@)
}

/// The view of an optional character vector.
pub open spec fn opt_text(o: Option<Vec<char>>) -> Option<Seq<char>> {
    match o {
        Some(v) => Some(v@),
        None => None,
    }
}

/// The view of an optional string.
pub open spec fn opt_string(o: Option<String>) -> Option<Seq<char>> {
    match o {
        Some(v) => Some(v@),
        None => None,
    }
}

/// The text, or the empty text for `None`.
pub open spec fn or_empty(o: Option<Seq<char>>) -> Seq<char> {
    match o {
        Some(v) => v,
        None => seq![],
    }
}

/// Copies `s[from..to]`.
pub fn slice_of(s: &[char], from: usize, to: usize) -> (r: Vec<char>)
    requires
        from <= to <= s.len(),
    ensures
        r@ == s@.subrange(from as int, to as int),
{
    let mut r: Vec<char> = Vec::new();
    let mut i = from;
    while i < to
        invariant
            from <= i <= to <= s.len(),
            r@ == s@.subrange(from as int, i as int),
        decreases to - i,
    {
        r.push(s[i]);
        assert(s@.subrange(from as int, i as int + 1) =~= s@.subrange(from as int, i as int).push(
            s@[i as int],
        ));
        i = i + 1;
    }
    r
}

/// Appends all of `b` to `a`.
pub fn extend(a: &mut Vec<char>, b: &[char])
    ensures
        final(a)@ == old(a)@ + b@,
{
    let mut i: usize = 0;
    while i < b.len()
        invariant
            i <= b.len(),
            a@ == old(a)@ + b@.take(i as int),
        decreases b.len() - i,
    {
        a.push(b[i]);
        assert(b@.take(i as int + 1) =~= b@.take(i as int).push(b@[i as int]));
        i = i + 1;
    }
    assert(b@.take(b.len() as int) =~= b@);
}

/// `a` followed by `b`, as a new vector.
pub fn concat(a: &[char], b: &[char]) -> (r: Vec<char>)
    ensures
        r@ == a@ + b@,
{
    let mut r = slice_of(a, 0, a.len());
    assert(a@.subrange(0, a.len() as int) =~= a@);
    extend(&mut r, b);
    r
}

/// Equality of two character slices.
pub fn same(a: &[char], b: &[char]) -> (r: bool)
    ensures
        r == (a@ == b@),
{
    if a.len() != b.len() {
        return false;
    }
    let mut i: usize = 0;
    while i < a.len()
        invariant
            i <= a.len() == b.len(),
            forall|k: int| 0 <= k < i ==> a@[k] == b@[k],
        decreases a.len() - i,
    {
        if a[i] != b[i] {
            return false;
        }
        i = i + 1;
    }
    assert(a@ =~= b@);
    true
}

// ---------------------------------------------------------------------------
// Character classes
// ---------------------------------------------------------------------------

/// `char::is_whitespace`: the Unicode `White_Space` property.
pub open spec fn is_ws(c: char) -> bool {
    ||| ('\u{9}' <= c && c <= '\u{d}')
    ||| c == ' '
    ||| c == '\u{85}'
    ||| c == '\u{a0}'
    ||| c == '\u{1680}'
    ||| ('\u{2000}' <= c && c <= '\u{200a}')
    ||| c == '\u{2028}'
    ||| c == '\u{2029}'
    ||| c == '\u{202f}'
    ||| c == '\u{205f}'
    ||| c == '\u{3000}'
}

pub fn is_whitespace(c: char) -> (r: bool)
    ensures
        r == is_ws(c),
{
    ('\u{9}' <= c && c <= '\u{d}') || c == ' ' || c == '\u{85}' || c == '\u{a0}' || c == '\u{1680}'
        || ('\u{2000}' <= c && c <= '\u{200a}') || c == '\u{2028}' || c == '\u{2029}' || c
        == '\u{202f}' || c == '\u{205f}' || c == '\u{3000}'
}

/// A set of characters that a trimming or splitting operation acts on.
#[derive(Clone, Copy)]
pub enum CharClass {
    Whitespace,
    Exactly(char),
}

pub open spec fn in_class(k: CharClass, c: char) -> bool {
    match k {
        CharClass::Whitespace => is_ws(c),
        CharClass::Exactly(x) => c == x,
    }
}

pub fn class_has(k: CharClass, c: char) -> (r: bool)
    ensures
        r == in_class(k, c),
{
    match k {
        CharClass::Whitespace => is_whitespace(c),
        CharClass::Exactly(x) => c == x,
    }
}

/// Number of leading characters that are in `k`.
pub open spec fn lead_len(s: Seq<char>, k: CharClass) -> nat
    decreases s.len(),
{
    if s.len() > 0 && in_class(k, s[0]) {
        1 + lead_len(s.drop_first(), k)
    } else {
        0
    }
}

/// Number of leading characters that are not in `k`.
pub open spec fn run_len(s: Seq<char>, k: CharClass) -> nat
    decreases s.len(),
{
    if s.len() > 0 && !in_class(k, s[0]) {
        1 + run_len(s.drop_first(), k)
    } else {
        0
    }
}

/// Number of trailing characters that are in `k`.
pub open spec fn tail_len(s: Seq<char>, k: CharClass) -> nat
    decreases s.len(),
{
    if s.len() > 0 && in_class(k, s.last()) {
        1 + tail_len(s.drop_last(), k)
    } else {
        0
    }
}

pub proof fn lemma_lead_len(s: Seq<char>, k: CharClass)
    ensures
        lead_len(s, k) <= s.len(),
        forall|i: int| 0 <= i < lead_len(s, k) ==> in_class(k, #[trigger] s[i]),
        lead_len(s, k) < s.len() ==> !in_class(k, s[lead_len(s, k) as int]),
    decreases s.len(),
{
    if s.len() > 0 && in_class(k, s[0]) {
        lemma_lead_len(s.drop_first(), k);
        assert forall|i: int| 0 <= i < lead_len(s, k) implies in_class(k, #[trigger] s[i]) by {
            if i > 0 {
                assert(s[i] == s.drop_first()[i - 1]);
            }
        }
    }
}

pub proof fn lemma_run_len(s: Seq<char>, k: CharClass)
    ensures
        run_len(s, k) <= s.len(),
        forall|i: int| 0 <= i < run_len(s, k) ==> !in_class(k, #[trigger] s[i]),
        run_len(s, k) < s.len() ==> in_class(k, s[run_len(s, k) as int]),
    decreases s.len(),
{
    if s.len() > 0 && !in_class(k, s[0]) {
        lemma_run_len(s.drop_first(), k);
        assert forall|i: int| 0 <= i < run_len(s, k) implies !in_class(k, #[trigger] s[i]) by {
            if i > 0 {
                assert(s[i] == s.drop_first()[i - 1]);
            }
        }
    }
}

pub proof fn lemma_tail_len(s: Seq<char>, k: CharClass)
    ensures
        tail_len(s, k) <= s.len(),
        forall|i: int|
            s.len() - tail_len(s, k) <= i < s.len() ==> in_class(k, #[trigger] s[i]),
        tail_len(s, k) < s.len() ==> !in_class(k, s[s.len() - tail_len(s, k) - 1]),
    decreases s.len(),
{
    if s.len() > 0 && in_class(k, s.last()) {
        lemma_tail_len(s.drop_last(), k);
        assert forall|i: int| s.len() - tail_len(s, k) <= i < s.len() implies in_class(
            k,
            #[trigger] s[i],
        ) by {
            if i < s.len() - 1 {
                assert(s[i] == s.drop_last()[i]);
            }
        }
    }
}

/// `trim_start_matches` for a class of characters.
pub open spec fn trim_start(s: Seq<char>, k: CharClass) -> Seq<char> {
    s.skip(lead_len(s, k) as int)
}

/// `trim_end_matches` for a class of characters.
pub open spec fn trim_end(s: Seq<char>, k: CharClass) -> Seq<char> {
    s.take(s.len() - tail_len(s, k))
}

/// `trim_matches` for a class of characters (`trim` for whitespace).
pub open spec fn trim(s: Seq<char>, k: CharClass) -> Seq<char> {
    trim_end(trim_start(s, k), k)
}

/// Index just past the characters of class `k` that start at `from`.
pub fn skip_class(s: &[char], from: usize, k: CharClass) -> (j: usize)
    requires
        from <= s.len(),
    ensures
        from <= j <= s.len(),
        j - from == lead_len(s@.skip(from as int), k),
{
    let mut j = from;
    while j < s.len() && class_has(k, s[j])
        invariant
            from <= j <= s.len(),
            lead_len(s@.skip(from as int), k) == (j - from) + lead_len(s@.skip(j as int), k),
        decreases s.len() - j,
    {
        assert(s@.skip(j as int).drop_first() =~= s@.skip(j as int + 1));
        j = j + 1;
    }
    j
}

/// Index of the first character of class `k` at or after `from` (or the length).
pub fn find_class(s: &[char], from: usize, k: CharClass) -> (j: usize)
    requires
        from <= s.len(),
    ensures
        from <= j <= s.len(),
        j - from == run_len(s@.skip(from as int), k),
{
    let mut j = from;
    while j < s.len() && !class_has(k, s[j])
        invariant
            from <= j <= s.len(),
            run_len(s@.skip(from as int), k) == (j - from) + run_len(s@.skip(j as int), k),
        decreases s.len() - j,
    {
        assert(s@.skip(j as int).drop_first() =~= s@.skip(j as int + 1));
        j = j + 1;
    }
    j
}

/// Length of `s` without its trailing characters of class `k`.
pub fn end_without(s: &[char], k: CharClass) -> (j: usize)
    ensures
        j <= s.len(),
        j == s.len() - tail_len(s@, k),
{
    let mut j = s.len();
    assert(s@.take(j as int) =~= s@);
    while j > 0 && class_has(k, s[j - 1])
        invariant
            j <= s.len(),
            tail_len(s@, k) == (s.len() - j) + tail_len(s@.take(j as int), k),
        decreases j,
    {
        assert(s@.take(j as int).drop_last() =~= s@.take(j as int - 1));
        j = j - 1;
    }
    j
}

pub fn trim_start_of(s: &[char], k: CharClass) -> (r: Vec<char>)
    ensures
        r@ == trim_start(s@, k),
{
    let i = skip_class(s, 0, k);
    assert(s@.skip(0) =~= s@);
    slice_of(s, i, s.len())
}

pub fn trim_end_of(s: &[char], k: CharClass) -> (r: Vec<char>)
    ensures
        r@ == trim_end(s@, k),
{
    let j = end_without(s, k);
    slice_of(s, 0, j)
}

pub fn trim_of(s: &[char], k: CharClass) -> (r: Vec<char>)
    ensures
        r@ == trim(s@, k),
{
    let a = trim_start_of(s, k);
    trim_end_of(&a, k)
}


// ---------------------------------------------------------------------------
// Substrings
// ---------------------------------------------------------------------------

/// `p` occurs in `s` at index `i`.
pub open spec fn occurs_at(s: Seq<char>, p: Seq<char>, i: int) -> bool {
    0 <= i && i + p.len() <= s.len() && s.subrange(i, i + p.len()) == p
}

/// The first index at or after `i` where `p` occurs in `s` (`str::find`).
pub open spec fn find_from(s: Seq<char>, p: Seq<char>, i: int) -> Option<int>
    decreases s.len() + 1 - i,
{
    if i + p.len() > s.len() {
        None
    } else if occurs_at(s, p, i) {
        Some(i)
    } else {
        find_from(s, p, i + 1)
    }
}

pub open spec fn find(s: Seq<char>, p: Seq<char>) -> Option<int> {
    find_from(s, p, 0)
}

/// `str::contains` for a string pattern.
pub open spec fn has_text(s: Seq<char>, p: Seq<char>) -> bool {
    find(s, p) is Some
}

/// `str::starts_with`.
pub open spec fn starts_with(s: Seq<char>, p: Seq<char>) -> bool {
    p.len() <= s.len() && s.take(p.len() as int) == p
}

/// `str::ends_with`.
pub open spec fn ends_with(s: Seq<char>, p: Seq<char>) -> bool {
    p.len() <= s.len() && s.skip(s.len() - p.len()) == p
}

pub proof fn lemma_find_from(s: Seq<char>, p: Seq<char>, i: int)
    ensures
        find_from(s, p, i) matches Some(j) ==> i <= j && occurs_at(s, p, j) && forall|t: int|
            i <= t < j ==> !#[trigger] occurs_at(s, p, t),
        find_from(s, p, i) is None ==> forall|t: int| i <= t ==> !#[trigger] occurs_at(s, p, t),
    decreases s.len() + 1 - i,
{
    if i + p.len() > s.len() {
    } else if occurs_at(s, p, i) {
    } else {
        lemma_find_from(s, p, i + 1);
    }
}

/// Whether `p` occurs in `s` at index `i`.
pub fn occurs(s: &[char], p: &[char], i: usize) -> (r: bool)
    ensures
        r == occurs_at(s@, p@, i as int),
{
    if i > s.len() || p.len() > s.len() - i {
        return false;
    }
    let mut k: usize = 0;
    while k < p.len()
        invariant
            i + p.len() <= s.len(),
            k <= p.len(),
            forall|t: int| 0 <= t < k ==> s@[i + t] == p@[t],
        decreases p.len() - k,
    {
        if s[i + k] != p[k] {
            assert(s@.subrange(i as int, i + p.len())[k as int] != p@[k as int]);
            return false;
        }
        k = k + 1;
    }
    assert(s@.subrange(i as int, i + p.len()) =~= p@);
    true
}

/// `str::find` starting at index `from`.
pub fn find_at(s: &[char], p: &[char], from: usize) -> (r: Option<usize>)
    ensures
        r matches Some(j) ==> find_from(s@, p@, from as int) == Some(j as int),
        r is None ==> find_from(s@, p@, from as int) is None,
{
    let mut i = from;
    while i <= s.len() && p.len() <= s.len() - i
        invariant
            from <= i,
            find_from(s@, p@, from as int) == find_from(s@, p@, i as int),
        decreases s.len() + 1 - i,
    {
        if occurs(s, p, i) {
            return Some(i);
        }
        if i == s.len() {
            proof {
                if p@.len() == 0 {
                    assert(s@.subrange(i as int, i as int) =~= p@);
                }
                assert(find_from(s@, p@, i + 1) is None);
            }
            return None;
        }
        i = i + 1;
    }
    None
}

pub fn find_in(s: &[char], p: &[char]) -> (r: Option<usize>)
    ensures
        r matches Some(j) ==> find(s@, p@) == Some(j as int),
        r is None ==> find(s@, p@) is None,
{
    find_at(s, p, 0)
}

pub fn contains_text(s: &[char], p: &[char]) -> (r: bool)
    ensures
        r == has_text(s@, p@),
{
    find_in(s, p).is_some()
}

pub fn contains_char(s: &[char], c: char) -> (r: bool)
    ensures
        r == s@.contains(c),
{
    let mut i: usize = 0;
    while i < s.len()
        invariant
            i <= s.len(),
            forall|t: int| 0 <= t < i ==> s@[t] != c,
        decreases s.len() - i,
    {
        if s[i] == c {
            assert(s@[i as int] == c);
            return true;
        }
        i = i + 1;
    }
    false
}

pub fn has_prefix(s: &[char], p: &[char]) -> (r: bool)
    ensures
        r == starts_with(s@, p@),
{
    if p.len() > s.len() {
        return false;
    }
    let r = occurs(s, p, 0);
    assert(s@.subrange(0, p.len() as int) =~= s@.take(p.len() as int));
    r
}

pub fn has_suffix(s: &[char], p: &[char]) -> (r: bool)
    ensures
        r == ends_with(s@, p@),
{
    if p.len() > s.len() {
        return false;
    }
    let r = occurs(s, p, s.len() - p.len());
    assert(s@.subrange(s.len() - p.len(), s.len() as int) =~= s@.skip(s.len() - p.len()));
    r
}


// ---------------------------------------------------------------------------
// Words and lines
// ---------------------------------------------------------------------------

/// `str::split_whitespace`: the maximal runs of non-whitespace characters.
pub open spec fn words(s: Seq<char>) -> Seq<Seq<char>>
    decreases s.len(),
{
    if s.len() == 0 {
        seq![]
    } else if is_ws(s[0]) {
        words(s.drop_first())
    } else {
        let n = run_len(s, CharClass::Whitespace);
        proof {
            lemma_run_len(s, CharClass::Whitespace);
        }
        seq![s.take(n as int)] + words(s.skip(n as int))
    }
}

/// Removes one trailing carriage return.
pub open spec fn strip_cr(l: Seq<char>) -> Seq<char> {
    if l.len() > 0 && l.last() == '\r' {
        l.drop_last()
    } else {
        l
    }
}

/// `str::lines`: pieces between `\n` (a `\r` before a `\n` is dropped); a
/// final line terminator does not start another line.
pub open spec fn lines(s: Seq<char>) -> Seq<Seq<char>>
    decreases s.len(),
{
    if s.len() == 0 {
        seq![]
    } else {
        let n = run_len(s, CharClass::Exactly('\n'));
        if n >= s.len() {
            seq![s]
        } else {
            seq![strip_cr(s.take(n as int))] + lines(s.skip(n as int + 1))
        }
    }
}

/// `join`: the parts with `sep` between consecutive ones.
pub open spec fn join(parts: Seq<Seq<char>>, sep: Seq<char>) -> Seq<char>
    decreases parts.len(),
{
    if parts.len() == 0 {
        seq![]
    } else if parts.len() == 1 {
        parts[0]
    } else {
        join(parts.drop_last(), sep) + sep + parts.last()
    }
}

proof fn lemma_words_skip_ws(s: Seq<char>, m: int)
    requires
        0 <= m <= s.len(),
        forall|t: int| 0 <= t < m ==> is_ws(#[trigger] s[t]),
    ensures
        words(s) == words(s.skip(m)),
    decreases m,
{
    if m > 0 {
        assert(s.drop_first().skip(m - 1) =~= s.skip(m));
        assert forall|t: int| 0 <= t < m - 1 implies is_ws(#[trigger] s.drop_first()[t]) by {
            assert(s.drop_first()[t] == s[t + 1]);
        }
        lemma_words_skip_ws(s.drop_first(), m - 1);
    } else {
        assert(s.skip(0) =~= s);
    }
}

/// The words of `s@.skip(i)` start with the word at the first non-space at or
/// after `i`, and continue from its end.
proof fn lemma_words_step(s: Seq<char>, i: int, j: int, e: int)
    requires
        0 <= i <= j <= e <= s.len(),
        j - i == lead_len(s.skip(i), CharClass::Whitespace),
        e - j == run_len(s.skip(j), CharClass::Whitespace),
    ensures
        j == s.len() ==> words(s.skip(i)) =~= Seq::<Seq<char>>::empty(),
        j < s.len() ==> words(s.skip(i)) == seq![s.subrange(j, e)] + words(s.skip(e)),
{
    lemma_lead_len(s.skip(i), CharClass::Whitespace);
    lemma_run_len(s.skip(j), CharClass::Whitespace);
    assert forall|t: int| 0 <= t < j - i implies is_ws(#[trigger] s.skip(i)[t]) by {
        assert(in_class(CharClass::Whitespace, s.skip(i)[t]));
    }
    lemma_words_skip_ws(s.skip(i), j - i);
    assert(s.skip(i).skip(j - i) =~= s.skip(j));
    if j < s.len() {
        assert(!in_class(CharClass::Whitespace, s.skip(i)[j - i]));
        assert(s.skip(j)[0] == s.skip(i)[j - i]);
        assert(s.skip(j).take(e - j) =~= s.subrange(j, e));
        assert(s.skip(j).skip(e - j) =~= s.skip(e));
    }
}

/// `str::split_whitespace`, collected.
pub fn split_words(s: &[char]) -> (r: Vec<Vec<char>>)
    ensures
        texts(r@) == words(s@),
{
    let mut r: Vec<Vec<char>> = Vec::new();
    let mut i: usize = 0;
    assert(s@.skip(0) =~= s@);
    loop
        invariant
            i <= s.len(),
            words(s@) == texts(r@) + words(s@.skip(i as int)),
        decreases s.len() - i,
    {
        let j = skip_class(s, i, CharClass::Whitespace);
        if j == s.len() {
            proof {
                lemma_words_step(s@, i as int, j as int, j as int);
                assert(texts(r@) + words(s@.skip(i as int)) =~= texts(r@));
            }
            return r;
        }
        let e = find_class(s, j, CharClass::Whitespace);
        proof {
            lemma_words_step(s@, i as int, j as int, e as int);
            lemma_run_len(s@.skip(j as int), CharClass::Whitespace);
            lemma_lead_len(s@.skip(i as int), CharClass::Whitespace);
            assert(!in_class(CharClass::Whitespace, s@.skip(j as int)[0]));
        }
        let w = slice_of(s, j, e);
        let ghost old_r = r@;
        r.push(w);
        assert(texts(r@) =~= texts(old_r) + seq![w@]);
        i = e;
    }
}

/// The first word of `s`, if any.
pub fn first_word(s: &[char]) -> (r: Option<Vec<char>>)
    ensures
        r is None <==> words(s@).len() == 0,
        r matches Some(w) ==> w@ == words(s@)[0],
{
    let j = skip_class(s, 0, CharClass::Whitespace);
    assert(s@.skip(0) =~= s@);
    if j == s.len() {
        proof {
            lemma_words_step(s@, 0, j as int, j as int);
        }
        return None;
    }
    let e = find_class(s, j, CharClass::Whitespace);
    proof {
        lemma_words_step(s@, 0, j as int, e as int);
    }
    Some(slice_of(s, j, e))
}

/// `str::lines`, collected.
pub fn split_lines(s: &[char]) -> (r: Vec<Vec<char>>)
    ensures
        texts(r@) == lines(s@),
{
    let mut r: Vec<Vec<char>> = Vec::new();
    let mut i: usize = 0;
    assert(s@.skip(0) =~= s@);
    while i < s.len()
        invariant
            i <= s.len(),
            lines(s@) == texts(r@) + lines(s@.skip(i as int)),
        decreases s.len() - i,
    {
        let e = find_class(s, i, CharClass::Exactly('\n'));
        let ghost rest = s@.skip(i as int);
        let ghost old_r = r@;
        if e == s.len() {
            let w = slice_of(s, i, e);
            r.push(w);
            assert(w@ =~= rest);
            assert(s@.skip(e as int) =~= Seq::<char>::empty());
            assert(texts(r@) =~= texts(old_r) + seq![w@]);
            assert(lines(s@.skip(e as int)) =~= Seq::<Seq<char>>::empty());
            i = e;
        } else {
            let mut w = slice_of(s, i, e);
            if w.len() > 0 && w[w.len() - 1] == '\r' {
                w.pop();
            }
            proof {
                assert(rest.take(e - i) =~= s@.subrange(i as int, e as int));
                assert(rest.skip(e - i + 1) =~= s@.skip(e + 1));
            }
            r.push(w);
            assert(texts(r@) =~= texts(old_r) + seq![w@]);
            i = e + 1;
        }
    }
    assert(lines(s@.skip(i as int)) =~= Seq::<Seq<char>>::empty()) by {
        assert(s@.skip(i as int).len() == 0);
    }
    assert(texts(r@) + Seq::<Seq<char>>::empty() =~= texts(r@));
    r
}

/// `str::split` on a character: the pieces between its occurrences (one
/// empty piece for an empty text).
pub open spec fn split_on(s: Seq<char>, c: char) -> Seq<Seq<char>>
    decreases s.len(),
{
    let n = run_len(s, CharClass::Exactly(c)) as int;
    if n < 0 || n >= s.len() {
        seq![s]
    } else {
        seq![s.take(n)] + split_on(s.skip(n + 1), c)
    }
}

/// The pieces of `s` between occurrences of `c`.
pub fn split_char(s: &[char], c: char) -> (r: Vec<Vec<char>>)
    ensures
        texts(r@) == split_on(s@, c),
{
    let mut r: Vec<Vec<char>> = Vec::new();
    let mut i: usize = 0;
    assert(s@.skip(0) =~= s@);
    loop
        invariant
            i <= s.len(),
            split_on(s@, c) == texts(r@) + split_on(s@.skip(i as int), c),
        decreases s.len() - i,
    {
        let e = find_class(s, i, CharClass::Exactly(c));
        let ghost rest = s@.skip(i as int);
        let ghost old_r = texts(r@);
        let w = slice_of(s, i, e);
        r.push(w);
        assert(texts(r@) =~= old_r.push(w@));
        if e == s.len() {
            assert(w@ =~= rest);
            assert(texts(r@) =~= old_r + split_on(rest, c));
            return r;
        }
        assert(rest.take(e - i) =~= w@);
        assert(rest.skip(e - i + 1) =~= s@.skip(e + 1));
        i = e + 1;
    }
}

/// Joining a first part to the rest puts one separator between them.
pub proof fn lemma_join_prepend(a: Seq<char>, rest: Seq<Seq<char>>, sep: Seq<char>)
    requires
        rest.len() > 0,
    ensures
        join(seq![a] + rest, sep) == a + sep + join(rest, sep),
    decreases rest.len(),
{
    let all = seq![a] + rest;
    assert(all.len() == rest.len() + 1);
    if rest.len() == 1 {
        assert(all.drop_last() =~= seq![a]);
        assert(all.last() == rest[0]);
        assert(join(all, sep) == join(all.drop_last(), sep) + sep + all.last());
        assert(join(seq![a], sep) == a);
        assert(join(rest, sep) == rest[0]);
    } else {
        assert(join(all, sep) == join(all.drop_last(), sep) + sep + all.last());
        assert(join(rest, sep) == join(rest.drop_last(), sep) + sep + rest.last());
        assert(all.drop_last() =~= seq![a] + rest.drop_last());
        lemma_join_prepend(a, rest.drop_last(), sep);
        assert(all.last() == rest.last());
        assert(a + sep + join(rest.drop_last(), sep) + sep + rest.last() =~= a + sep + (join(
            rest.drop_last(),
            sep,
        ) + sep + rest.last()));
    }
}

/// Splitting a text into lines and joining them with `\n` gives the text
/// back, when it holds no carriage return and does not end with a newline.
pub proof fn law_lines_join(s: Seq<char>)
    requires
        !s.contains('\r'),
        !(s.len() > 0 && s.last() == '\n'),
    ensures
        join(lines(s), "\n"@) == s,
    decreases s.len(),
{
    reveal_strlit("\n");
    if s.len() > 0 {
        let n = run_len(s, CharClass::Exactly('\n'));
        lemma_run_len(s, CharClass::Exactly('\n'));
        if n < s.len() {
            let head = s.take(n as int);
            let rest = s.skip(n as int + 1);
            assert(!(head.len() > 0 && head.last() == '\r')) by {
                if head.len() > 0 {
                    assert(head.last() == s[n - 1]);
                }
            }
            assert(strip_cr(head) == head);
            assert(rest.len() > 0) by {
                if rest.len() == 0 {
                    assert(s.last() == s[n as int]);
                }
            }
            assert(!rest.contains('\r')) by {
                if rest.contains('\r') {
                    let t = choose|t: int| 0 <= t < rest.len() && rest[t] == '\r';
                    assert(s[n + 1 + t] == '\r');
                }
            }
            assert(rest.last() == s.last());
            law_lines_join(rest);
            assert(lines(rest).len() > 0);
            lemma_join_prepend(head, lines(rest), "\n"@);
            assert(head + "\n"@ + rest =~= s);
        } else {
            assert(lines(s) =~= seq![s]);
        }
    }
}

/// Joins the parts with `sep` between consecutive ones.
pub fn join_texts(parts: &Vec<Vec<char>>, sep: &[char]) -> (r: Vec<char>)
    ensures
        r@ == join(texts(parts@), sep@),
{
    let mut r: Vec<char> = Vec::new();
    let mut i: usize = 0;
    while i < parts.len()
        invariant
            i <= parts.len(),
            r@ == join(texts(parts@).take(i as int), sep@),
        decreases parts.len() - i,
    {
        assert(texts(parts@).take(i as int + 1).drop_last() =~= texts(parts@).take(i as int));
        if i > 0 {
            extend(&mut r, sep);
        } else {
            assert(texts(parts@).take(1) =~= seq![parts@[0]@]);
        }
        extend(&mut r, &parts[i]);
        i = i + 1;
    }
    assert(texts(parts@).take(parts.len() as int) =~= texts(parts@));
    r
}


// ---------------------------------------------------------------------------
// Replacing
// ---------------------------------------------------------------------------

/// `str::replace` for a non-empty pattern: every non-overlapping occurrence,
/// from left to right.
pub open spec fn replace_all(s: Seq<char>, p: Seq<char>, r: Seq<char>) -> Seq<char>
    decreases s.len(),
{
    if p.len() == 0 {
        s
    } else {
        match find(s, p) {
            None => s,
            Some(i) => {
                proof {
                    lemma_find_from(s, p, 0);
                }
                s.take(i) + r + replace_all(s.skip(i + p.len()), p, r)
            },
        }
    }
}

/// `str::replacen(p, r, 1)`: the first occurrence only.
pub open spec fn replace_first(s: Seq<char>, p: Seq<char>, r: Seq<char>) -> Seq<char> {
    match find(s, p) {
        None => s,
        Some(i) => s.take(i) + r + s.skip(i + p.len()),
    }
}

pub fn replace_all_of(s: &[char], p: &[char], r: &[char]) -> (out: Vec<char>)
    requires
        p.len() > 0,
    ensures
        out@ == replace_all(s@, p@, r@),
{
    let mut out: Vec<char> = Vec::new();
    let mut rest = slice_of(s, 0, s.len());
    assert(s@.subrange(0, s.len() as int) =~= s@);
    loop
        invariant
            p.len() > 0,
            replace_all(s@, p@, r@) == out@ + replace_all(rest@, p@, r@),
        decreases rest.len(),
    {
        match find_in(&rest, p) {
            None => {
                assert(out@ + rest@ == replace_all(s@, p@, r@));
                extend(&mut out, &rest);
                return out;
            },
            Some(i) => {
                proof {
                    lemma_find_from(rest@, p@, 0);
                }
                let head = slice_of(&rest, 0, i);
                let tail = slice_of(&rest, i + p.len(), rest.len());
                let ghost old_out = out@;
                extend(&mut out, &head);
                extend(&mut out, r);
                assert(head@ =~= rest@.take(i as int));
                assert(tail@ =~= rest@.skip(i + p.len()));
                assert(out@ + replace_all(tail@, p@, r@) =~= old_out + replace_all(rest@, p@, r@));
                rest = tail;
            },
        }
    }
}

pub fn replace_first_of(s: &[char], p: &[char], r: &[char]) -> (out: Vec<char>)
    ensures
        out@ == replace_first(s@, p@, r@),
{
    match find_in(s, p) {
        None => slice_of(s, 0, s.len()),
        Some(i) => {
            proof {
                lemma_find_from(s@, p@, 0);
            }
            let mut out = slice_of(s, 0, i);
            extend(&mut out, r);
            assert(occurs_at(s@, p@, i as int));
            assert(i + p.len() <= s.len());
            let tail = slice_of(s, i + p.len(), s.len());
            extend(&mut out, &tail);
            assert(out@ =~= s@.take(i as int) + r@ + s@.skip(i + p.len()));
            out
        },
    }
}

/// Index of the last occurrence of `c`.
pub open spec fn last_index(s: Seq<char>, c: char) -> Option<int>
    decreases s.len(),
{
    if s.len() == 0 {
        None
    } else if s.last() == c {
        Some(s.len() - 1)
    } else {
        last_index(s.drop_last(), c)
    }
}

pub proof fn lemma_last_index(s: Seq<char>, c: char)
    ensures
        last_index(s, c) matches Some(i) ==> 0 <= i < s.len() && s[i] == c && forall|t: int|
            i < t < s.len() ==> #[trigger] s[t] != c,
        last_index(s, c) is None ==> !s.contains(c),
    decreases s.len(),
{
    if s.len() > 0 && s.last() != c {
        lemma_last_index(s.drop_last(), c);
        if last_index(s, c) is None {
            assert forall|t: int| 0 <= t < s.len() implies s[t] != c by {
                if t < s.len() - 1 {
                    assert(s[t] == s.drop_last()[t]);
                }
            }
        }
        assert forall|t: int| 0 <= t < s.len() - 1 implies #[trigger] s[t] == s.drop_last()[t] by {}
    }
}

pub fn rfind_char(s: &[char], c: char) -> (r: Option<usize>)
    ensures
        r matches Some(i) ==> last_index(s@, c) == Some(i as int),
        r is None ==> last_index(s@, c) is None,
{
    let mut j = s.len();
    assert(s@.take(j as int) =~= s@);
    while j > 0
        invariant
            j <= s.len(),
            last_index(s@, c) == last_index(s@.take(j as int), c),
        decreases j,
    {
        if s[j - 1] == c {
            return Some(j - 1);
        }
        assert(s@.take(j as int).drop_last() =~= s@.take(j - 1));
        j = j - 1;
    }
    None
}

// ---------------------------------------------------------------------------
// Decimal numbers
// ---------------------------------------------------------------------------

pub open spec fn is_digit(c: char) -> bool {
    '0' <= c && c <= '9'
}

pub open spec fn digit_char(d: nat) -> char {
    (d + 48) as char
}

pub open spec fn digit_value(c: char) -> nat {
    (c as int - 48) as nat
}

/// The decimal representation of `n`, without leading zeros.
pub open spec fn decimal(n: nat) -> Seq<char>
    decreases n,
{
    if n < 10 {
        seq![digit_char(n)]
    } else {
        decimal(n / 10).push(digit_char(n % 10))
    }
}

/// The value of a string of decimal digits.
pub open spec fn digits_value(s: Seq<char>) -> nat
    decreases s.len(),
{
    if s.len() == 0 {
        0
    } else {
        digits_value(s.drop_last()) * 10 + digit_value(s.last())
    }
}

pub open spec fn all_digits(s: Seq<char>) -> bool {
    forall|i: int| 0 <= i < s.len() ==> is_digit(#[trigger] s[i])
}

/// The digits that `from_str` for an unsigned integer reads: one leading `+`
/// is allowed.
pub open spec fn unsigned_digits(s: Seq<char>) -> Seq<char> {
    if s.len() > 0 && s[0] == '+' {
        s.drop_first()
    } else {
        s
    }
}

/// `FromStr` for an unsigned integer type whose largest value is `max`.
pub open spec fn parse_unsigned(s: Seq<char>, max: nat) -> Option<nat> {
    let d = unsigned_digits(s);
    if d.len() > 0 && all_digits(d) && digits_value(d) <= max {
        Some(digits_value(d))
    } else {
        None
    }
}

fn digit(d: u64) -> (c: char)
    requires
        d < 10,
    ensures
        c == digit_char(d as nat),
{
    ((d as u8) + 48) as char
}

/// `to_string` of an unsigned integer.
pub fn decimal_of(n: u64) -> (r: Vec<char>)
    ensures
        r@ == decimal(n as nat),
    decreases n,
{
    if n < 10 {
        let mut v: Vec<char> = Vec::new();
        v.push(digit(n));
        assert(v@ =~= seq![digit_char(n as nat)]);
        v
    } else {
        let mut v = decimal_of(n / 10);
        v.push(digit(n % 10));
        v
    }
}

proof fn lemma_digits_prefix_monotone(s: Seq<char>, i: int, j: int)
    requires
        0 <= i <= j <= s.len(),
    ensures
        digits_value(s.take(i)) <= digits_value(s.take(j)),
    decreases j - i,
{
    if i < j {
        lemma_digits_prefix_monotone(s, i, j - 1);
        assert(s.take(j).drop_last() =~= s.take(j - 1));
    }
}

/// Parses a string of digits with an optional leading `+` as an integer no
/// larger than `max`.
pub fn parse_bounded(s: &[char], max: u64) -> (r: Option<u64>)
    ensures
        r matches Some(v) ==> parse_unsigned(s@, max as nat) == Some(v as nat),
        r is None ==> parse_unsigned(s@, max as nat) is None,
{
    let start: usize = if s.len() > 0 && s[0] == '+' {
        1
    } else {
        0
    };
    let ghost d = unsigned_digits(s@);
    assert(d =~= s@.skip(start as int));
    if start == s.len() {
        return None;
    }
    let mut acc: u64 = 0;
    let mut i = start;
    assert(d.take(0) =~= Seq::<char>::empty());
    while i < s.len()
        invariant
            start <= i <= s.len(),
            d == s@.skip(start as int),
            d == unsigned_digits(s@),
            d.len() > 0,
            acc as nat == digits_value(d.take(i - start)),
            acc <= max,
            forall|t: int| 0 <= t < i - start ==> is_digit(#[trigger] d[t]),
        decreases s.len() - i,
    {
        let c = s[i];
        assert(d[i - start] == c);
        if !('0' <= c && c <= '9') {
            assert(!is_digit(d[i - start]));
            return None;
        }
        let dv = (c as u32 - 48) as u64;
        assert(d.take(i - start + 1).drop_last() =~= d.take(i - start));
        assert(d.take(i - start + 1).last() == c);
        let next: u128 = acc as u128 * 10 + dv as u128;
        if next > max as u128 {
            proof {
                assert(digits_value(d.take(i - start + 1)) == next);
                lemma_digits_prefix_monotone(d, i - start + 1, d.len() as int);
                assert(d.take(d.len() as int) =~= d);
            }
            return None;
        }
        acc = acc * 10 + dv;
        i = i + 1;
    }
    assert(d.take(d.len() as int) =~= d);
    Some(acc)
}


pub proof fn lemma_decimal_digits(n: nat)
    ensures
        decimal(n).len() > 0,
        all_digits(decimal(n)),
        digits_value(decimal(n)) == n,
        decimal(n)[0] != '+',
    decreases n,
{
    if n >= 10 {
        lemma_decimal_digits(n / 10);
        let d = decimal(n);
        assert(d.drop_last() =~= decimal(n / 10));
        assert forall|i: int| 0 <= i < d.len() implies is_digit(#[trigger] d[i]) by {
            if i < d.len() - 1 {
                assert(d[i] == decimal(n / 10)[i]);
            }
        }
        assert(digit_value(digit_char(n % 10)) == n % 10);
        assert(d.last() == digit_char(n % 10));
        assert(digits_value(d.drop_last()) == n / 10);
        assert((n / 10) * 10 + n % 10 == n) by (nonlinear_arith);
    } else {
        assert(digit_value(digit_char(n)) == n);
        assert(decimal(n).drop_last() =~= Seq::<char>::empty());
        assert(digits_value(decimal(n).drop_last()) == 0);
    }
}

proof fn lemma_scan_all_digits(d: Seq<char>, max: nat)
    requires
        all_digits(d),
        digits_value(d) <= max,
    ensures
        scan_digits(d, max) == Ok::<nat, IntErrorKind>(digits_value(d)),
    decreases d.len(),
{
    if d.len() > 0 {
        assert(all_digits(d.drop_last())) by {
            assert forall|i: int| 0 <= i < d.drop_last().len() implies is_digit(
                #[trigger] d.drop_last()[i],
            ) by {
                assert(d.drop_last()[i] == d[i]);
            }
        }
        lemma_scan_all_digits(d.drop_last(), max);
        assert(is_digit(d[d.len() - 1]));
    }
}

/// Reading back the decimal text of a number gives the number, both as
/// `parse_unsigned` and as `parse_int` (with its error kinds) see it.
pub proof fn law_decimal_round_trip(n: nat, max: nat)
    requires
        n <= max,
    ensures
        parse_unsigned(decimal(n), max) == Some(n),
        parse_int(decimal(n), max) == Ok::<nat, IntErrorKind>(n),
{
    lemma_decimal_digits(n);
    let d = decimal(n);
    assert(unsigned_digits(d) == d);
    lemma_scan_all_digits(d, max);
    if d.len() == 1 {
        assert(is_digit(d[0]));
    }
}

/// Why `FromStr` for an unsigned integer refused a text.
#[derive(Clone, Copy, Debug, PartialEq, Eq, Structural)]
pub enum IntErrorKind {
    Empty,
    InvalidDigit,
    PosOverflow,
}

/// The digits read from left to right, as `FromStr` does: the first
/// character that is not a digit, or the first digit that takes the value
/// past `max`, decides the error.
pub open spec fn scan_digits(d: Seq<char>, max: nat) -> Result<nat, IntErrorKind>
    decreases d.len(),
{
    if d.len() == 0 {
        Ok(0)
    } else {
        match scan_digits(d.drop_last(), max) {
            Err(e) => Err(e),
            Ok(v) => if !is_digit(d.last()) {
                Err(IntErrorKind::InvalidDigit)
            } else if v * 10 + digit_value(d.last()) > max {
                Err(IntErrorKind::PosOverflow)
            } else {
                Ok(v * 10 + digit_value(d.last()))
            },
        }
    }
}

/// `FromStr` for an unsigned integer type whose largest value is `max`, with
/// the kind of error it reports.
pub open spec fn parse_int(s: Seq<char>, max: nat) -> Result<nat, IntErrorKind> {
    if s.len() == 0 {
        Err(IntErrorKind::Empty)
    } else if s.len() == 1 && (s[0] == '+' || s[0] == '-') {
        Err(IntErrorKind::InvalidDigit)
    } else {
        scan_digits(unsigned_digits(s), max)
    }
}

/// The message that `ParseIntError` displays for each kind.
pub open spec fn int_error_message(k: IntErrorKind) -> Seq<char> {
    match k {
        IntErrorKind::Empty => "cannot parse integer from empty string"@,
        IntErrorKind::InvalidDigit => "invalid digit found in string"@,
        IntErrorKind::PosOverflow => "number too large to fit in target type"@,
    }
}

pub fn int_error_text(k: IntErrorKind) -> (r: &'static str)
    ensures
        r@ == int_error_message(k),
{
    match k {
        IntErrorKind::Empty => "cannot parse integer from empty string",
        IntErrorKind::InvalidDigit => "invalid digit found in string",
        IntErrorKind::PosOverflow => "number too large to fit in target type",
    }
}

pub open spec fn int_result_view(r: Result<u64, IntErrorKind>) -> Result<nat, IntErrorKind> {
    match r {
        Ok(v) => Ok(v as nat),
        Err(e) => Err(e),
    }
}

/// Parses an unsigned integer no larger than `max`, as `FromStr` does.
pub fn parse_int_of(s: &[char], max: u64) -> (r: Result<u64, IntErrorKind>)
    ensures
        int_result_view(r) == parse_int(s@, max as nat),
{
    if s.len() == 0 {
        return Err(IntErrorKind::Empty);
    }
    if s.len() == 1 && (s[0] == '+' || s[0] == '-') {
        return Err(IntErrorKind::InvalidDigit);
    }
    let start: usize = if s[0] == '+' {
        1
    } else {
        0
    };
    let ghost d = unsigned_digits(s@);
    assert(d =~= s@.skip(start as int));
    let mut acc: u64 = 0;
    let mut i = start;
    assert(d.take(0) =~= Seq::<char>::empty());
    while i < s.len()
        invariant
            start <= i <= s.len(),
            d == s@.skip(start as int),
            d == unsigned_digits(s@),
            s@.len() > 0,
            !(s@.len() == 1 && (s@[0] == '+' || s@[0] == '-')),
            scan_digits(d.take(i - start), max as nat) == Ok::<nat, IntErrorKind>(acc as nat),
            acc <= max,
        decreases s.len() - i,
    {
        let c = s[i];
        assert(d[i - start] == c);
        assert(d.take(i - start + 1).drop_last() =~= d.take(i - start));
        assert(d.take(i - start + 1).last() == c);
        if !('0' <= c && c <= '9') {
            proof {
                lemma_scan_error_stays(d, max as nat, i - start + 1);
            }
            return Err(IntErrorKind::InvalidDigit);
        }
        let dv = (c as u32 - 48) as u64;
        let next: u128 = acc as u128 * 10 + dv as u128;
        if next > max as u128 {
            proof {
                lemma_scan_error_stays(d, max as nat, i - start + 1);
            }
            return Err(IntErrorKind::PosOverflow);
        }
        acc = acc * 10 + dv;
        i = i + 1;
    }
    assert(d.take(d.len() as int) =~= d);
    Ok(acc)
}

/// Once a prefix of the digits fails, the whole fails the same way.
proof fn lemma_scan_error_stays(d: Seq<char>, max: nat, k: int)
    requires
        0 <= k <= d.len(),
        scan_digits(d.take(k), max) is Err,
    ensures
        scan_digits(d, max) == scan_digits(d.take(k), max),
    decreases d.len() - k,
{
    if k < d.len() {
        assert(d.take(k + 1).drop_last() =~= d.take(k));
        lemma_scan_error_stays(d, max, k + 1);
    } else {
        assert(d.take(k) =~= d);
    }
}

// ---------------------------------------------------------------------------
// UTF-8 lengths
// ---------------------------------------------------------------------------

/// The number of bytes of a character in UTF-8.
pub open spec fn char_width(c: char) -> nat {
    if (c as u32) < 0x80 {
        1
    } else if (c as u32) < 0x800 {
        2
    } else if (c as u32) < 0x10000 {
        3
    } else {
        4
    }
}

/// The number of bytes of a text in UTF-8 (`str::len`).
pub open spec fn utf8_len(s: Seq<char>) -> nat
    decreases s.len(),
{
    if s.len() == 0 {
        0
    } else {
        char_width(s[0]) + utf8_len(s.drop_first())
    }
}

/// The longest prefix of a text whose UTF-8 encoding has at most `n` bytes.
pub open spec fn byte_prefix(s: Seq<char>, n: nat) -> Seq<char>
    decreases s.len(),
{
    if s.len() > 0 && char_width(s[0]) <= n {
        seq![s[0]] + byte_prefix(s.drop_first(), (n - char_width(s[0])) as nat)
    } else {
        seq![]
    }
}

/// The characters kept by a cut after `n` bytes start the text and take at
/// most `n` bytes.
pub proof fn law_byte_prefix_fits(s: Seq<char>, n: nat)
    ensures
        utf8_len(byte_prefix(s, n)) <= n,
        starts_with(s, byte_prefix(s, n)),
    decreases s.len(),
{
    if s.len() > 0 && char_width(s[0]) <= n {
        let m = (n - char_width(s[0])) as nat;
        law_byte_prefix_fits(s.drop_first(), m);
        let p = byte_prefix(s.drop_first(), m);
        let q = seq![s[0]] + p;
        assert(q.drop_first() =~= p);
        assert(q[0] == s[0]);
        assert(s.take(q.len() as int) =~= q) by {
            assert(s.drop_first().take(p.len() as int) =~= p);
            assert forall|i: int| 0 <= i < q.len() implies s.take(q.len() as int)[i] == q[i] by {
                if i > 0 {
                    assert(s.take(q.len() as int)[i] == s.drop_first().take(p.len() as int)[i - 1]);
                }
            }
        }
    } else {
        assert(s.take(0) =~= Seq::<char>::empty());
    }
}

/// Whether `&s[..n.min(s.len())]` is a valid slice: the text is at most `n`
/// bytes long, or a character ends exactly at byte `n`.
pub open spec fn cut_ok(s: Seq<char>, n: nat) -> bool {
    utf8_len(s) <= n || utf8_len(byte_prefix(s, n)) == n
}

fn width_of(c: char) -> (r: usize)
    ensures
        r == char_width(c),
{
    if (c as u32) < 0x80 {
        1
    } else if (c as u32) < 0x800 {
        2
    } else if (c as u32) < 0x10000 {
        3
    } else {
        4
    }
}

/// The characters of `s` that fit in its first `n` bytes, and whether a
/// character ends exactly there (or the text is shorter).
pub fn byte_prefix_of(s: &[char], n: usize) -> (r: (Vec<char>, bool))
    ensures
        r.0@ == byte_prefix(s@, n as nat),
        r.1 == cut_ok(s@, n as nat),
{
    let mut out: Vec<char> = Vec::new();
    let mut used: usize = 0;
    let mut i: usize = 0;
    assert(s@.skip(0) =~= s@);
    while i < s.len() && width_of(s[i]) <= n - used
        invariant
            i <= s.len(),
            used <= n,
            byte_prefix(s@, n as nat) == out@ + byte_prefix(s@.skip(i as int), (n - used) as nat),
            utf8_len(s@) == used + utf8_len(s@.skip(i as int)),
            utf8_len(byte_prefix(s@, n as nat)) == used + utf8_len(
                byte_prefix(s@.skip(i as int), (n - used) as nat),
            ),
        decreases s.len() - i,
    {
        let w = width_of(s[i]);
        let ghost rest = s@.skip(i as int);
        assert(rest.drop_first() =~= s@.skip(i + 1));
        assert(rest[0] == s@[i as int]);
        let ghost bp = byte_prefix(rest.drop_first(), (n - used - w) as nat);
        assert(byte_prefix(rest, (n - used) as nat) == seq![rest[0]] + bp);
        assert((seq![rest[0]] + bp).drop_first() =~= bp);
        assert((seq![rest[0]] + bp)[0] == rest[0]);
        out.push(s[i]);
        used = used + w;
        i = i + 1;
    }
    let ghost rest = s@.skip(i as int);
    assert(byte_prefix(rest, (n - used) as nat) =~= Seq::<char>::empty());
    assert(out@ + Seq::<char>::empty() =~= out@);
    let ok = i == s.len() || used == n;
    proof {
        if i == s.len() {
            assert(rest.len() == 0);
        } else if used < n {
            assert(utf8_len(byte_prefix(s@, n as nat)) == used);
            assert(utf8_len(rest) >= char_width(rest[0]));
            assert(char_width(rest[0]) > n - used);
        }
    }
    (out, ok)
}

// ---------------------------------------------------------------------------
// Case mapping
// ---------------------------------------------------------------------------

pub open spec fn is_ascii_text(s: Seq<char>) -> bool {
    forall|i: int| 0 <= i < s.len() ==> #[trigger] s[i] <= '\u{7f}'
}

pub open spec fn ascii_lower(c: char) -> char {
    if 'A' <= c && c <= 'Z' {
        ((c as u32) + 32) as char
    } else {
        c
    }
}

pub open spec fn ascii_upper(c: char) -> char {
    if 'a' <= c && c <= 'z' {
        ((c as u32) - 32) as char
    } else {
        c
    }
}

/// What `str::to_lowercase` returns for a string.
pub uninterp spec fn lowercase_of(s: Seq<char>) -> Seq<char>;

/// What `str::to_uppercase` returns for a string.
pub uninterp spec fn uppercase_of(s: Seq<char>) -> Seq<char>;

/// The lower case of a text: `A`-`Z` mapped to `a`-`z` for ASCII text, the
/// full Unicode mapping of `str::to_lowercase` otherwise.
pub open spec fn lower_text(s: Seq<char>) -> Seq<char> {
    if is_ascii_text(s) {
        s.map_values(|c: char| ascii_lower(c))
    } else {
        lowercase_of(s)
    }
}

/// The upper case of a text: `a`-`z` mapped to `A`-`Z` for ASCII text, the
/// full Unicode mapping of `str::to_uppercase` otherwise.
pub open spec fn upper_text(s: Seq<char>) -> Seq<char> {
    if is_ascii_text(s) {
        s.map_values(|c: char| ascii_upper(c))
    } else {
        uppercase_of(s)
    }
}

/// `str::to_lowercase`: the full Unicode lowercase mapping of the text. For
/// ASCII text it maps `A`-`Z` to `a`-`z` and keeps every other character; for
/// other text only the name `lowercase_of` is stated.
#[verifier::external_body]
pub(crate) fn to_lowercase(s: &[char]) -> (r: Vec<char>)
    ensures
        r@ == lowercase_of(s@),
        is_ascii_text(s@) ==> r@ == s@.map_values(|c: char| ascii_lower(c)),
{
    let t: String = s.iter().collect();
    t.to_lowercase().chars().collect()
}

/// `str::to_uppercase`: the full Unicode uppercase mapping of the text. For
/// ASCII text it maps `a`-`z` to `A`-`Z` and keeps every other character; for
/// other text only the name `uppercase_of` is stated.
#[verifier::external_body]
pub(crate) fn to_uppercase(s: &[char]) -> (r: Vec<char>)
    ensures
        r@ == uppercase_of(s@),
        is_ascii_text(s@) ==> r@ == s@.map_values(|c: char| ascii_upper(c)),
{
    let t: String = s.iter().collect();
    t.to_uppercase().chars().collect()
}

// ---------------------------------------------------------------------------
// Ordering of texts
// ---------------------------------------------------------------------------

/// Lexicographic order of texts by character, which is the order of `String`
/// (the byte order of UTF-8 agrees with the order of scalar values).
pub open spec fn text_le(a: Seq<char>, b: Seq<char>) -> bool
    decreases a.len(),
{
    if a.len() == 0 {
        true
    } else if b.len() == 0 {
        false
    } else if a[0] != b[0] {
        a[0] < b[0]
    } else {
        text_le(a.drop_first(), b.drop_first())
    }
}

pub proof fn lemma_text_le_total(a: Seq<char>, b: Seq<char>)
    ensures
        text_le(a, b) || text_le(b, a),
    decreases a.len(),
{
    if a.len() > 0 && b.len() > 0 && a[0] == b[0] {
        lemma_text_le_total(a.drop_first(), b.drop_first());
    }
}

pub proof fn lemma_text_le_antisymmetric(a: Seq<char>, b: Seq<char>)
    requires
        text_le(a, b),
        text_le(b, a),
    ensures
        a == b,
    decreases a.len(),
{
    if a.len() > 0 && b.len() > 0 {
        lemma_text_le_antisymmetric(a.drop_first(), b.drop_first());
        assert(a =~= seq![a[0]] + a.drop_first());
        assert(b =~= seq![b[0]] + b.drop_first());
    } else {
        assert(a =~= b);
    }
}

pub proof fn lemma_text_le_transitive(a: Seq<char>, b: Seq<char>, c: Seq<char>)
    requires
        text_le(a, b),
        text_le(b, c),
    ensures
        text_le(a, c),
    decreases a.len(),
{
    if a.len() > 0 && b.len() > 0 && c.len() > 0 && a[0] == b[0] && b[0] == c[0] {
        lemma_text_le_transitive(a.drop_first(), b.drop_first(), c.drop_first());
    }
}

pub proof fn lemma_text_le_reflexive(a: Seq<char>)
    ensures
        text_le(a, a),
    decreases a.len(),
{
    if a.len() > 0 {
        lemma_text_le_reflexive(a.drop_first());
    }
}

/// Whether `a` sorts before or equal to `b`.
pub fn text_le_of(a: &[char], b: &[char]) -> (r: bool)
    ensures
        r == text_le(a@, b@),
{
    let mut i: usize = 0;
    assert(a@.skip(0) =~= a@);
    assert(b@.skip(0) =~= b@);
    loop
        invariant
            i <= a.len(),
            i <= b.len(),
            text_le(a@, b@) == text_le(a@.skip(i as int), b@.skip(i as int)),
        decreases a.len() - i,
    {
        if i == a.len() {
            return true;
        }
        if i == b.len() {
            return false;
        }
        if a[i] != b[i] {
            return a[i] < b[i];
        }
        assert(a@.skip(i as int).drop_first() =~= a@.skip(i as int + 1));
        assert(b@.skip(i as int).drop_first() =~= b@.skip(i as int + 1));
        i = i + 1;
    }
}


// ---------------------------------------------------------------------------
// Lemmas on concatenation, trimming and lines
// ---------------------------------------------------------------------------

/// A first part without characters of `k` adds its length to `run_len`.
pub proof fn lemma_run_len_concat(a: Seq<char>, b: Seq<char>, k: CharClass)
    requires
        forall|t: int| 0 <= t < a.len() ==> !in_class(k, #[trigger] a[t]),
    ensures
        run_len(a + b, k) == a.len() + run_len(b, k),
    decreases a.len(),
{
    if a.len() > 0 {
        assert((a + b).drop_first() =~= a.drop_first() + b);
        assert((a + b)[0] == a[0]);
        assert forall|t: int| 0 <= t < a.drop_first().len() implies !in_class(
            k,
            #[trigger] a.drop_first()[t],
        ) by {
            assert(a.drop_first()[t] == a[t + 1]);
        }
        lemma_run_len_concat(a.drop_first(), b, k);
    } else {
        assert(a + b =~= b);
    }
}

/// A first part made only of characters of `k` adds its length to `lead_len`.
pub proof fn lemma_lead_len_concat(a: Seq<char>, b: Seq<char>, k: CharClass)
    requires
        forall|t: int| 0 <= t < a.len() ==> in_class(k, #[trigger] a[t]),
    ensures
        lead_len(a + b, k) == a.len() + lead_len(b, k),
    decreases a.len(),
{
    if a.len() > 0 {
        assert((a + b).drop_first() =~= a.drop_first() + b);
        assert((a + b)[0] == a[0]);
        assert forall|t: int| 0 <= t < a.drop_first().len() implies in_class(
            k,
            #[trigger] a.drop_first()[t],
        ) by {
            assert(a.drop_first()[t] == a[t + 1]);
        }
        lemma_lead_len_concat(a.drop_first(), b, k);
    } else {
        assert(a + b =~= b);
    }
}

/// Behind a first part whose last character is not of `k`, trailing
/// characters of `k` are those of the second part.
pub proof fn lemma_trim_end_concat(a: Seq<char>, b: Seq<char>, k: CharClass)
    requires
        a.len() > 0,
        !in_class(k, a.last()),
    ensures
        tail_len(a + b, k) == tail_len(b, k),
        trim_end(a + b, k) == a + trim_end(b, k),
    decreases b.len(),
{
    if b.len() > 0 {
        assert((a + b).last() == b.last());
        assert((a + b).drop_last() =~= a + b.drop_last());
        lemma_trim_end_concat(a, b.drop_last(), k);
    } else {
        assert(a + b =~= a);
    }
    lemma_tail_len(b, k);
    assert(trim_end(a + b, k) =~= a + trim_end(b, k));
}

/// Adding a character behind a text keeps its leading run of `k`, unless
/// the text is all of `k`.
pub proof fn lemma_lead_len_push(y: Seq<char>, c: char, k: CharClass)
    ensures
        lead_len(y, k) < y.len() ==> lead_len(y.push(c), k) == lead_len(y, k),
        lead_len(y, k) == y.len() && in_class(k, c) ==> lead_len(y.push(c), k) == y.len() + 1,
    decreases y.len(),
{
    lemma_lead_len(y, k);
    if y.len() > 0 {
        assert(y.push(c).drop_first() =~= y.drop_first().push(c));
        assert(y.push(c)[0] == y[0]);
        lemma_lead_len_push(y.drop_first(), c, k);
    } else {
        assert(y.push(c).drop_first() =~= Seq::<char>::empty());
        assert(lead_len(y.push(c).drop_first(), k) == 0);
        assert(y.push(c)[0] == c);
    }
}

/// A trailing carriage return is whitespace, so `trim` does not see it.
pub proof fn lemma_trim_strip_cr(x: Seq<char>)
    ensures
        trim(strip_cr(x), CharClass::Whitespace) == trim(x, CharClass::Whitespace),
{
    let k = CharClass::Whitespace;
    if x.len() > 0 && x.last() == '\r' {
        let y = x.drop_last();
        assert(x =~= y.push('\r'));
        lemma_lead_len(y, k);
        lemma_lead_len_push(y, '\r', k);
        if lead_len(y, k) < y.len() {
            let z = trim_start(y, k);
            assert(trim_start(x, k) =~= z.push('\r'));
            assert(z.push('\r').drop_last() =~= z);
            assert(tail_len(z.push('\r'), k) == 1 + tail_len(z, k));
            lemma_tail_len(z, k);
            assert(trim_end(z.push('\r'), k) =~= trim_end(z, k));
        } else {
            assert(trim_start(x, k) =~= Seq::<char>::empty());
            assert(trim_start(y, k) =~= Seq::<char>::empty());
        }
    }
}

/// No line holds a newline.
pub proof fn lemma_lines_no_newline(s: Seq<char>)
    ensures
        forall|k: int| 0 <= k < lines(s).len() ==> !(#[trigger] lines(s)[k]).contains('\n'),
    decreases s.len(),
{
    if s.len() > 0 {
        let n = run_len(s, CharClass::Exactly('\n'));
        lemma_run_len(s, CharClass::Exactly('\n'));
        if n >= s.len() {
            assert(lines(s) =~= seq![s]);
            assert(!s.contains('\n')) by {
                if s.contains('\n') {
                    let t = choose|t: int| 0 <= t < s.len() && s[t] == '\n';
                    assert(!in_class(CharClass::Exactly('\n'), s[t]));
                }
            }
        } else {
            let head = s.take(n as int);
            let rest = s.skip(n as int + 1);
            lemma_lines_no_newline(rest);
            assert(!strip_cr(head).contains('\n')) by {
                if strip_cr(head).contains('\n') {
                    let t = choose|t: int| 0 <= t < strip_cr(head).len() && strip_cr(head)[t] == '\n';
                    assert(strip_cr(head)[t] == s[t]);
                    assert(!in_class(CharClass::Exactly('\n'), s[t]));
                }
            }
            assert forall|k: int| 0 <= k < lines(s).len() implies !(#[trigger] lines(s)[k]).contains(
                '\n',
            ) by {
                if k > 0 {
                    assert(lines(s)[k] == lines(rest)[k - 1]);
                }
            }
        }
    }
}

/// The lines of lines joined by `\n`: each but the last comes back without a
/// trailing carriage return, and the last comes back as it is unless it is
/// empty.
pub proof fn lemma_lines_of_join(ls: Seq<Seq<char>>)
    requires
        ls.len() > 0,
        forall|k: int| 0 <= k < ls.len() ==> !(#[trigger] ls[k]).contains('\n'),
    ensures
        lines(join(ls, "\n"@)).len() + 1 >= ls.len(),
        forall|k: int|
            0 <= k < ls.len() - 1 ==> #[trigger] lines(join(ls, "\n"@))[k] == strip_cr(ls[k]),
        ls.last().len() > 0 ==> lines(join(ls, "\n"@)).len() == ls.len() && lines(
            join(ls, "\n"@),
        )[ls.len() - 1] == ls.last(),
    decreases ls.len(),
{
    reveal_strlit("\n");
    let nl = CharClass::Exactly('\n');
    let a = ls[0];
    assert(!a.contains('\n'));
    assert forall|t: int| 0 <= t < a.len() implies !in_class(nl, #[trigger] a[t]) by {
        if a[t] == '\n' {
            assert(a.contains('\n'));
        }
    }
    if ls.len() == 1 {
        assert(join(ls, "\n"@) == a);
        if a.len() > 0 {
            lemma_run_len_concat(a, Seq::<char>::empty(), nl);
            assert(a + Seq::<char>::empty() =~= a);
            assert(lines(a) =~= seq![a]);
        }
    } else {
        let rest = ls.drop_first();
        assert forall|k: int| 0 <= k < rest.len() implies !(#[trigger] rest[k]).contains('\n') by {
            assert(rest[k] == ls[k + 1]);
        }
        lemma_lines_of_join(rest);
        assert(ls =~= seq![a] + rest);
        lemma_join_prepend(a, rest, "\n"@);
        let j = join(rest, "\n"@);
        let s = join(ls, "\n"@);
        assert(s =~= a + ("\n"@ + j));
        lemma_run_len_concat(a, "\n"@ + j, nl);
        assert(("\n"@ + j)[0] == '\n');
        assert(run_len("\n"@ + j, nl) == 0);
        assert(s.take(a.len() as int) =~= a);
        assert(s.skip(a.len() as int + 1) =~= j);
        assert(lines(s) == seq![strip_cr(a)] + lines(j));
        assert forall|k: int| 0 <= k < ls.len() - 1 implies #[trigger] lines(s)[k] == strip_cr(
            ls[k],
        ) by {
            if k > 0 {
                assert(lines(s)[k] == lines(j)[k - 1]);
                assert(rest[k - 1] == ls[k]);
            }
        }
        if ls.last().len() > 0 {
            assert(rest.last() == ls.last());
            assert(lines(s)[ls.len() - 1] == lines(j)[rest.len() - 1]);
        }
    }
}

/// A text that occurs somewhere is found.
pub proof fn lemma_occurs_has_text(s: Seq<char>, p: Seq<char>, j: int)
    requires
        occurs_at(s, p, j),
    ensures
        has_text(s, p),
{
    lemma_find_from(s, p, 0);
}

/// An occurrence stays where it is when text is added behind, and moves by
/// the added length when text is added in front.
pub proof fn lemma_occurs_concat(a: Seq<char>, b: Seq<char>, p: Seq<char>, j: int)
    ensures
        occurs_at(a, p, j) ==> occurs_at(a + b, p, j),
        occurs_at(b, p, j) ==> occurs_at(a + b, p, a.len() + j),
{
    if occurs_at(a, p, j) {
        assert((a + b).subrange(j, j + p.len()) =~= a.subrange(j, j + p.len()));
    }
    if occurs_at(b, p, j) {
        assert((a + b).subrange(a.len() + j, a.len() + j + p.len()) =~= b.subrange(j, j + p.len()));
    }
}

/// Every part occurs in the parts joined by a separator.
pub proof fn lemma_join_contains(parts: Seq<Seq<char>>, sep: Seq<char>, i: int)
    requires
        0 <= i < parts.len(),
    ensures
        has_text(join(parts, sep), parts[i]),
    decreases parts.len(),
{
    let p = parts[i];
    assert(occurs_at(p, p, 0)) by {
        assert(p.subrange(0, p.len() as int) =~= p);
    }
    if parts.len() == 1 {
        lemma_occurs_has_text(p, p, 0);
    } else {
        let front = join(parts.drop_last(), sep);
        if i == parts.len() - 1 {
            lemma_occurs_concat(front + sep, p, p, 0);
            lemma_occurs_has_text(front + sep + p, p, (front + sep).len() as int);
        } else {
            assert(parts.drop_last()[i] == p);
            lemma_join_contains(parts.drop_last(), sep, i);
            lemma_find_from(front, p, 0);
            let j = find(front, p).unwrap();
            lemma_occurs_concat(front, sep, p, j);
            lemma_occurs_concat(front + sep, parts.last(), p, j);
            lemma_occurs_has_text(front + sep + parts.last(), p, j);
        }
    }
}

} // verus!
