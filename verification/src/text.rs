//! Text as sequences of characters: trimming, searching, splitting and joining.
//!
//! The functions work on slices of characters. `chars_of` and `text_of` lead from and to
//! strings.
use vstd::prelude::*;
use vstd::utf8::is_ascii_chars;

verus! {

broadcast use vstd::seq_lib::group_seq_properties;

/// Whether `c` has the Unicode property White_Space.
pub open spec fn is_white_space(c: char) -> bool {
    let v = c as u32;
    ||| 0x09 <= v <= 0x0d
    ||| v == 0x20
    ||| v == 0x85
    ||| v == 0xa0
    ||| v == 0x1680
    ||| 0x2000 <= v <= 0x200a
    ||| v == 0x2028
    ||| v == 0x2029
    ||| v == 0x202f
    ||| v == 0x205f
    ||| v == 0x3000
}

/// `char::is_whitespace` of std tells whether a character has the Unicode property White_Space;
/// the property's characters are those that [`is_white_space`] lists.
pub assume_specification[ char::is_whitespace ](c: char) -> (r: bool)
    ensures
        r == is_white_space(c),
;

/// `String::push` of std appends one character.
pub assume_specification[ String::push ](s: &mut String, c: char)
    ensures
        final(s)@ == old(s)@.push(c),
;

/// The lowercase form, by Unicode's case mapping, of a text that is not all ASCII.
pub uninterp spec fn unicode_lowercase(s: Seq<char>) -> Seq<char>;

/// The lowercase form of a text.
pub open spec fn lowercase(s: Seq<char>) -> Seq<char> {
    if is_ascii_chars(s) {
        fold_case(s)
    } else {
        unicode_lowercase(s)
    }
}

/// `str::to_lowercase` of std maps a text to lowercase by Unicode's rules, which depends on the
/// text alone. On a text of ASCII characters these rules map `A` to `Z` and nothing else.
pub assume_specification[ str::to_lowercase ](s: &str) -> (r: String)
    ensures
        r@ == (if is_ascii_chars(s@) {
            fold_case(s@)
        } else {
            unicode_lowercase(s@)
        }),
;

/// The characters of a string.
pub(crate) fn chars_of(s: &str) -> (r: Vec<char>)
    ensures
        r@ == s@,
{
    let mut out: Vec<char> = Vec::new();
    for c in it: s.chars()
        invariant
            it.seq() == s@,
            out@ == s@.take(it.index() as int),
    {
        out.push(c);
    }
    out
}

/// The string of a run of characters.
pub(crate) fn text_of(cs: &[char]) -> (r: String)
    ensures
        r@ == cs@,
{
    let mut out = String::new();
    for i in 0..cs.len()
        invariant
            out@ == cs@.take(i as int),
    {
        out.push(cs[i]);
    }
    out
}

/// A copy of a string.
pub(crate) fn copy_of(s: &str) -> (r: String)
    ensures
        r@ == s@,
{
    s.to_owned()
}

/// The views of a list of strings.
pub open spec fn texts(v: Seq<String>) -> Seq<Seq<char>> {
    v.map_values(|s: String| s@)
}

/// The view of a string that may be missing.
pub open spec fn maybe_text(s: Option<String>) -> Option<Seq<char>> {
    match s {
        Some(t) => Some(t@),
        None => None,
    }
}

/// The views of a list of character slices.
pub open spec fn runs(v: Seq<&[char]>) -> Seq<Seq<char>> {
    v.map_values(|s: &[char]| s@)
}

/// A copy of a list of strings.
pub(crate) fn copy_all(list: &Vec<String>) -> (r: Vec<String>)
    ensures
        texts(r@) == texts(list@),
{
    let mut out: Vec<String> = Vec::new();
    for i in 0..list.len()
        invariant
            texts(out@) == texts(list@).take(i as int),
    {
        let ghost before = out@;
        out.push(copy_of(list[i].as_str()));
        assert(texts(out@) == texts(before).push(list@[i as int]@));
        assert(texts(list@).take(i + 1) == texts(list@).take(i as int).push(list@[i as int]@));
    }
    out
}

/// Whether two runs of characters are equal.
pub(crate) fn same(a: &[char], b: &[char]) -> (r: bool)
    ensures
        r == (a@ == b@),
{
    if a.len() != b.len() {
        return false;
    }
    for i in 0..a.len()
        invariant
            a@.len() == b@.len(),
            a@.take(i as int) == b@.take(i as int),
    {
        if a[i] != b[i] {
            return false;
        }
        assert(a@.take(i + 1) == a@.take(i as int).push(a@[i as int]));
        assert(b@.take(i + 1) == b@.take(i as int).push(b@[i as int]));
    }
    true
}

/// Whether two strings are equal.
pub(crate) fn same_text(a: &str, b: &str) -> (r: bool)
    ensures
        r == (a@ == b@),
{
    same(chars_of(a).as_slice(), chars_of(b).as_slice())
}

// ---------------------------------------------------------------------------------------------
// Letter case
// ---------------------------------------------------------------------------------------------

/// `c`, with `A` to `Z` mapped to `a` to `z`.
pub open spec fn ascii_lower(c: char) -> char {
    if 'A' <= c <= 'Z' {
        (c as u32 + 32) as char
    } else {
        c
    }
}

/// `s` with `A` to `Z` mapped to `a` to `z`.
pub open spec fn fold_case(s: Seq<char>) -> Seq<char> {
    s.map_values(|c: char| ascii_lower(c))
}

/// Whether `a` and `b` differ at most in the case of ASCII letters.
pub open spec fn same_ignoring_case(a: Seq<char>, b: Seq<char>) -> bool {
    fold_case(a) == fold_case(b)
}

fn lower(c: char) -> (r: char)
    ensures
        r == ascii_lower(c),
{
    if 'A' <= c && c <= 'Z' {
        ((c as u8) + 32) as char
    } else {
        c
    }
}

/// Whether two runs of characters differ at most in the case of ASCII letters.
pub(crate) fn eq_ignore_case(a: &[char], b: &[char]) -> (r: bool)
    ensures
        r == same_ignoring_case(a@, b@),
{
    if a.len() != b.len() {
        assert(fold_case(a@).len() != fold_case(b@).len());
        return false;
    }
    for i in 0..a.len()
        invariant
            a@.len() == b@.len(),
            forall|j: int| 0 <= j < i ==> ascii_lower(#[trigger] a@[j]) == ascii_lower(b@[j]),
    {
        if lower(a[i]) != lower(b[i]) {
            assert(fold_case(a@)[i as int] != fold_case(b@)[i as int]);
            return false;
        }
    }
    assert(fold_case(a@) =~= fold_case(b@));
    true
}

/// Whether two strings differ at most in the case of ASCII letters.
pub(crate) fn eq_ignore_case_text(a: &str, b: &str) -> (r: bool)
    ensures
        r == same_ignoring_case(a@, b@),
{
    eq_ignore_case(chars_of(a).as_slice(), chars_of(b).as_slice())
}

// ---------------------------------------------------------------------------------------------
// Trimming
// ---------------------------------------------------------------------------------------------

/// The sets of characters that text is trimmed of.
#[derive(Clone, Copy)]
pub enum Class {
    /// Characters with the Unicode property White_Space.
    White,
    /// `<` and `>`.
    Angle,
    /// `>`.
    CloseAngle,
    /// The double quote.
    Quote,
    /// Space, tab and carriage return.
    Blank,
}

/// Whether `c` belongs to the set.
pub open spec fn in_class(k: Class, c: char) -> bool {
    match k {
        Class::White => is_white_space(c),
        Class::Angle => c == '<' || c == '>',
        Class::CloseAngle => c == '>',
        Class::Quote => c == '"',
        Class::Blank => c == ' ' || c == '\t' || c == '\r',
    }
}

fn belongs(k: Class, c: char) -> (r: bool)
    ensures
        r == in_class(k, c),
{
    match k {
        Class::White => c.is_whitespace(),
        Class::Angle => c == '<' || c == '>',
        Class::CloseAngle => c == '>',
        Class::Quote => c == '"',
        Class::Blank => c == ' ' || c == '\t' || c == '\r',
    }
}

/// `s` without the characters of the set that it begins with.
pub open spec fn trimmed_start(s: Seq<char>, k: Class) -> Seq<char>
    decreases s.len(),
{
    if s.len() > 0 && in_class(k, s[0]) {
        trimmed_start(s.skip(1), k)
    } else {
        s
    }
}

/// `s` without the characters of the set that it ends with.
pub open spec fn trimmed_end(s: Seq<char>, k: Class) -> Seq<char>
    decreases s.len(),
{
    if s.len() > 0 && in_class(k, s.last()) {
        trimmed_end(s.drop_last(), k)
    } else {
        s
    }
}

/// `s` without the characters of the set at either end.
pub open spec fn trimmed(s: Seq<char>, k: Class) -> Seq<char> {
    trimmed_end(trimmed_start(s, k), k)
}

/// `s` without white space at either end.
pub open spec fn trim(s: Seq<char>) -> Seq<char> {
    trimmed(s, Class::White)
}

/// A text that is visible at both ends is not changed by trimming.
pub proof fn lemma_trim_visible(s: Seq<char>)
    requires
        s.len() > 0,
        '!' <= s[0] <= '~',
        '!' <= s.last() <= '~',
    ensures
        trim(s) == s,
{
}

/// Whether `s` holds nothing but white space.
pub open spec fn is_blank(s: Seq<char>) -> bool {
    forall|i: int| 0 <= i < s.len() ==> is_white_space(#[trigger] s[i])
}

pub(crate) fn trim_start_of(s: &[char], k: Class) -> (r: &[char])
    ensures
        r@ == trimmed_start(s@, k),
{
    let mut i: usize = 0;
    while i < s.len() && belongs(k, s[i])
        invariant
            i <= s@.len(),
            trimmed_start(s@, k) == trimmed_start(s@.skip(i as int), k),
        decreases s@.len() - i,
    {
        assert(s@.skip(i as int).skip(1) == s@.skip(i + 1));
        i += 1;
    }
    assert(s@.subrange(i as int, s@.len() as int) == s@.skip(i as int));
    &s[i..s.len()]
}

pub(crate) fn trim_end_of(s: &[char], k: Class) -> (r: &[char])
    ensures
        r@ == trimmed_end(s@, k),
{
    let mut n: usize = s.len();
    while n > 0 && belongs(k, s[n - 1])
        invariant
            n <= s@.len(),
            trimmed_end(s@, k) == trimmed_end(s@.take(n as int), k),
        decreases n,
    {
        assert(s@.take(n as int).drop_last() == s@.take(n - 1));
        n -= 1;
    }
    assert(s@.subrange(0, n as int) == s@.take(n as int));
    &s[0..n]
}

pub(crate) fn trim_of(s: &[char], k: Class) -> (r: &[char])
    ensures
        r@ == trimmed(s@, k),
{
    trim_end_of(trim_start_of(s, k), k)
}

/// The string without white space at either end.
pub(crate) fn trim_text(s: &str) -> (r: String)
    ensures
        r@ == trim(s@),
{
    text_of(trim_of(chars_of(s).as_slice(), Class::White))
}

/// Whether the string holds nothing but white space.
pub(crate) fn blank(s: &str) -> (r: bool)
    ensures
        r == is_blank(s@),
{
    let cs = chars_of(s);
    for i in 0..cs.len()
        invariant
            cs@ == s@,
            forall|j: int| 0 <= j < i ==> is_white_space(#[trigger] s@[j]),
    {
        if !cs[i].is_whitespace() {
            return false;
        }
    }
    true
}

// ---------------------------------------------------------------------------------------------
// Searching and splitting
// ---------------------------------------------------------------------------------------------

/// The place of the first `c` in `s`; the length of `s` where there is none.
pub open spec fn first_of(s: Seq<char>, c: char) -> int
    decreases s.len(),
{
    if s.len() == 0 || s[0] == c {
        0
    } else {
        1 + first_of(s.skip(1), c)
    }
}

/// The place of the last `c` in `s`; -1 where there is none.
pub open spec fn last_of(s: Seq<char>, c: char) -> int
    decreases s.len(),
{
    if s.len() == 0 || s.last() == c {
        s.len() - 1
    } else {
        last_of(s.drop_last(), c)
    }
}

/// What [`first_of`] is: nothing before it is `c`, and it is either the end or a `c`.
pub proof fn lemma_first_of(s: Seq<char>, c: char)
    ensures
        0 <= first_of(s, c) <= s.len(),
        forall|j: int| 0 <= j < first_of(s, c) ==> s[j] != c,
        first_of(s, c) < s.len() ==> s[first_of(s, c)] == c,
        first_of(s, c) < s.len() <==> s.contains(c),
    decreases s.len(),
{
    if s.len() > 0 && s[0] != c {
        lemma_first_of(s.skip(1), c);
        assert forall|j: int| 0 <= j < first_of(s, c) implies s[j] != c by {
            if j > 0 {
                assert(s.skip(1)[j - 1] == s[j]);
            }
        }
        if s.contains(c) {
            let i = choose|i: int| 0 <= i < s.len() && s[i] == c;
            assert(s.skip(1)[i - 1] == c);
        }
    }
}

/// Only one place is [`first_of`].
pub proof fn lemma_first_of_is(s: Seq<char>, c: char, i: int)
    requires
        0 <= i <= s.len(),
        forall|j: int| 0 <= j < i ==> s[j] != c,
        i < s.len() ==> s[i] == c,
    ensures
        first_of(s, c) == i,
{
    lemma_first_of(s, c);
    if first_of(s, c) < i {
        assert(s[first_of(s, c)] != c);
    }
}

pub(crate) fn find_char(s: &[char], c: char) -> (r: usize)
    ensures
        r == first_of(s@, c),
        r <= s@.len(),
{
    let mut i: usize = 0;
    while i < s.len() && s[i] != c
        invariant
            i <= s@.len(),
            forall|j: int| 0 <= j < i ==> s@[j] != c,
        decreases s@.len() - i,
    {
        i += 1;
    }
    proof {
        lemma_first_of_is(s@, c, i as int);
    }
    i
}

/// Whether the string holds the character.
pub(crate) fn has_char(s: &str, c: char) -> (r: bool)
    ensures
        r == s@.contains(c),
{
    holds_char(chars_of(s).as_slice(), c)
}

pub(crate) fn holds_char(s: &[char], c: char) -> (r: bool)
    ensures
        r == s@.contains(c),
{
    proof {
        lemma_first_of(s@, c);
    }
    find_char(s, c) < s.len()
}

pub(crate) fn rfind_char(s: &[char], c: char) -> (r: Option<usize>)
    ensures
        match r {
            Some(i) => i == last_of(s@, c) && i < s@.len(),
            None => last_of(s@, c) == -1,
        },
{
    let mut n: usize = s.len();
    while n > 0
        invariant
            n <= s@.len(),
            last_of(s@, c) == last_of(s@.take(n as int), c),
        decreases n,
    {
        if s[n - 1] == c {
            return Some(n - 1);
        }
        assert(s@.take(n as int).drop_last() == s@.take(n - 1));
        n -= 1;
    }
    None
}

/// The parts of `s` before and after its first `c`.
pub open spec fn split_once(s: Seq<char>, c: char) -> Option<(Seq<char>, Seq<char>)> {
    let i = first_of(s, c);
    if i < s.len() {
        Some((s.take(i), s.skip(i + 1)))
    } else {
        None
    }
}

pub(crate) fn split_once_at<'a>(s: &'a [char], c: char) -> (r: Option<(&'a [char], &'a [char])>)
    ensures
        match r {
            Some(p) => split_once(s@, c) == Some((p.0@, p.1@)),
            None => split_once(s@, c) is None,
        },
{
    let i = find_char(s, c);
    if i < s.len() {
        assert(s@.subrange(0, i as int) == s@.take(i as int));
        assert(s@.subrange(i + 1, s@.len() as int) == s@.skip(i + 1));
        Some((&s[0..i], &s[i + 1..s.len()]))
    } else {
        None
    }
}

/// The parts of `s` between its `c`s.
pub open spec fn split(s: Seq<char>, c: char) -> Seq<Seq<char>>
    decreases s.len(),
{
    proof {
        lemma_first_of(s, c);
    }
    let i = first_of(s, c);
    if i < s.len() {
        seq![s.take(i)] + split(s.skip(i + 1), c)
    } else {
        seq![s]
    }
}

pub(crate) fn split_at_each<'a>(s: &'a [char], c: char) -> (r: Vec<&'a [char]>)
    ensures
        runs(r@) == split(s@, c),
{
    let mut out: Vec<&'a [char]> = Vec::new();
    let mut rest: &'a [char] = s;
    loop
        invariant_except_break
            split(s@, c) == runs(out@) + split(rest@, c),
        ensures
            split(s@, c) == runs(out@),
        decreases rest@.len(),
    {
        let ghost before = out@;
        let i = find_char(rest, c);
        if i < rest.len() {
            let head: &'a [char] = &rest[0..i];
            assert(head@ == rest@.take(i as int));
            let tail: &'a [char] = &rest[i + 1..rest.len()];
            assert(tail@ == rest@.skip(i + 1));
            out.push(head);
            assert(runs(out@) == runs(before).push(head@));
            rest = tail;
        } else {
            out.push(rest);
            assert(runs(out@) == runs(before).push(rest@));
            break;
        }
    }
    out
}

/// `l` without a carriage return at its end.
pub open spec fn without_cr(l: Seq<char>) -> Seq<char> {
    if l.len() > 0 && l.last() == '\r' {
        l.drop_last()
    } else {
        l
    }
}

/// The lines of `s`: what stands before each line feed, without a carriage return before it,
/// and what stands after the last line feed, unless that is nothing.
pub open spec fn lines(s: Seq<char>) -> Seq<Seq<char>>
    decreases s.len(),
{
    proof {
        lemma_first_of(s, '\n');
    }
    let i = first_of(s, '\n');
    if s.len() == 0 {
        Seq::empty()
    } else if i < s.len() {
        seq![without_cr(s.take(i))] + lines(s.skip(i + 1))
    } else {
        seq![s]
    }
}

pub(crate) fn lines_of<'a>(s: &'a [char]) -> (r: Vec<&'a [char]>)
    ensures
        runs(r@) == lines(s@),
{
    let mut out: Vec<&'a [char]> = Vec::new();
    let mut rest: &'a [char] = s;
    while rest.len() > 0
        invariant
            lines(s@) == runs(out@) + lines(rest@),
        decreases rest@.len(),
    {
        let ghost before = out@;
        let i = find_char(rest, '\n');
        if i < rest.len() {
            let n: usize = if i > 0 && rest[i - 1] == '\r' {
                i - 1
            } else {
                i
            };
            let head: &'a [char] = &rest[0..n];
            assert(head@ == without_cr(rest@.take(i as int)));
            let tail: &'a [char] = &rest[i + 1..rest.len()];
            assert(tail@ == rest@.skip(i + 1));
            out.push(head);
            assert(runs(out@) == runs(before).push(head@));
            rest = tail;
        } else {
            let tail: &'a [char] = &rest[0..0];
            out.push(rest);
            assert(runs(out@) == runs(before).push(rest@));
            rest = tail;
        }
    }
    out
}

/// Whether the text `pat` stands in `s` at place `i`.
pub open spec fn stands_at(s: Seq<char>, pat: Seq<char>, i: int) -> bool {
    0 <= i <= s.len() - pat.len() && s.subrange(i, i + pat.len()) == pat
}

/// Whether the text `pat` occurs in `s`.
pub open spec fn has_text(s: Seq<char>, pat: Seq<char>) -> bool {
    exists|i: int| stands_at(s, pat, i)
}

/// The first place at which the text `pat` stands in `s`.
pub open spec fn find(s: Seq<char>, pat: Seq<char>) -> Option<int>
    decreases s.len(),
{
    if pat.is_prefix_of(s) {
        Some(0)
    } else if s.len() == 0 {
        None
    } else {
        match find(s.skip(1), pat) {
            Some(i) => Some(i + 1),
            None => None,
        }
    }
}

/// What [`find`] is: `pat` stands there, and at no place before.
pub proof fn lemma_find(s: Seq<char>, pat: Seq<char>)
    ensures
        match find(s, pat) {
            Some(i) => stands_at(s, pat, i) && forall|j: int| j < i ==> !stands_at(s, pat, j),
            None => forall|j: int| !stands_at(s, pat, j),
        },
        find(s, pat) is Some <==> has_text(s, pat),
    decreases s.len(),
{
    if pat.is_prefix_of(s) {
        assert(stands_at(s, pat, 0));
    } else {
        if stands_at(s, pat, 0) {
            assert(s.subrange(0, pat.len() as int) == pat);
        }
        if s.len() > 0 {
            let t = s.skip(1);
            lemma_find(t, pat);
            assert forall|j: int| stands_at(s, pat, j) implies stands_at(t, pat, j - 1) by {
                assert(j != 0);
                assert(t.subrange(j - 1, j - 1 + pat.len()) == s.subrange(j, j + pat.len()));
            }
            if let Some(i) = find(t, pat) {
                assert(s.subrange(i + 1, i + 1 + pat.len()) == t.subrange(i, i + pat.len()));
                assert(stands_at(s, pat, i + 1));
            }
        }
    }
}

/// Only one place is [`find`].
pub proof fn lemma_find_is(s: Seq<char>, pat: Seq<char>, i: int)
    requires
        stands_at(s, pat, i),
        forall|j: int| 0 <= j < i ==> !stands_at(s, pat, j),
    ensures
        find(s, pat) == Some(i),
{
    lemma_find(s, pat);
}

fn matches_at(s: &[char], pat: &[char], i: usize) -> (r: bool)
    requires
        i <= s@.len(),
    ensures
        r == stands_at(s@, pat@, i as int),
{
    if s.len() - i < pat.len() {
        return false;
    }
    for k in 0..pat.len()
        invariant
            i + pat.len() <= s.len(),
            forall|j: int| 0 <= j < k ==> s@[i + j] == pat@[j],
    {
        if s[i + k] != pat[k] {
            assert(s@.subrange(i as int, i + pat@.len())[k as int] != pat@[k as int]);
            return false;
        }
    }
    assert(s@.subrange(i as int, i + pat@.len()) =~= pat@);
    true
}

pub(crate) fn find_text(s: &[char], pat: &[char]) -> (r: Option<usize>)
    ensures
        match r {
            Some(i) => find(s@, pat@) == Some(i as int) && i + pat@.len() <= s@.len(),
            None => find(s@, pat@) is None,
        },
{
    let mut i: usize = 0;
    while i < s.len()
        invariant
            i <= s@.len(),
            forall|j: int| 0 <= j < i ==> !stands_at(s@, pat@, j),
        decreases s@.len() - i,
    {
        if matches_at(s, pat, i) {
            proof {
                lemma_find_is(s@, pat@, i as int);
            }
            return Some(i);
        }
        i += 1;
    }
    if matches_at(s, pat, i) {
        proof {
            lemma_find_is(s@, pat@, i as int);
        }
        return Some(i);
    }
    proof {
        lemma_find(s@, pat@);
    }
    None
}

/// Whether the text `pat` occurs in the string.
pub(crate) fn contains(s: &[char], pat: &[char]) -> (r: bool)
    ensures
        r == has_text(s@, pat@),
{
    proof {
        lemma_find(s@, pat@);
    }
    find_text(s, pat).is_some()
}

/// Whether the text `pat` occurs in the string.
pub(crate) fn contains_text(s: &str, pat: &str) -> (r: bool)
    ensures
        r == has_text(s@, pat@),
{
    contains(chars_of(s).as_slice(), chars_of(pat).as_slice())
}

pub(crate) fn starts_with(s: &[char], pat: &[char]) -> (r: bool)
    ensures
        r == pat@.is_prefix_of(s@),
{
    matches_at(s, pat, 0)
}

pub(crate) fn ends_with(s: &[char], pat: &[char]) -> (r: bool)
    ensures
        r == pat@.is_suffix_of(s@),
{
    if pat.len() > s.len() {
        return false;
    }
    matches_at(s, pat, s.len() - pat.len())
}

/// Whether the string begins with `pat`.
pub(crate) fn starts_with_text(s: &str, pat: &str) -> (r: bool)
    ensures
        r == pat@.is_prefix_of(s@),
{
    starts_with(chars_of(s).as_slice(), chars_of(pat).as_slice())
}

/// The parts of `s` before and after the first place at which the text `pat` stands.
pub open spec fn split_once_text(s: Seq<char>, pat: Seq<char>) -> Option<(Seq<char>, Seq<char>)> {
    match find(s, pat) {
        Some(i) => Some((s.take(i), s.skip(i + pat.len()))),
        None => None,
    }
}

// ---------------------------------------------------------------------------------------------
// Empty lines
// ---------------------------------------------------------------------------------------------

/// Whether the line feed at place `i` of `s` is followed by an empty line: by another line feed,
/// or by a carriage return and a line feed.
pub open spec fn is_gap(s: Seq<char>, i: int) -> bool {
    &&& 0 <= i < s.len() - 1
    &&& s[i] == '\n'
    &&& s[i + 1] == '\n' || (i + 2 < s.len() && s[i + 1] == '\r' && s[i + 2] == '\n')
}

/// Whether an empty line follows some line of `s`.
pub open spec fn has_empty_line(s: Seq<char>) -> bool {
    exists|i: int| is_gap(s, i)
}

/// From `i` on, the first line feed of `s` that an empty line follows; the length of `s` where
/// there is none.
pub open spec fn next_gap(s: Seq<char>, i: int) -> int
    decreases s.len() - i,
{
    if i >= s.len() {
        s.len() as int
    } else if is_gap(s, i) {
        i
    } else {
        next_gap(s, i + 1)
    }
}

/// What [`next_gap`] is: a line feed that an empty line follows, with none before it.
pub proof fn lemma_next_gap(s: Seq<char>, i: int)
    requires
        0 <= i <= s.len(),
    ensures
        i <= next_gap(s, i) <= s.len(),
        next_gap(s, i) < s.len() ==> is_gap(s, next_gap(s, i)),
        forall|j: int| i <= j < next_gap(s, i) ==> !is_gap(s, j),
    decreases s.len() - i,
{
    if i < s.len() && !is_gap(s, i) {
        lemma_next_gap(s, i + 1);
    }
}

/// What stands in `s` before its first empty line, without the end of the line before that; all
/// of `s` where there is none.
pub open spec fn before_gap(s: Seq<char>) -> Seq<char> {
    let i = next_gap(s, 0);
    if i < s.len() {
        without_cr(s.take(i))
    } else {
        s
    }
}

pub(crate) fn before_empty_line<'a>(s: &'a [char]) -> (r: &'a [char])
    ensures
        r@ == before_gap(s@),
{
    let n: usize = s.len();
    for i in 0..n
        invariant
            n == s@.len(),
            next_gap(s@, 0) == next_gap(s@, i as int),
    {
        if s[i] == '\n' && i + 1 < n && (s[i + 1] == '\n' || (i + 2 < n && s[i + 1] == '\r' && s[i
            + 2] == '\n')) {
            let end: usize = if i > 0 && s[i - 1] == '\r' {
                i - 1
            } else {
                i
            };
            let head: &'a [char] = &s[0..end];
            assert(head@ == without_cr(s@.take(i as int)));
            return head;
        }
    }
    s
}

// ---------------------------------------------------------------------------------------------
// Replacing and joining
// ---------------------------------------------------------------------------------------------

/// `s` with `to` in place of each `pat`, taken from left to right without overlap.
pub open spec fn replace(s: Seq<char>, pat: Seq<char>, to: Seq<char>) -> Seq<char>
    recommends
        pat.len() > 0,
    decreases s.len(),
{
    if s.len() == 0 || pat.len() == 0 {
        s
    } else if pat.is_prefix_of(s) {
        to + replace(s.skip(pat.len() as int), pat, to)
    } else {
        seq![s[0]] + replace(s.skip(1), pat, to)
    }
}

pub(crate) fn replace_all(s: &[char], pat: &[char], to: &[char]) -> (r: Vec<char>)
    requires
        pat@.len() > 0,
    ensures
        r@ == replace(s@, pat@, to@),
{
    let mut out: Vec<char> = Vec::new();
    let mut i: usize = 0;
    assert(s@.skip(0) == s@);
    while i < s.len()
        invariant
            i <= s@.len(),
            pat@.len() > 0,
            replace(s@, pat@, to@) == out@ + replace(s@.skip(i as int), pat@, to@),
        decreases s@.len() - i,
    {
        let ghost rest = s@.skip(i as int);
        let ghost done = out@;
        if matches_at(s, pat, i) {
            assert(rest.take(pat@.len() as int) == s@.subrange(i as int, i + pat@.len()));
            assert(pat@.is_prefix_of(rest));
            assert(rest.skip(pat@.len() as int) == s@.skip(i + pat@.len()));
            out.extend_from_slice(to);
            assert(out@ == done + to@);
            i += pat.len();
        } else {
            assert(pat@.is_prefix_of(rest) ==> s@.subrange(i as int, i + pat@.len()) == rest.take(
                pat@.len() as int,
            ));
            assert(rest.skip(1) == s@.skip(i + 1));
            out.push(s[i]);
            assert(out@ == done + seq![rest[0]]);
            i += 1;
        }
    }
    assert(s@.skip(i as int) =~= Seq::empty());
    out
}

/// Replacing leaves the beginning of a text alone as far as the replaced text cannot begin in
/// it.
pub proof fn lemma_replace_beginning(s: Seq<char>, pat: Seq<char>, to: Seq<char>, n: int)
    requires
        pat.len() > 0,
        0 <= n <= s.len(),
        forall|i: int| 0 <= i < n ==> s[i] != pat[0],
    ensures
        replace(s, pat, to).len() >= n,
        replace(s, pat, to).take(n) == s.take(n),
    decreases n,
{
    if n > 0 {
        assert(s[0] != pat[0]);
        assert(!pat.is_prefix_of(s));
        let rest = s.skip(1);
        assert forall|i: int| 0 <= i < n - 1 implies rest[i] != pat[0] by {
            assert(rest[i] == s[i + 1]);
        }
        lemma_replace_beginning(rest, pat, to, n - 1);
        let r = replace(s, pat, to);
        assert(r == seq![s[0]] + replace(rest, pat, to));
        assert(r.take(n) =~= seq![s[0]] + replace(rest, pat, to).take(n - 1));
        assert(s.take(n) =~= seq![s[0]] + rest.take(n - 1));
    } else {
        assert(replace(s, pat, to).take(0) =~= s.take(0));
    }
}

/// A text that the replaced text cannot begin in is not changed.
pub proof fn lemma_replace_whole(s: Seq<char>, pat: Seq<char>, to: Seq<char>)
    requires
        pat.len() > 0,
        forall|i: int| 0 <= i < s.len() ==> s[i] != pat[0],
    ensures
        replace(s, pat, to) == s,
    decreases s.len(),
{
    if s.len() > 0 {
        assert(s[0] != pat[0]);
        let rest = s.skip(1);
        assert forall|i: int| 0 <= i < rest.len() implies rest[i] != pat[0] by {
            assert(rest[i] == s[i + 1]);
        }
        lemma_replace_whole(rest, pat, to);
        assert(seq![s[0]] + rest =~= s);
    }
}

/// Replacing in a text after a beginning that the replaced text cannot begin in.
pub proof fn lemma_replace_after(a: Seq<char>, b: Seq<char>, pat: Seq<char>, to: Seq<char>)
    requires
        pat.len() > 0,
        forall|i: int| 0 <= i < a.len() ==> a[i] != pat[0],
    ensures
        replace(a + b, pat, to) == a + replace(b, pat, to),
    decreases a.len(),
{
    if a.len() == 0 {
        assert(a + b =~= b);
        assert(a + replace(b, pat, to) =~= replace(b, pat, to));
    } else {
        let s = a + b;
        assert(a[0] != pat[0]);
        assert(s[0] == a[0]);
        assert(!pat.is_prefix_of(s));
        let rest = a.skip(1);
        assert forall|i: int| 0 <= i < rest.len() implies rest[i] != pat[0] by {
            assert(rest[i] == a[i + 1]);
        }
        lemma_replace_after(rest, b, pat, to);
        assert(s.skip(1) =~= rest + b);
        assert(seq![a[0]] + (rest + replace(b, pat, to)) =~= a + replace(b, pat, to));
    }
}

/// The string with `to` in place of each `pat`.
pub(crate) fn replace_text(s: &str, pat: &str, to: &str) -> (r: String)
    requires
        pat@.len() > 0,
    ensures
        r@ == replace(s@, pat@, to@),
{
    text_of(
        replace_all(
            chars_of(s).as_slice(),
            chars_of(pat).as_slice(),
            chars_of(to).as_slice(),
        ).as_slice(),
    )
}

/// The texts of `list` one after the other, with `sep` between each two.
pub open spec fn join(list: Seq<Seq<char>>, sep: Seq<char>) -> Seq<char>
    decreases list.len(),
{
    if list.len() == 0 {
        Seq::empty()
    } else if list.len() == 1 {
        list[0]
    } else {
        join(list.drop_last(), sep) + sep + list.last()
    }
}

pub(crate) fn join_texts(list: &Vec<String>, sep: &str) -> (r: String)
    ensures
        r@ == join(texts(list@), sep@),
{
    let mut out = String::new();
    let ghost all = texts(list@);
    for i in 0..list.len()
        invariant
            all == texts(list@),
            out@ == join(all.take(i as int), sep@),
    {
        assert(all.take(i + 1).drop_last() == all.take(i as int));
        assert(all.take(i + 1).last() == list@[i as int]@);
        if i > 0 {
            out.append(sep);
        }
        out.append(list[i].as_str());
    }
    assert(all.take(all.len() as int) == all);
    out
}

/// The decimal digits of `n`.
pub open spec fn decimal(n: nat) -> Seq<char>
    decreases n,
{
    if n < 10 {
        seq![(48 + n) as char]
    } else {
        decimal(n / 10).push((48 + n % 10) as char)
    }
}

pub(crate) fn decimal_text(n: u64) -> (r: String)
    ensures
        r@ == decimal(n as nat),
    decreases n,
{
    let mut out = if n < 10 {
        String::new()
    } else {
        decimal_text(n / 10)
    };
    out.push((48 + (n % 10) as u8) as char);
    out
}

} // verus!
