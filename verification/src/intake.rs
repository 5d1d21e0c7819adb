//! Which messages are handed to the parser.
//!
//! On a few kinds of malformed messages the parser does not come back: it subtracts below zero in
//! a quoted-printable part that is nothing but a soft line break, negates the least number in the
//! date of a Received header, and goes down once for each message within a message when it frees
//! what it has read. A message in which any of this may happen is not handed to it. Where that
//! cannot be seen because a message within the message is encoded, it is not handed over either.
use vstd::prelude::*;

use crate::text::chars_of;

verus! {

// ---------------------------------------------------------------------------------------------
// Words
// ---------------------------------------------------------------------------------------------

/// Whether a byte is a space, tab, form feed or carriage return.
pub open spec fn is_blank_byte(b: u8) -> bool {
    b == 32 || b == 9 || b == 12 || b == 13
}

fn blank_byte(b: u8) -> (r: bool)
    ensures
        r == is_blank_byte(b),
{
    b == 32 || b == 9 || b == 12 || b == 13
}

/// Whether a byte is neither blank nor a line feed.
pub open spec fn is_visible_byte(b: u8) -> bool {
    !is_blank_byte(b) && b != 10
}

/// Whether a byte is an ASCII letter.
pub open spec fn is_letter(b: u8) -> bool {
    65 <= b <= 90 || 97 <= b <= 122
}

/// Whether a byte is the character `c`, which is no capital letter, regardless of letter case.
pub open spec fn reads(b: u8, c: char) -> bool {
    (if 65 <= b <= 90 {
        b + 32
    } else {
        b as int
    }) == c as int
}

fn byte_reads(b: u8, c: char) -> (r: bool)
    ensures
        r == reads(b, c),
{
    let small: u32 = if 65 <= b && b <= 90 {
        b as u32 + 32
    } else {
        b as u32
    };
    small == c as u32
}

/// Whether the word `w` stands in `s` at place `k`, regardless of letter case.
pub open spec fn word_at(s: Seq<u8>, w: Seq<char>, k: int) -> bool {
    &&& 0 <= k <= s.len() - w.len()
    &&& forall|j: int| 0 <= j < w.len() ==> reads(s[k + j], #[trigger] w[j])
}

/// Whether the word `w` occurs in `s`, regardless of letter case.
pub open spec fn has_word(s: Seq<u8>, w: Seq<char>) -> bool {
    exists|k: int| word_at(s, w, k)
}

fn holds_word(s: &[u8], w: &str) -> (r: bool)
    ensures
        r == has_word(s@, w@),
{
    let cs = chars_of(w);
    let n: usize = s.len();
    if n < cs.len() {
        return false;
    }
    let last: usize = n - cs.len();
    let mut k: usize = 0;
    loop
        invariant
            cs@ == w@,
            n == s@.len(),
            k <= last,
            last == n - w@.len(),
            forall|i: int| 0 <= i < k ==> !word_at(s@, w@, i),
        decreases last - k,
    {
        let mut j: usize = 0;
        while j < cs.len() && byte_reads(s[k + j], cs[j])
            invariant
                cs@ == w@,
                n == s@.len(),
                k <= last,
                last == n - w@.len(),
                j <= w@.len(),
                forall|i: int| 0 <= i < j ==> reads(s@[k + i], #[trigger] w@[i]),
            decreases w@.len() - j,
        {
            j += 1;
        }
        if j == cs.len() {
            assert(word_at(s@, w@, k as int));
            return true;
        }
        assert(!word_at(s@, w@, k as int)) by {
            assert(!reads(s@[k + j], w@[j as int]));
        }
        if k == last {
            return false;
        }
        k += 1;
    }
}

// ---------------------------------------------------------------------------------------------
// Headers
// ---------------------------------------------------------------------------------------------

/// Whether `s` ends with the word `w`, regardless of letter case and of blanks in and after it. As
/// a whole, nothing else stands before the word on its line.
pub open spec fn ends_in(s: Seq<u8>, w: Seq<char>, whole: bool) -> bool
    decreases s.len(),
{
    if s.len() > 0 && is_blank_byte(s.last()) {
        ends_in(s.drop_last(), w, whole)
    } else if w.len() == 0 {
        !whole || s.len() == 0 || s.last() == 10
    } else {
        s.len() > 0 && reads(s.last(), w.last()) && ends_in(s.drop_last(), w.drop_last(), whole)
    }
}

fn word_before(s: &[u8], end: usize, w: &str, whole: bool) -> (r: bool)
    requires
        end <= s@.len(),
    ensures
        r == ends_in(s@.take(end as int), w@, whole),
{
    let cs = chars_of(w);
    let mut i: usize = end;
    let mut n: usize = cs.len();
    assert(cs@.take(n as int) =~= w@);
    loop
        invariant
            i <= s@.len(),
            n <= cs@.len(),
            ends_in(s@.take(end as int), w@, whole) == ends_in(
                s@.take(i as int),
                cs@.take(n as int),
                whole,
            ),
        decreases i,
    {
        let ghost here = s@.take(i as int);
        if i > 0 && blank_byte(s[i - 1]) {
            assert(here.last() == s@[i - 1]);
            assert(here.drop_last() =~= s@.take(i - 1));
            i -= 1;
        } else if n == 0 {
            assert(i > 0 ==> here.last() == s@[i - 1]);
            return !whole || i == 0 || s[i - 1] == 10;
        } else if i > 0 && byte_reads(s[i - 1], cs[n - 1]) {
            assert(here.last() == s@[i - 1]);
            assert(here.drop_last() =~= s@.take(i - 1));
            assert(cs@.take(n as int).last() == cs@[n - 1]);
            assert(cs@.take(n as int).drop_last() =~= cs@.take(n - 1));
            i -= 1;
            n -= 1;
        } else {
            assert(i > 0 ==> here.last() == s@[i - 1]);
            assert(cs@.take(n as int).last() == cs@[n - 1]);
            return false;
        }
    }
}

/// Whether the colon after a header's name, or after a word that ends like it, stands at place `i`.
pub open spec fn names_header(s: Seq<u8>, i: int, name: Seq<char>) -> bool {
    0 <= i < s.len() && s[i] == 58 && ends_in(s.take(i), name, false)
}

fn header_at(s: &[u8], i: usize, name: &str) -> (r: bool)
    ensures
        r == names_header(s@, i as int, name@),
{
    i < s.len() && s[i] == 58 && word_before(s, i, name, false)
}

/// The end of the line that place `i` belongs to, with the lines that continue it.
pub open spec fn value_end(s: Seq<u8>, i: int) -> int
    decreases s.len() - i,
{
    if i >= s.len() {
        s.len() as int
    } else if s[i] == 10 && !(i + 1 < s.len() && (s[i + 1] == 32 || s[i + 1] == 9)) {
        i
    } else {
        value_end(s, i + 1)
    }
}

/// The value of the header whose colon stands at place `i`.
pub open spec fn value_at(s: Seq<u8>, i: int) -> Seq<u8> {
    s.subrange(i + 1, value_end(s, i + 1))
}

proof fn lemma_value_end(s: Seq<u8>, i: int)
    requires
        0 <= i <= s.len(),
    ensures
        i <= value_end(s, i) <= s.len(),
    decreases s.len() - i,
{
    if i < s.len() {
        lemma_value_end(s, i + 1);
    }
}

fn value_of<'a>(s: &'a [u8], i: usize) -> (r: &'a [u8])
    requires
        i < s@.len(),
    ensures
        r@ == value_at(s@, i as int),
{
    let n: usize = s.len();
    let mut end: usize = i + 1;
    while end < n && !(s[end] == 10 && !(end + 1 < n && (s[end + 1] == 32 || s[end + 1] == 9)))
        invariant
            i < end <= n,
            n == s@.len(),
            value_end(s@, i + 1) == value_end(s@, end as int),
        decreases n - end,
    {
        end += 1;
    }
    &s[i + 1..end]
}

/// Whether a value begins with a letter, after blanks and line feeds.
pub open spec fn begins_with_letter(v: Seq<u8>) -> bool
    decreases v.len(),
{
    v.len() > 0 && (if is_visible_byte(v[0]) {
        is_letter(v[0])
    } else {
        begins_with_letter(v.skip(1))
    })
}

fn letter_first(v: &[u8]) -> (r: bool)
    ensures
        r == begins_with_letter(v@),
{
    let mut i: usize = 0;
    assert(v@.skip(0) =~= v@);
    while i < v.len()
        invariant
            i <= v@.len(),
            begins_with_letter(v@) == begins_with_letter(v@.skip(i as int)),
        decreases v@.len() - i,
    {
        let b: u8 = v[i];
        assert(v@.skip(i as int)[0] == b);
        assert(v@.skip(i as int).skip(1) =~= v@.skip(i + 1));
        if !blank_byte(b) && b != 10 {
            return letter(b);
        }
        i += 1;
    }
    false
}

/// The place of the first byte `b` in `v`; the length of `v` where there is none.
pub open spec fn first_byte(v: Seq<u8>, b: u8, i: int) -> int
    decreases v.len() - i,
{
    if i >= v.len() {
        v.len() as int
    } else if v[i] == b {
        i
    } else {
        first_byte(v, b, i + 1)
    }
}

fn find_byte(v: &[u8], b: u8) -> (r: usize)
    ensures
        r == first_byte(v@, b, 0),
        r <= v@.len(),
{
    let mut i: usize = 0;
    while i < v.len() && v[i] != b
        invariant
            i <= v@.len(),
            first_byte(v@, b, 0) == first_byte(v@, b, i as int),
        decreases v@.len() - i,
    {
        i += 1;
    }
    i
}

/// The part of a Content-Type value that may name the type: what stands before the parameters, or
/// all of it where there are comments.
pub open spec fn type_part(v: Seq<u8>) -> Seq<u8> {
    if first_byte(v, 40, 0) < v.len() {
        v
    } else {
        v.take(first_byte(v, 59, 0))
    }
}

fn type_part_of<'a>(v: &'a [u8]) -> (r: &'a [u8])
    ensures
        r@ == type_part(v@),
{
    if find_byte(v, 40) < v.len() {
        v
    } else {
        let n = find_byte(v, 59);
        assert(v@.subrange(0, n as int) =~= v@.take(n as int));
        &v[0..n]
    }
}

/// Whether a Content-Type value may be that of a message.
pub open spec fn names_message(v: Seq<u8>) -> bool {
    has_word(type_part(v), "message"@) && (has_word(type_part(v), "rfc822"@) || has_word(
        type_part(v),
        "global"@,
    ))
}

fn message_named(v: &[u8]) -> (r: bool)
    ensures
        r == names_message(v@),
{
    let t = type_part_of(v);
    holds_word(t, "message") && (holds_word(t, "rfc822") || holds_word(t, "global"))
}

/// Whether a Content-Type value may be that of a digest, whose parts are messages where nothing else
/// is said of them.
pub open spec fn names_digest(v: Seq<u8>) -> bool {
    has_word(type_part(v), "multipart"@) && has_word(type_part(v), "digest"@)
}

fn digest_named(v: &[u8]) -> (r: bool)
    ensures
        r == names_digest(v@),
{
    let t = type_part_of(v);
    holds_word(t, "multipart") && holds_word(t, "digest")
}

/// Whether a header at place `i` may say that a part is a message.
pub open spec fn is_message_type(s: Seq<u8>, i: int) -> bool {
    names_header(s, i, "content-type"@) && names_message(value_at(s, i))
}

/// Whether a header at place `i` may say that a part is a digest.
pub open spec fn is_digest_type(s: Seq<u8>, i: int) -> bool {
    names_header(s, i, "content-type"@) && names_digest(value_at(s, i))
}

/// Whether a header at place `i` may say that a part is encoded: in base64, in quoted-printable, or
/// in something that is itself written in encoded words.
pub open spec fn is_encoding(s: Seq<u8>, i: int) -> bool {
    names_header(s, i, "content-transfer-encoding"@) && (has_word(value_at(s, i), "base64"@)
        || has_word(value_at(s, i), "quoted-printable"@) || has_word(value_at(s, i), "=?"@))
}

fn message_type_at(s: &[u8], i: usize) -> (r: bool)
    ensures
        r == is_message_type(s@, i as int),
{
    header_at(s, i, "content-type") && message_named(value_of(s, i))
}

fn digest_type_at(s: &[u8], i: usize) -> (r: bool)
    ensures
        r == is_digest_type(s@, i as int),
{
    header_at(s, i, "content-type") && digest_named(value_of(s, i))
}

fn encoding_at(s: &[u8], i: usize) -> (r: bool)
    ensures
        r == is_encoding(s@, i as int),
{
    if !header_at(s, i, "content-transfer-encoding") {
        return false;
    }
    let v = value_of(s, i);
    holds_word(v, "base64") || holds_word(v, "quoted-printable") || holds_word(v, "=?")
}

/// Whether a word begins at place `q`.
pub open spec fn starts_word(s: Seq<u8>, q: int) -> bool {
    0 <= q < s.len() && is_letter(s[q]) && (q == 0 || !is_letter(s[q - 1]))
}

fn letter(b: u8) -> (r: bool)
    ensures
        r == is_letter(b),
{
    (65 <= b && b <= 90) || (97 <= b && b <= 122)
}

fn word_starts(s: &[u8], q: usize) -> (r: bool)
    ensures
        r == starts_word(s@, q as int),
{
    q < s.len() && letter(s[q]) && (q == 0 || !letter(s[q - 1]))
}

/// Whether the header at place `i` is a date with a word of one or two letters right before its
/// end. The parser takes it for a zone of three letters, and the line end for one of them, so that
/// what comes after the line counts to the same headers.
pub open spec fn is_short_zone(s: Seq<u8>, i: int) -> bool {
    names_header(s, i, "date"@) && (starts_word(s, value_end(s, i + 1) - 1) || starts_word(
        s,
        value_end(s, i + 1) - 2,
    ))
}

fn short_zone_at(s: &[u8], i: usize) -> (r: bool)
    ensures
        r == is_short_zone(s@, i as int),
{
    if !header_at(s, i, "date") {
        return false;
    }
    proof {
        lemma_value_end(s@, i + 1);
    }
    let n: usize = s.len();
    let v = value_of(s, i);
    assert(i < n && i + 1 + v@.len() <= n);
    let end: usize = i + 1 + v.len();
    word_starts(s, end - 1) || (end >= 2 && word_starts(s, end - 2))
}

/// Whether a date of a message may make headers go on past an empty line.
pub open spec fn has_short_zone(s: Seq<u8>) -> bool {
    exists|i: int| is_short_zone(s, i)
}

fn holds_short_zone(s: &[u8]) -> (r: bool)
    ensures
        r == has_short_zone(s@),
{
    let mut i: usize = 0;
    while i < s.len()
        invariant
            i <= s@.len(),
            forall|k: int| k < i ==> !is_short_zone(s@, k),
        decreases s@.len() - i,
    {
        if short_zone_at(s, i) {
            return true;
        }
        i += 1;
    }
    false
}

// ---------------------------------------------------------------------------------------------
// Paragraphs
// ---------------------------------------------------------------------------------------------

/// Whether a line feed at place `k` ends an empty line.
pub open spec fn ends_empty_line(s: Seq<u8>, k: int) -> bool {
    &&& 0 <= k < s.len()
    &&& s[k] == 10
    &&& k == 0 || s[k - 1] == 10 || (s[k - 1] == 13 && (k == 1 || s[k - 2] == 10))
}

fn empty_line_at(s: &[u8], k: usize) -> (r: bool)
    ensures
        r == ends_empty_line(s@, k as int),
{
    k < s.len() && s[k] == 10 && (k == 0 || s[k - 1] == 10 || (s[k - 1] == 13 && (k == 1 || s[k - 2]
        == 10)))
}

/// Whether a line feed at place `k` ends a line of blanks, or an empty one.
pub open spec fn ends_blank_line(s: Seq<u8>, k: int) -> bool {
    0 <= k < s.len() && s[k] == 10 && ends_in(s.take(k), seq![], true)
}

fn blank_line_at(s: &[u8], k: usize) -> (r: bool)
    ensures
        r == ends_blank_line(s@, k as int),
{
    proof {
        reveal_strlit("");
        assert(""@ =~= seq![]);
    }
    k < s.len() && s[k] == 10 && word_before(s, k, "", true)
}

/// Where the run of lines before place `i` begins that has no empty line in it.
pub open spec fn section_start(s: Seq<u8>, i: int) -> int
    decreases i,
{
    if i <= 0 {
        0
    } else if ends_empty_line(s, i - 1) {
        i
    } else {
        section_start(s, i - 1)
    }
}

fn section_from(s: &[u8], i: usize) -> (r: usize)
    ensures
        r == section_start(s@, i as int),
        r <= i,
{
    let mut k: usize = i;
    while k > 0 && !empty_line_at(s, k - 1)
        invariant
            k <= i,
            section_start(s@, i as int) == section_start(s@, k as int),
        decreases k,
    {
        k -= 1;
    }
    k
}

/// Where the run of lines from place `i` on ends that has no empty line in it.
pub open spec fn section_end(s: Seq<u8>, i: int) -> int
    decreases s.len() - i,
{
    if i >= s.len() {
        s.len() as int
    } else if ends_empty_line(s, i) {
        i
    } else {
        section_end(s, i + 1)
    }
}

fn section_to(s: &[u8], i: usize) -> (r: usize)
    requires
        i <= s@.len(),
    ensures
        r == section_end(s@, i as int),
        i <= r <= s@.len(),
{
    let mut k: usize = i;
    while k < s.len() && !empty_line_at(s, k)
        invariant
            i <= k <= s@.len(),
            section_end(s@, i as int) == section_end(s@, k as int),
        decreases s@.len() - k,
    {
        k += 1;
    }
    k
}

/// Where the run of lines before place `i` begins that has no blank line in it.
pub open spec fn paragraph_start(s: Seq<u8>, i: int) -> int
    decreases i,
{
    if i <= 0 {
        0
    } else if ends_blank_line(s, i - 1) {
        i
    } else {
        paragraph_start(s, i - 1)
    }
}

fn paragraph_from(s: &[u8], i: usize) -> (r: usize)
    ensures
        r == paragraph_start(s@, i as int),
        r <= i,
{
    let mut k: usize = i;
    while k > 0 && !blank_line_at(s, k - 1)
        invariant
            k <= i,
            paragraph_start(s@, i as int) == paragraph_start(s@, k as int),
        decreases k,
    {
        k -= 1;
    }
    k
}

/// Where the text before place `i` ends, without the blanks and line feeds after it.
pub open spec fn text_end(s: Seq<u8>, i: int) -> int
    decreases i,
{
    if i <= 0 {
        0
    } else if is_visible_byte(s[i - 1]) {
        i
    } else {
        text_end(s, i - 1)
    }
}

fn text_to(s: &[u8], i: usize) -> (r: usize)
    requires
        i <= s@.len(),
    ensures
        r == text_end(s@, i as int),
        r <= i,
{
    let mut k: usize = i;
    while k > 0 && (blank_byte(s[k - 1]) || s[k - 1] == 10)
        invariant
            k <= i <= s@.len(),
            text_end(s@, i as int) == text_end(s@, k as int),
        decreases k,
    {
        k -= 1;
    }
    k
}

// ---------------------------------------------------------------------------------------------
// Soft line breaks
// ---------------------------------------------------------------------------------------------

/// How many bytes quoted-printable text from `a` to `b` stands for at least: as many as its other
/// visible characters, less the equals signs, of which each takes two others for one byte.
pub open spec fn weight(s: Seq<u8>, a: int, b: int) -> int
    decreases b - a,
{
    if b <= a {
        0
    } else {
        weight(s, a, b - 1) + (if s[b - 1] == 61 {
            -1int
        } else if is_visible_byte(s[b - 1]) {
            1
        } else {
            0
        })
    }
}

/// Whether the weight is `least` or more, which is at most two.
fn weighs(s: &[u8], a: usize, b: usize, least: u64) -> (r: bool)
    requires
        a <= b <= s@.len(),
        least <= 2,
    ensures
        r == (weight(s@, a as int, b as int) >= least),
{
    let mut more: u64 = 0;
    let mut less: u64 = 0;
    let mut k: usize = a;
    while k < b
        invariant
            a <= k <= b <= s@.len(),
            more - less == weight(s@, a as int, k as int),
            more <= k - a,
            less <= k - a,
        decreases b - k,
    {
        let c: u8 = s[k];
        if c == 61 {
            less += 1;
        } else if !blank_byte(c) && c != 10 {
            more += 1;
        }
        k += 1;
    }
    more >= less && more - less >= least
}

/// Whether a line feed at place `i` is a soft line break before a line that begins with two dashes.
pub open spec fn is_soft_end(s: Seq<u8>, i: int) -> bool {
    &&& 0 <= i < s.len() - 2
    &&& s[i] == 10
    &&& s[i + 1] == 45
    &&& s[i + 2] == 45
    &&& ends_in(s.take(i), "="@, false)
}

/// Whether from place `a` to place `b` a header may say that a part is encoded.
pub open spec fn has_encoding(s: Seq<u8>, a: int, b: int) -> bool {
    exists|j: int| a <= j < b && is_encoding(s, j)
}

fn encoding_within(s: &[u8], a: usize, b: usize) -> (r: bool)
    ensures
        r == has_encoding(s@, a as int, b as int),
{
    let mut j: usize = a;
    while j < b
        invariant
            a <= j,
            j <= b || j == a,
            forall|k: int| a <= k < j ==> !is_encoding(s@, k),
        decreases b - j,
    {
        if encoding_at(s, j) {
            return true;
        }
        j += 1;
    }
    false
}

/// Whether a soft line break at place `i` may end a part with less than two bytes in it: the
/// paragraph that it ends stands for less, and the one before is so short too or may be the headers
/// of the part. These may go on past empty lines, by a date, where `past` says so.
pub open spec fn is_bare_end(s: Seq<u8>, i: int, past: bool) -> bool {
    let a = paragraph_start(s, i);
    let e = text_end(s, a);
    &&& is_soft_end(s, i)
    &&& weight(s, a, i) < 1
    &&& weight(s, paragraph_start(s, e), e) < 2 || has_encoding(
        s,
        if past {
            0
        } else {
            section_start(s, e)
        },
        i,
    )
}

fn bare_end_at(s: &[u8], i: usize, past: bool) -> (r: bool)
    ensures
        r == is_bare_end(s@, i as int, past),
{
    let n: usize = s.len();
    if i >= n || n - i <= 2 || s[i] != 10 || s[i + 1] != 45 || s[i + 2] != 45 || !word_before(
        s,
        i,
        "=",
        false,
    ) {
        return false;
    }
    let a = paragraph_from(s, i);
    if weighs(s, a, i, 1) {
        return false;
    }
    let e = text_to(s, a);
    let p = paragraph_from(s, e);
    let from: usize = if past {
        0
    } else {
        section_from(s, e)
    };
    !weighs(s, p, e, 2) || encoding_within(s, from, i)
}

// ---------------------------------------------------------------------------------------------
// Encoded messages
// ---------------------------------------------------------------------------------------------

/// Whether the part of which a header at place `i` is one may be a message that is encoded. Its
/// headers may go on past empty lines, by a date, where `past` says so.
pub open spec fn is_hidden_message(s: Seq<u8>, i: int, past: bool) -> bool {
    is_message_type(s, i) && (if past {
        has_encoding(s, 0, s.len() as int)
    } else {
        has_encoding(s, section_start(s, i), section_end(s, i))
    })
}

fn hidden_message_at(s: &[u8], i: usize, past: bool) -> (r: bool)
    ensures
        r == is_hidden_message(s@, i as int, past),
{
    if !message_type_at(s, i) {
        return false;
    }
    if past {
        encoding_within(s, 0, s.len())
    } else {
        encoding_within(s, section_from(s, i), section_to(s, i))
    }
}

/// Where the headers begin of which one stands at place `j`, or some place after that: after two
/// dashes or a blank line.
pub open spec fn headers_start(s: Seq<u8>, j: int) -> int
    decreases j,
{
    if j <= 0 {
        0
    } else if ends_blank_line(s, j - 1) || (j >= 2 && s[j - 1] == 45 && s[j - 2] == 45) {
        j
    } else {
        headers_start(s, j - 1)
    }
}

fn headers_from(s: &[u8], j: usize) -> (r: usize)
    requires
        j <= s@.len(),
    ensures
        r == headers_start(s@, j as int),
        r <= j,
{
    let mut k: usize = j;
    while k > 0 && !blank_line_at(s, k - 1) && !(k >= 2 && s[k - 1] == 45 && s[k - 2] == 45)
        invariant
            k <= j <= s@.len(),
            headers_start(s@, j as int) == headers_start(s@, k as int),
        decreases k,
    {
        k -= 1;
    }
    k
}

/// Where the headers end of which one stands at place `j`, or some place before that: at a blank
/// line.
pub open spec fn headers_end(s: Seq<u8>, j: int) -> int
    decreases s.len() - j,
{
    if j >= s.len() {
        s.len() as int
    } else if ends_blank_line(s, j) {
        j
    } else {
        headers_end(s, j + 1)
    }
}

fn headers_to(s: &[u8], j: usize) -> (r: usize)
    requires
        j <= s@.len(),
    ensures
        r == headers_end(s@, j as int),
        j <= r <= s@.len(),
{
    let mut k: usize = j;
    while k < s.len() && !blank_line_at(s, k)
        invariant
            j <= k <= s@.len(),
            headers_end(s@, j as int) == headers_end(s@, k as int),
        decreases s@.len() - k,
    {
        k += 1;
    }
    k
}

/// Whether a Content-Type header with a type stands at place `i`.
pub open spec fn gives_type(s: Seq<u8>, i: int) -> bool {
    &&& 0 <= i < s.len()
    &&& s[i] == 58
    &&& ends_in(s.take(i), "content-type"@, true)
    &&& begins_with_letter(value_at(s, i))
}

/// Whether the type is given of the part of which a header stands at place `j`.
pub open spec fn is_typed(s: Seq<u8>, j: int) -> bool {
    exists|i: int| headers_start(s, j) <= i < headers_end(s, j) && gives_type(s, i)
}

fn typed_at(s: &[u8], j: usize) -> (r: bool)
    requires
        j <= s@.len(),
    ensures
        r == is_typed(s@, j as int),
{
    let a = headers_from(s, j);
    let b = headers_to(s, j);
    let mut i: usize = a;
    while i < b
        invariant
            a == headers_start(s@, j as int),
            b == headers_end(s@, j as int),
            a <= i <= b <= s@.len(),
            forall|k: int| a <= k < i ==> !gives_type(s@, k),
        decreases b - i,
    {
        if s[i] == 58 && word_before(s, i, "content-type", true) && letter_first(value_of(s, i)) {
            assert(gives_type(s@, i as int));
            return true;
        }
        i += 1;
    }
    false
}

/// Whether a header at place `i` may leave open, within a digest, what an encoded part is: an
/// encoding without a type, or a type that cannot be read. A type may count to a date before it
/// where `past` says so.
pub open spec fn is_open_type(s: Seq<u8>, i: int, past: bool) -> bool {
    ||| is_encoding(s, i) && (past || !is_typed(s, i))
    ||| names_header(s, i, "content-type"@) && !begins_with_letter(value_at(s, i))
}

fn open_type_at(s: &[u8], i: usize, past: bool) -> (r: bool)
    requires
        i < s@.len(),
    ensures
        r == is_open_type(s@, i as int, past),
{
    (encoding_at(s, i) && (past || !typed_at(s, i))) || (header_at(s, i, "content-type") && !letter_first(
        value_of(s, i),
    ))
}

// ---------------------------------------------------------------------------------------------
// Messages for the parser
// ---------------------------------------------------------------------------------------------

/// How many messages within a message there may be, one within the other.
pub const NESTING: u64 = 500;

/// How many bytes a message may have: those that 31 bits can count.
pub const LARGEST: usize = 0x7fff_ffff;

/// Whether a header at place `i` is a Received header that may hold the least number of 64 bits,
/// whose negation there is none of.
pub open spec fn is_least_date(s: Seq<u8>, i: int) -> bool {
    names_header(s, i, "received"@) && has_word(value_at(s, i), "9223372036854775808"@)
}

fn least_date_at(s: &[u8], i: usize) -> (r: bool)
    ensures
        r == is_least_date(s@, i as int),
{
    header_at(s, i, "received") && holds_word(value_of(s, i), "9223372036854775808")
}

/// How many of the first `n` places may begin a message within the message.
pub open spec fn nested(s: Seq<u8>, n: int) -> nat
    decreases n,
{
    if n <= 0 {
        0
    } else if is_message_type(s, n - 1) || is_digest_type(s, n - 1) {
        nested(s, n - 1) + 1
    } else {
        nested(s, n - 1)
    }
}

/// Whether there is a digest in a message.
pub open spec fn has_digest(s: Seq<u8>) -> bool {
    exists|i: int| is_digest_type(s, i)
}

/// Whether a message is handed to the parser.
#[verifier::opaque]
pub open spec fn is_parsable(s: Seq<u8>) -> bool {
    &&& s.len() <= LARGEST
    &&& nested(s, s.len() as int) <= NESTING
    &&& forall|i: int| !is_least_date(s, i)
    &&& forall|i: int| !is_bare_end(s, i, has_short_zone(s))
    &&& forall|i: int| !is_hidden_message(s, i, has_short_zone(s))
    &&& has_digest(s) ==> forall|i: int| !is_open_type(s, i, has_short_zone(s))
}

/// A message of no more bytes than can be counted is handed to the parser where it has no messages
/// or digests within, no soft line break before a line with two dashes, and no Received header with
/// the least number.
pub proof fn law_ordinary_messages_are_parsed(s: Seq<u8>)
    requires
        s.len() <= LARGEST,
        forall|i: int| !is_message_type(s, i) && !is_digest_type(s, i),
        forall|i: int| !is_soft_end(s, i),
        forall|i: int| !is_least_date(s, i),
    ensures
        is_parsable(s),
{
    reveal(is_parsable);
    lemma_none_nested(s, s.len() as int);
}

proof fn lemma_none_nested(s: Seq<u8>, n: int)
    requires
        forall|i: int| !is_message_type(s, i) && !is_digest_type(s, i),
    ensures
        nested(s, n) == 0,
    decreases n,
{
    if n > 0 {
        lemma_none_nested(s, n - 1);
    }
}

/// A word that occurs in a part of a text occurs in the text.
proof fn lemma_word_in_part(s: Seq<u8>, a: int, b: int, w: Seq<char>)
    requires
        0 <= a <= b <= s.len(),
        has_word(s.subrange(a, b), w),
    ensures
        has_word(s, w),
{
    let t = s.subrange(a, b);
    let k = choose|k: int| word_at(t, w, k);
    assert forall|j: int| 0 <= j < w.len() implies reads(s[a + k + j], #[trigger] w[j]) by {
        assert(t[k + j] == s[a + k + j]);
    }
    assert(word_at(s, w, a + k));
}

proof fn lemma_value_range(s: Seq<u8>, i: int)
    requires
        0 <= i <= s.len(),
    ensures
        i <= value_end(s, i) <= s.len(),
    decreases s.len() - i,
{
    if i < s.len() {
        lemma_value_range(s, i + 1);
    }
}

proof fn lemma_first_byte_range(v: Seq<u8>, b: u8, i: int)
    requires
        0 <= i <= v.len(),
    ensures
        i <= first_byte(v, b, i) <= v.len(),
    decreases v.len() - i,
{
    if i < v.len() {
        lemma_first_byte_range(v, b, i + 1);
    }
}

/// What a header's value, or the part of it that may name a type, holds, the message holds.
proof fn lemma_word_in_value(s: Seq<u8>, i: int, w: Seq<char>)
    requires
        0 <= i < s.len(),
    ensures
        has_word(value_at(s, i), w) ==> has_word(s, w),
        has_word(type_part(value_at(s, i)), w) ==> has_word(s, w),
{
    lemma_value_range(s, i + 1);
    let e = value_end(s, i + 1);
    let v = value_at(s, i);
    if has_word(v, w) {
        lemma_word_in_part(s, i + 1, e, w);
    }
    if has_word(type_part(v), w) {
        lemma_first_byte_range(v, 59, 0);
        let n = first_byte(v, 59, 0);
        if type_part(v) != v {
            assert(v.take(n) =~= s.subrange(i + 1, i + 1 + n));
            lemma_word_in_part(s, i + 1, i + 1 + n, w);
        } else {
            lemma_word_in_part(s, i + 1, e, w);
        }
    }
}

/// Where a text ends with an equals sign and blanks, the sign stands somewhere, with blanks only
/// after it.
proof fn lemma_sign_at_end(s: Seq<u8>)
    requires
        ends_in(s, "="@, false),
    ensures
        exists|k: int|
            0 <= k < s.len() && #[trigger] s[k] == 61 && forall|j: int|
                k < j < s.len() ==> is_blank_byte(#[trigger] s[j]),
    decreases s.len(),
{
    reveal_strlit("=");
    if s.len() > 0 && is_blank_byte(s.last()) {
        let t = s.drop_last();
        lemma_sign_at_end(t);
        let k = choose|k: int|
            0 <= k < t.len() && #[trigger] t[k] == 61 && forall|j: int|
                k < j < t.len() ==> is_blank_byte(#[trigger] t[j]);
        assert(s[k] == 61);
        assert forall|j: int| k < j < s.len() implies is_blank_byte(#[trigger] s[j]) by {
            if j < t.len() {
                assert(t[j] == s[j]);
            }
        }
    } else {
        assert(s[s.len() - 1] == 61);
    }
}

/// A message of fewer than 2 to the 31st bytes is handed to the parser where none of the words that
/// messages and digests within it are told by occur in it, nor the least number, and where no line
/// that begins with two dashes follows one with an equals sign at its end.
pub proof fn law_plain_messages_are_parsed(s: Seq<u8>)
    requires
        s.len() < 0x8000_0000,
        !has_word(s, "rfc822"@),
        !has_word(s, "global"@),
        !has_word(s, "digest"@),
        !has_word(s, "9223372036854775808"@),
        forall|i: int, k: int|
            0 <= k < i < s.len() - 2 && #[trigger] s[k] == 61 && #[trigger] s[i] == 10 && (
            forall|j: int| k < j < i ==> is_blank_byte(#[trigger] s[j])) ==> s[i + 1] != 45 || s[i
                + 2] != 45,
    ensures
        is_parsable(s),
{
    assert forall|i: int| !is_message_type(s, i) && !is_digest_type(s, i) by {
        if 0 <= i < s.len() {
            lemma_word_in_value(s, i, "rfc822"@);
            lemma_word_in_value(s, i, "global"@);
            lemma_word_in_value(s, i, "digest"@);
        }
    }
    assert forall|i: int| !is_least_date(s, i) by {
        if 0 <= i < s.len() {
            lemma_word_in_value(s, i, "9223372036854775808"@);
        }
    }
    assert forall|i: int| !is_soft_end(s, i) by {
        if is_soft_end(s, i) {
            let t = s.take(i);
            lemma_sign_at_end(t);
            let k = choose|k: int|
                0 <= k < t.len() && #[trigger] t[k] == 61 && forall|j: int|
                    k < j < t.len() ==> is_blank_byte(#[trigger] t[j]);
            assert(s[k] == 61);
            assert forall|j: int| k < j < i implies is_blank_byte(#[trigger] s[j]) by {
                assert(t[j] == s[j]);
            }
        }
    }
    law_ordinary_messages_are_parsed(s);
}

/// Whether a message is handed to the parser.
pub fn parsable(s: &[u8]) -> (r: bool)
    ensures
        r == is_parsable(s@),
{
    reveal(is_parsable);
    let n: usize = s.len();
    if n > LARGEST {
        return false;
    }
    let past = holds_short_zone(s);
    let mut count: u64 = 0;
    let mut digest = false;
    let mut open = false;
    let mut i: usize = 0;
    while i < n
        invariant
            n == s@.len(),
            i <= n,
            n <= LARGEST,
            past == has_short_zone(s@),
            count == nested(s@, i as int),
            count <= i,
            digest == exists|k: int| k < i && is_digest_type(s@, k),
            open == exists|k: int| k < i && is_open_type(s@, k, past),
            forall|k: int| k < i ==> !is_least_date(s@, k),
            forall|k: int| k < i ==> !is_bare_end(s@, k, past),
            forall|k: int| k < i ==> !is_hidden_message(s@, k, past),
        decreases n - i,
    {
        if least_date_at(s, i) || bare_end_at(s, i, past) || hidden_message_at(s, i, past) {
            reveal(is_parsable);
            return false;
        }
        let is_digest = digest_type_at(s, i);
        if is_digest || message_type_at(s, i) {
            count += 1;
        }
        digest = digest || is_digest;
        open = open || open_type_at(s, i, past);
        i += 1;
    }
    count <= NESTING && !(digest && open)
}

} // verus!
