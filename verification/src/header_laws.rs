//! What the relaxed form keeps of headers and bodies: everything but white space and the letter
//! case of header names.
use vstd::prelude::*;
use vstd::utf8::is_ascii_chars;

use crate::arc::{
    compressed, is_wsp, relaxed, relaxed_lines, relaxed_text, stripped_lines, without_empty_end,
};
use crate::relaxed_laws::is_blank_lines;
use crate::text::{
    first_of, fold_case, in_class, is_white_space, lemma_first_of, lowercase, split, trim,
    trimmed_end, Class,
};
use crate::text_laws::{
    all_in, is_trim, law_join_first, law_lowercase, law_split_first, law_split_once,
    law_trim_of_trim, law_trimmed, law_trimmed_parts,
};

verus! {

/// The characters of `s` that are no white space, in order.
pub open spec fn visible(s: Seq<char>) -> Seq<char> {
    s.filter(|c: char| !is_white_space(c))
}

/// Whether `s` has no tabs in it and no two spaces in a row.
pub open spec fn is_even(s: Seq<char>) -> bool {
    forall|i: int|
        0 <= i < s.len() ==> #[trigger] s[i] != '\t' && (s[i] == ' ' && i > 0 ==> s[i - 1] != ' ')
}

// ---------------------------------------------------------------------------------------------
// White space
// ---------------------------------------------------------------------------------------------

/// The visible characters of two texts together.
pub proof fn lemma_visible_both(a: Seq<char>, b: Seq<char>)
    ensures
        visible(a + b) == visible(a) + visible(b),
{
    Seq::filter_distributes_over_add(a, b, |c: char| !is_white_space(c));
}

proof fn lemma_visible_push(a: Seq<char>, c: char)
    ensures
        visible(a.push(c)) == if is_white_space(c) {
            visible(a)
        } else {
            visible(a).push(c)
        },
{
    reveal(Seq::filter);
    assert(a.push(c).drop_last() =~= a);
}

/// White space has no visible characters.
pub proof fn lemma_visible_none(s: Seq<char>)
    requires
        all_in(s, Class::White),
    ensures
        visible(s) == Seq::<char>::empty(),
    decreases s.len(),
{
    reveal(Seq::filter);
    if s.len() > 0 {
        let less = s.drop_last();
        assert forall|i: int| 0 <= i < less.len() implies in_class(
            Class::White,
            #[trigger] less[i],
        ) by {
            assert(less[i] == s[i]);
        }
        lemma_visible_none(less);
        assert(in_class(Class::White, s[s.len() - 1]));
        lemma_visible_push(less, s.last());
        assert(less.push(s.last()) =~= s);
    }
}

/// Trimming keeps the visible characters.
pub proof fn law_trim_keeps_visible(s: Seq<char>)
    ensures
        visible(trim(s)) == visible(s),
{
    let (a, b) = law_trimmed_parts(s, Class::White);
    lemma_visible_none(a);
    lemma_visible_none(b);
    lemma_visible_both(a + trim(s), b);
    lemma_visible_both(a, trim(s));
    assert(visible(s) =~= visible(trim(s)));
}

/// Compressing keeps the visible characters.
pub proof fn law_compressed_keeps_visible(s: Seq<char>)
    ensures
        visible(compressed(s)) == visible(s),
    decreases s.len(),
{
    if s.len() > 0 {
        let less = s.drop_last();
        law_compressed_keeps_visible(less);
        assert(less.push(s.last()) =~= s);
        lemma_visible_push(less, s.last());
        lemma_visible_push(compressed(less), s.last());
        lemma_visible_push(compressed(less), ' ');
    }
}

/// Compressing puts one space in place of each run of spaces and tabs, and changes nothing else.
pub proof fn law_compressed(a: Seq<char>, w: Seq<char>, b: Seq<char>)
    requires
        w.len() > 0,
        forall|i: int| 0 <= i < w.len() ==> #[trigger] w[i] == ' ' || w[i] == '\t',
        a.len() > 0 ==> a.last() != ' ' && a.last() != '\t',
        forall|i: int| 0 <= i < b.len() ==> #[trigger] b[i] != ' ' && b[i] != '\t',
    ensures
        compressed(b) == b,
        compressed(a + w + b) == compressed(a) + seq![' '] + b,
    decreases b.len(), w.len(),
{
    let s = a + w + b;
    if b.len() > 0 {
        let less = b.drop_last();
        assert forall|i: int| 0 <= i < less.len() implies #[trigger] less[i] != ' ' && less[i]
            != '\t' by {
            assert(less[i] == b[i]);
        }
        law_compressed(a, w, less);
        assert(b[b.len() - 1] == b.last());
        assert(s.last() == b.last());
        assert(s.drop_last() =~= a + w + less);
        assert(less.push(b.last()) =~= b);
        assert((compressed(a) + seq![' '] + less).push(b.last()) =~= compressed(a) + seq![' '] + b);
    } else {
        assert(compressed(b) =~= b);
        assert(w[w.len() - 1] == w.last());
        assert(s.last() == w.last());
        let less = w.drop_last();
        assert(s.drop_last() =~= a + less + b);
        if w.len() > 1 {
            assert forall|i: int| 0 <= i < less.len() implies #[trigger] less[i] == ' ' || less[i]
                == '\t' by {
                assert(less[i] == w[i]);
            }
            law_compressed(a, less, b);
            assert(s[s.len() - 2] == w[w.len() - 2]);
        } else {
            assert(s.drop_last() =~= a);
            if a.len() > 0 {
                assert(s[s.len() - 2] == a.last());
            }
            assert(compressed(a).push(' ') =~= compressed(a) + seq![' '] + b);
        }
    }
}

/// A text without tabs and without two spaces in a row is not changed by compressing.
pub proof fn law_even_is_compressed(s: Seq<char>)
    requires
        is_even(s),
    ensures
        compressed(s) == s,
    decreases s.len(),
{
    if s.len() > 0 {
        let less = s.drop_last();
        assert forall|i: int| 0 <= i < less.len() implies #[trigger] less[i] != '\t' && (less[i]
            == ' ' && i > 0 ==> less[i - 1] != ' ') by {
            assert(less[i] == s[i]);
            assert(i > 0 ==> less[i - 1] == s[i - 1]);
        }
        law_even_is_compressed(less);
        assert(s[s.len() - 1] == s.last());
        assert(s.len() > 1 ==> s[s.len() - 2] != '\t');
        assert(less.push(s.last()) =~= s);
    }
}

/// Compressed text has no tabs and no two spaces in a row.
pub proof fn law_compressed_is_even(s: Seq<char>)
    ensures
        is_even(compressed(s)),
        s.len() > 0 ==> compressed(s).len() > 0 && (compressed(s).last() == ' ') == is_wsp(s.last()),
        s.len() == 0 ==> compressed(s).len() == 0,
    decreases s.len(),
{
    if s.len() > 0 {
        let less = s.drop_last();
        law_compressed_is_even(less);
        assert(s.len() > 1 ==> less.last() == s[s.len() - 2]);
        let c = compressed(less);
        let r = compressed(s);
        assert forall|i: int| 0 <= i < r.len() implies #[trigger] r[i] != '\t' && (r[i] == ' ' && i
            > 0 ==> r[i - 1] != ' ') by {
            if i < c.len() {
                assert(r[i] == c[i]);
                assert(i > 0 ==> r[i - 1] == c[i - 1]);
            } else if i > 0 {
                assert(r[i - 1] == c.last());
            }
        }
    }
}

// ---------------------------------------------------------------------------------------------
// Headers
// ---------------------------------------------------------------------------------------------

/// A header line has a relaxed form where it has a colon in it.
pub proof fn law_relaxed_exists(line: Seq<char>)
    ensures
        relaxed(line) is Some <==> line.contains(':'),
{
    lemma_first_of(line, ':');
}

/// The relaxed form of a header is its name, a colon and its value. Of the name only the letter
/// case and white space around it is lost, and of the value only white space: its other characters
/// are kept, in order and unchanged. The value has no white space at its ends, no tabs, and no two
/// spaces in a row.
pub proof fn law_relaxed_keeps_value(name: Seq<char>, value: Seq<char>) -> (kept: Seq<char>)
    requires
        !name.contains(':'),
    ensures
        relaxed(name + ":"@ + value) == Some(lowercase(trim(name)) + ":"@ + kept),
        kept == trim(compressed(value)),
        visible(kept) == visible(value),
        is_trim(kept, Class::White),
        is_even(kept),
{
    reveal_strlit(":");
    assert(":"@ =~= seq![':']);
    law_split_once(name, value, ':');
    let c = compressed(value);
    let kept = trim(c);
    law_compressed_keeps_visible(value);
    law_trim_keeps_visible(c);
    law_compressed_is_even(value);
    let (a, b) = law_trimmed_parts(c, Class::White);
    assert forall|i: int| 0 <= i < kept.len() implies #[trigger] kept[i] != '\t' && (kept[i] == ' '
        && i > 0 ==> kept[i - 1] != ' ') by {
        assert(c[a.len() + i] == kept[i]);
        assert(i > 0 ==> c[a.len() + i - 1] == kept[i - 1]);
    }
    kept
}

/// The relaxed form of a header whose value has no tabs, no two spaces in a row and no white space
/// at its ends ends with exactly the value. A name in ASCII characters without white space around
/// it is only put in lowercase. A single space after the colon is dropped.
pub proof fn law_relaxed_of_even(name: Seq<char>, value: Seq<char>)
    requires
        !name.contains(':'),
        is_even(value),
        is_trim(value, Class::White),
    ensures
        relaxed(name + ":"@ + value) == Some(lowercase(trim(name)) + ":"@ + value),
        relaxed(name + ": "@ + value) == Some(lowercase(trim(name)) + ":"@ + value),
        is_ascii_chars(name) && is_trim(name, Class::White) ==> relaxed(name + ":"@ + value) == Some(
            fold_case(name) + ":"@ + value,
        ) && relaxed(name + ": "@ + value) == Some(fold_case(name) + ":"@ + value),
{
    reveal_strlit(":");
    reveal_strlit(": ");
    assert(":"@ =~= seq![':']);
    law_split_once(name, value, ':');
    law_even_is_compressed(value);
    law_trim_of_trim(value);
    let spaced = seq![' '] + value;
    assert(name + ": "@ + value =~= name + seq![':'] + spaced);
    law_split_once(name, spaced, ':');
    assert forall|i: int| 0 <= i < spaced.len() implies #[trigger] spaced[i] != '\t' && (spaced[i]
        == ' ' && i > 0 ==> spaced[i - 1] != ' ') by {
        if i > 0 {
            assert(spaced[i] == value[i - 1]);
            assert(i > 1 ==> spaced[i - 1] == value[i - 2]);
            assert(i == 1 ==> !is_white_space(value[0]));
        }
    }
    law_even_is_compressed(spaced);
    assert(spaced =~= seq![' '] + value + Seq::<char>::empty());
    law_trimmed(seq![' '], value, Seq::empty(), Class::White);
    if is_ascii_chars(name) && is_trim(name, Class::White) {
        law_trim_of_trim(name);
        law_lowercase(name);
    }
}

/// However many spaces and tabs stand between two parts of a header's value, and whatever white
/// space stands around it, the relaxed form is the same.
pub proof fn law_relaxed_ignores_blanks(
    name: Seq<char>,
    a: Seq<char>,
    w: Seq<char>,
    b: Seq<char>,
    before: Seq<char>,
    value: Seq<char>,
    after: Seq<char>,
)
    requires
        !name.contains(':'),
        w.len() > 0,
        forall|i: int| 0 <= i < w.len() ==> is_wsp(#[trigger] w[i]),
        all_in(before, Class::White),
        is_trim(value, Class::White),
        all_in(after, Class::White),
    ensures
        relaxed(name + ":"@ + (a + w + b)) == relaxed(name + ":"@ + (a + seq![' '] + b)),
        relaxed(name + ":"@ + (before + value + after)) == relaxed(name + ":"@ + value),
{
    law_relaxed_keeps_value(name, a + w + b);
    law_relaxed_keeps_value(name, a + seq![' '] + b);
    lemma_run(a, w, b);
    law_relaxed_keeps_value(name, before + value + after);
    law_relaxed_keeps_value(name, value);
    lemma_around(before, value, after);
}

/// A run of spaces and tabs counts as one space.
proof fn lemma_run(a: Seq<char>, w: Seq<char>, b: Seq<char>)
    requires
        w.len() > 0,
        forall|i: int| 0 <= i < w.len() ==> is_wsp(#[trigger] w[i]),
    ensures
        compressed(a + w + b) == compressed(a + seq![' '] + b),
    decreases b.len(), w.len(),
{
    let s = a + w + b;
    let t = a + seq![' '] + b;
    if b.len() > 0 {
        let less = b.drop_last();
        lemma_run(a, w, less);
        assert(s.drop_last() =~= a + w + less);
        assert(t.drop_last() =~= a + seq![' '] + less);
        assert(s.last() == b.last() && t.last() == b.last());
        if less.len() > 0 {
            assert(s[s.len() - 2] == b[b.len() - 2] && t[t.len() - 2] == b[b.len() - 2]);
        } else {
            assert(s[s.len() - 2] == w[w.len() - 1]);
            assert(t[t.len() - 2] == ' ');
        }
    } else {
        assert(w[w.len() - 1] == w.last());
        assert(s.last() == w.last() && t.last() == ' ');
        if w.len() > 1 {
            let less = w.drop_last();
            assert forall|i: int| 0 <= i < less.len() implies is_wsp(#[trigger] less[i]) by {
                assert(less[i] == w[i]);
            }
            lemma_run(a, less, b);
            assert(s.drop_last() =~= a + less + b);
            assert(s[s.len() - 2] == w[w.len() - 2]);
        } else {
            assert(s.drop_last() =~= a);
            assert(t.drop_last() =~= a);
            if a.len() > 0 {
                assert(s[s.len() - 2] == a.last() && t[t.len() - 2] == a.last());
            }
        }
    }
}

/// Two texts that do not meet in spaces or tabs are compressed each for itself.
proof fn lemma_compressed_both(a: Seq<char>, b: Seq<char>)
    requires
        a.len() > 0 && b.len() > 0 ==> !(is_wsp(a.last()) && is_wsp(b[0])),
    ensures
        compressed(a + b) == compressed(a) + compressed(b),
    decreases b.len(),
{
    let s = a + b;
    if b.len() == 0 {
        assert(s =~= a);
        assert(compressed(a) + compressed(b) =~= compressed(a));
    } else {
        let less = b.drop_last();
        assert(less.len() > 0 ==> less[0] == b[0]);
        lemma_compressed_both(a, less);
        assert(s.drop_last() =~= a + less);
        assert(s.last() == b.last());
        if b.len() > 1 {
            assert(s[s.len() - 2] == b[b.len() - 2]);
        } else if a.len() > 0 {
            assert(s[s.len() - 2] == a.last());
            assert(b.last() == b[0]);
        }
        assert(compressed(s) =~= compressed(a) + compressed(b));
    }
}

/// Compressed white space is white space.
proof fn lemma_white_compressed(w: Seq<char>)
    requires
        all_in(w, Class::White),
    ensures
        all_in(compressed(w), Class::White),
    decreases w.len(),
{
    if w.len() > 0 {
        let less = w.drop_last();
        assert forall|i: int| 0 <= i < less.len() implies in_class(
            Class::White,
            #[trigger] less[i],
        ) by {
            assert(less[i] == w[i]);
        }
        lemma_white_compressed(less);
        assert(in_class(Class::White, w[w.len() - 1]));
        let c = compressed(less);
        let r = compressed(w);
        assert forall|i: int| 0 <= i < r.len() implies in_class(Class::White, #[trigger] r[i]) by {
            if i < c.len() {
                assert(r[i] == c[i]);
            }
        }
    }
}

/// White space around a text does not matter to what is left of it.
proof fn lemma_around(before: Seq<char>, value: Seq<char>, after: Seq<char>)
    requires
        all_in(before, Class::White),
        is_trim(value, Class::White),
        all_in(after, Class::White),
    ensures
        trim(compressed(before + value + after)) == trim(compressed(value)),
{
    if value.len() == 0 {
        let all = before + value + after;
        assert forall|i: int| 0 <= i < all.len() implies in_class(Class::White, #[trigger] all[i]) by {
            if i < before.len() {
                assert(all[i] == before[i]);
            } else {
                assert(all[i] == after[i - before.len()]);
            }
        }
        lemma_white_compressed(all);
        let none = Seq::<char>::empty();
        law_trimmed(compressed(all), none, none, Class::White);
        assert(compressed(all) + none + none =~= compressed(all));
        assert(compressed(value) =~= none);
        law_trim_of_trim(none);
    } else {
        assert((before + value).last() == value.last());
        lemma_compressed_both(before + value, after);
        lemma_compressed_both(before, value);
        lemma_white_compressed(before);
        lemma_white_compressed(after);
        lemma_compressed_ends(value);
        law_trimmed(compressed(before), compressed(value), compressed(after), Class::White);
        law_trim_of_trim(compressed(value));
    }
}

/// A text that does not begin or end with white space does not when it is compressed.
proof fn lemma_compressed_ends(s: Seq<char>)
    requires
        s.len() > 0,
        !is_white_space(s[0]),
    ensures
        compressed(s).len() > 0,
        compressed(s)[0] == s[0],
        !is_wsp(s.last()) ==> compressed(s).last() == s.last(),
    decreases s.len(),
{
    if s.len() > 1 {
        assert(s.drop_last()[0] == s[0]);
        lemma_compressed_ends(s.drop_last());
    } else {
        assert(s.drop_last() =~= Seq::empty());
        assert(compressed(s.drop_last()) =~= Seq::empty());
        assert(s.last() == s[0]);
    }
}

// ---------------------------------------------------------------------------------------------
// Bodies
// ---------------------------------------------------------------------------------------------

/// A text that is blank lines throughout has no lines that count.
proof fn lemma_blank_body(body: Seq<char>)
    ensures
        is_blank_lines(body) <==> without_empty_end(stripped_lines(body)).len() == 0,
    decreases body.len(),
{
    lemma_first_of(body, '\n');
    let i: int = first_of(body, '\n');
    let a = if i < body.len() {
        body.take(i)
    } else {
        body
    };
    let l = trimmed_end(a, Class::Blank);
    lemma_end_blank(a);
    if i < body.len() {
        let rest = body.skip(i + 1);
        lemma_blank_body(rest);
        lemma_stripped_after(a, rest);
        lemma_empty_end_after(l, stripped_lines(rest));
        assert(body =~= a + seq!['\n'] + rest);
        if is_blank_lines(body) {
            assert forall|j: int| 0 <= j < rest.len() implies #[trigger] rest[j] == ' ' || rest[j]
                == '\t' || rest[j] == '\r' || rest[j] == '\n' by {
                assert(rest[j] == body[i + 1 + j]);
            }
            assert forall|j: int| 0 <= j < a.len() implies in_class(Class::Blank, #[trigger] a[j]) by {
                assert(a[j] == body[j]);
            }
        }
        if l.len() == 0 && is_blank_lines(rest) {
            assert forall|j: int| 0 <= j < body.len() implies #[trigger] body[j] == ' ' || body[j]
                == '\t' || body[j] == '\r' || body[j] == '\n' by {
                if j < i {
                    assert(in_class(Class::Blank, a[j]));
                } else if j > i {
                    assert(body[j] == rest[j - i - 1]);
                }
            }
        }
    } else {
        assert(split(body, '\n') =~= seq![body]);
        assert(stripped_lines(body) =~= seq![l]);
        lemma_empty_end_after(l, Seq::empty());
        assert(seq![l] + Seq::<Seq<char>>::empty() =~= seq![l]);
        if is_blank_lines(body) {
            assert forall|j: int| 0 <= j < a.len() implies in_class(Class::Blank, #[trigger] a[j]) by {
                assert(body[j] != '\n');
            }
        }
        if l.len() == 0 {
            assert forall|j: int| 0 <= j < body.len() implies #[trigger] body[j] == ' ' || body[j]
                == '\t' || body[j] == '\r' || body[j] == '\n' by {
                assert(in_class(Class::Blank, a[j]));
            }
        }
    }
}

/// Nothing is left of a line at whose end blanks are taken off where it is blank.
proof fn lemma_end_blank(a: Seq<char>)
    ensures
        trimmed_end(a, Class::Blank).len() == 0 <==> all_in(a, Class::Blank),
    decreases a.len(),
{
    if a.len() > 0 {
        let less = a.drop_last();
        lemma_end_blank(less);
        assert(a[a.len() - 1] == a.last());
        if in_class(Class::Blank, a.last()) {
            if all_in(less, Class::Blank) {
                assert forall|i: int| 0 <= i < a.len() implies in_class(
                    Class::Blank,
                    #[trigger] a[i],
                ) by {
                    if i < less.len() {
                        assert(less[i] == a[i]);
                    }
                }
            }
            if all_in(a, Class::Blank) {
                assert forall|i: int| 0 <= i < less.len() implies in_class(
                    Class::Blank,
                    #[trigger] less[i],
                ) by {
                    assert(less[i] == a[i]);
                }
            }
        }
    }
}

/// The stripped lines of a body with a line before it.
proof fn lemma_stripped_after(a: Seq<char>, rest: Seq<char>)
    requires
        !a.contains('\n'),
    ensures
        stripped_lines(a + seq!['\n'] + rest) == seq![trimmed_end(a, Class::Blank)]
            + stripped_lines(rest),
        stripped_lines(a) == seq![trimmed_end(a, Class::Blank)],
{
    law_split_first(a, rest, '\n');
    assert(stripped_lines(a + seq!['\n'] + rest) =~= seq![trimmed_end(a, Class::Blank)]
        + stripped_lines(rest));
    assert(stripped_lines(a) =~= seq![trimmed_end(a, Class::Blank)]);
}

/// Taking off the empty lines at the end, with a line before them.
proof fn lemma_empty_end_after(l: Seq<char>, ls: Seq<Seq<char>>)
    ensures
        without_empty_end(ls).len() > 0 ==> without_empty_end(seq![l] + ls) == seq![l]
            + without_empty_end(ls),
        without_empty_end(ls).len() == 0 && l.len() > 0 ==> without_empty_end(seq![l] + ls)
            == seq![l],
        without_empty_end(ls).len() == 0 && l.len() == 0 ==> without_empty_end(seq![l] + ls).len()
            == 0,
    decreases ls.len(),
{
    let all = seq![l] + ls;
    if ls.len() == 0 {
        assert(all =~= seq![l]);
        assert(all.drop_last() =~= Seq::empty());
        assert(without_empty_end(Seq::<Seq<char>>::empty()).len() == 0);
    } else {
        assert(all.last() == ls.last());
        assert(all.drop_last() =~= seq![l] + ls.drop_last());
        if ls.last().len() == 0 {
            lemma_empty_end_after(l, ls.drop_last());
        }
    }
}

/// The relaxed form of a body that is not blank is that of its first line, CR LF, and that of the
/// rest; the relaxed form of a line has no blanks at its end and one space in place of each run of
/// spaces and tabs.
pub proof fn law_relaxed_body(a: Seq<char>, rest: Seq<char>)
    requires
        !a.contains('\n'),
    ensures
        !is_blank_lines(rest) ==> relaxed_text(a + seq!['\n'] + rest) == compressed(
            trimmed_end(a, Class::Blank),
        ) + "\r\n"@ + relaxed_text(rest),
        is_blank_lines(rest) && !is_blank_lines(a) ==> relaxed_text(a + seq!['\n'] + rest)
            == compressed(trimmed_end(a, Class::Blank)) + "\r\n"@ && relaxed_text(a) == compressed(
            trimmed_end(a, Class::Blank),
        ) + "\r\n"@,
        is_blank_lines(a) ==> relaxed_text(a) == Seq::<char>::empty(),
{
    let l = trimmed_end(a, Class::Blank);
    let body = a + seq!['\n'] + rest;
    lemma_stripped_after(a, rest);
    lemma_blank_body(rest);
    lemma_blank_body(a);
    lemma_empty_end_after(l, stripped_lines(rest));
    lemma_empty_end_after(l, Seq::empty());
    assert(seq![l] + Seq::<Seq<char>>::empty() =~= seq![l]);
    if !is_blank_lines(rest) {
        assert(relaxed_lines(body) =~= seq![compressed(l)] + relaxed_lines(rest));
        law_join_first(compressed(l), relaxed_lines(rest), "\r\n"@);
        assert(relaxed_text(body) =~= compressed(l) + "\r\n"@ + relaxed_text(rest));
    } else if !is_blank_lines(a) {
        assert(without_empty_end(stripped_lines(a)) == seq![l]);
        assert(relaxed_lines(a) =~= seq![compressed(l)]);
        assert(relaxed_lines(body) =~= seq![compressed(l)]);
        law_join_first(compressed(l), Seq::empty(), "\r\n"@);
    }
    if is_blank_lines(a) {
        assert(relaxed_lines(a).len() == 0);
    }
}

/// The relaxed form of a body keeps its visible characters, in order and unchanged.
pub proof fn law_relaxed_body_keeps_visible(body: Seq<char>)
    ensures
        visible(relaxed_text(body)) == visible(body),
    decreases body.len(),
{
    lemma_first_of(body, '\n');
    let i: int = first_of(body, '\n');
    if i < body.len() {
        let a = body.take(i);
        let rest = body.skip(i + 1);
        assert(body =~= a + seq!['\n'] + rest);
        law_relaxed_body_keeps_visible(rest);
        law_relaxed_body(a, rest);
        lemma_line_keeps_visible(a);
        lemma_visible_none(seq!['\n']);
        lemma_visible_both(a, seq!['\n']);
        lemma_visible_both(a + seq!['\n'], rest);
        let l = compressed(trimmed_end(a, Class::Blank));
        lemma_crlf_invisible(l);
        lemma_visible_both(l + "\r\n"@, relaxed_text(rest));
        if is_blank_lines(rest) {
            lemma_blank_invisible(rest);
            assert(visible(body) =~= visible(a));
            if is_blank_lines(a) {
                lemma_blank_invisible(a);
                assert(is_blank_lines(body)) by {
                    assert forall|j: int| 0 <= j < body.len() implies #[trigger] body[j] == ' '
                        || body[j] == '\t' || body[j] == '\r' || body[j] == '\n' by {
                        if j < i {
                            assert(body[j] == a[j]);
                        } else if j > i {
                            assert(body[j] == rest[j - i - 1]);
                        }
                    }
                }
                lemma_blank_body(body);
                assert(relaxed_lines(body).len() == 0);
                assert(relaxed_text(body) =~= Seq::empty());
                lemma_visible_none(Seq::empty());
            }
        }
        assert(visible(relaxed_text(body)) =~= visible(body));
    } else {
        law_relaxed_body(body, Seq::empty());
        lemma_line_keeps_visible(body);
        lemma_crlf_invisible(compressed(trimmed_end(body, Class::Blank)));
        assert(is_blank_lines(Seq::empty()));
        if is_blank_lines(body) {
            lemma_blank_invisible(body);
            lemma_visible_none(Seq::empty());
        }
    }
}

proof fn lemma_crlf_invisible(l: Seq<char>)
    ensures
        visible(l + "\r\n"@) == visible(l),
{
    reveal_strlit("\r\n");
    lemma_visible_none("\r\n"@);
    lemma_visible_both(l, "\r\n"@);
    assert(visible(l) + Seq::<char>::empty() =~= visible(l));
}

proof fn lemma_blank_invisible(w: Seq<char>)
    requires
        is_blank_lines(w),
    ensures
        visible(w) == Seq::<char>::empty(),
{
    assert forall|i: int| 0 <= i < w.len() implies in_class(Class::White, #[trigger] w[i]) by {}
    lemma_visible_none(w);
}

proof fn lemma_line_keeps_visible(a: Seq<char>)
    ensures
        visible(compressed(trimmed_end(a, Class::Blank))) == visible(a),
{
    law_compressed_keeps_visible(trimmed_end(a, Class::Blank));
    lemma_end_keeps_visible(a);
}

proof fn lemma_end_keeps_visible(a: Seq<char>)
    ensures
        visible(trimmed_end(a, Class::Blank)) == visible(a),
    decreases a.len(),
{
    if a.len() > 0 && in_class(Class::Blank, a.last()) {
        let less = a.drop_last();
        lemma_end_keeps_visible(less);
        lemma_visible_push(less, a.last());
        assert(less.push(a.last()) =~= a);
    }
}

} // verus!
