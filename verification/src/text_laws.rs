//! What trimming, splitting, joining and replacing do to a text, stated on the parts that the
//! text is put together from.
use vstd::prelude::*;
use vstd::utf8::is_ascii_chars;

use crate::text::{
    decimal, find, first_of, fold_case, in_class, is_blank, is_white_space, join, last_of,
    lemma_first_of, lemma_first_of_is, lines, lowercase, replace, same_ignoring_case, split,
    split_once, stands_at, trim, trimmed, trimmed_end, trimmed_start, without_cr, Class,
};

verus! {

/// Whether `s` holds nothing but characters of the set.
pub open spec fn all_in(s: Seq<char>, k: Class) -> bool {
    forall|i: int| 0 <= i < s.len() ==> in_class(k, #[trigger] s[i])
}

/// Whether `s` neither begins nor ends with a character of the set.
pub open spec fn is_trim(s: Seq<char>, k: Class) -> bool {
    s.len() > 0 ==> !in_class(k, s[0]) && !in_class(k, s.last())
}

// ---------------------------------------------------------------------------------------------
// Trimming
// ---------------------------------------------------------------------------------------------

/// Trimming at the start takes off the characters of the set and leaves what follows alone.
pub proof fn law_trimmed_start(a: Seq<char>, s: Seq<char>, k: Class)
    requires
        all_in(a, k),
        s.len() > 0 ==> !in_class(k, s[0]),
    ensures
        trimmed_start(a + s, k) == s,
    decreases a.len(),
{
    if a.len() == 0 {
        assert(a + s =~= s);
    } else {
        let rest = a.skip(1);
        assert((a + s)[0] == a[0]);
        assert((a + s).skip(1) =~= rest + s);
        assert forall|i: int| 0 <= i < rest.len() implies in_class(k, #[trigger] rest[i]) by {
            assert(rest[i] == a[i + 1]);
        }
        law_trimmed_start(rest, s, k);
    }
}

/// Trimming at the end takes off the characters of the set and leaves what comes before alone.
pub proof fn law_trimmed_end(s: Seq<char>, b: Seq<char>, k: Class)
    requires
        all_in(b, k),
        s.len() > 0 ==> !in_class(k, s.last()),
    ensures
        trimmed_end(s + b, k) == s,
    decreases b.len(),
{
    if b.len() == 0 {
        assert(s + b =~= s);
    } else {
        let rest = b.drop_last();
        assert((s + b).last() == b.last());
        assert(in_class(k, b[b.len() - 1]));
        assert((s + b).drop_last() =~= s + rest);
        assert forall|i: int| 0 <= i < rest.len() implies in_class(k, #[trigger] rest[i]) by {
            assert(rest[i] == b[i]);
        }
        law_trimmed_end(s, rest, k);
    }
}

/// Trimming takes the characters of the set off both ends and leaves what stands between them
/// alone.
pub proof fn law_trimmed(a: Seq<char>, s: Seq<char>, b: Seq<char>, k: Class)
    requires
        all_in(a, k),
        all_in(b, k),
        is_trim(s, k),
    ensures
        trimmed(a + s + b, k) == s,
{
    if s.len() == 0 {
        let all = a + b;
        assert(a + s + b =~= all + Seq::<char>::empty());
        assert forall|i: int| 0 <= i < all.len() implies in_class(k, #[trigger] all[i]) by {
            if i < a.len() {
                assert(all[i] == a[i]);
            } else {
                assert(all[i] == b[i - a.len()]);
            }
        }
        law_trimmed_start(all, Seq::empty(), k);
        assert(s =~= Seq::empty());
    } else {
        assert(a + s + b =~= a + (s + b));
        assert((s + b)[0] == s[0]);
        law_trimmed_start(a, s + b, k);
        law_trimmed_end(s, b, k);
    }
}

/// A text without white space at its ends is not changed by trimming.
pub proof fn law_trim_of_trim(s: Seq<char>)
    requires
        is_trim(s, Class::White),
    ensures
        trim(s) == s,
{
    law_trimmed(Seq::empty(), s, Seq::empty(), Class::White);
    assert(Seq::<char>::empty() + s + Seq::<char>::empty() =~= s);
}

/// Every text is what trimming leaves of it, between characters of the set.
pub proof fn law_trimmed_parts(s: Seq<char>, k: Class) -> (r: (Seq<char>, Seq<char>))
    ensures
        s == r.0 + trimmed(s, k) + r.1,
        all_in(r.0, k),
        all_in(r.1, k),
        is_trim(trimmed(s, k), k),
{
    let i: int = lemma_start_part(s, k);
    let rest = trimmed_start(s, k);
    let j: int = lemma_end_part(rest, k);
    let a = s.take(i);
    let b = rest.skip(j);
    assert(s =~= a + rest);
    assert(rest =~= rest.take(j) + b);
    assert(s =~= a + trimmed(s, k) + b);
    (a, b)
}

/// Nothing is left of a text by trimming exactly where it is blank.
pub proof fn law_blank(s: Seq<char>)
    ensures
        trim(s).len() == 0 <==> is_blank(s),
{
    let (a, b) = law_trimmed_parts(s, Class::White);
    let t = trim(s);
    if t.len() == 0 {
        assert forall|i: int| 0 <= i < s.len() implies is_white_space(#[trigger] s[i]) by {
            if i < a.len() {
                assert(in_class(Class::White, a[i]));
            } else {
                assert(in_class(Class::White, b[i - a.len()]));
            }
        }
    } else {
        assert(s[a.len() as int] == t[0]);
    }
}

proof fn lemma_start_part(s: Seq<char>, k: Class) -> (i: int)
    ensures
        0 <= i <= s.len(),
        trimmed_start(s, k) == s.skip(i),
        all_in(s.take(i), k),
        i < s.len() ==> !in_class(k, s[i]),
    decreases s.len(),
{
    if s.len() > 0 && in_class(k, s[0]) {
        let rest = s.skip(1);
        let i: int = lemma_start_part(rest, k);
        assert(s.skip(i + 1) =~= rest.skip(i));
        assert forall|j: int| 0 <= j < i + 1 implies in_class(k, #[trigger] s.take(i + 1)[j]) by {
            if j > 0 {
                assert(rest.take(i)[j - 1] == s[j]);
            }
        }
        i + 1
    } else {
        assert(s.skip(0) =~= s);
        0
    }
}

proof fn lemma_end_part(s: Seq<char>, k: Class) -> (j: int)
    ensures
        0 <= j <= s.len(),
        trimmed_end(s, k) == s.take(j),
        all_in(s.skip(j), k),
        j > 0 ==> !in_class(k, s[j - 1]),
    decreases s.len(),
{
    if s.len() > 0 && in_class(k, s.last()) {
        let rest = s.drop_last();
        let j: int = lemma_end_part(rest, k);
        assert(s.take(j) =~= rest.take(j));
        assert forall|i: int| 0 <= i < s.len() - j implies in_class(k, #[trigger] s.skip(j)[i]) by {
            if i < rest.len() - j {
                assert(rest.skip(j)[i] == s[j + i]);
            }
        }
        j
    } else {
        assert(s.take(s.len() as int) =~= s);
        s.len() as int
    }
}

// ---------------------------------------------------------------------------------------------
// Splitting and joining
// ---------------------------------------------------------------------------------------------

/// A text is split at its first `c` into what stands before and after it; where it has none, it is
/// not split.
pub proof fn law_split_once(a: Seq<char>, b: Seq<char>, c: char)
    requires
        !a.contains(c),
    ensures
        split_once(a + seq![c] + b, c) == Some((a, b)),
        split_once(a, c) is None,
{
    let s = a + seq![c] + b;
    assert forall|j: int| 0 <= j < a.len() implies s[j] != c && a[j] != c by {
        assert(s[j] == a[j]);
        assert(a.contains(a[j]));
    }
    lemma_first_of_is(s, c, a.len() as int);
    assert(s.take(a.len() as int) =~= a);
    assert(s.skip(a.len() as int + 1) =~= b);
    lemma_first_of(a, c);
}

/// The last `c` of a text is the one with none after it.
pub proof fn law_last_of(a: Seq<char>, b: Seq<char>, c: char)
    requires
        !b.contains(c),
    ensures
        last_of(a + seq![c] + b, c) == a.len(),
        last_of(b, c) == -1,
    decreases b.len(),
{
    let s = a + seq![c] + b;
    if b.len() == 0 {
        assert(s.last() == c);
    } else {
        let rest = b.drop_last();
        assert(b.contains(b.last()));
        assert(s.last() == b.last());
        assert(s.drop_last() =~= a + seq![c] + rest);
        assert(!rest.contains(c)) by {
            if rest.contains(c) {
                let i = choose|i: int| 0 <= i < rest.len() && rest[i] == c;
                assert(b[i] == c);
            }
        }
        law_last_of(a, rest, c);
    }
}

/// The parts of a text between its `c`s: what stands before the first `c` is the first of them.
pub proof fn law_split_first(a: Seq<char>, b: Seq<char>, c: char)
    requires
        !a.contains(c),
    ensures
        split(a + seq![c] + b, c) == seq![a] + split(b, c),
        split(a, c) == seq![a],
{
    law_split_once(a, b, c);
    lemma_first_of(a, c);
    lemma_first_of(a + seq![c] + b, c);
}

/// Joining what a text was split into gives the text back, and no part holds the character that it
/// was split at.
pub proof fn law_join_of_split(s: Seq<char>, c: char)
    ensures
        join(split(s, c), seq![c]) == s,
        split(s, c).len() > 0,
        forall|i: int| 0 <= i < split(s, c).len() ==> !(#[trigger] split(s, c)[i]).contains(c),
    decreases s.len(),
{
    lemma_first_of(s, c);
    let i: int = first_of(s, c);
    if i < s.len() {
        let a = s.take(i);
        let rest = s.skip(i + 1);
        assert(!a.contains(c)) by {
            if a.contains(c) {
                let j = choose|j: int| 0 <= j < a.len() && a[j] == c;
                assert(s[j] == c);
            }
        }
        law_join_of_split(rest, c);
        law_join_first(a, split(rest, c), seq![c]);
        assert(s =~= a + seq![c] + rest);
    } else {
        assert(split(s, c) =~= seq![s]);
    }
}

/// Joining puts the separator between the first text and the rest.
pub proof fn law_join_first(a: Seq<char>, list: Seq<Seq<char>>, sep: Seq<char>)
    ensures
        join(seq![a], sep) == a,
        list.len() > 0 ==> join(seq![a] + list, sep) == a + sep + join(list, sep),
    decreases list.len(),
{
    if list.len() == 1 {
        assert((seq![a] + list).drop_last() =~= seq![a]);
        assert((seq![a] + list).last() == list[0]);
        assert(join(seq![a], sep) == a);
        assert(join(list, sep) == list[0]);
        assert(join(seq![a] + list, sep) == join(seq![a], sep) + sep + list[0]);
    } else if list.len() > 1 {
        let all = seq![a] + list;
        law_join_first(a, list.drop_last(), sep);
        assert(all.drop_last() =~= seq![a] + list.drop_last());
        assert(all.last() == list.last());
        assert(join(all, sep) =~= a + sep + join(list, sep));
    }
}

/// Splitting what was joined gives the texts back, where none of them holds the character between
/// them.
pub proof fn law_split_of_join(list: Seq<Seq<char>>, c: char)
    requires
        list.len() > 0,
        forall|i: int| 0 <= i < list.len() ==> !(#[trigger] list[i]).contains(c),
    ensures
        split(join(list, seq![c]), c) == list,
    decreases list.len(),
{
    let a = list[0];
    let rest = list.skip(1);
    if list.len() == 1 {
        law_split_first(a, Seq::empty(), c);
        assert(list =~= seq![a]);
    } else {
        assert forall|i: int| 0 <= i < rest.len() implies !(#[trigger] rest[i]).contains(c) by {
            assert(rest[i] == list[i + 1]);
        }
        law_split_of_join(rest, c);
        law_join_first(a, rest, seq![c]);
        law_split_first(a, join(rest, seq![c]), c);
        assert(list =~= seq![a] + rest);
    }
}

// ---------------------------------------------------------------------------------------------
// Lines
// ---------------------------------------------------------------------------------------------

/// A line ends with a line feed, or a carriage return and a line feed, neither of which belongs to
/// it; what stands after the last line end is a line too, unless it is nothing.
pub proof fn law_lines(a: Seq<char>, rest: Seq<char>)
    requires
        !a.contains('\n'),
        a.len() > 0 ==> a.last() != '\r',
    ensures
        lines(a + seq!['\n'] + rest) == seq![a] + lines(rest),
        lines(a + seq!['\r', '\n'] + rest) == seq![a] + lines(rest),
        a.len() > 0 ==> lines(a) == seq![a],
        lines(Seq::empty()) == Seq::<Seq<char>>::empty(),
{
    lemma_line(a, rest);
    if a.len() > 0 {
        assert(without_cr(a) == a);
    }
    let b = a.push('\r');
    assert(!b.contains('\n')) by {
        if b.contains('\n') {
            let j = choose|j: int| 0 <= j < b.len() && b[j] == '\n';
            assert(a[j] == '\n');
        }
    }
    lemma_line(b, rest);
    assert(b + seq!['\n'] + rest =~= a + seq!['\r', '\n'] + rest);
    assert(without_cr(b) =~= a);
    if a.len() > 0 {
        lemma_first_of(a, '\n');
    }
}

/// The first line of a text, which ends at its first line feed.
pub proof fn lemma_line(a: Seq<char>, rest: Seq<char>)
    requires
        !a.contains('\n'),
    ensures
        lines(a + seq!['\n'] + rest) == seq![without_cr(a)] + lines(rest),
{
    let s = a + seq!['\n'] + rest;
    law_split_once(a, rest, '\n');
    lemma_first_of(s, '\n');
    assert(s.take(first_of(s, '\n')) == a);
    assert(s.skip(first_of(s, '\n') + 1) == rest);
}

// ---------------------------------------------------------------------------------------------
// Replacing
// ---------------------------------------------------------------------------------------------

/// Where the replaced text does not occur, nothing is changed.
pub proof fn law_nothing_replaced(s: Seq<char>, pat: Seq<char>, to: Seq<char>)
    requires
        find(s, pat) is None,
    ensures
        replace(s, pat, to) == s,
    decreases s.len(),
{
    if s.len() > 0 && pat.len() > 0 {
        law_nothing_replaced(s.skip(1), pat, to);
        assert(seq![s[0]] + s.skip(1) =~= s);
    }
}

/// At its first place the replaced text gives way to the other; what comes before is kept, and
/// what follows is treated likewise.
pub proof fn law_first_replaced(s: Seq<char>, pat: Seq<char>, to: Seq<char>, i: int)
    requires
        pat.len() > 0,
        stands_at(s, pat, i),
        forall|j: int| 0 <= j < i ==> !stands_at(s, pat, j),
    ensures
        replace(s, pat, to) == s.take(i) + to + replace(s.skip(i + pat.len()), pat, to),
    decreases i,
{
    if i == 0 {
        assert(s.subrange(0, pat.len() as int) == pat);
        assert(pat.is_prefix_of(s));
        assert(s.take(0) + to =~= to);
    } else {
        if pat.is_prefix_of(s) {
            assert(s.subrange(0, pat.len() as int) =~= pat);
            assert(stands_at(s, pat, 0));
        }
        let t = s.skip(1);
        assert(t.subrange(i - 1, i - 1 + pat.len()) =~= s.subrange(i, i + pat.len()));
        assert forall|j: int| 0 <= j < i - 1 implies !stands_at(t, pat, j) by {
            if stands_at(t, pat, j) {
                assert(s.subrange(j + 1, j + 1 + pat.len()) =~= t.subrange(j, j + pat.len()));
                assert(stands_at(s, pat, j + 1));
            }
        }
        law_first_replaced(t, pat, to, i - 1);
        assert(t.skip(i - 1 + pat.len()) =~= s.skip(i + pat.len()));
        assert(seq![s[0]] + t.take(i - 1) =~= s.take(i));
        assert(seq![s[0]] + (t.take(i - 1) + to + replace(s.skip(i + pat.len()), pat, to))
            =~= s.take(i) + to + replace(s.skip(i + pat.len()), pat, to));
    }
}

// ---------------------------------------------------------------------------------------------
// Letter case and numbers
// ---------------------------------------------------------------------------------------------

/// Whether `a` and `b` are the same letter, one of them a capital.
pub open spec fn is_capital_of(a: char, b: char) -> bool {
    'A' <= a <= 'Z' && b as u32 == a as u32 + 32
}

/// Two texts are the same regardless of letter case where they have, place by place, the same
/// characters or a letter and its capital.
pub proof fn law_same_ignoring_case(a: Seq<char>, b: Seq<char>)
    ensures
        same_ignoring_case(a, b) <==> a.len() == b.len() && forall|i: int|
            0 <= i < a.len() ==> #[trigger] a[i] == b[i] || is_capital_of(a[i], b[i])
                || is_capital_of(b[i], a[i]),
{
    if same_ignoring_case(a, b) {
        assert(fold_case(a).len() == fold_case(b).len());
        assert forall|i: int| 0 <= i < a.len() implies #[trigger] a[i] == b[i] || is_capital_of(
            a[i],
            b[i],
        ) || is_capital_of(b[i], a[i]) by {
            assert(fold_case(a)[i] == fold_case(b)[i]);
        }
    }
    if a.len() == b.len() && forall|i: int|
        0 <= i < a.len() ==> #[trigger] a[i] == b[i] || is_capital_of(a[i], b[i]) || is_capital_of(
            b[i],
            a[i],
        ) {
        assert forall|i: int| 0 <= i < a.len() implies fold_case(a)[i] == fold_case(b)[i] by {
            assert(a[i] == b[i] || is_capital_of(a[i], b[i]) || is_capital_of(b[i], a[i]));
        }
        assert(fold_case(a) =~= fold_case(b));
    }
}

/// Lowercase text of ASCII characters differs from the text in letter case only and has no
/// capitals; a text without capitals is not changed.
pub proof fn law_lowercase(s: Seq<char>)
    requires
        is_ascii_chars(s),
    ensures
        same_ignoring_case(lowercase(s), s),
        forall|i: int| 0 <= i < s.len() ==> !('A' <= #[trigger] lowercase(s)[i] <= 'Z'),
        (forall|i: int| 0 <= i < s.len() ==> !('A' <= #[trigger] s[i] <= 'Z')) ==> lowercase(s)
            == s,
{
    assert(fold_case(fold_case(s)) =~= fold_case(s));
    if forall|i: int| 0 <= i < s.len() ==> !('A' <= #[trigger] s[i] <= 'Z') {
        assert(fold_case(s) =~= s);
    }
}

/// The number that decimal digits stand for.
pub open spec fn decimal_value(s: Seq<char>) -> nat
    decreases s.len(),
{
    if s.len() == 0 {
        0
    } else {
        10 * decimal_value(s.drop_last()) + (s.last() as nat - '0' as nat) as nat
    }
}

/// The decimal digits of a number stand for it, are digits, and do not begin with a zero unless
/// there is no other.
pub proof fn law_decimal(n: nat)
    ensures
        decimal_value(decimal(n)) == n,
        decimal(n).len() > 0,
        forall|i: int| 0 <= i < decimal(n).len() ==> '0' <= #[trigger] decimal(n)[i] <= '9',
        decimal(n).len() > 1 ==> decimal(n)[0] != '0',
    decreases n,
{
    if n < 10 {
        assert(decimal(n).drop_last() =~= Seq::empty());
        assert(decimal_value(Seq::empty()) == 0);
    } else {
        law_decimal(n / 10);
        assert(decimal(n).drop_last() =~= decimal(n / 10));
        assert(decimal(n)[0] == decimal(n / 10)[0]);
        if n / 10 < 10 {
            assert(decimal(n / 10)[0] == (48 + n / 10) as char);
        } else {
            law_decimal(n / 10 / 10);
            assert(decimal(n / 10).len() > 1);
        }
    }
}

} // verus!
