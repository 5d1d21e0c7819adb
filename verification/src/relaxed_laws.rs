//! What holds of the relaxed form of a body: it is its own relaxed form, and neither blank lines at
//! the end nor the kind of line ends matter to it.
use vstd::prelude::*;

use crate::arc::{
    compressed, is_wsp, relaxed_lines, relaxed_text, stripped_lines, without_empty_end,
};
use crate::text::{
    first_of, in_class, join, lemma_first_of, lemma_first_of_is, replace, split, trimmed_end,
    without_cr, Class,
};

verus! {

// ---------------------------------------------------------------------------------------------
// Blank ends
// ---------------------------------------------------------------------------------------------

/// Whether a text is made of spaces, tabs and line ends.
pub open spec fn is_blank_lines(w: Seq<char>) -> bool {
    forall|i: int|
        0 <= i < w.len() ==> #[trigger] w[i] == ' ' || w[i] == '\t' || w[i] == '\r' || w[i] == '\n'
}

/// One more character goes into the last part, or begins another one.
proof fn lemma_split_push(s: Seq<char>, x: char, c: char)
    ensures
        split(s, c).len() > 0,
        split(s.push(x), c) == (if x == c {
            split(s, c).push(Seq::empty())
        } else {
            split(s, c).drop_last().push(split(s, c).last().push(x))
        }),
    decreases s.len(),
{
    let t = s.push(x);
    lemma_first_of(s, c);
    let i = first_of(s, c);
    if i < s.len() {
        assert(t[i] == s[i]);
        lemma_first_of_is(t, c, i);
        let rest = s.skip(i + 1);
        lemma_split_push(rest, x, c);
        assert(t.skip(i + 1) =~= rest.push(x));
        assert(t.take(i) =~= s.take(i));
        let head = seq![s.take(i)];
        assert(split(s, c) == head + split(rest, c));
        assert(split(t, c) == head + split(rest.push(x), c));
        if x == c {
            assert(split(t, c) =~= split(s, c).push(Seq::empty()));
        } else {
            assert(split(t, c) =~= split(s, c).drop_last().push(split(s, c).last().push(x)));
        }
    } else {
        assert(split(s, c) =~= seq![s]);
        if x == c {
            lemma_first_of_is(t, c, s.len() as int);
            assert(t.take(s.len() as int) =~= s);
            let none = t.skip(s.len() as int + 1);
            assert(none =~= Seq::empty());
            lemma_first_of(none, c);
            assert(split(none, c) =~= seq![none]);
            assert(split(t, c) =~= split(s, c).push(Seq::empty()));
        } else {
            lemma_first_of_is(t, c, t.len() as int);
            assert(split(t, c) =~= seq![t]);
            assert(split(t, c) =~= split(s, c).drop_last().push(split(s, c).last().push(x)));
        }
    }
}

/// A blank or a line end at the end of a body does not count.
proof fn lemma_relaxed_push(body: Seq<char>, x: char)
    requires
        x == ' ' || x == '\t' || x == '\r' || x == '\n',
    ensures
        relaxed_lines(body.push(x)) == relaxed_lines(body),
{
    lemma_split_push(body, x, '\n');
    let f = |l: Seq<char>| trimmed_end(l, Class::Blank);
    let old = split(body, '\n');
    let new = split(body.push(x), '\n');
    assert(stripped_lines(body) == old.map_values(f));
    assert(stripped_lines(body.push(x)) == new.map_values(f));
    if x == '\n' {
        let none = Seq::<char>::empty();
        assert(f(none) == none);
        assert(new.map_values(f) =~= old.map_values(f).push(none));
        assert(new.map_values(f).drop_last() =~= old.map_values(f));
    } else {
        let last = old.last();
        assert(last.push(x).drop_last() =~= last);
        assert(f(last.push(x)) == f(last));
        assert(new.map_values(f) =~= old.map_values(f));
    }
}

/// Blank lines and blanks at the end of a body leave its relaxed form as it is.
pub proof fn law_relaxed_ignores_blank_end(body: Seq<char>, w: Seq<char>)
    requires
        is_blank_lines(w),
    ensures
        relaxed_text(body + w) == relaxed_text(body),
    decreases w.len(),
{
    if w.len() == 0 {
        assert(body + w =~= body);
    } else {
        let less = w.drop_last();
        assert forall|i: int| 0 <= i < less.len() implies #[trigger] less[i] == ' ' || less[i]
            == '\t' || less[i] == '\r' || less[i] == '\n' by {
            assert(less[i] == w[i]);
        }
        law_relaxed_ignores_blank_end(body, less);
        assert(w[w.len() - 1] == w.last());
        lemma_relaxed_push(body + less, w.last());
        assert((body + less).push(w.last()) =~= body + w);
    }
}

// ---------------------------------------------------------------------------------------------
// Line ends
// ---------------------------------------------------------------------------------------------

/// Replacing CR LF in a text that begins with a line: the line loses its carriage return.
proof fn lemma_replace_line(line: Seq<char>, rest: Seq<char>)
    requires
        !line.contains('\n'),
    ensures
        replace(line + seq!['\n'] + rest, "\r\n"@, "\n"@) == without_cr(line) + seq!['\n']
            + replace(rest, "\r\n"@, "\n"@),
    decreases line.len(),
{
    reveal_strlit("\r\n");
    reveal_strlit("\n");
    let crlf = "\r\n"@;
    let lf = "\n"@;
    let s = line + seq!['\n'] + rest;
    let after = replace(rest, crlf, lf);
    if line.len() == 0 {
        assert(s[0] == '\n');
        assert(!crlf.is_prefix_of(s)) by {
            if crlf.is_prefix_of(s) {
                assert(s.subrange(0, 2)[0] == s[0]);
            }
        }
        assert(s.skip(1) =~= rest);
        assert(replace(s, crlf, lf) =~= seq!['\n'] + after);
        assert(without_cr(line) + seq!['\n'] + after =~= seq!['\n'] + after);
    } else if line.len() == 1 && line[0] == '\r' {
        assert(s.subrange(0, 2) =~= crlf);
        assert(s.skip(2) =~= rest);
        assert(replace(s, crlf, lf) =~= seq!['\n'] + after);
        assert(without_cr(line) + seq!['\n'] + after =~= seq!['\n'] + after);
    } else {
        let less = line.skip(1);
        assert(!less.contains('\n')) by {
            if less.contains('\n') {
                let k = choose|k: int| 0 <= k < less.len() && less[k] == '\n';
                assert(line[k + 1] == '\n');
            }
        }
        lemma_replace_line(less, rest);
        assert(!crlf.is_prefix_of(s)) by {
            if crlf.is_prefix_of(s) {
                assert(s.subrange(0, 2)[0] == s[0]);
                assert(s.subrange(0, 2)[1] == s[1]);
                assert(line.len() > 1 ==> line.contains(line[1]));
            }
        }
        assert(s.skip(1) =~= less + seq!['\n'] + rest);
        assert(without_cr(line) =~= seq![line[0]] + without_cr(less));
        assert(replace(s, crlf, lf) =~= without_cr(line) + seq!['\n'] + after);
    }
}

/// There is no CR LF to replace in a text without line feeds.
proof fn lemma_replace_none(s: Seq<char>)
    requires
        !s.contains('\n'),
    ensures
        replace(s, "\r\n"@, "\n"@) == s,
    decreases s.len(),
{
    reveal_strlit("\r\n");
    let crlf = "\r\n"@;
    if s.len() > 0 {
        assert(!crlf.is_prefix_of(s)) by {
            if crlf.is_prefix_of(s) {
                assert(s.subrange(0, 2)[1] == s[1]);
                assert(s.contains(s[1]));
            }
        }
        let rest = s.skip(1);
        assert(!rest.contains('\n')) by {
            if rest.contains('\n') {
                let k = choose|k: int| 0 <= k < rest.len() && rest[k] == '\n';
                assert(s[k + 1] == '\n');
            }
        }
        lemma_replace_none(rest);
        assert(seq![s[0]] + rest =~= s);
    }
}

/// The lines of a body that begins with a line.
proof fn lemma_stripped_first(line: Seq<char>, rest: Seq<char>)
    requires
        !line.contains('\n'),
    ensures
        stripped_lines(line + seq!['\n'] + rest) == seq![trimmed_end(line, Class::Blank)]
            + stripped_lines(rest),
{
    let s = line + seq!['\n'] + rest;
    let n = line.len() as int;
    assert forall|k: int| 0 <= k < n implies s[k] != '\n' by {
        assert(line.contains(line[k]));
    }
    lemma_first_of_is(s, '\n', n);
    assert(s.take(n) =~= line);
    assert(s.skip(n + 1) =~= rest);
    assert(split(s, '\n') == seq![line] + split(rest, '\n'));
    let f = |l: Seq<char>| trimmed_end(l, Class::Blank);
    assert((seq![line] + split(rest, '\n')).map_values(f) =~= seq![f(line)] + split(
        rest,
        '\n',
    ).map_values(f));
}

/// The lines of a body, without blanks at their ends, are the same with CR LF and with LF.
proof fn lemma_stripped_same(body: Seq<char>)
    ensures
        stripped_lines(replace(body, "\r\n"@, "\n"@)) == stripped_lines(body),
    decreases body.len(),
{
    lemma_first_of(body, '\n');
    let i = first_of(body, '\n');
    if i < body.len() {
        let line = body.take(i);
        let rest = body.skip(i + 1);
        assert(!line.contains('\n')) by {
            if line.contains('\n') {
                let k = choose|k: int| 0 <= k < line.len() && line[k] == '\n';
                assert(body[k] == '\n');
            }
        }
        assert(body =~= line + seq!['\n'] + rest);
        lemma_replace_line(line, rest);
        lemma_stripped_same(rest);
        let short = without_cr(line);
        assert(!short.contains('\n')) by {
            if short.contains('\n') {
                let k = choose|k: int| 0 <= k < short.len() && short[k] == '\n';
                assert(line[k] == '\n');
            }
        }
        lemma_stripped_first(line, rest);
        lemma_stripped_first(short, replace(rest, "\r\n"@, "\n"@));
        assert(trimmed_end(short, Class::Blank) == trimmed_end(line, Class::Blank));
    } else {
        assert(!body.contains('\n'));
        lemma_replace_none(body);
    }
}

/// A body with LF in the place of CR LF has the same relaxed form.
pub proof fn law_relaxed_ignores_line_ends(body: Seq<char>)
    ensures
        relaxed_text(replace(body, "\r\n"@, "\n"@)) == relaxed_text(body),
{
    lemma_stripped_same(body);
}

// ---------------------------------------------------------------------------------------------
// Relaxing twice
// ---------------------------------------------------------------------------------------------

/// Whether a text has spaces as its only white space, and no two of them together.
spec fn is_compressed(s: Seq<char>) -> bool {
    forall|i: int|
        0 <= i < s.len() && is_wsp(#[trigger] s[i]) ==> s[i] == ' ' && !(i > 0 && is_wsp(s[i - 1]))
}

/// Compressing makes a compressed text that ends as the text does, and no line feeds.
proof fn lemma_compressed(s: Seq<char>)
    ensures
        is_compressed(compressed(s)),
        s.len() > 0 ==> compressed(s).len() > 0 && is_wsp(compressed(s).last()) == is_wsp(s.last()),
        s.len() > 0 && !is_wsp(s.last()) ==> compressed(s).last() == s.last(),
        s.len() == 0 ==> compressed(s).len() == 0,
        !s.contains('\n') ==> !compressed(s).contains('\n'),
    decreases s.len(),
{
    if s.len() > 0 {
        let less = s.drop_last();
        lemma_compressed(less);
        let c = compressed(s);
        let before = compressed(less);
        assert(s.len() > 1 ==> less.last() == s[s.len() - 2]);
        if !s.contains('\n') {
            assert(!less.contains('\n')) by {
                if less.contains('\n') {
                    let k = choose|k: int| 0 <= k < less.len() && less[k] == '\n';
                    assert(s[k] == '\n');
                }
            }
            assert(s.contains(s[s.len() - 1]));
        }
        assert forall|i: int| 0 <= i < c.len() && is_wsp(#[trigger] c[i]) implies c[i] == ' ' && !(i
            > 0 && is_wsp(c[i - 1])) by {
            if i < before.len() {
                assert(c[i] == before[i]);
                assert(i > 0 ==> c[i - 1] == before[i - 1]);
            } else if i > 0 {
                assert(c[i - 1] == before[i - 1]);
                assert(before.last() == before[before.len() - 1]);
            }
        }
    }
}

/// A compressed text is left as it is.
proof fn lemma_compressed_stays(s: Seq<char>)
    requires
        is_compressed(s),
    ensures
        compressed(s) == s,
    decreases s.len(),
{
    if s.len() > 0 {
        let less = s.drop_last();
        assert forall|i: int| 0 <= i < less.len() && is_wsp(#[trigger] less[i]) implies less[i] == ' '
            && !(i > 0 && is_wsp(less[i - 1])) by {
            assert(less[i] == s[i]);
            assert(i > 0 ==> less[i - 1] == s[i - 1]);
        }
        lemma_compressed_stays(less);
        assert(s[s.len() - 1] == s.last());
        assert(less.push(s.last()) =~= s);
    }
}

/// A text without blanks at its end, of the characters of the text.
proof fn lemma_trimmed(s: Seq<char>)
    ensures
        trimmed_end(s, Class::Blank).len() > 0 ==> !in_class(
            Class::Blank,
            trimmed_end(s, Class::Blank).last(),
        ),
        !s.contains('\n') ==> !trimmed_end(s, Class::Blank).contains('\n'),
    decreases s.len(),
{
    if s.len() > 0 && in_class(Class::Blank, s.last()) {
        let less = s.drop_last();
        lemma_trimmed(less);
        if less.contains('\n') {
            let k = choose|k: int| 0 <= k < less.len() && less[k] == '\n';
            assert(s[k] == '\n');
        }
    }
}

/// The parts of a text between line feeds have none.
proof fn lemma_split_lines(s: Seq<char>, k: int)
    requires
        0 <= k < split(s, '\n').len(),
    ensures
        !split(s, '\n')[k].contains('\n'),
    decreases s.len(),
{
    lemma_first_of(s, '\n');
    let i = first_of(s, '\n');
    if i < s.len() {
        if k == 0 {
            let line = s.take(i);
            if line.contains('\n') {
                let j = choose|j: int| 0 <= j < line.len() && line[j] == '\n';
                assert(s[j] == '\n');
            }
            assert(split(s, '\n')[0] == line);
        } else {
            lemma_split_lines(s.skip(i + 1), k - 1);
            assert(split(s, '\n')[k] == split(s.skip(i + 1), '\n')[k - 1]);
        }
    } else {
        assert(split(s, '\n')[k] == s);
    }
}

/// Dropping the empty lines at the end leaves a beginning, and its last line is not empty.
proof fn lemma_without_empty_end(ls: Seq<Seq<char>>)
    ensures
        ({
            let w = without_empty_end(ls);
            &&& w.len() <= ls.len()
            &&& w == ls.take(w.len() as int)
            &&& w.len() > 0 ==> w.last().len() > 0
        }),
    decreases ls.len(),
{
    if ls.len() > 0 && ls.last().len() == 0 {
        lemma_without_empty_end(ls.drop_last());
        let w = without_empty_end(ls);
        assert(ls.drop_last().take(w.len() as int) =~= ls.take(w.len() as int));
    } else {
        assert(ls.take(ls.len() as int) =~= ls);
    }
}

/// Whether a line is as relaxing leaves it.
spec fn is_relaxed_line(l: Seq<char>) -> bool {
    &&& !l.contains('\n')
    &&& is_compressed(l)
    &&& l.len() > 0 ==> !in_class(Class::Blank, l.last())
}

/// The lines that count are as relaxing leaves them, and the last one is not empty.
proof fn lemma_relaxed_lines(body: Seq<char>)
    ensures
        ({
            let ls = relaxed_lines(body);
            &&& forall|k: int| 0 <= k < ls.len() ==> is_relaxed_line(#[trigger] ls[k])
            &&& ls.len() > 0 ==> ls.last().len() > 0
        }),
{
    let all = stripped_lines(body);
    let w = without_empty_end(all);
    let ls = relaxed_lines(body);
    lemma_without_empty_end(all);
    assert forall|k: int| 0 <= k < ls.len() implies is_relaxed_line(#[trigger] ls[k]) by {
        let raw = split(body, '\n')[k];
        assert(w[k] == all[k]);
        assert(all[k] == trimmed_end(raw, Class::Blank));
        lemma_split_lines(body, k);
        lemma_trimmed(raw);
        lemma_compressed(all[k]);
        assert(ls[k] == compressed(all[k]));
    }
    if ls.len() > 0 {
        lemma_compressed(w.last());
        assert(ls.last() == compressed(w.last()));
    }
}

/// Lines, each with its line end.
spec fn closed(ls: Seq<Seq<char>>) -> Seq<char>
    decreases ls.len(),
{
    if ls.len() == 0 {
        seq![]
    } else {
        closed(ls.drop_last()) + ls.last() + "\r\n"@
    }
}

/// Lines joined by their line ends, and with one at the end.
proof fn lemma_joined(ls: Seq<Seq<char>>)
    requires
        ls.len() > 0,
    ensures
        join(ls, "\r\n"@) + "\r\n"@ == closed(ls),
    decreases ls.len(),
{
    let end = "\r\n"@;
    let less = ls.drop_last();
    if ls.len() == 1 {
        assert(less.len() == 0);
        assert(closed(less) =~= seq![]);
        assert(closed(ls) =~= ls[0] + end);
    } else {
        lemma_joined(less);
        assert(join(ls, end) == join(less, end) + end + ls.last());
    }
}

/// A line goes into the last part.
proof fn lemma_split_append(s: Seq<char>, l: Seq<char>)
    requires
        !l.contains('\n'),
    ensures
        split(s, '\n').len() > 0,
        split(s + l, '\n') == split(s, '\n').drop_last().push(split(s, '\n').last() + l),
    decreases l.len(),
{
    lemma_split_push(s, 'x', '\n');
    let parts = split(s, '\n');
    if l.len() == 0 {
        assert(s + l =~= s);
        assert(parts.last() + l =~= parts.last());
        assert(parts.drop_last().push(parts.last()) =~= parts);
    } else {
        let less = l.drop_last();
        assert(!less.contains('\n')) by {
            if less.contains('\n') {
                let k = choose|k: int| 0 <= k < less.len() && less[k] == '\n';
                assert(l[k] == '\n');
            }
        }
        assert(l.contains(l[l.len() - 1]));
        lemma_split_append(s, less);
        lemma_split_push(s + less, l.last(), '\n');
        assert((s + less).push(l.last()) =~= s + l);
        let mid = split(s + less, '\n');
        assert(mid.drop_last() =~= parts.drop_last());
        assert(mid.last().push(l.last()) =~= parts.last() + l);
    }
}

/// The parts of closed lines: the lines, each with its carriage return, and nothing at the end.
proof fn lemma_split_closed(ls: Seq<Seq<char>>)
    requires
        forall|k: int| 0 <= k < ls.len() ==> !(#[trigger] ls[k]).contains('\n'),
    ensures
        split(closed(ls), '\n') == ls.map_values(|l: Seq<char>| l.push('\r')).push(seq![]),
    decreases ls.len(),
{
    reveal_strlit("\r\n");
    let f = |l: Seq<char>| l.push('\r');
    let none = Seq::<char>::empty();
    if ls.len() == 0 {
        lemma_first_of(none, '\n');
        assert(closed(ls) =~= none);
        assert(split(none, '\n') =~= seq![none]);
        assert(ls.map_values(f).push(none) =~= seq![none]);
    } else {
        let less = ls.drop_last();
        let last = ls.last();
        assert forall|k: int| 0 <= k < less.len() implies !(#[trigger] less[k]).contains('\n') by {
            assert(less[k] == ls[k]);
        }
        assert(!ls[ls.len() - 1].contains('\n'));
        lemma_split_closed(less);
        let s = closed(less);
        let done = less.map_values(f);
        lemma_split_append(s, last);
        assert(split(s, '\n').drop_last() =~= done);
        assert(split(s, '\n').last() + last =~= last);
        assert(split(s + last, '\n') == done.push(last));
        let t = s + last;
        lemma_split_push(t, '\r', '\n');
        assert(split(t.push('\r'), '\n') =~= done.push(f(last)));
        lemma_split_push(t.push('\r'), '\n', '\n');
        assert(t.push('\r').push('\n') =~= closed(ls));
        assert(ls.map_values(f) =~= done.push(f(last)));
    }
}

/// Relaxed lines, closed, have themselves as the lines that count.
proof fn lemma_closed_relaxed(ls: Seq<Seq<char>>)
    requires
        forall|k: int| 0 <= k < ls.len() ==> is_relaxed_line(#[trigger] ls[k]),
        ls.len() > 0 ==> ls.last().len() > 0,
    ensures
        relaxed_lines(closed(ls)) == ls,
{
    let none = Seq::<char>::empty();
    let f = |l: Seq<char>| l.push('\r');
    let g = |l: Seq<char>| trimmed_end(l, Class::Blank);
    let h = |l: Seq<char>| compressed(l);
    assert forall|k: int| 0 <= k < ls.len() implies !(#[trigger] ls[k]).contains('\n') by {
        assert(is_relaxed_line(ls[k]));
    }
    lemma_split_closed(ls);
    let all = stripped_lines(closed(ls));
    assert forall|k: int| 0 <= k < ls.len() implies g(f(#[trigger] ls[k])) == ls[k] && h(ls[k])
        == ls[k] by {
        assert(is_relaxed_line(ls[k]));
        assert(f(ls[k]).drop_last() =~= ls[k]);
        assert(trimmed_end(ls[k], Class::Blank) == ls[k]);
        lemma_compressed_stays(ls[k]);
    }
    assert(g(none) == none);
    assert(all =~= ls.push(none)) by {
        assert(all == ls.map_values(f).push(none).map_values(g));
        assert forall|k: int| 0 <= k < all.len() implies all[k] == ls.push(none)[k] by {
            if k < ls.len() {
                assert(all[k] == g(f(ls[k])));
            }
        }
    }
    assert(all.last() == none);
    assert(all.drop_last() =~= ls);
    assert(without_empty_end(all) == without_empty_end(ls));
    assert(without_empty_end(ls) == ls);
    assert(ls.map_values(h) =~= ls);
}

/// The relaxed form of a body is its own relaxed form.
pub proof fn law_relaxed_is_relaxed(body: Seq<char>)
    ensures
        relaxed_text(relaxed_text(body)) == relaxed_text(body),
{
    let ls = relaxed_lines(body);
    lemma_relaxed_lines(body);
    lemma_closed_relaxed(ls);
    if ls.len() > 0 {
        lemma_joined(ls);
    } else {
        assert(closed(ls) =~= seq![]);
        assert(relaxed_text(body) =~= closed(ls));
    }
}

} // verus!
