//! What a seal does not cover: headers that are not among the signed ones, and blank lines at the
//! end of the body. Putting such before or after a message leaves its seal as it is.
use vstd::prelude::*;
use vstd::utf8::{encode_utf8, is_ascii_chars};

use crate::arc::{
    canonical, carries_arc, covered_headers, covered_names, field_name, fields, has_field,
    is_arc_name, is_wsp, last_field, name_part, relaxed_text, sealing, sections, signed_names,
    unfolding, unix_lines, with_line,
};
use crate::crypto::{law_text_after_bytes, law_text_before_bytes, message_text};
use crate::relaxed_laws::{is_blank_lines, law_relaxed_ignores_blank_end};
use crate::text::{
    find, first_of, has_text, lemma_find, lemma_find_is, lemma_first_of, lemma_first_of_is, lines,
    replace, stands_at, without_cr,
};

verus! {

// ---------------------------------------------------------------------------------------------
// Line ends
// ---------------------------------------------------------------------------------------------

/// A text does not begin with another that begins otherwise.
proof fn lemma_not_prefix(pat: Seq<char>, s: Seq<char>)
    requires
        pat.len() > 0,
        s.len() > 0,
        s[0] != pat[0],
    ensures
        !pat.is_prefix_of(s),
{
    if pat.is_prefix_of(s) {
        assert(s.subrange(0, pat.len() as int)[0] == s[0]);
    }
}

/// Making line feeds of line ends, one step from the left.
proof fn lemma_unix_step(s: Seq<char>)
    requires
        s.len() > 0,
    ensures
        unix_lines(s) == (if s[0] != '\r' {
            seq![s[0]] + unix_lines(s.skip(1))
        } else if s.len() > 1 && s[1] == '\n' {
            seq!['\n'] + unix_lines(s.skip(2))
        } else {
            seq!['\n'] + unix_lines(s.skip(1))
        }),
{
    reveal_strlit("\r\n");
    reveal_strlit("\r");
    reveal_strlit("\n");
    let crlf = "\r\n"@;
    let lf = "\n"@;
    let once = replace(s, crlf, lf);
    if s[0] != '\r' {
        lemma_not_prefix(crlf, s);
        assert(once == seq![s[0]] + replace(s.skip(1), crlf, lf));
        lemma_not_prefix("\r"@, once);
        assert(once.skip(1) =~= replace(s.skip(1), crlf, lf));
    } else if s.len() > 1 && s[1] == '\n' {
        assert(s.subrange(0, 2) =~= crlf);
        assert(once == lf + replace(s.skip(2), crlf, lf));
        lemma_not_prefix("\r"@, once);
        assert(once.skip(1) =~= replace(s.skip(2), crlf, lf));
        assert(once[0] == '\n');
    } else {
        assert(!crlf.is_prefix_of(s)) by {
            if crlf.is_prefix_of(s) {
                assert(s.subrange(0, 2)[1] == s[1]);
            }
        }
        assert(once == seq![s[0]] + replace(s.skip(1), crlf, lf));
        assert("\r"@.is_prefix_of(once)) by {
            assert(once.subrange(0, 1) =~= "\r"@);
        }
        assert(once.skip(1) =~= replace(s.skip(1), crlf, lf));
        assert(lf =~= seq!['\n']);
    }
}

/// A text with line feeds as its only line ends, made from the left.
pub open spec fn lf_lines(s: Seq<char>) -> Seq<char>
    decreases s.len(),
{
    if s.len() == 0 {
        Seq::empty()
    } else if s[0] != '\r' {
        seq![s[0]] + lf_lines(s.skip(1))
    } else if s.len() > 1 && s[1] == '\n' {
        seq!['\n'] + lf_lines(s.skip(2))
    } else {
        seq!['\n'] + lf_lines(s.skip(1))
    }
}

/// The two ways of making line feeds of line ends agree.
pub proof fn lemma_unix(s: Seq<char>)
    ensures
        unix_lines(s) == lf_lines(s),
    decreases s.len(),
{
    if s.len() > 0 {
        lemma_unix_step(s);
        if s[0] == '\r' && s.len() > 1 && s[1] == '\n' {
            lemma_unix(s.skip(2));
        } else {
            lemma_unix(s.skip(1));
        }
    }
}

/// What is left of `w` after `s`, where a carriage return at the end of `s` and a line feed at the
/// beginning of `w` are one line end.
spec fn after_cr(s: Seq<char>, w: Seq<char>) -> Seq<char> {
    if s.len() > 0 && s.last() == '\r' && w.len() > 0 && w[0] == '\n' {
        w.skip(1)
    } else {
        w
    }
}

/// Line ends of a text with another after it.
proof fn lemma_lf_both(s: Seq<char>, w: Seq<char>)
    ensures
        lf_lines(s + w) == lf_lines(s) + lf_lines(after_cr(s, w)),
    decreases s.len(),
{
    let all = s + w;
    let more = lf_lines(after_cr(s, w));
    if s.len() == 0 {
        assert(all =~= w);
        assert(lf_lines(s) + more =~= more);
    } else if s[0] == '\r' && s.len() == 1 {
        let end = seq!['\n'];
        assert(s.skip(1) =~= Seq::empty());
        assert(lf_lines(s.skip(1)) =~= Seq::empty());
        assert(lf_lines(s) =~= end);
        if w.len() > 0 && w[0] == '\n' {
            assert(all[1] == '\n');
            assert(all.skip(2) =~= w.skip(1));
            assert(lf_lines(all) == end + more);
        } else {
            assert(w.len() > 0 ==> all[1] == w[0]);
            assert(all.skip(1) =~= w);
            assert(lf_lines(all) == end + more);
        }
    } else {
        let n: int = if s[0] == '\r' && s[1] == '\n' {
            2
        } else {
            1
        };
        let one = seq![
            if s[0] == '\r' {
                '\n'
            } else {
                s[0]
            },
        ];
        let rest = s.skip(n);
        lemma_lf_both(rest, w);
        assert(all[0] == s[0]);
        assert(s.len() > 1 ==> all[1] == s[1]);
        assert(all.skip(n) =~= rest + w);
        if rest.len() > 0 {
            assert(rest.last() == s.last());
        } else {
            assert(s.last() == s[n - 1]);
        }
        assert(after_cr(rest, w) == after_cr(s, w));
        assert(lf_lines(s) == one + lf_lines(rest));
        assert(lf_lines(all) == one + lf_lines(rest + w));
        assert(one + (lf_lines(rest) + more) =~= one + lf_lines(rest) + more);
    }
}

/// Where two line feeds stand.
proof fn lemma_two_feeds(s: Seq<char>, j: int)
    ensures
        stands_at(s, "\n\n"@, j) <==> 0 <= j <= s.len() - 2 && s[j] == '\n' && s[j + 1] == '\n',
{
    reveal_strlit("\n\n");
    if 0 <= j <= s.len() - 2 {
        let w = s.subrange(j, j + 2);
        assert(w[0] == s[j] && w[1] == s[j + 1]);
        if s[j] == '\n' && s[j + 1] == '\n' {
            assert(w =~= "\n\n"@);
        }
    }
}

/// Spaces, tabs and line ends stay such, with line feeds as the only line ends.
proof fn lemma_lf_blank(w: Seq<char>)
    requires
        is_blank_lines(w),
    ensures
        is_blank_lines(lf_lines(w)),
    decreases w.len(),
{
    if w.len() > 0 {
        let n: int = if w[0] == '\r' && w.len() > 1 && w[1] == '\n' {
            2
        } else {
            1
        };
        let rest = w.skip(n);
        assert forall|i: int| 0 <= i < rest.len() implies #[trigger] rest[i] == ' ' || rest[i]
            == '\t' || rest[i] == '\r' || rest[i] == '\n' by {
            assert(rest[i] == w[i + n]);
        }
        lemma_lf_blank(rest);
        let u = lf_lines(w);
        assert(u[0] != '\r');
        assert(u.skip(1) =~= lf_lines(rest));
        assert forall|i: int| 0 <= i < u.len() implies #[trigger] u[i] == ' ' || u[i] == '\t' || u[i]
            == '\r' || u[i] == '\n' by {
            if i > 0 {
                assert(u[i] == lf_lines(rest)[i - 1]);
            }
        }
    }
}

// ---------------------------------------------------------------------------------------------
// Blank lines after the body
// ---------------------------------------------------------------------------------------------

/// Two line feeds stand at a place of a text with more after it just as without.
proof fn lemma_feeds_before(u: Seq<char>, w: Seq<char>, j: int)
    requires
        j + 2 <= u.len(),
    ensures
        stands_at(u + w, "\n\n"@, j) == stands_at(u, "\n\n"@, j),
{
    lemma_two_feeds(u + w, j);
    lemma_two_feeds(u, j);
    if 0 <= j {
        assert((u + w)[j] == u[j] && (u + w)[j + 1] == u[j + 1]);
    }
}

/// The first empty line of a text is that of the text with more after it.
proof fn lemma_find_grows(u: Seq<char>, w: Seq<char>)
    requires
        find(u, "\n\n"@) is Some,
    ensures
        find(u + w, "\n\n"@) == find(u, "\n\n"@),
        0 <= find(u, "\n\n"@)->0 <= u.len() - 2,
{
    let gap = "\n\n"@;
    lemma_find(u, gap);
    let k = find(u, gap)->0;
    lemma_two_feeds(u, k);
    lemma_feeds_before(u, w, k);
    assert forall|j: int| 0 <= j < k implies !stands_at(u + w, gap, j) by {
        lemma_feeds_before(u, w, j);
    }
    lemma_find_is(u + w, gap, k);
}

/// More text after a message that has an empty line goes into its body.
proof fn lemma_body_grows(u: Seq<char>, w: Seq<char>, k: int)
    requires
        0 <= k <= u.len() - 2,
    ensures
        (u + w).take(k) == u.take(k),
        (u + w).skip(k + 2) == u.skip(k + 2) + w,
{
    assert((u + w).take(k) =~= u.take(k));
    assert((u + w).skip(k + 2) =~= u.skip(k + 2) + w);
}

/// Whether an empty line ends the header section of a message.
pub open spec fn has_body(text: Seq<char>) -> bool {
    has_text(unix_lines(text), "\n\n"@)
}

/// Blank lines at the end of a message that has a body leave its canonical form as it is.
proof fn lemma_canonical_end(text: Seq<char>, w: Seq<char>, domain: Seq<char>, selector: Seq<char>)
    requires
        has_body(text),
        is_blank_lines(w),
    ensures
        canonical(text + w, domain, selector) == canonical(text, domain, selector),
{
    reveal_strlit("\n\n");
    let rest = after_cr(text, w);
    assert forall|i: int| 0 <= i < rest.len() implies #[trigger] rest[i] == ' ' || rest[i] == '\t'
        || rest[i] == '\r' || rest[i] == '\n' by {
        if rest != w {
            assert(rest[i] == w[i + 1]);
        }
    }
    lemma_unix(text);
    lemma_unix(text + w);
    lemma_lf_both(text, w);
    lemma_lf_blank(rest);
    let u = unix_lines(text);
    lemma_find(u, "\n\n"@);
    lemma_find_grows(u, lf_lines(rest));
    lemma_body_grows(u, lf_lines(rest), find(u, "\n\n"@)->0);
    law_relaxed_ignores_blank_end(sections(text).1, lf_lines(rest));
    assert(sections(text + w).1 == sections(text).1 + lf_lines(rest));
    assert(sections(text + w).0 == sections(text).0);
    assert(relaxed_text(sections(text + w).1) == relaxed_text(sections(text).1));
}

/// Blank lines at the end of a message that has a body leave its seal as it is.
pub proof fn law_seal_ignores_blank_end(
    message: Seq<u8>,
    w: Seq<char>,
    authserv_id: Seq<char>,
    seal_domain: Seq<char>,
    selector: Seq<char>,
    private_pem: Seq<char>,
    now_unix: u64,
)
    requires
        has_body(message_text(message)),
        is_blank_lines(w),
    ensures
        sealing(
            message + encode_utf8(w),
            authserv_id,
            seal_domain,
            selector,
            private_pem,
            now_unix,
        ) == sealing(message, authserv_id, seal_domain, selector, private_pem, now_unix),
{
    assert(is_ascii_chars(w));
    law_text_after_bytes(message, w);
    lemma_canonical_end(message_text(message), w, seal_domain, selector);
}

// ---------------------------------------------------------------------------------------------
// Headers before the signed ones
// ---------------------------------------------------------------------------------------------

/// Whether a text is a header of one line that a seal does not cover and that is none of a seal.
pub open spec fn is_unsigned_header(line: Seq<char>) -> bool {
    &&& line.len() > 0
    &&& !is_wsp(line[0])
    &&& !line.contains('\r')
    &&& !line.contains('\n')
    &&& !is_arc_name(name_part(line))
    &&& !signed_names().contains(field_name(line))
}

/// The line ends of a message with a line before it.
proof fn lemma_unix_after(line: Seq<char>, text: Seq<char>)
    requires
        !line.contains('\r'),
    ensures
        unix_lines(line + "\r\n"@ + text) == line + seq!['\n'] + unix_lines(text),
{
    reveal_strlit("\r\n");
    let end = "\r\n"@;
    lemma_unix(line + end + text);
    lemma_unix(text);
    lemma_lf_both(line + end, text);
    assert(after_cr(line + end, text) == text);
    lemma_lf_both(line, end);
    lemma_lf_line(line);
    assert(end.skip(2) =~= Seq::empty());
    assert(lf_lines(end.skip(2)) =~= Seq::empty());
    assert(lf_lines(end) =~= seq!['\n']);
}

/// Two line feeds after a line of text stand in the text that follows, where that begins with
/// none.
proof fn lemma_feeds_after(line: Seq<char>, u: Seq<char>, j: int)
    requires
        !line.contains('\n'),
        u.len() > 0,
        u[0] != '\n',
        stands_at(line + seq!['\n'] + u, "\n\n"@, j),
    ensures
        j > line.len(),
        stands_at(u, "\n\n"@, j - line.len() - 1),
{
    let all = line + seq!['\n'] + u;
    let n = line.len() as int + 1;
    lemma_two_feeds(all, j);
    lemma_two_feeds(u, j - n);
    if j < n - 1 {
        assert(all[j] == line[j]);
        assert(line.contains(line[j]));
    } else if j == n - 1 {
        assert(all[j + 1] == u[0]);
    } else {
        assert(all[j] == u[j - n] && all[j + 1] == u[j - n + 1]);
    }
}

/// The first empty line after a line of text, where the text that follows begins with no line
/// feed: the same as in that text.
proof fn lemma_find_after(line: Seq<char>, u: Seq<char>)
    requires
        !line.contains('\n'),
        u.len() > 0,
        u[0] != '\n',
    ensures
        find(line + seq!['\n'] + u, "\n\n"@) == (match find(u, "\n\n"@) {
            Some(k) => Some(k + line.len() + 1),
            None => None,
        }),
        find(u, "\n\n"@) matches Some(k) ==> 0 < k <= u.len() - 2,
{
    let gap = "\n\n"@;
    let n = line.len() as int + 1;
    let all = line + seq!['\n'] + u;
    lemma_find(u, gap);
    lemma_find(all, gap);
    assert forall|j: int| stands_at(all, gap, j) implies j >= n && stands_at(u, gap, j - n) by {
        lemma_feeds_after(line, u, j);
    }
    if let Some(k) = find(u, gap) {
        lemma_two_feeds(u, k);
        lemma_two_feeds(all, k + n);
        assert(all[k + n] == u[k] && all[k + n + 1] == u[k + 1]);
        assert(stands_at(all, gap, k + n));
        lemma_find_is(all, gap, k + n);
    }
}

/// The sections of a message with a line before it.
proof fn lemma_sections_after(line: Seq<char>, text: Seq<char>)
    requires
        !line.contains('\r'),
        !line.contains('\n'),
        text.len() > 0,
        text[0] != '\r',
        text[0] != '\n',
    ensures
        sections(line + "\r\n"@ + text).0 == line + seq!['\n'] + sections(text).0,
        sections(line + "\r\n"@ + text).1 == sections(text).1,
        sections(text).0.len() > 0,
        sections(text).0[0] == text[0],
{
    reveal_strlit("\n\n");
    let gap = "\n\n"@;
    let u = unix_lines(text);
    lemma_unix_step(text);
    lemma_unix_after(line, text);
    lemma_find_after(line, u);
    let start = line + seq!['\n'];
    let n = start.len() as int;
    if let Some(k) = find(u, gap) {
        assert((start + u).take(k + n) =~= start + u.take(k));
        assert((start + u).skip(k + n + 2) =~= u.skip(k + 2));
    }
}

/// A text without line ends stays as it is.
proof fn lemma_lf_line(s: Seq<char>)
    requires
        !s.contains('\r'),
    ensures
        lf_lines(s) == s,
    decreases s.len(),
{
    if s.len() == 0 {
        assert(s =~= Seq::empty());
    } else {
        assert(s.contains(s[0]));
        let rest = s.skip(1);
        assert(!rest.contains('\r')) by {
            if rest.contains('\r') {
                let i = choose|i: int| 0 <= i < rest.len() && rest[i] == '\r';
                assert(s[i + 1] == '\r');
            }
        }
        lemma_lf_line(rest);
        assert(seq![s[0]] + rest =~= s);
    }
}

/// The lines of a text with a line before it.
proof fn lemma_lines_after(line: Seq<char>, h: Seq<char>)
    requires
        !line.contains('\r'),
        !line.contains('\n'),
    ensures
        lines(line + seq!['\n'] + h) == seq![line] + lines(h),
{
    let all = line + seq!['\n'] + h;
    let n = line.len() as int;
    assert forall|j: int| 0 <= j < n implies all[j] != '\n' by {
        assert(line.contains(line[j]));
    }
    lemma_first_of_is(all, '\n', n);
    assert(all.take(n) =~= line);
    assert(without_cr(line) == line) by {
        if line.len() > 0 {
            assert(line.contains(line[n - 1]));
        }
    }
    assert(all.skip(n + 1) =~= h);
}

/// The header lines of lines with another before them that is no continuation, and where the first
/// of them is none.
proof fn lemma_unfolding_after(line: Seq<char>, ls: Seq<Seq<char>>)
    requires
        line.len() > 0,
        !is_wsp(line[0]),
        ls.len() > 0,
        ls[0].len() > 0,
        !is_wsp(ls[0][0]),
    ensures
        unfolding(seq![line] + ls) == (seq![line] + unfolding(ls).0, unfolding(ls).1),
        unfolding(ls).1.len() > 0 || ls.len() > 1,
    decreases ls.len(),
{
    let all = seq![line] + ls;
    let none = Seq::<Seq<char>>::empty();
    assert(all.last() == ls.last());
    assert(all.drop_last() =~= seq![line] + ls.drop_last());
    if ls.len() == 1 {
        assert(ls.drop_last() =~= none);
        assert(all.drop_last() =~= seq![line]);
        assert(seq![line].drop_last() =~= none);
        assert(unfolding(none) == (none, Seq::<char>::empty()));
        assert(seq![line].last() == line);
        assert(unfolding(seq![line]) == (none, line));
        assert(unfolding(ls) == (none, ls[0]));
        assert(with_line(none, line) =~= seq![line]);
        assert(seq![line] + none =~= seq![line]);
    } else {
        let less = ls.drop_last();
        lemma_unfolding_after(line, less);
        let (done, open) = unfolding(less);
        assert((seq![line] + done).push(open) =~= seq![line] + done.push(open));
    }
}

/// The header lines of a section with another header before it.
proof fn lemma_fields_after(line: Seq<char>, h: Seq<char>)
    requires
        line.len() > 0,
        !is_wsp(line[0]),
        !line.contains('\r'),
        !line.contains('\n'),
        h.len() > 0,
        !is_wsp(h[0]),
        h[0] != '\r',
        h[0] != '\n',
    ensures
        fields(line + seq!['\n'] + h) == seq![line] + fields(h),
{
    lemma_lines_after(line, h);
    lemma_first_of(h, '\n');
    let i = first_of(h, '\n');
    assert(i > 0);
    let one = lines(h)[0];
    assert(one.len() > 0 && one[0] == h[0]) by {
        if i < h.len() {
            assert(h.take(i)[0] == h[0]);
        }
    }
    lemma_unfolding_after(line, lines(h));
    let (done, open) = unfolding(lines(h));
    assert((seq![line] + done).push(open) =~= seq![line] + done.push(open));
}

/// A header of another name does not matter to whether there is one of the name, and which is the
/// last of them.
proof fn lemma_field_after(line: Seq<char>, fs: Seq<Seq<char>>, name: Seq<char>)
    requires
        field_name(line) != name,
    ensures
        has_field(seq![line] + fs, name) == has_field(fs, name),
        has_field(fs, name) ==> last_field(seq![line] + fs, name) == last_field(fs, name),
    decreases fs.len(),
{
    let all = seq![line] + fs;
    assert forall|i: int| 0 <= i < fs.len() && field_name(#[trigger] fs[i]) == name implies has_field(
        all,
        name,
    ) by {
        assert(all[i + 1] == fs[i]);
    }
    assert forall|i: int| 0 <= i < all.len() && field_name(#[trigger] all[i]) == name implies has_field(
        fs,
        name,
    ) by {
        if i > 0 {
            assert(fs[i - 1] == all[i]);
        }
    }
    if has_field(fs, name) {
        assert(all.last() == fs.last());
        if field_name(fs.last()) != name {
            let less = fs.drop_last();
            let i = choose|i: int| 0 <= i < fs.len() && field_name(#[trigger] fs[i]) == name;
            assert(less[i] == fs[i]);
            lemma_field_after(line, less, name);
            assert(all.drop_last() =~= seq![line] + less);
        }
    }
}

/// Filtering by tests that agree on the items.
proof fn lemma_filter_agrees(s: Seq<Seq<char>>, f: spec_fn(Seq<char>) -> bool, g: spec_fn(
    Seq<char>,
) -> bool)
    requires
        forall|i: int| 0 <= i < s.len() ==> f(#[trigger] s[i]) == g(s[i]),
    ensures
        s.filter(f) == s.filter(g),
    decreases s.len(),
{
    reveal(Seq::filter);
    if s.len() > 0 {
        let less = s.drop_last();
        assert forall|i: int| 0 <= i < less.len() implies f(#[trigger] less[i]) == g(less[i]) by {
            assert(less[i] == s[i]);
        }
        lemma_filter_agrees(less, f, g);
        assert(f(s[s.len() - 1]) == g(s[s.len() - 1]));
    }
}

/// The covered headers are those of the message, where the header before it is not covered.
proof fn lemma_covered_after(line: Seq<char>, fs: Seq<Seq<char>>, names: Seq<Seq<char>>)
    requires
        forall|i: int|
            0 <= i < names.len() ==> field_name(line) != (#[trigger] names[i]) && has_field(
                fs,
                names[i],
            ),
    ensures
        covered_headers(seq![line] + fs, names) == covered_headers(fs, names),
    decreases names.len(),
{
    if names.len() > 0 {
        let less = names.drop_last();
        assert forall|i: int| 0 <= i < less.len() implies field_name(line) != (#[trigger] less[i])
            && has_field(fs, less[i]) by {
            assert(less[i] == names[i]);
        }
        lemma_covered_after(line, fs, less);
        assert(names[names.len() - 1] == names.last());
        lemma_field_after(line, fs, names.last());
    }
}

/// A header that is not covered leaves the names of those that are as they are, and the headers.
proof fn lemma_names_after(line: Seq<char>, fs: Seq<Seq<char>>)
    requires
        !signed_names().contains(field_name(line)),
    ensures
        covered_names(seq![line] + fs) == covered_names(fs),
        covered_headers(seq![line] + fs, covered_names(fs)) == covered_headers(
            fs,
            covered_names(fs),
        ),
        has_field(seq![line] + fs, "from"@) == has_field(fs, "from"@),
{
    let all = signed_names();
    let f = |n: Seq<char>| has_field(seq![line] + fs, n);
    let g = |n: Seq<char>| has_field(fs, n);
    assert forall|i: int| 0 <= i < all.len() implies f(#[trigger] all[i]) == g(all[i]) by {
        assert(all.contains(all[i]));
        lemma_field_after(line, fs, all[i]);
    }
    lemma_filter_agrees(all, f, g);
    let names = covered_names(fs);
    assert forall|i: int| 0 <= i < names.len() implies field_name(line) != (#[trigger] names[i])
        && has_field(fs, names[i]) by {
        assert(all.filter(g).contains(names[i]));
        all.lemma_filter_contains_rev(g, names[i]);
        all.lemma_filter_pred(g, i);
        assert(g(names[i]));
    }
    lemma_covered_after(line, fs, names);
    assert(all[0] == "from"@);
    assert(f(all[0]) == g(all[0]));
}

/// Whether there is an ARC chain does not depend on a line before it that is none.
proof fn lemma_arc_after(line: Seq<char>, h: Seq<char>)
    requires
        !line.contains('\r'),
        !line.contains('\n'),
        !is_arc_name(name_part(line)),
    ensures
        carries_arc(line + seq!['\n'] + h) == carries_arc(h),
{
    lemma_lines_after(line, h);
    let all = seq![line] + lines(h);
    assert forall|i: int|
        0 <= i < lines(h).len() && is_arc_name(name_part(#[trigger] lines(h)[i])) implies carries_arc(
        line + seq!['\n'] + h,
    ) by {
        assert(all[i + 1] == lines(h)[i]);
    }
    assert forall|i: int|
        0 <= i < all.len() && is_arc_name(name_part(#[trigger] all[i])) implies carries_arc(h) by {
        if i > 0 {
            assert(lines(h)[i - 1] == all[i]);
        }
    }
}

/// A header before a message that its seal does not cover leaves its canonical form as it is.
proof fn lemma_canonical_after(
    line: Seq<char>,
    text: Seq<char>,
    domain: Seq<char>,
    selector: Seq<char>,
)
    requires
        is_unsigned_header(line),
        text.len() > 0,
        !is_wsp(text[0]),
        text[0] != '\r',
        text[0] != '\n',
    ensures
        canonical(line + "\r\n"@ + text, domain, selector) == canonical(text, domain, selector),
{
    lemma_sections_after(line, text);
    let h = sections(text).0;
    lemma_fields_after(line, h);
    lemma_arc_after(line, h);
    lemma_names_after(line, fields(h));
}

/// A header that is not among the signed ones, put before a message, leaves its seal as it is.
pub proof fn law_seal_ignores_unsigned_headers(
    line: Seq<char>,
    message: Seq<u8>,
    authserv_id: Seq<char>,
    seal_domain: Seq<char>,
    selector: Seq<char>,
    private_pem: Seq<char>,
    now_unix: u64,
)
    requires
        is_unsigned_header(line),
        ({
            let text = message_text(message);
            &&& text.len() > 0
            &&& !is_wsp(text[0])
            &&& text[0] != '\r'
            &&& text[0] != '\n'
        }),
    ensures
        sealing(
            encode_utf8(line + "\r\n"@) + message,
            authserv_id,
            seal_domain,
            selector,
            private_pem,
            now_unix,
        ) == sealing(message, authserv_id, seal_domain, selector, private_pem, now_unix),
{
    law_text_before_bytes(line + "\r\n"@, message);
    lemma_canonical_after(line, message_text(message), seal_domain, selector);
}

} // verus!
