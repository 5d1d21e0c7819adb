//! What a seal covers and what it says, stated on the message and on what the seal is made with.
use vstd::prelude::*;
use vstd::utf8::encode_utf8;

use crate::arc::{
    canonical, carries_arc, covered_headers, covered_names, field_name, fields, folded, has_field,
    is_arc_name, is_wsp, last_field, message_signature, name_part, relaxed, relaxed_text,
    rsa_signature, sealing, sealing_of, sections, signed_names, unfolding, unix_lines,
    CanonicalText,
};
use crate::crypto::{
    base64, message_text, pkcs1_primes, pkcs1_signature, pkcs8_primes, pkcs8_signature, sha256,
    SignFailure,
};
use crate::seal_scope::{lemma_unix, lf_lines};
use crate::text::{
    decimal, find, first_of, fold_case, has_text, is_blank, join, lemma_find, lemma_find_is,
    lemma_first_of, lines, lowercase, replace, same_ignoring_case, stands_at, trim, Class,
};
use crate::text_laws::{is_trim, law_lines, law_split_once, law_trim_of_trim, lemma_line};

verus! {

// ---------------------------------------------------------------------------------------------
// The header section and the body
// ---------------------------------------------------------------------------------------------

/// Line ends become line feeds, whatever they are, and nothing else is changed.
pub proof fn law_line_ends(a: Seq<char>, b: Seq<char>)
    requires
        !a.contains('\r'),
    ensures
        unix_lines(a) == a,
        unix_lines(a + seq!['\r', '\n'] + b) == a + seq!['\n'] + unix_lines(b),
        b.len() == 0 || b[0] != '\n' ==> unix_lines(a + seq!['\r'] + b) == a + seq!['\n']
            + unix_lines(b),
{
    lemma_unix(a);
    lemma_unix(b);
    lemma_lf_after(a, Seq::empty());
    assert(a + Seq::<char>::empty() =~= a);
    assert(lf_lines(Seq::empty()) =~= Seq::empty());
    let s = seq!['\r', '\n'] + b;
    lemma_unix(a + seq!['\r', '\n'] + b);
    lemma_lf_after(a, s);
    assert(a + seq!['\r', '\n'] + b =~= a + s);
    assert(s.skip(2) =~= b);
    assert(s[0] == '\r' && s[1] == '\n');
    assert(a + (seq!['\n'] + lf_lines(b)) =~= a + seq!['\n'] + lf_lines(b));
    if b.len() == 0 || b[0] != '\n' {
        let t = seq!['\r'] + b;
        lemma_unix(a + seq!['\r'] + b);
        lemma_lf_after(a, t);
        assert(a + seq!['\r'] + b =~= a + t);
        assert(t.skip(1) =~= b);
        assert(t[0] == '\r');
        assert(t.len() > 1 ==> t[1] == b[0]);
    }
}

/// Line feeds for line ends, after a text without carriage returns.
proof fn lemma_lf_after(a: Seq<char>, b: Seq<char>)
    requires
        !a.contains('\r'),
    ensures
        lf_lines(a + b) == a + lf_lines(b),
    decreases a.len(),
{
    if a.len() == 0 {
        assert(a + b =~= b);
        assert(a + lf_lines(b) =~= lf_lines(b));
    } else {
        let rest = a.skip(1);
        assert(a.contains(a[0]));
        assert(!rest.contains('\r')) by {
            if rest.contains('\r') {
                let i = choose|i: int| 0 <= i < rest.len() && rest[i] == '\r';
                assert(a[i + 1] == '\r');
            }
        }
        lemma_lf_after(rest, b);
        assert((a + b)[0] == a[0]);
        assert((a + b).skip(1) =~= rest + b);
        assert(seq![a[0]] + (rest + lf_lines(b)) =~= a + lf_lines(b));
    }
}

/// A message is its header section, an empty line and its body; without an empty line it is a
/// header section only.
pub proof fn law_sections(h: Seq<char>, b: Seq<char>)
    requires
        !h.contains('\r'),
        !b.contains('\r'),
        !has_text(h + seq!['\n'], "\n\n"@),
    ensures
        sections(h + "\n\n"@ + b) == (h, b),
        sections(h) == (h, Seq::<char>::empty()),
{
    reveal_strlit("\n\n");
    let s = h + "\n\n"@ + b;
    assert(!s.contains('\r')) by {
        if s.contains('\r') {
            let i = choose|i: int| 0 <= i < s.len() && s[i] == '\r';
            if i < h.len() {
                assert(h[i] == '\r');
            } else if i >= h.len() + 2 {
                assert(b[i - h.len() - 2] == '\r');
            }
        }
    }
    law_line_ends(s, Seq::empty());
    law_line_ends(h, Seq::empty());
    let n: int = h.len() as int;
    assert(s.subrange(n, n + 2) =~= "\n\n"@);
    assert forall|j: int| 0 <= j < n implies !stands_at(s, "\n\n"@, j) by {
        if stands_at(s, "\n\n"@, j) {
            let t = h + seq!['\n'];
            assert(t.subrange(j, j + 2) =~= s.subrange(j, j + 2));
            assert(stands_at(t, "\n\n"@, j));
        }
    }
    lemma_find_is(s, "\n\n"@, n);
    assert(s.take(n) =~= h);
    assert(s.skip(n + 2) =~= b);
    lemma_find(h, "\n\n"@);
    if find(h, "\n\n"@) is Some {
        let i: int = find(h, "\n\n"@)->0;
        let t = h + seq!['\n'];
        assert(t.subrange(i, i + 2) =~= h.subrange(i, i + 2));
        assert(stands_at(t, "\n\n"@, i));
    }
}

/// A message is taken apart the same way whatever its line ends are.
pub proof fn law_sections_ignore_line_ends(text: Seq<char>)
    ensures
        sections(unix_lines(text)) == sections(text),
        !unix_lines(text).contains('\r'),
{
    lemma_unix(text);
    lemma_lf_has_no_cr(text);
    law_line_ends(unix_lines(text), Seq::empty());
}

proof fn lemma_lf_has_no_cr(s: Seq<char>)
    ensures
        !lf_lines(s).contains('\r'),
    decreases s.len(),
{
    if s.len() > 0 {
        let (first, rest) = if s[0] != '\r' {
            (s[0], s.skip(1))
        } else if s.len() > 1 && s[1] == '\n' {
            ('\n', s.skip(2))
        } else {
            ('\n', s.skip(1))
        };
        lemma_lf_has_no_cr(rest);
        let r = lf_lines(s);
        assert(r =~= seq![first] + lf_lines(rest));
        if r.contains('\r') {
            let i = choose|i: int| 0 <= i < r.len() && r[i] == '\r';
            assert(i > 0);
            assert(lf_lines(rest)[i - 1] == '\r');
        }
    }
}

// ---------------------------------------------------------------------------------------------
// Header fields
// ---------------------------------------------------------------------------------------------

/// What is unfolded, with a line after it that begins a header.
proof fn lemma_unfolding_both(a: Seq<Seq<char>>, ls: Seq<Seq<char>>)
    requires
        unfolding(a).1.len() > 0,
        ls.len() > 0,
        ls[0].len() > 0,
        !is_wsp(ls[0][0]),
    ensures
        unfolding(a + ls) == (
            unfolding(a).0.push(unfolding(a).1) + unfolding(ls).0,
            unfolding(ls).1,
        ),
        unfolding(ls).1.len() > 0 || ls.len() > 1,
    decreases ls.len(),
{
    let all = a + ls;
    assert(all.last() == ls.last());
    assert(all.drop_last() =~= a + ls.drop_last());
    let start = unfolding(a).0.push(unfolding(a).1);
    let none = Seq::<Seq<char>>::empty();
    if ls.len() == 1 {
        assert(ls.drop_last() =~= none);
        assert(all.drop_last() =~= a);
        assert(unfolding(none) == (none, Seq::<char>::empty()));
        assert(unfolding(ls) == (none, ls[0]));
        assert(start + none =~= start);
    } else {
        let less = ls.drop_last();
        lemma_unfolding_both(a, less);
        let (done, open) = unfolding(less);
        assert((start + done).push(open) =~= start + done.push(open));
    }
}

/// The lines of a header and of what continues it.
proof fn lemma_unfolded(line: Seq<char>, cont: Seq<char>)
    requires
        line.len() > 0,
        cont.len() > 0,
        is_wsp(cont[0]),
    ensures
        unfolding(seq![line]) == (Seq::<Seq<char>>::empty(), line),
        unfolding(seq![line, cont]) == (Seq::<Seq<char>>::empty(), line + " "@ + trim(cont)),
{
    let none = Seq::<Seq<char>>::empty();
    assert(seq![line].drop_last() =~= none);
    assert(unfolding(none) == (none, Seq::<char>::empty()));
    assert(unfolding(seq![line]) == (none, line));
    assert(seq![line, cont].drop_last() =~= seq![line]);
    assert(seq![line, cont].last() == cont);
}

/// The headers of a header section are its lines, in order, where a line that begins with a space
/// or a tab continues the one before it: the two are one header, with one space between them.
pub proof fn law_headers(line: Seq<char>, cont: Seq<char>, rest: Seq<char>)
    requires
        line.len() > 0,
        !line.contains('\n'),
        line.last() != '\r',
        cont.len() > 0,
        is_wsp(cont[0]),
        !cont.contains('\n'),
        cont.last() != '\r',
        rest.len() > 0,
        !is_wsp(rest[0]),
        rest[0] != '\r',
        rest[0] != '\n',
    ensures
        fields(line) == seq![line],
        fields(line + seq!['\n'] + rest) == seq![line] + fields(rest),
        fields(line + seq!['\n'] + cont) == seq![line + " "@ + trim(cont)],
        fields(line + seq!['\n'] + (cont + seq!['\n'] + rest)) == seq![line + " "@ + trim(cont)]
            + fields(rest),
{
    let none = Seq::<Seq<char>>::empty();
    law_lines(line, rest);
    law_lines(line, cont);
    law_lines(cont, rest);
    law_lines(line, cont + seq!['\n'] + rest);
    lemma_unfolded(line, cont);
    let ls = lines(rest);
    lemma_first_line(rest);
    lemma_unfolding_both(seq![line], ls);
    lemma_unfolding_both(seq![line, cont], ls);
    assert(seq![line] + seq![cont] =~= seq![line, cont]);
    assert(seq![line] + (seq![cont] + ls) =~= seq![line, cont] + ls);
    let (done, open) = unfolding(ls);
    let joined = line + " "@ + trim(cont);
    assert(none.push(line) + done =~= seq![line] + done);
    assert(none.push(joined) + done =~= seq![joined] + done);
    assert(none.push(line) =~= seq![line]);
    assert(none.push(joined) =~= seq![joined]);
    assert((seq![line] + done).push(open) =~= seq![line] + done.push(open));
    assert((seq![joined] + done).push(open) =~= seq![joined] + done.push(open));
}

/// The lines of two texts with a line feed between them.
proof fn lemma_lines_both(h: Seq<char>, c: Seq<char>)
    requires
        h.len() > 0,
        h.last() != '\r',
        h.last() != '\n',
    ensures
        lines(h + seq!['\n'] + c) == lines(h) + lines(c),
        lines(h).len() > 0,
        lines(h).last().len() > 0,
    decreases h.len(),
{
    lemma_first_of(h, '\n');
    let i: int = first_of(h, '\n');
    if i < h.len() {
        let a = h.take(i);
        let rest = h.skip(i + 1);
        assert(rest.last() == h.last());
        lemma_lines_both(rest, c);
        assert(h =~= a + seq!['\n'] + rest);
        assert(!a.contains('\n')) by {
            if a.contains('\n') {
                let j = choose|j: int| 0 <= j < a.len() && a[j] == '\n';
                assert(h[j] == '\n');
            }
        }
        lemma_line(a, rest);
        lemma_line(a, rest + seq!['\n'] + c);
        assert(h + seq!['\n'] + c =~= a + seq!['\n'] + (rest + seq!['\n'] + c));
        assert(lines(h + seq!['\n'] + c) =~= lines(h) + lines(c));
        assert(lines(h).last() == lines(rest).last());
    } else {
        assert(!h.contains('\n'));
        law_lines(h, c);
    }
}

proof fn lemma_open(ls: Seq<Seq<char>>)
    requires
        ls.len() > 0,
        ls.last().len() > 0,
    ensures
        unfolding(ls).1.len() > 0,
{
}

/// A line that begins with a space or a tab continues the last header before it, whatever comes
/// before that and however often it was continued already: the header grows by one space and the
/// line without the white space around it, and the others stay as they are.
pub proof fn law_continuation(h: Seq<char>, cont: Seq<char>)
    requires
        h.len() > 0,
        h.last() != '\r',
        h.last() != '\n',
        cont.len() > 0,
        is_wsp(cont[0]),
        !cont.contains('\n'),
        cont.last() != '\r',
    ensures
        fields(h).len() > 0,
        fields(h + seq!['\n'] + cont) == fields(h).drop_last().push(
            fields(h).last() + " "@ + trim(cont),
        ),
{
    reveal_strlit(" ");
    lemma_lines_both(h, cont);
    law_lines(cont, Seq::empty());
    let ls = lines(h);
    lemma_open(ls);
    let all = ls.push(cont);
    assert(ls + seq![cont] =~= all);
    assert(all.drop_last() =~= ls);
    assert(all.last() == cont);
    let (done, open) = unfolding(ls);
    assert(fields(h) == done.push(open));
    assert(done.push(open).drop_last() =~= done);
    assert(unfolding(all) == (done, open + " "@ + trim(cont)));
}

proof fn lemma_first_line(h: Seq<char>)
    requires
        h.len() > 0,
        !is_wsp(h[0]),
        h[0] != '\r',
        h[0] != '\n',
    ensures
        lines(h).len() > 0,
        lines(h)[0].len() > 0,
        !is_wsp(lines(h)[0][0]),
{
    lemma_first_of(h, '\n');
    let i: int = first_of(h, '\n');
    assert(i > 0);
    if i < h.len() {
        assert(h.take(i)[0] == h[0]);
    }
}

/// A header has the name that stands before its colon, in lowercase and without white space around
/// it.
pub proof fn law_field_name(name: Seq<char>, value: Seq<char>)
    requires
        !name.contains(':'),
    ensures
        field_name(name + ":"@ + value) == lowercase(trim(name)),
        field_name(name) == Seq::<char>::empty(),
{
    reveal_strlit(":");
    assert(":"@ =~= seq![':']);
    law_split_once(name, value, ':');
}

/// Of several headers with a name the last is the one that is covered.
pub proof fn law_last_field(fs: Seq<Seq<char>>, name: Seq<char>, i: int)
    requires
        0 <= i < fs.len(),
        field_name(fs[i]) == name,
        forall|j: int| i < j < fs.len() ==> field_name(#[trigger] fs[j]) != name,
    ensures
        has_field(fs, name),
        last_field(fs, name) == fs[i],
    decreases fs.len(),
{
    if i < fs.len() - 1 {
        assert(field_name(fs[fs.len() - 1]) != name);
        let less = fs.drop_last();
        assert forall|j: int| i < j < less.len() implies field_name(#[trigger] less[j]) != name by {
            assert(less[j] == fs[j]);
        }
        law_last_field(less, name, i);
    }
}

/// The covered names are those of the eight signed headers that the message has: its sender, its
/// recipients, its subject, its date, its identifier, where replies go, and how it is written. None
/// of them is named twice.
pub proof fn law_covered_names(fs: Seq<Seq<char>>, name: Seq<char>)
    ensures
        covered_names(fs).contains(name) <==> has_field(fs, name) && (name == "from"@ || name
            == "to"@ || name == "subject"@ || name == "date"@ || name == "message-id"@ || name
            == "reply-to"@ || name == "mime-version"@ || name == "content-type"@),
        covered_names(fs).len() <= 8,
        covered_names(fs).no_duplicates(),
{
    let all = signed_names();
    let pred = |n: Seq<char>| has_field(fs, n);
    assert(all.len() == 8);
    if covered_names(fs).contains(name) {
        let k = choose|k: int| 0 <= k < all.filter(pred).len() && all.filter(pred)[k] == name;
        all.lemma_filter_pred(pred, k);
        all.lemma_filter_contains_rev(pred, name);
        let i = choose|i: int| 0 <= i < all.len() && all[i] == name;
        assert(i == 0 || i == 1 || i == 2 || i == 3 || i == 4 || i == 5 || i == 6 || i == 7);
    }
    assert(all[0] == "from"@ && all[1] == "to"@ && all[2] == "subject"@ && all[3] == "date"@);
    assert(all[4] == "message-id"@ && all[5] == "reply-to"@ && all[6] == "mime-version"@ && all[7]
        == "content-type"@);
    if has_field(fs, name) && all.contains(name) {
        let i = choose|i: int| 0 <= i < all.len() && all[i] == name;
        assert(pred(all[i]));
        all.lemma_filter_contains(pred, i);
    }
    assert(all.contains(all[0]) && all.contains(all[1]) && all.contains(all[2]) && all.contains(
        all[3],
    ) && all.contains(all[4]) && all.contains(all[5]) && all.contains(all[6]) && all.contains(
        all[7],
    ));
    all.lemma_filter_len(pred);
    lemma_signed_names_differ();
    lemma_filter_differs(all, pred);
}

proof fn lemma_signed_names_differ()
    ensures
        signed_names().no_duplicates(),
{
    reveal_strlit("from");
    reveal_strlit("to");
    reveal_strlit("subject");
    reveal_strlit("date");
    reveal_strlit("message-id");
    reveal_strlit("reply-to");
    reveal_strlit("mime-version");
    reveal_strlit("content-type");
    assert("from"@.len() == 4 && "from"@[0] == 'f' && "date"@.len() == 4 && "date"@[0] == 'd');
    assert("to"@.len() == 2 && "subject"@.len() == 7 && "message-id"@.len() == 10);
    assert("reply-to"@.len() == 8);
    assert("mime-version"@.len() == 12 && "mime-version"@[0] == 'm');
    assert("content-type"@.len() == 12 && "content-type"@[0] == 'c');
}

proof fn lemma_filter_differs(s: Seq<Seq<char>>, pred: spec_fn(Seq<char>) -> bool)
    requires
        s.no_duplicates(),
    ensures
        s.filter(pred).no_duplicates(),
    decreases s.len(),
{
    reveal(Seq::filter);
    if s.len() > 0 {
        let less = s.drop_last();
        assert(less.no_duplicates()) by {
            assert forall|i: int, j: int| 0 <= i < less.len() && 0 <= j < less.len() && i != j implies less[i]
                != less[j] by {
                assert(less[i] == s[i] && less[j] == s[j]);
            }
        }
        lemma_filter_differs(less, pred);
        let f = less.filter(pred);
        if pred(s.last()) {
            assert forall|i: int| 0 <= i < f.len() implies f[i] != s.last() by {
                assert(f.contains(f[i]));
                less.lemma_filter_contains_rev(pred, f[i]);
                let k = choose|k: int| 0 <= k < less.len() && less[k] == f[i];
                assert(s[k] == f[i]);
            }
        }
    }
}

/// The covered headers are, for each covered name in order, the relaxed form of the last header
/// with that name and a line end.
pub proof fn law_covered_headers(fs: Seq<Seq<char>>, names: Seq<Seq<char>>)
    ensures
        covered_headers(fs, names) == Seq::new(
            names.len(),
            |i: int| relaxed(last_field(fs, names[i]))->0 + "\r\n"@,
        ).flatten(),
    decreases names.len(),
{
    let parts = Seq::new(
        names.len(),
        |i: int| relaxed(last_field(fs, names[i]))->0 + "\r\n"@,
    );
    if names.len() == 0 {
        assert(parts =~= Seq::empty());
        assert(parts.flatten() =~= Seq::empty());
    } else {
        let less = names.drop_last();
        law_covered_headers(fs, less);
        let before = Seq::new(
            less.len(),
            |i: int| relaxed(last_field(fs, less[i]))->0 + "\r\n"@,
        );
        let last = relaxed(last_field(fs, names.last()))->0 + "\r\n"@;
        assert(parts.drop_last() =~= before);
        assert(parts.last() == last);
        parts.lemma_flatten_and_flatten_alt_are_equivalent();
        before.lemma_flatten_and_flatten_alt_are_equivalent();
        assert(parts.flatten_alt() == before.flatten_alt() + last);
        assert(covered_headers(fs, names) =~= covered_headers(fs, less) + last);
    }
}

/// A header section carries an ARC chain where one of its lines has the name of one of the three
/// ARC headers, in any letter case.
pub proof fn law_chain_is_seen(h: Seq<char>, i: int, name: Seq<char>, value: Seq<char>)
    requires
        0 <= i < lines(h).len(),
        lines(h)[i] == name + ":"@ + value,
        !name.contains(':'),
        is_trim(name, Class::White),
        same_ignoring_case(name, "ARC-Seal"@) || same_ignoring_case(name, "ARC-Message-Signature"@)
            || same_ignoring_case(name, "ARC-Authentication-Results"@),
    ensures
        carries_arc(h),
{
    reveal_strlit(":");
    reveal_strlit("ARC-Seal");
    reveal_strlit("ARC-Message-Signature");
    reveal_strlit("ARC-Authentication-Results");
    reveal_strlit("arc-seal");
    reveal_strlit("arc-message-signature");
    reveal_strlit("arc-authentication-results");
    assert(":"@ =~= seq![':']);
    law_split_once(name, value, ':');
    law_trim_of_trim(name);
    assert(fold_case("ARC-Seal"@) =~= fold_case("arc-seal"@));
    assert(fold_case("ARC-Message-Signature"@) =~= fold_case("arc-message-signature"@));
    assert(fold_case("ARC-Authentication-Results"@) =~= fold_case("arc-authentication-results"@));
    assert(is_arc_name(name_part(lines(h)[i])));
}

/// A header section none of whose lines begins with the name of an ARC header carries no chain.
pub proof fn law_no_chain(h: Seq<char>)
    requires
        forall|i: int|
            0 <= i < lines(h).len() ==> !is_arc_line(#[trigger] lines(h)[i]),
    ensures
        !carries_arc(h),
{
    if carries_arc(h) {
        let i = choose|i: int|
            0 <= i < lines(h).len() && is_arc_name(name_part(#[trigger] lines(h)[i]));
        let line = lines(h)[i];
        lemma_first_of(line, ':');
        let k: int = first_of(line, ':');
        reveal_strlit("arc-seal");
        reveal_strlit("arc-message-signature");
        reveal_strlit("arc-authentication-results");
        assert(fold_case("arc-seal"@).len() == 8);
        assert(fold_case("arc-message-signature"@).len() == 21);
        assert(fold_case("arc-authentication-results"@).len() == 26);
        assert(fold_case(Seq::empty()).len() == 0);
        assert(fold_case(name_part(line)).len() > 0);
        assert(k < line.len());
        assert(is_arc_line(line));
    }
}

/// Whether what stands before the first colon of a line is, but for white space around it and
/// letter case, the name of an ARC header.
pub open spec fn is_arc_line(line: Seq<char>) -> bool {
    exists|k: int|
        0 <= k < line.len() && #[trigger] line[k] == ':' && (same_ignoring_case(
            trim(line.take(k)),
            "arc-seal"@,
        ) || same_ignoring_case(trim(line.take(k)), "arc-message-signature"@)
            || same_ignoring_case(trim(line.take(k)), "arc-authentication-results"@))
}

// ---------------------------------------------------------------------------------------------
// The seal
// ---------------------------------------------------------------------------------------------

/// A message is not sealed without a selector and a domain, with a chain that it carries already,
/// or without a sender; otherwise what goes into its seal are the covered headers with their names,
/// and the relaxed form of its body.
pub proof fn law_what_is_sealed(text: Seq<char>, seal_domain: Seq<char>, selector: Seq<char>)
    ensures
        ({
            let c = canonical(text, seal_domain, selector);
            let fs = fields(sections(text).0);
            &&& is_blank(selector) || is_blank(seal_domain) ==> c == Err::<
                CanonicalText,
                Seq<char>,
            >("selector/domain required"@)
            &&& !is_blank(selector) && !is_blank(seal_domain) ==> {
                &&& carries_arc(sections(text).0) ==> c == Err::<CanonicalText, Seq<char>>(
                    "incoming ARC chain present; only first-hop sealing supported"@,
                )
                &&& !carries_arc(sections(text).0) && !has_field(fs, "from"@) ==> c == Err::<
                    CanonicalText,
                    Seq<char>,
                >("no From header to seal"@)
                &&& !carries_arc(sections(text).0) && has_field(fs, "from"@) ==> {
                    &&& c is Ok
                    &&& c->Ok_0.names == join(covered_names(fs), ":"@)
                    &&& c->Ok_0.headers == covered_headers(fs, covered_names(fs))
                    &&& c->Ok_0.body == relaxed_text(sections(text).1)
                }
            }
        }),
{
}

/// The block of a sealed message is its three headers, each with its line end: the seal, the
/// message signature and the results. Each names the hop; the seal and the signature name the
/// domain, the selector and the time that they were made with, the signature names the covered
/// headers and the digest of the body, and the results say that nothing was verified. The message
/// signature signs the covered headers and itself, and the seal itself, the signature and the
/// results.
pub proof fn law_block(
    message: Seq<u8>,
    authserv_id: Seq<char>,
    seal_domain: Seq<char>,
    selector: Seq<char>,
    private_pem: Seq<char>,
    now_unix: u64,
) -> (r: (Seq<u8>, Seq<u8>))
    requires
        sealing(message, authserv_id, seal_domain, selector, private_pem, now_unix) is Ok,
    ensures
        ({
            let block = sealing(
                message,
                authserv_id,
                seal_domain,
                selector,
                private_pem,
                now_unix,
            )->Ok_0;
            let c = canonical(message_text(message), seal_domain, selector)->Ok_0;
            let time = decimal(now_unix as nat);
            let results = "ARC-Authentication-Results: i=1; "@ + authserv_id
                + "; spf=none; dkim=none; dmarc=none"@;
            let unsigned = "ARC-Message-Signature: i=1; a=rsa-sha256; c=relaxed/relaxed; d="@
                + seal_domain + "; s="@ + selector + "; t="@ + time + "; h="@ + c.names + "; bh="@
                + base64(sha256(encode_utf8(c.body))) + "; b="@;
            let signature = unsigned + folded(base64(r.0));
            let seal = "ARC-Seal: i=1; a=rsa-sha256; cv=none; d="@ + seal_domain + "; s="@
                + selector + "; t="@ + time + "; b="@;
            &&& canonical(message_text(message), seal_domain, selector) is Ok
            &&& block == seal + folded(base64(r.1)) + "\r\n"@ + signature + "\r\n"@ + results
                + "\r\n"@
            &&& rsa_signature(
                private_pem,
                sha256(encode_utf8(c.headers + relaxed(unsigned)->0 + "\r\n"@)),
            ) == Ok::<Seq<u8>, Seq<char>>(r.0)
            &&& rsa_signature(
                private_pem,
                sha256(
                    encode_utf8(
                        relaxed(replace(seal, "\r\n "@, " "@))->0 + "\r\n"@ + (relaxed(
                            replace(signature, "\r\n "@, " "@),
                        )->0 + "\r\n"@) + (relaxed(replace(results, "\r\n "@, " "@))->0
                            + "\r\n"@),
                    ),
                ),
            ) == Ok::<Seq<u8>, Seq<char>>(r.1)
        }),
{
    let c = canonical(message_text(message), seal_domain, selector)->Ok_0;
    let time = decimal(now_unix as nat);
    let unsigned = "ARC-Message-Signature: i=1; a=rsa-sha256; c=relaxed/relaxed; d="@ + seal_domain
        + "; s="@ + selector + "; t="@ + time + "; h="@ + c.names + "; bh="@ + base64(
        sha256(encode_utf8(c.body)),
    ) + "; b="@;
    let s = rsa_signature(
        private_pem,
        sha256(encode_utf8(c.headers + relaxed(unsigned)->0 + "\r\n"@)),
    );
    let signature = message_signature(c, seal_domain, selector, private_pem, now_unix);
    let results = "ARC-Authentication-Results: i=1; "@ + authserv_id
        + "; spf=none; dkim=none; dmarc=none"@;
    let seal = "ARC-Seal: i=1; a=rsa-sha256; cv=none; d="@ + seal_domain + "; s="@ + selector
        + "; t="@ + time + "; b="@;
    assert(signature is Ok);
    assert(signature->Ok_0 == unsigned + folded(base64(s->Ok_0)));
    assert(sealing_of(signature->Ok_0, results, seal, private_pem) is Ok);
    let z = rsa_signature(
        private_pem,
        sha256(
            encode_utf8(
                relaxed(replace(seal, "\r\n "@, " "@))->0 + "\r\n"@ + (relaxed(
                    replace(signature->Ok_0, "\r\n "@, " "@),
                )->0 + "\r\n"@) + (relaxed(replace(results, "\r\n "@, " "@))->0 + "\r\n"@),
            ),
        ),
    );
    (s->Ok_0, z->Ok_0)
}

/// A key is read by its label, as PKCS#1 where that says so and as PKCS#8 otherwise. Its signature
/// is what signing with it gives; where it cannot be read, it is said as what, and where its second
/// prime is more than forty bits longer than the first, it does not sign.
pub proof fn law_signature_by_label(pem: Seq<char>, data: Seq<u8>)
    ensures
        has_text(pem, "BEGIN RSA PRIVATE KEY"@) ==> rsa_signature(pem, data) == outcome_of(
            pkcs1_primes(pem),
            pkcs1_signature(pem, data),
            "pkcs1 parse: "@,
        ),
        !has_text(pem, "BEGIN RSA PRIVATE KEY"@) ==> rsa_signature(pem, data) == outcome_of(
            pkcs8_primes(pem),
            pkcs8_signature(pem, data),
            "pkcs8 parse: "@,
        ),
{
}

/// What comes of a signature by a key with primes of these lengths.
pub open spec fn outcome_of(
    primes: Option<(usize, usize)>,
    signature: Result<Seq<u8>, SignFailure>,
    unread: Seq<char>,
) -> Result<Seq<u8>, Seq<char>> {
    if primes matches Some((p, q)) && q - p > 40 {
        Err("key primes out of balance"@)
    } else {
        match signature {
            Ok(s) => Ok(s),
            Err(SignFailure::Key(e)) => Err(unread + e),
            Err(SignFailure::Sign(e)) => Err(e),
        }
    }
}

/// A folded signature is on lines of sixty-four characters, of which each but the first is a
/// continuation line.
pub proof fn law_folded_lines(b64: Seq<char>, i: int)
    requires
        forall|k: int| 0 <= k < b64.len() ==> #[trigger] b64[k] != '\n' && b64[k] != '\r',
        b64.len() > 0,
        0 <= i < lines(folded(b64)).len(),
    ensures
        i == 0 ==> lines(folded(b64))[i].len() <= 64,
        i > 0 ==> lines(folded(b64))[i].len() <= 65 && lines(folded(b64))[i].len() > 0 && lines(
            folded(b64),
        )[i][0] == ' ',
        i < lines(folded(b64)).len() - 1 ==> lines(folded(b64))[i].len() == (if i == 0 {
            64int
        } else {
            65
        }),
    decreases b64.len(),
{
    reveal_strlit("\r\n ");
    if b64.len() <= 64 {
        lemma_no_feed(b64);
        law_lines(b64, Seq::empty());
        assert(b64.last() == b64[b64.len() - 1]);
    } else {
        let a = b64.take(64);
        let rest = b64.skip(64);
        assert forall|k: int| 0 <= k < rest.len() implies #[trigger] rest[k] != '\n' && rest[k]
            != '\r' by {
            assert(rest[k] == b64[64 + k]);
        }
        lemma_no_feed(a);
        assert(a.last() == b64[63]);
        let more = seq![' '] + folded(rest);
        assert(folded(b64) =~= a + seq!['\r', '\n'] + more);
        law_lines(a, more);
        lemma_space_before(rest);
        if i > 0 {
            law_folded_lines(rest, i - 1);
        }
    }
}

proof fn lemma_no_feed(s: Seq<char>)
    requires
        forall|k: int| 0 <= k < s.len() ==> #[trigger] s[k] != '\n' && s[k] != '\r',
    ensures
        !s.contains('\n'),
{
}

/// A space before a folded text stands on its first line.
proof fn lemma_space_before(b64: Seq<char>)
    requires
        forall|k: int| 0 <= k < b64.len() ==> #[trigger] b64[k] != '\n' && b64[k] != '\r',
        b64.len() > 0,
    ensures
        lines(folded(b64)).len() > 0,
        lines(seq![' '] + folded(b64)) == seq![seq![' '] + lines(folded(b64))[0]] + lines(
            folded(b64),
        ).skip(1),
{
    reveal_strlit("\r\n ");
    let one = seq![' '];
    if b64.len() <= 64 {
        lemma_no_feed(b64);
        law_lines(b64, Seq::empty());
        assert(b64.last() == b64[b64.len() - 1]);
        let t = one + b64;
        assert forall|k: int| 0 <= k < t.len() implies #[trigger] t[k] != '\n' && t[k] != '\r' by {
            if k > 0 {
                assert(t[k] == b64[k - 1]);
            }
        }
        lemma_no_feed(t);
        law_lines(t, Seq::empty());
        assert(t.last() == t[t.len() - 1]);
        assert(lines(t) =~= seq![one + lines(b64)[0]] + lines(b64).skip(1));
    } else {
        let a = b64.take(64);
        lemma_no_feed(a);
        assert(a.last() == b64[63]);
        let more = seq![' '] + folded(b64.skip(64));
        assert(folded(b64) =~= a + seq!['\r', '\n'] + more);
        law_lines(a, more);
        let t = one + a;
        assert forall|k: int| 0 <= k < t.len() implies #[trigger] t[k] != '\n' && t[k] != '\r' by {
            if k > 0 {
                assert(t[k] == b64[k - 1]);
            }
        }
        lemma_no_feed(t);
        assert(t.last() == t[64]);
        law_lines(t, more);
        assert(one + folded(b64) =~= t + seq!['\r', '\n'] + more);
        assert((seq![a] + lines(more)).skip(1) =~= lines(more));
    }
}

} // verus!
