//! Why a relay does not relay its own messages: what it has written carries the loop header in
//! its header section, and a message that does is dropped.
use vstd::prelude::*;
use vstd::seq_lib::lemma_flatten_concat;
use vstd::utf8::encode_utf8;

use crate::crypto::{hex_number, law_text_of_bytes};
use crate::forward::{
    carries_mark, djb2, head, loop_mark, marks_loop, planned, planned_by, relay_draft,
    relay_headers, relays, PlanText, RelaySettings, Relayed, LOOP_HEADER,
};
use crate::mail::{
    folded_from, holds_content, incoming, is_ascii_white, is_encoded, is_header_line, is_short_name,
    is_unbroken, is_visible, is_written, line_end, starts_with_headers, text_line, HeaderValue,
    IncomingText,
};
use crate::routes::table;
use crate::text::{
    before_gap, first_of, has_empty_line, is_gap, lemma_first_of, lemma_first_of_is,
    lemma_next_gap, lemma_trim_visible, lines, maybe_text, next_gap, stands_at, without_cr,
};

verus! {

/// A line that stands in a text between line ends is one of its lines.
proof fn lemma_is_line(a: Seq<char>, l: Seq<char>, tail: Seq<char>)
    requires
        a.len() == 0 || a.last() == '\n',
        l.len() > 0,
        l.last() != '\r',
        !l.contains('\n'),
        tail.len() == 0 || tail[0] == '\n' || (tail.len() > 1 && tail[0] == '\r' && tail[1] == '\n'),
    ensures
        lines(a + l + tail).contains(l),
    decreases a.len(),
{
    let s = a + l + tail;
    if a.len() == 0 {
        assert forall|j: int| 0 <= j < l.len() implies s[j] != '\n' by {
            assert(l.contains(l[j]));
        }
        if tail.len() == 0 {
            assert(s =~= l);
            lemma_first_of_is(s, '\n', s.len() as int);
            assert(lines(s)[0] == l);
        } else {
            let i: int = if tail[0] == '\n' {
                l.len() as int
            } else {
                l.len() as int + 1
            };
            lemma_first_of_is(s, '\n', i);
            assert(without_cr(s.take(i)) =~= l);
            assert(lines(s)[0] == l);
        }
    } else {
        lemma_first_of(a, '\n');
        assert(a.contains('\n')) by {
            assert(a[a.len() - 1] == '\n');
        }
        let i = first_of(a, '\n');
        assert forall|j: int| 0 <= j < i implies s[j] != '\n' by {
            assert(s[j] == a[j]);
        }
        assert(s[i] == a[i]);
        lemma_first_of_is(s, '\n', i);
        let rest = a.skip(i + 1);
        lemma_is_line(rest, l, tail);
        assert(s.skip(i + 1) =~= rest + l + tail);
        let more = lines(s.skip(i + 1));
        let k = choose|k: int| 0 <= k < more.len() && more[k] == l;
        assert(lines(s)[k + 1] == l);
    }
}

/// Whether a text is a line with its end: it starts with a visible character, ends with CR LF
/// and has no empty line in it.
pub open spec fn is_closed_line(l: Seq<char>) -> bool {
    &&& l.len() >= 3
    &&& '!' <= l[0] <= '~'
    &&& l[l.len() - 2] == '\r'
    &&& l[l.len() - 1] == '\n'
    &&& !has_empty_line(l)
}

/// A run of closed lines has no empty line in it.
proof fn lemma_closed_lines(ls: Seq<Seq<char>>)
    requires
        forall|i: int| 0 <= i < ls.len() ==> is_closed_line(#[trigger] ls[i]),
    ensures
        !has_empty_line(ls.flatten()),
        ls.len() > 0 ==> {
            let s = ls.flatten();
            &&& s.len() >= 3
            &&& '!' <= s[0] <= '~'
            &&& s[s.len() - 2] == '\r'
            &&& s[s.len() - 1] == '\n'
        },
    decreases ls.len(),
{
    let s = ls.flatten();
    if ls.len() > 0 {
        let x = ls[0];
        let rest = ls.drop_first();
        assert forall|i: int| 0 <= i < rest.len() implies is_closed_line(#[trigger] rest[i]) by {
            assert(rest[i] == ls[i + 1]);
        }
        lemma_closed_lines(rest);
        let y = rest.flatten();
        assert(is_closed_line(ls[0]));
        assert(s == x + y);
        if rest.len() == 0 {
            assert(y.len() == 0);
        }
        assert forall|k: int| !is_gap(s, k) by {
            if is_gap(s, k) {
                if k >= x.len() {
                    assert(is_gap(y, k - x.len()));
                } else if k == x.len() - 1 {
                    assert(s[k + 1] == y[0]);
                } else if k == x.len() - 2 {
                    assert(s[k] == '\r');
                } else {
                    assert(is_gap(x, k));
                }
            }
        }
    }
}

/// The digits of a hexadecimal number are visible.
proof fn lemma_hex_visible(n: nat, width: nat)
    ensures
        hex_number(n, width).len() == width,
        is_visible(hex_number(n, width)),
    decreases width,
{
    if width > 0 {
        lemma_hex_visible(n / 16, (width - 1) as nat);
    }
}

/// The line of the loop header.
spec fn loop_line(mark: Seq<char>) -> Seq<char> {
    LOOP_HEADER@ + seq![':', ' '] + mark
}

/// The line of the loop header marks a loop.
proof fn lemma_loop_line(mark: Seq<char>)
    requires
        mark.len() > 0,
        is_visible(mark),
    ensures
        marks_loop(loop_line(mark), mark),
        loop_line(mark).len() > 0,
        loop_line(mark).last() != '\r',
        !loop_line(mark).contains('\n'),
{
    reveal_strlit("X-4ward-Loop-Detection");
    let l = loop_line(mark);
    let n = LOOP_HEADER@.len() as int;
    assert(l[0] == 'X');
    assert(l.last() == mark[mark.len() - 1]);
    lemma_trim_visible(l);
    assert(l.take(n) =~= LOOP_HEADER@);
    assert(l.skip(n).subrange(2, mark.len() as int + 2) =~= mark);
    assert(stands_at(l.skip(n), mark, 2));
    assert forall|j: int| 0 <= j < l.len() implies l[j] != '\n' by {
        if j >= n + 2 {
            assert(l[j] == mark[j - n - 2]);
        }
    }
}

/// A text without white space is not folded.
proof fn lemma_visible_as_it_is(t: Seq<char>, i: int, n: nat)
    requires
        is_visible(t),
        0 <= i <= t.len(),
    ensures
        folded_from(t, i, n) == t.skip(i),
    decreases t.len() - i,
{
    if i < t.len() {
        lemma_visible_as_it_is(t, i + 1, n + 1);
        assert('!' <= t[i] <= '~');
        assert(seq![t[i]] + t.skip(i + 1) =~= t.skip(i));
    } else {
        assert(t.skip(i) =~= seq![]);
    }
}

/// The names of a relayed message's headers are short.
proof fn lemma_short_names(plan: PlanText, relay_domain: Seq<char>)
    ensures
        relay_headers(plan, relay_domain).len() == 8,
        forall|i: int|
            0 <= i < 8 ==> is_short_name((#[trigger] relay_headers(plan, relay_domain)[i]).0),
{
    reveal_strlit("From");
    reveal_strlit("Reply-To");
    reveal_strlit("To");
    reveal_strlit("Subject");
    reveal_strlit("X-Original-From");
    reveal_strlit("X-Original-To");
    reveal_strlit("X-4ward-Relay");
    reveal_strlit("X-4ward-Loop-Detection");
}

/// What stands before the first empty line of a text whose beginning has none: all of that
/// beginning but its last line end, and then nothing, or that line end and more.
proof fn lemma_section(c: Seq<char>, text: Seq<char>)
    requires
        c.len() >= 3,
        c[c.len() - 2] == '\r',
        c[c.len() - 1] == '\n',
        !has_empty_line(c),
        text.len() >= c.len(),
        text.take(c.len() as int) == c,
    ensures
        ({
            let h = before_gap(text);
            let tail = h.skip(c.len() - 2);
            &&& h.len() >= c.len() - 2
            &&& h.take(c.len() - 2) == c.take(c.len() - 2)
            &&& tail.len() == 0 || (tail.len() > 1 && tail[0] == '\r' && tail[1] == '\n')
        }),
{
    let n = c.len() as int;
    let k = next_gap(text, 0);
    lemma_next_gap(text, 0);
    assert forall|j: int| 0 <= j < n implies text[j] == c[j] by {
        assert(text.take(n)[j] == text[j]);
    }
    if k < n - 1 {
        if k == n - 2 {
            assert(text[k] == '\r');
        } else {
            assert(is_gap(c, k));
        }
    }
    let h = before_gap(text);
    if k == n - 1 {
        assert(text.take(k).last() == '\r');
        assert(h =~= c.take(n - 2));
    } else if k < text.len() {
        let upto = text.take(k);
        assert(upto.len() >= n);
        if k == n {
            assert(upto.last() == '\n');
        }
        assert(h.len() >= n);
        assert(h.take(n - 2) =~= c.take(n - 2));
        assert(h.skip(n - 2)[0] == text[n - 2]);
        assert(h.skip(n - 2)[1] == text[n - 1]);
    } else {
        assert(text.take(n - 2) =~= c.take(n - 2));
        assert(text.skip(n - 2)[0] == text[n - 2]);
        assert(text.skip(n - 2)[1] == text[n - 1]);
    }
}

/// A text carries the mark where its beginning has no empty line in it and ends with the line of
/// the loop header, after another line.
#[verifier::rlimit(30)]
proof fn lemma_mark_after(a: Seq<char>, text: Seq<char>, mark: Seq<char>)
    requires
        mark.len() > 0,
        is_visible(mark),
        a.len() >= 3,
        a[a.len() - 2] == '\r',
        a[a.len() - 1] == '\n',
        ({
            let c = a + loop_line(mark) + line_end();
            &&& !has_empty_line(c)
            &&& text.len() >= c.len()
            &&& text.take(c.len() as int) == c
        }),
    ensures
        carries_mark(head(text), mark),
{
    let l = loop_line(mark);
    let c = a + l + line_end();
    lemma_section(c, text);
    let h = before_gap(text);
    let tail = h.skip(c.len() - 2);
    assert(c.take(c.len() - 2) =~= a + l);
    assert(h =~= a + l + tail) by {
        assert(h =~= h.take(c.len() - 2) + tail);
    }
    assert(h.subrange(a.len() - 2, a.len() as int) =~= line_end());
    lemma_head(text, a.len() - 2);
    lemma_loop_line(mark);
    lemma_is_line(a, l, tail);
    let i = choose|i: int| 0 <= i < lines(h).len() && lines(h)[i] == l;
    assert(marks_loop(lines(h)[i], mark));
}

/// A message whose headers include the loop header, with the mark as its value and no empty
/// line before it, carries the mark.
proof fn lemma_mark_found(ls: Seq<Seq<char>>, text: Seq<char>, mark: Seq<char>)
    requires
        ls.len() > 1,
        forall|i: int| 0 <= i < ls.len() ==> is_closed_line(#[trigger] ls[i]),
        text.len() >= ls.flatten().len(),
        text.take(ls.flatten().len() as int) == ls.flatten(),
        mark.len() > 0,
        is_visible(mark),
        ls.last() == loop_line(mark) + line_end(),
    ensures
        carries_mark(head(text), mark),
{
    let before = ls.drop_last();
    assert forall|i: int| 0 <= i < before.len() implies is_closed_line(#[trigger] before[i]) by {
        assert(before[i] == ls[i]);
    }
    lemma_closed_lines(before);
    lemma_closed_lines(ls);
    assert(before.push(ls.last()) =~= ls);
    before.lemma_flatten_push(ls.last());
    assert(ls.flatten() =~= before.flatten() + loop_line(mark) + line_end());
    lemma_mark_after(before.flatten(), text, mark);
}

/// A header section with a CR LF in it is looked at as it stands.
proof fn lemma_head(text: Seq<char>, i: int)
    requires
        stands_at(before_gap(text), line_end(), i),
    ensures
        head(text) == before_gap(text),
{
    reveal_strlit("\r\n");
    assert("\r\n"@ =~= line_end());
}

/// A text carries the mark where it begins with closed lines, as many as there may be, and the
/// header lines of a relayed message follow, as they may be written, with no empty line in them.
pub proof fn lemma_relayed_carries_mark(
    first: Seq<Seq<char>>,
    msg: IncomingText,
    plan: PlanText,
    relay_domain: Seq<char>,
    loop_salt: Seq<char>,
    banner: bool,
    ls: Seq<Seq<char>>,
    text: Seq<char>,
)
    requires
        forall|i: int| 0 <= i < first.len() ==> is_closed_line(#[trigger] first[i]),
        plan.loop_value == loop_mark(relay_domain, loop_salt),
        starts_with_headers(relay_draft(msg, plan, relay_domain, banner), ls, text),
        forall|i: int| 0 <= i < ls.len() ==> !has_empty_line(#[trigger] ls[i]),
    ensures
        carries_mark(head(first.flatten() + text), loop_mark(relay_domain, loop_salt)),
{
    let d = relay_draft(msg, plan, relay_domain, banner);
    let mark = plan.loop_value;
    lemma_short_names(plan, relay_domain);
    lemma_hex_visible(djb2(encode_utf8(loop_salt + ":"@ + relay_domain)), 16);
    assert forall|i: int| 0 <= i < ls.len() implies is_closed_line(#[trigger] ls[i]) by {
        let name = d.headers[i].0;
        assert(is_header_line(name, d.headers[i].1, ls[i]));
        assert(relay_headers(plan, relay_domain)[i] == d.headers[i]);
        assert(is_short_name(name));
        assert(ls[i].take(name.len() as int)[0] == ls[i][0]);
        let end = ls[i].skip(ls[i].len() - 2);
        assert(end[0] == '\r' && end[1] == '\n');
    }
    assert(is_header_line(d.headers[7].0, d.headers[7].1, ls[7]));
    lemma_visible_as_it_is(mark, 0, LOOP_HEADER@.len() + 2);
    assert(mark.skip(0) =~= mark);
    assert(!is_encoded(mark));
    let all = first + ls;
    let whole = first.flatten() + text;
    lemma_flatten_concat(first, ls);
    assert(whole.take(all.flatten().len() as int) =~= all.flatten()) by {
        assert(whole.take(all.flatten().len() as int) =~= first.flatten() + text.take(
            ls.flatten().len() as int,
        ));
    }
    assert(all.last() == ls.last());
    lemma_mark_found(all, whole, mark);
}

/// A message whose header lines are those of a relayed message, as they may be written, and have
/// no empty line in them, is dropped by the relay whose loop value they hold: whatever the message
/// was, wherever it would go, and with or without a banner.
///
/// An empty line within the headers (from a subject that decodes to two line ends, say) leaves the
/// loop header in the body, where nobody looks for it.
pub proof fn law_own_message_is_dropped(
    msg: IncomingText,
    plan: PlanText,
    relay_domain: Seq<char>,
    loop_salt: Seq<char>,
    banner: bool,
    ls: Seq<Seq<char>>,
    text: Seq<char>,
    t: Seq<(Seq<char>, Seq<Seq<char>>)>,
    catch_all: Option<Seq<char>>,
)
    requires
        plan.loop_value == loop_mark(relay_domain, loop_salt),
        starts_with_headers(relay_draft(msg, plan, relay_domain, banner), ls, text),
        forall|i: int| 0 <= i < ls.len() ==> !has_empty_line(#[trigger] ls[i]),
    ensures
        planned(encode_utf8(text), relay_domain, loop_salt, t, catch_all) == Ok::<
            Option<PlanText>,
            Seq<char>,
        >(None),
{
    let none = Seq::<Seq<char>>::empty();
    law_text_of_bytes(text);
    lemma_relayed_carries_mark(none, msg, plan, relay_domain, loop_salt, banner, ls, text);
    assert(none.flatten() + text =~= text);
}

/// Whether the headers of a relayed message are written without an empty line in them, which would
/// end the header section.
pub open spec fn is_unbroken_relay(plan: PlanText, relay_domain: Seq<char>) -> bool {
    forall|i: int|
        0 <= i < relay_headers(plan, relay_domain).len() ==> is_unbroken(
            (#[trigger] relay_headers(plan, relay_domain)[i]).0,
            relay_headers(plan, relay_domain)[i].1,
        )
}

/// How a relayed message is written, where its headers are unbroken: with header lines that have no
/// empty line in them.
pub proof fn lemma_written_lines(
    msg: IncomingText,
    plan: PlanText,
    relay_domain: Seq<char>,
    banner: bool,
    out: Seq<u8>,
) -> (r: (Seq<Seq<char>>, Seq<char>))
    requires
        is_unbroken_relay(plan, relay_domain),
        is_written(relay_draft(msg, plan, relay_domain, banner), out),
    ensures
        out == encode_utf8(r.1),
        starts_with_headers(relay_draft(msg, plan, relay_domain, banner), r.0, r.1),
        forall|i: int| 0 <= i < r.0.len() ==> !has_empty_line(#[trigger] r.0[i]),
{
    let d = relay_draft(msg, plan, relay_domain, banner);
    let (ls, text) = choose|ls: Seq<Seq<char>>, text: Seq<char>|
        out == encode_utf8(text) && #[trigger] starts_with_headers(d, ls, text) && holds_content(
            d,
            text,
        );
    lemma_short_names(plan, relay_domain);
    assert forall|i: int| 0 <= i < ls.len() implies !has_empty_line(#[trigger] ls[i]) by {
        assert(is_header_line(d.headers[i].0, d.headers[i].1, ls[i]));
        assert(relay_headers(plan, relay_domain)[i] == d.headers[i]);
    }
    (ls, text)
}

/// What a relay has written is dropped when it comes in again, where its headers are unbroken: the
/// loop header then stands in the header section.
pub proof fn law_unbroken_message_is_dropped(
    msg: IncomingText,
    plan: PlanText,
    relay_domain: Seq<char>,
    loop_salt: Seq<char>,
    banner: bool,
    out: Seq<u8>,
    t: Seq<(Seq<char>, Seq<Seq<char>>)>,
    catch_all: Option<Seq<char>>,
)
    requires
        plan.loop_value == loop_mark(relay_domain, loop_salt),
        is_unbroken_relay(plan, relay_domain),
        is_written(relay_draft(msg, plan, relay_domain, banner), out),
    ensures
        planned(out, relay_domain, loop_salt, t, catch_all) == Ok::<Option<PlanText>, Seq<char>>(
            None,
        ),
{
    let (ls, text) = lemma_written_lines(msg, plan, relay_domain, banner, out);
    law_own_message_is_dropped(
        msg,
        plan,
        relay_domain,
        loop_salt,
        banner,
        ls,
        text,
        t,
        catch_all,
    );
}

/// Whether each line feed of a text is followed by a character that is not white space.
pub open spec fn keeps_lines_full(t: Seq<char>) -> bool {
    forall|i: int|
        0 <= i < t.len() && #[trigger] t[i] == '\n' ==> i + 1 < t.len() && !is_ascii_white(t[i + 1])
}

/// Folding makes no empty line of a text that keeps its lines full.
proof fn lemma_folded_full(t: Seq<char>, i: int, n: nat)
    requires
        keeps_lines_full(t),
        0 <= i <= t.len(),
    ensures
        ({
            let f = folded_from(t, i, n);
            &&& i < t.len() ==> f.len() > 0
            &&& i < t.len() && !is_ascii_white(t[i]) ==> f[0] == t[i]
            &&& forall|k: int|
                0 <= k < f.len() && #[trigger] f[k] == '\n' ==> k + 1 < f.len() && f[k + 1] != '\n'
                    && f[k + 1] != '\r'
        }),
    decreases t.len() - i,
{
    let f = folded_from(t, i, n);
    if i < t.len() {
        let fold = n >= 76 && is_ascii_white(t[i]) && i < t.len() - 1;
        let m: nat = if fold {
            2
        } else {
            n + 1
        };
        let first = if fold {
            seq!['\r', '\n', '\t', t[i]]
        } else {
            seq![t[i]]
        };
        let rest = folded_from(t, i + 1, m);
        lemma_folded_full(t, i + 1, m);
        assert(f == first + rest);
        assert forall|k: int| 0 <= k < f.len() && #[trigger] f[k] == '\n' implies k + 1 < f.len()
            && f[k + 1] != '\n' && f[k + 1] != '\r' by {
            if k >= first.len() {
                assert(rest[k - first.len()] == f[k]);
                assert(f[k + 1] == rest[k + 1 - first.len()]);
            } else if k == first.len() - 1 {
                assert(t[i] == '\n');
                assert(f[k + 1] == rest[0]);
            }
        }
    }
}

/// A header whose text keeps its lines full is unbroken, and so is one whose text has no line feeds
/// at all.
pub proof fn law_full_lines_are_unbroken(name: Seq<char>, t: Seq<char>)
    requires
        is_short_name(name),
        keeps_lines_full(t),
    ensures
        is_unbroken(name, HeaderValue::Text(t)),
{
    let line = text_line(name, t);
    let f = folded_from(t, 0, name.len() + 2);
    lemma_folded_full(t, 0, name.len() + 2);
    let m = name.len() as int + 2;
    assert forall|k: int| !is_gap(line, k) by {
        if is_gap(line, k) {
            if k < name.len() {
                assert(line[k] == name[k]);
            } else if k >= m && k < m + f.len() {
                assert(line[k] == f[k - m]);
                assert(line[k + 1] == f[k + 1 - m]);
            }
        }
    }
}

/// A header whose text fits on the line is unbroken exactly where the header has no empty line in
/// it as it stands.
pub proof fn law_short_texts_as_they_are(name: Seq<char>, t: Seq<char>)
    requires
        !is_encoded(t),
        name.len() + t.len() <= 75,
    ensures
        is_unbroken(name, HeaderValue::Text(t)) == !has_empty_line(
            name + seq![':', ' '] + t + line_end(),
        ),
{
    lemma_short_as_it_is(t, 0, name.len() + 2);
    assert(t.skip(0) =~= t);
}

/// A text that fits on the line is not folded.
proof fn lemma_short_as_it_is(t: Seq<char>, i: int, n: nat)
    requires
        0 <= i <= t.len(),
        n + t.len() - i <= 77,
    ensures
        folded_from(t, i, n) == t.skip(i),
    decreases t.len() - i,
{
    if i < t.len() {
        lemma_short_as_it_is(t, i + 1, n + 1);
        assert(seq![t[i]] + t.skip(i + 1) =~= t.skip(i));
    } else {
        assert(t.skip(i) =~= seq![]);
    }
}

/// A relay drops what it has relayed: the message that was made of `raw` comes to nothing.
pub proof fn law_no_loops(raw: Seq<u8>, plan: PlanText, s: RelaySettings, out: Relayed)
    requires
        planned_by(raw, s) == Ok::<Option<PlanText>, Seq<char>>(Some(plan)),
        relays(raw, plan, s, out),
        is_unbroken_relay(plan, s.relay_domain@),
    ensures
        planned_by(out.raw@, s) == Ok::<Option<PlanText>, Seq<char>>(None),
{
    law_unbroken_message_is_dropped(
        incoming(raw)->0,
        plan,
        s.relay_domain@,
        s.loop_salt@,
        s.banner,
        out.raw@,
        table(s.routes@),
        maybe_text(s.catch_all),
    );
}

} // verus!
