//! What a relayed message keeps of the original, and who it comes from.
use vstd::prelude::*;
use vstd::utf8::encode_utf8;

use crate::config::rendered;
use crate::crypto::{base64, law_text_of_bytes, message_text};
use crate::forward::{
    address_text, alias_parts, carries_mark, destinations_of, display_name, first_destination, head,
    html_banner, loop_mark, planned_by, relay_address, relay_draft, relay_headers, relays,
    text_banner, with_banner, PlanText, RelaySettings, Relayed, LOOP_HEADER,
};
use crate::mail::{
    base64_lines, encoded, holds_attachment, holds_base64, holds_body, holds_content, incoming,
    is_encoded, is_plain_name, is_text_type, is_written, name_line, starts_with_headers, text_line,
    HeaderValue, IncomingText,
};
use crate::request_laws::{lemma_header_is_written, lemma_named_both, lemma_named_one, named};
use crate::routes::table;
use crate::text::{
    has_text, is_blank, lemma_replace_after, lemma_replace_whole, maybe_text, replace, texts,
};

verus! {

/// A relayed message keeps the original's bodies, after the banner where it is wanted, and its
/// attachments: their number, their order, their contents and the names of those that have one.
pub proof fn law_content_is_kept(
    msg: IncomingText,
    plan: PlanText,
    relay_domain: Seq<char>,
    banner: bool,
)
    ensures
        ({
            let d = relay_draft(msg, plan, relay_domain, banner);
            &&& msg.text matches Some(t) ==> d.text is Some && t.is_suffix_of(d.text->0) && (!banner
                ==> d.text == Some(t))
            &&& msg.html matches Some(h) ==> d.html is Some && h.is_suffix_of(d.html->0) && (!banner
                ==> d.html == Some(h))
            &&& msg.html is None ==> d.html is None
            &&& d.attachments.len() == msg.attachments.len()
            &&& forall|i: int|
                0 <= i < msg.attachments.len() ==> {
                    &&& (#[trigger] d.attachments[i]).2 == msg.attachments[i].1
                    &&& msg.attachments[i].0 matches Some(n) ==> d.attachments[i].1 == n
                }
        }),
{
    let d = relay_draft(msg, plan, relay_domain, banner);
    if let Some(t) = msg.text {
        assert(d.text->0.skip(d.text->0.len() - t.len()) =~= t);
    }
    if let Some(h) = msg.html {
        assert(d.html->0.skip(d.html->0.len() - h.len()) =~= h);
    }
}

/// Each attachment of the original stands in the relayed message as it is written, in base64,
/// from which no other contents could have come, and directly after its name where that is plain.
pub proof fn law_attachments_are_written(
    msg: IncomingText,
    plan: PlanText,
    relay_domain: Seq<char>,
    banner: bool,
    out: Seq<u8>,
    i: int,
)
    requires
        is_written(relay_draft(msg, plan, relay_domain, banner), out),
        0 <= i < msg.attachments.len(),
    ensures
        holds_base64(message_text(out), msg.attachments[i].1),
        msg.attachments[i].0 matches Some(name) ==> is_plain_name(name) ==> has_text(
            message_text(out),
            name_line(name) + encoded("base64"@, base64_lines(base64(msg.attachments[i].1))),
        ),
{
    let d = relay_draft(msg, plan, relay_domain, banner);
    let (ls, text) = choose|ls: Seq<Seq<char>>, text: Seq<char>|
        out == encode_utf8(text) && #[trigger] starts_with_headers(d, ls, text) && holds_content(
            d,
            text,
        );
    law_text_of_bytes(text);
    reveal_strlit("text/");
    reveal_strlit("application/octet-stream");
    assert(!is_text_type("application/octet-stream"@)) by {
        assert("text/"@[0] == 't');
        assert("application/octet-stream"@[0] == 'a');
    }
    assert(d.attachments[i].0 == "application/octet-stream"@);
    assert(holds_attachment(text, d.attachments[i]));
}

/// The bodies of the original stand in the relayed message as it is written, after the banner where
/// it is wanted: as they are where they are plain, and so that they can be read back where their
/// line breaks are even.
pub proof fn law_bodies_are_written(
    msg: IncomingText,
    plan: PlanText,
    relay_domain: Seq<char>,
    banner: bool,
    out: Seq<u8>,
)
    requires
        is_written(relay_draft(msg, plan, relay_domain, banner), out),
    ensures
        holds_body(
            message_text(out),
            with_banner(
                msg.text,
                text_banner(plan.alias, plan.domain, first_destination(plan), plan.original_from),
                banner,
            ),
        ),
        holds_body(
            message_text(out),
            with_banner(
                msg.html,
                html_banner(plan.alias, plan.domain, first_destination(plan), plan.original_from),
                banner,
            ),
        ),
{
    let d = relay_draft(msg, plan, relay_domain, banner);
    let (ls, text) = choose|ls: Seq<Seq<char>>, text: Seq<char>|
        out == encode_utf8(text) && #[trigger] starts_with_headers(d, ls, text) && holds_content(
            d,
            text,
        );
    law_text_of_bytes(text);
}

/// A relayed message comes from an address of the relay's own domain, replies to it go to the
/// original sender, and the original sender and recipient stand in headers of their own.
pub proof fn law_sender_is_rewritten(
    msg: IncomingText,
    plan: PlanText,
    relay_domain: Seq<char>,
    banner: bool,
)
    ensures
        ({
            let h = relay_draft(msg, plan, relay_domain, banner).headers;
            &&& h.contains(
                (
                    "From"@,
                    HeaderValue::Address(Some(display_name(plan)), "relay@"@ + relay_domain),
                ),
            )
            &&& h.contains(("Reply-To"@, HeaderValue::Address(None, plan.original_from)))
            &&& h.contains(("X-Original-From"@, HeaderValue::Text(plan.original_from)))
            &&& h.contains(("X-Original-To"@, HeaderValue::Text(plan.original_to)))
            &&& h.contains(("X-4ward-Relay"@, HeaderValue::Text("true"@)))
            &&& h.contains((LOOP_HEADER@, HeaderValue::Text(plan.loop_value)))
        }),
{
    let h = relay_draft(msg, plan, relay_domain, banner).headers;
    assert(h == relay_headers(plan, relay_domain));
    assert(h.contains(h[0]));
    assert(h.contains(h[1]));
    assert(h.contains(h[4]));
    assert(h.contains(h[5]));
    assert(h.contains(h[6]));
    assert(h.contains(h[7]));
}

/// What is planned is delivered to someone, and carries the relay's own mark.
pub proof fn law_plans_have_destinations(raw: Seq<u8>, s: RelaySettings)
    ensures
        planned_by(raw, s) matches Ok(Some(plan)) ==> plan.destinations.len() > 0
            && plan.loop_value == loop_mark(s.relay_domain@, s.loop_salt@),
{
}

/// Mail that is routed is relayed: a message that does not carry the relay's mark and is for an
/// alias with destinations is planned to go to these.
pub proof fn law_routed_mail_is_planned(raw: Seq<u8>, s: RelaySettings)
    requires
        incoming(raw) is Some,
        alias_parts(address_text(incoming(raw)->0.to)) is Some,
        !carries_mark(head(message_text(raw)), loop_mark(s.relay_domain@, s.loop_salt@)),
        ({
            let (alias, domain) = alias_parts(address_text(incoming(raw)->0.to))->0;
            destinations_of(alias, domain, table(s.routes@), maybe_text(s.catch_all)).len() > 0
        }),
    ensures
        ({
            let (alias, domain) = alias_parts(address_text(incoming(raw)->0.to))->0;
            planned_by(raw, s) matches Ok(Some(plan)) && plan.destinations == destinations_of(
                alias,
                domain,
                table(s.routes@),
                maybe_text(s.catch_all),
            )
        }),
{
}

/// Replacing the only place of a text, after a beginning and before an end that it cannot begin
/// in.
proof fn lemma_replace_only(
    a: Seq<char>,
    pat: Seq<char>,
    b: Seq<char>,
    to: Seq<char>,
)
    requires
        pat.len() > 0,
        forall|i: int| 0 <= i < a.len() ==> a[i] != pat[0],
        replace(b, pat, to) == b,
    ensures
        replace(a + (pat + b), pat, to) == a + to + b,
{
    lemma_replace_after(a, pat + b, pat, to);
    assert(pat.is_prefix_of(pat + b));
    assert((pat + b).skip(pat.len() as int) =~= b);
    assert(a + (to + b) =~= a + to + b);
}

/// The text with one brace in it, which begins something else than what is replaced, is not
/// changed.
proof fn lemma_replace_other(
    a: Seq<char>,
    b: Seq<char>,
    pat: Seq<char>,
    to: Seq<char>,
)
    requires
        pat.len() > 1,
        b.len() > 1,
        forall|i: int| 0 <= i < a.len() ==> a[i] != pat[0],
        b[1] != pat[1],
        forall|i: int| 1 <= i < b.len() ==> b[i] != pat[0],
    ensures
        replace(a + b, pat, to) == a + b,
{
    lemma_replace_after(a, b, pat, to);
    assert(!pat.is_prefix_of(b));
    let rest = b.skip(1);
    assert forall|i: int| 0 <= i < rest.len() implies rest[i] != pat[0] by {
        assert(rest[i] == b[i + 1]);
    }
    lemma_replace_whole(rest, pat, to);
    assert(seq![b[0]] + rest =~= b);
}

/// The parts of the sender's form that a configuration has by default.
spec fn name_place() -> Seq<char> {
    seq!['{', 'n', 'a', 'm', 'e', '}']
}

spec fn via() -> Seq<char> {
    seq![' ', '(', 'v', 'i', 'a', ' ']
}

spec fn alias_place() -> Seq<char> {
    seq!['{', 'a', 'l', 'i', 'a', 's', '}']
}

spec fn relay_at() -> Seq<char> {
    seq![')', ' ', '<', 'r', 'e', 'l', 'a', 'y', '@']
}

spec fn domain_place() -> Seq<char> {
    seq!['{', 'd', 'o', 'm', 'a', 'i', 'n', '}']
}

proof fn lemma_name_replaced(name: Seq<char>)
    ensures
        ({
            let rest = via() + (alias_place() + (relay_at() + (domain_place() + seq!['>'])));
            replace(name_place() + rest, name_place(), name) == name + rest
        }),
{
    let tail = domain_place() + seq!['>'];
    let middle = alias_place() + (relay_at() + tail);
    lemma_replace_later(alias_place(), relay_at(), tail, name_place(), name);
    lemma_replace_after(via(), middle, name_place(), name);
    lemma_replace_only(Seq::empty(), name_place(), via() + middle, name);
    let form = name_place() + (via() + middle);
    assert(Seq::<char>::empty() + form =~= form);
    assert(Seq::<char>::empty() + name + (via() + middle) =~= name + (via() + middle));
}

proof fn lemma_alias_replaced(name: Seq<char>, alias: Seq<char>)
    requires
        no_brace(name),
    ensures
        ({
            let rest = relay_at() + (domain_place() + seq!['>']);
            replace(name + (via() + (alias_place() + rest)), alias_place(), alias) == name + via()
                + alias + rest
        }),
{
    let tail = domain_place() + seq!['>'];
    let rest = relay_at() + tail;
    let before = name + via();
    lemma_replace_other(relay_at(), tail, alias_place(), alias);
    assert forall|i: int| 0 <= i < before.len() implies before[i] != alias_place()[0] by {
        if i < name.len() {
            assert(before[i] == name[i]);
        } else {
            assert(before[i] == via()[i - name.len()]);
        }
    }
    lemma_replace_only(before, alias_place(), rest, alias);
    assert(name + (via() + (alias_place() + rest)) =~= before + (alias_place() + rest));
}

proof fn lemma_domain_replaced(name: Seq<char>, alias: Seq<char>, domain: Seq<char>)
    requires
        no_brace(name),
        no_brace(alias),
    ensures
        replace(
            name + via() + alias + (relay_at() + (domain_place() + seq!['>'])),
            domain_place(),
            domain,
        ) == name + via() + alias + relay_at() + domain + seq!['>'],
{
    let before = name + via() + alias + relay_at();
    let end = seq!['>'];
    assert forall|i: int| 0 <= i < before.len() implies before[i] != domain_place()[0] by {
        if i < name.len() {
            assert(before[i] == name[i]);
        } else if i < name.len() + 6 {
            assert(before[i] == via()[i - name.len()]);
        } else if i < name.len() + 6 + alias.len() {
            assert(before[i] == alias[i - name.len() - 6]);
        } else {
            assert(before[i] == relay_at()[i - name.len() - 6 - alias.len()]);
        }
    }
    lemma_replace_whole(end, domain_place(), domain);
    lemma_replace_only(before, domain_place(), end, domain);
    assert(name + via() + alias + (relay_at() + (domain_place() + end)) =~= before + (
    domain_place() + end));
}

/// The form and its places, by their parts.
proof fn lemma_form()
    ensures
        "{name} (via {alias}) <relay@{domain}>"@ == name_place() + (via() + (alias_place() + (
        relay_at() + (domain_place() + seq!['>'])))),
        "{name}"@ == name_place(),
        "{alias}"@ == alias_place(),
        "{domain}"@ == domain_place(),
{
    reveal_strlit("{name} (via {alias}) <relay@{domain}>");
    reveal_strlit("{name}");
    reveal_strlit("{alias}");
    reveal_strlit("{domain}");
    assert("{name} (via {alias}) <relay@{domain}>"@ =~= name_place() + (via() + (alias_place() + (
    relay_at() + (domain_place() + seq!['>'])))));
    assert("{name}"@ =~= name_place());
    assert("{alias}"@ =~= alias_place());
    assert("{domain}"@ =~= domain_place());
}

/// The sender of a relayed message, by the parts of the form.
proof fn lemma_shown(name: Seq<char>, alias: Seq<char>, domain: Seq<char>)
    ensures
        name + " (via "@ + alias + ")"@ + " <"@ + ("relay@"@ + domain) + ">"@ == name + via()
            + alias + relay_at() + domain + seq!['>'],
{
    reveal_strlit(" (via ");
    reveal_strlit(")");
    reveal_strlit(" <");
    reveal_strlit(">");
    reveal_strlit("relay@");
    assert(" (via "@ =~= via());
    assert(")"@ + (" <"@ + "relay@"@) =~= relay_at());
    assert(">"@ =~= seq!['>']);
    assert(name + " (via "@ + alias + ")"@ + " <"@ + ("relay@"@ + domain) + ">"@ =~= name + via()
        + alias + (")"@ + (" <"@ + "relay@"@)) + domain + seq!['>']);
}

/// The sender's form that a configuration has by default is rendered to the name and the address
/// that the relay gives its messages, where the names have no braces in them.
pub proof fn law_default_sender(plan: PlanText, relay_domain: Seq<char>)
    requires
        !plan.original_from_name.contains('{'),
        !plan.alias.contains('{'),
    ensures
        rendered(
            "{name} (via {alias}) <relay@{domain}>"@,
            plan.original_from_name,
            plan.alias,
            relay_domain,
        ) == display_name(plan) + " <"@ + relay_address(relay_domain) + ">"@,
{
    let name = if is_blank(plan.original_from_name) {
        plan.alias
    } else {
        plan.original_from_name
    };
    assert(no_brace(plan.original_from_name));
    assert(no_brace(plan.alias));
    lemma_form();
    lemma_name_replaced(name);
    lemma_alias_replaced(name, plan.alias);
    lemma_domain_replaced(name, plan.alias, relay_domain);
    lemma_shown(name, plan.alias, relay_domain);
}

spec fn no_brace(s: Seq<char>) -> bool {
    forall|i: int| 0 <= i < s.len() ==> #[trigger] s[i] != '{'
}

/// The end of the sender's form, from the alias on, has no place for the name.
proof fn lemma_replace_later(
    l: Seq<char>,
    close: Seq<char>,
    tail: Seq<char>,
    n: Seq<char>,
    name: Seq<char>,
)
    requires
        n.len() > 1,
        n[0] == '{',
        l.len() > 1,
        l[1] != n[1],
        tail.len() > 1,
        tail[1] != n[1],
        forall|i: int| 1 <= i < l.len() ==> l[i] != '{',
        forall|i: int| 0 <= i < close.len() ==> close[i] != '{',
        forall|i: int| 1 <= i < tail.len() ==> tail[i] != '{',
    ensures
        replace(l + (close + tail), n, name) == l + (close + tail),
{
    let s = l + (close + tail);
    assert(!n.is_prefix_of(s)) by {
        assert(s[1] == l[1]);
    }
    let a = l.skip(1) + close;
    assert(s.skip(1) =~= a + tail);
    assert forall|i: int| 0 <= i < a.len() implies a[i] != n[0] by {
        if i < l.len() - 1 {
            assert(a[i] == l[i + 1]);
        } else {
            assert(a[i] == close[i - (l.len() - 1)]);
        }
    }
    lemma_replace_other(a, tail, n, name);
    assert(seq![s[0]] + s.skip(1) =~= s);
}

// ---------------------------------------------------------------------------------------------
// Headers and banners
// ---------------------------------------------------------------------------------------------

/// There is no header of a name that none has.
proof fn lemma_none_named(h: Seq<(Seq<char>, HeaderValue)>, name: Seq<char>)
    requires
        forall|i: int| 0 <= i < h.len() ==> (#[trigger] h[i]).0 != name,
    ensures
        named(h, name) == Seq::<(Seq<char>, HeaderValue)>::empty(),
    decreases h.len(),
{
    reveal(Seq::filter);
    if h.len() > 0 {
        let less = h.drop_last();
        assert forall|i: int| 0 <= i < less.len() implies (#[trigger] less[i]).0 != name by {
            assert(less[i] == h[i]);
        }
        lemma_none_named(less, name);
        assert(h[h.len() - 1].0 != name);
    }
}

/// The header of a name that only one has.
proof fn lemma_only_named(h: Seq<(Seq<char>, HeaderValue)>, i: int)
    requires
        0 <= i < h.len(),
        forall|j: int| 0 <= j < h.len() && j != i ==> (#[trigger] h[j]).0 != h[i].0,
    ensures
        named(h, h[i].0) == seq![h[i]],
{
    let name = h[i].0;
    let a = h.take(i);
    let m = seq![h[i]];
    let b = h.skip(i + 1);
    assert(h =~= a + m + b);
    lemma_named_both(a + m, b, name);
    lemma_named_both(a, m, name);
    lemma_named_one(h[i], name);
    assert forall|j: int| 0 <= j < a.len() implies (#[trigger] a[j]).0 != name by {
        assert(a[j] == h[j]);
    }
    assert forall|j: int| 0 <= j < b.len() implies (#[trigger] b[j]).0 != name by {
        assert(b[j] == h[i + 1 + j]);
    }
    lemma_none_named(a, name);
    lemma_none_named(b, name);
    assert(named(h, name) =~= seq![h[i]]);
}

/// The names of the headers of a relayed message are different.
proof fn lemma_relay_names(plan: PlanText, relay_domain: Seq<char>)
    ensures
        relay_headers(plan, relay_domain).len() == 8,
        forall|i: int, j: int|
            0 <= i < 8 && 0 <= j < 8 && i != j ==> (#[trigger] relay_headers(
                plan,
                relay_domain,
            )[i]).0 != (#[trigger] relay_headers(plan, relay_domain)[j]).0,
{
    reveal_strlit("From");
    reveal_strlit("Reply-To");
    reveal_strlit("To");
    reveal_strlit("Subject");
    reveal_strlit("X-Original-From");
    reveal_strlit("X-Original-To");
    reveal_strlit("X-4ward-Relay");
    reveal_strlit("X-4ward-Loop-Detection");
    assert("From"@.len() == 4 && "Reply-To"@.len() == 8 && "To"@.len() == 2);
    assert("Subject"@.len() == 7 && "X-Original-From"@.len() == 15);
    assert("X-Original-To"@.len() == 13 && "X-Original-To"@[2] == 'O');
    assert("X-4ward-Relay"@.len() == 13 && "X-4ward-Relay"@[2] == '4');
    assert(LOOP_HEADER@.len() == 22);
}

/// A relayed message goes to the destinations, under the subject of the original; it comes from the
/// relay under the original sender's name, or under the alias where the sender has none, and
/// replies go to the original sender. There is exactly one header for each of these, one each for
/// the original sender and recipient, one that says that it was relayed, one with the mark, and no
/// other.
pub proof fn law_relayed_headers(
    msg: IncomingText,
    plan: PlanText,
    relay_domain: Seq<char>,
    banner: bool,
)
    ensures
        ({
            let h = relay_draft(msg, plan, relay_domain, banner).headers;
            let name = if is_blank(plan.original_from_name) {
                plan.alias
            } else {
                plan.original_from_name
            };
            &&& h.len() == 8
            &&& named(h, "From"@) == seq![
                (
                    "From"@,
                    HeaderValue::Address(
                        Some(name + " (via "@ + plan.alias + ")"@),
                        "relay@"@ + relay_domain,
                    ),
                ),
            ]
            &&& named(h, "Reply-To"@) == seq![
                ("Reply-To"@, HeaderValue::Address(None, plan.original_from)),
            ]
            &&& named(h, "To"@) == seq![("To"@, HeaderValue::Addresses(plan.destinations))]
            &&& named(h, "Subject"@) == seq![("Subject"@, HeaderValue::Text(plan.subject))]
            &&& named(h, "X-Original-From"@) == seq![
                ("X-Original-From"@, HeaderValue::Text(plan.original_from)),
            ]
            &&& named(h, "X-Original-To"@) == seq![
                ("X-Original-To"@, HeaderValue::Text(plan.original_to)),
            ]
            &&& named(h, "X-4ward-Relay"@) == seq![("X-4ward-Relay"@, HeaderValue::Text("true"@))]
            &&& named(h, "X-4ward-Loop-Detection"@) == seq![
                ("X-4ward-Loop-Detection"@, HeaderValue::Text(plan.loop_value)),
            ]
        }),
{
    let h = relay_draft(msg, plan, relay_domain, banner).headers;
    assert(h == relay_headers(plan, relay_domain));
    lemma_relay_names(plan, relay_domain);
    lemma_only_named(h, 0);
    lemma_only_named(h, 1);
    lemma_only_named(h, 2);
    lemma_only_named(h, 3);
    lemma_only_named(h, 4);
    lemma_only_named(h, 5);
    lemma_only_named(h, 6);
    lemma_only_named(h, 7);
}

/// The subject, the original sender and recipient, that it was relayed, and the mark stand in a
/// relayed message as it is written, each in a header of its own, where they need not be encoded.
pub proof fn law_texts_are_written(
    msg: IncomingText,
    plan: PlanText,
    relay_domain: Seq<char>,
    banner: bool,
    out: Seq<u8>,
)
    requires
        is_written(relay_draft(msg, plan, relay_domain, banner), out),
    ensures
        !is_encoded(plan.subject) ==> has_text(
            message_text(out),
            text_line("Subject"@, plan.subject),
        ),
        !is_encoded(plan.original_from) ==> has_text(
            message_text(out),
            text_line("X-Original-From"@, plan.original_from),
        ),
        !is_encoded(plan.original_to) ==> has_text(
            message_text(out),
            text_line("X-Original-To"@, plan.original_to),
        ),
        !is_encoded(plan.loop_value) ==> has_text(
            message_text(out),
            text_line("X-4ward-Loop-Detection"@, plan.loop_value),
        ),
{
    reveal_strlit("Subject");
    reveal_strlit("X-Original-From");
    reveal_strlit("X-Original-To");
    reveal_strlit("X-4ward-Loop-Detection");
    law_relayed_headers(msg, plan, relay_domain, banner);
    let d = relay_draft(msg, plan, relay_domain, banner);
    if !is_encoded(plan.subject) {
        lemma_header_is_written(d, out, "Subject"@, plan.subject);
    }
    if !is_encoded(plan.original_from) {
        lemma_header_is_written(d, out, "X-Original-From"@, plan.original_from);
    }
    if !is_encoded(plan.original_to) {
        lemma_header_is_written(d, out, "X-Original-To"@, plan.original_to);
    }
    if !is_encoded(plan.loop_value) {
        lemma_header_is_written(d, out, "X-4ward-Loop-Detection"@, plan.loop_value);
    }
}

/// Where the banner is wanted, each body begins with it: it says which alias the message was for,
/// where it goes first, and who sent it. Where it is not wanted the bodies are those of the
/// original. A message without a body says that it was empty.
pub proof fn law_banner(
    msg: IncomingText,
    plan: PlanText,
    relay_domain: Seq<char>,
)
    requires
        plan.destinations.len() > 0,
    ensures
        ({
            let with = relay_draft(msg, plan, relay_domain, true);
            let without = relay_draft(msg, plan, relay_domain, false);
            &&& msg.text matches Some(t) ==> with.text == Some(
                "Forwarded by 4ward from "@ + plan.alias + "@"@ + plan.domain + " to "@
                    + plan.destinations[0] + ". Original sender: "@ + plan.original_from + "\n\n"@
                    + t,
            ) && without.text == Some(t)
            &&& msg.html matches Some(b) ==> with.html == Some(
                "<div style=\"background:#f4f4f5;padding:8px;font-size:12px;border-radius:4px;color:#333;margin-bottom:12px;\">\n  Forwarded by 4ward from <b>"@
                    + plan.alias + "@"@ + plan.domain + "</b> to <b>"@ + plan.destinations[0]
                    + "</b>. Original sender: <b>"@ + plan.original_from + "</b>\n</div>"@ + b,
            ) && without.html == Some(b)
            &&& msg.text is None && msg.html is None ==> with.text == Some(
                "(empty message forwarded by 4ward)"@,
            ) && without.text == Some("(empty message forwarded by 4ward)"@)
            &&& msg.text is None && msg.html is Some ==> with.text is None && without.text is None
            &&& msg.html is None ==> with.html is None && without.html is None
        }),
{
}

/// What is handed on for a relayed message is sent under the relay's own address, to the
/// destinations of the plan and to no one else.
pub proof fn law_delivered(raw: Seq<u8>, plan: PlanText, s: RelaySettings, out: Relayed)
    requires
        relays(raw, plan, s, out),
    ensures
        out.from@ == "relay@"@ + s.relay_domain@,
        out.destinations@.len() == plan.destinations.len(),
        forall|i: int|
            0 <= i < plan.destinations.len() ==> (#[trigger] out.destinations@[i])@
                == plan.destinations[i],
{
    assert(texts(out.destinations@).len() == out.destinations@.len());
    assert forall|i: int| 0 <= i < plan.destinations.len() implies (#[trigger] out.destinations@[i])@
        == plan.destinations[i] by {
        assert(texts(out.destinations@)[i] == out.destinations@[i]@);
    }
}

/// The attachments of a relayed message are of a generic type, and those without a name get one.
pub proof fn law_attachments_are_generic(
    msg: IncomingText,
    plan: PlanText,
    relay_domain: Seq<char>,
    banner: bool,
    i: int,
)
    requires
        0 <= i < msg.attachments.len(),
    ensures
        relay_draft(msg, plan, relay_domain, banner).attachments[i].0
            == "application/octet-stream"@,
        msg.attachments[i].0 is None ==> relay_draft(
            msg,
            plan,
            relay_domain,
            banner,
        ).attachments[i].1 == "attachment.bin"@,
{
}

} // verus!
