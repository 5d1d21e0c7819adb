//! Forwarding: from a message that came in to the message that is relayed in its place.
//!
//! A message is planned first. Where it has come through this relay before it is dropped;
//! otherwise the recipient's alias is resolved to destinations. Then the message is put together
//! anew: it comes from the relay's own address, replies go to the original sender, and headers
//! for auditing and for the detection of loops are added.
use vstd::prelude::*;
use vstd::utf8::encode_utf8;

use crate::crypto::{hex_number, hex_number_text, lossy, message_text};
use crate::mail::{
    add_attachment, add_from, add_header, add_reply_to, add_subject, add_to, draft, incoming,
    is_written, may_write, new_message, read_message, set_html, set_text, write_message, Draft,
    HeaderValue, Incoming, IncomingText, MailboxText,
};
use crate::routes::{as_map, distinct, map_of_json, route, routed, table, table_from_json};
use crate::text::{
    before_empty_line, before_gap, blank, chars_of, contains, contains_text, copy_of,
    eq_ignore_case, has_char, has_text, holds_char, is_blank, last_of, lines, lines_of, lowercase,
    maybe_text, replace, replace_text, rfind_char, runs, same_ignoring_case, same_text, split_once,
    split_once_at, text_of, texts, trim, trim_end_of, trim_of, trimmed, trimmed_end, Class,
};

verus! {

broadcast use vstd::seq_lib::group_seq_properties;

/// The header that marks what has been relayed.
pub const LOOP_HEADER: &'static str = "X-4ward-Loop-Detection";

// ---------------------------------------------------------------------------------------------
// Loops
// ---------------------------------------------------------------------------------------------

/// The djb2 hash of `b` in 64 bits: from 5381 on, times 33 and the next byte added.
pub open spec fn djb2(b: Seq<u8>) -> nat
    decreases b.len(),
{
    if b.len() == 0 {
        5381
    } else {
        (djb2(b.drop_last()) * 33 + b.last() as nat) % 0x1_0000_0000_0000_0000
    }
}

/// The value by which a relay knows its own messages.
pub open spec fn loop_mark(domain: Seq<char>, salt: Seq<char>) -> Seq<char> {
    hex_number(djb2(encode_utf8(salt + ":"@ + domain)), 16)
}

/// The value by which a relay knows its own messages: sixteen hexadecimal digits.
pub fn loop_hash(domain: &str, salt: &str) -> (r: String)
    ensures
        r@ == loop_mark(domain@, salt@),
{
    let mut text = copy_of(salt);
    text.append(":");
    text.append(domain);
    let bytes = text.as_str().as_bytes();
    let mut h: u64 = 5381;
    for i in 0..bytes.len()
        invariant
            h == djb2(bytes@.take(i as int)),
    {
        let b: u8 = bytes[i];
        assert(bytes@.take(i + 1).drop_last() == bytes@.take(i as int));
        assert(bytes@.take(i + 1).last() == b);
        let ghost before = h as int;
        h = h.wrapping_mul(33).wrapping_add(b as u64);
        proof {
            lemma_wrap(before * 33, b as int);
        }
    }
    assert(bytes@.take(bytes@.len() as int) == bytes@);
    hex_number_text(h, 16)
}

/// Wrapping after each of two steps is wrapping once.
proof fn lemma_wrap(x: int, y: int)
    requires
        0 <= x,
        0 <= y < 0x1_0000_0000_0000_0000,
    ensures
        (x + y) % 0x1_0000_0000_0000_0000 == (if x % 0x1_0000_0000_0000_0000 + y
            > 0xffff_ffff_ffff_ffff {
            x % 0x1_0000_0000_0000_0000 + y - 0x1_0000_0000_0000_0000
        } else {
            x % 0x1_0000_0000_0000_0000 + y
        }),
{
}

/// Whether a line is the loop header and holds the value `mark`.
pub open spec fn marks_loop(line: Seq<char>, mark: Seq<char>) -> bool {
    let l = trim(line);
    let n = LOOP_HEADER@.len() as int;
    l.len() > n && same_ignoring_case(l.take(n), LOOP_HEADER@) && has_text(l.skip(n), mark)
}

/// Whether some line of a header section is the loop header and holds the value `mark`.
pub open spec fn carries_mark(headers: Seq<char>, mark: Seq<char>) -> bool {
    exists|i: int| 0 <= i < lines(headers).len() && marks_loop(#[trigger] lines(headers)[i], mark)
}

/// Whether a header section shows that the message has been relayed already.
pub fn is_loop(headers_raw: &str, expected_hash: &str) -> (r: bool)
    ensures
        r == carries_mark(headers_raw@, expected_hash@),
{
    let cs = chars_of(headers_raw);
    let ls = lines_of(cs.as_slice());
    let name = chars_of(LOOP_HEADER);
    let mark = chars_of(expected_hash);
    for i in 0..ls.len()
        invariant
            runs(ls@) == lines(headers_raw@),
            name@ == LOOP_HEADER@,
            mark@ == expected_hash@,
            forall|j: int|
                0 <= j < i ==> !marks_loop(#[trigger] lines(headers_raw@)[j], expected_hash@),
    {
        assert(runs(ls@)[i as int] == ls@[i as int]@);
        let line = trim_of(ls[i], Class::White);
        let n: usize = name.len();
        if line.len() > n {
            let head = &line[0..n];
            let tail = &line[n..line.len()];
            assert(head@ == line@.take(n as int));
            assert(tail@ == line@.skip(n as int));
            if eq_ignore_case(head, name.as_slice()) && contains(tail, mark.as_slice()) {
                return true;
            }
        }
    }
    false
}

// ---------------------------------------------------------------------------------------------
// Addresses
// ---------------------------------------------------------------------------------------------

/// The name and the address of a mailbox: what stands before and after the last `<`, where the
/// latter holds an `@`, and else no name and the whole text.
pub open spec fn mailbox_parts(s: Seq<char>) -> (Seq<char>, Seq<char>) {
    let i = last_of(s, '<');
    let addr = trim(trimmed_end(s.skip(i + 1), Class::CloseAngle));
    if i >= 0 && addr.contains('@') {
        (trim(trimmed(trim(s.take(i)), Class::Quote)), addr)
    } else {
        (Seq::empty(), trim(s))
    }
}

/// The name and the address of a mailbox.
pub fn parse_address(s: &str) -> (r: (String, String))
    ensures
        (r.0@, r.1@) == mailbox_parts(s@),
{
    let cs = chars_of(s);
    let (name, addr) = address_parts(cs.as_slice());
    (text_of(name), text_of(addr))
}

fn address_parts<'a>(s: &'a [char]) -> (r: (&'a [char], &'a [char]))
    ensures
        (r.0@, r.1@) == mailbox_parts(s@),
{
    match rfind_char(s, '<') {
        Some(i) => {
            let n: usize = s.len();
            let tail = &s[i + 1..n];
            assert(tail@ == s@.skip(i + 1));
            let addr = trim_of(trim_end_of(tail, Class::CloseAngle), Class::White);
            if holds_char(addr, '@') {
                let head = &s[0..i];
                assert(head@ == s@.take(i as int));
                let name = trim_of(
                    trim_of(trim_of(head, Class::White), Class::Quote),
                    Class::White,
                );
                return (name, addr);
            }
        },
        None => {},
    }
    let none = &s[0..0];
    assert(none@ == Seq::<char>::empty());
    (none, trim_of(s, Class::White))
}

/// The local part and the domain of a recipient's address, in lowercase.
pub open spec fn alias_parts(recipient: Seq<char>) -> Option<(Seq<char>, Seq<char>)> {
    let addr = mailbox_parts(trim(trimmed(trim(recipient), Class::Angle))).1;
    match split_once(addr, '@') {
        Some((user, domain)) => Some((lowercase(user), lowercase(domain))),
        None => None,
    }
}

/// The local part and the domain of a recipient's address, in lowercase; none where there is no
/// `@` in it.
pub fn split_alias(recipient: &str) -> (r: Option<(String, String)>)
    ensures
        match r {
            Some((user, domain)) => alias_parts(recipient@) == Some((user@, domain@)),
            None => alias_parts(recipient@) is None,
        },
{
    let cs = chars_of(recipient);
    let bare = trim_of(
        trim_of(trim_of(cs.as_slice(), Class::White), Class::Angle),
        Class::White,
    );
    let addr = address_parts(bare).1;
    match split_once_at(addr, '@') {
        Some(parts) => Some(
            (text_of(parts.0).as_str().to_lowercase(), text_of(parts.1).as_str().to_lowercase()),
        ),
        None => None,
    }
}

// ---------------------------------------------------------------------------------------------
// Routing
// ---------------------------------------------------------------------------------------------

/// The routing table that a JSON text stands for; an empty one where there is no text or it
/// stands for no table.
pub fn alias_map(json: Option<&str>) -> (r: Vec<(String, Vec<String>)>)
    ensures
        distinct(table(r@)),
        match json {
            Some(j) => match map_of_json(j@) {
                Some(m) => as_map(table(r@)) == m,
                None => r@.len() == 0,
            },
            None => r@.len() == 0,
        },
{
    match json {
        Some(j) => match table_from_json(j) {
            Some(t) => t,
            None => Vec::new(),
        },
        None => Vec::new(),
    }
}

/// The text, where there is one that is not empty.
pub open spec fn unless_empty(s: Option<Seq<char>>) -> Option<Seq<char>> {
    match s {
        Some(t) => if t.len() > 0 {
            Some(t)
        } else {
            None
        },
        None => None,
    }
}

/// Where mail for an alias goes: by the routing table, or else to the catch-all address.
pub open spec fn destinations_of(
    alias: Seq<char>,
    domain: Seq<char>,
    t: Seq<(Seq<char>, Seq<Seq<char>>)>,
    catch_all: Option<Seq<char>>,
) -> Seq<Seq<char>> {
    match routed(t, alias + "@"@ + domain) {
        Some(d) => d,
        None => match unless_empty(catch_all) {
            Some(c) => seq![c],
            None => seq![],
        },
    }
}

/// The view of a string slice that may be missing.
pub open spec fn maybe_str(s: Option<&str>) -> Option<Seq<char>> {
    match s {
        Some(t) => Some(t@),
        None => None,
    }
}

/// Where mail for an alias goes: by the routing table, or else to the catch-all address.
pub fn resolve_destinations(
    alias: &str,
    domain: &str,
    routes: &Vec<(String, Vec<String>)>,
    catch_all: Option<&str>,
) -> (r: Vec<String>)
    ensures
        texts(r@) == destinations_of(alias@, domain@, table(routes@), maybe_str(catch_all)),
{
    let mut key = copy_of(alias);
    key.append("@");
    key.append(domain);
    match route(routes, key.as_str()) {
        Some(d) => d,
        None => match catch_all {
            Some(c) => {
                let mut out: Vec<String> = Vec::new();
                if !c.is_empty() {
                    out.push(copy_of(c));
                }
                assert(texts(out@) =~= destinations_of(
                    alias@,
                    domain@,
                    table(routes@),
                    maybe_str(catch_all),
                ));
                out
            },
            None => {
                let out: Vec<String> = Vec::new();
                assert(texts(out@) =~= seq![]);
                out
            },
        },
    }
}

// ---------------------------------------------------------------------------------------------
// The plan
// ---------------------------------------------------------------------------------------------

/// What is done with a message.
#[derive(Debug, Clone)]
pub struct ForwardPlan {
    /// The local part of the recipient's address.
    pub alias: String,
    /// The domain of the recipient's address.
    pub domain: String,
    /// Where the message goes.
    pub destinations: Vec<String>,
    /// The address of the original sender.
    pub original_from: String,
    /// The name of the original sender.
    pub original_from_name: String,
    /// The address of the original recipient.
    pub original_to: String,
    /// The subject.
    pub subject: String,
    /// The value of the loop header.
    pub loop_value: String,
}

/// What a [`ForwardPlan`] holds.
pub struct PlanText {
    pub alias: Seq<char>,
    pub domain: Seq<char>,
    pub destinations: Seq<Seq<char>>,
    pub original_from: Seq<char>,
    pub original_from_name: Seq<char>,
    pub original_to: Seq<char>,
    pub subject: Seq<char>,
    pub loop_value: Seq<char>,
}

impl View for ForwardPlan {
    type V = PlanText;

    open spec fn view(&self) -> PlanText {
        PlanText {
            alias: self.alias@,
            domain: self.domain@,
            destinations: texts(self.destinations@),
            original_from: self.original_from@,
            original_from_name: self.original_from_name@,
            original_to: self.original_to@,
            subject: self.subject@,
            loop_value: self.loop_value@,
        }
    }
}

/// The text, or the empty one where there is none.
pub open spec fn or_empty(s: Option<Seq<char>>) -> Seq<char> {
    match s {
        Some(t) => t,
        None => Seq::empty(),
    }
}

fn text_or_empty(s: &Option<String>) -> (r: String)
    ensures
        r@ == or_empty(maybe_text(*s)),
{
    match s {
        Some(t) => copy_of(t.as_str()),
        None => String::new(),
    }
}

/// A sender's or recipient's name; empty where there is none.
pub open spec fn name_text(m: Option<MailboxText>) -> Seq<char> {
    match m {
        Some(b) => or_empty(b.name),
        None => Seq::empty(),
    }
}

/// A sender's or recipient's address; empty where there is none.
pub open spec fn address_text(m: Option<MailboxText>) -> Seq<char> {
    match m {
        Some(b) => or_empty(b.address),
        None => Seq::empty(),
    }
}

/// The plan for a parsed message, or why there is none.
pub open spec fn plan_of(
    msg: Option<IncomingText>,
    loop_value: Seq<char>,
    t: Seq<(Seq<char>, Seq<Seq<char>>)>,
    catch_all: Option<Seq<char>>,
) -> Result<PlanText, Seq<char>> {
    match msg {
        None => Err("mime parse failed"@),
        Some(m) => match alias_parts(address_text(m.to)) {
            None => Err("no routable To header"@),
            Some((alias, domain)) => {
                let destinations = destinations_of(alias, domain, t, catch_all);
                if destinations.len() == 0 {
                    Err("no route for recipient and no catch-all"@)
                } else {
                    Ok(
                        PlanText {
                            alias,
                            domain,
                            destinations,
                            original_from: address_text(m.from),
                            original_from_name: name_text(m.from),
                            original_to: address_text(m.to),
                            subject: or_empty(m.subject),
                            loop_value,
                        },
                    )
                }
            },
        },
    }
}

/// What a plan, or the reason for there being none, holds.
pub open spec fn plan_view(r: Result<ForwardPlan, String>) -> Result<PlanText, Seq<char>> {
    match r {
        Ok(p) => Ok(p@),
        Err(e) => Err(e@),
    }
}

/// The plan for a parsed message, or why there is none.
pub fn plan_parsed(
    msg: Option<&Incoming>,
    loop_value: String,
    routes: &Vec<(String, Vec<String>)>,
    catch_all: Option<&str>,
) -> (r: Result<ForwardPlan, String>)
    ensures
        plan_view(r) == plan_of(
            match msg {
                Some(m) => Some(m@),
                None => None,
            },
            loop_value@,
            table(routes@),
            maybe_str(catch_all),
        ),
{
    let m = match msg {
        Some(m) => m,
        None => return Err(copy_of("mime parse failed")),
    };
    let (original_from_name, original_from) = match &m.from {
        Some(b) => (text_or_empty(&b.name), text_or_empty(&b.address)),
        None => (String::new(), String::new()),
    };
    let original_to = match &m.to {
        Some(b) => text_or_empty(&b.address),
        None => String::new(),
    };
    let (alias, domain) = match split_alias(original_to.as_str()) {
        Some(parts) => parts,
        None => return Err(copy_of("no routable To header")),
    };
    let destinations = resolve_destinations(alias.as_str(), domain.as_str(), routes, catch_all);
    if destinations.len() == 0 {
        return Err(copy_of("no route for recipient and no catch-all"));
    }
    Ok(
        ForwardPlan {
            alias,
            domain,
            destinations,
            original_from,
            original_from_name,
            original_to,
            subject: text_or_empty(&m.subject),
            loop_value,
        },
    )
}

/// The header section of a message, which ends before the first empty line that follows another
/// line, with CR LF as line ends where it has only line feeds.
pub open spec fn head(text: Seq<char>) -> Seq<char> {
    let h = before_gap(text);
    if h.contains('\n') && !has_text(h, "\r\n"@) {
        replace(h, "\n"@, "\r\n"@)
    } else {
        h
    }
}

/// The header section of a message, with CR LF as line ends where it has only line feeds.
pub fn header_section(text: &str) -> (r: String)
    ensures
        r@ == head(text@),
{
    let cs = chars_of(text);
    let h = text_of(before_empty_line(cs.as_slice()));
    if has_char(h.as_str(), '\n') && !contains_text(h.as_str(), "\r\n") {
        proof {
            reveal_strlit("\n");
        }
        replace_text(h.as_str(), "\n", "\r\n")
    } else {
        h
    }
}

/// What is done with a message: nothing where it has been relayed already.
pub open spec fn planned(
    raw: Seq<u8>,
    relay_domain: Seq<char>,
    loop_salt: Seq<char>,
    t: Seq<(Seq<char>, Seq<Seq<char>>)>,
    catch_all: Option<Seq<char>>,
) -> Result<Option<PlanText>, Seq<char>> {
    let mark = loop_mark(relay_domain, loop_salt);
    if carries_mark(head(message_text(raw)), mark) {
        Ok(None)
    } else {
        match plan_of(incoming(raw), mark, t, catch_all) {
            Ok(p) => Ok(Some(p)),
            Err(e) => Err(e),
        }
    }
}

/// Plans what is done with a message: nothing where it has been relayed already.
pub fn plan_forward(
    raw: &[u8],
    relay_domain: &str,
    loop_salt: &str,
    routes: &Vec<(String, Vec<String>)>,
    catch_all: Option<&str>,
) -> (r: Result<Option<ForwardPlan>, String>)
    ensures
        (match r {
            Ok(Some(p)) => Ok::<Option<PlanText>, Seq<char>>(Some(p@)),
            Ok(None) => Ok(None),
            Err(e) => Err(e@),
        }) == planned(raw@, relay_domain@, loop_salt@, table(routes@), maybe_str(catch_all)),
{
    let expected = loop_hash(relay_domain, loop_salt);
    let text = lossy(raw);
    let headers = header_section(text.as_str());
    if is_loop(headers.as_str(), expected.as_str()) {
        return Ok(None);
    }
    match plan_parsed(read_message(raw).as_ref(), expected, routes, catch_all) {
        Ok(p) => Ok(Some(p)),
        Err(e) => Err(e),
    }
}

// ---------------------------------------------------------------------------------------------
// The relayed message
// ---------------------------------------------------------------------------------------------

/// Whether the banner is put before a message's bodies: unless the setting is `false` or `0`.
pub fn banner_enabled(setting: Option<&str>) -> (r: bool)
    ensures
        r == (match setting {
            Some(v) => v@ != "false"@ && v@ != "0"@,
            None => true,
        }),
{
    match setting {
        Some(v) => !same_text(v, "false") && !same_text(v, "0"),
        None => true,
    }
}

/// The banner for HTML bodies.
pub open spec fn html_banner(
    alias: Seq<char>,
    domain: Seq<char>,
    dest: Seq<char>,
    original: Seq<char>,
) -> Seq<char> {
    "<div style=\"background:#f4f4f5;padding:8px;font-size:12px;border-radius:4px;color:#333;margin-bottom:12px;\">\n  Forwarded by 4ward from <b>"@
        + alias + "@"@ + domain + "</b> to <b>"@ + dest + "</b>. Original sender: <b>"@ + original
        + "</b>\n</div>"@
}

/// The banner for HTML bodies.
pub fn banner_html(alias: &str, domain: &str, dest: &str, original: &str) -> (r: String)
    ensures
        r@ == html_banner(alias@, domain@, dest@, original@),
{
    let mut out = copy_of(
        "<div style=\"background:#f4f4f5;padding:8px;font-size:12px;border-radius:4px;color:#333;margin-bottom:12px;\">\n  Forwarded by 4ward from <b>",
    );
    out.append(alias);
    out.append("@");
    out.append(domain);
    out.append("</b> to <b>");
    out.append(dest);
    out.append("</b>. Original sender: <b>");
    out.append(original);
    out.append("</b>\n</div>");
    out
}

/// The banner for plain text bodies.
pub open spec fn text_banner(
    alias: Seq<char>,
    domain: Seq<char>,
    dest: Seq<char>,
    original: Seq<char>,
) -> Seq<char> {
    "Forwarded by 4ward from "@ + alias + "@"@ + domain + " to "@ + dest + ". Original sender: "@
        + original + "\n\n"@
}

/// The banner for plain text bodies.
pub fn banner_text(alias: &str, domain: &str, dest: &str, original: &str) -> (r: String)
    ensures
        r@ == text_banner(alias@, domain@, dest@, original@),
{
    let mut out = copy_of("Forwarded by 4ward from ");
    out.append(alias);
    out.append("@");
    out.append(domain);
    out.append(" to ");
    out.append(dest);
    out.append(". Original sender: ");
    out.append(original);
    out.append("\n\n");
    out
}

/// The relay's own address.
pub open spec fn relay_address(relay_domain: Seq<char>) -> Seq<char> {
    "relay@"@ + relay_domain
}

fn relay_from(relay_domain: &str) -> (r: String)
    ensures
        r@ == relay_address(relay_domain@),
{
    let mut out = copy_of("relay@");
    out.append(relay_domain);
    out
}

/// The name that a relayed message comes under: the original sender's, or the alias where the
/// sender has none.
pub open spec fn display_name(plan: PlanText) -> Seq<char> {
    (if is_blank(plan.original_from_name) {
        plan.alias
    } else {
        plan.original_from_name
    }) + " (via "@ + plan.alias + ")"@
}

fn display_from(plan: &ForwardPlan) -> (r: String)
    ensures
        r@ == display_name(plan@),
{
    let mut out = if blank(plan.original_from_name.as_str()) {
        copy_of(plan.alias.as_str())
    } else {
        copy_of(plan.original_from_name.as_str())
    };
    out.append(" (via ");
    out.append(plan.alias.as_str());
    out.append(")");
    out
}

/// The first destination of a plan; empty where it has none.
pub open spec fn first_destination(plan: PlanText) -> Seq<char> {
    if plan.destinations.len() > 0 {
        plan.destinations[0]
    } else {
        Seq::empty()
    }
}

/// `body` with the banner before it, where the banner is wanted.
pub open spec fn with_banner(body: Option<Seq<char>>, banner: Seq<char>, wanted: bool) -> Option<
    Seq<char>,
> {
    match body {
        Some(b) => Some(
            if wanted {
                banner + b
            } else {
                b
            },
        ),
        None => None,
    }
}

fn put_banner(body: &Option<String>, banner: String, wanted: bool) -> (r: Option<String>)
    ensures
        maybe_text(r) == with_banner(maybe_text(*body), banner@, wanted),
{
    match body {
        Some(b) => Some(
            if wanted {
                let mut out = banner;
                out.append(b.as_str());
                out
            } else {
                copy_of(b.as_str())
            },
        ),
        None => None,
    }
}

/// The headers of a relayed message.
pub open spec fn relay_headers(plan: PlanText, relay_domain: Seq<char>) -> Seq<
    (Seq<char>, HeaderValue),
> {
    seq![
        (
            "From"@,
            HeaderValue::Address(Some(display_name(plan)), relay_address(relay_domain)),
        ),
        ("Reply-To"@, HeaderValue::Address(None, plan.original_from)),
        ("To"@, HeaderValue::Addresses(plan.destinations)),
        ("Subject"@, HeaderValue::Text(plan.subject)),
        ("X-Original-From"@, HeaderValue::Text(plan.original_from)),
        ("X-Original-To"@, HeaderValue::Text(plan.original_to)),
        ("X-4ward-Relay"@, HeaderValue::Text("true"@)),
        (LOOP_HEADER@, HeaderValue::Text(plan.loop_value)),
    ]
}

/// The attachments of a relayed message: those of the original, with a name for those that have
/// none and a generic content type.
pub open spec fn relay_attachments(list: Seq<(Option<Seq<char>>, Seq<u8>)>) -> Seq<
    (Seq<char>, Seq<char>, Seq<u8>),
> {
    list.map_values(
        |a: (Option<Seq<char>>, Seq<u8>)|
            (
                "application/octet-stream"@,
                match a.0 {
                    Some(n) => n,
                    None => "attachment.bin"@,
                },
                a.1,
            ),
    )
}

/// The message that is relayed in place of `msg`.
pub open spec fn relay_draft(
    msg: IncomingText,
    plan: PlanText,
    relay_domain: Seq<char>,
    banner: bool,
) -> Draft {
    let dest = first_destination(plan);
    let text = with_banner(
        msg.text,
        text_banner(plan.alias, plan.domain, dest, plan.original_from),
        banner,
    );
    let html = with_banner(
        msg.html,
        html_banner(plan.alias, plan.domain, dest, plan.original_from),
        banner,
    );
    Draft {
        headers: relay_headers(plan, relay_domain),
        text: if text is None && html is None {
            Some("(empty message forwarded by 4ward)"@)
        } else {
            text
        },
        html,
        attachments: relay_attachments(msg.attachments),
    }
}

/// Writes the message that is relayed in place of a parsed one.
pub fn build_parsed(
    msg: Option<&Incoming>,
    plan: &ForwardPlan,
    relay_domain: &str,
    banner: bool,
) -> (r: Result<Vec<u8>, String>)
    ensures
        match r {
            Ok(raw) => msg is Some && may_write(
                relay_draft(msg->0@, plan@, relay_domain@, banner),
                raw@,
            ) && is_written(relay_draft(msg->0@, plan@, relay_domain@, banner), raw@),
            Err(e) => msg is None && e@ == "mime parse failed"@,
        },
{
    let m = match msg {
        Some(m) => m,
        None => return Err(copy_of("mime parse failed")),
    };
    let dest0 = if plan.destinations.len() > 0 {
        copy_of(plan.destinations[0].as_str())
    } else {
        String::new()
    };
    assert(dest0@ == first_destination(plan@));
    let text_out = put_banner(
        &m.text,
        banner_text(
            plan.alias.as_str(),
            plan.domain.as_str(),
            dest0.as_str(),
            plan.original_from.as_str(),
        ),
        banner,
    );
    let html_out = put_banner(
        &m.html,
        banner_html(
            plan.alias.as_str(),
            plan.domain.as_str(),
            dest0.as_str(),
            plan.original_from.as_str(),
        ),
        banner,
    );
    let from = relay_from(relay_domain);
    let display = display_from(plan);
    let ghost goal = relay_draft(m@, plan@, relay_domain@, banner);
    let mut b = new_message();
    b = add_from(b, Some(display.as_str()), from.as_str());
    b = add_reply_to(b, plan.original_from.as_str());
    b = add_to(b, &plan.destinations);
    b = add_subject(b, plan.subject.as_str());
    b = add_header(b, "X-Original-From", plan.original_from.as_str());
    b = add_header(b, "X-Original-To", plan.original_to.as_str());
    b = add_header(b, "X-4ward-Relay", "true");
    b = add_header(b, LOOP_HEADER, plan.loop_value.as_str());
    assert(draft(b).headers =~= goal.headers);
    match &text_out {
        Some(t) => {
            b = set_text(b, t.as_str());
        },
        None => {},
    }
    match &html_out {
        Some(h) => {
            b = set_html(b, h.as_str());
        },
        None => {},
    }
    if text_out.is_none() && html_out.is_none() {
        b = set_text(b, "(empty message forwarded by 4ward)");
    }
    assert(draft(b) == (Draft { attachments: seq![], ..goal }));
    for i in 0..m.attachments.len()
        invariant
            goal == relay_draft(m@, plan@, relay_domain@, banner),
            draft(b) == (Draft { attachments: goal.attachments.take(i as int), ..goal }),
    {
        let a = &m.attachments[i];
        let name = match &a.0 {
            Some(n) => n.as_str(),
            None => "attachment.bin",
        };
        b = add_attachment(b, "application/octet-stream", name, a.1.as_slice());
        assert(m@.attachments[i as int] == (maybe_text(a.0), a.1@));
        assert(goal.attachments.take(i + 1) =~= goal.attachments.take(i as int).push(
            goal.attachments[i as int],
        ));
    }
    assert(goal.attachments.take(m.attachments@.len() as int) =~= goal.attachments);
    write_message(b)
}

/// Writes the message that is relayed in place of `raw`, with its bodies and attachments.
pub fn build_forwarded_raw(raw: &[u8], plan: &ForwardPlan, relay_domain: &str, banner: bool) -> (r:
    Result<Vec<u8>, String>)
    ensures
        match r {
            Ok(out) => incoming(raw@) is Some && may_write(
                relay_draft(incoming(raw@)->0, plan@, relay_domain@, banner),
                out@,
            ) && is_written(relay_draft(incoming(raw@)->0, plan@, relay_domain@, banner), out@),
            Err(e) => incoming(raw@) is None && e@ == "mime parse failed"@,
        },
{
    build_parsed(read_message(raw).as_ref(), plan, relay_domain, banner)
}

// ---------------------------------------------------------------------------------------------
// The relay
// ---------------------------------------------------------------------------------------------

/// How a relay is set up.
#[derive(Debug, Clone)]
pub struct RelaySettings {
    /// The domain that the relay sends from.
    pub relay_domain: String,
    /// What the loop header's value is salted with.
    pub loop_salt: String,
    /// The routing table.
    pub routes: Vec<(String, Vec<String>)>,
    /// Where mail goes that the routing table has no entry for.
    pub catch_all: Option<String>,
    /// Whether the banner is put before a message's bodies.
    pub banner: bool,
}

/// The settings of a relay, from what its environment says. None where there is no relay domain:
/// then nothing is relayed. The salt is the relay domain where there is no other.
pub fn relay_settings(
    relay_domain: Option<&str>,
    loop_salt: Option<&str>,
    alias_map_json: Option<&str>,
    catch_all: Option<&str>,
    banner_setting: Option<&str>,
) -> (r: Option<RelaySettings>)
    ensures
        r is Some <==> unless_empty(maybe_str(relay_domain)) is Some,
        r matches Some(s) ==> {
            &&& maybe_str(relay_domain) == Some(s.relay_domain@)
            &&& s.loop_salt@ == (match loop_salt {
                Some(t) => t@,
                None => s.relay_domain@,
            })
            &&& distinct(table(s.routes@))
            &&& match alias_map_json {
                Some(j) => match map_of_json(j@) {
                    Some(m) => as_map(table(s.routes@)) == m,
                    None => s.routes@.len() == 0,
                },
                None => s.routes@.len() == 0,
            }
            &&& maybe_text(s.catch_all) == maybe_str(catch_all)
            &&& s.banner == (match banner_setting {
                Some(v) => v@ != "false"@ && v@ != "0"@,
                None => true,
            })
        },
{
    let domain = match relay_domain {
        Some(d) => d,
        None => return None,
    };
    if domain.is_empty() {
        return None;
    }
    Some(
        RelaySettings {
            relay_domain: copy_of(domain),
            loop_salt: match loop_salt {
                Some(t) => copy_of(t),
                None => copy_of(domain),
            },
            routes: alias_map(alias_map_json),
            catch_all: match catch_all {
                Some(c) => Some(copy_of(c)),
                None => None,
            },
            banner: banner_enabled(banner_setting),
        },
    )
}

/// What is handed on for delivery.
#[derive(Debug, Clone)]
pub struct Relayed {
    /// The sender's address.
    pub from: String,
    /// The recipients' addresses.
    pub destinations: Vec<String>,
    /// The message.
    pub raw: Vec<u8>,
}

/// What is done with `raw` by the settings.
pub open spec fn planned_by(raw: Seq<u8>, s: RelaySettings) -> Result<Option<PlanText>, Seq<char>> {
    planned(raw, s.relay_domain@, s.loop_salt@, table(s.routes@), maybe_text(s.catch_all))
}

/// Whether `out` is the message, with its sender and recipients, that is relayed in place of
/// `raw` by the plan.
pub open spec fn relays(raw: Seq<u8>, plan: PlanText, s: RelaySettings, out: Relayed) -> bool {
    &&& incoming(raw) is Some
    &&& out.from@ == relay_address(s.relay_domain@)
    &&& texts(out.destinations@) == plan.destinations
    &&& may_write(relay_draft(incoming(raw)->0, plan, s.relay_domain@, s.banner), out.raw@)
    &&& is_written(relay_draft(incoming(raw)->0, plan, s.relay_domain@, s.banner), out.raw@)
}

/// Makes of a message that came in what is handed on in its place: nothing where it has been
/// relayed already.
pub fn relay(raw: &[u8], settings: &RelaySettings) -> (r: Result<Option<Relayed>, String>)
    ensures
        match r {
            Ok(Some(out)) => planned_by(raw@, *settings) matches Ok(Some(plan)) && relays(
                raw@,
                plan,
                *settings,
                out,
            ),
            Ok(None) => planned_by(raw@, *settings) == Ok::<Option<PlanText>, Seq<char>>(None),
            Err(e) => planned_by(raw@, *settings) matches Err(why) && e@ == "plan: "@ + why,
        },
{
    let catch_all = match &settings.catch_all {
        Some(c) => Some(c.as_str()),
        None => None,
    };
    let planned = plan_forward(
        raw,
        settings.relay_domain.as_str(),
        settings.loop_salt.as_str(),
        &settings.routes,
        catch_all,
    );
    let plan = match planned {
        Ok(Some(p)) => p,
        Ok(None) => return Ok(None),
        Err(e) => {
            let mut out = copy_of("plan: ");
            out.append(e.as_str());
            return Err(out);
        },
    };
    match build_forwarded_raw(raw, &plan, settings.relay_domain.as_str(), settings.banner) {
        Ok(out) => Ok(
            Some(
                Relayed {
                    from: relay_from(settings.relay_domain.as_str()),
                    destinations: plan.destinations,
                    raw: out,
                },
            ),
        ),
        Err(e) => {
            let mut out = copy_of("build: ");
            out.append(e.as_str());
            Err(out)
        },
    }
}

} // verus!
