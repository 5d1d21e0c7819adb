//! What is sent for a request, and what calls of the sending interface are answered, stated on the
//! request and the call.
use vstd::prelude::*;
use vstd::seq_lib::lemma_flatten_concat;
use vstd::utf8::{encode_utf8, is_ascii_chars};

use crate::address_laws::{is_solid, law_bearer, law_sender, lemma_sender_lacks};
use crate::api::{
    attachment_problem, decoding_error, domain_list, payload_problem, send_draft, send_headers,
    sender_address, sender_domain, AttachmentText, RequestText, SendRequest,
};
use crate::crypto::{base64, base64_error, is_base64, law_text_of_bytes, message_text};
use crate::handler::{accepted, admission, delivery, sends, verification, Outgoing, ReplyText};
use crate::mail::{
    holds_content, is_encoded, is_header_line, is_short_name, is_written, starts_with_headers,
    text_line, Draft, HeaderValue,
};
use crate::text::{
    has_text, in_class, is_blank, is_white_space, lowercase, split, stands_at, texts, trim, Class,
};
use crate::text_laws::{is_trim, law_split_first, law_split_once, law_trimmed_parts};

verus! {

// ---------------------------------------------------------------------------------------------
// The message
// ---------------------------------------------------------------------------------------------

/// Tells the headers that have the name.
pub open spec fn has_name(name: Seq<char>) -> spec_fn((Seq<char>, HeaderValue)) -> bool {
    |h: (Seq<char>, HeaderValue)| h.0 == name
}

/// The headers with the name, in order.
pub open spec fn named(headers: Seq<(Seq<char>, HeaderValue)>, name: Seq<char>) -> Seq<
    (Seq<char>, HeaderValue),
> {
    headers.filter(has_name(name))
}

/// The headers of a name, of two lists.
pub proof fn lemma_named_both(
    a: Seq<(Seq<char>, HeaderValue)>,
    b: Seq<(Seq<char>, HeaderValue)>,
    name: Seq<char>,
)
    ensures
        named(a + b, name) == named(a, name) + named(b, name),
{
    Seq::filter_distributes_over_add(a, b, has_name(name));
}

/// Whether a header is one of a name.
pub proof fn lemma_named_one(h: (Seq<char>, HeaderValue), name: Seq<char>)
    ensures
        named(seq![h], name) == (if h.0 == name {
            seq![h]
        } else {
            Seq::empty()
        }),
        named(Seq::empty(), name) == Seq::<(Seq<char>, HeaderValue)>::empty(),
{
    reveal_with_fuel(Seq::filter, 2);
    assert(seq![h].drop_last() =~= Seq::empty());
}

/// The headers of a name, of those that each request has and those that it may have.
proof fn lemma_named_headers(req: RequestText, name: Seq<char>)
    ensures
        named(send_draft(req).headers, name) == named(
            seq![("From"@, HeaderValue::Address(None, req.from))],
            name,
        ) + named(seq![("To"@, HeaderValue::Addresses(req.to))], name) + named(
            seq![("Subject"@, HeaderValue::Text(req.subject))],
            name,
        ) + (if req.cc.len() > 0 {
            named(seq![("Cc"@, HeaderValue::Addresses(req.cc))], name)
        } else {
            Seq::empty()
        }) + (if req.bcc.len() > 0 {
            named(seq![("Bcc"@, HeaderValue::Addresses(req.bcc))], name)
        } else {
            Seq::empty()
        }) + (match req.reply_to {
            Some(a) => named(seq![("Reply-To"@, HeaderValue::Address(None, a))], name),
            None => Seq::empty(),
        }),
{
    let none = Seq::<(Seq<char>, HeaderValue)>::empty();
    let from = seq![("From"@, HeaderValue::Address(None, req.from))];
    let to = seq![("To"@, HeaderValue::Addresses(req.to))];
    let subject = seq![("Subject"@, HeaderValue::Text(req.subject))];
    let cc = if req.cc.len() > 0 {
        seq![("Cc"@, HeaderValue::Addresses(req.cc))]
    } else {
        none
    };
    let bcc = if req.bcc.len() > 0 {
        seq![("Bcc"@, HeaderValue::Addresses(req.bcc))]
    } else {
        none
    };
    let reply = match req.reply_to {
        Some(a) => seq![("Reply-To"@, HeaderValue::Address(None, a))],
        None => none,
    };
    lemma_named_one(from[0], name);
    assert(send_headers(req) =~= from + to + subject + cc + bcc + reply);
    lemma_named_both(from + to + subject + cc + bcc, reply, name);
    lemma_named_both(from + to + subject + cc, bcc, name);
    lemma_named_both(from + to + subject, cc, name);
    lemma_named_both(from + to, subject, name);
    lemma_named_both(from, to, name);
}

/// The names of the headers of a request are different.
proof fn lemma_names()
    ensures
        "From"@ != "To"@,
        "From"@ != "Subject"@,
        "From"@ != "Cc"@,
        "From"@ != "Bcc"@,
        "From"@ != "Reply-To"@,
        "To"@ != "Subject"@,
        "To"@ != "Cc"@,
        "To"@ != "Bcc"@,
        "To"@ != "Reply-To"@,
        "Subject"@ != "Cc"@,
        "Subject"@ != "Bcc"@,
        "Subject"@ != "Reply-To"@,
        "Cc"@ != "Bcc"@,
        "Cc"@ != "Reply-To"@,
        "Bcc"@ != "Reply-To"@,
{
    reveal_strlit("From");
    reveal_strlit("To");
    reveal_strlit("Subject");
    reveal_strlit("Cc");
    reveal_strlit("Bcc");
    reveal_strlit("Reply-To");
    assert("From"@[0] == 'F' && "To"@[0] == 'T' && "Subject"@[0] == 'S');
    assert("Cc"@[0] == 'C' && "Bcc"@[0] == 'B' && "Reply-To"@[0] == 'R');
}

/// Whatever the request, the message for it comes from the request's sender, goes to its
/// recipients and has its subject: there is exactly one header for each, with what the request
/// says. Copies, blind copies and replies have a header where the request names addresses for
/// them, and none where it does not.
pub proof fn law_request_headers(req: RequestText)
    ensures
        named(send_draft(req).headers, "From"@) == seq![
            ("From"@, HeaderValue::Address(None, req.from)),
        ],
        named(send_draft(req).headers, "To"@) == seq![("To"@, HeaderValue::Addresses(req.to))],
        named(send_draft(req).headers, "Subject"@) == seq![
            ("Subject"@, HeaderValue::Text(req.subject)),
        ],
        named(send_draft(req).headers, "Cc"@) == (if req.cc.len() > 0 {
            seq![("Cc"@, HeaderValue::Addresses(req.cc))]
        } else {
            Seq::empty()
        }),
        named(send_draft(req).headers, "Bcc"@) == (if req.bcc.len() > 0 {
            seq![("Bcc"@, HeaderValue::Addresses(req.bcc))]
        } else {
            Seq::empty()
        }),
        named(send_draft(req).headers, "Reply-To"@) == (match req.reply_to {
            Some(a) => seq![("Reply-To"@, HeaderValue::Address(None, a))],
            None => Seq::empty(),
        }),
{
    lemma_names();
    lemma_request_header(req, "From"@);
    lemma_request_header(req, "To"@);
    lemma_request_header(req, "Subject"@);
    lemma_request_header(req, "Cc"@);
    lemma_request_header(req, "Bcc"@);
    lemma_request_header(req, "Reply-To"@);
}

proof fn lemma_request_header(req: RequestText, name: Seq<char>)
    ensures
        named(send_draft(req).headers, name) == (if name == "From"@ {
            seq![("From"@, HeaderValue::Address(None, req.from))]
        } else if name == "To"@ {
            seq![("To"@, HeaderValue::Addresses(req.to))]
        } else if name == "Subject"@ {
            seq![("Subject"@, HeaderValue::Text(req.subject))]
        } else if name == "Cc"@ && req.cc.len() > 0 {
            seq![("Cc"@, HeaderValue::Addresses(req.cc))]
        } else if name == "Bcc"@ && req.bcc.len() > 0 {
            seq![("Bcc"@, HeaderValue::Addresses(req.bcc))]
        } else if name == "Reply-To"@ && req.reply_to is Some {
            seq![("Reply-To"@, HeaderValue::Address(None, req.reply_to->0))]
        } else {
            Seq::empty()
        }),
{
    lemma_names();
    lemma_named_headers(req, name);
    lemma_named_one(("From"@, HeaderValue::Address(None, req.from)), name);
    lemma_named_one(("To"@, HeaderValue::Addresses(req.to)), name);
    lemma_named_one(("Subject"@, HeaderValue::Text(req.subject)), name);
    lemma_named_one(("Cc"@, HeaderValue::Addresses(req.cc)), name);
    lemma_named_one(("Bcc"@, HeaderValue::Addresses(req.bcc)), name);
    if let Some(a) = req.reply_to {
        lemma_named_one(("Reply-To"@, HeaderValue::Address(None, a)), name);
    }
}

/// What a call asks for is what is sent: the message for the request that it holds comes from its
/// sender, goes to its recipients and has its subject, its bodies and its attachments.
pub proof fn law_sent_as_asked(req: SendRequest)
    ensures
        ({
            let d = send_draft(req@);
            &&& named(d.headers, "From"@) == seq![
                ("From"@, HeaderValue::Address(None, req.from@)),
            ]
            &&& named(d.headers, "To"@) == seq![("To"@, HeaderValue::Addresses(texts(req.to@)))]
            &&& named(d.headers, "Subject"@) == seq![("Subject"@, HeaderValue::Text(req.subject@))]
            &&& named(d.headers, "Cc"@) == (if req.cc@.len() > 0 {
                seq![("Cc"@, HeaderValue::Addresses(texts(req.cc@)))]
            } else {
                Seq::empty()
            })
            &&& named(d.headers, "Bcc"@) == (if req.bcc@.len() > 0 {
                seq![("Bcc"@, HeaderValue::Addresses(texts(req.bcc@)))]
            } else {
                Seq::empty()
            })
            &&& named(d.headers, "Reply-To"@) == (match req.reply_to {
                Some(a) => seq![("Reply-To"@, HeaderValue::Address(None, a@))],
                None => Seq::empty(),
            })
            &&& req.html matches Some(h) ==> d.html == Some(h@)
            &&& req.html is None ==> d.html is None
            &&& req.text matches Some(t) ==> d.text == Some(t@)
            &&& req.text is None && req.html is Some ==> d.text is None
            &&& d.attachments.len() == req.attachments@.len()
            &&& forall|i: int|
                0 <= i < req.attachments@.len() ==> {
                    &&& (#[trigger] d.attachments[i]).0 == req.attachments@[i].content_type@
                    &&& d.attachments[i].1 == req.attachments@[i].filename@
                }
        }),
{
    law_request_headers(req@);
    law_request_contents(req@);
    assert(req@.cc.len() == req.cc@.len());
    assert(req@.bcc.len() == req.bcc@.len());
    let d = send_draft(req@);
    assert forall|i: int| 0 <= i < req.attachments@.len() implies (#[trigger] d.attachments[i]).0
        == req.attachments@[i].content_type@ && d.attachments[i].1
        == req.attachments@[i].filename@ by {
        assert(req@.attachments[i] == req.attachments@[i]@);
    }
}

/// The message for a request has no headers but those for its sender, its recipients, its subject,
/// its copies and its replies.
pub proof fn law_no_other_headers(req: RequestText, name: Seq<char>)
    requires
        name != "From"@,
        name != "To"@,
        name != "Subject"@,
        name != "Cc"@,
        name != "Bcc"@,
        name != "Reply-To"@,
    ensures
        named(send_draft(req).headers, name) == Seq::<(Seq<char>, HeaderValue)>::empty(),
{
    lemma_request_header(req, name);
}

/// The message for a request has its bodies, or an empty one where it has none, and all of its
/// attachments, in order: each under its name and content type, with the contents whose base64 text
/// the request holds.
pub proof fn law_request_contents(req: RequestText)
    ensures
        ({
            let d = send_draft(req);
            &&& d.html == req.html
            &&& req.text is Some || req.html is Some ==> d.text == req.text
            &&& req.text is None && req.html is None ==> d.text == Some(""@)
            &&& d.attachments.len() == req.attachments.len()
            &&& forall|i: int|
                0 <= i < req.attachments.len() ==> {
                    &&& (#[trigger] d.attachments[i]).0 == req.attachments[i].content_type
                    &&& d.attachments[i].1 == req.attachments[i].filename
                    &&& is_base64(trim(req.attachments[i].content)) ==> base64(d.attachments[i].2)
                        == trim(req.attachments[i].content)
                }
        }),
{
}

/// Each of a list of texts stands in the texts one after the other.
pub proof fn lemma_stands_in_flat(ls: Seq<Seq<char>>, i: int)
    requires
        0 <= i < ls.len(),
    ensures
        has_text(ls.flatten(), ls[i]),
{
    let a = ls.take(i);
    let m = seq![ls[i]];
    let b = ls.skip(i + 1);
    assert(ls =~= a + m + b);
    lemma_flatten_concat(a + m, b);
    lemma_flatten_concat(a, m);
    m.lemma_flatten_one_element();
    let s = a.flatten() + ls[i] + b.flatten();
    assert(ls.flatten() =~= s);
    let n: int = a.flatten().len() as int;
    assert(s.subrange(n, n + ls[i].len()) =~= ls[i]);
    assert(stands_at(s, ls[i], n));
}

/// A header of a draft, with a text that is not encoded, stands in what is written for it.
pub proof fn lemma_header_is_written(d: Draft, raw: Seq<u8>, name: Seq<char>, t: Seq<char>)
    requires
        is_written(d, raw),
        named(d.headers, name) == seq![(name, HeaderValue::Text(t))],
        is_short_name(name),
        !is_encoded(t),
    ensures
        has_text(message_text(raw), text_line(name, t)),
{
    let (ls, text) = choose|ls: Seq<Seq<char>>, text: Seq<char>|
        raw == encode_utf8(text) && #[trigger] starts_with_headers(d, ls, text) && holds_content(
            d,
            text,
        );
    law_text_of_bytes(text);
    let h = (name, HeaderValue::Text(t));
    assert(named(d.headers, name)[0] == h);
    assert(named(d.headers, name).contains(h));
    d.headers.lemma_filter_contains_rev(has_name(name), h);
    let i = choose|i: int| 0 <= i < d.headers.len() && d.headers[i] == h;
    assert(is_header_line(name, HeaderValue::Text(t), ls[i]));
    lemma_stands_in_flat(ls, i);
    let flat = ls.flatten();
    let k = choose|k: int| stands_at(flat, ls[i], k);
    assert(text.subrange(k, k + ls[i].len()) =~= flat.subrange(k, k + ls[i].len()));
    assert(stands_at(text, ls[i], k));
}

/// The subject of a request stands in what is written for it, in a header of its own, where it need
/// not be encoded.
pub proof fn law_subject_is_written(req: RequestText, raw: Seq<u8>)
    requires
        is_written(send_draft(req), raw),
        !is_encoded(req.subject),
    ensures
        has_text(message_text(raw), text_line("Subject"@, req.subject)),
{
    assert(is_short_name("Subject"@)) by {
        reveal_strlit("Subject");
    }
    lemma_names();
    lemma_request_header(req, "Subject"@);
    lemma_header_is_written(send_draft(req), raw, "Subject"@, req.subject);
}

/// What is handed on for a request is addressed to everyone that it names, once for each time that
/// they are named, and to no one else. It is sent under the address of the request's sender.
pub proof fn law_everyone_is_addressed(
    req: RequestText,
    out: Outgoing,
    user: Seq<char>,
    domain: Seq<char>,
    name: Seq<char>,
)
    requires
        sends(req, out),
        is_solid(user + "@"@ + domain),
        !user.contains('@'),
        req.from == user + "@"@ + domain || req.from == name + "<"@ + (user + "@"@ + domain) + ">"@,
    ensures
        out.recipients@.len() == req.to.len() + req.cc.len() + req.bcc.len(),
        forall|i: int| 0 <= i < req.to.len() ==> (#[trigger] out.recipients@[i])@ == req.to[i],
        forall|i: int|
            0 <= i < req.cc.len() ==> out.recipients@[req.to.len() + i]@ == #[trigger] req.cc[i],
        forall|i: int|
            0 <= i < req.bcc.len() ==> out.recipients@[req.to.len() + req.cc.len() + i]@
                == #[trigger] req.bcc[i],
        out.from@ == user + "@"@ + domain,
{
    law_sender(name, user, domain, Seq::empty(), Seq::empty());
    let all = req.to + req.cc + req.bcc;
    assert(texts(out.recipients@) == all);
    assert(texts(out.recipients@).len() == all.len());
    assert forall|i: int| 0 <= i < all.len() implies (#[trigger] out.recipients@[i])@ == all[i] by {
        assert(texts(out.recipients@)[i] == out.recipients@[i]@);
    }
}

// ---------------------------------------------------------------------------------------------
// Validity
// ---------------------------------------------------------------------------------------------

/// Whether nothing is wrong with an attachment: it has a name, and its contents are base64.
pub open spec fn is_sound(a: AttachmentText) -> bool {
    !is_blank(a.filename) && is_base64(trim(a.content))
}

proof fn lemma_attachments(list: Seq<AttachmentText>)
    ensures
        attachment_problem(list) is None <==> forall|i: int|
            0 <= i < list.len() ==> is_sound(#[trigger] list[i]),
    decreases list.len(),
{
    if list.len() > 0 {
        let rest = list.skip(1);
        lemma_attachments(rest);
        if is_sound(list[0]) {
            if attachment_problem(rest) is None {
                assert forall|i: int| 0 <= i < list.len() implies is_sound(#[trigger] list[i]) by {
                    if i > 0 {
                        assert(rest[i - 1] == list[i]);
                    }
                }
            } else {
                let i = choose|i: int| 0 <= i < rest.len() && !is_sound(#[trigger] rest[i]);
                assert(list[i + 1] == rest[i]);
            }
        }
    }
}

/// A request from an address is valid where it has a recipient, a subject that is not blank and a
/// body, its domain may send, and each of its attachments has a name and base64 contents; and only
/// then.
pub proof fn law_valid_request(
    req: RequestText,
    allowed: Seq<Seq<char>>,
    user: Seq<char>,
    domain: Seq<char>,
    name: Seq<char>,
)
    requires
        is_solid(user + "@"@ + domain),
        !user.contains('@'),
        req.from == user + "@"@ + domain || req.from == name + "<"@ + (user + "@"@ + domain) + ">"@,
    ensures
        payload_problem(req, allowed) is None <==> {
            &&& req.to.len() > 0
            &&& !is_blank(req.subject)
            &&& req.html is Some || req.text is Some
            &&& allowed.len() == 0 || allowed.contains(lowercase(domain))
            &&& forall|i: int| 0 <= i < req.attachments.len() ==> is_sound(
                #[trigger] req.attachments[i],
            )
        },
{
    law_sender(name, user, domain, Seq::empty(), Seq::empty());
    lemma_attachments(req.attachments);
}

/// What is wrong with a request is said in this order: that it has no recipient, no subject, no
/// body, no sender's address, a domain that may not send, and what is wrong with the first
/// attachment that is not sound.
pub proof fn law_problems_in_order(req: RequestText, allowed: Seq<Seq<char>>, k: int)
    ensures
        req.to.len() == 0 ==> payload_problem(req, allowed) == Some(
            "to must contain at least one recipient"@,
        ),
        req.to.len() > 0 && is_blank(req.subject) ==> payload_problem(req, allowed) == Some(
            "subject is required"@,
        ),
        req.to.len() > 0 && !is_blank(req.subject) ==> {
            &&& req.html is None && req.text is None ==> payload_problem(req, allowed) == Some(
                "html or text is required"@,
            )
            &&& req.html is Some || req.text is Some ==> {
                &&& !req.from.contains('@') ==> payload_problem(req, allowed) == Some(
                    "invalid from address"@,
                )
                &&& sender_domain(req.from) matches Some(d) ==> {
                    &&& allowed.len() > 0 && !allowed.contains(d) ==> payload_problem(req, allowed)
                        == Some("from domain '"@ + d + "' is not a verified identity"@)
                    &&& (allowed.len() == 0 || allowed.contains(d)) && 0 <= k
                        < req.attachments.len() && !is_sound(req.attachments[k]) && (forall|j: int|
                        0 <= j < k ==> is_sound(#[trigger] req.attachments[j])) ==> payload_problem(
                        req,
                        allowed,
                    ) == Some(
                        if is_blank(req.attachments[k].filename) {
                            "attachment filename is required"@
                        } else {
                            "attachment '"@ + req.attachments[k].filename
                                + "' is not valid base64"@
                        },
                    )
                }
            }
        },
{
    if !req.from.contains('@') {
        lemma_no_sender(req.from);
    }
    if 0 <= k < req.attachments.len() && !is_sound(req.attachments[k]) && (forall|j: int|
        0 <= j < k ==> is_sound(#[trigger] req.attachments[j])) {
        lemma_first_unsound(req.attachments, k);
    }
}

proof fn lemma_first_unsound(list: Seq<AttachmentText>, k: int)
    requires
        0 <= k < list.len(),
        !is_sound(list[k]),
        forall|j: int| 0 <= j < k ==> is_sound(#[trigger] list[j]),
    ensures
        attachment_problem(list) == Some(
            if is_blank(list[k].filename) {
                "attachment filename is required"@
            } else {
                "attachment '"@ + list[k].filename + "' is not valid base64"@
            },
        ),
    decreases k,
{
    if k > 0 {
        assert(is_sound(list[0]));
        let rest = list.skip(1);
        assert forall|j: int| 0 <= j < k - 1 implies is_sound(#[trigger] rest[j]) by {
            assert(rest[j] == list[j + 1]);
        }
        lemma_first_unsound(rest, k - 1);
    }
}

/// The attachments of a request can be decoded where all of their contents are base64; otherwise it
/// is said what is wrong with the first that is not.
pub proof fn law_decoding(list: Seq<AttachmentText>, k: int)
    ensures
        decoding_error(list) is None <==> forall|i: int|
            0 <= i < list.len() ==> is_base64(trim((#[trigger] list[i]).content)),
        0 <= k < list.len() && !is_base64(trim(list[k].content)) && (forall|i: int|
            0 <= i < k ==> is_base64(trim((#[trigger] list[i]).content))) ==> decoding_error(list)
            == Some(base64_error(trim(list[k].content))),
    decreases list.len(),
{
    if list.len() > 0 {
        let rest = list.skip(1);
        law_decoding(rest, k - 1);
        assert forall|i: int| 0 <= i < rest.len() implies rest[i] == list[i + 1] by {}
        if is_base64(trim(list[0].content)) {
            if decoding_error(rest) is None {
                assert forall|i: int| 0 <= i < list.len() implies is_base64(
                    trim((#[trigger] list[i]).content),
                ) by {
                    if i > 0 {
                        assert(rest[i - 1] == list[i]);
                    }
                }
            } else {
                let i = choose|i: int|
                    0 <= i < rest.len() && !is_base64(trim((#[trigger] rest[i]).content));
                assert(list[i + 1] == rest[i]);
            }
        }
    }
}

proof fn lemma_no_sender(from: Seq<char>)
    requires
        !from.contains('@'),
    ensures
        sender_domain(from) is None,
{
    lemma_sender_lacks(from, '@');
    law_split_once(sender_address(from), Seq::empty(), '@');
}

/// The domains that may send are the entries of the list, without white space around them and in
/// lowercase, but for the empty ones, in order.
pub proof fn law_allowed_entry(first: Seq<char>, rest: Seq<char>)
    requires
        !first.contains(','),
        is_ascii_chars(first),
    ensures
        domain_list(split(first + seq![','] + rest, ',')) == (if is_blank(first) {
            Seq::empty()
        } else {
            seq![lowercase(trim(first))]
        }) + domain_list(split(rest, ',')),
        domain_list(split(first, ',')) == (if is_blank(first) {
            Seq::empty()
        } else {
            seq![lowercase(trim(first))]
        }),
{
    law_split_first(first, rest, ',');
    lemma_domain_list_first(first, split(rest, ','));
    lemma_domain_list_first(first, Seq::empty());
    assert(seq![first] + Seq::<Seq<char>>::empty() =~= seq![first]);
    assert(domain_list(Seq::empty()) =~= Seq::empty());
}

proof fn lemma_blank_domain(s: Seq<char>)
    requires
        is_ascii_chars(s),
    ensures
        lowercase(trim(s)).len() == 0 <==> is_blank(s),
{
    let (a, b) = law_trimmed_parts(s, Class::White);
    let t = trim(s);
    assert forall|i: int| 0 <= i < t.len() implies t[i] == s[a.len() + i] by {}
    assert(is_ascii_chars(t));
    assert(lowercase(t).len() == t.len());
    if t.len() == 0 {
        assert forall|i: int| 0 <= i < s.len() implies is_white_space(#[trigger] s[i]) by {
            if i < a.len() {
                assert(in_class(Class::White, a[i]));
            } else {
                assert(in_class(Class::White, b[i - a.len()]));
            }
        }
    } else {
        assert(s[a.len() as int] == t[0]);
    }
}

proof fn lemma_domain_list_first(first: Seq<char>, parts: Seq<Seq<char>>)
    requires
        is_ascii_chars(first),
    ensures
        domain_list(seq![first] + parts) == (if is_blank(first) {
            Seq::empty()
        } else {
            seq![lowercase(trim(first))]
        }) + domain_list(parts),
    decreases parts.len(),
{
    let all = seq![first] + parts;
    if parts.len() == 0 {
        assert(all =~= seq![first]);
        assert(all.drop_last() =~= Seq::empty());
        assert(domain_list(Seq::empty()) =~= Seq::empty());
        lemma_blank_domain(first);
        assert(domain_list(all) =~= (if is_blank(first) {
            Seq::empty()
        } else {
            seq![lowercase(trim(first))]
        }) + domain_list(parts));
    } else {
        assert(all.drop_last() =~= seq![first] + parts.drop_last());
        assert(all.last() == parts.last());
        lemma_domain_list_first(first, parts.drop_last());
        assert(domain_list(all) =~= (if is_blank(first) {
            Seq::empty()
        } else {
            seq![lowercase(trim(first))]
        }) + domain_list(parts));
    }
}

// ---------------------------------------------------------------------------------------------
// Calls
// ---------------------------------------------------------------------------------------------

/// A POST to a place that ends as that for messages does, with a bearer token of the right kind, is
/// admitted with that token. With another method or place it is answered that there is nothing
/// there, without a token that it is missing, and with a token of another kind that it is invalid.
pub proof fn law_admission(
    method: Seq<char>,
    path: Seq<char>,
    before: Seq<char>,
    auth: Option<Seq<char>>,
    token: Seq<char>,
)
    requires
        token.len() > 0,
        is_trim(token, Class::White),
    ensures
        "4w_live_"@.is_prefix_of(token) ==> admission(
            "POST"@,
            before + "/v1/emails"@,
            Some("Bearer "@ + token),
        ) == Ok::<Seq<char>, ReplyText>(token),
        !"4w_live_"@.is_prefix_of(token) ==> admission(
            "POST"@,
            before + "/v1/emails"@,
            Some("Bearer "@ + token),
        ) == Err::<Seq<char>, ReplyText>(ReplyText::Failed(401, "invalid token"@)),
        admission("POST"@, before + "/v1/emails"@, None) == Err::<Seq<char>, ReplyText>(
            ReplyText::Failed(401, "missing bearer token"@),
        ),
        method != "POST"@ || !"/v1/emails"@.is_suffix_of(path) ==> admission(method, path, auth)
            == Err::<Seq<char>, ReplyText>(ReplyText::Failed(404, "not found"@)),
{
    law_bearer(token, Seq::empty(), Seq::empty(), Seq::empty(), seq!['-']);
    let place = before + "/v1/emails"@;
    assert("/v1/emails"@.is_suffix_of(place)) by {
        assert(place.subrange(before.len() as int, place.len() as int) =~= "/v1/emails"@);
    }
}

/// A token that is known lets the call go on; one that is not known is invalid, and where that
/// could not be found out, it is said so.
pub proof fn law_verification(why: String)
    ensures
        verification(Ok(true)) is None,
        verification(Ok(false)) == Some(ReplyText::Failed(401, "invalid token"@)),
        verification(Err(why)) == Some(ReplyText::Failed(500, "auth backend error"@)),
{
}

/// A request with nothing wrong is what is sent; of another the first thing that is wrong is
/// answered, and of a payload that is no request what the decoder found wrong with it.
pub proof fn law_payload(req: SendRequest, allowed: Seq<Seq<char>>, why: String)
    ensures
        payload_problem(req@, allowed) is None ==> accepted(Ok(req), allowed) == Ok::<
            RequestText,
            ReplyText,
        >(req@),
        payload_problem(req@, allowed) matches Some(e) ==> accepted(Ok(req), allowed) == Err::<
            RequestText,
            ReplyText,
        >(ReplyText::Failed(400, e)),
        accepted(Err(why), allowed) == Err::<RequestText, ReplyText>(
            ReplyText::Failed(400, "invalid payload: "@ + why@),
        ),
{
}

/// A message that was handed on is answered with its identifier, which is empty where it got none,
/// and one that was not with a failure.
pub proof fn law_delivery(id: String, why: String)
    ensures
        delivery(Ok(Some(id))) == (ReplyText::Sent { id: id@, status: "sent"@ }),
        delivery(Ok(None)) == (ReplyText::Sent { id: Seq::empty(), status: "sent"@ }),
        delivery(Err(why)) == ReplyText::Failed(502, "ses send failed"@),
{
}

} // verus!
