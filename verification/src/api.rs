//! The sending interface: what a request may ask for, what it is answered, and the message that
//! is sent for it.
use vstd::prelude::*;
use vstd::utf8::encode_utf8;

use crate::base64_laws::law_base64_round_trip;
use crate::crypto::{
    base64_decode, base64_error, decoded, is_base64, law_text_of_bytes, message_text,
};
use crate::mail::{
    add_attachment, add_bcc, add_cc, add_from, add_reply_to, add_subject, add_to, draft,
    holds_attachment, holds_body, holds_content, is_written, may_write, new_message, set_html,
    set_text, starts_with_headers, write_message, Draft, HeaderValue,
};
use crate::text::{
    blank, chars_of, copy_of, is_blank, last_of, lowercase, maybe_text, rfind_char, runs, same_text,
    split, split_at_each, split_once, split_once_at, starts_with, text_of, texts, trim, trim_end_of,
    trim_of, trim_text, trimmed_end, Class,
};

verus! {

broadcast use vstd::seq_lib::group_seq_properties;

// ---------------------------------------------------------------------------------------------
// Requests and answers
// ---------------------------------------------------------------------------------------------

/// An attachment of a request.
#[derive(Debug, Clone)]
pub struct AttachmentIn {
    /// The name.
    pub filename: String,
    /// The contents in base64.
    pub content: String,
    /// The content type.
    pub content_type: String,
}

/// What an [`AttachmentIn`] holds.
pub struct AttachmentText {
    pub filename: Seq<char>,
    pub content: Seq<char>,
    pub content_type: Seq<char>,
}

impl View for AttachmentIn {
    type V = AttachmentText;

    open spec fn view(&self) -> AttachmentText {
        AttachmentText {
            filename: self.filename@,
            content: self.content@,
            content_type: self.content_type@,
        }
    }
}

/// The content type where a request leaves it out.
pub fn default_ctype() -> (r: String)
    ensures
        r@ == "application/octet-stream"@,
{
    copy_of("application/octet-stream")
}

/// A request to send a message.
#[derive(Debug, Clone)]
pub struct SendRequest {
    /// The sender.
    pub from: String,
    /// The recipients.
    pub to: Vec<String>,
    /// The recipients of copies.
    pub cc: Vec<String>,
    /// The recipients of blind copies.
    pub bcc: Vec<String>,
    /// Where replies go.
    pub reply_to: Option<String>,
    /// The subject.
    pub subject: String,
    /// The HTML body.
    pub html: Option<String>,
    /// The plain text body.
    pub text: Option<String>,
    /// The attachments.
    pub attachments: Vec<AttachmentIn>,
}

/// What a [`SendRequest`] holds.
pub struct RequestText {
    pub from: Seq<char>,
    pub to: Seq<Seq<char>>,
    pub cc: Seq<Seq<char>>,
    pub bcc: Seq<Seq<char>>,
    pub reply_to: Option<Seq<char>>,
    pub subject: Seq<char>,
    pub html: Option<Seq<char>>,
    pub text: Option<Seq<char>>,
    pub attachments: Seq<AttachmentText>,
}

/// What a list of attachments holds.
pub open spec fn enclosed(v: Seq<AttachmentIn>) -> Seq<AttachmentText> {
    v.map_values(|a: AttachmentIn| a@)
}

impl View for SendRequest {
    type V = RequestText;

    open spec fn view(&self) -> RequestText {
        RequestText {
            from: self.from@,
            to: texts(self.to@),
            cc: texts(self.cc@),
            bcc: texts(self.bcc@),
            reply_to: maybe_text(self.reply_to),
            subject: self.subject@,
            html: maybe_text(self.html),
            text: maybe_text(self.text),
            attachments: enclosed(self.attachments@),
        }
    }
}

/// The answer to a request that was carried out.
#[derive(Debug)]
pub struct SendResponse {
    /// The identifier of the message.
    pub id: String,
    /// What became of it.
    pub status: String,
}

// ---------------------------------------------------------------------------------------------
// Tokens and senders
// ---------------------------------------------------------------------------------------------

/// The token of an authorization header.
pub open spec fn bearer_of(header: Seq<char>) -> Option<Seq<char>> {
    let h = trim(header);
    if "Bearer "@.is_prefix_of(h) || "bearer "@.is_prefix_of(h) {
        let token = trim(h.skip(7));
        if token.len() > 0 {
            Some(token)
        } else {
            None
        }
    } else {
        None
    }
}

/// The bearer token of an authorization header; none where the header is missing, is of another
/// kind or has no token.
pub fn bearer_token(auth: Option<&str>) -> (r: Option<String>)
    ensures
        maybe_text(r) == (match auth {
            Some(h) => bearer_of(h@),
            None => None,
        }),
{
    let header = match auth {
        Some(h) => h,
        None => return None,
    };
    let cs = chars_of(header);
    let h = trim_of(cs.as_slice(), Class::White);
    let capital = chars_of("Bearer ");
    let small = chars_of("bearer ");
    proof {
        reveal_strlit("Bearer ");
        reveal_strlit("bearer ");
    }
    if starts_with(h, capital.as_slice()) || starts_with(h, small.as_slice()) {
        let rest = &h[7..h.len()];
        assert(rest@ == h@.skip(7));
        let token = trim_of(rest, Class::White);
        if token.len() > 0 {
            return Some(text_of(token));
        }
    }
    None
}

/// The address of a sender: what stands in the last angle brackets, or else the whole text.
pub open spec fn sender_address(from: Seq<char>) -> Seq<char> {
    let i = last_of(from, '<');
    if i >= 0 {
        trim(trimmed_end(from.skip(i + 1), Class::CloseAngle))
    } else {
        trim(from)
    }
}

fn sender<'a>(from: &'a [char]) -> (r: &'a [char])
    ensures
        r@ == sender_address(from@),
{
    match rfind_char(from, '<') {
        Some(i) => {
            let n: usize = from.len();
            let tail = &from[i + 1..n];
            assert(tail@ == from@.skip(i + 1));
            trim_of(trim_end_of(tail, Class::CloseAngle), Class::White)
        },
        None => trim_of(from, Class::White),
    }
}

/// The address of a sender: what stands in the last angle brackets, or else the whole text.
pub fn from_address(from: &str) -> (r: String)
    ensures
        r@ == sender_address(from@),
{
    text_of(sender(chars_of(from).as_slice()))
}

/// The domain of a sender, in lowercase.
pub open spec fn sender_domain(from: Seq<char>) -> Option<Seq<char>> {
    match split_once(sender_address(from), '@') {
        Some((_, domain)) => Some(lowercase(trim(domain))),
        None => None,
    }
}

/// The domain of a sender, in lowercase; none where there is no `@` in the address.
pub fn from_domain(from: &str) -> (r: Option<String>)
    ensures
        maybe_text(r) == sender_domain(from@),
{
    let cs = chars_of(from);
    match split_once_at(sender(cs.as_slice()), '@') {
        Some(parts) => Some(text_of(trim_of(parts.1, Class::White)).as_str().to_lowercase()),
        None => None,
    }
}

/// The entries of a comma-separated list, trimmed and in lowercase, without the empty ones.
pub open spec fn domain_list(parts: Seq<Seq<char>>) -> Seq<Seq<char>>
    decreases parts.len(),
{
    if parts.len() == 0 {
        seq![]
    } else {
        let before = domain_list(parts.drop_last());
        let d = lowercase(trim(parts.last()));
        if d.len() > 0 {
            before.push(d)
        } else {
            before
        }
    }
}

/// The domains of a comma-separated list, trimmed and in lowercase.
pub fn allowed_domains(list: &str) -> (r: Vec<String>)
    ensures
        texts(r@) == domain_list(split(list@, ',')),
{
    let cs = chars_of(list);
    let parts = split_at_each(cs.as_slice(), ',');
    let ghost all = split(list@, ',');
    let mut out: Vec<String> = Vec::new();
    assert(texts(out@) =~= seq![]);
    for i in 0..parts.len()
        invariant
            runs(parts@) == all,
            texts(out@) == domain_list(all.take(i as int)),
    {
        let ghost before = out@;
        assert(runs(parts@)[i as int] == parts@[i as int]@);
        assert(all.take(i + 1).drop_last() =~= all.take(i as int));
        assert(all.take(i + 1).last() == all[i as int]);
        let d = text_of(trim_of(parts[i], Class::White)).as_str().to_lowercase();
        if !d.as_str().is_empty() {
            out.push(d);
            assert(texts(out@) =~= texts(before).push(d@));
        }
    }
    assert(all.take(all.len() as int) =~= all);
    out
}

// ---------------------------------------------------------------------------------------------
// Validity
// ---------------------------------------------------------------------------------------------

/// What is wrong with the first attachment that is not valid.
pub open spec fn attachment_problem(list: Seq<AttachmentText>) -> Option<Seq<char>>
    decreases list.len(),
{
    if list.len() == 0 {
        None
    } else if is_blank(list[0].filename) {
        Some("attachment filename is required"@)
    } else if !is_base64(trim(list[0].content)) {
        Some("attachment '"@ + list[0].filename + "' is not valid base64"@)
    } else {
        attachment_problem(list.skip(1))
    }
}

/// The first thing that is wrong with a request. `allowed` lists the domains that may send;
/// where it is empty, all may.
pub open spec fn payload_problem(req: RequestText, allowed: Seq<Seq<char>>) -> Option<Seq<char>> {
    if req.to.len() == 0 {
        Some("to must contain at least one recipient"@)
    } else if is_blank(req.subject) {
        Some("subject is required"@)
    } else if req.html is None && req.text is None {
        Some("html or text is required"@)
    } else {
        match sender_domain(req.from) {
            None => Some("invalid from address"@),
            Some(domain) => if allowed.len() > 0 && !allowed.contains(domain) {
                Some("from domain '"@ + domain + "' is not a verified identity"@)
            } else {
                attachment_problem(req.attachments)
            },
        }
    }
}

fn lists(list: &Vec<String>, text: &str) -> (r: bool)
    ensures
        r == texts(list@).contains(text@),
{
    for i in 0..list.len()
        invariant
            forall|j: int| 0 <= j < i ==> texts(list@)[j] != text@,
    {
        assert(texts(list@)[i as int] == list@[i as int]@);
        if same_text(list[i].as_str(), text) {
            return true;
        }
    }
    false
}

fn problem_with_attachments(list: &Vec<AttachmentIn>) -> (r: Option<String>)
    ensures
        maybe_text(r) == attachment_problem(enclosed(list@)),
{
    let ghost all = enclosed(list@);
    assert(all.skip(0) =~= all);
    for i in 0..list.len()
        invariant
            all == enclosed(list@),
            attachment_problem(all) == attachment_problem(all.skip(i as int)),
    {
        assert(all.skip(i as int)[0] == list@[i as int]@);
        assert(all.skip(i as int).skip(1) =~= all.skip(i + 1));
        let a = &list[i];
        if blank(a.filename.as_str()) {
            return Some(copy_of("attachment filename is required"));
        }
        let content = trim_text(a.content.as_str());
        match base64_decode(content.as_str()) {
            Ok(_) => {},
            Err(_) => {
                let mut out = copy_of("attachment '");
                out.append(a.filename.as_str());
                out.append("' is not valid base64");
                return Some(out);
            },
        }
    }
    None
}

/// Whether a request can be carried out, and the first thing that is wrong where it cannot.
/// `allowed` lists the domains that may send; where it is empty, all may.
pub fn validate_payload(req: &SendRequest, allowed: &Vec<String>) -> (r: Result<(), String>)
    ensures
        match payload_problem(req@, texts(allowed@)) {
            None => r is Ok,
            Some(e) => r matches Err(x) && x@ == e,
        },
{
    if req.to.len() == 0 {
        return Err(copy_of("to must contain at least one recipient"));
    }
    if blank(req.subject.as_str()) {
        return Err(copy_of("subject is required"));
    }
    if req.html.is_none() && req.text.is_none() {
        return Err(copy_of("html or text is required"));
    }
    let domain = match from_domain(req.from.as_str()) {
        Some(d) => d,
        None => return Err(copy_of("invalid from address")),
    };
    if allowed.len() > 0 && !lists(allowed, domain.as_str()) {
        let mut out = copy_of("from domain '");
        out.append(domain.as_str());
        out.append("' is not a verified identity");
        return Err(out);
    }
    match problem_with_attachments(&req.attachments) {
        Some(e) => Err(e),
        None => Ok(()),
    }
}

// ---------------------------------------------------------------------------------------------
// The message
// ---------------------------------------------------------------------------------------------

/// Why the attachments cannot be decoded: what is wrong with the first that is no base64.
pub open spec fn decoding_error(list: Seq<AttachmentText>) -> Option<Seq<char>>
    decreases list.len(),
{
    if list.len() == 0 {
        None
    } else if !is_base64(trim(list[0].content)) {
        Some(base64_error(trim(list[0].content)))
    } else {
        decoding_error(list.skip(1))
    }
}

/// The headers of the message for a request.
pub open spec fn send_headers(req: RequestText) -> Seq<(Seq<char>, HeaderValue)> {
    seq![
        ("From"@, HeaderValue::Address(None, req.from)),
        ("To"@, HeaderValue::Addresses(req.to)),
        ("Subject"@, HeaderValue::Text(req.subject)),
    ] + (if req.cc.len() > 0 {
        seq![("Cc"@, HeaderValue::Addresses(req.cc))]
    } else {
        seq![]
    }) + (if req.bcc.len() > 0 {
        seq![("Bcc"@, HeaderValue::Addresses(req.bcc))]
    } else {
        seq![]
    }) + (match req.reply_to {
        Some(a) => seq![("Reply-To"@, HeaderValue::Address(None, a))],
        None => seq![],
    })
}

/// The message for a request.
pub open spec fn send_draft(req: RequestText) -> Draft {
    Draft {
        headers: send_headers(req),
        text: if req.text is None && req.html is None {
            Some(""@)
        } else {
            req.text
        },
        html: req.html,
        attachments: req.attachments.map_values(
            |a: AttachmentText| (a.content_type, a.filename, decoded(trim(a.content))),
        ),
    }
}

fn decode_all(list: &Vec<AttachmentIn>) -> (r: Result<Vec<Vec<u8>>, String>)
    ensures
        match decoding_error(enclosed(list@)) {
            None => r matches Ok(v) && v@.len() == list@.len() && forall|i: int|
                0 <= i < list@.len() ==> (#[trigger] v@[i])@ == decoded(
                    trim(list@[i].content@),
                ),
            Some(e) => r matches Err(x) && x@ == e,
        },
{
    let ghost all = enclosed(list@);
    let mut out: Vec<Vec<u8>> = Vec::new();
    assert(all.skip(0) =~= all);
    for i in 0..list.len()
        invariant
            all == enclosed(list@),
            decoding_error(all) == decoding_error(all.skip(i as int)),
            out@.len() == i,
            forall|j: int|
                0 <= j < i ==> (#[trigger] out@[j])@ == decoded(trim(list@[j].content@)),
    {
        assert(all.skip(i as int)[0] == list@[i as int]@);
        assert(all.skip(i as int).skip(1) =~= all.skip(i + 1));
        let content = trim_text(list[i].content.as_str());
        match base64_decode(content.as_str()) {
            Ok(b) => {
                proof {
                    law_base64_round_trip(b@);
                }
                out.push(b);
            },
            Err(e) => return Err(e),
        }
    }
    Ok(out)
}

/// Writes the message for a request.
pub fn build_raw(req: &SendRequest) -> (r: Result<Vec<u8>, String>)
    ensures
        match decoding_error(req@.attachments) {
            None => r matches Ok(raw) && may_write(send_draft(req@), raw@) && is_written(
                send_draft(req@),
                raw@,
            ),
            Some(e) => r matches Err(x) && x@ == e,
        },
{
    let ghost goal = send_draft(req@);
    let mut b = new_message();
    let bodies = match decode_all(&req.attachments) {
        Ok(v) => v,
        Err(e) => return Err(e),
    };
    b = add_from(b, None, req.from.as_str());
    b = add_to(b, &req.to);
    b = add_subject(b, req.subject.as_str());
    if req.cc.len() > 0 {
        b = add_cc(b, &req.cc);
    }
    if req.bcc.len() > 0 {
        b = add_bcc(b, &req.bcc);
    }
    match &req.reply_to {
        Some(a) => {
            b = add_reply_to(b, a.as_str());
        },
        None => {},
    }
    assert(draft(b).headers =~= goal.headers);
    match &req.text {
        Some(t) => {
            b = set_text(b, t.as_str());
        },
        None => {},
    }
    match &req.html {
        Some(h) => {
            b = set_html(b, h.as_str());
        },
        None => {},
    }
    if req.text.is_none() && req.html.is_none() {
        b = set_text(b, "");
    }
    assert(draft(b) == (Draft { attachments: seq![], ..goal }));
    for i in 0..req.attachments.len()
        invariant
            goal == send_draft(req@),
            bodies@.len() == req.attachments@.len(),
            forall|j: int|
                0 <= j < bodies@.len() ==> (#[trigger] bodies@[j])@ == decoded(
                    trim(req.attachments@[j].content@),
                ),
            draft(b) == (Draft { attachments: goal.attachments.take(i as int), ..goal }),
    {
        let a = &req.attachments[i];
        b =
        add_attachment(b, a.content_type.as_str(), a.filename.as_str(), bodies[i].as_slice());
        assert(req@.attachments[i as int] == a@);
        assert(goal.attachments.take(i + 1) =~= goal.attachments.take(i as int).push(
            goal.attachments[i as int],
        ));
    }
    assert(goal.attachments.take(req.attachments@.len() as int) =~= goal.attachments);
    write_message(b)
}

/// What is written for a request holds its bodies and each of its attachments, as they were decoded.
pub proof fn law_request_is_held(req: RequestText, raw: Seq<u8>)
    requires
        is_written(send_draft(req), raw),
    ensures
        holds_body(message_text(raw), req.text),
        holds_body(message_text(raw), req.html),
        forall|i: int|
            0 <= i < req.attachments.len() ==> holds_attachment(
                message_text(raw),
                (
                    (#[trigger] req.attachments[i]).content_type,
                    req.attachments[i].filename,
                    decoded(trim(req.attachments[i].content)),
                ),
            ),
{
    let d = send_draft(req);
    let (ls, text) = choose|ls: Seq<Seq<char>>, text: Seq<char>|
        raw == encode_utf8(text) && #[trigger] starts_with_headers(d, ls, text) && holds_content(
            d,
            text,
        );
    law_text_of_bytes(text);
    assert forall|i: int| 0 <= i < req.attachments.len() implies holds_attachment(
        text,
        (
            (#[trigger] req.attachments[i]).content_type,
            req.attachments[i].filename,
            decoded(trim(req.attachments[i].content)),
        ),
    ) by {
        assert(holds_attachment(text, d.attachments[i]));
    }
}

/// A request that is valid can be written: none of its attachments fails to decode.
pub proof fn law_valid_request_is_written(req: RequestText, allowed: Seq<Seq<char>>)
    requires
        payload_problem(req, allowed) is None,
    ensures
        decoding_error(req.attachments) is None,
{
    lemma_no_problem_decodes(req.attachments);
}

proof fn lemma_no_problem_decodes(list: Seq<AttachmentText>)
    requires
        attachment_problem(list) is None,
    ensures
        decoding_error(list) is None,
    decreases list.len(),
{
    if list.len() > 0 {
        lemma_no_problem_decodes(list.skip(1));
    }
}

} // verus!
