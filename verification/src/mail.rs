//! Mail messages: what is read of a message that came in, and how one that goes out is put
//! together and written.
use mail_builder::headers::text::Text;
use mail_builder::MessageBuilder;
use mail_parser::{Addr, Address, MessageParser, MimeHeaders};
use std::borrow::Cow;
use vstd::prelude::*;
use vstd::utf8::encode_utf8;

use crate::crypto::base64;
use crate::intake::{is_parsable, parsable};
use crate::text::{has_empty_line, has_text, maybe_text, split, texts};

verus! {

broadcast use vstd::seq_lib::group_seq_properties;

// ---------------------------------------------------------------------------------------------
// Messages that came in
// ---------------------------------------------------------------------------------------------

/// A sender or recipient as a message's header names it.
#[derive(Debug, Clone)]
pub struct Mailbox {
    /// The display name.
    pub name: Option<String>,
    /// The address.
    pub address: Option<String>,
}

/// What a [`Mailbox`] holds.
pub struct MailboxText {
    pub name: Option<Seq<char>>,
    pub address: Option<Seq<char>>,
}

impl View for Mailbox {
    type V = MailboxText;

    open spec fn view(&self) -> MailboxText {
        MailboxText { name: maybe_text(self.name), address: maybe_text(self.address) }
    }
}

/// What a message that came in holds.
#[derive(Debug, Clone)]
pub struct Incoming {
    /// The first sender of the From header.
    pub from: Option<Mailbox>,
    /// The first recipient of the To header.
    pub to: Option<Mailbox>,
    /// The subject.
    pub subject: Option<String>,
    /// The first body as plain text.
    pub text: Option<String>,
    /// The first body as HTML.
    pub html: Option<String>,
    /// The attachments: the name, where it has one, and the contents of each.
    pub attachments: Vec<(Option<String>, Vec<u8>)>,
}

/// What an [`Incoming`] holds.
pub struct IncomingText {
    pub from: Option<MailboxText>,
    pub to: Option<MailboxText>,
    pub subject: Option<Seq<char>>,
    pub text: Option<Seq<char>>,
    pub html: Option<Seq<char>>,
    pub attachments: Seq<(Option<Seq<char>>, Seq<u8>)>,
}

/// What the header says of a sender or recipient that may be missing.
pub open spec fn maybe_mailbox(m: Option<Mailbox>) -> Option<MailboxText> {
    match m {
        Some(b) => Some(b@),
        None => None,
    }
}

/// The names and contents of a list of attachments.
pub open spec fn attached(v: Seq<(Option<String>, Vec<u8>)>) -> Seq<(Option<Seq<char>>, Seq<u8>)> {
    v.map_values(|a: (Option<String>, Vec<u8>)| (maybe_text(a.0), a.1@))
}

impl View for Incoming {
    type V = IncomingText;

    open spec fn view(&self) -> IncomingText {
        IncomingText {
            from: maybe_mailbox(self.from),
            to: maybe_mailbox(self.to),
            subject: maybe_text(self.subject),
            text: maybe_text(self.text),
            html: maybe_text(self.html),
            attachments: attached(self.attachments@),
        }
    }
}

/// What a parsed message holds; none where the bytes are no message.
pub open spec fn maybe_incoming(m: Option<Incoming>) -> Option<IncomingText> {
    match m {
        Some(i) => Some(i@),
        None => None,
    }
}

/// What the bytes of a message hold; none where they are no message.
pub uninterp spec fn parsed(raw: Seq<u8>) -> Option<IncomingText>;

/// `mail_parser::MessageParser::parse` with the parser's default settings, and the accessors of
/// the message that it returns: the first From and To address, the subject, the first text and
/// HTML body, and each attachment's name and contents. All of it depends on the bytes alone.
///
/// [`is_parsable`] leaves out the messages on which the parser may not return: those with a
/// quoted-printable part of less than two bytes that a soft line break ends, for which it subtracts
/// below zero, with the least number of 64 bits in a Received header, which it negates, and with so
/// many messages one within the other that freeing them overflows the stack; and those with an
/// encoded message within, which the parser decodes and reads likewise.
#[verifier::external_body]
pub(crate) fn parse_message(raw: &[u8]) -> (r: Option<Incoming>)
    requires
        is_parsable(raw@),
    ensures
        maybe_incoming(r) == parsed(raw@),
{
    let msg = MessageParser::default().parse(raw)?;
    let mailbox = |a: &Addr| Mailbox {
        name: a.name().map(str::to_owned),
        address: a.address().map(str::to_owned),
    };
    Some(Incoming {
        from: msg.from().and_then(Address::first).map(mailbox),
        to: msg.to().and_then(Address::first).map(mailbox),
        subject: msg.subject().map(str::to_owned),
        text: msg.body_text(0).map(Cow::into_owned),
        html: msg.body_html(0).map(Cow::into_owned),
        attachments: msg.attachments()
            .map(|p| (p.attachment_name().map(str::to_owned), p.contents().to_vec())).collect(),
    })
}

/// What a message holds; none where the bytes are no message, or none that is handed to the parser.
pub open spec fn incoming(raw: Seq<u8>) -> Option<IncomingText> {
    if is_parsable(raw) {
        parsed(raw)
    } else {
        None
    }
}

/// Reads a message; none where the bytes are no message, or none that is handed to the parser.
pub fn read_message(raw: &[u8]) -> (r: Option<Incoming>)
    ensures
        maybe_incoming(r) == incoming(raw@),
{
    if parsable(raw) {
        parse_message(raw)
    } else {
        None
    }
}

// ---------------------------------------------------------------------------------------------
// Messages that go out
// ---------------------------------------------------------------------------------------------

/// The value of a header.
pub enum HeaderValue {
    /// One address, with a display name or without.
    Address(Option<Seq<char>>, Seq<char>),
    /// A list of addresses.
    Addresses(Seq<Seq<char>>),
    /// Unstructured text.
    Text(Seq<char>),
}

/// A message that is being put together.
pub struct Draft {
    /// The headers: names and values, in the order in which they were added.
    pub headers: Seq<(Seq<char>, HeaderValue)>,
    /// The plain text body.
    pub text: Option<Seq<char>>,
    /// The HTML body.
    pub html: Option<Seq<char>>,
    /// The attachments: content type, name and contents of each.
    pub attachments: Seq<(Seq<char>, Seq<char>, Seq<u8>)>,
}

/// A draft with nothing in it.
pub open spec fn empty_draft() -> Draft {
    Draft { headers: seq![], text: None, html: None, attachments: seq![] }
}

/// A draft with one more header.
pub open spec fn with_header(d: Draft, name: Seq<char>, value: HeaderValue) -> Draft {
    Draft { headers: d.headers.push((name, value)), ..d }
}

/// A draft with one more attachment.
pub open spec fn with_attachment(d: Draft, ctype: Seq<char>, name: Seq<char>, b: Seq<u8>) -> Draft {
    Draft { attachments: d.attachments.push((ctype, name, b)), ..d }
}

/// The builder of messages.
#[verifier::external_type_specification]
#[verifier::external_body]
pub struct ExMessageBuilder<'x>(mail_builder::MessageBuilder<'x>);

/// What a builder has been given so far.
pub uninterp spec fn draft(b: mail_builder::MessageBuilder<'_>) -> Draft;

/// `MessageBuilder::new` makes a builder that has been given nothing.
#[verifier::external_body]
pub(crate) fn new_message<'x>() -> (r: MessageBuilder<'x>)
    ensures
        draft(r) == empty_draft(),
{
    MessageBuilder::new()
}

/// `MessageBuilder::from` adds a From header with one address.
#[verifier::external_body]
pub(crate) fn add_from<'x>(b: MessageBuilder<'x>, name: Option<&'x str>, address: &'x str) -> (r:
    MessageBuilder<'x>)
    ensures
        draft(r) == with_header(
            draft(b),
            "From"@,
            HeaderValue::Address(
                match name {
                    Some(n) => Some(n@),
                    None => None,
                },
                address@,
            ),
        ),
{
    b.from(mail_builder::headers::address::Address::new_address(name, address))
}

/// `MessageBuilder::reply_to` adds a Reply-To header, here with one address that has no name.
#[verifier::external_body]
pub(crate) fn add_reply_to<'x>(b: MessageBuilder<'x>, address: &'x str) -> (r: MessageBuilder<'x>)
    ensures
        draft(r) == with_header(draft(b), "Reply-To"@, HeaderValue::Address(None, address@)),
{
    b.reply_to(address)
}

/// `MessageBuilder::to` adds a To header, here with a list of addresses that have no names.
#[verifier::external_body]
pub(crate) fn add_to<'x>(b: MessageBuilder<'x>, list: &'x Vec<String>) -> (r: MessageBuilder<'x>)
    ensures
        draft(r) == with_header(draft(b), "To"@, HeaderValue::Addresses(texts(list@))),
{
    b.to(list.iter().map(|s| s.as_str()).collect::<Vec<_>>())
}

/// `MessageBuilder::cc` adds a Cc header, here with a list of addresses that have no names.
#[verifier::external_body]
pub(crate) fn add_cc<'x>(b: MessageBuilder<'x>, list: &'x Vec<String>) -> (r: MessageBuilder<'x>)
    ensures
        draft(r) == with_header(draft(b), "Cc"@, HeaderValue::Addresses(texts(list@))),
{
    b.cc(list.iter().map(|s| s.as_str()).collect::<Vec<_>>())
}

/// `MessageBuilder::bcc` adds a Bcc header, here with a list of addresses that have no names.
#[verifier::external_body]
pub(crate) fn add_bcc<'x>(b: MessageBuilder<'x>, list: &'x Vec<String>) -> (r: MessageBuilder<'x>)
    ensures
        draft(r) == with_header(draft(b), "Bcc"@, HeaderValue::Addresses(texts(list@))),
{
    b.bcc(list.iter().map(|s| s.as_str()).collect::<Vec<_>>())
}

/// `MessageBuilder::subject` adds a Subject header.
#[verifier::external_body]
pub(crate) fn add_subject<'x>(b: MessageBuilder<'x>, subject: &'x str) -> (r: MessageBuilder<'x>)
    ensures
        draft(r) == with_header(draft(b), "Subject"@, HeaderValue::Text(subject@)),
{
    b.subject(subject)
}

/// `MessageBuilder::header` adds a header, here one of unstructured text.
#[verifier::external_body]
pub(crate) fn add_header<'x>(b: MessageBuilder<'x>, name: &'x str, value: &'x str) -> (r:
    MessageBuilder<'x>)
    ensures
        draft(r) == with_header(draft(b), name@, HeaderValue::Text(value@)),
{
    b.header(name, Text::new(value))
}

/// `MessageBuilder::text_body` sets the plain text body.
#[verifier::external_body]
pub(crate) fn set_text<'x>(b: MessageBuilder<'x>, body: &'x str) -> (r: MessageBuilder<'x>)
    ensures
        draft(r) == (Draft { text: Some(body@), ..draft(b) }),
{
    b.text_body(body)
}

/// `MessageBuilder::html_body` sets the HTML body.
#[verifier::external_body]
pub(crate) fn set_html<'x>(b: MessageBuilder<'x>, body: &'x str) -> (r: MessageBuilder<'x>)
    ensures
        draft(r) == (Draft { html: Some(body@), ..draft(b) }),
{
    b.html_body(body)
}

/// `MessageBuilder::attachment` adds an attachment.
#[verifier::external_body]
pub(crate) fn add_attachment<'x>(
    b: MessageBuilder<'x>,
    ctype: &'x str,
    name: &'x str,
    contents: &'x [u8],
) -> (r: MessageBuilder<'x>)
    ensures
        draft(r) == with_attachment(draft(b), ctype@, name@, contents@),
{
    b.attachment(ctype, name, contents)
}

/// Whether a text is made of visible ASCII characters.
pub open spec fn is_visible(s: Seq<char>) -> bool {
    forall|i: int| 0 <= i < s.len() ==> '!' <= #[trigger] s[i] <= '~'
}

/// Whether a header's name is visible and leaves room for a value on the line.
pub open spec fn is_short_name(name: Seq<char>) -> bool {
    0 < name.len() < 74 && is_visible(name)
}

/// The end of a line.
pub open spec fn line_end() -> Seq<char> {
    seq!['\r', '\n']
}

/// Whether `c` is an ASCII space, tab, line feed, form feed or carriage return.
pub open spec fn is_ascii_white(c: char) -> bool {
    c == ' ' || c == '\t' || c == '\n' || c == '\x0c' || c == '\r'
}

/// Whether a text is written in encoded words: it has a character that is not ASCII or is the
/// last of ASCII, is longer than a line, or ends with a blank.
pub open spec fn is_encoded(t: Seq<char>) -> bool {
    ||| exists|i: int| 0 <= i < t.len() && #[trigger] t[i] >= '\x7f'
    ||| t.len() > 77
    ||| t.len() > 0 && (t.last() == ' ' || t.last() == '\t')
}

/// A text from its `i`th character on as it is written where `n` characters stand on the line: as
/// it is, but folded before white space once the line is full.
pub open spec fn folded_from(t: Seq<char>, i: int, n: nat) -> Seq<char>
    decreases t.len() - i,
{
    if i >= t.len() {
        seq![]
    } else if n >= 76 && is_ascii_white(t[i]) && i < t.len() - 1 {
        seq!['\r', '\n', '\t', t[i]] + folded_from(t, i + 1, 2)
    } else {
        seq![t[i]] + folded_from(t, i + 1, n + 1)
    }
}

/// The line of a header with a text that is not encoded.
pub open spec fn text_line(name: Seq<char>, t: Seq<char>) -> Seq<char> {
    name + seq![':', ' '] + folded_from(t, 0, name.len() + 2) + line_end()
}

/// Whether a header is written without an empty line in it. Addresses are written as they are, and
/// encoded text has no line breaks of its own.
pub open spec fn is_unbroken(name: Seq<char>, value: HeaderValue) -> bool {
    match value {
        HeaderValue::Address(_, a) => !has_empty_line(a),
        HeaderValue::Addresses(l) => forall|i: int|
            0 <= i < l.len() ==> !has_empty_line(#[trigger] l[i]),
        HeaderValue::Text(t) => is_encoded(t) || !has_empty_line(text_line(name, t)),
    }
}

/// Whether `line` is how a header may be written: it starts with the name and a colon and ends
/// with CR LF. Where the name leaves room on the line, a text that is not encoded stands in it as
/// [`text_line`] says, and there is no empty line in it where the header is unbroken.
pub open spec fn is_header_line(name: Seq<char>, value: HeaderValue, line: Seq<char>) -> bool {
    &&& line.len() >= name.len() + 4
    &&& line.take(name.len() as int) == name
    &&& line.skip(line.len() - 2) == line_end()
    &&& is_short_name(name) ==> {
        &&& value matches HeaderValue::Text(t) ==> !is_encoded(t) ==> line == text_line(name, t)
        &&& is_unbroken(name, value) ==> !has_empty_line(line)
    }
}

/// Whether `text` starts with the header lines `ls` of the draft, in order.
pub open spec fn starts_with_headers(d: Draft, ls: Seq<Seq<char>>, text: Seq<char>) -> bool {
    &&& ls.len() == d.headers.len()
    &&& forall|i: int|
        0 <= i < ls.len() ==> is_header_line(d.headers[i].0, d.headers[i].1, #[trigger] ls[i])
    &&& text.len() >= ls.flatten().len()
    &&& text.take(ls.flatten().len() as int) == ls.flatten()
}

/// Base64 text on lines of 76 characters: each full line has a line end.
pub open spec fn base64_lines(s: Seq<char>) -> Seq<char>
    decreases s.len(),
{
    if s.len() < 76 {
        s
    } else {
        s.take(76) + line_end() + base64_lines(s.skip(76))
    }
}

/// Whether a body can be written as it is: its characters are visible ASCII, spaces and line
/// feeds, no line is longer than 76 characters, and none ends with a space.
pub open spec fn is_plain_body(s: Seq<char>) -> bool {
    &&& forall|i: int| 0 <= i < s.len() ==> ' ' <= #[trigger] s[i] <= '~' || s[i] == '\n'
    &&& forall|i: int|
        0 <= i < s.len() && #[trigger] s[i] == ' ' ==> i + 1 < s.len() && s[i + 1] != '\n'
    &&& forall|k: int|
        0 <= k < split(s, '\n').len() ==> (#[trigger] split(s, '\n')[k]).len() <= 76
}

/// `s` with CR LF as line ends: a carriage return before each line feed that has none.
pub open spec fn crlf_lines(s: Seq<char>) -> Seq<char>
    decreases s.len(),
{
    if s.len() == 0 {
        s
    } else if s.last() == '\n' && !(s.len() > 1 && s[s.len() - 2] == '\r') {
        crlf_lines(s.drop_last()) + line_end()
    } else {
        crlf_lines(s.drop_last()).push(s.last())
    }
}

/// Whether each line feed of a text stands directly after a carriage return, or before all of
/// them.
pub open spec fn has_even_breaks(s: Seq<char>) -> bool {
    forall|i: int|
        0 <= i < s.len() && #[trigger] s[i] == '\n' ==> (i > 0 && s[i - 1] == '\r')
            || !s.take(i).contains('\r')
}

/// The value of a hexadecimal digit.
pub open spec fn hex_value(c: char) -> int {
    if c <= '9' {
        c as int - '0' as int
    } else {
        c as int - 'A' as int + 10
    }
}

/// The bytes that quoted-printable text stands for: an equals sign and two hexadecimal digits are
/// one byte, an equals sign at the end of a line joins it with the next, and other characters stand
/// for themselves.
pub open spec fn unquoted(q: Seq<char>) -> Seq<u8>
    decreases q.len(),
{
    if q.len() == 0 {
        seq![]
    } else if q[0] != '=' || q.len() < 3 {
        seq![q[0] as u8] + unquoted(q.skip(1))
    } else if q[1] == '\r' && q[2] == '\n' {
        unquoted(q.skip(3))
    } else {
        seq![(hex_value(q[1]) * 16 + hex_value(q[2])) as u8] + unquoted(q.skip(3))
    }
}

/// The contents of a part, after the header that names their encoding and the end of the part's
/// headers.
pub open spec fn encoded(encoding: Seq<char>, contents: Seq<char>) -> Seq<char> {
    "Content-Transfer-Encoding: "@ + encoding + "\r\n\r\n"@ + contents
}

/// Whether `text` holds a part with the contents `b` in base64.
pub open spec fn holds_base64(text: Seq<char>, b: Seq<u8>) -> bool {
    has_text(text, encoded("base64"@, base64_lines(base64(b))))
}

/// Whether `text` holds a part with the contents `b` as they are or in quoted-printable.
pub open spec fn holds_text(text: Seq<char>, b: Seq<u8>) -> bool {
    ||| exists|t: Seq<char>| b == encode_utf8(t) && has_text(text, #[trigger] encoded("7bit"@, t))
    ||| exists|q: Seq<char>|
        b == unquoted(q) && has_text(text, #[trigger] encoded("quoted-printable"@, q))
}

/// Whether `text` holds a body: with CR LF as line ends, as it is where it can be written so and
/// else as it is or in quoted-printable, where its line breaks are even; or in base64.
pub open spec fn holds_body(text: Seq<char>, body: Option<Seq<char>>) -> bool {
    body matches Some(s) ==> {
        &&& is_plain_body(s) ==> has_text(text, encoded("7bit"@, crlf_lines(s)))
        &&& has_even_breaks(s) ==> holds_text(text, encode_utf8(crlf_lines(s))) || holds_base64(
            text,
            encode_utf8(s),
        )
    }
}

/// Whether a content type is one of text.
pub open spec fn is_text_type(ctype: Seq<char>) -> bool {
    "text/"@.is_prefix_of(ctype)
}

/// Whether an attachment's name can be written as it is: its characters are visible ASCII and
/// spaces, but no quotes and backslashes, it is not too long for a line and does not end with a
/// space.
pub open spec fn is_plain_name(name: Seq<char>) -> bool {
    &&& forall|i: int|
        0 <= i < name.len() ==> ' ' <= #[trigger] name[i] <= '~' && name[i] != '"' && name[i] != '\\'
    &&& name.len() <= 77
    &&& name.len() > 0 ==> name.last() != ' '
}

/// The end of the header that names an attachment.
pub open spec fn name_line(name: Seq<char>) -> Seq<char> {
    "filename=\""@ + name + "\"\r\n"@
}

/// Whether `text` holds an attachment: in base64, or as text where its content type is one of
/// text, and directly after its name where that can be written as it is.
pub open spec fn holds_attachment(text: Seq<char>, a: (Seq<char>, Seq<char>, Seq<u8>)) -> bool {
    &&& !is_text_type(a.0) ==> holds_base64(text, a.2) && (is_plain_name(a.1) ==> has_text(
        text,
        name_line(a.1) + encoded("base64"@, base64_lines(base64(a.2))),
    ))
    &&& is_text_type(a.0) ==> (holds_text(text, a.2) || holds_base64(text, a.2)) && (is_plain_name(
        a.1,
    ) ==> has_text(text, name_line(a.1)))
}

/// Whether `text` holds the contents of a draft: its bodies and its attachments.
pub open spec fn holds_content(d: Draft, text: Seq<char>) -> bool {
    &&& holds_body(text, d.text)
    &&& holds_body(text, d.html)
    &&& forall|i: int|
        0 <= i < d.attachments.len() ==> holds_attachment(text, #[trigger] d.attachments[i])
}

/// Whether `raw` is UTF-8 text that starts with the draft's header lines and holds its contents.
pub open spec fn is_written(d: Draft, raw: Seq<u8>) -> bool {
    exists|ls: Seq<Seq<char>>, text: Seq<char>|
        raw == encode_utf8(text) && #[trigger] starts_with_headers(d, ls, text) && holds_content(
            d,
            text,
        )
}

/// Whether `raw` is a message that may be written for a draft.
pub uninterp spec fn may_write(d: Draft, raw: Seq<u8>) -> bool;

/// `MessageBuilder::write_to_vec` writes the message; writing to a vector does not fail. The
/// message is UTF-8 text that starts with one header after the other. A message identifier, a
/// date and part boundaries follow, which differ from call to call. The bodies come next and the
/// attachments last, each part with a header that names its encoding: 7bit, quoted-printable or
/// base64. From what is written under it the part's contents can be read back, but for a body in
/// which line feeds of their own follow carriage returns elsewhere: its line ends in
/// quoted-printable are left open. Which of the encodings is taken is left open too, except for
/// plain bodies, which are written as they are, and for attachments that are not text, which are
/// in base64. The draft decides, by [`may_write`], which messages are possible.
#[verifier::external_body]
pub(crate) fn write_message(b: MessageBuilder<'_>) -> (r: Result<Vec<u8>, String>)
    ensures
        r is Ok,
        r matches Ok(raw) ==> may_write(draft(b), raw@) && is_written(draft(b), raw@),
{
    b.write_to_vec().map_err(|e| e.to_string())
}

} // verus!
