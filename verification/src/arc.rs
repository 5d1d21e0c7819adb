//! First-hop ARC sealing (RFC 8617) of relayed mail.
//!
//! A message that carries no ARC chain yet is sealed with one set of ARC headers. A message with
//! a chain is left alone. Nothing of the upstream authentication is verified: the results state
//! `none` throughout, and so does the chain status.
use vstd::prelude::*;
use vstd::utf8::encode_utf8;

use crate::crypto::{
    base64, base64_encode, lossy, message_text, pkcs1_primes, pkcs1_signature, pkcs8_primes,
    pkcs8_signature, primes_pkcs1, primes_pkcs8, sha256, sha256_digest, sign_pkcs1, sign_pkcs8,
    SignError, SignFailure,
};
use crate::text::{
    blank, chars_of, contains_text, copy_of, decimal, decimal_text, eq_ignore_case, find_text,
    has_text, is_blank, join, join_texts, lemma_first_of, lines, lines_of, lowercase, replace,
    replace_text, runs, same_ignoring_case, same_text, split, split_at_each, split_once,
    split_once_at, split_once_text, text_of, texts, trim, trim_end_of, trim_of, trimmed_end, Class,
};

verus! {

broadcast use vstd::seq_lib::group_seq_properties;

/// The texts of a result.
pub open spec fn text_result(r: Result<String, String>) -> Result<Seq<char>, Seq<char>> {
    match r {
        Ok(s) => Ok(s@),
        Err(e) => Err(e@),
    }
}

// ---------------------------------------------------------------------------------------------
// Header fields
// ---------------------------------------------------------------------------------------------

/// What stands before the first colon of a line, trimmed; nothing where there is no colon.
pub open spec fn name_part(line: Seq<char>) -> Seq<char> {
    match split_once(line, ':') {
        Some((name, _)) => trim(name),
        None => Seq::empty(),
    }
}

/// Whether `name` is that of one of the three ARC headers.
pub open spec fn is_arc_name(name: Seq<char>) -> bool {
    ||| same_ignoring_case(name, "arc-seal"@)
    ||| same_ignoring_case(name, "arc-message-signature"@)
    ||| same_ignoring_case(name, "arc-authentication-results"@)
}

/// Whether some line of a header section is an ARC header.
pub open spec fn carries_arc(header_section: Seq<char>) -> bool {
    exists|i: int|
        0 <= i < lines(header_section).len() && is_arc_name(
            name_part(#[trigger] lines(header_section)[i]),
        )
}

fn name_of<'a>(line: &'a [char]) -> (r: &'a [char])
    ensures
        r@ == name_part(line@),
{
    match split_once_at(line, ':') {
        Some(parts) => trim_of(parts.0, Class::White),
        None => {
            assert(line@.subrange(0, 0) =~= Seq::empty());
            &line[0..0]
        },
    }
}

/// Whether a header section carries an ARC chain.
pub fn has_arc_chain(header_section: &str) -> (r: bool)
    ensures
        r == carries_arc(header_section@),
{
    let cs = chars_of(header_section);
    let ls = lines_of(cs.as_slice());
    let seal = chars_of("arc-seal");
    let signature = chars_of("arc-message-signature");
    let results = chars_of("arc-authentication-results");
    for i in 0..ls.len()
        invariant
            runs(ls@) == lines(header_section@),
            seal@ == "arc-seal"@,
            signature@ == "arc-message-signature"@,
            results@ == "arc-authentication-results"@,
            forall|j: int|
                0 <= j < i ==> !is_arc_name(name_part(#[trigger] lines(header_section@)[j])),
    {
        assert(runs(ls@)[i as int] == ls@[i as int]@);
        let name = name_of(ls[i]);
        if eq_ignore_case(name, seal.as_slice()) || eq_ignore_case(name, signature.as_slice())
            || eq_ignore_case(name, results.as_slice()) {
            return true;
        }
    }
    false
}

/// Whether `c` is a space or a tab.
pub open spec fn is_wsp(c: char) -> bool {
    c == ' ' || c == '\t'
}

/// `s` with one space in place of each run of spaces and tabs.
pub open spec fn compressed(s: Seq<char>) -> Seq<char>
    decreases s.len(),
{
    if s.len() == 0 {
        s
    } else if !is_wsp(s.last()) {
        compressed(s.drop_last()).push(s.last())
    } else if s.len() > 1 && is_wsp(s[s.len() - 2]) {
        compressed(s.drop_last())
    } else {
        compressed(s.drop_last()).push(' ')
    }
}

/// One space in place of each run of spaces and tabs.
fn compress_ws(s: &[char]) -> (r: Vec<char>)
    ensures
        r@ == compressed(s@),
{
    let mut out: Vec<char> = Vec::new();
    let mut in_ws = false;
    for i in 0..s.len()
        invariant
            out@ == compressed(s@.take(i as int)),
            in_ws == (i > 0 && is_wsp(s@[i - 1])),
    {
        assert(s@.take(i + 1).drop_last() == s@.take(i as int));
        let c = s[i];
        if c == ' ' || c == '\t' {
            if !in_ws {
                out.push(' ');
                in_ws = true;
            }
        } else {
            out.push(c);
            in_ws = false;
        }
    }
    out
}

/// The relaxed form of a header line: its name in lowercase, a colon, and its value with runs of
/// spaces and tabs compressed and without white space at either end.
pub open spec fn relaxed(line: Seq<char>) -> Option<Seq<char>> {
    match split_once(line, ':') {
        Some((name, value)) => Some(
            lowercase(trim(name)) + ":"@ + trim(compressed(value)),
        ),
        None => None,
    }
}

/// Relaxed header canonicalization (RFC 6376, 3.4.2) of one unfolded header line.
pub fn relaxed_header(line: &str) -> (r: Option<String>)
    ensures
        match r {
            Some(s) => relaxed(line@) == Some(s@),
            None => relaxed(line@) is None,
        },
{
    let cs = chars_of(line);
    match split_once_at(cs.as_slice(), ':') {
        Some(parts) => {
            let mut out = text_of(trim_of(parts.0, Class::White)).as_str().to_lowercase();
            let value = compress_ws(parts.1);
            out.append(":");
            out.append(text_of(trim_of(value.as_slice(), Class::White)).as_str());
            Some(out)
        },
        None => None,
    }
}

/// The header lines and the one that is still open, after the lines `ls`: a line that begins with
/// a space or a tab continues the open one.
pub open spec fn unfolding(ls: Seq<Seq<char>>) -> (Seq<Seq<char>>, Seq<char>)
    decreases ls.len(),
{
    if ls.len() == 0 {
        (Seq::empty(), Seq::empty())
    } else {
        let (done, open) = unfolding(ls.drop_last());
        let line = ls.last();
        if line.len() > 0 && is_wsp(line[0]) && open.len() > 0 {
            (done, open + " "@ + trim(line))
        } else {
            (with_line(done, open), line)
        }
    }
}

/// `done`, with `open` at its end unless that is empty.
pub open spec fn with_line(done: Seq<Seq<char>>, open: Seq<char>) -> Seq<Seq<char>> {
    if open.len() > 0 {
        done.push(open)
    } else {
        done
    }
}

/// The unfolded header lines of a header section, in order.
pub open spec fn fields(header_section: Seq<char>) -> Seq<Seq<char>> {
    let (done, open) = unfolding(lines(header_section));
    with_line(done, open)
}

/// The name of a header line, in lowercase.
pub open spec fn field_name(line: Seq<char>) -> Seq<char> {
    match split_once(line, ':') {
        Some((name, _)) => lowercase(trim(name)),
        None => Seq::empty(),
    }
}

/// The header lines of named fields.
pub open spec fn field_lines(v: Seq<(String, String)>) -> Seq<Seq<char>> {
    v.map_values(|f: (String, String)| f.1@)
}

/// Whether each field is named by its line.
pub open spec fn well_named(v: Seq<(String, String)>) -> bool {
    forall|i: int| 0 <= i < v.len() ==> (#[trigger] v[i]).0@ == field_name(v[i].1@)
}

fn named(line: String) -> (r: (String, String))
    ensures
        r.1@ == line@,
        r.0@ == field_name(line@),
{
    let cs = chars_of(line.as_str());
    let name = match split_once_at(cs.as_slice(), ':') {
        Some(parts) => text_of(trim_of(parts.0, Class::White)).as_str().to_lowercase(),
        None => String::new(),
    };
    (name, line)
}

/// The unfolded header lines of a header section, in order, each with its name in lowercase.
pub fn unfolded_headers(header_section: &str) -> (r: Vec<(String, String)>)
    ensures
        field_lines(r@) == fields(header_section@),
        well_named(r@),
{
    let mut out: Vec<(String, String)> = Vec::new();
    let mut cur = String::new();
    let cs = chars_of(header_section);
    let ls = lines_of(cs.as_slice());
    let ghost all = lines(header_section@);
    for i in 0..ls.len()
        invariant
            runs(ls@) == all,
            well_named(out@),
            (field_lines(out@), cur@) == unfolding(all.take(i as int)),
    {
        assert(all.take(i + 1).drop_last() == all.take(i as int));
        assert(all[i as int] == ls@[i as int]@);
        let line = ls[i];
        if line.len() > 0 && (line[0] == ' ' || line[0] == '\t') && !cur.as_str().is_empty() {
            cur.append(" ");
            cur.append(text_of(trim_of(line, Class::White)).as_str());
        } else {
            let ghost before = out@;
            let ghost open = cur@;
            if !cur.as_str().is_empty() {
                out.push(named(cur));
                assert(field_lines(out@) == field_lines(before).push(open));
            }
            cur = text_of(line);
        }
    }
    assert(all.take(all.len() as int) == all);
    let ghost before = out@;
    let ghost open = cur@;
    if !cur.as_str().is_empty() {
        out.push(named(cur));
        assert(field_lines(out@) == field_lines(before).push(open));
    }
    out
}

// ---------------------------------------------------------------------------------------------
// The message
// ---------------------------------------------------------------------------------------------

/// `message` with line feeds as its only line ends.
pub open spec fn unix_lines(message: Seq<char>) -> Seq<char> {
    replace(replace(message, "\r\n"@, "\n"@), "\r"@, "\n"@)
}

/// The header section and the body of a message: what stands before and after its first empty
/// line, with line feeds as line ends.
pub open spec fn sections(message: Seq<char>) -> (Seq<char>, Seq<char>) {
    match split_once_text(unix_lines(message), "\n\n"@) {
        Some(parts) => parts,
        None => (unix_lines(message), Seq::empty()),
    }
}

/// The header section and the body of a message, with line feeds as line ends.
pub fn split_headers_body(message: &str) -> (r: (String, String))
    ensures
        (r.0@, r.1@) == sections(message@),
{
    proof {
        reveal_strlit("\r\n");
        reveal_strlit("\r");
    }
    let norm = replace_text(
        replace_text(message, "\r\n", "\n").as_str(),
        "\r",
        "\n",
    );
    let cs = chars_of(norm.as_str());
    let gap = chars_of("\n\n");
    match find_text(cs.as_slice(), gap.as_slice()) {
        Some(i) => {
            let n: usize = cs.len();
            let head = &cs.as_slice()[0..i];
            let tail = &cs.as_slice()[i + gap.len()..n];
            assert(head@ == cs@.take(i as int));
            assert(tail@ == cs@.skip(i + gap@.len()));
            (text_of(head), text_of(tail))
        },
        None => (norm, String::new()),
    }
}

/// `ls` without the empty lines at its end.
pub open spec fn without_empty_end(ls: Seq<Seq<char>>) -> Seq<Seq<char>>
    decreases ls.len(),
{
    if ls.len() > 0 && ls.last().len() == 0 {
        without_empty_end(ls.drop_last())
    } else {
        ls
    }
}

/// The lines of a body, each without spaces, tabs and carriage returns at its end.
pub open spec fn stripped_lines(body: Seq<char>) -> Seq<Seq<char>> {
    split(body, '\n').map_values(|l: Seq<char>| trimmed_end(l, Class::Blank))
}

/// The lines of a body that count: without blanks at their ends, without the empty lines at the
/// end, and with one space in place of each run of spaces and tabs.
pub open spec fn relaxed_lines(body: Seq<char>) -> Seq<Seq<char>> {
    without_empty_end(stripped_lines(body)).map_values(|l: Seq<char>| compressed(l))
}

/// The relaxed form of a body: the lines that count, each with its line end.
pub open spec fn relaxed_text(body: Seq<char>) -> Seq<char> {
    let ls = relaxed_lines(body);
    if ls.len() == 0 {
        Seq::empty()
    } else {
        join(ls, "\r\n"@) + "\r\n"@
    }
}

/// Relaxed body canonicalization (RFC 6376, 3.4.4): white space at the ends of lines and empty
/// lines at the end of the body are dropped, runs of white space within a line become one space,
/// and a body that is not empty ends with CR LF.
pub fn relaxed_body(body: &str) -> (r: String)
    ensures
        r@ == relaxed_text(body@),
{
    let cs = chars_of(body);
    let ls = split_at_each(cs.as_slice(), '\n');
    let ghost all = stripped_lines(body@);
    let mut out: Vec<String> = Vec::new();
    for i in 0..ls.len()
        invariant
            runs(ls@) == split(body@, '\n'),
            all == stripped_lines(body@),
            texts(out@) == all.take(i as int),
    {
        let ghost before = out@;
        assert(runs(ls@)[i as int] == ls@[i as int]@);
        out.push(text_of(trim_end_of(ls[i], Class::Blank)));
        assert(texts(out@) == texts(before).push(all[i as int]));
        assert(all.take(i + 1) == all.take(i as int).push(all[i as int]));
    }
    assert(all.take(all.len() as int) == all);
    while out.len() > 0 && out[out.len() - 1].as_str().is_empty()
        invariant
            without_empty_end(all) == without_empty_end(texts(out@)),
        decreases out@.len(),
    {
        let ghost before = out@;
        assert(texts(before).last() == before.last()@);
        let _ = out.pop();
        assert(texts(out@) == texts(before).drop_last());
    }
    assert(out@.len() > 0 ==> texts(out@).last() == out@.last()@);
    let ghost kept = texts(out@);
    let ghost goal = relaxed_lines(body@);
    let mut short: Vec<String> = Vec::new();
    for i in 0..out.len()
        invariant
            kept == texts(out@),
            kept == without_empty_end(stripped_lines(body@)),
            goal == relaxed_lines(body@),
            texts(short@) == goal.take(i as int),
    {
        let ghost before = short@;
        assert(kept[i as int] == out@[i as int]@);
        short.push(text_of(compress_ws(chars_of(out[i].as_str()).as_slice()).as_slice()));
        assert(texts(short@) == texts(before).push(goal[i as int]));
        assert(goal.take(i + 1) == goal.take(i as int).push(goal[i as int]));
    }
    assert(goal.take(goal.len() as int) == goal);
    if short.len() == 0 {
        return String::new();
    }
    let mut text = join_texts(&short, "\r\n");
    text.append("\r\n");
    text
}

// ---------------------------------------------------------------------------------------------
// Sealing
// ---------------------------------------------------------------------------------------------

/// The headers that an ARC message signature covers, as far as the message has them.
pub open spec fn signed_names() -> Seq<Seq<char>> {
    seq![
        "from"@,
        "to"@,
        "subject"@,
        "date"@,
        "message-id"@,
        "reply-to"@,
        "mime-version"@,
        "content-type"@,
    ]
}

fn signed() -> (r: Vec<String>)
    ensures
        texts(r@) == signed_names(),
{
    let mut out: Vec<String> = Vec::new();
    out.push(copy_of("from"));
    out.push(copy_of("to"));
    out.push(copy_of("subject"));
    out.push(copy_of("date"));
    out.push(copy_of("message-id"));
    out.push(copy_of("reply-to"));
    out.push(copy_of("mime-version"));
    out.push(copy_of("content-type"));
    assert(texts(out@) =~= signed_names());
    out
}

/// Whether one of the header lines has the name.
pub open spec fn has_field(lines: Seq<Seq<char>>, name: Seq<char>) -> bool {
    exists|i: int| 0 <= i < lines.len() && field_name(#[trigger] lines[i]) == name
}

/// The last of the header lines that has the name.
pub open spec fn last_field(lines: Seq<Seq<char>>, name: Seq<char>) -> Seq<char>
    recommends
        has_field(lines, name),
    decreases lines.len(),
{
    if lines.len() == 0 || field_name(lines.last()) == name {
        lines.last()
    } else {
        last_field(lines.drop_last(), name)
    }
}

/// The names that the signature covers: those of [`signed_names`] that the header lines have.
pub open spec fn covered_names(lines: Seq<Seq<char>>) -> Seq<Seq<char>> {
    signed_names().filter(|n: Seq<char>| has_field(lines, n))
}

/// The relaxed form of the last header line of each name, each with its line end.
pub open spec fn covered_headers(lines: Seq<Seq<char>>, names: Seq<Seq<char>>) -> Seq<char>
    decreases names.len(),
{
    if names.len() == 0 {
        Seq::empty()
    } else {
        covered_headers(lines, names.drop_last()) + relaxed(last_field(lines, names.last()))->0
            + "\r\n"@
    }
}

/// What of a message goes into its seal.
pub struct CanonicalMessage {
    /// The names of the covered headers, with colons between them.
    pub names: String,
    /// The covered headers in relaxed form, each with its line end.
    pub headers: String,
    /// The body in relaxed form.
    pub body: String,
}

/// What a [`CanonicalMessage`] holds.
pub struct CanonicalText {
    pub names: Seq<char>,
    pub headers: Seq<char>,
    pub body: Seq<char>,
}

impl View for CanonicalMessage {
    type V = CanonicalText;

    open spec fn view(&self) -> CanonicalText {
        CanonicalText { names: self.names@, headers: self.headers@, body: self.body@ }
    }
}

/// What of a message goes into its seal, or why it is not sealed.
pub open spec fn canonical(text: Seq<char>, seal_domain: Seq<char>, selector: Seq<char>) -> Result<
    CanonicalText,
    Seq<char>,
> {
    let (headers, body) = sections(text);
    let lines = fields(headers);
    let names = covered_names(lines);
    if is_blank(selector) || is_blank(seal_domain) {
        Err("selector/domain required"@)
    } else if carries_arc(headers) {
        Err("incoming ARC chain present; only first-hop sealing supported"@)
    } else if !has_field(lines, "from"@) {
        Err("no From header to seal"@)
    } else {
        Ok(
            CanonicalText {
                names: join(names, ":"@),
                headers: covered_headers(lines, names),
                body: relaxed_text(body),
            },
        )
    }
}

fn position_of(hdrs: &Vec<(String, String)>, name: &String) -> (r: Option<usize>)
    requires
        well_named(hdrs@),
    ensures
        match r {
            Some(i) => i < hdrs@.len() && has_field(field_lines(hdrs@), name@) && last_field(
                field_lines(hdrs@),
                name@,
            ) == hdrs@[i as int].1@ && field_name(hdrs@[i as int].1@) == name@,
            None => !has_field(field_lines(hdrs@), name@),
        },
{
    let ghost lines = field_lines(hdrs@);
    let mut n: usize = hdrs.len();
    while n > 0
        invariant
            n <= hdrs@.len(),
            lines == field_lines(hdrs@),
            well_named(hdrs@),
            last_field(lines, name@) == last_field(lines.take(n as int), name@),
            forall|j: int| n <= j < lines.len() ==> field_name(#[trigger] lines[j]) != name@,
        decreases n,
    {
        assert(lines.take(n as int).last() == hdrs@[n - 1].1@);
        assert(lines[n - 1] == hdrs@[n - 1].1@);
        if same_text(hdrs[n - 1].0.as_str(), name.as_str()) {
            return Some(n - 1);
        }
        assert(lines.take(n as int).drop_last() == lines.take(n - 1));
        n -= 1;
    }
    None
}

/// What of a message goes into its seal. It is not sealed without a selector and a domain, with
/// an ARC chain that it carries already, or without a From header.
pub fn canonical_message(text: &str, seal_domain: &str, selector: &str) -> (r: Result<
    CanonicalMessage,
    String,
>)
    ensures
        match r {
            Ok(c) => canonical(text@, seal_domain@, selector@) == Ok::<CanonicalText, Seq<char>>(c@),
            Err(e) => canonical(text@, seal_domain@, selector@) == Err::<CanonicalText, Seq<char>>(
                e@,
            ),
        },
{
    if blank(selector) || blank(seal_domain) {
        return Err(copy_of("selector/domain required"));
    }
    let (headers, body) = split_headers_body(text);
    if has_arc_chain(headers.as_str()) {
        return Err(copy_of("incoming ARC chain present; only first-hop sealing supported"));
    }
    let hdrs = unfolded_headers(headers.as_str());
    let ghost lines = field_lines(hdrs@);
    if position_of(&hdrs, &copy_of("from")).is_none() {
        return Err(copy_of("no From header to seal"));
    }
    let wanted = signed();
    let ghost all = signed_names();
    let ghost present = |n: Seq<char>| has_field(lines, n);
    let mut names: Vec<String> = Vec::new();
    let mut covered = String::new();
    for i in 0..wanted.len()
        invariant
            lines == field_lines(hdrs@),
            well_named(hdrs@),
            texts(wanted@) == all,
            all == signed_names(),
            present == (|n: Seq<char>| has_field(lines, n)),
            texts(names@) == all.take(i as int).filter(present),
            covered@ == covered_headers(lines, texts(names@)),
    {
        let ghost before = names@;
        let ghost name = wanted@[i as int]@;
        assert(all[i as int] == name);
        assert(all.take(i + 1).drop_last() == all.take(i as int));
        assert(all.take(i + 1).last() == name);
        assert(present(name) == has_field(lines, name));
        reveal_with_fuel(Seq::<_>::filter, 1);
        if let Some(at) = position_of(&hdrs, &wanted[i]) {
            proof {
                lemma_signed_name(i as int);
            }
            let line = relaxed_header(hdrs[at].1.as_str());
            if let Some(line) = line {
                covered.append(line.as_str());
                covered.append("\r\n");
            }
            names.push(copy_of(wanted[i].as_str()));
            assert(texts(names@) == texts(before).push(name));
            assert(texts(names@).drop_last() == texts(before));
        }
    }
    assert(all.take(all.len() as int) == all);
    let joined = join_texts(&names, ":");
    Ok(
        CanonicalMessage {
            names: joined,
            headers: covered,
            body: relaxed_body(body.as_str()),
        },
    )
}

/// None of the signed names is empty, so a header line that has one holds a colon.
proof fn lemma_signed_name(i: int)
    requires
        0 <= i < signed_names().len(),
    ensures
        signed_names()[i].len() > 0,
{
    reveal_strlit("from");
    reveal_strlit("to");
    reveal_strlit("subject");
    reveal_strlit("date");
    reveal_strlit("message-id");
    reveal_strlit("reply-to");
    reveal_strlit("mime-version");
    reveal_strlit("content-type");
}

/// `b64` in pieces of 64 characters, on continuation lines.
pub open spec fn folded(b64: Seq<char>) -> Seq<char>
    decreases b64.len(),
{
    if b64.len() <= 64 {
        b64
    } else {
        b64.take(64) + "\r\n "@ + folded(b64.skip(64))
    }
}

/// `prefix`, followed by base64 text on continuation lines of 64 characters.
fn fold_b64(prefix: &str, b64: &str) -> (r: String)
    ensures
        r@ == prefix@ + folded(b64@),
{
    let mut out = copy_of(prefix);
    let cs = chars_of(b64);
    let mut i: usize = 0;
    assert(cs@.skip(0) == cs@);
    while cs.len() - i > 64
        invariant
            i <= cs@.len(),
            cs@ == b64@,
            prefix@ + folded(b64@) == out@ + folded(b64@.skip(i as int)),
        decreases cs@.len() - i,
    {
        let ghost rest = b64@.skip(i as int);
        let piece = text_of(&cs.as_slice()[i..i + 64]);
        assert(piece@ == rest.take(64));
        assert(rest.skip(64) == b64@.skip(i + 64));
        out.append(piece.as_str());
        out.append("\r\n ");
        i += 64;
    }
    let last = text_of(&cs.as_slice()[i..cs.len()]);
    assert(last@ == b64@.skip(i as int));
    out.append(last.as_str());
    out
}

/// The ARC-Authentication-Results header.
pub open spec fn results_text(authserv_id: Seq<char>) -> Seq<char> {
    "ARC-Authentication-Results: i=1; "@ + authserv_id + "; spf=none; dkim=none; dmarc=none"@
}

/// The ARC-Authentication-Results header: nothing was verified.
pub fn results_header(authserv_id: &str) -> (r: String)
    ensures
        r@ == results_text(authserv_id@),
{
    let mut out = copy_of("ARC-Authentication-Results: i=1; ");
    out.append(authserv_id);
    out.append("; spf=none; dkim=none; dmarc=none");
    out
}

/// The ARC-Message-Signature header without its signature.
pub open spec fn signature_text(
    names: Seq<char>,
    body_digest: Seq<u8>,
    seal_domain: Seq<char>,
    selector: Seq<char>,
    now_unix: u64,
) -> Seq<char> {
    "ARC-Message-Signature: i=1; a=rsa-sha256; c=relaxed/relaxed; d="@ + seal_domain + "; s="@
        + selector + "; t="@ + decimal(now_unix as nat) + "; h="@ + names + "; bh="@ + base64(
        body_digest,
    ) + "; b="@
}

/// The ARC-Message-Signature header without its signature.
pub fn signature_header(
    names: &str,
    body_digest: &[u8],
    seal_domain: &str,
    selector: &str,
    now_unix: u64,
) -> (r: String)
    ensures
        r@ == signature_text(names@, body_digest@, seal_domain@, selector@, now_unix),
{
    let mut out = copy_of("ARC-Message-Signature: i=1; a=rsa-sha256; c=relaxed/relaxed; d=");
    out.append(seal_domain);
    out.append("; s=");
    out.append(selector);
    out.append("; t=");
    out.append(decimal_text(now_unix).as_str());
    out.append("; h=");
    out.append(names);
    out.append("; bh=");
    out.append(base64_encode(body_digest).as_str());
    out.append("; b=");
    out
}

/// The ARC-Seal header without its signature.
pub open spec fn seal_text(seal_domain: Seq<char>, selector: Seq<char>, now_unix: u64) -> Seq<
    char,
> {
    "ARC-Seal: i=1; a=rsa-sha256; cv=none; d="@ + seal_domain + "; s="@ + selector + "; t="@
        + decimal(now_unix as nat) + "; b="@
}

/// The ARC-Seal header without its signature: the first hop of a chain.
pub fn seal_header(seal_domain: &str, selector: &str, now_unix: u64) -> (r: String)
    ensures
        r@ == seal_text(seal_domain@, selector@, now_unix),
{
    let mut out = copy_of("ARC-Seal: i=1; a=rsa-sha256; cv=none; d=");
    out.append(seal_domain);
    out.append("; s=");
    out.append(selector);
    out.append("; t=");
    out.append(decimal_text(now_unix).as_str());
    out.append("; b=");
    out
}

/// A header with its signature, which is folded.
pub open spec fn signed_text(unsigned: Seq<char>, signature: Seq<u8>) -> Seq<char> {
    unsigned + folded(base64(signature))
}

/// A header with its signature.
pub fn signed_header(unsigned: &str, signature: &[u8]) -> (r: String)
    ensures
        r@ == signed_text(unsigned@, signature@),
{
    fold_b64(unsigned, base64_encode(signature).as_str())
}

/// A header line in relaxed form, unfolded, with its line end.
pub open spec fn relaxed_line(header: Seq<char>) -> Seq<char> {
    relaxed(replace(header, "\r\n "@, " "@))->0 + "\r\n"@
}

/// Replacing keeps a character that the replaced text does not hold.
proof fn lemma_replace_keeps(s: Seq<char>, pat: Seq<char>, to: Seq<char>, c: char)
    requires
        s.contains(c),
        !pat.contains(c),
    ensures
        replace(s, pat, to).contains(c),
    decreases s.len(),
{
    let i = choose|i: int| 0 <= i < s.len() && s[i] == c;
    if pat.len() == 0 {
    } else if pat.is_prefix_of(s) {
        let n = pat.len() as int;
        if i < n {
            assert(pat[i] == s.subrange(0, n)[i]);
            assert(false);
        }
        let rest = s.skip(n);
        assert(rest[i - n] == c);
        lemma_replace_keeps(rest, pat, to, c);
        let k = choose|k: int|
            0 <= k < replace(rest, pat, to).len() && replace(rest, pat, to)[k] == c;
        assert(replace(s, pat, to)[to.len() + k] == c);
    } else if i == 0 {
        assert(replace(s, pat, to)[0] == c);
    } else {
        let rest = s.skip(1);
        assert(rest[i - 1] == c);
        lemma_replace_keeps(rest, pat, to, c);
        let k = choose|k: int|
            0 <= k < replace(rest, pat, to).len() && replace(rest, pat, to)[k] == c;
        assert(replace(s, pat, to)[1 + k] == c);
    }
}

/// A header with a colon has a relaxed form when it is unfolded.
proof fn lemma_unfolded_is_relaxed(header: Seq<char>)
    requires
        header.contains(':'),
    ensures
        relaxed(replace(header, "\r\n "@, " "@)) is Some,
{
    reveal_strlit("\r\n ");
    assert(!"\r\n "@.contains(':'));
    lemma_replace_keeps(header, "\r\n "@, " "@, ':');
    lemma_first_of(replace(header, "\r\n "@, " "@), ':');
}

fn relaxed_line_of(header: &str) -> (r: String)
    requires
        header@.contains(':'),
    ensures
        r@ == relaxed_line(header@),
{
    proof {
        reveal_strlit("\r\n ");
    }
    let unfolded = replace_text(header, "\r\n ", " ");
    proof {
        lemma_unfolded_is_relaxed(header@);
    }
    match relaxed_header(unfolded.as_str()) {
        Some(line) => {
            let mut out = line;
            out.append("\r\n");
            out
        },
        None => String::new(),
    }
}

/// What the message signature signs: the covered headers and the signature header itself.
pub open spec fn signature_input(covered: Seq<char>, unsigned: Seq<char>) -> Seq<char> {
    covered + relaxed(unsigned)->0 + "\r\n"@
}

/// What the seal signs: itself, the message signature and the authentication results.
pub open spec fn seal_input(seal: Seq<char>, signature: Seq<char>, results: Seq<char>) -> Seq<
    char,
> {
    relaxed_line(seal) + relaxed_line(signature) + relaxed_line(results)
}

/// By how many bits the second prime of a key may be longer than the first. Each bit doubles the
/// time that signing takes; beyond this it is a matter of days.
pub const PRIME_SLACK: usize = 40;

/// Whether the primes of a key are of such lengths that signing comes to an end: the second may
/// not be much longer than the first. A key that cannot be read has none.
pub open spec fn is_balanced(primes: Option<(usize, usize)>) -> bool {
    primes matches Some((p, q)) ==> q <= p + PRIME_SLACK
}

/// The signature of `data` by the key in `pem`, which is read as PKCS#1 or PKCS#8 by its label.
pub open spec fn rsa_signature(pem: Seq<char>, data: Seq<u8>) -> Result<Seq<u8>, Seq<char>> {
    if has_text(pem, "BEGIN RSA PRIVATE KEY"@) {
        signature_by(is_balanced(pkcs1_primes(pem)), pkcs1_signature(pem, data), "pkcs1 parse: "@)
    } else {
        signature_by(is_balanced(pkcs8_primes(pem)), pkcs8_signature(pem, data), "pkcs8 parse: "@)
    }
}

/// What comes of a signature: that of a key whose primes are out of balance is not asked for.
pub open spec fn signature_by(
    balanced: bool,
    signature: Result<Seq<u8>, SignFailure>,
    unread: Seq<char>,
) -> Result<Seq<u8>, Seq<char>> {
    if !balanced {
        Err("key primes out of balance"@)
    } else {
        match signature {
            Ok(s) => Ok(s),
            Err(SignFailure::Key(e)) => Err(unread + e),
            Err(SignFailure::Sign(e)) => Err(e),
        }
    }
}

fn balanced(primes: Option<(usize, usize)>) -> (r: bool)
    ensures
        r == is_balanced(primes),
{
    match primes {
        Some((p, q)) => q <= p || q - p <= PRIME_SLACK,
        None => true,
    }
}

fn sign(pem: &str, data: &[u8]) -> (r: Result<Vec<u8>, String>)
    ensures
        match r {
            Ok(s) => rsa_signature(pem@, data@) == Ok::<Seq<u8>, Seq<char>>(s@),
            Err(e) => rsa_signature(pem@, data@) == Err::<Seq<u8>, Seq<char>>(e@),
        },
{
    let (signed, unread) = if contains_text(pem, "BEGIN RSA PRIVATE KEY") {
        if !balanced(primes_pkcs1(pem)) {
            return Err(copy_of("key primes out of balance"));
        }
        (sign_pkcs1(pem, data), "pkcs1 parse: ")
    } else {
        if !balanced(primes_pkcs8(pem)) {
            return Err(copy_of("key primes out of balance"));
        }
        (sign_pkcs8(pem, data), "pkcs8 parse: ")
    };
    match signed {
        Ok(s) => Ok(s),
        Err(SignError::Key(e)) => {
            let mut out = copy_of(unread);
            out.append(e.as_str());
            Err(out)
        },
        Err(SignError::Sign(e)) => Err(e),
    }
}

/// The digest of a text's bytes.
pub open spec fn text_digest(s: Seq<char>) -> Seq<u8> {
    sha256(encode_utf8(s))
}

/// The message signature header of a canonical message, or why there is none.
pub open spec fn message_signature(
    c: CanonicalText,
    seal_domain: Seq<char>,
    selector: Seq<char>,
    private_pem: Seq<char>,
    now_unix: u64,
) -> Result<Seq<char>, Seq<char>> {
    let unsigned = signature_text(c.names, text_digest(c.body), seal_domain, selector, now_unix);
    match rsa_signature(private_pem, text_digest(signature_input(c.headers, unsigned))) {
        Err(e) => Err(e),
        Ok(signature) => Ok(signed_text(unsigned, signature)),
    }
}

/// The ARC header block of a message, or why there is none.
pub open spec fn sealing(
    message: Seq<u8>,
    authserv_id: Seq<char>,
    seal_domain: Seq<char>,
    selector: Seq<char>,
    private_pem: Seq<char>,
    now_unix: u64,
) -> Result<Seq<char>, Seq<char>> {
    match canonical(message_text(message), seal_domain, selector) {
        Err(e) => Err(e),
        Ok(c) => match message_signature(c, seal_domain, selector, private_pem, now_unix) {
            Err(e) => Err(e),
            Ok(signature) => sealing_of(
                signature,
                results_text(authserv_id),
                seal_text(seal_domain, selector, now_unix),
                private_pem,
            ),
        },
    }
}

/// The ARC header block of a signed message, or why there is none.
pub open spec fn sealing_of(
    signature: Seq<char>,
    results: Seq<char>,
    seal: Seq<char>,
    private_pem: Seq<char>,
) -> Result<Seq<char>, Seq<char>> {
    match rsa_signature(private_pem, text_digest(seal_input(seal, signature, results))) {
        Err(e) => Err(e),
        Ok(s) => Ok(
            signed_text(seal, s) + "\r\n"@ + signature + "\r\n"@ + results + "\r\n"@,
        ),
    }
}

proof fn lemma_signature_has_colon(
    names: Seq<char>,
    body_digest: Seq<u8>,
    seal_domain: Seq<char>,
    selector: Seq<char>,
    now_unix: u64,
)
    ensures
        signature_text(names, body_digest, seal_domain, selector, now_unix).contains(':'),
{
    reveal_strlit("ARC-Message-Signature: i=1; a=rsa-sha256; c=relaxed/relaxed; d=");
    assert(signature_text(names, body_digest, seal_domain, selector, now_unix)[21] == ':');
}

proof fn lemma_signed_has_colon(unsigned: Seq<char>, signature: Seq<u8>)
    requires
        unsigned.contains(':'),
    ensures
        signed_text(unsigned, signature).contains(':'),
{
    let i = choose|i: int| 0 <= i < unsigned.len() && unsigned[i] == ':';
    assert(signed_text(unsigned, signature)[i] == ':');
}

proof fn lemma_seal_has_colon(seal_domain: Seq<char>, selector: Seq<char>, now_unix: u64)
    ensures
        seal_text(seal_domain, selector, now_unix).contains(':'),
{
    reveal_strlit("ARC-Seal: i=1; a=rsa-sha256; cv=none; d=");
    assert(seal_text(seal_domain, selector, now_unix)[8] == ':');
}

proof fn lemma_results_have_colon(authserv_id: Seq<char>)
    ensures
        results_text(authserv_id).contains(':'),
{
    reveal_strlit("ARC-Authentication-Results: i=1; ");
    assert(results_text(authserv_id)[26] == ':');
}

/// Signs a canonical message.
fn sign_message(
    c: &CanonicalMessage,
    seal_domain: &str,
    selector: &str,
    private_pem: &str,
    now_unix: u64,
) -> (r: Result<String, String>)
    ensures
        text_result(r) == message_signature(
            c@,
            seal_domain@,
            selector@,
            private_pem@,
            now_unix,
        ),
        r matches Ok(signature) ==> signature@.contains(':'),
{
    let digest = sha256_digest(c.body.as_str().as_bytes());
    let unsigned = signature_header(
        c.names.as_str(),
        digest.as_slice(),
        seal_domain,
        selector,
        now_unix,
    );
    proof {
        lemma_signature_has_colon(c.names@, digest@, seal_domain@, selector@, now_unix);
        lemma_first_of(unsigned@, ':');
    }
    let mut input = copy_of(c.headers.as_str());
    if let Some(line) = relaxed_header(unsigned.as_str()) {
        input.append(line.as_str());
    }
    input.append("\r\n");
    match sign(private_pem, sha256_digest(input.as_str().as_bytes()).as_slice()) {
        Ok(s) => {
            proof {
                lemma_signed_has_colon(unsigned@, s@);
            }
            Ok(signed_header(unsigned.as_str(), s.as_slice()))
        },
        Err(e) => Err(e),
    }
}

/// Seals a signed message: the three headers, each with its line end.
fn seal_signed(signature: &str, results: &str, seal: &str, private_pem: &str) -> (r: Result<
    String,
    String,
>)
    requires
        signature@.contains(':'),
        results@.contains(':'),
        seal@.contains(':'),
    ensures
        text_result(r) == sealing_of(signature@, results@, seal@, private_pem@),
{
    let mut seal_in = relaxed_line_of(seal);
    seal_in.append(relaxed_line_of(signature).as_str());
    seal_in.append(relaxed_line_of(results).as_str());
    match sign(private_pem, sha256_digest(seal_in.as_str().as_bytes()).as_slice()) {
        Ok(s) => {
            let mut out = signed_header(seal, s.as_slice());
            out.append("\r\n");
            out.append(signature);
            out.append("\r\n");
            out.append(results);
            out.append("\r\n");
            Ok(out)
        },
        Err(e) => Err(e),
    }
}

/// Seals a complete message. The result is the block of ARC headers, with the line end of its
/// last line, that belongs before the message.
pub fn seal_first_hop(
    message: &[u8],
    authserv_id: &str,
    seal_domain: &str,
    selector: &str,
    private_pem: &str,
    now_unix: u64,
) -> (r: Result<String, String>)
    ensures
        text_result(r) == sealing(
            message@,
            authserv_id@,
            seal_domain@,
            selector@,
            private_pem@,
            now_unix,
        ),
{
    let text = lossy(message);
    let c = match canonical_message(text.as_str(), seal_domain, selector) {
        Ok(c) => c,
        Err(e) => return Err(e),
    };
    let signature = match sign_message(&c, seal_domain, selector, private_pem, now_unix) {
        Ok(s) => s,
        Err(e) => return Err(e),
    };
    let results = results_header(authserv_id);
    let seal = seal_header(seal_domain, selector, now_unix);
    proof {
        lemma_results_have_colon(authserv_id@);
        lemma_seal_has_colon(seal_domain@, selector@, now_unix);
    }
    seal_signed(signature.as_str(), results.as_str(), seal.as_str(), private_pem)
}

/// The message as it is sent: with the header block before it where it was sealed, and as it was
/// where it was not.
pub fn apply_seal(message: Vec<u8>, sealed: Result<String, String>) -> (r: Vec<u8>)
    ensures
        match sealed {
            Ok(block) => r@ == encode_utf8(block@) + message@,
            Err(_) => r@ == message@,
        },
{
    match sealed {
        Ok(block) => {
            let mut out: Vec<u8> = Vec::new();
            out.extend_from_slice(block.as_str().as_bytes());
            out.extend_from_slice(message.as_slice());
            assert(out@ =~= encode_utf8(block@) + message@);
            out
        },
        Err(_) => message,
    }
}

/// A message with the seal of `seal_first_hop` before it, or as it is where that fails: sealing
/// never holds a message up.
pub fn seal_or_keep(
    message: Vec<u8>,
    authserv_id: &str,
    seal_domain: &str,
    selector: &str,
    private_pem: &str,
    now_unix: u64,
) -> (r: Vec<u8>)
    ensures
        r@ == (match sealing(
            message@,
            authserv_id@,
            seal_domain@,
            selector@,
            private_pem@,
            now_unix,
        ) {
            Ok(block) => encode_utf8(block) + message@,
            Err(_) => message@,
        }),
{
    let sealed = seal_first_hop(
        message.as_slice(),
        authserv_id,
        seal_domain,
        selector,
        private_pem,
        now_unix,
    );
    apply_seal(message, sealed)
}

} // verus!
