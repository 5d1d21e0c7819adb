use base64::engine::general_purpose::STANDARD as B64;
use base64::Engine;
use fourward::arc::seal_or_keep;
use fourward::forward::{
    alias_map, banner_enabled, banner_html, banner_text, build_forwarded_raw, build_parsed,
    header_section, is_loop, loop_hash, parse_address, plan_forward, plan_parsed, relay,
    relay_settings, resolve_destinations, split_alias, ForwardPlan, LOOP_HEADER,
};
use fourward::intake::parsable;
use fourward::mail::{Incoming, Mailbox};
use mail_parser::{MessageParser, MimeHeaders};
use rsa::pkcs1::EncodeRsaPrivateKey;

const PLAIN: &[u8] = b"From: Alice <alice@example.org>\r\nTo: support@relay.example.com\r\nSubject: hello\r\nContent-Type: text/plain; charset=utf-8\r\n\r\nHi there";
const HTML: &[u8] = b"From: Bob <bob@example.org>\r\nTo: sales@relay.example.com\r\nSubject: hi html\r\nContent-Type: text/html; charset=utf-8\r\n\r\n<p>Hi <b>there</b></p>";

fn multipart_fixture() -> Vec<u8> {
    let boundary = "BOUNDARY123";
    format!(
        "From: Carol <carol@example.org>\r\nTo: info@relay.example.com\r\nSubject: with file\r\nMIME-Version: 1.0\r\nContent-Type: multipart/mixed; boundary=\"{boundary}\"\r\n\r\n--{boundary}\r\nContent-Type: text/plain\r\n\r\nsee attached\r\n--{boundary}\r\nContent-Type: application/pdf; name=\"document.pdf\"\r\nContent-Transfer-Encoding: base64\r\nContent-Disposition: attachment; filename=\"document.pdf\"\r\n\r\nJVBERi0xLjQK\r\n--{boundary}--\r\n"
    ).into_bytes()
}

fn routes(json: &str) -> Vec<(String, Vec<String>)> {
    alias_map(Some(json))
}

fn plan(subject: &str) -> ForwardPlan {
    ForwardPlan {
        alias: "support".into(),
        domain: "relay.example.com".into(),
        destinations: vec!["you@gmail.com".into()],
        original_from: "alice@example.org".into(),
        original_from_name: "Alice".into(),
        original_to: "support@relay.example.com".into(),
        subject: subject.into(),
        loop_value: loop_hash("example.com", "example.com"),
    }
}

#[test]
fn loop_detection_trips() {
    let h = loop_hash("example.com", "example.com");
    let raw = format!("From: a@b.c\r\nTo: x@y.z\r\n{LOOP_HEADER}: {h}\r\nSubject: t\r\n\r\nbody");
    assert!(plan_forward(raw.as_bytes(), "example.com", "example.com", &vec![], None).unwrap().is_none());
}

#[test]
fn splits_alias() {
    assert_eq!(split_alias("\"Support\" <Support@Example.COM>").unwrap(), ("support".into(), "example.com".into()));
}

#[test]
fn rebuild_plain_keeps_body_and_audit_headers() {
    let relay = "example.com";
    let plan = ForwardPlan {
        alias: "support".into(), domain: "relay.example.com".into(),
        destinations: vec!["you@gmail.com".into()],
        original_from: "alice@example.org".into(), original_from_name: "Alice".into(),
        original_to: "support@relay.example.com".into(), subject: "hello".into(),
        loop_value: loop_hash(relay, relay),
    };
    let raw = build_forwarded_raw(PLAIN, &plan, relay, true).unwrap();
    let s = String::from_utf8_lossy(&raw);
    assert!(s.contains("Hi there"), "body preserved");
    assert!(s.contains("X-Original-From"), "audit header");
    assert!(s.contains("X-4ward-Relay"), "relay marker");
    assert!(s.contains(LOOP_HEADER), "loop header");
    assert!(s.contains("reply-to") || s.contains("Reply-To"), "reply-to set");
    assert!(s.contains("Forwarded by 4ward"), "banner injected");
}

#[test]
fn rebuild_html_banner_and_attachment_retained() {
    let relay = "example.com";
    let plan = ForwardPlan {
        alias: "info".into(), domain: "relay.example.com".into(),
        destinations: vec!["you@gmail.com".into()],
        original_from: "carol@example.org".into(), original_from_name: "Carol".into(),
        original_to: "info@relay.example.com".into(), subject: "with file".into(),
        loop_value: loop_hash(relay, relay),
    };
    let raw = build_forwarded_raw(&multipart_fixture(), &plan, relay, true).unwrap();
    let s = String::from_utf8_lossy(&raw);
    assert!(s.contains("document.pdf"), "attachment retained, got:\n{s}");
    assert!(s.contains("X-Original-To"), "audit header");
    let _ = HTML;
}

#[test]
fn loop_hash_is_djb2_of_salt_and_domain() {
    // 5381 * 33 + b':'
    assert_eq!(loop_hash("", ""), "000000000002b5df");
    // ... * 33 + b'a', one byte further
    assert_eq!(loop_hash("a", ""), "0000000000597220");
    // ... and, for a longer text, modulo 2^64
    assert_eq!(loop_hash("example.com", "example.com"), "f5a31ce22aa91c91");
    assert_ne!(loop_hash("example.com", "salt"), loop_hash("example.com", "other"));
}

#[test]
fn only_the_loop_header_with_the_value_is_a_loop() {
    assert!(is_loop("a: b\r\n  x-4WARD-loop-detection:00ff \r\n", "00ff"));
    assert!(!is_loop("X-4ward-Loop-Detection: 00fe", "00ff"));
    assert!(!is_loop("X-4ward-Loop-Detection", ""));
    assert!(is_loop("X-4ward-Loop-Detection:", ""));
    assert!(!is_loop("Subject: X-4ward-Loop-Detection: 00ff", "00ff"));
    assert!(!is_loop("X-4ward-Loop-Detectio\u{e9}: 00ff", "00ff"));
}

#[test]
fn header_sections() {
    assert_eq!(header_section("a: b\r\nc: d\r\n\r\nbody"), "a: b\r\nc: d");
    assert_eq!(header_section("a: b\nc: d"), "a: b\r\nc: d");
    assert_eq!(header_section("a: b\nc: d\r\n"), "a: b\nc: d\r\n");
    assert_eq!(header_section(""), "");
}

#[test]
fn a_mark_in_the_body_is_no_loop() {
    let h = loop_hash("example.com", "example.com");
    let raw = format!("From: a@b.c\r\nTo: x@y.z\r\n\r\n{LOOP_HEADER}: {h}\r\n");
    let map = routes(r#"{"x@y.z":["d@e.f"]}"#);
    assert!(plan_forward(raw.as_bytes(), "example.com", "example.com", &map, None).unwrap().is_some());
}

#[test]
fn addresses_with_and_without_names() {
    assert_eq!(parse_address("\"Jo\" <jo@x.io>"), ("Jo".into(), "jo@x.io".into()));
    assert_eq!(parse_address(" jo@x.io "), ("".into(), "jo@x.io".into()));
    assert_eq!(parse_address("Jo <jo@x.io"), ("Jo".into(), "jo@x.io".into()));
    assert_eq!(parse_address("Jo <none>"), ("".into(), "Jo <none>".into()));
    assert_eq!(split_alias("<A@B>").unwrap(), ("a".into(), "b".into()));
    assert_eq!(split_alias("nobody"), None);
    assert_eq!(split_alias("\u{c4}@X.de").unwrap(), ("\u{e4}".into(), "x.de".into()));
}

#[test]
fn destinations_by_key_then_case_then_catch_all() {
    let map = routes(r#"{"Sales@x.io":["a@b.c"],"sales@X.io":["d@e.f","g@h.i"]}"#);
    assert_eq!(resolve_destinations("sales", "X.io", &map, None), vec!["d@e.f", "g@h.i"]);
    assert_eq!(resolve_destinations("SALES", "x.io", &map, None).len(), 1);
    assert_eq!(resolve_destinations("none", "x.io", &map, Some("c@d.e")), vec!["c@d.e"]);
    assert!(resolve_destinations("none", "x.io", &map, Some("")).is_empty());
    assert!(resolve_destinations("none", "x.io", &map, None).is_empty());
}

#[test]
fn banners() {
    assert_eq!(
        banner_text("a", "b.c", "d@e.f", "g@h.i"),
        "Forwarded by 4ward from a@b.c to d@e.f. Original sender: g@h.i\n\n"
    );
    assert_eq!(
        banner_html("a", "b.c", "d@e.f", "g@h.i"),
        "<div style=\"background:#f4f4f5;padding:8px;font-size:12px;border-radius:4px;color:#333;margin-bottom:12px;\">\n  Forwarded by 4ward from <b>a@b.c</b> to <b>d@e.f</b>. Original sender: <b>g@h.i</b>\n</div>"
    );
    assert!(banner_enabled(None));
    assert!(banner_enabled(Some("")));
    assert!(banner_enabled(Some("FALSE")));
    assert!(!banner_enabled(Some("false")));
    assert!(!banner_enabled(Some("0")));
}

fn parsed_message() -> Incoming {
    Incoming {
        from: Some(Mailbox { name: Some("Al".into()), address: Some("al@x.io".into()) }),
        to: Some(Mailbox { name: None, address: Some("Info@Y.io".into()) }),
        subject: Some("hi".into()),
        text: None,
        html: None,
        attachments: vec![(None, vec![1, 2, 3])],
    }
}

#[test]
fn plans_of_parsed_messages() {
    let map = routes(r#"{"info@y.io":["me@z.io"]}"#);
    let p = plan_parsed(Some(&parsed_message()), "mark".into(), &map, None).unwrap();
    assert_eq!((p.alias.as_str(), p.domain.as_str()), ("info", "y.io"));
    assert_eq!(p.destinations, vec!["me@z.io"]);
    assert_eq!((p.original_from.as_str(), p.original_from_name.as_str()), ("al@x.io", "Al"));
    assert_eq!((p.original_to.as_str(), p.subject.as_str()), ("Info@Y.io", "hi"));
    assert_eq!(p.loop_value, "mark");

    let mut bare = parsed_message();
    bare.from = None;
    bare.subject = None;
    let p = plan_parsed(Some(&bare), "mark".into(), &map, None).unwrap();
    assert_eq!((p.original_from.as_str(), p.original_from_name.as_str(), p.subject.as_str()), ("", "", ""));

    assert_eq!(plan_parsed(None, "m".into(), &map, None).unwrap_err(), "mime parse failed");
    let mut lost = parsed_message();
    lost.to = None;
    assert_eq!(plan_parsed(Some(&lost), "m".into(), &map, None).unwrap_err(), "no routable To header");
    assert_eq!(
        plan_parsed(Some(&parsed_message()), "m".into(), &vec![], None).unwrap_err(),
        "no route for recipient and no catch-all"
    );
}

#[test]
fn a_message_is_planned_from_its_bytes() {
    let map = routes(r#"{"support@relay.example.com":["you@gmail.com"]}"#);
    let p = plan_forward(PLAIN, "example.com", "salt", &map, None).unwrap().unwrap();
    assert_eq!(p.original_from, "alice@example.org");
    assert_eq!(p.original_from_name, "Alice");
    assert_eq!(p.original_to, "support@relay.example.com");
    assert_eq!(p.subject, "hello");
    assert_eq!(p.destinations, vec!["you@gmail.com"]);
    assert_eq!(p.loop_value, loop_hash("example.com", "salt"));
    assert_eq!(plan_forward(b"", "example.com", "salt", &map, None).unwrap_err(), "mime parse failed");
    assert_eq!(
        plan_forward(b"Subject: x\r\n\r\ny", "example.com", "salt", &map, None).unwrap_err(),
        "no routable To header"
    );
}

#[test]
fn headers_of_the_relayed_message() {
    let mut p = plan("hello");
    p.destinations.push("other@gmail.com".into());
    let raw = build_forwarded_raw(PLAIN, &p, "example.com", false).unwrap();
    let msg = MessageParser::default().parse(&raw).unwrap();
    let from = msg.from().unwrap().first().unwrap();
    assert_eq!(from.name(), Some("Alice (via support)"));
    assert_eq!(from.address(), Some("relay@example.com"));
    assert_eq!(msg.reply_to().unwrap().first().unwrap().address(), Some("alice@example.org"));
    let to: Vec<&str> = msg.to().unwrap().iter().filter_map(|a| a.address()).collect();
    assert_eq!(to, vec!["you@gmail.com", "other@gmail.com"]);
    assert_eq!(msg.subject(), Some("hello"));
    assert_eq!(msg.header("X-Original-From").and_then(|h| h.as_text()), Some("alice@example.org"));
    assert_eq!(msg.header("X-Original-To").and_then(|h| h.as_text()), Some("support@relay.example.com"));
    assert_eq!(msg.header("X-4ward-Relay").and_then(|h| h.as_text()), Some("true"));
    assert_eq!(msg.header(LOOP_HEADER).and_then(|h| h.as_text()), Some(p.loop_value.as_str()));
    assert_eq!(msg.body_text(0).unwrap().trim_end(), "Hi there");
}

#[test]
fn a_sender_without_a_name_is_shown_by_the_alias() {
    let mut p = plan("hello");
    p.original_from_name = " ".into();
    let raw = build_forwarded_raw(PLAIN, &p, "example.com", true).unwrap();
    let msg = MessageParser::default().parse(&raw).unwrap();
    assert_eq!(msg.from().unwrap().first().unwrap().name(), Some("support (via support)"));
}

#[test]
fn bodies_and_attachments_of_parsed_messages() {
    let raw = build_parsed(Some(&parsed_message()), &plan("s"), "example.com", true).unwrap();
    let msg = MessageParser::default().parse(&raw).unwrap();
    assert_eq!(msg.body_text(0).unwrap().trim_end(), "(empty message forwarded by 4ward)");
    let att = msg.attachments().next().unwrap();
    assert_eq!(att.attachment_name(), Some("attachment.bin"));
    assert_eq!(att.contents(), &[1, 2, 3]);

    let mut both = parsed_message();
    both.text = Some("plain".into());
    both.html = Some("<p>rich</p>".into());
    let raw = build_parsed(Some(&both), &plan("s"), "example.com", true).unwrap();
    let msg = MessageParser::default().parse(&raw).unwrap();
    let text = msg.body_text(0).unwrap();
    assert!(text.starts_with("Forwarded by 4ward from support@relay.example.com to you@gmail.com."));
    assert!(text.trim_end().ends_with("plain"));
    let html = msg.body_html(0).unwrap();
    assert!(html.starts_with("<div style="));
    assert!(html.trim_end().ends_with("<p>rich</p>"));

    assert_eq!(build_parsed(None, &plan("s"), "x.io", true).unwrap_err(), "mime parse failed");
    assert_eq!(build_forwarded_raw(b"", &plan("s"), "x.io", true).unwrap_err(), "mime parse failed");
}

#[test]
fn settings_of_a_relay() {
    assert!(relay_settings(None, Some("s"), None, None, None).is_none());
    assert!(relay_settings(Some(""), Some("s"), None, None, None).is_none());
    let s = relay_settings(Some("x.io"), None, Some(r#"{"a@x.io":["b@c.d"]}"#), Some("e@f.g"), Some("0")).unwrap();
    assert_eq!(s.loop_salt, "x.io");
    assert_eq!(s.routes, vec![("a@x.io".to_string(), vec!["b@c.d".to_string()])]);
    assert_eq!(s.catch_all.as_deref(), Some("e@f.g"));
    assert!(!s.banner);
    assert_eq!(relay_settings(Some("x.io"), Some("s"), None, None, None).unwrap().loop_salt, "s");
}

#[test]
fn a_relay_drops_what_it_relayed() {
    let map = r#"{"support@relay.example.com":["support@relay.example.com"]}"#;
    let s = relay_settings(Some("example.com"), Some("pepper"), Some(map), None, None).unwrap();
    let out = relay(PLAIN, &s).unwrap().unwrap();
    assert_eq!(out.from, "relay@example.com");
    assert_eq!(out.destinations, vec!["support@relay.example.com"]);
    assert!(relay(&out.raw, &s).unwrap().is_none());

    let other = relay_settings(Some("example.com"), Some("salt"), Some(map), None, None).unwrap();
    assert!(relay(&out.raw, &other).unwrap().is_some());
}

#[test]
fn long_and_foreign_headers_do_not_hide_the_mark() {
    let subject = "\u{4f60}\u{597d} ".repeat(60);
    let raw = format!("From: \"{}\" <alice@example.org>\r\nTo: support@relay.example.com\r\nSubject: {subject}\r\n\r\nx", "A".repeat(90));
    let s = relay_settings(Some("example.com"), None, None, Some("support@relay.example.com"), None).unwrap();
    let out = relay(raw.as_bytes(), &s).unwrap().unwrap();
    assert!(relay(&out.raw, &s).unwrap().is_none());
}

#[test]
fn bytes_that_are_no_text_are_relayed() {
    let mut raw = b"From: a@b.c\r\nTo: x@y.z\r\nSubject: \xff\xfe\r\n\r\n".to_vec();
    raw.push(0xff);
    let s = relay_settings(Some("example.com"), None, None, Some("d@e.f"), Some("false")).unwrap();
    let out = relay(&raw, &s).unwrap().unwrap();
    assert_eq!(out.destinations, vec!["d@e.f"]);
}

#[test]
fn reasons_for_not_relaying() {
    let s = relay_settings(Some("example.com"), None, None, None, None).unwrap();
    assert_eq!(relay(b"", &s).unwrap_err(), "plan: mime parse failed");
    assert_eq!(relay(PLAIN, &s).unwrap_err(), "plan: no route for recipient and no catch-all");
    assert_eq!(relay(b"Subject: x\r\n\r\ny", &s).unwrap_err(), "plan: no routable To header");
}

#[test]
fn a_relayed_message_with_a_bad_key_is_sent_unsealed() {
    let s = relay_settings(Some("example.com"), None, None, Some("d@e.f"), None).unwrap();
    let out = relay(PLAIN, &s).unwrap().unwrap();
    let kept = seal_or_keep(out.raw.clone(), "example.com", "example.com", "fw1", "no key", 0);
    assert_eq!(kept, out.raw);
}

#[test]
fn plain_bodies_and_attachments_stand_in_the_message() {
    let mut msg = parsed_message();
    msg.text = Some("one\ntwo".into());
    msg.attachments = vec![(Some("a.bin".into()), (0..=255).collect()), (None, vec![7; 57])];
    let raw = build_parsed(Some(&msg), &plan("s"), "example.com", false).unwrap();
    let text = String::from_utf8(raw).unwrap();
    assert!(text.contains("one\r\ntwo"));
    let bytes: Vec<u8> = (0..=255).collect();
    let mut lines = String::new();
    for piece in bytes.chunks(57) {
        lines.push_str(&B64.encode(piece));
        if piece.len() == 57 {
            lines.push_str("\r\n");
        }
    }
    assert!(text.contains(&lines));
    assert!(text.contains(&format!("{}\r\n", B64.encode([7; 57]))));
}

#[test]
fn header_lines_stand_as_they_are_where_they_are_short() {
    let raw = build_forwarded_raw(PLAIN, &plan("hello"), "example.com", true).unwrap();
    let text = String::from_utf8(raw).unwrap();
    assert!(text.starts_with("From: "));
    assert!(text.contains("\r\nX-Original-From: alice@example.org\r\nX-Original-To: support@relay.example.com\r\nX-4ward-Relay: true\r\nX-4ward-Loop-Detection: f5a31ce22aa91c91\r\n"));
}

#[test]
fn line_breaks_in_a_subject_do_not_hide_the_mark() {
    let s = relay_settings(Some("example.com"), None, None, Some("d@e.f"), None).unwrap();
    let long = "word\n\n".repeat(20);
    for subject in
        ["a\nb", "a\r\nb\nc", "a\rb", "\nx", "\u{e9}\n\nx", "a\n b", "a\n\nb ", long.as_str()]
    {
        let mut p = plan(subject);
        p.original_from = "x\n@y".into();
        let raw = build_forwarded_raw(PLAIN, &p, "example.com", true).unwrap();
        assert!(relay(&raw, &s).unwrap().is_none(), "{subject:?}");
    }
    // an empty line within the headers ends them
    for subject in ["a\r\n\r\nb", "a\n\nb", "a\n"] {
        let raw = build_forwarded_raw(PLAIN, &plan(subject), "example.com", true).unwrap();
        assert!(!matches!(relay(&raw, &s), Ok(None)), "{subject:?}");
    }
}

#[test]
fn a_mark_in_the_body_is_none() {
    let of = |raw: &[u8]| plan_forward(raw, "b", "a", &vec![], Some("me@g.co")).unwrap();
    assert_eq!(loop_hash("b", "a"), "000000000b885762");
    let plan =
        of(b"From: a@b.c\nTo: x@y.z\n\nX-4ward-Loop-Detection: 000000000b885762").unwrap();
    assert_eq!((plan.alias.as_str(), plan.domain.as_str()), ("x", "y.z"));
    assert_eq!(plan.destinations, vec!["me@g.co"]);
    assert!(of(b"From: a@b.c\r\nTo: x@y.z\n\r\nX-4ward-Loop-Detection: 000000000b885762").is_some());
    assert!(of(b"From: a@b.c\nX-4ward-Loop-Detection: 000000000b885762\nTo: x@y.z\n\nb").is_none());
}

#[test]
fn a_sealed_relayed_message_is_dropped() {
    let s = relay_settings(Some("example.com"), None, None, Some("d@e.f"), None).unwrap();
    let out = relay(PLAIN, &s).unwrap().unwrap();
    let key = rsa::RsaPrivateKey::new(&mut rand::thread_rng(), 1024).unwrap();
    let pem = key.to_pkcs1_pem(rsa::pkcs1::LineEnding::LF).unwrap().to_string();
    let sealed = seal_or_keep(out.raw, "example.com", "example.com", "fw1", &pem, 0);
    assert!(sealed.starts_with(b"ARC-Seal:"));
    assert!(relay(&sealed, &s).unwrap().is_none());
}

#[test]
fn long_bodies_and_attachment_names_are_written() {
    let s = relay_settings(Some("example.com"), None, None, Some("d@e.f"), None).unwrap();
    let body = "word ".repeat(40) + "\u{20ac} = end";
    let raw = format!("From: a@b.c\r\nTo: x@y.z\r\nContent-Type: text/plain; charset=utf-8\r\n\r\n{body}");
    let out = relay(raw.as_bytes(), &s).unwrap().unwrap().raw;
    let text = String::from_utf8(out.clone()).unwrap();
    assert!(text.contains("Content-Transfer-Encoding: quoted-printable\r\n\r\n"));
    assert!(MessageParser::default().parse(&out).unwrap().body_text(0).unwrap().ends_with(&body));
    let out = relay(&multipart_fixture(), &s).unwrap().unwrap().raw;
    let text = String::from_utf8(out).unwrap();
    assert!(text.contains(
        "filename=\"document.pdf\"\r\nContent-Transfer-Encoding: base64\r\n\r\nJVBERi0xLjQK"
    ));
}

#[test]
fn messages_that_the_parser_does_not_return_from_are_not_parsed() {
    let s = relay_settings(Some("example.com"), None, None, Some("d@e.f"), None).unwrap();
    let refused = |raw: &str| {
        assert!(!parsable(raw.as_bytes()), "{raw}");
        assert_eq!(relay(raw.as_bytes(), &s).unwrap_err(), "plan: mime parse failed");
        let p = plan("x");
        let built = build_forwarded_raw(raw.as_bytes(), &p, "example.com", false);
        assert_eq!(built.unwrap_err(), "mime parse failed");
    };
    let multipart = "To: x@y.z\nContent-Type: multipart/mixed; boundary=b\n\n--b\n";
    let quoted = "Content-Transfer-Encoding: quoted-printable\n";
    refused(&format!("{multipart}{quoted}\n=\n--b--\n"));
    refused(&format!("{multipart}{quoted}\nx=\r\n--b--\r\n"));
    refused(&format!("{multipart}{quoted}\n\n=\r\n--b--\r\n"));
    refused(&format!("{multipart}{quoted}\n=\n\n=\r\n--b--\r\n"));
    refused(&format!("{multipart}{quoted}Date: 1 Jan 2024 00:00:00 Z\n\nX: yy\n\n=\n--b--\n"));
    refused("To: x@y.z\nReceived: from a; 1 Jan 2024 00:00:00\n -9223372036854775808\n\nx");
    refused(&format!("To: x@y.z\n{}\nx", "Content-Type: message/rfc822\n\n".repeat(600)));
    refused(&format!(
        "{multipart}Content-Type: message/rfc822\nContent-Transfer-Encoding: base64\n\nVG86IGE=\n--b--\n"
    ));
    refused(&format!("{multipart}content-type: text\n message/RFC822\n{quoted}\nTo: a\n--b--\n"));
    refused(&format!(
        "To: x@y.z\nContent-Type: multipart/digest; boundary=b\n\n--b\n{quoted}\nTo: a\n--b--\n"
    ));
}

#[test]
fn messages_that_look_odd_are_parsed() {
    let s = relay_settings(Some("example.com"), None, None, Some("d@e.f"), None).unwrap();
    let relayed = |raw: &str| {
        assert!(parsable(raw.as_bytes()), "{raw}");
        assert!(relay(raw.as_bytes(), &s).unwrap().is_some(), "{raw}");
    };
    let multipart = "To: x@y.z\nContent-Type: multipart/mixed; boundary=b\n\n--b\n";
    let quoted = "Content-Type: text/plain\nContent-Transfer-Encoding: quoted-printable\n";
    relayed(&format!("{multipart}{quoted}\nHi=\n--b--\n"));
    relayed(&format!("{multipart}{quoted}\n=C3=A9=\n--b--\n"));
    relayed(&format!("{multipart}{quoted}\nThanks\n\n=\n--b--\n"));
    relayed("To: x@y.z\nDate: 1 Jan 2024 00:00:00 Z\nSubject: least\n\nThe least is -9223372036854775808.\n");
    relayed(&format!("To: x@y.z\n{}\nx", "Content-Type: message/rfc822\n\n".repeat(400)));
    let inner = format!("From: a@b.c\nSubject: one\n{quoted}\nfirst=\n--b--\n");
    relayed(&format!("{multipart}Content-Type: message/rfc822\n\n{inner}"));
    relayed(&format!(
        "To: x@y.z\nContent-Type: multipart/digest; boundary=b\n\n--b\n\n{inner}"
    ));
    let file = "Content-Type: application/pdf; name=\"Global message rfc822.pdf\"\nContent-Transfer-Encoding: base64\n";
    relayed(&format!("{multipart}{file}\nJVBERi0xLjQK\n--b--\n"));
}
