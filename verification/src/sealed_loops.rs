//! Why a relay does not relay its own messages once they are sealed: the seal's headers leave the
//! loop header in the header section.
use vstd::prelude::*;
use vstd::utf8::encode_utf8;

use crate::arc::{
    canonical, covered_names, fields, folded, has_field, message_signature, results_text,
    rsa_signature, seal_input, seal_text, sealing, sections, signature_input, signature_text,
    signed_names, signed_text, text_digest,
};
use crate::arc_laws::lemma_base64_visible;
use crate::crypto::{base64, law_text_before_bytes, law_text_of_bytes, message_text};
use crate::forward::{planned_by, relays, PlanText, RelaySettings, Relayed};
use crate::mail::{incoming, is_visible};
use crate::no_loops::{
    is_closed_line, is_unbroken_relay, lemma_relayed_carries_mark, lemma_written_lines,
};
use crate::text::{decimal, has_empty_line, is_gap, join};

verus! {

/// Whether `c` belongs to a line end.
spec fn ends_lines(c: char) -> bool {
    c == '\r' || c == '\n'
}

/// Two texts without empty lines make one, where one of the characters at which they meet belongs
/// to no line end.
proof fn lemma_glue(a: Seq<char>, b: Seq<char>)
    requires
        !has_empty_line(a),
        !has_empty_line(b),
        (a.len() > 0 && !ends_lines(a.last())) || (b.len() > 0 && !ends_lines(b[0])),
    ensures
        !has_empty_line(a + b),
{
    let s = a + b;
    assert forall|k: int| !is_gap(s, k) by {
        if is_gap(s, k) {
            if k >= a.len() {
                assert(is_gap(b, k - a.len()));
            } else if k == a.len() - 1 {
                assert(s[k] == a.last());
                assert(s[k + 1] == b[0]);
            } else if k == a.len() - 2 {
                assert(s[k + 1] == a.last());
                if s[k + 1] == '\n' {
                    assert(is_gap(a, k));
                } else {
                    assert(s[k + 2] == b[0]);
                }
            } else {
                assert(is_gap(a, k));
            }
        }
    }
}

/// A text without line feeds has no empty lines.
proof fn lemma_one_line(s: Seq<char>)
    requires
        !s.contains('\n'),
    ensures
        !has_empty_line(s),
{
    assert forall|k: int| !is_gap(s, k) by {
        if is_gap(s, k) {
            assert(s.contains(s[k]));
        }
    }
}

/// A text between others, which are of one line and meet it with characters that belong to no line
/// end, leaves no empty line where it has none.
proof fn lemma_between(a: Seq<char>, s: Seq<char>, b: Seq<char>)
    requires
        !has_empty_line(a),
        a.len() > 0,
        !ends_lines(a.last()),
        !has_empty_line(s),
        !b.contains('\n'),
        b.len() > 0,
        !ends_lines(b[0]),
    ensures
        !has_empty_line(a + s + b),
{
    lemma_glue(a, s);
    lemma_one_line(b);
    lemma_glue(a + s, b);
}

/// Decimal digits are visible.
proof fn lemma_decimal_visible(n: nat)
    ensures
        is_visible(decimal(n)),
    decreases n,
{
    if n >= 10 {
        lemma_decimal_visible(n / 10);
    }
}

/// A visible text is of one line.
proof fn lemma_visible_line(s: Seq<char>)
    requires
        is_visible(s),
    ensures
        !s.contains('\n'),
{
}

/// A folded text has no empty line, and begins and ends with visible characters.
proof fn lemma_folded(b64: Seq<char>)
    requires
        is_visible(b64),
    ensures
        !has_empty_line(folded(b64)),
        b64.len() > 0 ==> folded(b64).len() > 0 && '!' <= folded(b64)[0] <= '~' && '!' <= folded(
            b64,
        ).last() <= '~',
        b64.len() == 0 ==> folded(b64).len() == 0,
    decreases b64.len(),
{
    reveal_strlit("\r\n ");
    if b64.len() <= 64 {
        lemma_visible_line(b64);
        lemma_one_line(b64);
    } else {
        let piece = b64.take(64);
        let rest = b64.skip(64);
        assert(is_visible(piece));
        assert(is_visible(rest)) by {
            assert forall|i: int| 0 <= i < rest.len() implies '!' <= #[trigger] rest[i] <= '~' by {
                assert(rest[i] == b64[i + 64]);
            }
        }
        lemma_folded(rest);
        lemma_visible_line(piece);
        lemma_one_line(piece);
        let fold = "\r\n "@;
        assert forall|k: int| !is_gap(fold, k) by {}
        lemma_glue(piece, fold);
        lemma_glue(piece + fold, folded(rest));
        assert(folded(b64)[0] == b64[0]);
    }
}

/// Joining texts of one line with colons makes a text of one line.
proof fn lemma_join_line(list: Seq<Seq<char>>)
    requires
        forall|i: int| 0 <= i < list.len() ==> !(#[trigger] list[i]).contains('\n'),
    ensures
        !join(list, ":"@).contains('\n'),
    decreases list.len(),
{
    reveal_strlit(":");
    if list.len() == 1 {
        assert(!list[0].contains('\n'));
    } else if list.len() > 1 {
        let less = list.drop_last();
        assert forall|i: int| 0 <= i < less.len() implies !(#[trigger] less[i]).contains('\n') by {
            assert(less[i] == list[i]);
        }
        lemma_join_line(less);
        assert(!list[list.len() - 1].contains('\n'));
    }
}

/// The names of the covered headers make a text of one line.
proof fn lemma_names_line(fs: Seq<Seq<char>>)
    ensures
        !join(covered_names(fs), ":"@).contains('\n'),
{
    reveal_strlit("from");
    reveal_strlit("to");
    reveal_strlit("subject");
    reveal_strlit("date");
    reveal_strlit("message-id");
    reveal_strlit("reply-to");
    reveal_strlit("mime-version");
    reveal_strlit("content-type");
    let all = signed_names();
    let pred = |n: Seq<char>| has_field(fs, n);
    assert forall|i: int| 0 <= i < all.len() implies !(#[trigger] all[i]).contains('\n') by {}
    let names = covered_names(fs);
    assert forall|i: int| 0 <= i < names.len() implies !(#[trigger] names[i]).contains('\n') by {
        assert(all.filter(pred).contains(names[i]));
        all.lemma_filter_contains_rev(pred, names[i]);
        let j = choose|j: int| 0 <= j < all.len() && all[j] == names[i];
        assert(!all[j].contains('\n'));
    }
    lemma_join_line(names);
}

/// A header without its signature has no empty line where domain and selector have none.
proof fn lemma_unsigned(start: Seq<char>, domain: Seq<char>, selector: Seq<char>, rest: Seq<char>)
    requires
        start.len() > 0,
        !ends_lines(start.last()),
        !start.contains('\n'),
        !has_empty_line(domain),
        !has_empty_line(selector),
        rest.len() > 0,
        !ends_lines(rest[0]),
        !rest.contains('\n'),
    ensures
        !has_empty_line(start + domain + "; s="@ + selector + rest),
{
    reveal_strlit("; s=");
    lemma_one_line(start);
    lemma_between(start, domain, "; s="@);
    lemma_between(start + domain + "; s="@, selector, rest);
}

/// A header with its signature and its line end is a closed line.
proof fn lemma_signed_closed(unsigned: Seq<char>, signature: Seq<u8>)
    requires
        !has_empty_line(unsigned),
        unsigned.len() > 0,
        '!' <= unsigned[0] <= '~',
        '!' <= unsigned.last() <= '~',
    ensures
        is_closed_line(signed_text(unsigned, signature) + "\r\n"@),
{
    reveal_strlit("\r\n");
    let b64 = base64(signature);
    lemma_base64_visible(signature);
    lemma_folded(b64);
    lemma_glue(unsigned, folded(b64));
    let end = "\r\n"@;
    assert forall|k: int| !is_gap(end, k) by {}
    lemma_glue(signed_text(unsigned, signature), end);
}

/// The seal header with its line end is a closed line.
proof fn lemma_seal_closed(domain: Seq<char>, selector: Seq<char>, now: u64, signature: Seq<u8>)
    requires
        !has_empty_line(domain),
        !has_empty_line(selector),
    ensures
        is_closed_line(signed_text(seal_text(domain, selector, now), signature) + "\r\n"@),
{
    reveal_strlit("ARC-Seal: i=1; a=rsa-sha256; cv=none; d=");
    reveal_strlit("; s=");
    reveal_strlit("; t=");
    reveal_strlit("; b=");
    let start = "ARC-Seal: i=1; a=rsa-sha256; cv=none; d="@;
    let rest = "; t="@ + decimal(now as nat) + "; b="@;
    lemma_decimal_visible(now as nat);
    lemma_visible_line(decimal(now as nat));
    lemma_unsigned(start, domain, selector, rest);
    let unsigned = seal_text(domain, selector, now);
    assert(unsigned =~= start + domain + "; s="@ + selector + rest);
    lemma_signed_closed(unsigned, signature);
}

/// The message signature header with its line end is a closed line.
proof fn lemma_signature_closed(
    names: Seq<char>,
    digest: Seq<u8>,
    domain: Seq<char>,
    selector: Seq<char>,
    now: u64,
    signature: Seq<u8>,
)
    requires
        !names.contains('\n'),
        !has_empty_line(domain),
        !has_empty_line(selector),
    ensures
        is_closed_line(
            signed_text(signature_text(names, digest, domain, selector, now), signature)
                + "\r\n"@,
        ),
{
    reveal_strlit("ARC-Message-Signature: i=1; a=rsa-sha256; c=relaxed/relaxed; d=");
    reveal_strlit("; s=");
    reveal_strlit("; t=");
    reveal_strlit("; h=");
    reveal_strlit("; bh=");
    reveal_strlit("; b=");
    let start = "ARC-Message-Signature: i=1; a=rsa-sha256; c=relaxed/relaxed; d="@;
    let rest = "; t="@ + decimal(now as nat) + "; h="@ + names + "; bh="@ + base64(digest) + "; b="@;
    lemma_decimal_visible(now as nat);
    lemma_visible_line(decimal(now as nat));
    lemma_base64_visible(digest);
    lemma_visible_line(base64(digest));
    lemma_unsigned(start, domain, selector, rest);
    let unsigned = signature_text(names, digest, domain, selector, now);
    assert(unsigned =~= start + domain + "; s="@ + selector + rest);
    lemma_signed_closed(unsigned, signature);
}

/// The results header with its line end is a closed line.
proof fn lemma_results_closed(authserv_id: Seq<char>)
    requires
        !has_empty_line(authserv_id),
    ensures
        is_closed_line(results_text(authserv_id) + "\r\n"@),
{
    reveal_strlit("ARC-Authentication-Results: i=1; ");
    reveal_strlit("; spf=none; dkim=none; dmarc=none");
    reveal_strlit("\r\n");
    let start = "ARC-Authentication-Results: i=1; "@;
    lemma_one_line(start);
    lemma_between(start, authserv_id, "; spf=none; dkim=none; dmarc=none"@);
    let end = "\r\n"@;
    assert forall|k: int| !is_gap(end, k) by {}
    lemma_glue(results_text(authserv_id), end);
}

/// Three texts, one after the other.
proof fn lemma_three(a: Seq<char>, b: Seq<char>, c: Seq<char>)
    ensures
        seq![a, b, c].flatten() == a + b + c,
{
    let all = seq![a, b, c];
    reveal_with_fuel(Seq::<_>::flatten, 4);
    assert(all.drop_first() =~= seq![b, c]);
    assert(seq![b, c].drop_first() =~= seq![c]);
    seq![c].lemma_flatten_one_element();
}

/// The headers of a seal are three closed lines, where the names in them have no empty line.
proof fn lemma_block_closed(
    message: Seq<u8>,
    authserv_id: Seq<char>,
    seal_domain: Seq<char>,
    selector: Seq<char>,
    private_pem: Seq<char>,
    now_unix: u64,
    block: Seq<char>,
) -> (r: Seq<Seq<char>>)
    requires
        sealing(message, authserv_id, seal_domain, selector, private_pem, now_unix) == Ok::<
            Seq<char>,
            Seq<char>,
        >(block),
        !has_empty_line(authserv_id),
        !has_empty_line(seal_domain),
        !has_empty_line(selector),
    ensures
        forall|i: int| 0 <= i < r.len() ==> is_closed_line(#[trigger] r[i]),
        r.flatten() == block,
{
    let text = message_text(message);
    let c = canonical(text, seal_domain, selector)->Ok_0;
    let digest = text_digest(c.body);
    let unsigned = signature_text(c.names, digest, seal_domain, selector, now_unix);
    let signature = message_signature(c, seal_domain, selector, private_pem, now_unix)->Ok_0;
    let first = rsa_signature(
        private_pem,
        text_digest(signature_input(c.headers, unsigned)),
    )->Ok_0;
    assert(signature == signed_text(unsigned, first));
    lemma_names_line(fields(sections(text).0));
    lemma_signature_closed(c.names, digest, seal_domain, selector, now_unix, first);
    let results = results_text(authserv_id);
    lemma_results_closed(authserv_id);
    let seal = seal_text(seal_domain, selector, now_unix);
    let second = rsa_signature(
        private_pem,
        text_digest(seal_input(seal, signature, results)),
    )->Ok_0;
    lemma_seal_closed(seal_domain, selector, now_unix, second);
    let end = "\r\n"@;
    let r = seq![signed_text(seal, second) + end, signature + end, results + end];
    lemma_three(r[0], r[1], r[2]);
    assert(r.flatten() =~= block);
    r
}

/// A relay drops what it has relayed and sealed: the sealed message that was made of `raw` comes to
/// nothing. An empty line in a domain, a selector or the name of the server would end the header
/// section within the seal.
pub proof fn law_no_sealed_loops(
    raw: Seq<u8>,
    plan: PlanText,
    s: RelaySettings,
    out: Relayed,
    authserv_id: Seq<char>,
    seal_domain: Seq<char>,
    selector: Seq<char>,
    private_pem: Seq<char>,
    now_unix: u64,
    block: Seq<char>,
)
    requires
        planned_by(raw, s) == Ok::<Option<PlanText>, Seq<char>>(Some(plan)),
        relays(raw, plan, s, out),
        is_unbroken_relay(plan, s.relay_domain@),
        sealing(out.raw@, authserv_id, seal_domain, selector, private_pem, now_unix) == Ok::<
            Seq<char>,
            Seq<char>,
        >(block),
        !has_empty_line(authserv_id),
        !has_empty_line(seal_domain),
        !has_empty_line(selector),
    ensures
        planned_by(encode_utf8(block) + out.raw@, s) == Ok::<Option<PlanText>, Seq<char>>(None),
{
    let msg = incoming(raw)->0;
    let first = lemma_block_closed(
        out.raw@,
        authserv_id,
        seal_domain,
        selector,
        private_pem,
        now_unix,
        block,
    );
    let (ls, text) = lemma_written_lines(msg, plan, s.relay_domain@, s.banner, out.raw@);
    law_text_of_bytes(text);
    law_text_before_bytes(block, out.raw@);
    lemma_relayed_carries_mark(
        first,
        msg,
        plan,
        s.relay_domain@,
        s.loop_salt@,
        s.banner,
        ls,
        text,
    );
}

} // verus!
