//! What holds of ARC seals: a sealed message is not sealed again, folding a signature loses
//! nothing, and the sender is always covered.
use vstd::prelude::*;
use vstd::utf8::encode_utf8;

use crate::arc::{
    canonical, carries_arc, covered_names, fields, folded, has_field, is_arc_name,
    message_signature, name_part, results_text, seal_text, sealing, sealing_of, sections,
    signed_names, unix_lines,
};
use crate::crypto::{base64, law_text_before_bytes, message_text};
use crate::mail::is_visible;
use crate::text::{
    find, first_of, fold_case, is_blank, lemma_find, lemma_first_of, lemma_first_of_is,
    lemma_replace_after, lemma_replace_beginning, lemma_replace_whole, lemma_trim_visible, lines,
    replace, same_ignoring_case, stands_at, without_cr,
};

verus! {

/// The beginning of the seal header, with the colon.
spec fn seal_start() -> Seq<char> {
    seq!['A', 'R', 'C', '-', 'S', 'e', 'a', 'l', ':']
}

/// A header section that begins with a seal header carries an ARC chain.
proof fn lemma_starts_with_seal(h: Seq<char>)
    requires
        h.len() >= 9,
        h.take(9) == seal_start(),
    ensures
        carries_arc(h),
{
    assert forall|j: int| 0 <= j < 9 implies h[j] == seal_start()[j] by {
        assert(h.take(9)[j] == h[j]);
    }
    lemma_first_of(h, '\n');
    let i = first_of(h, '\n');
    assert(i >= 9);
    let line = lines(h)[0];
    let whole = if i < h.len() {
        without_cr(h.take(i))
    } else {
        h
    };
    assert(line == whole);
    assert(line.len() >= 9) by {
        if i == 9 {
            assert(h.take(9).last() == ':');
        }
    }
    assert forall|j: int| 0 <= j < 9 implies line[j] == seal_start()[j] by {}
    lemma_first_of_is(line, ':', 8);
    let name = line.take(8);
    assert(name =~= seal_start().take(8));
    lemma_trim_visible(name);
    assert(name_part(line) == name);
    reveal_strlit("arc-seal");
    assert(same_ignoring_case(name, "arc-seal"@)) by {
        assert(fold_case(name) =~= fold_case("arc-seal"@));
    }
    assert(is_arc_name(name_part(lines(h)[0])));
}

/// The header section of a text that begins with a seal header begins with it too.
#[verifier::rlimit(30)]
proof fn lemma_section_starts_with_seal(text: Seq<char>)
    requires
        text.len() >= 9,
        text.take(9) == seal_start(),
    ensures
        sections(text).0.len() >= 9,
        sections(text).0.take(9) == seal_start(),
{
    reveal_strlit("\r\n");
    reveal_strlit("\r");
    reveal_strlit("\n");
    reveal_strlit("\n\n");
    assert forall|j: int| 0 <= j < 9 implies text[j] == seal_start()[j] by {
        assert(text.take(9)[j] == text[j]);
    }
    lemma_replace_beginning(text, "\r\n"@, "\n"@, 9);
    let once = replace(text, "\r\n"@, "\n"@);
    assert forall|j: int| 0 <= j < 9 implies once[j] == seal_start()[j] by {
        assert(once.take(9)[j] == once[j]);
    }
    lemma_replace_beginning(once, "\r"@, "\n"@, 9);
    let norm = unix_lines(text);
    assert forall|j: int| 0 <= j < 9 implies norm[j] == seal_start()[j] by {
        assert(norm.take(9)[j] == norm[j]);
    }
    lemma_find(norm, "\n\n"@);
    if let Some(k) = find(norm, "\n\n"@) {
        assert(stands_at(norm, "\n\n"@, k));
        assert(norm.subrange(k, k + 2)[0] == norm[k]);
        assert(k >= 9);
        assert(norm.take(k).take(9) =~= seal_start());
    } else {
        assert(norm.take(9) =~= seal_start());
    }
}

/// The block of headers of a sealed message begins with the seal header.
proof fn lemma_block_starts_with_seal(
    signature: Seq<char>,
    results: Seq<char>,
    seal_domain: Seq<char>,
    selector: Seq<char>,
    now_unix: u64,
    private_pem: Seq<char>,
    block: Seq<char>,
)
    requires
        sealing_of(signature, results, seal_text(seal_domain, selector, now_unix), private_pem)
            == Ok::<Seq<char>, Seq<char>>(block),
    ensures
        block.len() >= 9,
        block.take(9) == seal_start(),
{
    reveal_strlit("ARC-Seal: i=1; a=rsa-sha256; cv=none; d=");
    let seal = seal_text(seal_domain, selector, now_unix);
    assert(seal.len() >= 9);
    assert(seal.take(9) =~= seal_start());
    assert(block.take(9) =~= seal.take(9));
}

/// A message that was sealed is not sealed again, by anyone: it carries an ARC chain.
pub proof fn law_sealed_once(
    message: Seq<u8>,
    authserv_id: Seq<char>,
    seal_domain: Seq<char>,
    selector: Seq<char>,
    private_pem: Seq<char>,
    now_unix: u64,
    block: Seq<char>,
    next_id: Seq<char>,
    next_domain: Seq<char>,
    next_selector: Seq<char>,
    next_pem: Seq<char>,
    next_unix: u64,
)
    requires
        sealing(message, authserv_id, seal_domain, selector, private_pem, now_unix) == Ok::<
            Seq<char>,
            Seq<char>,
        >(block),
        !is_blank(next_domain),
        !is_blank(next_selector),
    ensures
        sealing(
            encode_utf8(block) + message,
            next_id,
            next_domain,
            next_selector,
            next_pem,
            next_unix,
        ) == Err::<Seq<char>, Seq<char>>(
            "incoming ARC chain present; only first-hop sealing supported"@,
        ),
{
    let c = canonical(message_text(message), seal_domain, selector)->Ok_0;
    let signature = message_signature(
        c,
        seal_domain,
        selector,
        private_pem,
        now_unix,
    )->Ok_0;
    lemma_block_starts_with_seal(
        signature,
        results_text(authserv_id),
        seal_domain,
        selector,
        now_unix,
        private_pem,
        block,
    );
    law_text_before_bytes(block, message);
    let text = block + message_text(message);
    assert(text.take(9) =~= block.take(9));
    lemma_section_starts_with_seal(text);
    lemma_starts_with_seal(sections(text).0);
}

/// Taking the continuation marks out of a folded text gives the text back, where it has no
/// carriage return in it.
pub proof fn law_folding_loses_nothing(b64: Seq<char>)
    requires
        !b64.contains('\r'),
    ensures
        replace(folded(b64), "\r\n "@, Seq::empty()) == b64,
    decreases b64.len(),
{
    reveal_strlit("\r\n ");
    let pat = "\r\n "@;
    assert forall|i: int| 0 <= i < b64.len() implies b64[i] != '\r' by {
        assert(b64.contains(b64[i]));
    }
    if b64.len() <= 64 {
        lemma_replace_beginning(b64, pat, Seq::empty(), b64.len() as int);
        lemma_replace_whole(b64, pat, Seq::empty());
    } else {
        let piece = b64.take(64);
        let rest = b64.skip(64);
        assert(!rest.contains('\r')) by {
            assert forall|i: int| 0 <= i < rest.len() implies rest[i] != '\r' by {
                assert(rest[i] == b64[i + 64]);
            }
        }
        law_folding_loses_nothing(rest);
        let more = pat + folded(rest);
        lemma_replace_after(piece, more, pat, Seq::empty());
        assert(folded(b64) =~= piece + more);
        assert(pat.is_prefix_of(more));
        assert(more.skip(3) =~= folded(rest));
        assert(replace(more, pat, Seq::empty()) =~= rest);
        assert(piece + rest =~= b64);
    }
}

/// Base64 text is visible.
pub proof fn lemma_base64_visible(b: Seq<u8>)
    ensures
        is_visible(base64(b)),
    decreases b.len(),
{
    if b.len() >= 3 {
        lemma_base64_visible(b.skip(3));
    }
}

/// A signature can be read back from the folded text in its header.
pub proof fn law_signature_unfolds(signature: Seq<u8>)
    ensures
        replace(folded(base64(signature)), "\r\n "@, Seq::empty()) == base64(signature),
{
    lemma_base64_visible(signature);
    law_folding_loses_nothing(base64(signature));
}

/// The sender is among the headers that the signature of a sealed message covers.
pub proof fn law_sender_is_covered(text: Seq<char>, seal_domain: Seq<char>, selector: Seq<char>)
    requires
        canonical(text, seal_domain, selector) is Ok,
    ensures
        covered_names(fields(sections(text).0)).contains("from"@),
{
    let present = fields(sections(text).0);
    let pred = |n: Seq<char>| has_field(present, n);
    assert(signed_names()[0] == "from"@);
    assert(pred("from"@));
    signed_names().lemma_filter_contains(pred, 0);
}

} // verus!
