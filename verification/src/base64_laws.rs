//! What base64 keeps: no two byte strings have the same text.
use vstd::prelude::*;

use crate::crypto::{base64, base64_symbol, decoded};

verus! {

/// No two values have the same symbol, and none has the padding character for one.
proof fn lemma_symbol(u: int, v: int)
    requires
        0 <= u < 64,
        0 <= v < 64,
        base64_symbol(u) == base64_symbol(v),
    ensures
        u == v,
        base64_symbol(u) != '=',
{
}

/// The text of bytes comes in groups of four symbols.
pub proof fn lemma_base64_length(b: Seq<u8>)
    ensures
        base64(b).len() == 4 * ((b.len() + 2) / 3),
    decreases b.len(),
{
    if b.len() >= 3 {
        lemma_base64_length(b.skip(3));
    }
}

/// No two byte strings have the same base64 text.
pub proof fn law_base64_is_unique(a: Seq<u8>, b: Seq<u8>)
    requires
        base64(a) == base64(b),
    ensures
        a == b,
    decreases a.len(),
{
    lemma_base64_length(a);
    lemma_base64_length(b);
    let s = base64(a);
    if a.len() == 0 || b.len() == 0 {
        assert(a =~= b);
    } else {
        let a1 = if a.len() > 1 {
            a[1] as int
        } else {
            0
        };
        let a2 = if a.len() > 2 {
            a[2] as int
        } else {
            0
        };
        let b1 = if b.len() > 1 {
            b[1] as int
        } else {
            0
        };
        let b2 = if b.len() > 2 {
            b[2] as int
        } else {
            0
        };
        assert(s[0] == base64_symbol(a[0] as int / 4));
        assert(s[0] == base64_symbol(b[0] as int / 4));
        lemma_symbol(a[0] as int / 4, b[0] as int / 4);
        assert(s[1] == base64_symbol((a[0] as int % 4) * 16 + a1 / 16));
        assert(s[1] == base64_symbol((b[0] as int % 4) * 16 + b1 / 16));
        lemma_symbol((a[0] as int % 4) * 16 + a1 / 16, (b[0] as int % 4) * 16 + b1 / 16);
        lemma_symbol((a1 % 16) * 4 + a2 / 64, (a1 % 16) * 4 + a2 / 64);
        lemma_symbol((b1 % 16) * 4 + b2 / 64, (b1 % 16) * 4 + b2 / 64);
        lemma_symbol(a2 % 64, a2 % 64);
        lemma_symbol(b2 % 64, b2 % 64);
        if a.len() > 1 {
            assert(s[2] == base64_symbol((a1 % 16) * 4 + a2 / 64));
        } else {
            assert(s[2] == '=');
        }
        if b.len() > 1 {
            assert(s[2] == base64_symbol((b1 % 16) * 4 + b2 / 64));
        } else {
            assert(s[2] == '=');
        }
        if a.len() > 2 {
            assert(s[3] == base64_symbol(a2 % 64));
        } else {
            assert(s[3] == '=');
        }
        if b.len() > 2 {
            assert(s[3] == base64_symbol(b2 % 64));
        } else {
            assert(s[3] == '=');
        }
        if a.len() > 1 {
            lemma_symbol((a1 % 16) * 4 + a2 / 64, (b1 % 16) * 4 + b2 / 64);
        }
        if a.len() > 2 {
            lemma_symbol(a2 % 64, b2 % 64);
            assert(base64(a).skip(4) =~= base64(a.skip(3)));
            assert(base64(b).skip(4) =~= base64(b.skip(3)));
            law_base64_is_unique(a.skip(3), b.skip(3));
            assert(a =~= a.take(3) + a.skip(3));
            assert(b =~= b.take(3) + b.skip(3));
            assert(a.take(3) =~= b.take(3));
        } else {
            assert(a =~= b);
        }
    }
}

/// Decoding a base64 text gives back the bytes that it was made of.
pub proof fn law_base64_round_trip(b: Seq<u8>)
    ensures
        decoded(base64(b)) == b,
{
    law_base64_is_unique(decoded(base64(b)), b);
}

} // verus!
