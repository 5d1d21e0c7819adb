//! What is read from addresses, and where mail for an address goes, stated on the address and the
//! routing table.
use vstd::prelude::*;
use vstd::utf8::is_ascii_chars;

use crate::api::{bearer_of, sender_address, sender_domain};
use crate::crypto::message_text;
use crate::forward::{
    alias_parts, carries_mark, head, loop_mark, mailbox_parts, planned_by, PlanText, RelaySettings,
};
use crate::mail::{incoming, MailboxText};
use crate::routes::{lemma_exact, lemma_exact_none, lemma_loose, lemma_loose_none, table};
use crate::text::{
    fold_case, in_class, is_white_space, last_of, lowercase, same_ignoring_case, trim, trimmed,
    trimmed_end, trimmed_start, Class,
};
use crate::text_laws::{
    all_in, is_trim, law_last_of, law_lowercase, law_split_once, law_trim_of_trim, law_trimmed,
    law_trimmed_end, law_trimmed_parts,
};

verus! {

/// Whether there is no white space and no angle bracket in `s`.
pub open spec fn is_solid(s: Seq<char>) -> bool {
    forall|i: int|
        0 <= i < s.len() ==> !is_white_space(#[trigger] s[i]) && s[i] != '<' && s[i] != '>'
}

/// Whether there is no capital ASCII letter in `s`.
pub open spec fn has_no_capitals(s: Seq<char>) -> bool {
    forall|i: int| 0 <= i < s.len() ==> !('A' <= #[trigger] s[i] <= 'Z')
}

// ---------------------------------------------------------------------------------------------
// Reading an address
// ---------------------------------------------------------------------------------------------

/// Trimming what stands before and after a text that is not trimmed itself leaves an end of what
/// stands before it.
proof fn lemma_kept(x: Seq<char>, m: Seq<char>, b: Seq<char>, k: Class) -> (q: Seq<char>)
    requires
        m.len() > 0,
        is_trim(m, k),
        all_in(b, k),
    ensures
        trimmed(x + m + b, k) == q + m,
        q.len() <= x.len(),
        q == x.skip(x.len() - q.len()),
        q.len() > 0 ==> !in_class(k, q[0]),
    decreases x.len(),
{
    if x.len() > 0 && in_class(k, x[0]) {
        let rest = x.skip(1);
        let s = x + m + b;
        assert(s[0] == x[0]);
        assert(s.skip(1) =~= rest + m + b);
        assert(trimmed_start(s, k) == trimmed_start(s.skip(1), k));
        let q = lemma_kept(rest, m, b, k);
        assert(q =~= x.skip(x.len() - q.len()));
        q
    } else {
        assert(Seq::<char>::empty() + (x + m) + b =~= x + m + b);
        assert((x + m).last() == m.last());
        assert(x.len() > 0 ==> (x + m)[0] == x[0]);
        assert(x.len() == 0 ==> (x + m)[0] == m[0]);
        law_trimmed(Seq::empty(), x + m, b, k);
        assert(x.skip(0) =~= x);
        x
    }
}

/// The address after the last angle bracket and white space, or the whole text where there is no
/// bracket.
proof fn lemma_after_last_angle(q: Seq<char>, w: Seq<char>, addr: Seq<char>)
    requires
        is_solid(addr),
        addr.contains('@'),
        all_in(w, Class::White),
    ensures
        mailbox_parts(q + seq!['<'] + w + addr).1 == addr,
        mailbox_parts(addr).1 == addr,
{
    lemma_solid(addr);
    law_last_of(Seq::empty(), addr, '<');
    let tail = w + addr;
    let s = q + seq!['<'] + w + addr;
    assert(s =~= q + seq!['<'] + tail);
    lemma_no_angle(w, addr);
    law_last_of(q, tail, '<');
    assert(s.skip(q.len() as int + 1) =~= tail);
    assert(tail.last() == addr.last());
    law_trimmed_end(tail, Seq::empty(), Class::CloseAngle);
    assert(tail + Seq::<char>::empty() =~= tail);
    law_trimmed(w, addr, Seq::empty(), Class::White);
    assert(w + addr + Seq::<char>::empty() =~= tail);
}

/// White space and an address hold no opening bracket.
proof fn lemma_no_angle(w: Seq<char>, addr: Seq<char>)
    requires
        is_solid(addr),
        all_in(w, Class::White),
    ensures
        !(w + addr).contains('<'),
{
    let tail = w + addr;
    if tail.contains('<') {
        let i = choose|i: int| 0 <= i < tail.len() && tail[i] == '<';
        if i < w.len() {
            assert(in_class(Class::White, w[i]));
        } else {
            assert(addr[i - w.len()] == '<');
        }
    }
}

/// A text without white space and angle brackets is not changed by trimming of them.
proof fn lemma_solid(s: Seq<char>)
    requires
        is_solid(s),
    ensures
        trim(s) == s,
        trimmed_end(s, Class::CloseAngle) == s,
        !s.contains('<'),
        !s.contains('>'),
        is_trim(s, Class::White),
        is_trim(s, Class::Angle),
{
    law_trim_of_trim(s);
    assert(s + Seq::<char>::empty() =~= s);
    law_trimmed_end(s, Seq::empty(), Class::CloseAngle);
}

/// What stands before an address: white space, after an opening bracket and other text or alone.
spec fn lead(angled: bool, y: Seq<char>, w: Seq<char>) -> Seq<char> {
    if angled {
        y + seq!['<'] + w
    } else {
        w
    }
}

/// What is left of that, without white space at its start, is nothing or has the bracket in it.
proof fn lemma_lead(angled: bool, y: Seq<char>, w: Seq<char>, q: Seq<char>)
    requires
        all_in(w, Class::White),
        q.len() <= lead(angled, y, w).len(),
        q == lead(angled, y, w).skip(lead(angled, y, w).len() - q.len()),
        q.len() > 0 ==> !in_class(Class::White, q[0]),
    ensures
        q.len() > 0 ==> q.len() > w.len() && q == q.take(q.len() - w.len() - 1) + seq!['<'] + w,
{
    if q.len() > 0 {
        let x = lead(angled, y, w);
        if q.len() <= w.len() {
            assert(q[0] == x[x.len() - q.len()]);
            assert(x[x.len() - q.len()] == w[w.len() - q.len()]);
        } else {
            assert(q =~= q.take(q.len() - w.len() - 1) + seq!['<'] + w);
        }
    }
}

/// An end of an end of a text is an end of it.
proof fn lemma_end_of_end(x: Seq<char>, q: Seq<char>, r: Seq<char>)
    requires
        q.len() <= x.len(),
        q == x.skip(x.len() - q.len()),
        r.len() <= q.len(),
        r == q.skip(q.len() - r.len()),
    ensures
        r == x.skip(x.len() - r.len()),
{
    assert(r =~= x.skip(x.len() - r.len()));
}

/// The parts of an address that stands between other text, white space and closing brackets.
proof fn lemma_recipient(
    angled: bool,
    y: Seq<char>,
    w: Seq<char>,
    user: Seq<char>,
    domain: Seq<char>,
    v: Seq<char>,
    close: Seq<char>,
    b: Seq<char>,
)
    requires
        all_in(w, Class::White),
        is_solid(user + seq!['@'] + domain),
        !user.contains('@'),
        all_in(v, Class::White),
        all_in(close, Class::CloseAngle),
        close.len() > 0 || v.len() == 0,
        all_in(b, Class::White),
    ensures
        alias_parts(lead(angled, y, w) + (user + seq!['@'] + domain + v + close) + b) == Some(
            (lowercase(user), lowercase(domain)),
        ),
{
    let x = lead(angled, y, w);
    let addr = user + seq!['@'] + domain;
    assert(addr[user.len() as int] == '@');
    assert(addr.contains('@'));
    lemma_solid(addr);
    let m = addr + v + close;
    assert(m[0] == addr[0]);
    assert(close.len() > 0 ==> m.last() == close.last() && in_class(
        Class::CloseAngle,
        close[close.len() - 1],
    ));
    assert(close.len() == 0 ==> m =~= addr);
    let q = lemma_kept(x, m, b, Class::White);
    assert(trim(x + m + b) == q + m);
    let inner = addr + v;
    assert(q + m =~= q + inner + close);
    lemma_inner(addr, v, close);
    let q2 = lemma_kept(q, inner, close, Class::Angle);
    assert(q2 + inner =~= q2 + addr + v);
    let q3 = lemma_kept(q2, addr, v, Class::White);
    lemma_end_of_end(x, q, q2);
    lemma_end_of_end(x, q2, q3);
    lemma_lead(angled, y, w, q3);
    if q3.len() > 0 {
        lemma_after_last_angle(q3.take(q3.len() - w.len() - 1), w, addr);
    } else {
        assert(q3 + addr =~= addr);
        lemma_after_last_angle(Seq::empty(), Seq::empty(), addr);
    }
    law_split_once(user, domain, '@');
}

/// An address with white space after it does not end with a bracket, and closing brackets are
/// brackets.
proof fn lemma_inner(addr: Seq<char>, v: Seq<char>, close: Seq<char>)
    requires
        is_solid(addr),
        addr.len() > 0,
        all_in(v, Class::White),
        all_in(close, Class::CloseAngle),
    ensures
        is_trim(addr + v, Class::Angle),
        all_in(close, Class::Angle),
{
    let inner = addr + v;
    assert(inner[0] == addr[0]);
    if v.len() > 0 {
        assert(inner.last() == v.last());
        assert(in_class(Class::White, v[v.len() - 1]));
    } else {
        assert(inner =~= addr);
    }
    assert forall|i: int| 0 <= i < close.len() implies in_class(
        Class::Angle,
        #[trigger] close[i],
    ) by {
        assert(in_class(Class::CloseAngle, close[i]));
    }
}

/// A recipient's address is read as it is: of an address without white space and angle brackets,
/// what stands before its first `@` is the alias, and what stands after it the domain, but for
/// letter case, whether the address stands alone or in angle brackets after any name, and whatever
/// white space stands around it.
pub proof fn law_recipient(
    name: Seq<char>,
    user: Seq<char>,
    domain: Seq<char>,
    before: Seq<char>,
    after: Seq<char>,
)
    requires
        is_solid(user + "@"@ + domain),
        !user.contains('@'),
        all_in(before, Class::White),
        all_in(after, Class::White),
    ensures
        alias_parts(user + "@"@ + domain) == Some((lowercase(user), lowercase(domain))),
        alias_parts(before + (user + "@"@ + domain) + after) == Some(
            (lowercase(user), lowercase(domain)),
        ),
        alias_parts(name + "<"@ + (user + "@"@ + domain) + ">"@ + after) == Some(
            (lowercase(user), lowercase(domain)),
        ),
        alias_parts(name + "<"@ + before + (user + "@"@ + domain) + after + ">"@) == Some(
            (lowercase(user), lowercase(domain)),
        ),
{
    reveal_strlit("@");
    reveal_strlit("<");
    reveal_strlit(">");
    assert("@"@ =~= seq!['@']);
    let none = Seq::<char>::empty();
    let addr = user + "@"@ + domain;
    lemma_recipient(false, none, none, user, domain, none, none, none);
    assert(none + (addr + none + none) + none =~= addr);
    lemma_recipient(false, none, before, user, domain, none, none, after);
    assert(before + (addr + none + none) + after =~= before + addr + after);
    lemma_recipient(true, name, none, user, domain, none, ">"@, after);
    assert(lead(true, name, none) + (addr + none + ">"@) + after =~= name + "<"@ + addr + ">"@
        + after);
    lemma_recipient(true, name, before, user, domain, after, ">"@, none);
    assert(lead(true, name, before) + (addr + after + ">"@) + none =~= name + "<"@ + before + addr
        + after + ">"@);
}

/// The alias and the domain of a recipient's address in ASCII characters without capitals are
/// exactly what stands before and after its `@`.
pub proof fn law_plain_recipient(user: Seq<char>, domain: Seq<char>)
    requires
        is_solid(user + "@"@ + domain),
        !user.contains('@'),
        is_ascii_chars(user + "@"@ + domain),
        has_no_capitals(user + "@"@ + domain),
    ensures
        alias_parts(user + "@"@ + domain) == Some((user, domain)),
{
    let addr = user + "@"@ + domain;
    law_recipient(Seq::empty(), user, domain, Seq::empty(), Seq::empty());
    lemma_parts_of(user, domain);
    law_lowercase(user);
    law_lowercase(domain);
    assert forall|i: int| 0 <= i < user.len() implies !('A' <= #[trigger] user[i] <= 'Z') by {
        assert(addr[i] == user[i]);
    }
    assert forall|i: int| 0 <= i < domain.len() implies !('A' <= #[trigger] domain[i] <= 'Z') by {
        assert(addr[user.len() + "@"@.len() + i] == domain[i]);
    }
}

/// The parts of an address in ASCII characters are in ASCII characters.
proof fn lemma_parts_of(user: Seq<char>, domain: Seq<char>)
    requires
        is_ascii_chars(user + "@"@ + domain),
    ensures
        is_ascii_chars(user),
        is_ascii_chars(domain),
{
    let addr = user + "@"@ + domain;
    assert forall|i: int| 0 <= i < user.len() implies user[i] == addr[i] by {}
    assert forall|i: int| 0 <= i < domain.len() implies domain[i] == addr[user.len() + "@"@.len()
        + i] by {}
}

/// A recipient without an `@` is no address.
pub proof fn law_no_recipient(s: Seq<char>)
    requires
        !s.contains('@'),
    ensures
        alias_parts(s) is None,
{
    let s1 = lemma_trimmed_lacks(s, Class::White, '@');
    let s2 = lemma_trimmed_lacks(s1, Class::Angle, '@');
    let s3 = lemma_trimmed_lacks(s2, Class::White, '@');
    lemma_trimmed_lacks(s3, Class::White, '@');
    lemma_after_angle_lacks(s3, '@');
    law_split_once(mailbox_parts(s3).1, Seq::empty(), '@');
}

/// What stands after the last opening bracket holds no character that the text does not hold.
proof fn lemma_after_angle_lacks(s: Seq<char>, c: char)
    requires
        !s.contains(c),
    ensures
        last_of(s, '<') >= 0 ==> !trim(
            trimmed_end(s.skip(last_of(s, '<') + 1), Class::CloseAngle),
        ).contains(c),
{
    lemma_last_place(s, '<');
    let i: int = last_of(s, '<');
    if i >= 0 {
        let tail = s.skip(i + 1);
        assert(!tail.contains(c)) by {
            if tail.contains(c) {
                let j = choose|j: int| 0 <= j < tail.len() && tail[j] == c;
                assert(s[i + 1 + j] == c);
            }
        }
        lemma_trimmed_end_lacks(tail, Class::CloseAngle, c);
        lemma_trimmed_lacks(trimmed_end(tail, Class::CloseAngle), Class::White, c);
    }
}

proof fn lemma_last_place(s: Seq<char>, c: char)
    ensures
        -1 <= last_of(s, c) < s.len(),
    decreases s.len(),
{
    if s.len() > 0 && s.last() != c {
        lemma_last_place(s.drop_last(), c);
    }
}

proof fn lemma_trimmed_lacks(s: Seq<char>, k: Class, c: char) -> (t: Seq<char>)
    requires
        !s.contains(c),
    ensures
        t == trimmed(s, k),
        !t.contains(c),
{
    let (a, b) = law_trimmed_parts(s, k);
    let t = trimmed(s, k);
    if t.contains(c) {
        let i = choose|i: int| 0 <= i < t.len() && t[i] == c;
        assert(s[a.len() + i] == c);
    }
    t
}

proof fn lemma_trimmed_end_lacks(s: Seq<char>, k: Class, c: char)
    requires
        !s.contains(c),
    ensures
        !trimmed_end(s, k).contains(c),
    decreases s.len(),
{
    if s.len() > 0 && in_class(k, s.last()) {
        let rest = s.drop_last();
        assert(!rest.contains(c)) by {
            if rest.contains(c) {
                let i = choose|i: int| 0 <= i < rest.len() && rest[i] == c;
                assert(s[i] == c);
            }
        }
        lemma_trimmed_end_lacks(rest, k, c);
    }
}

/// Of a name and an address in angle brackets, both are read as they are; quotes around the name
/// and white space around the address do not belong to them. An address that stands alone has no
/// name, and a text without an `@` is no address with a name.
pub proof fn law_mailbox(name: Seq<char>, addr: Seq<char>, w: Seq<char>, v: Seq<char>, t: Seq<char>)
    requires
        is_solid(addr),
        addr.contains('@'),
        is_trim(name, Class::White),
        is_trim(name, Class::Quote),
        all_in(w, Class::White),
        all_in(v, Class::White),
        !t.contains('@'),
    ensures
        mailbox_parts(name + " <"@ + (w + addr + v) + ">"@) == (name, addr),
        mailbox_parts("\""@ + name + "\" <"@ + (w + addr + v) + ">"@) == (name, addr),
        mailbox_parts(w + addr + v) == (Seq::<char>::empty(), addr),
        mailbox_parts(t) == (Seq::<char>::empty(), trim(t)),
{
    reveal_strlit(" <");
    reveal_strlit(">");
    reveal_strlit("\"");
    reveal_strlit("\" <");
    lemma_solid(addr);
    let none = Seq::<char>::empty();
    let inner = w + addr + v;
    lemma_alone(w, addr, v);
    assert(name + " <"@ + inner + ">"@ =~= (name + seq![' ']) + seq!['<'] + (inner + ">"@));
    assert(none + name + seq![' '] =~= name + seq![' ']);
    law_trimmed(none, name, seq![' '], Class::White);
    assert(none + name + none =~= name);
    law_trimmed(none, name, none, Class::Quote);
    lemma_bracketed(name + seq![' '], w, addr, v);
    let quoted = "\""@ + name + "\""@;
    assert("\""@ + name + "\" <"@ + inner + ">"@ =~= (quoted + seq![' ']) + seq!['<'] + (inner
        + ">"@));
    assert(quoted[0] == '"' && quoted.last() == '"');
    assert(none + quoted + seq![' '] =~= quoted + seq![' ']);
    law_trimmed(none, quoted, seq![' '], Class::White);
    law_trimmed("\""@, name, "\""@, Class::Quote);
    lemma_bracketed(quoted + seq![' '], w, addr, v);
    law_trim_of_trim(name);
    lemma_after_angle_lacks(t, '@');
}

/// An address that stands alone, with white space around it, holds no bracket.
proof fn lemma_alone(w: Seq<char>, addr: Seq<char>, v: Seq<char>)
    requires
        is_solid(addr),
        all_in(w, Class::White),
        all_in(v, Class::White),
    ensures
        !(w + addr + v).contains('<'),
        last_of(w + addr + v, '<') == -1,
        trim(w + addr + v) == addr,
{
    let s = w + addr + v;
    lemma_solid(addr);
    if s.contains('<') {
        let i = choose|i: int| 0 <= i < s.len() && s[i] == '<';
        if i < w.len() {
            assert(in_class(Class::White, w[i]));
        } else if i < w.len() + addr.len() {
            assert(addr[i - w.len()] == '<');
        } else {
            assert(in_class(Class::White, v[i - w.len() - addr.len()]));
        }
    }
    law_last_of(Seq::empty(), s, '<');
    law_trimmed(w, addr, v, Class::White);
}

/// What is read of an address in angle brackets.
proof fn lemma_bracketed(a: Seq<char>, w: Seq<char>, addr: Seq<char>, v: Seq<char>)
    requires
        is_solid(addr),
        addr.contains('@'),
        all_in(w, Class::White),
        all_in(v, Class::White),
    ensures
        mailbox_parts(a + seq!['<'] + (w + addr + v + ">"@)) == (
            trim(trimmed(trim(a), Class::Quote)),
            addr,
        ),
        sender_address(a + seq!['<'] + (w + addr + v + ">"@)) == addr,
{
    reveal_strlit(">");
    lemma_solid(addr);
    let inner = w + addr + v;
    let tail = inner + ">"@;
    let s = a + seq!['<'] + tail;
    lemma_alone(w, addr, v);
    assert(!tail.contains('<')) by {
        if tail.contains('<') {
            let i = choose|i: int| 0 <= i < tail.len() && tail[i] == '<';
            assert(i < inner.len());
            assert(inner[i] == '<');
        }
    }
    law_last_of(a, tail, '<');
    assert(s.skip(a.len() as int + 1) =~= tail);
    assert(s.take(a.len() as int) =~= a);
    assert(inner.last() != '>') by {
        if v.len() > 0 {
            assert(inner.last() == v.last());
            assert(in_class(Class::White, v[v.len() - 1]));
        } else {
            assert(inner.last() == addr.last());
        }
    }
    law_trimmed_end(inner, ">"@, Class::CloseAngle);
}

/// A sender's address is what stands in the last angle brackets, or the whole text where there are
/// none, without the white space around it; its domain is what follows the `@`, in lowercase.
pub proof fn law_sender(
    name: Seq<char>,
    user: Seq<char>,
    domain: Seq<char>,
    w: Seq<char>,
    v: Seq<char>,
)
    requires
        is_solid(user + "@"@ + domain),
        !user.contains('@'),
        all_in(w, Class::White),
        all_in(v, Class::White),
    ensures
        sender_address(name + "<"@ + (user + "@"@ + domain) + ">"@) == user + "@"@ + domain,
        sender_address(name + "<"@ + (w + (user + "@"@ + domain) + v) + ">"@) == user + "@"@
            + domain,
        sender_address(user + "@"@ + domain) == user + "@"@ + domain,
        sender_address(w + (user + "@"@ + domain) + v) == user + "@"@ + domain,
        sender_domain(name + "<"@ + (user + "@"@ + domain) + ">"@) == Some(lowercase(domain)),
        sender_domain(name + "<"@ + (w + (user + "@"@ + domain) + v) + ">"@) == Some(
            lowercase(domain),
        ),
        sender_domain(user + "@"@ + domain) == Some(lowercase(domain)),
        sender_domain(w + (user + "@"@ + domain) + v) == Some(lowercase(domain)),
{
    reveal_strlit("@");
    reveal_strlit("<");
    reveal_strlit(">");
    assert("@"@ =~= seq!['@']);
    let none = Seq::<char>::empty();
    let addr = user + "@"@ + domain;
    assert(addr[user.len() as int] == '@');
    lemma_alone(none, addr, none);
    assert(none + addr + none =~= addr);
    lemma_alone(w, addr, v);
    lemma_bracketed(name, none, addr, none);
    assert(name + "<"@ + addr + ">"@ =~= name + seq!['<'] + (none + addr + none + ">"@));
    lemma_bracketed(name, w, addr, v);
    assert(name + "<"@ + (w + addr + v) + ">"@ =~= name + seq!['<'] + (w + addr + v + ">"@));
    law_split_once(user, domain, '@');
    assert forall|i: int| 0 <= i < domain.len() implies !is_white_space(#[trigger] domain[i]) by {
        assert(addr[user.len() + 1 + i] == domain[i]);
    }
    law_trim_of_trim(domain);
}

/// A sender's address holds no character that the sender does not hold.
pub proof fn lemma_sender_lacks(from: Seq<char>, c: char)
    requires
        !from.contains(c),
    ensures
        !sender_address(from).contains(c),
{
    lemma_trimmed_lacks(from, Class::White, c);
    lemma_after_angle_lacks(from, c);
}

/// The token of an authorization header is what follows the word, without the white space around
/// it; a header that begins with something else has none.
pub proof fn law_bearer(
    token: Seq<char>,
    before: Seq<char>,
    gap: Seq<char>,
    after: Seq<char>,
    other: Seq<char>,
)
    requires
        token.len() > 0,
        is_trim(token, Class::White),
        all_in(before, Class::White),
        all_in(gap, Class::White),
        all_in(after, Class::White),
        other.len() > 0,
        other[0] != 'B' && other[0] != 'b' && !is_white_space(other[0]),
    ensures
        bearer_of("Bearer "@ + token) == Some(token),
        bearer_of("bearer "@ + token) == Some(token),
        bearer_of(before + ("Bearer "@ + gap + token) + after) == Some(token),
        bearer_of(before + ("bearer "@ + gap + token) + after) == Some(token),
        bearer_of("Bearer "@ + before) is None,
        bearer_of(other) is None,
{
    reveal_strlit("Bearer ");
    reveal_strlit("bearer ");
    let none = Seq::<char>::empty();
    lemma_bearer("Bearer "@, none, none, token, none);
    assert(none + ("Bearer "@ + none + token) + none =~= "Bearer "@ + token);
    lemma_bearer("bearer "@, none, none, token, none);
    assert(none + ("bearer "@ + none + token) + none =~= "bearer "@ + token);
    lemma_bearer("Bearer "@, before, gap, token, after);
    lemma_bearer("bearer "@, before, gap, token, after);
    lemma_no_token(before);
    let h = trim(other);
    lemma_first_kept(other);
    assert(h[0] == other[0]);
    if "Bearer "@.is_prefix_of(h) {
        assert(h.subrange(0, 7)[0] == h[0]);
    }
    if "bearer "@.is_prefix_of(h) {
        assert(h.subrange(0, 7)[0] == h[0]);
    }
}

proof fn lemma_first_kept(s: Seq<char>)
    requires
        s.len() > 0,
        !is_white_space(s[0]),
    ensures
        trim(s).len() > 0,
        trim(s)[0] == s[0],
{
    let (a, b) = law_trimmed_parts(s, Class::White);
    let t = trim(s);
    if a.len() > 0 {
        assert(s[0] == a[0]);
        assert(in_class(Class::White, a[0]));
    } else if t.len() == 0 {
        assert(s[0] == b[0]);
        assert(in_class(Class::White, b[0]));
    }
}

proof fn lemma_no_token(white: Seq<char>)
    requires
        all_in(white, Class::White),
    ensures
        bearer_of("Bearer "@ + white) is None,
{
    reveal_strlit("Bearer ");
    reveal_strlit("bearer ");
    let word = seq!['B', 'e', 'a', 'r', 'e', 'r'];
    let rest = seq![' '] + white;
    assert("Bearer "@ + white =~= Seq::<char>::empty() + word + rest);
    assert forall|i: int| 0 <= i < rest.len() implies in_class(Class::White, #[trigger] rest[i]) by {
        if i > 0 {
            assert(rest[i] == white[i - 1]);
        }
    }
    law_trimmed(Seq::empty(), word, rest, Class::White);
    assert(trim("Bearer "@ + white) == word);
}

proof fn lemma_bearer(
    word: Seq<char>,
    before: Seq<char>,
    gap: Seq<char>,
    token: Seq<char>,
    after: Seq<char>,
)
    requires
        word == "Bearer "@ || word == "bearer "@,
        token.len() > 0,
        is_trim(token, Class::White),
        all_in(before, Class::White),
        all_in(gap, Class::White),
        all_in(after, Class::White),
    ensures
        bearer_of(before + (word + gap + token) + after) == Some(token),
{
    reveal_strlit("Bearer ");
    reveal_strlit("bearer ");
    let m = word + gap + token;
    assert(m[0] == word[0]);
    assert(m.last() == token.last());
    law_trimmed(before, m, after, Class::White);
    assert(word.is_prefix_of(m)) by {
        assert(m.subrange(0, 7) =~= word);
    }
    assert(m.skip(7) =~= gap + token + Seq::<char>::empty());
    law_trimmed(gap, token, Seq::empty(), Class::White);
}

// ---------------------------------------------------------------------------------------------
// Routing
// ---------------------------------------------------------------------------------------------

/// Whether a message is for an address and is not dropped as one that has been relayed already.
pub open spec fn is_mail_for(raw: Seq<u8>, s: RelaySettings, addr: Seq<char>) -> bool {
    &&& incoming(raw) matches Some(m) && m.to matches Some(to) && to.address == Some(addr)
    &&& !carries_mark(head(message_text(raw)), loop_mark(s.relay_domain@, s.loop_salt@))
}

/// The key by which an address is looked up differs from it in letter case only.
proof fn lemma_key(user: Seq<char>, domain: Seq<char>)
    requires
        is_ascii_chars(user + "@"@ + domain),
    ensures
        lowercase(user) + "@"@ + lowercase(domain) == fold_case(user + "@"@ + domain),
        same_ignoring_case(lowercase(user) + "@"@ + lowercase(domain), user + "@"@ + domain),
{
    reveal_strlit("@");
    lemma_parts_of(user, domain);
    let addr = user + "@"@ + domain;
    assert(lowercase(user) + "@"@ + lowercase(domain) =~= fold_case(addr));
    assert(fold_case(fold_case(addr)) =~= fold_case(addr));
}

/// Mail whose To address is, but for letter case, a key of the routing table goes to that key's
/// destinations, whatever the catch-all, and nowhere where the key has none. Of several such keys
/// the first counts, unless a later one is the address in lowercase.
pub proof fn law_mail_for_a_key(
    raw: Seq<u8>,
    s: RelaySettings,
    user: Seq<char>,
    domain: Seq<char>,
    i: int,
)
    requires
        is_mail_for(raw, s, user + "@"@ + domain),
        is_solid(user + "@"@ + domain),
        is_ascii_chars(user + "@"@ + domain),
        !user.contains('@'),
        0 <= i < s.routes@.len(),
        same_ignoring_case(s.routes@[i].0@, user + "@"@ + domain),
        forall|j: int|
            0 <= j < i ==> !same_ignoring_case((#[trigger] s.routes@[j]).0@, user + "@"@ + domain),
        forall|j: int|
            i < j < s.routes@.len() ==> (#[trigger] s.routes@[j]).0@ != fold_case(
                user + "@"@ + domain,
            ),
    ensures
        s.routes@[i].1@.len() > 0 ==> (planned_by(raw, s) matches Ok(Some(plan))
            && plan.destinations.len() == s.routes@[i].1@.len() && forall|k: int|
            0 <= k < s.routes@[i].1@.len() ==> #[trigger] plan.destinations[k]
                == s.routes@[i].1@[k]@),
        s.routes@[i].1@.len() == 0 ==> planned_by(raw, s) == Err::<Option<PlanText>, Seq<char>>(
            "no route for recipient and no catch-all"@,
        ),
{
    let addr = user + "@"@ + domain;
    let t = table(s.routes@);
    let key = lowercase(user) + "@"@ + lowercase(domain);
    law_recipient(Seq::empty(), user, domain, Seq::empty(), Seq::empty());
    lemma_key(user, domain);
    assert forall|j: int| 0 <= j < i implies !same_ignoring_case((#[trigger] t[j]).0, key)
        && t[j].0 != key by {
        assert(!same_ignoring_case(s.routes@[j].0@, addr));
    }
    lemma_loose(t, key, i);
    if t[i].0 == key {
        lemma_exact(t, key, i);
    } else {
        assert forall|j: int| 0 <= j < t.len() implies (#[trigger] t[j]).0 != key by {
            if j > i {
                assert(s.routes@[j].0@ != fold_case(addr));
            }
        }
        lemma_exact_none(t, key);
    }
    assert(t[i].1.len() == s.routes@[i].1@.len());
}

/// Mail whose To address in lowercase is itself a key of the routing table goes to that key's
/// destinations, whatever other keys differ from it in letter case.
pub proof fn law_mail_for_an_exact_key(
    raw: Seq<u8>,
    s: RelaySettings,
    user: Seq<char>,
    domain: Seq<char>,
    i: int,
)
    requires
        is_mail_for(raw, s, user + "@"@ + domain),
        is_solid(user + "@"@ + domain),
        !user.contains('@'),
        0 <= i < s.routes@.len(),
        s.routes@[i].1@.len() > 0,
        s.routes@[i].0@ == lowercase(user) + "@"@ + lowercase(domain),
        forall|j: int|
            0 <= j < i ==> (#[trigger] s.routes@[j]).0@ != lowercase(user) + "@"@ + lowercase(
                domain,
            ),
    ensures
        planned_by(raw, s) matches Ok(Some(plan)) && plan.destinations.len()
            == s.routes@[i].1@.len() && forall|k: int|
            0 <= k < s.routes@[i].1@.len() ==> #[trigger] plan.destinations[k]
                == s.routes@[i].1@[k]@,
{
    let addr = lowercase(user) + "@"@ + lowercase(domain);
    let t = table(s.routes@);
    law_recipient(Seq::empty(), user, domain, Seq::empty(), Seq::empty());
    assert forall|j: int| 0 <= j < i implies (#[trigger] t[j]).0 != addr by {
        assert(s.routes@[j].0@ != addr);
    }
    lemma_exact(t, addr, i);
    assert(t[i].1.len() > 0);
}

/// Mail for an address that is no key of the routing table, in any letter case, goes to the
/// catch-all address alone, and nowhere where there is none.
pub proof fn law_mail_for_no_key(
    raw: Seq<u8>,
    s: RelaySettings,
    user: Seq<char>,
    domain: Seq<char>,
)
    requires
        is_mail_for(raw, s, user + "@"@ + domain),
        is_solid(user + "@"@ + domain),
        is_ascii_chars(user + "@"@ + domain),
        !user.contains('@'),
        forall|j: int|
            0 <= j < s.routes@.len() ==> !same_ignoring_case(
                (#[trigger] s.routes@[j]).0@,
                user + "@"@ + domain,
            ),
    ensures
        match s.catch_all {
            Some(c) => if c@.len() > 0 {
                planned_by(raw, s) matches Ok(Some(plan)) && plan.destinations == seq![c@]
            } else {
                planned_by(raw, s) == Err::<Option<PlanText>, Seq<char>>(
                    "no route for recipient and no catch-all"@,
                )
            },
            None => planned_by(raw, s) == Err::<Option<PlanText>, Seq<char>>(
                "no route for recipient and no catch-all"@,
            ),
        },
{
    let addr = user + "@"@ + domain;
    let t = table(s.routes@);
    let key = lowercase(user) + "@"@ + lowercase(domain);
    law_recipient(Seq::empty(), user, domain, Seq::empty(), Seq::empty());
    lemma_key(user, domain);
    assert forall|j: int| 0 <= j < t.len() implies !same_ignoring_case((#[trigger] t[j]).0, key)
        && t[j].0 != key by {
        assert(!same_ignoring_case(s.routes@[j].0@, addr));
    }
    lemma_loose_none(t, key);
    lemma_exact_none(t, key);
}

/// What is planned for mail is noted under the alias and the domain of its To address.
pub proof fn law_plan_names_the_alias(
    raw: Seq<u8>,
    s: RelaySettings,
    user: Seq<char>,
    domain: Seq<char>,
)
    requires
        is_mail_for(raw, s, user + "@"@ + domain),
        is_solid(user + "@"@ + domain),
        !user.contains('@'),
    ensures
        planned_by(raw, s) matches Ok(Some(plan)) ==> {
            &&& plan.alias == lowercase(user)
            &&& plan.domain == lowercase(domain)
            &&& plan.original_to == user + "@"@ + domain
            &&& plan.loop_value == loop_mark(s.relay_domain@, s.loop_salt@)
        },
{
    law_recipient(Seq::empty(), user, domain, Seq::empty(), Seq::empty());
}

/// Whatever mail is relayed, what is noted of it is what it says itself: the sender's address and
/// name, the recipient's address and the subject, each empty where it is missing.
pub proof fn law_plan_tells_of_the_message(raw: Seq<u8>, s: RelaySettings)
    ensures
        planned_by(raw, s) matches Ok(Some(plan)) ==> incoming(raw) matches Some(m) && {
            &&& plan.subject == (match m.subject {
                Some(t) => t,
                None => Seq::empty(),
            })
            &&& plan.original_to == (match m.to {
                Some(MailboxText { address: Some(a), .. }) => a,
                _ => Seq::empty(),
            })
            &&& plan.original_from == (match m.from {
                Some(MailboxText { address: Some(a), .. }) => a,
                _ => Seq::empty(),
            })
            &&& plan.original_from_name == (match m.from {
                Some(MailboxText { name: Some(n), .. }) => n,
                _ => Seq::empty(),
            })
        },
{
}

/// A message that cannot be read, or that is for no address, is not relayed, and it is said why
/// unless it is dropped.
pub proof fn law_no_plan(raw: Seq<u8>, s: RelaySettings)
    requires
        incoming(raw) matches Some(m) ==> (m.to matches Some(to) && to.address matches Some(a)
            ==> !a.contains('@')),
    ensures
        !(planned_by(raw, s) matches Ok(Some(_))),
        planned_by(raw, s) matches Err(e) ==> e == (if incoming(raw) is None {
            "mime parse failed"@
        } else {
            "no routable To header"@
        }),
{
    if let Some(m) = incoming(raw) {
        law_no_recipient(Seq::empty());
        if let Some(to) = m.to {
            if let Some(a) = to.address {
                law_no_recipient(a);
            }
        }
    }
}

} // verus!
