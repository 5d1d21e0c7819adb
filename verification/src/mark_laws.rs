//! The mark by which a relay knows its own messages: other relays have other marks, and mail that
//! does not carry the mark is not dropped.
use vstd::prelude::*;
use vstd::utf8::{encode_utf8, is_ascii_chars, is_ascii_chars_encode_utf8};

use crate::crypto::{hex_digit, hex_number, message_text};
use crate::forward::{
    carries_mark, djb2, head, loop_mark, marks_loop, planned_by, PlanText, RelaySettings,
    LOOP_HEADER,
};
use crate::text::{
    before_gap, first_of, fold_case, has_empty_line, has_text, is_gap, lemma_first_of,
    lemma_next_gap, lemma_replace_after, lemma_replace_whole, lines, next_gap, replace,
    same_ignoring_case, stands_at, trim, without_cr, Class,
};
use crate::text_laws::{is_trim, law_trim_of_trim, law_trimmed_parts, lemma_line};

verus! {

// ---------------------------------------------------------------------------------------------
// Different marks
// ---------------------------------------------------------------------------------------------

/// How many numbers have so many hexadecimal digits.
spec fn hex_limit(width: nat) -> nat
    decreases width,
{
    if width == 0 {
        1
    } else {
        16 * hex_limit((width - 1) as nat)
    }
}

/// Two numbers with the same hexadecimal digits are the same.
proof fn lemma_same_digits(a: nat, b: nat, width: nat)
    requires
        a < hex_limit(width),
        b < hex_limit(width),
        hex_number(a, width) == hex_number(b, width),
    ensures
        a == b,
    decreases width,
{
    if width > 0 {
        let n = (width - 1) as nat;
        let x = hex_number(a, width);
        let y = hex_number(b, width);
        assert(x.drop_last() =~= hex_number(a / 16, n));
        assert(y.drop_last() =~= hex_number(b / 16, n));
        assert(x.last() == hex_digit(a as int % 16));
        assert(y.last() == hex_digit(b as int % 16));
        lemma_same_digits(a / 16, b / 16, n);
    }
}

/// One step of the hash leads from different values to different ones.
proof fn lemma_step(g: nat, h: nat, b: nat)
    requires
        g < 0x1_0000_0000_0000_0000,
        h < 0x1_0000_0000_0000_0000,
        (g * 33 + b) % 0x1_0000_0000_0000_0000 == (h * 33 + b) % 0x1_0000_0000_0000_0000,
    ensures
        g == h,
{
    let m: int = 0x1_0000_0000_0000_0000;
    let x: int = g - h;
    let k: int = (g * 33 + b) as int / m - (h * 33 + b) as int / m;
    assert(33 * x == k * m);
    let y: int = 1117984489315730401 * k - 2 * x;
    assert(x == m * y) by (nonlinear_arith)
        requires
            33 * x == k * m,
            y == 1117984489315730401 * k - 2 * x,
            m == 0x1_0000_0000_0000_0000,
    ;
    assert(-m < x < m);
    assert(y == 0);
}

/// Two byte texts of one length that differ in one byte have different hashes.
proof fn lemma_hashes_differ(a: Seq<u8>, b: Seq<u8>, k: int)
    requires
        a.len() == b.len(),
        0 <= k < a.len(),
        a[k] != b[k],
        forall|i: int| 0 <= i < a.len() && i != k ==> a[i] == b[i],
    ensures
        djb2(a) != djb2(b),
    decreases a.len(),
{
    let x = a.drop_last();
    let y = b.drop_last();
    lemma_hash_range(x);
    lemma_hash_range(y);
    if k == a.len() - 1 {
        assert(x =~= y);
        let h = djb2(x);
        let m: int = 0x1_0000_0000_0000_0000;
        let p: int = (h * 33 + a.last() as nat) as int;
        let q: int = (h * 33 + b.last() as nat) as int;
        assert(-256 < p - q < 256);
        assert(p - q == a.last() - b.last());
        assert(p % m != q % m);
    } else {
        assert(a.last() == b.last());
        lemma_hashes_differ(x, y, k);
        if djb2(a) == djb2(b) {
            lemma_step(djb2(x), djb2(y), a.last() as nat);
        }
    }
}

proof fn lemma_hash_range(b: Seq<u8>)
    ensures
        djb2(b) < 0x1_0000_0000_0000_0000,
{
}

proof fn lemma_texts_differ(a: Seq<char>, b: Seq<char>, k: int)
    requires
        is_ascii_chars(a),
        is_ascii_chars(b),
        a.len() == b.len(),
        0 <= k < a.len(),
        a[k] != b[k],
        forall|i: int| 0 <= i < a.len() && i != k ==> a[i] == b[i],
    ensures
        hex_number(djb2(encode_utf8(a)), 16) != hex_number(djb2(encode_utf8(b)), 16),
{
    is_ascii_chars_encode_utf8(a);
    is_ascii_chars_encode_utf8(b);
    let x = encode_utf8(a);
    let y = encode_utf8(b);
    assert(x[k] != y[k]);
    lemma_hashes_differ(x, y, k);
    lemma_hash_range(x);
    lemma_hash_range(y);
    assert(hex_limit(16) == 0x1_0000_0000_0000_0000) by {
        reveal_with_fuel(hex_limit, 17);
    }
    if hex_number(djb2(x), 16) == hex_number(djb2(y), 16) {
        lemma_same_digits(djb2(x), djb2(y), 16);
    }
}

/// The mark depends on every character of the domain and of the salt: where two domains, or two
/// salts, differ in one character, the marks differ.
pub proof fn law_marks_differ(a: Seq<char>, b: Seq<char>, other: Seq<char>, k: int)
    requires
        is_ascii_chars(a),
        is_ascii_chars(b),
        is_ascii_chars(other),
        a.len() == b.len(),
        0 <= k < a.len(),
        a[k] != b[k],
        forall|i: int| 0 <= i < a.len() && i != k ==> a[i] == b[i],
    ensures
        loop_mark(a, other) != loop_mark(b, other),
        loop_mark(other, a) != loop_mark(other, b),
{
    reveal_strlit(":");
    let x = other + ":"@ + a;
    let y = other + ":"@ + b;
    assert(x[other.len() + 1 + k] == a[k]);
    assert(y[other.len() + 1 + k] == b[k]);
    lemma_texts_differ(x, y, other.len() + 1 + k);
    let v = a + ":"@ + other;
    let w = b + ":"@ + other;
    lemma_texts_differ(v, w, k);
}

/// The mark is sixteen hexadecimal digits.
pub proof fn law_mark_shape(domain: Seq<char>, salt: Seq<char>)
    ensures
        loop_mark(domain, salt).len() == 16,
        forall|i: int|
            0 <= i < 16 ==> '0' <= #[trigger] loop_mark(domain, salt)[i] <= '9' || 'a'
                <= loop_mark(domain, salt)[i] <= 'f',
{
    lemma_digits(djb2(encode_utf8(salt + ":"@ + domain)), 16);
}

proof fn lemma_digits(n: nat, width: nat)
    ensures
        hex_number(n, width).len() == width,
        forall|i: int|
            0 <= i < width ==> '0' <= #[trigger] hex_number(n, width)[i] <= '9' || 'a'
                <= hex_number(n, width)[i] <= 'f',
    decreases width,
{
    if width > 0 {
        lemma_digits(n / 16, (width - 1) as nat);
    }
}

// ---------------------------------------------------------------------------------------------
// Mail without the mark
// ---------------------------------------------------------------------------------------------

proof fn lemma_part_of_part(s: Seq<char>, t: Seq<char>, pat: Seq<char>)
    requires
        has_text(s, t),
        has_text(t, pat),
    ensures
        has_text(s, pat),
{
    let i = choose|i: int| stands_at(s, t, i);
    let j = choose|j: int| stands_at(t, pat, j);
    assert(s.subrange(i + j, i + j + pat.len()) =~= s.subrange(i, i + t.len()).subrange(
        j,
        j + pat.len(),
    ));
    assert(stands_at(s, pat, i + j));
}

proof fn lemma_middle(a: Seq<char>, m: Seq<char>, b: Seq<char>)
    ensures
        has_text(a + m + b, m),
{
    assert((a + m + b).subrange(a.len() as int, (a.len() + m.len()) as int) =~= m);
    assert(stands_at(a + m + b, m, a.len() as int));
}

/// Each line of a text stands in it.
proof fn lemma_lines_stand(s: Seq<char>, i: int)
    requires
        0 <= i < lines(s).len(),
    ensures
        has_text(s, lines(s)[i]),
    decreases s.len(),
{
    lemma_first_of(s, '\n');
    let k: int = first_of(s, '\n');
    let none = Seq::<char>::empty();
    if k < s.len() {
        let a = s.take(k);
        let rest = s.skip(k + 1);
        assert(lines(s) == seq![without_cr(a)] + lines(rest));
        if i == 0 {
            let l = without_cr(a);
            assert(s =~= none + l + s.skip(l.len() as int));
            lemma_middle(none, l, s.skip(l.len() as int));
        } else {
            assert(lines(s)[i] == lines(rest)[i - 1]);
            lemma_lines_stand(rest, i - 1);
            assert(s =~= s.take(k + 1) + rest + none);
            lemma_middle(s.take(k + 1), rest, none);
            lemma_part_of_part(s, rest, lines(rest)[i - 1]);
        }
    } else {
        assert(lines(s) == seq![s]);
        assert(s =~= none + s + none);
        lemma_middle(none, s, none);
    }
}

/// Other line ends, after a line that does not hold one.
proof fn lemma_line_replaced(a: Seq<char>, rest: Seq<char>)
    requires
        !a.contains('\n'),
    ensures
        replace(a + seq!['\n'] + rest, "\n"@, "\r\n"@) == a.push('\r') + seq!['\n'] + replace(
            rest,
            "\n"@,
            "\r\n"@,
        ),
{
    reveal_strlit("\n");
    reveal_strlit("\r\n");
    let tail = "\n"@ + rest;
    assert(a + seq!['\n'] + rest =~= a + tail);
    assert forall|i: int| 0 <= i < a.len() implies a[i] != "\n"@[0] by {
        assert(a.contains(a[i]));
    }
    lemma_replace_after(a, tail, "\n"@, "\r\n"@);
    assert("\n"@.is_prefix_of(tail)) by {
        assert(tail.subrange(0, 1) =~= "\n"@);
    }
    assert(tail.skip(1) =~= rest);
    let r = replace(rest, "\n"@, "\r\n"@);
    assert(a + ("\r\n"@ + r) =~= a.push('\r') + seq!['\n'] + r);
}

/// Without CR LF in a text there is none after its first line, and that does not end with a
/// carriage return.
proof fn lemma_no_break(a: Seq<char>, rest: Seq<char>)
    requires
        !has_text(a + seq!['\n'] + rest, "\r\n"@),
    ensures
        !has_text(rest, "\r\n"@),
        without_cr(a) == a,
{
    reveal_strlit("\r\n");
    let h = a + seq!['\n'] + rest;
    if has_text(rest, "\r\n"@) {
        let none = Seq::<char>::empty();
        assert(h =~= a.push('\n') + rest + none);
        lemma_middle(a.push('\n'), rest, none);
        lemma_part_of_part(h, rest, "\r\n"@);
    }
    if a.len() > 0 && a.last() == '\r' {
        let k: int = a.len() as int;
        assert(h.subrange(k - 1, k + 1) =~= "\r\n"@);
        assert(stands_at(h, "\r\n"@, k - 1));
    }
}

/// Other line ends do not change the lines.
proof fn lemma_same_lines(h: Seq<char>)
    requires
        !has_text(h, "\r\n"@),
    ensures
        lines(replace(h, "\n"@, "\r\n"@)) == lines(h),
    decreases h.len(),
{
    lemma_first_of(h, '\n');
    let k: int = first_of(h, '\n');
    if k < h.len() {
        let a = h.take(k);
        let rest = h.skip(k + 1);
        assert(h =~= a + seq!['\n'] + rest);
        assert forall|j: int| 0 <= j < a.len() implies a[j] != '\n' by {
            assert(h[j] == a[j]);
        }
        lemma_no_break(a, rest);
        lemma_same_lines(rest);
        lemma_same_first_line(a, rest);
    } else {
        reveal_strlit("\n");
        assert forall|i: int| 0 <= i < h.len() implies h[i] != "\n"@[0] by {
            assert(h[i] != '\n');
        }
        lemma_replace_whole(h, "\n"@, "\r\n"@);
    }
}

proof fn lemma_same_first_line(a: Seq<char>, rest: Seq<char>)
    requires
        forall|j: int| 0 <= j < a.len() ==> a[j] != '\n',
        without_cr(a) == a,
        lines(replace(rest, "\n"@, "\r\n"@)) == lines(rest),
    ensures
        lines(replace(a + seq!['\n'] + rest, "\n"@, "\r\n"@)) == lines(a + seq!['\n'] + rest),
{
    let b = a.push('\r');
    lemma_line_replaced(a, rest);
    lemma_line(b, replace(rest, "\n"@, "\r\n"@));
    lemma_line(a, rest);
    assert(without_cr(b) =~= a);
}

/// Each line of a message's header section stands in the message.
proof fn lemma_header_lines(text: Seq<char>, i: int)
    requires
        0 <= i < lines(head(text)).len(),
    ensures
        has_text(text, lines(head(text))[i]),
{
    let h = before_gap(text);
    if h.contains('\n') && !has_text(h, "\r\n"@) {
        lemma_same_lines(h);
    }
    lemma_lines_stand(h, i);
    let none = Seq::<char>::empty();
    lemma_next_gap(text, 0);
    assert(text =~= none + h + text.skip(h.len() as int));
    lemma_middle(none, h, text.skip(h.len() as int));
    lemma_part_of_part(text, h, lines(h)[i]);
}

/// A line that is the loop header with the mark holds the mark.
proof fn lemma_line_holds_mark(line: Seq<char>, mark: Seq<char>)
    requires
        marks_loop(line, mark),
    ensures
        has_text(line, mark),
{
    let (a, b) = law_trimmed_parts(line, Class::White);
    let l = trim(line);
    let n = LOOP_HEADER@.len() as int;
    let none = Seq::<char>::empty();
    lemma_middle(a, l, b);
    assert(l =~= l.take(n) + l.skip(n) + none);
    lemma_middle(l.take(n), l.skip(n), none);
    lemma_part_of_part(l, l.skip(n), mark);
    lemma_part_of_part(line, l, mark);
}

/// A line that is the loop header holds the header's name, in some letter case.
proof fn lemma_line_holds_name(line: Seq<char>, mark: Seq<char>)
    requires
        marks_loop(line, mark),
    ensures
        has_text(fold_case(line), fold_case(LOOP_HEADER@)),
{
    let (a, b) = law_trimmed_parts(line, Class::White);
    let l = trim(line);
    let n = LOOP_HEADER@.len() as int;
    let name = l.take(n);
    let tail = l.skip(n) + b;
    assert(line =~= a + name + tail);
    assert(fold_case(line) =~= fold_case(a) + fold_case(name) + fold_case(tail));
    lemma_middle(fold_case(a), fold_case(name), fold_case(tail));
}

/// Mail is dropped for no other reason than the loop header with the relay's own mark: a message
/// that the name of the header, in any letter case, or the mark does not occur in is not dropped.
pub proof fn law_other_mail_is_not_dropped(text: Seq<char>, mark: Seq<char>)
    requires
        !has_text(fold_case(text), fold_case(LOOP_HEADER@)) || !has_text(text, mark),
    ensures
        !carries_mark(head(text), mark),
{
    if carries_mark(head(text), mark) {
        let ls = lines(head(text));
        let i = choose|i: int| 0 <= i < ls.len() && marks_loop(#[trigger] ls[i], mark);
        lemma_header_lines(text, i);
        lemma_line_holds_mark(ls[i], mark);
        lemma_line_holds_name(ls[i], mark);
        lemma_part_of_part(text, ls[i], mark);
        let k = choose|k: int| stands_at(text, ls[i], k);
        let f = fold_case(text);
        assert(f.subrange(k, k + ls[i].len()) =~= fold_case(text.subrange(k, k + ls[i].len())));
        assert(stands_at(f, fold_case(ls[i]), k));
        lemma_part_of_part(f, fold_case(ls[i]), fold_case(LOOP_HEADER@));
    }
}

// ---------------------------------------------------------------------------------------------
// The header section
// ---------------------------------------------------------------------------------------------

/// The header section of a message is what stands before its first empty line, whether its lines
/// end with CR LF or with line feeds only.
pub proof fn law_header_section(h: Seq<char>, body: Seq<char>)
    requires
        h.len() > 0,
    ensures
        !has_empty_line(h + seq!['\r', '\n']) && (has_text(h, "\r\n"@) || !h.contains('\n'))
            && !is_cr_last(h) ==> head(h + seq!['\r', '\n', '\r', '\n'] + body) == h,
        !has_empty_line(h + seq!['\n']) && !h.contains('\r') ==> lines(
            head(h + seq!['\n', '\n'] + body),
        ) == lines(h),
{
    if !has_empty_line(h + seq!['\r', '\n']) && !is_cr_last(h) {
        lemma_before_crlf(h, body);
    }
    if !has_empty_line(h + seq!['\n']) && !h.contains('\r') {
        lemma_before_lf(h, body);
        if has_text(h, "\r\n"@) {
            reveal_strlit("\r\n");
            let i = choose|i: int| stands_at(h, "\r\n"@, i);
            assert(h.subrange(i, i + 2)[0] == h[i]);
            assert(h.contains(h[i]));
        }
        if h.contains('\n') {
            lemma_same_lines(h);
        }
    }
}

/// Whether the last character of a text is a carriage return.
pub open spec fn is_cr_last(s: Seq<char>) -> bool {
    s.len() > 0 && s.last() == '\r'
}

proof fn lemma_before_crlf(h: Seq<char>, body: Seq<char>)
    requires
        h.len() > 0,
        !has_empty_line(h + seq!['\r', '\n']),
        !is_cr_last(h),
    ensures
        before_gap(h + seq!['\r', '\n', '\r', '\n'] + body) == h,
{
    let s = h + seq!['\r', '\n', '\r', '\n'] + body;
    let t = h + seq!['\r', '\n'];
    let n: int = h.len() as int;
    assert(s[n] == '\r' && s[n + 1] == '\n' && s[n + 2] == '\r' && s[n + 3] == '\n');
    assert(is_gap(s, n + 1));
    assert forall|j: int| 0 <= j < n + 1 implies !is_gap(s, j) by {
        if is_gap(s, j) {
            assert(s[j] == t[j] && s[j + 1] == t[j + 1]);
            if j < n {
                assert(is_gap(t, j)) by {
                    if s[j + 1] != '\n' {
                        assert(j + 2 < t.len());
                        assert(s[j + 2] == t[j + 2]);
                    }
                }
            }
        }
    }
    lemma_gap_is(s, n + 1);
    assert(s.take(n + 1) =~= h.push('\r'));
    assert(without_cr(h.push('\r')) =~= h);
}

proof fn lemma_before_lf(h: Seq<char>, body: Seq<char>)
    requires
        h.len() > 0,
        !has_empty_line(h + seq!['\n']),
        !h.contains('\r'),
    ensures
        before_gap(h + seq!['\n', '\n'] + body) == h,
{
    let s = h + seq!['\n', '\n'] + body;
    let t = h + seq!['\n'];
    let n: int = h.len() as int;
    assert(s[n] == '\n' && s[n + 1] == '\n');
    assert(is_gap(s, n));
    assert forall|j: int| 0 <= j < n implies !is_gap(s, j) by {
        if is_gap(s, j) {
            assert(s[j] == t[j] && s[j + 1] == t[j + 1]);
            assert(is_gap(t, j)) by {
                if s[j + 1] != '\n' {
                    assert(s[j + 1] == '\r');
                    assert(h.contains(h[j + 1]));
                }
            }
        }
    }
    lemma_gap_is(s, n);
    assert(s.take(n) =~= h);
    assert(h.contains(h[n - 1]));
}

proof fn lemma_gap_is(s: Seq<char>, i: int)
    requires
        0 <= i < s.len(),
        is_gap(s, i),
        forall|j: int| 0 <= j < i ==> !is_gap(s, j),
    ensures
        next_gap(s, 0) == i,
{
    lemma_next_gap(s, 0);
    let k: int = next_gap(s, 0);
    if k > i {
        assert(!is_gap(s, i));
    } else if k < i {
        assert(is_gap(s, k));
    }
}

/// A message with the loop header, in any letter case, and the relay's own mark in its value is
/// dropped.
pub proof fn law_marked_mail_is_dropped(
    raw: Seq<u8>,
    s: RelaySettings,
    i: int,
    name: Seq<char>,
    value: Seq<char>,
)
    requires
        0 <= i < lines(head(message_text(raw))).len(),
        lines(head(message_text(raw)))[i] == name + ": "@ + value,
        same_ignoring_case(name, "X-4ward-Loop-Detection"@),
        value.len() > 0,
        is_trim(value, Class::White),
        has_text(value, loop_mark(s.relay_domain@, s.loop_salt@)),
    ensures
        planned_by(raw, s) == Ok::<Option<PlanText>, Seq<char>>(None),
{
    reveal_strlit("X-4ward-Loop-Detection");
    reveal_strlit(": ");
    let mark = loop_mark(s.relay_domain@, s.loop_salt@);
    let line = name + ": "@ + value;
    assert(fold_case(name).len() == fold_case("X-4ward-Loop-Detection"@).len());
    assert(name.len() == 22);
    assert(fold_case(name)[0] == fold_case("X-4ward-Loop-Detection"@)[0]);
    assert(name[0] == 'X' || name[0] == 'x');
    assert(line[0] == name[0]);
    assert(line.last() == value.last());
    law_trim_of_trim(line);
    assert(line.take(22) =~= name);
    let tail = line.skip(22);
    assert(tail =~= ": "@ + value + Seq::<char>::empty());
    lemma_middle(": "@, value, Seq::empty());
    lemma_part_of_part(tail, value, mark);
    assert(marks_loop(lines(head(message_text(raw)))[i], mark));
    assert(carries_mark(head(message_text(raw)), mark));
}

/// A message is not dropped for lines that are not the loop header with the relay's own mark: lines
/// that begin with another name, or that the mark does not occur in.
pub proof fn law_other_lines_do_not_drop(text: Seq<char>, mark: Seq<char>)
    requires
        forall|i: int|
            0 <= i < lines(head(text)).len() ==> {
                let l = #[trigger] lines(head(text))[i];
                ||| trim(l).len() < 22
                ||| !same_ignoring_case(trim(l).take(22), "X-4ward-Loop-Detection"@)
                ||| !has_text(l, mark)
            },
    ensures
        !carries_mark(head(text), mark),
{
    reveal_strlit("X-4ward-Loop-Detection");
    if carries_mark(head(text), mark) {
        let ls = lines(head(text));
        let i = choose|i: int| 0 <= i < ls.len() && marks_loop(#[trigger] ls[i], mark);
        lemma_line_holds_mark(ls[i], mark);
        assert(LOOP_HEADER@.len() == 22);
    }
}

} // verus!
