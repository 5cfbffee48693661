//! Line-oriented wire codec for the client/server records.
//!
//! Each record travels as one line of text holding a tagged key/value object,
//! e.g. `{"Post":{"group_name":"Dogs","message":"Samoyeds rock!"}}`. Text
//! fields are quoted with the usual escapes (`\"`, `\\`, `\b`, `\t`, `\n`,
//! `\f`, `\r`, and `\u00XX` for the remaining control characters), so an
//! encoded record never contains a raw newline and the line framing is safe.
use vstd::prelude::*;

use crate::FromClient;
use crate::FromServer;

verus! {

/// The lower-case hex digit of a value below 16.
pub open spec fn hex_digit(n: u32) -> char {
    if n == 0 { '0' } else if n == 1 { '1' } else if n == 2 { '2' }
    else if n == 3 { '3' } else if n == 4 { '4' } else if n == 5 { '5' }
    else if n == 6 { '6' } else if n == 7 { '7' } else if n == 8 { '8' }
    else if n == 9 { '9' } else if n == 10 { 'a' } else if n == 11 { 'b' }
    else if n == 12 { 'c' } else if n == 13 { 'd' } else if n == 14 { 'e' }
    else { 'f' }
}

/// How one character appears inside a quoted text field.
pub open spec fn escape_char(c: char) -> Seq<char> {
    if c == '"' { seq!['\\', '"'] }
    else if c == '\\' { seq!['\\', '\\'] }
    else if c == '\u{8}' { seq!['\\', 'b'] }
    else if c == '\t' { seq!['\\', 't'] }
    else if c == '\n' { seq!['\\', 'n'] }
    else if c == '\u{c}' { seq!['\\', 'f'] }
    else if c == '\r' { seq!['\\', 'r'] }
    else if (c as u32) < 0x20 {
        seq!['\\', 'u', '0', '0', hex_digit((c as u32) / 16), hex_digit((c as u32) % 16)]
    } else {
        seq![c]
    }
}

/// The escaped form of a whole text field.
pub open spec fn escape_seq(s: Seq<char>) -> Seq<char>
    decreases s.len(),
{
    if s.len() == 0 {
        Seq::empty()
    } else {
        escape_char(s[0]) + escape_seq(s.skip(1))
    }
}

/// A text field as it stands on the wire: escaped and surrounded by quotes.
pub open spec fn quoted(s: Seq<char>) -> Seq<char> {
    seq!['"'] + escape_seq(s) + seq!['"']
}

/// The one line of text that encodes a client request (without the
/// terminating newline).
pub open spec fn client_line(r: FromClient) -> Seq<char> {
    match r {
        FromClient::Join { group_name } =>
            "{\"Join\":{\"group_name\":"@ + quoted(group_name@) + "}}"@,
        FromClient::Post { group_name, message } =>
            "{\"Post\":{\"group_name\":"@ + quoted(group_name@) + ",\"message\":"@
                + quoted(message@) + "}}"@,
    }
}

/// The one line of text that encodes a server record (without the
/// terminating newline).
pub open spec fn server_line(r: FromServer) -> Seq<char> {
    match r {
        FromServer::Message { group_name, message } =>
            "{\"Message\":{\"group_name\":"@ + quoted(group_name@) + ",\"message\":"@
                + quoted(message@) + "}}"@,
        FromServer::Error(text) => "{\"Error\":"@ + quoted(text@) + "}"@,
    }
}

/// The value of a canonical (lower-case) hex digit character.
pub open spec fn hex_val(c: char) -> Option<u32> {
    if c == '0' { Some(0u32) } else if c == '1' { Some(1u32) }
    else if c == '2' { Some(2u32) } else if c == '3' { Some(3u32) }
    else if c == '4' { Some(4u32) } else if c == '5' { Some(5u32) }
    else if c == '6' { Some(6u32) } else if c == '7' { Some(7u32) }
    else if c == '8' { Some(8u32) } else if c == '9' { Some(9u32) }
    else if c == 'a' { Some(10u32) } else if c == 'b' { Some(11u32) }
    else if c == 'c' { Some(12u32) } else if c == 'd' { Some(13u32) }
    else if c == 'e' { Some(14u32) } else if c == 'f' { Some(15u32) }
    else { None }
}

/// The character that a two-character escape stands for.
pub open spec fn short_escape(e: char) -> Option<char> {
    if e == '"' { Some('"') }
    else if e == '\\' { Some('\\') }
    else if e == 'b' { Some('\u{8}') }
    else if e == 't' { Some('\t') }
    else if e == 'n' { Some('\n') }
    else if e == 'f' { Some('\u{c}') }
    else if e == 'r' { Some('\r') }
    else { None }
}

/// Read one escape sequence starting at the backslash at position `i`.
/// Only the canonical spelling of each character is accepted, so the
/// consumed text always equals `escape_char` of the result.
pub open spec fn scan_escape(v: Seq<char>, i: int) -> Option<(char, int)> {
    if 0 <= i && i + 2 <= v.len() {
        match short_escape(v[i + 1]) {
            Some(c) => Some((c, i + 2)),
            None => if v[i + 1] == 'u' {
                if i + 6 <= v.len() && v[i + 2] == '0' && v[i + 3] == '0' {
                    match (hex_val(v[i + 4]), hex_val(v[i + 5])) {
                        (Some(d1), Some(d2)) => {
                            let val = d1 * 16 + d2;
                            if val < 0x20 && val != 8 && val != 9 && val != 10
                                && val != 12 && val != 13 {
                                Some(((val as char), i + 6))
                            } else {
                                None
                            }
                        },
                        _ => None,
                    }
                } else {
                    None
                }
            } else {
                None
            },
        }
    } else {
        None
    }
}

/// Read the body of a quoted field starting at position `i`, up to but not
/// including the closing quote. Returns the decoded text and the position
/// of the closing quote.
pub open spec fn scan_body(v: Seq<char>, i: int) -> Option<(Seq<char>, int)>
    decreases v.len() - i when 0 <= i <= v.len()
{
    if i >= v.len() {
        None
    } else if v[i] == '"' {
        Some((Seq::empty(), i))
    } else if v[i] == '\\' {
        match scan_escape(v, i) {
            None => None,
            Some((c, j)) => match scan_body(v, j) {
                None => None,
                Some((s, k)) => Some((seq![c] + s, k)),
            },
        }
    } else if (v[i] as u32) < 0x20 {
        None
    } else {
        match scan_body(v, i + 1) {
            None => None,
            Some((s, k)) => Some((seq![v[i]] + s, k)),
        }
    }
}

/// Read a whole quoted field (both quotes included) starting at position
/// `i`. Returns the decoded text and the position after the closing quote.
pub open spec fn scan_quoted(v: Seq<char>, i: int) -> Option<(Seq<char>, int)> {
    if 0 <= i < v.len() && v[i] == '"' {
        match scan_body(v, i + 1) {
            None => None,
            Some((s, k)) => Some((s, k + 1)),
        }
    } else {
        None
    }
}

proof fn lemma_hex_inverse(c: char)
    requires
        hex_val(c) is Some,
    ensures
        hex_val(c) matches Some(d) && d < 16 && hex_digit(d) == c,
{
}

proof fn lemma_hex_roundtrip(n: u32)
    requires
        n < 16,
    ensures
        hex_val(hex_digit(n)) == Some(n),
{
}

/// What `scan_body` accepts is exactly the escaped form of what it returns.
proof fn lemma_scan_body_sound(v: Seq<char>, i: int)
    requires
        0 <= i <= v.len(),
    ensures
        scan_body(v, i) matches Some((s, k)) ==> {
            &&& i <= k < v.len()
            &&& v[k] == '"'
            &&& v.subrange(i, k) == escape_seq(s)
        },
    decreases v.len() - i,
{
    if i >= v.len() {
    } else if v[i] == '"' {
        assert(v.subrange(i, i) =~= escape_seq(Seq::<char>::empty()));
    } else if v[i] == '\\' {
        match scan_escape(v, i) {
            None => {},
            Some((c, j)) => {
                lemma_scan_body_sound(v, j);
                match scan_body(v, j) {
                    None => {},
                    Some((s, k)) => {
                        assert(v.subrange(i, j) =~= escape_char(c)) by {
                            lemma_scan_escape_canonical(v, i);
                        };
                        assert(escape_seq(seq![c] + s) == escape_char(c) + escape_seq(s)) by {
                            assert((seq![c] + s)[0] == c);
                            assert((seq![c] + s).skip(1) =~= s);
                        };
                        assert(v.subrange(i, k) =~= v.subrange(i, j) + v.subrange(j, k));
                    },
                }
            },
        }
    } else if (v[i] as u32) < 0x20 {
    } else {
        lemma_scan_body_sound(v, i + 1);
        match scan_body(v, i + 1) {
            None => {},
            Some((s, k)) => {
                assert(escape_char(v[i]) == seq![v[i]]);
                assert(escape_seq(seq![v[i]] + s) == escape_char(v[i]) + escape_seq(s)) by {
                    assert((seq![v[i]] + s)[0] == v[i]);
                    assert((seq![v[i]] + s).skip(1) =~= s);
                };
                assert(v.subrange(i, i + 1) =~= seq![v[i]]);
                assert(v.subrange(i, k) =~= v.subrange(i, i + 1) + v.subrange(i + 1, k));
            },
        }
    }
}

/// The text an accepted escape consumes is the canonical escape of the
/// character it returns.
proof fn lemma_scan_escape_canonical(v: Seq<char>, i: int)
    requires
        0 <= i < v.len(),
        v[i] == '\\',
        scan_escape(v, i) is Some,
    ensures
        scan_escape(v, i) matches Some((c, j)) ==> {
            &&& i + 2 <= j <= v.len()
            &&& v.subrange(i, j) == escape_char(c)
        },
{
    match scan_escape(v, i) {
        None => {},
        Some((c, j)) => {
            if short_escape(v[i + 1]) is Some {
                assert(v.subrange(i, j) =~= seq!['\\', v[i + 1]]);
                assert(escape_char(c) == seq!['\\', v[i + 1]]);
            } else {
                let d1 = hex_val(v[i + 4]).unwrap();
                let d2 = hex_val(v[i + 5]).unwrap();
                let val = d1 * 16 + d2;
                assert(c == (val as char));
                assert(c as u32 == val);
                assert(d1 <= 1);
                assert(val / 16 == d1 && val % 16 == d2);
                lemma_hex_inverse(v[i + 4]);
                lemma_hex_inverse(v[i + 5]);
                assert(escape_char(c) == seq!['\\', 'u', '0', '0', v[i + 4], v[i + 5]]);
                assert(v.subrange(i, j) =~= seq!['\\', 'u', '0', '0', v[i + 4], v[i + 5]]);
            }
        },
    }
}

/// Wherever the escaped form of some text sits, followed by a closing
/// quote, `scan_body` accepts it and returns exactly that text.
proof fn lemma_scan_body_complete(v: Seq<char>, i: int, s: Seq<char>, j: int)
    requires
        0 <= i,
        j == i + escape_seq(s).len(),
        j < v.len(),
        v.subrange(i, j) == escape_seq(s),
        v[j] == '"',
    ensures
        scan_body(v, i) == Some((s, j)),
    decreases s.len(),
{
    if s.len() == 0 {
        assert(v[i] == '"');
    } else {
        let e = escape_char(s[0]);
        let rest = escape_seq(s.skip(1));
        assert(escape_seq(s) == e + rest);
        let m = i + e.len();
        assert(forall|k: int| 0 <= k < e.len() ==> v[i + k] == #[trigger] e[k]) by {
            assert(forall|k: int| 0 <= k < e.len() ==> v.subrange(i, j)[k] == #[trigger] e[k]);
        }
        assert(v.subrange(m, j) =~= rest) by {
            assert(forall|k: int| 0 <= k < rest.len() ==> v.subrange(i, j)[e.len() + k]
                == #[trigger] rest[k]);
        }
        lemma_scan_body_complete(v, m, s.skip(1), j);
        let c = s[0];
        if c == '"' || c == '\\' || (c as u32) < 0x20 {
            // the character travels escaped: the scanner sees the backslash
            assert(e[0] == '\\');
            assert(v[i] == '\\');
            assert(scan_escape(v, i) == Some((c, m))) by {
                if c == '"' || c == '\\' || c == '\u{8}' || c == '\t' || c == '\n'
                    || c == '\u{c}' || c == '\r' {
                    assert(e == seq!['\\', e[1]]);
                    assert(v[i + 1] == e[1]);
                    assert(short_escape(v[i + 1]) == Some(c));
                } else {
                    let val = c as u32;
                    assert(e == seq!['\\', 'u', '0', '0', hex_digit(val / 16), hex_digit(
                        val % 16,
                    )]);
                    assert(e[1] == 'u' && e[2] == '0' && e[3] == '0');
                    assert(e[4] == hex_digit(val / 16) && e[5] == hex_digit(val % 16));
                    assert(v[i + 1] == 'u' && v[i + 2] == '0' && v[i + 3] == '0');
                    assert(v[i + 4] == hex_digit(val / 16) && v[i + 5] == hex_digit(val % 16));
                    lemma_hex_roundtrip(val / 16);
                    lemma_hex_roundtrip(val % 16);
                    assert((val / 16) * 16 + val % 16 == val);
                    vstd::utf8::char_u32_cast(c, val);
                    assert((val as char) == c);
                }
            }
            assert(seq![c] + s.skip(1) =~= s);
        } else {
            assert(e == seq![c]);
            assert(e[0] == c);
            assert(v[i] == c);
            assert(v[i] != '"' && v[i] != '\\' && (v[i] as u32) >= 0x20);
            assert(seq![v[i]] + s.skip(1) =~= s);
        }
    }
}

/// Wherever a whole quoted field sits, `scan_quoted` accepts it and
/// returns exactly its text: a quoted field is read the same way whatever
/// follows it.
proof fn lemma_scan_quoted_complete(v: Seq<char>, i: int, s: Seq<char>)
    requires
        0 <= i,
        i + quoted(s).len() <= v.len(),
        v.subrange(i, i + quoted(s).len()) == quoted(s),
    ensures
        scan_quoted(v, i) == Some((s, i + quoted(s).len())),
{
    let q = quoted(s);
    let j = i + q.len() - 1;
    assert(forall|k: int| 0 <= k < q.len() ==> v[i + k] == #[trigger] q[k]) by {
        assert(forall|k: int| 0 <= k < q.len() ==> v.subrange(i, i + q.len())[k]
            == #[trigger] q[k]);
    }
    assert(q[0] == '"');
    assert(q[q.len() - 1] == '"');
    assert(v[i] == '"');
    assert(v[j] == '"');
    assert(forall|t: int| 0 <= t < escape_seq(s).len() ==> #[trigger] escape_seq(s)[t]
        == q[1 + t]);
    assert(v.subrange(i + 1, j) =~= escape_seq(s));
    lemma_scan_body_complete(v, i + 1, s, j);
}

/// Relies on `String::push`: appends exactly the given character.
#[verifier::external_body]
pub(crate) fn push_char(out: &mut String, c: char)
    ensures
        final(out)@ == old(out)@.push(c),
{
    out.push(c);
}

/// Appending one more character extends the escaped form by that
/// character's escape.
proof fn lemma_escape_seq_snoc(s: Seq<char>, c: char)
    ensures
        escape_seq(s.push(c)) == escape_seq(s) + escape_char(c),
    decreases s.len(),
{
    if s.len() == 0 {
        assert(s.push(c)[0] == c);
        assert(s.push(c).skip(1) =~= Seq::<char>::empty());
        assert(escape_seq(s.push(c)) =~= escape_char(c) + escape_seq(Seq::<char>::empty()));
        assert(escape_char(c) + Seq::<char>::empty() =~= escape_char(c));
        assert(escape_seq(s) + escape_char(c) =~= escape_char(c));
    } else {
        assert(s.push(c).skip(1) =~= s.skip(1).push(c));
        lemma_escape_seq_snoc(s.skip(1), c);
        assert(escape_seq(s.push(c)) =~= escape_seq(s) + escape_char(c));
    }
}

fn hex_digit_exec(n: u32) -> (c: char)
    requires
        n < 16,
    ensures
        c == hex_digit(n),
{
    if n == 0 { '0' } else if n == 1 { '1' } else if n == 2 { '2' }
    else if n == 3 { '3' } else if n == 4 { '4' } else if n == 5 { '5' }
    else if n == 6 { '6' } else if n == 7 { '7' } else if n == 8 { '8' }
    else if n == 9 { '9' } else if n == 10 { 'a' } else if n == 11 { 'b' }
    else if n == 12 { 'c' } else if n == 13 { 'd' } else if n == 14 { 'e' }
    else { 'f' }
}

fn append_escaped(out: &mut String, t: &str)
    ensures
        final(out)@ == old(out)@ + escape_seq(t@),
{
    let n = t.unicode_len();
    let mut i: usize = 0;
    while i < n
        invariant
            i <= n,
            n == t@.len(),
            out@ == old(out)@ + escape_seq(t@.take(i as int)),
        decreases n - i,
    {
        let c = t.get_char(i);
        proof {
            lemma_escape_seq_snoc(t@.take(i as int), c);
            assert(t@.take(i + 1) =~= t@.take(i as int).push(c));
        }
        if c == '"' {
            push_char(out, '\\');
            push_char(out, '"');
        } else if c == '\\' {
            push_char(out, '\\');
            push_char(out, '\\');
        } else if c == '\u{8}' {
            push_char(out, '\\');
            push_char(out, 'b');
        } else if c == '\t' {
            push_char(out, '\\');
            push_char(out, 't');
        } else if c == '\n' {
            push_char(out, '\\');
            push_char(out, 'n');
        } else if c == '\u{c}' {
            push_char(out, '\\');
            push_char(out, 'f');
        } else if c == '\r' {
            push_char(out, '\\');
            push_char(out, 'r');
        } else if (c as u32) < 0x20 {
            let v = c as u32;
            push_char(out, '\\');
            push_char(out, 'u');
            push_char(out, '0');
            push_char(out, '0');
            push_char(out, hex_digit_exec(v / 16));
            push_char(out, hex_digit_exec(v % 16));
        } else {
            push_char(out, c);
        }
        assert(out@ =~= old(out)@ + escape_seq(t@.take(i + 1)));
        i += 1;
    }
    proof {
        assert(t@.take(n as int) =~= t@);
    }
}

fn append_quoted(out: &mut String, t: &str)
    ensures
        final(out)@ == old(out)@ + quoted(t@),
{
    push_char(out, '"');
    append_escaped(out, t);
    push_char(out, '"');
    assert(out@ =~= old(out)@ + quoted(t@));
}

fn hex_val_exec(c: char) -> (r: Option<u32>)
    ensures
        r == hex_val(c),
{
    if c == '0' { Some(0u32) } else if c == '1' { Some(1u32) }
    else if c == '2' { Some(2u32) } else if c == '3' { Some(3u32) }
    else if c == '4' { Some(4u32) } else if c == '5' { Some(5u32) }
    else if c == '6' { Some(6u32) } else if c == '7' { Some(7u32) }
    else if c == '8' { Some(8u32) } else if c == '9' { Some(9u32) }
    else if c == 'a' { Some(10u32) } else if c == 'b' { Some(11u32) }
    else if c == 'c' { Some(12u32) } else if c == 'd' { Some(13u32) }
    else if c == 'e' { Some(14u32) } else if c == 'f' { Some(15u32) }
    else { None }
}

/// Does the given literal text stand in `line` at position `at`?
fn match_lit(line: &str, n: usize, at: usize, lit: &str) -> (b: bool)
    requires
        n == line@.len(),
        at <= n,
    ensures
        b == (at + lit@.len() <= n && line@.subrange(at as int, at + lit@.len()) == lit@),
{
    let m = lit.unicode_len();
    if m > n - at {
        return false;
    }
    let mut k: usize = 0;
    while k < m
        invariant
            k <= m,
            m == lit@.len(),
            n == line@.len(),
            at + m <= n,
            forall|h: int| 0 <= h < k ==> line@[at + h] == #[trigger] lit@[h],
        decreases m - k,
    {
        if line.get_char(at + k) != lit.get_char(k) {
            assert(line@.subrange(at as int, at + m) != lit@) by {
                assert(line@.subrange(at as int, at + m)[k as int] != lit@[k as int]);
            }
            return false;
        }
        k += 1;
    }
    assert(line@.subrange(at as int, at + m) =~= lit@);
    true
}

/// Read a quoted text field standing at position `at`: what it accepts and
/// returns is exactly what `scan_quoted` says.
fn parse_quoted(line: &str, n: usize, at: usize) -> (r: Option<(String, usize)>)
    requires
        n == line@.len(),
        at <= n,
    ensures
        match r {
            Some((s, j)) => scan_quoted(line@, at as int) == Some((s@, j as int)) && at < j <= n,
            None => scan_quoted(line@, at as int) is None,
        },
{
    let ghost v = line@;
    if at >= n || line.get_char(at) != '"' {
        return None;
    }
    let start = at + 1;
    let mut i: usize = start;
    let mut out = String::new();
    loop
        invariant
            n == v.len(),
            v == line@,
            at < n,
            v[at as int] == '"',
            start == at + 1,
            start <= i <= n,
            scan_body(v, start as int) == match scan_body(v, i as int) {
                Some((s, k)) => Some((out@ + s, k)),
                None => None,
            },
        decreases n - i,
    {
        if i >= n {
            return None;
        }
        let c = line.get_char(i);
        if c == '"' {
            proof {
                assert(scan_body(v, i as int) == Some((Seq::<char>::empty(), i as int)));
                assert(out@ + Seq::<char>::empty() =~= out@);
            }
            return Some((out, i + 1));
        } else if c == '\\' {
            if i + 1 >= n {
                assert(scan_escape(v, i as int) is None);
                return None;
            }
            let e = line.get_char(i + 1);
            let (dec, adv): (char, usize) = if e == '"' { ('"', 2) }
            else if e == '\\' { ('\\', 2) }
            else if e == 'b' { ('\u{8}', 2) }
            else if e == 't' { ('\t', 2) }
            else if e == 'n' { ('\n', 2) }
            else if e == 'f' { ('\u{c}', 2) }
            else if e == 'r' { ('\r', 2) }
            else if e == 'u' {
                if n - i < 6 {
                    assert(scan_escape(v, i as int) is None);
                    return None;
                }
                if line.get_char(i + 2) != '0' || line.get_char(i + 3) != '0' {
                    assert(scan_escape(v, i as int) is None);
                    return None;
                }
                let d1 = match hex_val_exec(line.get_char(i + 4)) {
                    Some(d) => d,
                    None => {
                        assert(scan_escape(v, i as int) is None);
                        return None;
                    },
                };
                let d2 = match hex_val_exec(line.get_char(i + 5)) {
                    Some(d) => d,
                    None => {
                        assert(scan_escape(v, i as int) is None);
                        return None;
                    },
                };
                let val = d1 * 16 + d2;
                if val >= 0x20 || val == 8 || val == 9 || val == 10 || val == 12 || val == 13 {
                    assert(scan_escape(v, i as int) is None);
                    return None;
                }
                let dec_u = (val as u8) as char;
                proof {
                    assert(val < 0x20 ==> ((val as u8) as u32) == val) by (bit_vector);
                    vstd::utf8::char_u32_cast(dec_u, val);
                }
                (dec_u, 6)
            } else {
                assert(scan_escape(v, i as int) is None);
                return None;
            };
            proof {
                assert(scan_escape(v, i as int) == Some((dec, i + adv)));
            }
            let ghost out_prev = out@;
            push_char(&mut out, dec);
            proof {
                if let Some((s2, k2)) = scan_body(v, i + adv) {
                    assert(out_prev.push(dec) + s2 =~= out_prev + (seq![dec] + s2));
                }
            }
            i = i + adv;
        } else if (c as u32) < 0x20 {
            return None;
        } else {
            let ghost out_prev = out@;
            push_char(&mut out, c);
            proof {
                if let Some((s2, k2)) = scan_body(v, i + 1) {
                    assert(out_prev.push(c) + s2 =~= out_prev + (seq![c] + s2));
                }
            }
            i = i + 1;
        }
    }
}

/// Splitting a concatenation of three parts recovers each part.
proof fn lemma_split3(v: Seq<char>, a: Seq<char>, b: Seq<char>, c: Seq<char>)
    requires
        v == a + b + c,
    ensures
        v.len() == a.len() + b.len() + c.len(),
        v.subrange(0, a.len() as int) == a,
        v.subrange(a.len() as int, (a.len() + b.len()) as int) == b,
        v.subrange((a.len() + b.len()) as int, v.len() as int) == c,
{
    assert(v.subrange(0, a.len() as int) =~= a);
    assert(v.subrange(a.len() as int, (a.len() + b.len()) as int) =~= b);
    assert(v.subrange((a.len() + b.len()) as int, v.len() as int) =~= c);
}

/// Splitting a concatenation of five parts recovers each part.
proof fn lemma_split5(v: Seq<char>, a: Seq<char>, b: Seq<char>, c: Seq<char>, d: Seq<char>, e: Seq<char>)
    requires
        v == a + b + c + d + e,
    ensures
        v.len() == a.len() + b.len() + c.len() + d.len() + e.len(),
        v.subrange(0, a.len() as int) == a,
        v.subrange(a.len() as int, (a.len() + b.len()) as int) == b,
        v.subrange((a.len() + b.len()) as int, (a.len() + b.len() + c.len()) as int) == c,
        v.subrange((a.len() + b.len() + c.len()) as int, (a.len() + b.len() + c.len() + d.len()) as int) == d,
        v.subrange((a.len() + b.len() + c.len() + d.len()) as int, v.len() as int) == e,
{
    assert(v.subrange(0, a.len() as int) =~= a);
    assert(v.subrange(a.len() as int, (a.len() + b.len()) as int) =~= b);
    assert(v.subrange((a.len() + b.len()) as int, (a.len() + b.len() + c.len()) as int) =~= c);
    assert(v.subrange((a.len() + b.len() + c.len()) as int, (a.len() + b.len() + c.len() + d.len()) as int) =~= d);
    assert(v.subrange((a.len() + b.len() + c.len() + d.len()) as int, v.len() as int) =~= e);
}

/// What `scan_quoted` accepts is exactly a quoted field holding its result.
proof fn lemma_scan_quoted_sound(v: Seq<char>, i: int)
    requires
        0 <= i <= v.len(),
    ensures
        scan_quoted(v, i) matches Some((s, j)) ==> {
            &&& i + 2 <= j <= v.len()
            &&& v.subrange(i, j) == quoted(s)
        },
{
    if 0 <= i < v.len() && v[i] == '"' {
        lemma_scan_body_sound(v, i + 1);
        match scan_body(v, i + 1) {
            None => {},
            Some((s, k)) => {
                assert(v.subrange(i, k + 1) =~= quoted(s));
            },
        }
    }
}

/// Read one quoted field at `at`, then the given closing text, which must
/// end the line.
fn parse_one_field(line: &str, n: usize, at: usize, closing: &str) -> (r: Option<String>)
    requires
        n == line@.len(),
        at <= n,
    ensures
        match r {
            Some(s) => line@ == line@.subrange(0, at as int) + quoted(s@) + closing@,
            None => forall|t: Seq<char>|
                line@ != line@.subrange(0, at as int) + quoted(t) + closing@,
        },
{
    let ghost v = line@;
    let ghost pre = line@.subrange(0, at as int);
    let clen = closing.unicode_len();
    match parse_quoted(line, n, at) {
        None => {
            proof {
                assert forall|t: Seq<char>| v != pre + quoted(t) + closing@ by {
                    if v == pre + quoted(t) + closing@ {
                        lemma_split3(v, pre, quoted(t), closing@);
                        lemma_scan_quoted_complete(v, at as int, t);
                    }
                }
            }
            None
        },
        Some((s, j)) => {
            proof {
                lemma_scan_quoted_sound(v, at as int);
            }
            if clen == n - j && match_lit(line, n, j, closing) {
                proof {
                    assert(v =~= pre + quoted(s@) + closing@) by {
                        assert(v =~= v.subrange(0, at as int) + v.subrange(at as int, j as int)
                            + v.subrange(j as int, n as int));
                    }
                }
                Some(s)
            } else {
                proof {
                    assert forall|t: Seq<char>| v != pre + quoted(t) + closing@ by {
                        if v == pre + quoted(t) + closing@ {
                            lemma_split3(v, pre, quoted(t), closing@);
                            lemma_scan_quoted_complete(v, at as int, t);
                            assert(t == s@ && j == at + quoted(t).len());
                            assert(clen == n - j);
                            assert(v.subrange(j as int, j + closing@.len()) == closing@);
                        }
                    }
                }
                None
            }
        },
    }
}

/// Read a group-name field, a `,"message":` key, a message field, and the
/// closing braces, which must end the line.
fn parse_two_fields(line: &str, n: usize, at: usize) -> (r: Option<(String, String)>)
    requires
        n == line@.len(),
        at <= n,
    ensures
        match r {
            Some((g, m)) => line@ == line@.subrange(0, at as int) + quoted(g@) + ",\"message\":"@
                + quoted(m@) + "}}"@,
            None => forall|g2: Seq<char>, m2: Seq<char>|
                line@ != line@.subrange(0, at as int) + quoted(g2) + ",\"message\":"@
                    + quoted(m2) + "}}"@,
        },
{
    let ghost v = line@;
    let ghost pre = line@.subrange(0, at as int);
    let mid = ",\"message\":";
    let mlen = mid.unicode_len();
    let (g, j) = match parse_quoted(line, n, at) {
        Some(p) => p,
        None => {
            proof {
                assert forall|g2: Seq<char>, m2: Seq<char>|
                    v != pre + quoted(g2) + ",\"message\":"@ + quoted(m2) + "}}"@ by {
                    if v == pre + quoted(g2) + ",\"message\":"@ + quoted(m2) + "}}"@ {
                        lemma_split5(v, pre, quoted(g2), ",\"message\":"@, quoted(m2), "}}"@);
                        lemma_scan_quoted_complete(v, at as int, g2);
                    }
                }
            }
            return None;
        },
    };
    proof {
        lemma_scan_quoted_sound(v, at as int);
    }
    if mlen > n - j || !match_lit(line, n, j, mid) {
        proof {
            assert forall|g2: Seq<char>, m2: Seq<char>|
                v != pre + quoted(g2) + ",\"message\":"@ + quoted(m2) + "}}"@ by {
                if v == pre + quoted(g2) + ",\"message\":"@ + quoted(m2) + "}}"@ {
                    lemma_split5(v, pre, quoted(g2), ",\"message\":"@, quoted(m2), "}}"@);
                    lemma_scan_quoted_complete(v, at as int, g2);
                    assert(g2 == g@ && j == at + quoted(g2).len());
                    assert(v.subrange(j as int, j + mid@.len()) == mid@);
                }
            }
        }
        return None;
    }
    let at2 = j + mlen;
    let (m, k) = match parse_quoted(line, n, at2) {
        Some(p) => p,
        None => {
            proof {
                assert forall|g2: Seq<char>, m2: Seq<char>|
                    v != pre + quoted(g2) + ",\"message\":"@ + quoted(m2) + "}}"@ by {
                    if v == pre + quoted(g2) + ",\"message\":"@ + quoted(m2) + "}}"@ {
                        lemma_split5(v, pre, quoted(g2), ",\"message\":"@, quoted(m2), "}}"@);
                        lemma_scan_quoted_complete(v, at as int, g2);
                        assert(g2 == g@ && j == at + quoted(g2).len());
                        lemma_scan_quoted_complete(v, at2 as int, m2);
                    }
                }
            }
            return None;
        },
    };
    proof {
        lemma_scan_quoted_sound(v, at2 as int);
    }
    if 2 == n - k && match_lit(line, n, k, "}}") {
        proof {
            reveal_strlit("}}");
            assert(v =~= pre + quoted(g@) + ",\"message\":"@ + quoted(m@) + "}}"@) by {
                assert(v.subrange(k as int, k + "}}"@.len()) == "}}"@);
                assert(v =~= v.subrange(0, at as int) + v.subrange(at as int, j as int)
                    + v.subrange(j as int, at2 as int) + v.subrange(at2 as int, k as int)
                    + v.subrange(k as int, n as int));
            }
        }
        Some((g, m))
    } else {
        proof {
            reveal_strlit("}}");
            assert forall|g2: Seq<char>, m2: Seq<char>|
                v != pre + quoted(g2) + ",\"message\":"@ + quoted(m2) + "}}"@ by {
                if v == pre + quoted(g2) + ",\"message\":"@ + quoted(m2) + "}}"@ {
                    lemma_split5(v, pre, quoted(g2), ",\"message\":"@, quoted(m2), "}}"@);
                    lemma_scan_quoted_complete(v, at as int, g2);
                    assert(g2 == g@ && j == at + quoted(g2).len());
                    lemma_scan_quoted_complete(v, at2 as int, m2);
                    assert(m2 == m@ && k == at2 + quoted(m2).len());
                    assert(v.subrange(k as int, k + 2) == "}}"@);
                }
            }
        }
        None
    }
}

/// Law: encoding is one-to-one for client requests. Together with the
/// decoder's contract this says every wire line decodes to exactly one
/// well-formed request, or to none.
pub proof fn lemma_client_line_injective(a: FromClient, b: FromClient)
    requires
        client_line(a) == client_line(b),
    ensures
        crate::client_eq(a, b),
{
    let v = client_line(a);
    reveal_strlit("{\"Join\":{\"group_name\":");
    reveal_strlit("{\"Post\":{\"group_name\":");
    match (a, b) {
        (FromClient::Join { group_name: ga }, FromClient::Join { group_name: gb }) => {
            lemma_split3(v, "{\"Join\":{\"group_name\":"@, quoted(ga@), "}}"@);
            lemma_scan_quoted_complete(v, "{\"Join\":{\"group_name\":"@.len() as int, ga@);
            lemma_split3(v, "{\"Join\":{\"group_name\":"@, quoted(gb@), "}}"@);
            lemma_scan_quoted_complete(v, "{\"Join\":{\"group_name\":"@.len() as int, gb@);
        },
        (FromClient::Post { group_name: ga, message: ma },
            FromClient::Post { group_name: gb, message: mb }) => {
            let p = "{\"Post\":{\"group_name\":"@;
            lemma_split5(v, p, quoted(ga@), ",\"message\":"@, quoted(ma@), "}}"@);
            lemma_scan_quoted_complete(v, p.len() as int, ga@);
            lemma_split5(v, p, quoted(gb@), ",\"message\":"@, quoted(mb@), "}}"@);
            lemma_scan_quoted_complete(v, p.len() as int, gb@);
            assert(ga@ == gb@);
            let at2 = p.len() + quoted(ga@).len() + ",\"message\":"@.len();
            lemma_scan_quoted_complete(v, at2 as int, ma@);
            lemma_scan_quoted_complete(v, at2 as int, mb@);
        },
        (FromClient::Join { group_name: ga }, FromClient::Post { group_name: gb, message: mb }) => {
            lemma_split3(v, "{\"Join\":{\"group_name\":"@, quoted(ga@), "}}"@);
            lemma_split5(v, "{\"Post\":{\"group_name\":"@, quoted(gb@), ",\"message\":"@,
                quoted(mb@), "}}"@);
            assert(v[2] == 'J' && v[2] == 'P');
        },
        (FromClient::Post { group_name: ga, message: ma }, FromClient::Join { group_name: gb }) => {
            lemma_split5(v, "{\"Post\":{\"group_name\":"@, quoted(ga@), ",\"message\":"@,
                quoted(ma@), "}}"@);
            lemma_split3(v, "{\"Join\":{\"group_name\":"@, quoted(gb@), "}}"@);
            assert(v[2] == 'P' && v[2] == 'J');
        },
    }
}

/// Law: encoding is one-to-one for server records. Together with the
/// decoder's contract this says every wire line decodes to exactly one
/// well-formed record, or to none.
pub proof fn lemma_server_line_injective(a: FromServer, b: FromServer)
    requires
        server_line(a) == server_line(b),
    ensures
        crate::server_eq(a, b),
{
    let v = server_line(a);
    reveal_strlit("{\"Message\":{\"group_name\":");
    reveal_strlit("{\"Error\":");
    match (a, b) {
        (FromServer::Error(ta), FromServer::Error(tb)) => {
            lemma_split3(v, "{\"Error\":"@, quoted(ta@), "}"@);
            lemma_scan_quoted_complete(v, "{\"Error\":"@.len() as int, ta@);
            lemma_split3(v, "{\"Error\":"@, quoted(tb@), "}"@);
            lemma_scan_quoted_complete(v, "{\"Error\":"@.len() as int, tb@);
        },
        (FromServer::Message { group_name: ga, message: ma },
            FromServer::Message { group_name: gb, message: mb }) => {
            let p = "{\"Message\":{\"group_name\":"@;
            lemma_split5(v, p, quoted(ga@), ",\"message\":"@, quoted(ma@), "}}"@);
            lemma_scan_quoted_complete(v, p.len() as int, ga@);
            lemma_split5(v, p, quoted(gb@), ",\"message\":"@, quoted(mb@), "}}"@);
            lemma_scan_quoted_complete(v, p.len() as int, gb@);
            assert(ga@ == gb@);
            let at2 = p.len() + quoted(ga@).len() + ",\"message\":"@.len();
            lemma_scan_quoted_complete(v, at2 as int, ma@);
            lemma_scan_quoted_complete(v, at2 as int, mb@);
        },
        (FromServer::Message { group_name: ga, message: ma }, FromServer::Error(tb)) => {
            lemma_split5(v, "{\"Message\":{\"group_name\":"@, quoted(ga@), ",\"message\":"@,
                quoted(ma@), "}}"@);
            lemma_split3(v, "{\"Error\":"@, quoted(tb@), "}"@);
            assert(v[2] == 'M' && v[2] == 'E');
        },
        (FromServer::Error(ta), FromServer::Message { group_name: gb, message: mb }) => {
            lemma_split3(v, "{\"Error\":"@, quoted(ta@), "}"@);
            lemma_split5(v, "{\"Message\":{\"group_name\":"@, quoted(gb@), ",\"message\":"@,
                quoted(mb@), "}}"@);
            assert(v[2] == 'E' && v[2] == 'M');
        },
    }
}

/// No character's escape holds a raw newline.
proof fn lemma_escape_char_no_newline(c: char)
    ensures
        forall|k: int| 0 <= k < escape_char(c).len() ==> escape_char(c)[k] != '\n',
{
}

/// The escaped form of any text holds no raw newline.
proof fn lemma_escape_seq_no_newline(s: Seq<char>)
    ensures
        forall|k: int| 0 <= k < escape_seq(s).len() ==> escape_seq(s)[k] != '\n',
    decreases s.len(),
{
    if s.len() > 0 {
        lemma_escape_char_no_newline(s[0]);
        lemma_escape_seq_no_newline(s.skip(1));
        let e = escape_char(s[0]);
        assert forall|k: int| 0 <= k < escape_seq(s).len() implies escape_seq(s)[k] != '\n' by {
            if k < e.len() {
                assert(escape_seq(s)[k] == e[k]);
            } else {
                assert(escape_seq(s)[k] == escape_seq(s.skip(1))[k - e.len()]);
            }
        }
    }
}

/// A quoted field holds no raw newline.
proof fn lemma_quoted_no_newline(s: Seq<char>)
    ensures
        forall|k: int| 0 <= k < quoted(s).len() ==> quoted(s)[k] != '\n',
{
    lemma_escape_seq_no_newline(s);
}

/// Law: an encoded client request holds no newline, so newline framing
/// keeps one record per line.
pub proof fn lemma_client_line_no_newline(r: FromClient)
    ensures
        forall|k: int| 0 <= k < client_line(r).len() ==> client_line(r)[k] != '\n',
{
    reveal_strlit("{\"Join\":{\"group_name\":");
    reveal_strlit("{\"Post\":{\"group_name\":");
    reveal_strlit(",\"message\":");
    reveal_strlit("}}");
    match r {
        FromClient::Join { group_name } => {
            lemma_quoted_no_newline(group_name@);
        },
        FromClient::Post { group_name, message } => {
            lemma_quoted_no_newline(group_name@);
            lemma_quoted_no_newline(message@);
        },
    }
}

/// Law: an encoded server record holds no newline, so newline framing
/// keeps one record per line.
pub proof fn lemma_server_line_no_newline(r: FromServer)
    ensures
        forall|k: int| 0 <= k < server_line(r).len() ==> server_line(r)[k] != '\n',
{
    reveal_strlit("{\"Message\":{\"group_name\":");
    reveal_strlit("{\"Error\":");
    reveal_strlit(",\"message\":");
    reveal_strlit("}}");
    reveal_strlit("}");
    match r {
        FromServer::Message { group_name, message } => {
            lemma_quoted_no_newline(group_name@);
            lemma_quoted_no_newline(message@);
        },
        FromServer::Error(text) => {
            lemma_quoted_no_newline(text@);
        },
    }
}

/// Parse the wire line of a client request (without its newline). Returns
/// the record whose encoding the line is, and nothing on any other line.
pub fn decode_from_client(line: &str) -> (r: Option<FromClient>)
    ensures
        r matches Some(v) ==> line@ == client_line(v),
        r is None ==> forall|v: FromClient| line@ != client_line(v),
{
    let ghost v = line@;
    let n = line.unicode_len();
    let join_pre = "{\"Join\":{\"group_name\":";
    let post_pre = "{\"Post\":{\"group_name\":";
    proof {
        reveal_strlit("{\"Join\":{\"group_name\":");
        reveal_strlit("{\"Post\":{\"group_name\":");
    }
    if match_lit(line, n, 0, join_pre) {
        let plen = join_pre.unicode_len();
        match parse_one_field(line, n, plen, "}}") {
            Some(g) => Some(FromClient::Join { group_name: g }),
            None => {
                proof {
                    assert forall|w: FromClient| v != client_line(w) by {
                        if v == client_line(w) {
                            match w {
                                FromClient::Join { group_name } => {
                                    lemma_split3(v, join_pre@, quoted(group_name@), "}}"@);
                                },
                                FromClient::Post { group_name, message } => {
                                    lemma_split5(v, post_pre@, quoted(group_name@),
                                        ",\"message\":"@, quoted(message@), "}}"@);
                                    assert(v[2] == 'P' && v[2] == 'J');
                                },
                            }
                        }
                    }
                }
                None
            },
        }
    } else if match_lit(line, n, 0, post_pre) {
        let plen = post_pre.unicode_len();
        match parse_two_fields(line, n, plen) {
            Some((g, m)) => Some(FromClient::Post { group_name: g, message: m }),
            None => {
                proof {
                    assert forall|w: FromClient| v != client_line(w) by {
                        if v == client_line(w) {
                            match w {
                                FromClient::Join { group_name } => {
                                    lemma_split3(v, join_pre@, quoted(group_name@), "}}"@);
                                    assert(v[2] == 'P' && v[2] == 'J');
                                },
                                FromClient::Post { group_name, message } => {
                                    lemma_split5(v, post_pre@, quoted(group_name@),
                                        ",\"message\":"@, quoted(message@), "}}"@);
                                },
                            }
                        }
                    }
                }
                None
            },
        }
    } else {
        proof {
            assert forall|w: FromClient| v != client_line(w) by {
                if v == client_line(w) {
                    match w {
                        FromClient::Join { group_name } => {
                            lemma_split3(v, join_pre@, quoted(group_name@), "}}"@);
                        },
                        FromClient::Post { group_name, message } => {
                            lemma_split5(v, post_pre@, quoted(group_name@), ",\"message\":"@,
                                quoted(message@), "}}"@);
                        },
                    }
                }
            }
        }
        None
    }
}

/// Parse the wire line of a server record (without its newline). Returns
/// the record whose encoding the line is, and nothing on any other line.
pub fn decode_from_server(line: &str) -> (r: Option<FromServer>)
    ensures
        r matches Some(v) ==> line@ == server_line(v),
        r is None ==> forall|v: FromServer| line@ != server_line(v),
{
    let ghost v = line@;
    let n = line.unicode_len();
    let msg_pre = "{\"Message\":{\"group_name\":";
    let err_pre = "{\"Error\":";
    proof {
        reveal_strlit("{\"Message\":{\"group_name\":");
        reveal_strlit("{\"Error\":");
    }
    if match_lit(line, n, 0, msg_pre) {
        let plen = msg_pre.unicode_len();
        match parse_two_fields(line, n, plen) {
            Some((g, m)) => Some(FromServer::Message { group_name: g, message: m }),
            None => {
                proof {
                    assert forall|w: FromServer| v != server_line(w) by {
                        if v == server_line(w) {
                            match w {
                                FromServer::Message { group_name, message } => {
                                    lemma_split5(v, msg_pre@, quoted(group_name@),
                                        ",\"message\":"@, quoted(message@), "}}"@);
                                },
                                FromServer::Error(text) => {
                                    lemma_split3(v, err_pre@, quoted(text@), "}"@);
                                    assert(v[2] == 'E' && v[2] == 'M');
                                },
                            }
                        }
                    }
                }
                None
            },
        }
    } else if match_lit(line, n, 0, err_pre) {
        let plen = err_pre.unicode_len();
        match parse_one_field(line, n, plen, "}") {
            Some(t) => Some(FromServer::Error(t)),
            None => {
                proof {
                    assert forall|w: FromServer| v != server_line(w) by {
                        if v == server_line(w) {
                            match w {
                                FromServer::Message { group_name, message } => {
                                    lemma_split5(v, msg_pre@, quoted(group_name@),
                                        ",\"message\":"@, quoted(message@), "}}"@);
                                    assert(v[2] == 'M' && v[2] == 'E');
                                },
                                FromServer::Error(text) => {
                                    lemma_split3(v, err_pre@, quoted(text@), "}"@);
                                },
                            }
                        }
                    }
                }
                None
            },
        }
    } else {
        proof {
            assert forall|w: FromServer| v != server_line(w) by {
                if v == server_line(w) {
                    match w {
                        FromServer::Message { group_name, message } => {
                            lemma_split5(v, msg_pre@, quoted(group_name@), ",\"message\":"@,
                                quoted(message@), "}}"@);
                        },
                        FromServer::Error(text) => {
                            lemma_split3(v, err_pre@, quoted(text@), "}"@);
                        },
                    }
                }
            }
        }
        None
    }
}

/// Build the wire line for a client request. The result holds the whole
/// record and nothing else; the caller appends the newline that ends the
/// line on the stream.
pub fn encode_from_client(r: &FromClient) -> (out: String)
    ensures
        out@ == client_line(*r),
{
    match r {
        FromClient::Join { group_name } => {
            let mut out = String::from_str("{\"Join\":{\"group_name\":");
            append_quoted(&mut out, group_name.as_str());
            out.append("}}");
            assert(out@ =~= client_line(*r));
            out
        },
        FromClient::Post { group_name, message } => {
            let mut out = String::from_str("{\"Post\":{\"group_name\":");
            append_quoted(&mut out, group_name.as_str());
            out.append(",\"message\":");
            append_quoted(&mut out, message.as_str());
            out.append("}}");
            assert(out@ =~= client_line(*r));
            out
        },
    }
}

/// Build the wire line for a server record. The result holds the whole
/// record and nothing else; the caller appends the newline that ends the
/// line on the stream.
pub fn encode_from_server(r: &FromServer) -> (out: String)
    ensures
        out@ == server_line(*r),
{
    match r {
        FromServer::Message { group_name, message } => {
            let mut out = String::from_str("{\"Message\":{\"group_name\":");
            append_quoted(&mut out, group_name.as_str());
            out.append(",\"message\":");
            append_quoted(&mut out, message.as_str());
            out.append("}}");
            assert(out@ =~= server_line(*r));
            out
        },
        FromServer::Error(text) => {
            let mut out = String::from_str("{\"Error\":");
            append_quoted(&mut out, text.as_str());
            out.append("}");
            assert(out@ =~= server_line(*r));
            out
        },
    }
}

} // verus!
