//! Parsing of the client's console commands.
//!
//! A line of input either names a command — `join GROUP`, or
//! `post GROUP MESSAGE...` — or is rejected. Tokens are runs of
//! non-whitespace; the message is everything after the group token with its
//! leading whitespace removed.
use vstd::prelude::*;

use crate::FromClient;

verus! {

/// The characters the tokenizer treats as whitespace: the Unicode
/// white-space code points.
pub open spec fn is_ws(c: char) -> bool {
    ||| c == ' '
    ||| c == '\t'
    ||| c == '\n'
    ||| c == '\u{b}'
    ||| c == '\u{c}'
    ||| c == '\r'
    ||| c == '\u{85}'
    ||| c == '\u{a0}'
    ||| c == '\u{1680}'
    ||| ((c as u32) >= 0x2000 && (c as u32) <= 0x200a)
    ||| c == '\u{2028}'
    ||| c == '\u{2029}'
    ||| c == '\u{202f}'
    ||| c == '\u{205f}'
    ||| c == '\u{3000}'
}

fn is_ws_exec(c: char) -> (b: bool)
    ensures
        b == is_ws(c),
{
    let u = c as u32;
    u == 0x20 || u == 0x9 || u == 0xa || u == 0xb || u == 0xc || u == 0xd || u == 0x85
        || u == 0xa0 || u == 0x1680 || (u >= 0x2000 && u <= 0x200a) || u == 0x2028
        || u == 0x2029 || u == 0x202f || u == 0x205f || u == 0x3000
}

/// The first position at or after `i` holding a non-whitespace character,
/// or the end of the text.
pub open spec fn first_non_ws(v: Seq<char>, i: int) -> int
    decreases v.len() - i when 0 <= i <= v.len()
{
    if i >= v.len() {
        i
    } else if is_ws(v[i]) {
        first_non_ws(v, i + 1)
    } else {
        i
    }
}

/// The first position at or after `i` holding a whitespace character, or
/// the end of the text.
pub open spec fn token_end(v: Seq<char>, i: int) -> int
    decreases v.len() - i when 0 <= i <= v.len()
{
    if i >= v.len() {
        i
    } else if is_ws(v[i]) {
        i
    } else {
        token_end(v, i + 1)
    }
}

/// Where the leading whitespace ends: within bounds, and at a
/// non-whitespace character unless the text ran out.
proof fn lemma_first_non_ws_bounds(v: Seq<char>, i: int)
    requires
        0 <= i <= v.len(),
    ensures
        i <= first_non_ws(v, i) <= v.len(),
        first_non_ws(v, i) < v.len() ==> !is_ws(v[first_non_ws(v, i)]),
    decreases v.len() - i,
{
    if i < v.len() && is_ws(v[i]) {
        lemma_first_non_ws_bounds(v, i + 1);
    }
}

/// Where a token ends: within bounds, and past at least one character when
/// it starts at a non-whitespace character.
proof fn lemma_token_end_bounds(v: Seq<char>, i: int)
    requires
        0 <= i <= v.len(),
    ensures
        i <= token_end(v, i) <= v.len(),
        i < v.len() && !is_ws(v[i]) ==> token_end(v, i) > i,
    decreases v.len() - i,
{
    if i < v.len() && !is_ws(v[i]) {
        lemma_token_end_bounds(v, i + 1);
    }
}

fn skip_ws(input: &str, n: usize, from: usize) -> (a: usize)
    requires
        n == input@.len(),
        from <= n,
    ensures
        from <= a <= n,
        a as int == first_non_ws(input@, from as int),
{
    let mut a = from;
    while a < n
        invariant
            from <= a <= n,
            n == input@.len(),
            first_non_ws(input@, from as int) == first_non_ws(input@, a as int),
        decreases n - a,
    {
        if !is_ws_exec(input.get_char(a)) {
            return a;
        }
        a += 1;
    }
    a
}

fn scan_token(input: &str, n: usize, from: usize) -> (b: usize)
    requires
        n == input@.len(),
        from <= n,
    ensures
        from <= b <= n,
        b as int == token_end(input@, from as int),
{
    let mut b = from;
    while b < n
        invariant
            from <= b <= n,
            n == input@.len(),
            token_end(input@, from as int) == token_end(input@, b as int),
        decreases n - b,
    {
        if is_ws_exec(input.get_char(b)) {
            return b;
        }
        b += 1;
    }
    b
}

/// Split off the first whitespace-delimited token: the token and everything
/// after it (leading whitespace of the remainder kept), or nothing when the
/// text holds no non-whitespace character.
pub fn get_next_token<'a>(input: &'a str) -> (r: Option<(&'a str, &'a str)>)
    ensures
        match r {
            Some((token, rest)) => ({
                let a = first_non_ws(input@, 0);
                let b = token_end(input@, a);
                &&& a < input@.len()
                &&& token@ == input@.subrange(a, b)
                &&& token@.len() > 0
                &&& rest@ == input@.subrange(b, input@.len() as int)
            }),
            None => first_non_ws(input@, 0) == input@.len(),
        },
{
    let n = input.unicode_len();
    let a = skip_ws(input, n, 0);
    if a >= n {
        return None;
    }
    let b = scan_token(input, n, a);
    proof {
        lemma_first_non_ws_bounds(input@, 0);
        lemma_token_end_bounds(input@, a as int);
    }
    let token = input.substring_char(a, b);
    let rest = input.substring_char(b, n);
    Some((token, rest))
}

/// The content of a parsed console command.
pub enum Command {
    Join { group_name: Seq<char> },
    Post { group_name: Seq<char>, message: Seq<char> },
}

/// The request a parsed command stands for.
pub open spec fn command_of(r: FromClient) -> Command {
    match r {
        FromClient::Join { group_name } => Command::Join { group_name: group_name@ },
        FromClient::Post { group_name, message } => Command::Post {
            group_name: group_name@,
            message: message@,
        },
    }
}

/// What a line of console input means: `post GROUP MESSAGE...` publishes,
/// `join GROUP` (and nothing after the group) subscribes, anything else is
/// rejected.
pub open spec fn parse_command_spec(l: Seq<char>) -> Option<Command> {
    let a = first_non_ws(l, 0);
    if a >= l.len() {
        None
    } else {
        let b = token_end(l, a);
        let cmd = l.subrange(a, b);
        let rest = l.subrange(b, l.len() as int);
        let a2 = first_non_ws(rest, 0);
        if a2 >= rest.len() {
            None
        } else {
            let b2 = token_end(rest, a2);
            let group = rest.subrange(a2, b2);
            let rest2 = rest.subrange(b2, rest.len() as int);
            let tail = first_non_ws(rest2, 0);
            if cmd == "post"@ {
                Some(Command::Post {
                    group_name: group,
                    message: rest2.subrange(tail, rest2.len() as int),
                })
            } else if cmd == "join"@ {
                if tail == rest2.len() {
                    Some(Command::Join { group_name: group })
                } else {
                    None
                }
            } else {
                None
            }
        }
    }
}

fn str_eq_lit(s: &str, lit: &str) -> (b: bool)
    ensures
        b == (s@ == lit@),
{
    let n = s.unicode_len();
    let m = lit.unicode_len();
    if n != m {
        return false;
    }
    let mut i: usize = 0;
    while i < n
        invariant
            i <= n,
            n == s@.len(),
            n == lit@.len(),
            forall|k: int| 0 <= k < i ==> s@[k] == lit@[k],
        decreases n - i,
    {
        if s.get_char(i) != lit.get_char(i) {
            return false;
        }
        i += 1;
    }
    assert(s@ =~= lit@);
    true
}

fn trim_start_exec<'a>(s: &'a str, n: usize) -> (r: &'a str)
    requires
        n == s@.len(),
    ensures
        r@ == s@.subrange(first_non_ws(s@, 0), s@.len() as int),
{
    let a = skip_ws(s, n, 0);
    s.substring_char(a, n)
}

/// Parse one line of console input as a request: exactly the commands that
/// `parse_command_spec` accepts, with their group and message text.
pub fn parse_command(line: &str) -> (r: Option<FromClient>)
    ensures
        match r {
            Some(req) => parse_command_spec(line@) == Some(command_of(req)),
            None => parse_command_spec(line@) is None,
        },
{
    let (command, rest) = match get_next_token(line) {
        Some(p) => p,
        None => {
            return None;
        },
    };
    let (group, rest2) = match get_next_token(rest) {
        Some(p) => p,
        None => {
            return None;
        },
    };
    let rest2_len = rest2.unicode_len();
    if str_eq_lit(command, "post") {
        let message = String::from_str(trim_start_exec(rest2, rest2_len));
        Some(FromClient::Post { group_name: String::from_str(group), message })
    } else if str_eq_lit(command, "join") {
        let t = trim_start_exec(rest2, rest2_len);
        proof {
            lemma_first_non_ws_bounds(rest2@, 0);
        }
        if t.unicode_len() != 0 {
            assert(first_non_ws(rest2@, 0) != rest2@.len());
            return None;
        }
        assert(first_non_ws(rest2@, 0) == rest2@.len());
        Some(FromClient::Join { group_name: String::from_str(group) })
    } else {
        None
    }
}

} // verus!
