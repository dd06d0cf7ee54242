//! Inbound frames and the recogniser for the liveness probe.
//!
//! A text payload is either opaque text or a command envelope: a JSON object
//! with a `"command"` member. The one command the hub knows is the liveness
//! probe, an envelope with a member `"command"` whose value is the string
//! `"ping"`. Every other text, envelope or not, is an ordinary payload.
//!
//! The recogniser reads the object's members one after the other. It finds
//! where each value ends without checking the value any further, and it
//! compares member names and values byte by byte, as they are written.

use vstd::prelude::*;
use vstd::string::StringSliceAdditionalSpecFns;
use vstd::utf8::encode_utf8;

verus! {

/// One frame read from a connection.
#[derive(Debug)]
pub enum Inbound {
    /// A text frame with its payload.
    Text(String),
    /// A binary or control frame; the dispatcher ignores it.
    Other,
}

/// The byte `"`.
pub const QUOTE: u8 = 0x22;

/// The byte `\`.
pub const BACKSLASH: u8 = 0x5c;

/// The byte `,`.
pub const COMMA: u8 = 0x2c;

/// The byte `:`.
pub const COLON: u8 = 0x3a;

/// The byte `{`.
pub const OPEN_BRACE: u8 = 0x7b;

/// The byte `}`.
pub const CLOSE_BRACE: u8 = 0x7d;

/// The byte `[`.
pub const OPEN_BRACKET: u8 = 0x5b;

/// The byte `]`.
pub const CLOSE_BRACKET: u8 = 0x5d;

/// JSON whitespace: space, tab, line feed, carriage return.
pub open spec fn is_blank(b: u8) -> bool {
    b == 0x20 || b == 0x09 || b == 0x0a || b == 0x0d
}

/// A byte that opens an object or an array.
pub open spec fn opens(b: u8) -> bool {
    b == OPEN_BRACE || b == OPEN_BRACKET
}

/// A byte that closes an object or an array.
pub open spec fn closes(b: u8) -> bool {
    b == CLOSE_BRACE || b == CLOSE_BRACKET
}

/// A byte that cannot stand inside a number or a literal name.
pub open spec fn ends_scalar(b: u8) -> bool {
    is_blank(b) || opens(b) || closes(b) || b == COMMA || b == COLON || b == QUOTE
}

/// The first position at or behind `from` that holds no whitespace (the
/// length of `s` if there is none).
pub open spec fn skip_blanks(s: Seq<u8>, from: int) -> int
    decreases s.len() - from,
{
    if 0 <= from < s.len() && is_blank(s[from]) {
        skip_blanks(s, from + 1)
    } else {
        from
    }
}

/// `token` stands in `s` at position `at`.
pub open spec fn starts_at(s: Seq<u8>, at: int, token: Seq<u8>) -> bool {
    0 <= at && at + token.len() <= s.len() && s.subrange(at, at + token.len()) == token
}

/// Where the string literal ends whose inside starts at `from`: the position
/// behind the first quote that no backslash escapes, or `None` if the
/// literal is not closed.
pub open spec fn string_end(s: Seq<u8>, from: int) -> Option<int>
    decreases s.len() - from,
{
    if from < 0 || from >= s.len() {
        None
    } else if s[from] == QUOTE {
        Some(from + 1)
    } else if s[from] == BACKSLASH {
        if from + 2 <= s.len() {
            string_end(s, from + 2)
        } else {
            None
        }
    } else {
        string_end(s, from + 1)
    }
}

/// Where an object or array ends of which `depth` brackets are open at
/// `from`: the position behind the bracket that closes the outermost of
/// them. Brackets inside string literals do not count; `in_string` says
/// whether `from` stands inside one.
pub open spec fn nested_end(s: Seq<u8>, from: int, depth: int, in_string: bool) -> Option<int>
    decreases s.len() - from,
{
    if from < 0 || from >= s.len() {
        None
    } else if in_string {
        if s[from] == QUOTE {
            nested_end(s, from + 1, depth, false)
        } else if s[from] == BACKSLASH {
            if from + 2 <= s.len() {
                nested_end(s, from + 2, depth, true)
            } else {
                None
            }
        } else {
            nested_end(s, from + 1, depth, true)
        }
    } else if s[from] == QUOTE {
        nested_end(s, from + 1, depth, true)
    } else if opens(s[from]) {
        nested_end(s, from + 1, depth + 1, false)
    } else if closes(s[from]) {
        if depth <= 1 {
            Some(from + 1)
        } else {
            nested_end(s, from + 1, depth - 1, false)
        }
    } else {
        nested_end(s, from + 1, depth, false)
    }
}

/// Where the number or literal name ends that starts at `from`.
pub open spec fn scalar_end(s: Seq<u8>, from: int) -> int
    decreases s.len() - from,
{
    if 0 <= from < s.len() && !ends_scalar(s[from]) {
        scalar_end(s, from + 1)
    } else {
        from
    }
}

/// Where the value ends that starts at `at`: a string literal, an object or
/// array, or a number or literal name of at least one byte.
pub open spec fn value_end(s: Seq<u8>, at: int) -> Option<int> {
    if at < 0 || at >= s.len() {
        None
    } else if s[at] == QUOTE {
        string_end(s, at + 1)
    } else if opens(s[at]) {
        nested_end(s, at + 1, 1, false)
    } else if scalar_end(s, at) > at {
        Some(scalar_end(s, at))
    } else {
        None
    }
}

/// The bytes of `"command"`, quotes included.
pub open spec fn command_name() -> Seq<u8> {
    seq![0x22u8, 0x63u8, 0x6fu8, 0x6du8, 0x6du8, 0x61u8, 0x6eu8, 0x64u8, 0x22u8]
}

/// The bytes of `"ping"`, quotes included.
pub open spec fn ping_value() -> Seq<u8> {
    seq![0x22u8, 0x70u8, 0x69u8, 0x6eu8, 0x67u8, 0x22u8]
}

/// The member whose name spans `name..name_end` and whose value spans
/// `value..value_end` is `"command": "ping"`.
pub open spec fn is_ping_member(
    s: Seq<u8>,
    name: int,
    name_end: int,
    value: int,
    value_end: int,
) -> bool {
    name_end == name + 9 && starts_at(s, name, command_name()) && value_end == value + 6
        && starts_at(s, value, ping_value())
}

/// Reads the members of an object from `at`, where a member is expected, to
/// the brace that closes the object. Holds if the members are written as
/// `name : value` with commas between them, nothing but whitespace follows
/// the closing brace, and one of the members, or one before `at` as `found`
/// tells, is `"command": "ping"`. (Every member ends behind the place where
/// it starts; the test `at <= next` only shows that the reading ends.)
pub open spec fn members_hold_ping(s: Seq<u8>, at: int, found: bool) -> bool
    decreases s.len() - at,
{
    let name = skip_blanks(s, at);
    if !(0 <= name < s.len() && s[name] == QUOTE) {
        false
    } else {
        match string_end(s, name + 1) {
            None => false,
            Some(name_end) => {
                let sep = skip_blanks(s, name_end);
                if !(0 <= sep < s.len() && s[sep] == COLON) {
                    false
                } else {
                    let value = skip_blanks(s, sep + 1);
                    match value_end(s, value) {
                        None => false,
                        Some(value_end) => {
                            let hit = found || is_ping_member(s, name, name_end, value, value_end);
                            let next = skip_blanks(s, value_end);
                            if !(at <= next < s.len()) {
                                false
                            } else if s[next] == COMMA {
                                members_hold_ping(s, next + 1, hit)
                            } else if s[next] == CLOSE_BRACE {
                                hit && skip_blanks(s, next + 1) == s.len()
                            } else {
                                false
                            }
                        },
                    }
                }
            },
        }
    }
}

/// Whether the bytes are a liveness probe: an object, with nothing but
/// whitespace around it, that has a member `"command": "ping"`.
pub open spec fn is_probe(s: Seq<u8>) -> bool {
    let open = skip_blanks(s, 0);
    0 <= open < s.len() && s[open] == OPEN_BRACE && members_hold_ping(s, open + 1, false)
}

/// The bytes of the plain probe `{"command":"ping"}`.
pub open spec fn plain_probe() -> Seq<u8> {
    seq![OPEN_BRACE] + command_name() + seq![COLON] + ping_value() + seq![CLOSE_BRACE]
}

/// The plain probe is recognised as a liveness probe.
pub proof fn law_plain_probe_is_recognised()
    ensures
        is_probe(plain_probe()),
{
    let s = plain_probe();
    assert(s =~= seq![
        0x7bu8, 0x22u8, 0x63u8, 0x6fu8, 0x6du8, 0x6du8, 0x61u8, 0x6eu8, 0x64u8, 0x22u8, 0x3au8,
        0x22u8, 0x70u8, 0x69u8, 0x6eu8, 0x67u8, 0x22u8, 0x7du8,
    ]);
    reveal_with_fuel(skip_blanks, 2);
    reveal_with_fuel(string_end, 10);
    assert(skip_blanks(s, 0) == 0);
    assert(skip_blanks(s, 1) == 1);
    assert(string_end(s, 2) == Some(10int));
    assert(skip_blanks(s, 10) == 10);
    assert(skip_blanks(s, 11) == 11);
    assert(string_end(s, 12) == Some(17int));
    assert(value_end(s, 11) == Some(17int));
    assert(skip_blanks(s, 17) == 17);
    assert(skip_blanks(s, 18) == 18);
    assert(s.subrange(1, 10) =~= command_name());
    assert(s.subrange(11, 17) =~= ping_value());
    assert(is_ping_member(s, 1, 10, 11, 17));
    assert(members_hold_ping(s, 1, false));
}

/// Whether a text payload, as its UTF-8 bytes, is a liveness probe.
pub open spec fn is_probe_text(text: Seq<char>) -> bool {
    is_probe(encode_utf8(text))
}

/// A position as a mathematical integer.
spec fn lift(at: Option<usize>) -> Option<int> {
    match at {
        Some(i) => Some(i as int),
        None => None,
    }
}

fn skip_blanks_from(s: &[u8], from: usize) -> (at: usize)
    requires
        from <= s@.len(),
    ensures
        at == skip_blanks(s@, from as int),
        from <= at <= s@.len(),
{
    let mut at: usize = from;
    while at < s.len() && (s[at] == 0x20 || s[at] == 0x09 || s[at] == 0x0a || s[at] == 0x0d)
        invariant
            from <= at <= s@.len(),
            skip_blanks(s@, from as int) == skip_blanks(s@, at as int),
        decreases s@.len() - at,
    {
        at += 1;
    }
    at
}

fn token_at(s: &[u8], at: usize, token: &[u8]) -> (found: bool)
    requires
        at <= s@.len(),
    ensures
        found == starts_at(s@, at as int, token@),
{
    if token.len() > s.len() - at {
        return false;
    }
    let mut k: usize = 0;
    while k < token.len()
        invariant
            k <= token@.len(),
            at + token@.len() <= s@.len() <= usize::MAX,
            forall|j: int| 0 <= j < k ==> s@[at + j] == token@[j],
        decreases token@.len() - k,
    {
        if s[at + k] != token[k] {
            proof {
                let part = s@.subrange(at as int, at + token@.len());
                assert(part[k as int] == s@[at + k]);
            }
            return false;
        }
        k += 1;
    }
    proof {
        assert(s@.subrange(at as int, at + token@.len()) =~= token@);
    }
    true
}

fn find_string_end(s: &[u8], from: usize) -> (end: Option<usize>)
    requires
        from <= s@.len(),
    ensures
        lift(end) == string_end(s@, from as int),
        end matches Some(e) ==> from < e <= s@.len(),
{
    let n: usize = s.len();
    let mut j: usize = from;
    while j < n
        invariant
            from <= j <= n,
            n == s@.len(),
            string_end(s@, from as int) == string_end(s@, j as int),
        decreases n - j,
    {
        let b: u8 = s[j];
        if b == QUOTE {
            return Some(j + 1);
        }
        if b == BACKSLASH {
            if n - j < 2 {
                return None;
            }
            j += 2;
        } else {
            j += 1;
        }
    }
    None
}

fn find_nested_end(s: &[u8], from: usize) -> (end: Option<usize>)
    requires
        1 <= from <= s@.len(),
    ensures
        lift(end) == nested_end(s@, from as int, 1, false),
        end matches Some(e) ==> from < e <= s@.len(),
{
    let n: usize = s.len();
    let mut j: usize = from;
    let mut depth: usize = 1;
    let mut in_string: bool = false;
    while j < n
        invariant
            from <= j <= n,
            n == s@.len(),
            1 <= from,
            1 <= depth <= j - from + 1,
            nested_end(s@, from as int, 1, false) == nested_end(
                s@,
                j as int,
                depth as int,
                in_string,
            ),
        decreases n - j,
    {
        let b: u8 = s[j];
        if in_string {
            if b == QUOTE {
                in_string = false;
                j += 1;
            } else if b == BACKSLASH {
                if n - j < 2 {
                    return None;
                }
                j += 2;
            } else {
                j += 1;
            }
        } else if b == QUOTE {
            in_string = true;
            j += 1;
        } else if b == OPEN_BRACE || b == OPEN_BRACKET {
            depth += 1;
            j += 1;
        } else if b == CLOSE_BRACE || b == CLOSE_BRACKET {
            if depth <= 1 {
                return Some(j + 1);
            }
            depth -= 1;
            j += 1;
        } else {
            j += 1;
        }
    }
    None
}

fn find_scalar_end(s: &[u8], from: usize) -> (end: usize)
    requires
        from <= s@.len(),
    ensures
        end == scalar_end(s@, from as int),
        from <= end <= s@.len(),
{
    let mut j: usize = from;
    while j < s.len() && !(s[j] == 0x20 || s[j] == 0x09 || s[j] == 0x0a || s[j] == 0x0d || s[j]
        == OPEN_BRACE || s[j] == OPEN_BRACKET || s[j] == CLOSE_BRACE || s[j] == CLOSE_BRACKET
        || s[j] == COMMA || s[j] == COLON || s[j] == QUOTE)
        invariant
            from <= j <= s@.len(),
            scalar_end(s@, from as int) == scalar_end(s@, j as int),
        decreases s@.len() - j,
    {
        j += 1;
    }
    j
}

fn find_value_end(s: &[u8], at: usize) -> (end: Option<usize>)
    requires
        at <= s@.len(),
    ensures
        lift(end) == value_end(s@, at as int),
        end matches Some(e) ==> at < e <= s@.len(),
{
    if at >= s.len() {
        return None;
    }
    let b: u8 = s[at];
    if b == QUOTE {
        find_string_end(s, at + 1)
    } else if b == OPEN_BRACE || b == OPEN_BRACKET {
        find_nested_end(s, at + 1)
    } else {
        let end = find_scalar_end(s, at);
        if end > at {
            Some(end)
        } else {
            None
        }
    }
}

/// Whether `text` is a liveness probe.
pub fn is_ping(text: &str) -> (probe: bool)
    ensures
        probe == is_probe_text(text@),
{
    let s = text.as_bytes();
    assert(s@ == text.spec_bytes());
    let n: usize = s.len();
    let open = skip_blanks_from(s, 0);
    if open >= n || s[open] != OPEN_BRACE {
        return false;
    }
    let command: [u8; 9] = [0x22, 0x63, 0x6f, 0x6d, 0x6d, 0x61, 0x6e, 0x64, 0x22];
    let ping: [u8; 6] = [0x22, 0x70, 0x69, 0x6e, 0x67, 0x22];
    proof {
        assert(command@ =~= command_name());
        assert(ping@ =~= ping_value());
    }
    let mut at: usize = open + 1;
    let mut found: bool = false;
    loop
        invariant
            at <= n,
            n == s@.len(),
            s@ == text.spec_bytes(),
            command@ == command_name(),
            ping@ == ping_value(),
            is_probe(s@) == members_hold_ping(s@, at as int, found),
        decreases n - at,
    {
        let name = skip_blanks_from(s, at);
        if name >= n || s[name] != QUOTE {
            return false;
        }
        let name_end = match find_string_end(s, name + 1) {
            Some(end) => end,
            None => {
                return false;
            },
        };
        let sep = skip_blanks_from(s, name_end);
        if sep >= n || s[sep] != COLON {
            return false;
        }
        let value = skip_blanks_from(s, sep + 1);
        let value_end = match find_value_end(s, value) {
            Some(end) => end,
            None => {
                return false;
            },
        };
        let hit = found || (name_end - name == 9 && token_at(s, name, command.as_slice())
            && value_end - value == 6 && token_at(s, value, ping.as_slice()));
        let next = skip_blanks_from(s, value_end);
        if next >= n {
            return false;
        }
        if s[next] == COMMA {
            at = next + 1;
            found = hit;
        } else if s[next] == CLOSE_BRACE {
            return hit && skip_blanks_from(s, next + 1) == n;
        } else {
            return false;
        }
    }
}

} // verus!
