use vstd::prelude::*;

use crate::hash::hex_digit_char;
use crate::strings::{push_str, string_push};
use crate::strmap::{keys_distinct, StrMap};

verus! {

/// The escape sequence of one character inside a JSON string: quote and
/// backslash get a backslash escape, control characters a `\u00XX` escape,
/// anything else stands as itself.
pub open spec fn json_escape_char(c: char) -> Seq<char> {
    if c == '"' {
        seq!['\\', '"']
    } else if c == '\\' {
        seq!['\\', '\\']
    } else if (c as u32) < 0x20 {
        seq!['\\', 'u', '0', '0', hex_digit_char((c as u32 / 16) as u8), hex_digit_char(
            (c as u32 % 16) as u8,
        )]
    } else {
        seq![c]
    }
}

/// The escaped body of a JSON string.
pub open spec fn json_escape(s: Seq<char>) -> Seq<char>
    decreases s.len(),
{
    if s.len() == 0 {
        Seq::<char>::empty()
    } else {
        json_escape_char(s[0]) + json_escape(s.drop_first())
    }
}

/// A JSON string: the escaped body between quotes.
pub open spec fn json_string(s: Seq<char>) -> Seq<char> {
    seq!['"'] + json_escape(s) + seq!['"']
}

/// One serialized member: key, colon, value.
pub open spec fn json_member(e: (Seq<char>, Seq<char>)) -> Seq<char> {
    json_string(e.0) + seq![':'] + json_string(e.1)
}

/// Serialized members, comma-separated.
pub open spec fn json_members(es: Seq<(Seq<char>, Seq<char>)>) -> Seq<char>
    decreases es.len(),
{
    if es.len() == 0 {
        Seq::<char>::empty()
    } else if es.len() == 1 {
        json_member(es[0])
    } else {
        json_member(es[0]) + seq![','] + json_members(es.drop_first())
    }
}

/// The serialized form of a mapping: a JSON object of string members.
pub open spec fn json_object(es: Seq<(Seq<char>, Seq<char>)>) -> Seq<char> {
    seq!['{'] + json_members(es) + seq!['}']
}

/// JSON whitespace.
pub open spec fn is_ws(c: char) -> bool {
    c == ' ' || c == '\t' || c == '\n' || c == '\r'
}

/// The input with leading whitespace removed.
pub open spec fn skip_ws(s: Seq<char>) -> Seq<char>
    decreases s.len(),
{
    if s.len() > 0 && is_ws(s[0]) {
        skip_ws(s.drop_first())
    } else {
        s
    }
}

/// The value of one hexadecimal digit character, if it is one.
pub open spec fn hex_val(c: char) -> Option<u32> {
    let v = c as u32;
    if 0x30 <= v && v <= 0x39 {
        Some((v - 0x30) as u32)
    } else if 0x61 <= v && v <= 0x66 {
        Some((v - 0x61 + 10) as u32)
    } else if 0x41 <= v && v <= 0x46 {
        Some((v - 0x41 + 10) as u32)
    } else {
        None
    }
}

/// The character an escape letter stands for, if it is a valid single escape.
pub open spec fn unescape_char(c: char) -> Option<char> {
    if c == '"' {
        Some('"')
    } else if c == '\\' {
        Some('\\')
    } else if c == '/' {
        Some('/')
    } else if c == 'b' {
        Some('\u{0008}')
    } else if c == 'f' {
        Some('\u{000c}')
    } else if c == 'n' {
        Some('\n')
    } else if c == 'r' {
        Some('\r')
    } else if c == 't' {
        Some('\t')
    } else {
        None
    }
}

/// Parses the body of a JSON string after its opening quote: the decoded
/// content and the remaining input after the closing quote.
pub open spec fn parse_string_body(s: Seq<char>) -> Option<(Seq<char>, Seq<char>)>
    decreases s.len(),
{
    if s.len() == 0 {
        None
    } else if s[0] == '"' {
        Some((Seq::<char>::empty(), s.drop_first()))
    } else if s[0] == '\\' {
        if s.len() < 2 {
            None
        } else if s[1] == 'u' {
            if s.len() < 6 {
                None
            } else {
                match (hex_val(s[2]), hex_val(s[3]), hex_val(s[4]), hex_val(s[5])) {
                    (Some(a), Some(b), Some(c), Some(d)) => {
                        let v = (((a * 16 + b) * 16 + c) * 16 + d) as u32;
                        if 0xD800 <= v && v < 0xE000 {
                            None
                        } else {
                            match parse_string_body(s.skip(6)) {
                                Some((t, rest)) => Some((seq![v as char] + t, rest)),
                                None => None,
                            }
                        }
                    },
                    _ => None,
                }
            }
        } else {
            match unescape_char(s[1]) {
                Some(c) => match parse_string_body(s.skip(2)) {
                    Some((t, rest)) => Some((seq![c] + t, rest)),
                    None => None,
                },
                None => None,
            }
        }
    } else if (s[0] as u32) < 0x20 {
        None
    } else {
        match parse_string_body(s.drop_first()) {
            Some((t, rest)) => Some((seq![s[0]] + t, rest)),
            None => None,
        }
    }
}

/// Parses a quoted JSON string.
pub open spec fn parse_string_q(s: Seq<char>) -> Option<(Seq<char>, Seq<char>)> {
    if s.len() > 0 && s[0] == '"' {
        parse_string_body(s.drop_first())
    } else {
        None
    }
}

/// Parses the members of an object from the first key on, up to and
/// including the closing brace, requiring the input to end after it.
pub open spec fn parse_members(s: Seq<char>, fuel: nat) -> Option<Seq<(Seq<char>, Seq<char>)>>
    decreases fuel,
{
    if fuel == 0 {
        None
    } else {
        match parse_string_q(s) {
            None => None,
            Some((k, r1)) => {
                let r2 = skip_ws(r1);
                if r2.len() == 0 || r2[0] != ':' {
                    None
                } else {
                    let r3 = skip_ws(r2.drop_first());
                    match parse_string_q(r3) {
                        None => None,
                        Some((v, r4)) => {
                            let r5 = skip_ws(r4);
                            if r5.len() == 0 {
                                None
                            } else if r5[0] == ',' {
                                let r6 = skip_ws(r5.drop_first());
                                match parse_members(r6, (fuel - 1) as nat) {
                                    Some(rest) => Some(seq![(k, v)] + rest),
                                    None => None,
                                }
                            } else if r5[0] == '}' {
                                if skip_ws(r5.drop_first()).len() == 0 {
                                    Some(seq![(k, v)])
                                } else {
                                    None
                                }
                            } else {
                                None
                            }
                        },
                    }
                }
            },
        }
    }
}

/// Parses a whole flat JSON object of string members. `None` on any input
/// that is not one.
pub open spec fn spec_parse(s: Seq<char>) -> Option<Seq<(Seq<char>, Seq<char>)>> {
    let t0 = skip_ws(s);
    if t0.len() == 0 || t0[0] != '{' {
        None
    } else {
        let t1 = skip_ws(t0.drop_first());
        if t1.len() == 0 {
            None
        } else if t1[0] == '}' {
            if skip_ws(t1.drop_first()).len() == 0 {
                Some(Seq::<(Seq<char>, Seq<char>)>::empty())
            } else {
                None
            }
        } else {
            parse_members(t1, s.len())
        }
    }
}

/// The lowercase hexadecimal digit of a value below sixteen.
fn hex_digit(v: u8) -> (r: char)
    requires
        v < 16,
    ensures
        r == hex_digit_char(v),
{
    match v {
        0 => '0',
        1 => '1',
        2 => '2',
        3 => '3',
        4 => '4',
        5 => '5',
        6 => '6',
        7 => '7',
        8 => '8',
        9 => '9',
        10 => 'a',
        11 => 'b',
        12 => 'c',
        13 => 'd',
        14 => 'e',
        _ => 'f',
    }
}

/// Appends the serialized form of one string to the output.
fn encode_string_into(out: &mut String, s: &str)
    ensures
        final(out)@ == old(out)@ + json_string(s@),
{
    string_push(out, '"');
    let ghost base = out@;
    let n: usize = s.unicode_len();
    let mut i: usize = 0;
    while i < n
        invariant
            n == s@.len(),
            0 <= i <= n,
            out@ == base + json_escape(s@.subrange(0, i as int)),
            base == old(out)@ + seq!['"'],
        decreases n - i,
    {
        let ghost prev = out@;
        let c = s.get_char(i);
        if c == '"' {
            string_push(out, '\\');
            string_push(out, '"');
        } else if c == '\\' {
            string_push(out, '\\');
            string_push(out, '\\');
        } else if (c as u32) < 0x20 {
            let v = c as u32;
            string_push(out, '\\');
            string_push(out, 'u');
            string_push(out, '0');
            string_push(out, '0');
            string_push(out, hex_digit((v / 16) as u8));
            string_push(out, hex_digit((v % 16) as u8));
        } else {
            string_push(out, c);
        }
        proof {
            assert(out@ =~= prev + json_escape_char(s@[i as int]));
            lemma_escape_snoc(s@.subrange(0, i + 1));
            assert(s@.subrange(0, i + 1).drop_last() =~= s@.subrange(0, i as int));
            assert(out@ =~= base + json_escape(s@.subrange(0, i + 1)));
        }
        i += 1;
    }
    proof {
        assert(s@.subrange(0, n as int) =~= s@);
    }
    string_push(out, '"');
    proof {
        assert(out@ =~= old(out)@ + json_string(s@));
    }
}

/// The escape of a sequence ends with the escape of its last character.
proof fn lemma_escape_snoc(s: Seq<char>)
    requires
        s.len() > 0,
    ensures
        json_escape(s) == json_escape(s.drop_last()) + json_escape_char(s.last()),
    decreases s.len(),
{
    if s.len() == 1 {
        assert(s.drop_first() =~= Seq::<char>::empty());
        assert(s.drop_last() =~= Seq::<char>::empty());
        assert(json_escape(s) =~= json_escape_char(s[0]) + json_escape(s.drop_first()));
        assert(json_escape(s) =~= json_escape(s.drop_last()) + json_escape_char(s.last()));
    } else {
        lemma_escape_snoc(s.drop_first());
        assert(s.drop_first().drop_last() =~= s.drop_last().drop_first());
        assert(s.drop_last().len() > 0 && s.drop_last()[0] == s[0]);
        assert(json_escape(s.drop_last()) == json_escape_char(s[0]) + json_escape(
            s.drop_last().drop_first(),
        ));
        assert(s.drop_first().last() == s.last());
        assert(json_escape(s) =~= json_escape(s.drop_last()) + json_escape_char(s.last()));
    }
}

/// Serialized members end with the serialization of the last member.
proof fn lemma_members_snoc(es: Seq<(Seq<char>, Seq<char>)>)
    requires
        es.len() > 0,
    ensures
        es.len() == 1 ==> json_members(es) == json_member(es[0]),
        es.len() > 1 ==> json_members(es) == json_members(es.drop_last()) + seq![','] + json_member(
            es.last(),
        ),
    decreases es.len(),
{
    if es.len() > 1 {
        lemma_members_snoc(es.drop_first());
        assert(es.drop_first().drop_last() =~= es.drop_last().drop_first());
        if es.len() == 2 {
            assert(es.drop_last().len() == 1);
            assert(es.drop_last()[0] == es[0]);
            assert(json_members(es.drop_last()) == json_member(es[0]));
            assert(es.drop_first().len() == 1);
            assert(json_members(es.drop_first()) == json_member(es[1]));
            assert(es.drop_first()[0] == es[1] && es.last() == es[1]);
            assert(json_members(es) =~= json_members(es.drop_last()) + seq![','] + json_member(
                es.last(),
            ));
        } else {
            assert(es.drop_last().len() > 1);
            assert(es.drop_last()[0] == es[0]);
            assert(json_members(es.drop_last()) == json_member(es[0]) + seq![','] + json_members(
                es.drop_last().drop_first(),
            ));
            assert(es.drop_first().last() == es.last());
            assert(json_members(es) =~= json_members(es.drop_last()) + seq![','] + json_member(
                es.last(),
            ));
        }
    }
}

/// Serializes a metadata mapping: a flat JSON object, one member for each
/// entry, in entry order. An absent mapping serializes as the empty object.
pub fn metadata_to_string(metadata: Option<&StrMap>) -> (r: String)
    ensures
        match metadata {
            Some(m) => r@ == json_object(m@),
            None => r@ == json_object(Seq::<(Seq<char>, Seq<char>)>::empty()),
        },
{
    let mut out: String = String::new();
    string_push(&mut out, '{');
    match metadata {
        Some(m) => {
            let n: usize = m.len();
            let mut i: usize = 0;
            while i < n
                invariant
                    n == m@.len(),
                    0 <= i <= n,
                    out@ == seq!['{'] + json_members(m@.subrange(0, i as int)),
                decreases n - i,
            {
                let ghost prev = out@;
                if i > 0 {
                    string_push(&mut out, ',');
                }
                let (k, v) = m.pair_at(i);
                let ks = k.clone();
                let vs = v.clone();
                encode_string_into(&mut out, ks.as_str());
                string_push(&mut out, ':');
                encode_string_into(&mut out, vs.as_str());
                proof {
                    lemma_members_snoc(m@.subrange(0, i + 1));
                    assert(m@.subrange(0, i + 1).drop_last() =~= m@.subrange(0, i as int));
                    assert(m@.subrange(0, i + 1).last() == m@[i as int]);
                    if i == 0 {
                        assert(m@.subrange(0, 1).len() == 1);
                        assert(out@ =~= prev + json_member(m@[0]));
                        assert(out@ =~= seq!['{'] + json_members(m@.subrange(0, 1)));
                    } else {
                        assert(out@ =~= prev + seq![','] + json_member(m@[i as int]));
                        assert(out@ =~= seq!['{'] + json_members(m@.subrange(0, i + 1)));
                    }
                }
                i += 1;
            }
            proof {
                assert(m@.subrange(0, n as int) =~= m@);
            }
        },
        None => {
            proof {
                assert(json_members(Seq::<(Seq<char>, Seq<char>)>::empty())
                    =~= Seq::<char>::empty());
            }
        },
    }
    string_push(&mut out, '}');
    proof {
        match metadata {
            Some(m) => {
                assert(out@ =~= json_object(m@));
            },
            None => {
                assert(out@ =~= json_object(Seq::<(Seq<char>, Seq<char>)>::empty()));
            },
        }
    }
    out
}

/// Serializes an internal info mapping; the same format as metadata.
pub fn internal_info_to_string(info: &StrMap) -> (r: String)
    ensures
        r@ == json_object(info@),
{
    metadata_to_string(Some(info))
}

/// The ghost entries of an owned pair list.
pub open spec fn pairs_view(v: Seq<(String, String)>) -> Seq<(Seq<char>, Seq<char>)> {
    Seq::new(v.len(), |i: int| (v[i].0@, v[i].1@))
}

/// Relies on char::from_u32: a scalar value outside the surrogate range and
/// below the Unicode maximum converts to the character of that value.
#[verifier::external_body]
fn char_from_scalar(v: u32) -> (r: char)
    requires
        !(0xD800 <= v && v < 0xE000),
        v < 0x110000,
    ensures
        r == v as char,
{
    char::from_u32(v).unwrap_or(' ')
}

/// The value of one hexadecimal digit character.
fn hex_val_at(c: char) -> (r: Option<u32>)
    ensures
        r == hex_val(c),
{
    let v = c as u32;
    if 0x30 <= v && v <= 0x39 {
        Some(v - 0x30)
    } else if 0x61 <= v && v <= 0x66 {
        Some(v - 0x61 + 10)
    } else if 0x41 <= v && v <= 0x46 {
        Some(v - 0x41 + 10)
    } else {
        None
    }
}

/// Advances past whitespace.
fn skip_ws_at(s: &str, i: usize) -> (r: usize)
    requires
        i <= s@.len(),
    ensures
        i <= r <= s@.len(),
        s@.skip(r as int) == skip_ws(s@.skip(i as int)),
    decreases s@.len() - i,
{
    let n: usize = s.unicode_len();
    if i < n {
        let c = s.get_char(i);
        if c == ' ' || c == '\t' || c == '\n' || c == '\r' {
            proof {
                assert(s@.skip(i as int)[0] == s@[i as int]);
                assert(s@.skip(i as int).drop_first() =~= s@.skip(i + 1));
            }
            return skip_ws_at(s, i + 1);
        }
    }
    proof {
        if i < n {
            assert(s@.skip(i as int)[0] == s@[i as int]);
            assert(!is_ws(s@.skip(i as int)[0]));
        } else {
            assert(s@.skip(i as int).len() == 0);
        }
    }
    i
}

/// Parses the body of a JSON string after its opening quote.
fn parse_string_body_at(s: &str, i: usize) -> (r: Option<(String, usize)>)
    requires
        i <= s@.len(),
    ensures
        match r {
            Some(p) => i <= p.1 <= s@.len() && parse_string_body(s@.skip(i as int)) == Some(
                (p.0@, s@.skip(p.1 as int)),
            ),
            None => parse_string_body(s@.skip(i as int)) is None,
        },
    decreases s@.len() - i,
{
    let ghost t = s@.skip(i as int);
    let n: usize = s.unicode_len();
    if i >= n {
        return None;
    }
    proof {
        assert(t[0] == s@[i as int]);
        assert(t.len() == n - i);
    }
    let c = s.get_char(i);
    if c == '"' {
        proof {
            assert(t.drop_first() =~= s@.skip(i + 1));
        }
        return Some((String::new(), i + 1));
    }
    if c == '\\' {
        if i + 1 >= n {
            return None;
        }
        proof {
            assert(t[1] == s@[i + 1]);
        }
        let e = s.get_char(i + 1);
        if e == 'u' {
            if n - i < 6 {
                return None;
            }
            proof {
                assert(t[2] == s@[i + 2]);
                assert(t[3] == s@[i + 3]);
                assert(t[4] == s@[i + 4]);
                assert(t[5] == s@[i + 5]);
            }
            let h0 = hex_val_at(s.get_char(i + 2));
            let h1 = hex_val_at(s.get_char(i + 3));
            let h2 = hex_val_at(s.get_char(i + 4));
            let h3 = hex_val_at(s.get_char(i + 5));
            match (h0, h1, h2, h3) {
                (Some(a), Some(b), Some(cc), Some(d)) => {
                    let v: u32 = ((a * 16 + b) * 16 + cc) * 16 + d;
                    if 0xD800 <= v && v < 0xE000 {
                        return None;
                    }
                    let decoded = char_from_scalar(v);
                    match parse_string_body_at(s, i + 6) {
                        Some((tail, j)) => {
                            let mut out: String = String::new();
                            string_push(&mut out, decoded);
                            push_str(&mut out, tail.as_str());
                            proof {
                                assert(t.skip(6) =~= s@.skip(i + 6));
                                assert(out@ =~= seq![(v as char)] + tail@);
                            }
                            Some((out, j))
                        },
                        None => {
                            proof {
                                assert(t.skip(6) =~= s@.skip(i + 6));
                            }
                            None
                        },
                    }
                },
                _ => {
                    return None;
                },
            }
        } else {
            let un: Option<char> = if e == '"' {
                Some('"')
            } else if e == '\\' {
                Some('\\')
            } else if e == '/' {
                Some('/')
            } else if e == 'b' {
                Some('\u{0008}')
            } else if e == 'f' {
                Some('\u{000c}')
            } else if e == 'n' {
                Some('\n')
            } else if e == 'r' {
                Some('\r')
            } else if e == 't' {
                Some('\t')
            } else {
                None
            };
            proof {
                assert(un == unescape_char(s@[i + 1]));
            }
            match un {
                Some(u) => match parse_string_body_at(s, i + 2) {
                    Some((tail, j)) => {
                        let mut out: String = String::new();
                        string_push(&mut out, u);
                        push_str(&mut out, tail.as_str());
                        proof {
                            assert(t.skip(2) =~= s@.skip(i + 2));
                            assert(out@ =~= seq![u] + tail@);
                        }
                        Some((out, j))
                    },
                    None => {
                        proof {
                            assert(t.skip(2) =~= s@.skip(i + 2));
                        }
                        None
                    },
                },
                None => None,
            }
        }
    } else if (c as u32) < 0x20 {
        None
    } else {
        match parse_string_body_at(s, i + 1) {
            Some((tail, j)) => {
                let mut out: String = String::new();
                string_push(&mut out, c);
                push_str(&mut out, tail.as_str());
                proof {
                    assert(t.drop_first() =~= s@.skip(i + 1));
                    assert(out@ =~= seq![c] + tail@);
                }
                Some((out, j))
            },
            None => {
                proof {
                    assert(t.drop_first() =~= s@.skip(i + 1));
                }
                None
            },
        }
    }
}

/// Parses a quoted JSON string.
fn parse_string_q_at(s: &str, i: usize) -> (r: Option<(String, usize)>)
    requires
        i <= s@.len(),
    ensures
        match r {
            Some(p) => i <= p.1 <= s@.len() && parse_string_q(s@.skip(i as int)) == Some(
                (p.0@, s@.skip(p.1 as int)),
            ),
            None => parse_string_q(s@.skip(i as int)) is None,
        },
{
    let n: usize = s.unicode_len();
    if i < n {
        proof {
            assert(s@.skip(i as int)[0] == s@[i as int]);
        }
        if s.get_char(i) == '"' {
            proof {
                assert(s@.skip(i as int).drop_first() =~= s@.skip(i + 1));
            }
            return parse_string_body_at(s, i + 1);
        }
        return None;
    }
    proof {
        assert(s@.skip(i as int).len() == 0);
    }
    None
}

/// Parses the members of an object from the first key on.
fn parse_members_at(s: &str, i: usize, fuel: usize) -> (r: Option<Vec<(String, String)>>)
    requires
        i <= s@.len(),
    ensures
        match r {
            Some(v) => parse_members(s@.skip(i as int), fuel as nat) == Some(pairs_view(v@)),
            None => parse_members(s@.skip(i as int), fuel as nat) is None,
        },
    decreases fuel,
{
    let ghost t = s@.skip(i as int);
    if fuel == 0 {
        return None;
    }
    let kj = parse_string_q_at(s, i);
    match kj {
        None => None,
        Some((k, j1)) => {
            let j2 = skip_ws_at(s, j1);
            let n: usize = s.unicode_len();
            proof {
                assert(s@.skip(j2 as int) == skip_ws(s@.skip(j1 as int)));
            }
            if j2 >= n {
                proof {
                    assert(s@.skip(j2 as int).len() == 0);
                }
                return None;
            }
            proof {
                assert(s@.skip(j2 as int)[0] == s@[j2 as int]);
            }
            if s.get_char(j2) != ':' {
                return None;
            }
            proof {
                assert(s@.skip(j2 as int).drop_first() =~= s@.skip(j2 + 1));
            }
            let j3 = skip_ws_at(s, j2 + 1);
            match parse_string_q_at(s, j3) {
                None => None,
                Some((v, j4)) => {
                    let j5 = skip_ws_at(s, j4);
                    if j5 >= n {
                        proof {
                            assert(s@.skip(j5 as int).len() == 0);
                        }
                        return None;
                    }
                    proof {
                        assert(s@.skip(j5 as int)[0] == s@[j5 as int]);
                        assert(s@.skip(j5 as int).drop_first() =~= s@.skip(j5 + 1));
                    }
                    let c5 = s.get_char(j5);
                    if c5 == ',' {
                        let j6 = skip_ws_at(s, j5 + 1);
                        match parse_members_at(s, j6, fuel - 1) {
                            Some(mut rest) => {
                                let ghost kk = k@;
                                let ghost vv = v@;
                                let ghost restview = pairs_view(rest@);
                                rest.insert(0, (k, v));
                                proof {
                                    assert(pairs_view(rest@) =~= seq![(kk, vv)] + restview);
                                }
                                Some(rest)
                            },
                            None => None,
                        }
                    } else if c5 == '}' {
                        let j7 = skip_ws_at(s, j5 + 1);
                        if j7 < n {
                            proof {
                                assert(s@.skip(j7 as int).len() > 0);
                            }
                            return None;
                        }
                        proof {
                            assert(s@.skip(j7 as int).len() == 0);
                        }
                        let ghost kk = k@;
                        let ghost vv = v@;
                        let mut out: Vec<(String, String)> = Vec::new();
                        out.push((k, v));
                        proof {
                            assert(pairs_view(out@) =~= seq![(kk, vv)]);
                        }
                        Some(out)
                    } else {
                        None
                    }
                },
            }
        },
    }
}

/// Parses a serialized metadata mapping: on a well-formed flat JSON object
/// the entries come back, later duplicates winning; on anything else,
/// nothing.
pub fn try_metadata_from_string(s: &str) -> (r: Option<StrMap>)
    ensures
        match r {
            Some(m) => {
                &&& m.wf()
                &&& spec_parse(s@) matches Some(es)
                &&& m.spec_map() == crate::strmap::entries_map(spec_parse(s@).unwrap())
                &&& (keys_distinct(spec_parse(s@).unwrap()) ==> m@ == spec_parse(s@).unwrap())
            },
            None => spec_parse(s@) is None,
        },
{
    let n: usize = s.unicode_len();
    let t0 = skip_ws_at(s, 0);
    proof {
        assert(s@.skip(0) =~= s@);
    }
    let out = StrMap::new();
    if t0 >= n {
        proof {
            assert(s@.skip(t0 as int).len() == 0);
        }
        return None;
    }
    proof {
        assert(s@.skip(t0 as int)[0] == s@[t0 as int]);
        assert(s@.skip(t0 as int).drop_first() =~= s@.skip(t0 + 1));
    }
    if s.get_char(t0) != '{' {
        return None;
    }
    let t1 = skip_ws_at(s, t0 + 1);
    if t1 >= n {
        proof {
            assert(s@.skip(t1 as int).len() == 0);
        }
        return None;
    }
    proof {
        assert(s@.skip(t1 as int)[0] == s@[t1 as int]);
        assert(s@.skip(t1 as int).drop_first() =~= s@.skip(t1 + 1));
    }
    if s.get_char(t1) == '}' {
        let t2 = skip_ws_at(s, t1 + 1);
        proof {
            if t2 < n {
                assert(s@.skip(t2 as int).len() > 0);
            } else {
                assert(s@.skip(t2 as int).len() == 0);
                assert(crate::strmap::entries_map(Seq::<(Seq<char>, Seq<char>)>::empty())
                    =~= Map::<Seq<char>, Seq<char>>::empty());
            }
        }
        if t2 < n {
            return None;
        }
        return Some(out);
    }
    match parse_members_at(s, t1, n) {
        None => None,
        Some(pairs) => {
            let ghost es = pairs_view(pairs@);
            let m: usize = pairs.len();
            let mut i: usize = 0;
            let mut acc = StrMap::new();
            proof {
                assert(es.subrange(0, 0) =~= Seq::<(Seq<char>, Seq<char>)>::empty());
                assert(acc.spec_map() =~= crate::strmap::entries_map(es.subrange(0, 0)));
            }
            while i < m
                invariant
                    m == pairs@.len(),
                    0 <= i <= m,
                    es == pairs_view(pairs@),
                    acc.wf(),
                    acc.spec_map() == crate::strmap::entries_map(es.subrange(0, i as int)),
                    keys_distinct(es) ==> acc@ == es.subrange(0, i as int),
                decreases m - i,
            {
                let (k, v) = (pairs[i].0.clone(), pairs[i].1.clone());
                let ghost kk = k@;
                let ghost vv = v@;
                let ghost accview = acc@;
                proof {
                    assert(es[i as int] == (kk, vv));
                    assert(es.subrange(0, i + 1).drop_last() =~= es.subrange(0, i as int));
                    assert(es.subrange(0, i + 1).last() == es[i as int]);
                    if keys_distinct(es) {
                        crate::strmap::lemma_entries_map_domain(es.subrange(0, i as int), kk);
                        assert(forall|j: int|
                            0 <= j < i ==> (#[trigger] es.subrange(0, i as int)[j]).0 == es[j].0);
                        assert(!acc.spec_map().contains_key(kk));
                    }
                }
                acc.insert(k, v);
                proof {
                    if keys_distinct(es) {
                        assert(acc@ =~= es.subrange(0, i + 1));
                    }
                }
                i += 1;
            }
            proof {
                assert(es.subrange(0, m as int) =~= es);
            }
            Some(acc)
        },
    }
}

/// Parses a serialized metadata mapping: on a well-formed flat JSON object
/// the entries come back, later duplicates winning; on anything else the
/// mapping is empty.
pub fn metadata_from_string(s: &str) -> (r: StrMap)
    ensures
        r.wf(),
        match spec_parse(s@) {
            Some(es) => r.spec_map() == crate::strmap::entries_map(es) && (keys_distinct(es)
                ==> r@ == es),
            None => r@ == Seq::<(Seq<char>, Seq<char>)>::empty(),
        },
{
    match try_metadata_from_string(s) {
        Some(m) => m,
        None => StrMap::new(),
    }
}

/// Skipping whitespace leaves an input that does not start with it unchanged.
proof fn lemma_skip_ws_nows(s: Seq<char>)
    requires
        s.len() == 0 || !is_ws(s[0]),
    ensures
        skip_ws(s) == s,
{
}

/// A lowercase hexadecimal digit character parses back to its value.
proof fn lemma_hex_digit_val(v: u8)
    requires
        v < 16,
    ensures
        hex_val(crate::hash::hex_digit_char(v)) == Some(v as u32),
{
}

/// Parsing the escaped body of a string, followed by the closing quote and
/// anything after it, yields the content and the rest.
proof fn lemma_parse_string_inverse(content: Seq<char>, rest: Seq<char>)
    ensures
        parse_string_body(json_escape(content) + seq!['"'] + rest) == Some((content, rest)),
    decreases content.len(),
{
    let input = json_escape(content) + seq!['"'] + rest;
    if content.len() == 0 {
        assert(json_escape(content) =~= Seq::<char>::empty());
        assert(input =~= seq!['"'] + rest);
        assert(input[0] == '"');
        assert(input.drop_first() =~= rest);
    } else {
        let c0 = content[0];
        let tail = content.drop_first();
        lemma_parse_string_inverse(tail, rest);
        let x = json_escape(tail) + seq!['"'] + rest;
        assert(input =~= json_escape_char(c0) + x);
        if c0 == '"' {
            assert(json_escape_char(c0) =~= seq!['\\', '"']);
            assert(input[0] == '\\' && input[1] == '"');
            assert(input.len() >= 2);
            assert(input.skip(2) =~= x);
            assert(unescape_char('"') == Some('"'));
            assert(seq!['"'] + tail =~= content);
        } else if c0 == '\\' {
            assert(json_escape_char(c0) =~= seq!['\\', '\\']);
            assert(input[0] == '\\' && input[1] == '\\');
            assert(input.skip(2) =~= x);
            assert(seq!['\\'] + tail =~= content);
        } else if (c0 as u32) < 0x20 {
            let v = c0 as u32;
            let hi = (v / 16) as u8;
            let lo = (v % 16) as u8;
            assert(json_escape_char(c0) =~= seq!['\\', 'u', '0', '0', crate::hash::hex_digit_char(
                hi,
            ), crate::hash::hex_digit_char(lo)]);
            assert(input[0] == '\\' && input[1] == 'u');
            assert(input[2] == '0' && input[3] == '0');
            assert(input[4] == crate::hash::hex_digit_char(hi));
            assert(input[5] == crate::hash::hex_digit_char(lo));
            assert(input.len() >= 6);
            assert(hex_val('0') == Some(0u32));
            lemma_hex_digit_val(hi);
            lemma_hex_digit_val(lo);
            assert(input.skip(6) =~= x);
            let decoded = (((0u32 * 16 + 0u32) * 16 + (hi as u32)) * 16 + (lo as u32)) as u32;
            assert(decoded == v);
            assert(!(0xD800 <= decoded && decoded < 0xE000));
            vstd::utf8::char_u32_cast(c0, v);
            assert((decoded as char) == c0);
            assert(seq![c0] + tail =~= content);
        } else {
            assert(json_escape_char(c0) =~= seq![c0]);
            assert(input[0] == c0);
            assert(c0 != '"' && c0 != '\\' && !((c0 as u32) < 0x20));
            assert(input.drop_first() =~= x);
            assert(seq![c0] + tail =~= content);
        }
    }
}

/// Each member serializes to at least five characters.
proof fn lemma_members_len(es: Seq<(Seq<char>, Seq<char>)>)
    ensures
        json_members(es).len() >= es.len(),
    decreases es.len(),
{
    if es.len() == 1 {
        assert(json_member(es[0]).len() >= 5);
    } else if es.len() > 1 {
        lemma_members_len(es.drop_first());
        assert(json_member(es[0]).len() >= 5);
    }
}

/// Parsing serialized members followed by the closing brace yields the
/// members back, with any sufficient fuel.
proof fn lemma_members_inverse(es: Seq<(Seq<char>, Seq<char>)>, fuel: nat)
    requires
        es.len() >= 1,
        fuel >= es.len(),
    ensures
        parse_members(json_members(es) + seq!['}'], fuel) == Some(es),
    decreases es.len(),
{
    let e0 = es[0];
    let tail = es.drop_first();
    let input = json_members(es) + seq!['}'];
    let rest2: Seq<char> = if tail.len() == 0 {
        seq!['}']
    } else {
        seq![','] + json_members(tail) + seq!['}']
    };
    let rest1 = seq![':'] + json_string(e0.1) + rest2;
    assert(input =~= json_string(e0.0) + rest1) by {
        if tail.len() == 0 {
            assert(json_members(es) == json_member(e0));
        } else {
            assert(json_members(es) == json_member(e0) + seq![','] + json_members(tail));
        }
        assert(json_member(e0) =~= json_string(e0.0) + seq![':'] + json_string(e0.1));
    }
    assert(input[0] == '"') by {
        assert(json_string(e0.0)[0] == '"');
    }
    assert(input.drop_first() =~= json_escape(e0.0) + seq!['"'] + rest1) by {
        assert(json_string(e0.0) =~= seq!['"'] + (json_escape(e0.0) + seq!['"']));
    }
    lemma_parse_string_inverse(e0.0, rest1);
    assert(parse_string_q(input) == Some((e0.0, rest1)));
    assert(rest1[0] == ':');
    lemma_skip_ws_nows(rest1);
    let r3pre = rest1.drop_first();
    assert(r3pre =~= json_string(e0.1) + rest2);
    assert(r3pre[0] == '"') by {
        assert(json_string(e0.1)[0] == '"');
    }
    lemma_skip_ws_nows(r3pre);
    assert(r3pre.drop_first() =~= json_escape(e0.1) + seq!['"'] + rest2) by {
        assert(json_string(e0.1) =~= seq!['"'] + (json_escape(e0.1) + seq!['"']));
    }
    lemma_parse_string_inverse(e0.1, rest2);
    assert(parse_string_q(r3pre) == Some((e0.1, rest2)));
    lemma_skip_ws_nows(rest2);
    if tail.len() == 0 {
        assert(rest2[0] == '}');
        assert(rest2.drop_first() =~= Seq::<char>::empty());
        assert(skip_ws(rest2.drop_first()).len() == 0);
        assert(parse_members(input, fuel) == Some(seq![(e0.0, e0.1)]));
        assert(seq![(e0.0, e0.1)] =~= es);
    } else {
        assert(rest2[0] == ',');
        let r6 = rest2.drop_first();
        assert(r6 =~= json_members(tail) + seq!['}']);
        assert(r6[0] == '"') by {
            assert(json_members(tail)[0] == '"') by {
                if tail.len() == 1 {
                    assert(json_members(tail) == json_member(tail[0]));
                } else {
                    assert(json_members(tail) == json_member(tail[0]) + seq![','] + json_members(
                        tail.drop_first(),
                    ));
                }
                assert(json_member(tail[0])[0] == '"') by {
                    assert(json_string(tail[0].0)[0] == '"');
                }
            }
        }
        lemma_skip_ws_nows(r6);
        lemma_members_inverse(tail, (fuel - 1) as nat);
        assert(parse_members(input, fuel) == Some(seq![(e0.0, e0.1)] + tail));
        assert(seq![(e0.0, e0.1)] + tail =~= es);
    }
}

/// Serialization loses nothing: parsing the serialized form of a mapping
/// yields exactly its entries, in order.
pub proof fn lemma_metadata_round_trip(es: Seq<(Seq<char>, Seq<char>)>)
    ensures
        spec_parse(json_object(es)) == Some(es),
{
    let s = json_object(es);
    assert(s[0] == '{');
    lemma_skip_ws_nows(s);
    let t1pre = s.drop_first();
    assert(t1pre =~= json_members(es) + seq!['}']);
    if es.len() == 0 {
        assert(json_members(es) =~= Seq::<char>::empty());
        assert(t1pre =~= seq!['}']);
        lemma_skip_ws_nows(t1pre);
        assert(t1pre[0] == '}');
        assert(t1pre.drop_first() =~= Seq::<char>::empty());
        assert(skip_ws(t1pre.drop_first()).len() == 0);
        assert(spec_parse(s) == Some(Seq::<(Seq<char>, Seq<char>)>::empty()));
        assert(Seq::<(Seq<char>, Seq<char>)>::empty() =~= es);
    } else {
        assert(t1pre[0] == '"') by {
            assert(json_members(es)[0] == '"') by {
                if es.len() == 1 {
                    assert(json_members(es) == json_member(es[0]));
                } else {
                    assert(json_members(es) == json_member(es[0]) + seq![','] + json_members(
                        es.drop_first(),
                    ));
                }
                assert(json_member(es[0])[0] == '"') by {
                    assert(json_string(es[0].0)[0] == '"');
                }
            }
        }
        lemma_skip_ws_nows(t1pre);
        lemma_members_len(es);
        assert(s.len() >= es.len());
        lemma_members_inverse(es, s.len());
    }
}

} // verus!
