//! The wire format of an instance record: a canonical JSON object over
//! UTF-8 bytes, with a verified encoder and a verified strict decoder.
//!
//! The encoding of a record is
//! `{"id":<s>,"name":<s>,"endpoints":[<s>,...],"version":<s>,"metadata":{<s>:<s>,...}}`
//! where `<s>` is a quoted string whose quote, backslash, newline, carriage
//! return and tab bytes are escaped with a backslash. The decoder accepts
//! exactly these encodings and rejects everything else, so decoding a
//! canonical encoding recovers the record and malformed bytes are refused
//! rather than misread.

use vstd::prelude::*;
use vstd::utf8::{decode_utf8, encode_utf8, valid_utf8};
use crate::instance::{InstanceView, ServiceInstance};

verus! {

pub const QUOTE: u8 = 0x22;
pub const BACKSLASH: u8 = 0x5c;
pub const SPACE: u8 = 0x20;
pub const TAB: u8 = 0x09;
pub const LF: u8 = 0x0a;
pub const CR: u8 = 0x0d;
pub const COMMA: u8 = 0x2c;
pub const COLON: u8 = 0x3a;
pub const LBRACE: u8 = 0x7b;
pub const RBRACE: u8 = 0x7d;
pub const LBRACKET: u8 = 0x5b;
pub const RBRACKET: u8 = 0x5d;
/// ASCII `n`, `r`, `t`: the escape codes for newline, carriage return, tab.
pub const ESC_N: u8 = 0x6e;
pub const ESC_R: u8 = 0x72;
pub const ESC_T: u8 = 0x74;

/// A content byte the format can carry: printable or multi-byte UTF-8
/// (anything from the space character up) or one of the three control
/// bytes that have a two-character escape.
pub open spec fn allowed_byte(b: u8) -> bool {
    b == TAB || b == LF || b == CR || b >= SPACE
}

/// A string the format can carry: every byte of its UTF-8 encoding is an
/// allowed byte.
pub open spec fn text_ok(s: Seq<char>) -> bool {
    forall|i: int| 0 <= i < encode_utf8(s).len() ==> allowed_byte(#[trigger] encode_utf8(s)[i])
}

/// The escape sequence for one content byte.
pub open spec fn escape_byte(b: u8) -> Seq<u8> {
    if b == QUOTE {
        seq![BACKSLASH, QUOTE]
    } else if b == BACKSLASH {
        seq![BACKSLASH, BACKSLASH]
    } else if b == LF {
        seq![BACKSLASH, ESC_N]
    } else if b == CR {
        seq![BACKSLASH, ESC_R]
    } else if b == TAB {
        seq![BACKSLASH, ESC_T]
    } else {
        seq![b]
    }
}

/// The escaped form of a byte sequence.
pub open spec fn escape_bytes(s: Seq<u8>) -> Seq<u8>
    decreases s.len(),
{
    if s.len() == 0 {
        Seq::empty()
    } else {
        escape_byte(s[0]) + escape_bytes(s.drop_first())
    }
}

/// The byte named by an escape code, if the code is recognised.
pub open spec fn unescape_code(b: u8) -> Option<u8> {
    if b == QUOTE {
        Some(QUOTE)
    } else if b == BACKSLASH {
        Some(BACKSLASH)
    } else if b == ESC_N {
        Some(LF)
    } else if b == ESC_R {
        Some(CR)
    } else if b == ESC_T {
        Some(TAB)
    } else {
        None
    }
}

/// A quoted string: opening quote, escaped content, closing quote.
pub open spec fn encode_string(s: Seq<char>) -> Seq<u8> {
    seq![QUOTE] + escape_bytes(encode_utf8(s)) + seq![QUOTE]
}

/// Consumes string content up to and including a closing quote, undoing
/// escapes; yields the content bytes and the remainder of the input.
pub open spec fn parse_string_body(s: Seq<u8>) -> Option<(Seq<u8>, Seq<u8>)>
    decreases s.len(),
{
    if s.len() == 0 {
        None
    } else if s[0] == QUOTE {
        Some((Seq::empty(), s.drop_first()))
    } else if s[0] == BACKSLASH {
        if s.len() >= 2 {
            match unescape_code(s[1]) {
                Some(b) => match parse_string_body(s.skip(2)) {
                    Some(p) => Some((seq![b] + p.0, p.1)),
                    None => None,
                },
                None => None,
            }
        } else {
            None
        }
    } else if s[0] >= SPACE {
        match parse_string_body(s.drop_first()) {
            Some(p) => Some((seq![s[0]] + p.0, p.1)),
            None => None,
        }
    } else {
        None
    }
}

/// Consumes a whole quoted string and decodes its content as UTF-8.
pub open spec fn parse_string(s: Seq<u8>) -> Option<(Seq<char>, Seq<u8>)> {
    if s.len() > 0 && s[0] == QUOTE {
        match parse_string_body(s.drop_first()) {
            Some(p) => if valid_utf8(p.0) {
                Some((decode_utf8(p.0), p.1))
            } else {
                None
            },
            None => None,
        }
    } else {
        None
    }
}

/// String content consumes at least one byte (the closing quote), and the
/// remainder is a strict suffix.
pub proof fn lemma_parse_string_body_shrinks(s: Seq<u8>)
    ensures
        parse_string_body(s) matches Some(p) ==> p.1.len() < s.len(),
    decreases s.len(),
{
    if s.len() == 0 {
    } else if s[0] == QUOTE {
    } else if s[0] == BACKSLASH {
        if s.len() >= 2 {
            lemma_parse_string_body_shrinks(s.skip(2));
        }
    } else if s[0] >= SPACE {
        lemma_parse_string_body_shrinks(s.drop_first());
    }
}

/// A whole quoted string consumes at least two bytes.
pub proof fn lemma_parse_string_shrinks(s: Seq<u8>)
    ensures
        parse_string(s) matches Some(p) ==> p.1.len() + 2 <= s.len(),
{
    if s.len() > 0 && s[0] == QUOTE {
        lemma_parse_string_body_shrinks(s.drop_first());
    }
}

/// Escaping distributes over appending one byte.
pub proof fn lemma_escape_bytes_push(s: Seq<u8>, b: u8)
    ensures
        escape_bytes(s.push(b)) == escape_bytes(s) + escape_byte(b),
    decreases s.len(),
{
    if s.len() == 0 {
        assert(s.push(b)[0] == b);
        assert(s.push(b).drop_first() =~= Seq::<u8>::empty());
        assert(escape_bytes(s.push(b)) == escape_byte(b) + escape_bytes(Seq::<u8>::empty()));
        assert(escape_byte(b) + Seq::<u8>::empty() =~= escape_byte(b));
        assert(escape_bytes(s) + escape_byte(b) =~= escape_byte(b));
    } else {
        assert(s.push(b).drop_first() =~= s.drop_first().push(b));
        lemma_escape_bytes_push(s.drop_first(), b);
        assert(escape_bytes(s.push(b)) =~= escape_bytes(s) + escape_byte(b));
    }
}

/// Parsing string content undoes escaping: the escaped form of any
/// carryable content, followed by a closing quote and a remainder, parses
/// back to exactly that content and remainder.
pub proof fn lemma_parse_escaped(bs: Seq<u8>, rest: Seq<u8>)
    requires
        forall|i: int| 0 <= i < bs.len() ==> allowed_byte(#[trigger] bs[i]),
    ensures
        parse_string_body(escape_bytes(bs) + seq![QUOTE] + rest) == Some((bs, rest)),
    decreases bs.len(),
{
    let input = escape_bytes(bs) + seq![QUOTE] + rest;
    if bs.len() == 0 {
        assert(input =~= seq![QUOTE] + rest);
        assert(input[0] == QUOTE);
        assert(input.drop_first() =~= rest);
        assert(parse_string_body(input) == Some((Seq::<u8>::empty(), rest)));
        assert(bs =~= Seq::<u8>::empty());
    } else {
        let b = bs[0];
        let tail = bs.drop_first();
        assert(escape_bytes(bs) == escape_byte(b) + escape_bytes(tail));
        lemma_parse_escaped(tail, rest);
        let tail_input = escape_bytes(tail) + seq![QUOTE] + rest;
        if b == QUOTE || b == BACKSLASH || b == LF || b == CR || b == TAB {
            assert(escape_byte(b).len() == 2);
            assert(input[0] == BACKSLASH);
            assert(unescape_code(input[1]) == Some(b));
            assert(input.skip(2) =~= tail_input);
            assert(parse_string_body(input) == Some((seq![b] + tail, rest)));
            assert(seq![b] + tail =~= bs);
        } else {
            assert(allowed_byte(b) && b >= SPACE && b != QUOTE && b != BACKSLASH);
            assert(input[0] == b);
            assert(input.drop_first() =~= tail_input);
            assert(parse_string_body(input) == Some((seq![b] + tail, rest)));
            assert(seq![b] + tail =~= bs);
        }
    }
}

/// Decoding a quoted string undoes encoding, for any carryable string.
pub proof fn lemma_parse_encode_string(s: Seq<char>, rest: Seq<u8>)
    requires
        text_ok(s),
    ensures
        parse_string(encode_string(s) + rest) == Some((s, rest)),
{
    broadcast use vstd::utf8::encode_utf8_valid_utf8;
    broadcast use vstd::utf8::encode_utf8_decode_utf8;

    let input = encode_string(s) + rest;
    assert(input[0] == QUOTE);
    lemma_parse_escaped(encode_utf8(s), rest);
    assert(input.drop_first() =~= escape_bytes(encode_utf8(s)) + seq![QUOTE] + rest);
    assert(parse_string_body(input.drop_first()) == Some((encode_utf8(s), rest)));
    assert(decode_utf8(encode_utf8(s)) == s);
}

/// One or more comma-separated quoted strings.
pub open spec fn encode_string_items(es: Seq<Seq<char>>) -> Seq<u8>
    decreases es.len(),
{
    if es.len() == 0 {
        Seq::empty()
    } else if es.len() == 1 {
        encode_string(es[0])
    } else {
        encode_string(es[0]) + seq![COMMA] + encode_string_items(es.drop_first())
    }
}

/// A bracketed array of quoted strings.
pub open spec fn encode_string_array(es: Seq<Seq<char>>) -> Seq<u8> {
    seq![LBRACKET] + encode_string_items(es) + seq![RBRACKET]
}

/// One `"key":"value"` pair.
pub open spec fn encode_pair(p: (Seq<char>, Seq<char>)) -> Seq<u8> {
    encode_string(p.0) + seq![COLON] + encode_string(p.1)
}

/// One or more comma-separated pairs.
pub open spec fn encode_pair_items(ps: Seq<(Seq<char>, Seq<char>)>) -> Seq<u8>
    decreases ps.len(),
{
    if ps.len() == 0 {
        Seq::empty()
    } else if ps.len() == 1 {
        encode_pair(ps[0])
    } else {
        encode_pair(ps[0]) + seq![COMMA] + encode_pair_items(ps.drop_first())
    }
}

/// A braced object of pairs.
pub open spec fn encode_pair_object(ps: Seq<(Seq<char>, Seq<char>)>) -> Seq<u8> {
    seq![LBRACE] + encode_pair_items(ps) + seq![RBRACE]
}

/// The field marker `{"id":`.
pub open spec fn lit_id() -> Seq<u8> {
    seq![LBRACE, QUOTE, 0x69, 0x64, QUOTE, COLON]
}

/// The field marker `,"name":`.
pub open spec fn lit_name() -> Seq<u8> {
    seq![COMMA, QUOTE, 0x6e, 0x61, 0x6d, 0x65, QUOTE, COLON]
}

/// The field marker `,"endpoints":`.
pub open spec fn lit_endpoints() -> Seq<u8> {
    seq![COMMA, QUOTE, 0x65, 0x6e, 0x64, 0x70, 0x6f, 0x69, 0x6e, 0x74, 0x73, QUOTE, COLON]
}

/// The field marker `,"version":`.
pub open spec fn lit_version() -> Seq<u8> {
    seq![COMMA, QUOTE, 0x76, 0x65, 0x72, 0x73, 0x69, 0x6f, 0x6e, QUOTE, COLON]
}

/// The field marker `,"metadata":`.
pub open spec fn lit_metadata() -> Seq<u8> {
    seq![COMMA, QUOTE, 0x6d, 0x65, 0x74, 0x61, 0x64, 0x61, 0x74, 0x61, QUOTE, COLON]
}

/// A record the format can carry: every string field is carryable text.
pub open spec fn encodable(m: InstanceView) -> bool {
    &&& text_ok(m.id)
    &&& text_ok(m.name)
    &&& forall|i: int| 0 <= i < m.endpoints.len() ==> text_ok(#[trigger] m.endpoints[i])
    &&& text_ok(m.version)
    &&& forall|i: int| 0 <= i < m.metadata.len()
        ==> text_ok((#[trigger] m.metadata[i]).0) && text_ok(m.metadata[i].1)
}

/// The canonical encoding of a record.
pub open spec fn spec_encode_instance(m: InstanceView) -> Seq<u8> {
    lit_id() + encode_string(m.id) + lit_name() + encode_string(m.name) + lit_endpoints()
        + encode_string_array(m.endpoints) + lit_version() + encode_string(m.version)
        + lit_metadata() + encode_pair_object(m.metadata) + seq![RBRACE]
}

/// Consumes an expected literal prefix.
pub open spec fn parse_lit(s: Seq<u8>, lit: Seq<u8>) -> Option<Seq<u8>> {
    if lit.len() <= s.len() && s.take(lit.len() as int) == lit {
        Some(s.skip(lit.len() as int))
    } else {
        None
    }
}

/// Consumes one or more comma-separated quoted strings.
pub open spec fn parse_string_items(s: Seq<u8>) -> Option<(Seq<Seq<char>>, Seq<u8>)>
    decreases s.len(),
{
    match parse_string(s) {
        Some(p) => {
            if p.1.len() > 0 && p.1[0] == COMMA {
                proof {
                    lemma_parse_string_shrinks(s);
                }
                match parse_string_items(p.1.drop_first()) {
                    Some(q) => Some((seq![p.0] + q.0, q.1)),
                    None => None,
                }
            } else {
                Some((seq![p.0], p.1))
            }
        },
        None => None,
    }
}

/// Consumes a bracketed array of quoted strings.
pub open spec fn parse_string_array(s: Seq<u8>) -> Option<(Seq<Seq<char>>, Seq<u8>)> {
    if s.len() >= 2 && s[0] == LBRACKET && s[1] == RBRACKET {
        Some((Seq::empty(), s.skip(2)))
    } else if s.len() > 0 && s[0] == LBRACKET {
        match parse_string_items(s.drop_first()) {
            Some(p) => if p.1.len() > 0 && p.1[0] == RBRACKET {
                Some((p.0, p.1.drop_first()))
            } else {
                None
            },
            None => None,
        }
    } else {
        None
    }
}

/// Consumes one `"key":"value"` pair.
pub open spec fn parse_pair(s: Seq<u8>) -> Option<((Seq<char>, Seq<char>), Seq<u8>)> {
    match parse_string(s) {
        Some(kp) => {
            if kp.1.len() > 0 && kp.1[0] == COLON {
                match parse_string(kp.1.drop_first()) {
                    Some(vp) => Some(((kp.0, vp.0), vp.1)),
                    None => None,
                }
            } else {
                None
            }
        },
        None => None,
    }
}

/// A pair consumes at least five bytes.
pub proof fn lemma_parse_pair_shrinks(s: Seq<u8>)
    ensures
        parse_pair(s) matches Some(p) ==> p.1.len() + 5 <= s.len(),
{
    lemma_parse_string_shrinks(s);
    if parse_string(s) is Some {
        let kp = parse_string(s)->Some_0;
        if kp.1.len() > 0 && kp.1[0] == COLON {
            lemma_parse_string_shrinks(kp.1.drop_first());
        }
    }
}

/// Consumes one or more comma-separated pairs.
pub open spec fn parse_pair_items(s: Seq<u8>) -> Option<(Seq<(Seq<char>, Seq<char>)>, Seq<u8>)>
    decreases s.len(),
{
    match parse_pair(s) {
        Some(p) => {
            if p.1.len() > 0 && p.1[0] == COMMA {
                proof {
                    lemma_parse_pair_shrinks(s);
                }
                match parse_pair_items(p.1.drop_first()) {
                    Some(q) => Some((seq![p.0] + q.0, q.1)),
                    None => None,
                }
            } else {
                Some((seq![p.0], p.1))
            }
        },
        None => None,
    }
}

/// Consumes a braced object of pairs.
pub open spec fn parse_pair_object(s: Seq<u8>) -> Option<(Seq<(Seq<char>, Seq<char>)>, Seq<u8>)> {
    if s.len() >= 2 && s[0] == LBRACE && s[1] == RBRACE {
        Some((Seq::empty(), s.skip(2)))
    } else if s.len() > 0 && s[0] == LBRACE {
        match parse_pair_items(s.drop_first()) {
            Some(p) => if p.1.len() > 0 && p.1[0] == RBRACE {
                Some((p.0, p.1.drop_first()))
            } else {
                None
            },
            None => None,
        }
    } else {
        None
    }
}

/// The strict decoder: accepts exactly the canonical encodings of records,
/// with nothing before or after.
pub open spec fn spec_parse_instance(s: Seq<u8>) -> Option<InstanceView> {
    match parse_lit(s, lit_id()) {
        Some(s1) => match parse_string(s1) {
            Some(idp) => match parse_lit(idp.1, lit_name()) {
                Some(s2) => match parse_string(s2) {
                    Some(namep) => match parse_lit(namep.1, lit_endpoints()) {
                        Some(s3) => match parse_string_array(s3) {
                            Some(epsp) => match parse_lit(epsp.1, lit_version()) {
                                Some(s4) => match parse_string(s4) {
                                    Some(verp) => match parse_lit(verp.1, lit_metadata()) {
                                        Some(s5) => match parse_pair_object(s5) {
                                            Some(mdp) => if mdp.1 == seq![RBRACE] {
                                                Some(InstanceView {
                                                    id: idp.0,
                                                    name: namep.0,
                                                    endpoints: epsp.0,
                                                    version: verp.0,
                                                    metadata: mdp.0,
                                                })
                                            } else {
                                                None
                                            },
                                            None => None,
                                        },
                                        None => None,
                                    },
                                    None => None,
                                },
                                None => None,
                            },
                            None => None,
                        },
                        None => None,
                    },
                    None => None,
                },
                None => None,
            },
            None => None,
        },
        None => None,
    }
}

/// A literal followed by anything parses back to that remainder.
pub proof fn lemma_parse_lit_exact(l: Seq<u8>, x: Seq<u8>)
    ensures
        parse_lit(l + x, l) == Some(x),
{
    assert((l + x).take(l.len() as int) =~= l);
    assert((l + x).skip(l.len() as int) =~= x);
}

/// Decoding comma-separated strings undoes encoding, provided what follows
/// does not begin with a comma.
pub proof fn lemma_parse_encode_string_items(es: Seq<Seq<char>>, rest: Seq<u8>)
    requires
        es.len() >= 1,
        forall|i: int| 0 <= i < es.len() ==> text_ok(#[trigger] es[i]),
        rest.len() > 0,
        rest[0] != COMMA,
    ensures
        parse_string_items(encode_string_items(es) + rest) == Some((es, rest)),
    decreases es.len(),
{
    let input = encode_string_items(es) + rest;
    if es.len() == 1 {
        assert(input =~= encode_string(es[0]) + rest);
        lemma_parse_encode_string(es[0], rest);
        assert(parse_string(input) == Some((es[0], rest)));
        assert(seq![es[0]] =~= es);
    } else {
        let tail_input = encode_string_items(es.drop_first()) + rest;
        let mid = seq![COMMA] + tail_input;
        assert(input =~= encode_string(es[0]) + mid);
        lemma_parse_encode_string(es[0], mid);
        assert(parse_string(input) == Some((es[0], mid)));
        assert(mid[0] == COMMA);
        assert(mid.drop_first() =~= tail_input);
        assert forall|i: int|
            0 <= i < es.drop_first().len() implies text_ok(#[trigger] es.drop_first()[i]) by {
            assert(es.drop_first()[i] == es[i + 1]);
        }
        lemma_parse_encode_string_items(es.drop_first(), rest);
        assert(seq![es[0]] + es.drop_first() =~= es);
    }
}

/// Decoding a string array undoes encoding.
pub proof fn lemma_parse_encode_string_array(es: Seq<Seq<char>>, rest: Seq<u8>)
    requires
        forall|i: int| 0 <= i < es.len() ==> text_ok(#[trigger] es[i]),
    ensures
        parse_string_array(encode_string_array(es) + rest) == Some((es, rest)),
{
    let input = encode_string_array(es) + rest;
    assert(input[0] == LBRACKET);
    if es.len() == 0 {
        assert(input =~= seq![LBRACKET, RBRACKET] + rest);
        assert(input[1] == RBRACKET);
        assert(input.skip(2) =~= rest);
    } else {
        let inner = encode_string_items(es) + (seq![RBRACKET] + rest);
        assert(input.drop_first() =~= inner);
        assert(encode_string_items(es).len() > 0) by {
            assert(encode_string(es[0]).len() > 0);
        }
        assert(input[1] == encode_string_items(es)[0]);
        assert(encode_string_items(es)[0] == QUOTE) by {
            assert(encode_string(es[0])[0] == QUOTE);
        }
        assert(input[1] != RBRACKET);
        lemma_parse_encode_string_items(es, seq![RBRACKET] + rest);
        assert(parse_string_items(inner) == Some((es, seq![RBRACKET] + rest)));
        assert((seq![RBRACKET] + rest).drop_first() =~= rest);
    }
}

/// Decoding a pair undoes encoding.
pub proof fn lemma_parse_encode_pair(p: (Seq<char>, Seq<char>), rest: Seq<u8>)
    requires
        text_ok(p.0),
        text_ok(p.1),
    ensures
        parse_pair(encode_pair(p) + rest) == Some((p, rest)),
{
    let input = encode_pair(p) + rest;
    let mid = seq![COLON] + (encode_string(p.1) + rest);
    assert(input =~= encode_string(p.0) + mid);
    lemma_parse_encode_string(p.0, mid);
    assert(mid[0] == COLON);
    assert(mid.drop_first() =~= encode_string(p.1) + rest);
    lemma_parse_encode_string(p.1, rest);
}

/// Decoding comma-separated pairs undoes encoding, provided what follows
/// does not begin with a comma.
pub proof fn lemma_parse_encode_pair_items(ps: Seq<(Seq<char>, Seq<char>)>, rest: Seq<u8>)
    requires
        ps.len() >= 1,
        forall|i: int| 0 <= i < ps.len()
            ==> text_ok(#[trigger] ps[i].0) && text_ok(ps[i].1),
        rest.len() > 0,
        rest[0] != COMMA,
    ensures
        parse_pair_items(encode_pair_items(ps) + rest) == Some((ps, rest)),
    decreases ps.len(),
{
    let input = encode_pair_items(ps) + rest;
    if ps.len() == 1 {
        assert(input =~= encode_pair(ps[0]) + rest);
        lemma_parse_encode_pair(ps[0], rest);
        assert(seq![ps[0]] =~= ps);
    } else {
        let tail_input = encode_pair_items(ps.drop_first()) + rest;
        let mid = seq![COMMA] + tail_input;
        assert(input =~= encode_pair(ps[0]) + mid);
        lemma_parse_encode_pair(ps[0], mid);
        assert(mid[0] == COMMA);
        assert(mid.drop_first() =~= tail_input);
        assert forall|i: int|
            0 <= i < ps.drop_first().len() implies text_ok(#[trigger] ps.drop_first()[i].0)
            && text_ok(ps.drop_first()[i].1) by {
            assert(ps.drop_first()[i] == ps[i + 1]);
            assert(text_ok(ps[i + 1].0) && text_ok(ps[i + 1].1));
        }
        lemma_parse_encode_pair_items(ps.drop_first(), rest);
        assert(seq![ps[0]] + ps.drop_first() =~= ps);
    }
}

/// Decoding a pair object undoes encoding.
pub proof fn lemma_parse_encode_pair_object(ps: Seq<(Seq<char>, Seq<char>)>, rest: Seq<u8>)
    requires
        forall|i: int| 0 <= i < ps.len()
            ==> text_ok(#[trigger] ps[i].0) && text_ok(ps[i].1),
    ensures
        parse_pair_object(encode_pair_object(ps) + rest) == Some((ps, rest)),
{
    let input = encode_pair_object(ps) + rest;
    assert(input[0] == LBRACE);
    if ps.len() == 0 {
        assert(input =~= seq![LBRACE, RBRACE] + rest);
        assert(input[1] == RBRACE);
        assert(input.skip(2) =~= rest);
    } else {
        let inner = encode_pair_items(ps) + (seq![RBRACE] + rest);
        assert(input.drop_first() =~= inner);
        assert(encode_pair_items(ps).len() > 0) by {
            assert(encode_pair(ps[0]).len() > 0) by {
                assert(encode_string(ps[0].0).len() > 0);
            }
        }
        assert(input[1] == encode_pair_items(ps)[0]);
        assert(encode_pair_items(ps)[0] == QUOTE) by {
            assert(encode_pair(ps[0])[0] == QUOTE) by {
                assert(encode_string(ps[0].0)[0] == QUOTE);
            }
        }
        assert(input[1] != RBRACE);
        lemma_parse_encode_pair_items(ps, seq![RBRACE] + rest);
        assert(parse_pair_items(inner) == Some((ps, seq![RBRACE] + rest)));
        assert((seq![RBRACE] + rest).drop_first() =~= rest);
    }
}

/// Round trip: decoding the canonical encoding of any carryable record
/// yields exactly that record.
pub proof fn lemma_parse_encode_instance(m: InstanceView)
    requires
        encodable(m),
    ensures
        spec_parse_instance(spec_encode_instance(m)) == Some(m),
{
    let r9 = encode_pair_object(m.metadata) + seq![RBRACE];
    let r8 = lit_metadata() + r9;
    let r7 = encode_string(m.version) + r8;
    let r6 = lit_version() + r7;
    let r5 = encode_string_array(m.endpoints) + r6;
    let r4 = lit_endpoints() + r5;
    let r3 = encode_string(m.name) + r4;
    let r2 = lit_name() + r3;
    let r1 = encode_string(m.id) + r2;
    let input = spec_encode_instance(m);
    assert(input =~= lit_id() + r1);
    lemma_parse_lit_exact(lit_id(), r1);
    lemma_parse_encode_string(m.id, r2);
    lemma_parse_lit_exact(lit_name(), r3);
    lemma_parse_encode_string(m.name, r4);
    lemma_parse_lit_exact(lit_endpoints(), r5);
    lemma_parse_encode_string_array(m.endpoints, r6);
    lemma_parse_lit_exact(lit_version(), r7);
    lemma_parse_encode_string(m.version, r8);
    lemma_parse_lit_exact(lit_metadata(), r9);
    lemma_parse_encode_pair_object(m.metadata, seq![RBRACE]);
    assert(spec_parse_instance(input) matches Some(res) && res =~= m);
}

/// Losslessness: the canonical encoding is injective on carryable records,
/// so no two distinct records share a serialized form.
pub proof fn lemma_encode_instance_injective(a: InstanceView, b: InstanceView)
    requires
        encodable(a),
        encodable(b),
        spec_encode_instance(a) == spec_encode_instance(b),
    ensures
        a == b,
{
    lemma_parse_encode_instance(a);
    lemma_parse_encode_instance(b);
}

/// A sequence of owned strings, as a sequence of character sequences.
pub open spec fn strings_view(v: Seq<String>) -> Seq<Seq<char>> {
    Seq::new(v.len(), |i: int| v[i]@)
}

/// A sequence of owned string pairs, as a sequence of pairs of character
/// sequences.
pub open spec fn pairs_view(v: Seq<(String, String)>) -> Seq<(Seq<char>, Seq<char>)> {
    Seq::new(v.len(), |i: int| (v[i].0@, v[i].1@))
}

/// Splitting off the last of several items: relates the incremental encoder
/// to the head-recursive item encoding.
pub proof fn lemma_encode_string_items_snoc(es: Seq<Seq<char>>)
    requires
        es.len() >= 2,
    ensures
        encode_string_items(es) == encode_string_items(es.drop_last()) + seq![COMMA]
            + encode_string(es.last()),
    decreases es.len(),
{
    if es.len() == 2 {
        assert(es.drop_first().len() == 1);
        assert(encode_string_items(es.drop_first()) == encode_string(es.drop_first()[0]));
        assert(es.drop_first()[0] == es.last());
        assert(es.drop_last().len() == 1);
        assert(encode_string_items(es.drop_last()) == encode_string(es.drop_last()[0]));
        assert(es.drop_last()[0] == es[0]);
        assert(encode_string_items(es) =~= encode_string_items(es.drop_last()) + seq![COMMA]
            + encode_string(es.last()));
    } else {
        let tail = es.drop_first();
        lemma_encode_string_items_snoc(tail);
        assert(tail.drop_last() =~= es.drop_last().drop_first());
        assert(tail.last() == es.last());
        assert(es.drop_last().len() >= 2);
        assert(encode_string_items(es.drop_last()) == encode_string(es.drop_last()[0])
            + seq![COMMA] + encode_string_items(es.drop_last().drop_first()));
        assert(es.drop_last()[0] == es[0]);
        assert(encode_string_items(es) =~= encode_string_items(es.drop_last()) + seq![COMMA]
            + encode_string(es.last()));
    }
}

/// The pair analogue of [`lemma_encode_string_items_snoc`].
pub proof fn lemma_encode_pair_items_snoc(ps: Seq<(Seq<char>, Seq<char>)>)
    requires
        ps.len() >= 2,
    ensures
        encode_pair_items(ps) == encode_pair_items(ps.drop_last()) + seq![COMMA]
            + encode_pair(ps.last()),
    decreases ps.len(),
{
    if ps.len() == 2 {
        assert(ps.drop_first().len() == 1);
        assert(encode_pair_items(ps.drop_first()) == encode_pair(ps.drop_first()[0]));
        assert(ps.drop_first()[0] == ps.last());
        assert(ps.drop_last().len() == 1);
        assert(encode_pair_items(ps.drop_last()) == encode_pair(ps.drop_last()[0]));
        assert(ps.drop_last()[0] == ps[0]);
        assert(encode_pair_items(ps) =~= encode_pair_items(ps.drop_last()) + seq![COMMA]
            + encode_pair(ps.last()));
    } else {
        let tail = ps.drop_first();
        lemma_encode_pair_items_snoc(tail);
        assert(tail.drop_last() =~= ps.drop_last().drop_first());
        assert(tail.last() == ps.last());
        assert(ps.drop_last().len() >= 2);
        assert(encode_pair_items(ps.drop_last()) == encode_pair(ps.drop_last()[0])
            + seq![COMMA] + encode_pair_items(ps.drop_last().drop_first()));
        assert(ps.drop_last()[0] == ps[0]);
        assert(encode_pair_items(ps) =~= encode_pair_items(ps.drop_last()) + seq![COMMA]
            + encode_pair(ps.last()));
    }
}

/// Appends the escaped UTF-8 bytes of `s`.
fn push_escaped(out: &mut Vec<u8>, s: &str)
    ensures
        final(out)@ == old(out)@ + escape_bytes(encode_utf8(s@)),
{
    let bytes = s.as_bytes();
    let ghost base = out@;
    let mut i: usize = 0;
    proof {
        assert(bytes@.take(0) =~= Seq::<u8>::empty());
        assert(base + escape_bytes(bytes@.take(0)) =~= base);
    }
    while i < bytes.len()
        invariant
            i <= bytes@.len(),
            bytes@ == encode_utf8(s@),
            out@ == base + escape_bytes(bytes@.take(i as int)),
        decreases bytes@.len() - i,
    {
        let b = bytes[i];
        if b == QUOTE {
            out.push(BACKSLASH);
            out.push(QUOTE);
        } else if b == BACKSLASH {
            out.push(BACKSLASH);
            out.push(BACKSLASH);
        } else if b == LF {
            out.push(BACKSLASH);
            out.push(ESC_N);
        } else if b == CR {
            out.push(BACKSLASH);
            out.push(ESC_R);
        } else if b == TAB {
            out.push(BACKSLASH);
            out.push(ESC_T);
        } else {
            out.push(b);
        }
        proof {
            lemma_escape_bytes_push(bytes@.take(i as int), b);
            assert(bytes@.take(i as int).push(b) =~= bytes@.take(i + 1 as int));
            assert(out@ =~= base + escape_bytes(bytes@.take(i + 1 as int)));
        }
        i = i + 1;
    }
    proof {
        assert(bytes@.take(bytes@.len() as int) =~= bytes@);
    }
}

/// Appends the quoted encoding of `s`.
fn push_string(out: &mut Vec<u8>, s: &str)
    ensures
        final(out)@ == old(out)@ + encode_string(s@),
{
    out.push(QUOTE);
    push_escaped(out, s);
    out.push(QUOTE);
    proof {
        assert(out@ =~= old(out)@ + encode_string(s@));
    }
}

/// Appends the bracketed array encoding of `es`.
fn push_string_array(out: &mut Vec<u8>, es: &Vec<String>)
    ensures
        final(out)@ == old(out)@ + encode_string_array(strings_view(es@)),
{
    let ghost base = out@;
    let ghost esv = strings_view(es@);
    out.push(LBRACKET);
    let mut i: usize = 0;
    proof {
        assert(encode_string_items(esv.take(0)) =~= Seq::<u8>::empty());
        assert(out@ =~= base + seq![LBRACKET] + encode_string_items(esv.take(0)));
    }
    while i < es.len()
        invariant
            i <= es@.len(),
            esv == strings_view(es@),
            out@ == base + seq![LBRACKET] + encode_string_items(esv.take(i as int)),
        decreases es@.len() - i,
    {
        if i > 0 {
            out.push(COMMA);
        }
        push_string(out, es[i].as_str());
        proof {
            let pre = esv.take(i as int);
            let now = esv.take(i + 1 as int);
            assert(now.last() == esv[i as int]);
            assert(esv[i as int] == es@[i as int]@);
            if i == 0 {
                assert(now.len() == 1);
                assert(encode_string_items(now) == encode_string(now[0]));
                assert(now[0] == esv[0]);
                assert(out@ =~= base + seq![LBRACKET] + encode_string_items(now));
            } else {
                lemma_encode_string_items_snoc(now);
                assert(now.drop_last() =~= pre);
                assert(out@ =~= base + seq![LBRACKET] + encode_string_items(now));
            }
        }
        i = i + 1;
    }
    out.push(RBRACKET);
    proof {
        assert(esv.take(esv.len() as int) =~= esv);
        assert(out@ =~= base + encode_string_array(esv));
    }
}

/// Appends the braced object encoding of `ps`.
fn push_pair_object(out: &mut Vec<u8>, ps: &Vec<(String, String)>)
    ensures
        final(out)@ == old(out)@ + encode_pair_object(pairs_view(ps@)),
{
    let ghost base = out@;
    let ghost psv = pairs_view(ps@);
    out.push(LBRACE);
    let mut i: usize = 0;
    proof {
        assert(encode_pair_items(psv.take(0)) =~= Seq::<u8>::empty());
        assert(out@ =~= base + seq![LBRACE] + encode_pair_items(psv.take(0)));
    }
    while i < ps.len()
        invariant
            i <= ps@.len(),
            psv == pairs_view(ps@),
            out@ == base + seq![LBRACE] + encode_pair_items(psv.take(i as int)),
        decreases ps@.len() - i,
    {
        if i > 0 {
            out.push(COMMA);
        }
        push_string(out, ps[i].0.as_str());
        out.push(COLON);
        push_string(out, ps[i].1.as_str());
        proof {
            let pre = psv.take(i as int);
            let now = psv.take(i + 1 as int);
            assert(now.last() == psv[i as int]);
            assert(psv[i as int] == (ps@[i as int].0@, ps@[i as int].1@));
            if i == 0 {
                assert(now.len() == 1);
                assert(encode_pair_items(now) == encode_pair(now[0]));
                assert(now[0] == psv[0]);
                assert(out@ =~= base + seq![LBRACE] + encode_pair_items(now));
            } else {
                lemma_encode_pair_items_snoc(now);
                assert(now.drop_last() =~= pre);
                assert(out@ =~= base + seq![LBRACE] + encode_pair_items(now));
            }
        }
        i = i + 1;
    }
    out.push(RBRACE);
    proof {
        assert(psv.take(psv.len() as int) =~= psv);
        assert(out@ =~= base + encode_pair_object(psv));
    }
}

/// Serializes a record into its canonical wire encoding.
#[verifier::rlimit(80)]
pub fn serialize_instance(inst: &ServiceInstance) -> (out: Vec<u8>)
    requires
        encodable(inst@),
    ensures
        out@ == spec_encode_instance(inst@),
{
    let mut out: Vec<u8> = Vec::new();
    out.push(LBRACE);
    out.push(QUOTE);
    out.push(0x69);
    out.push(0x64);
    out.push(QUOTE);
    out.push(COLON);
    proof {
        assert(out@ =~= lit_id());
    }
    push_string(&mut out, inst.id.as_str());
    out.push(COMMA);
    out.push(QUOTE);
    out.push(0x6e);
    out.push(0x61);
    out.push(0x6d);
    out.push(0x65);
    out.push(QUOTE);
    out.push(COLON);
    proof {
        assert(out@ =~= lit_id() + encode_string(inst@.id) + lit_name());
    }
    push_string(&mut out, inst.name.as_str());
    out.push(COMMA);
    out.push(QUOTE);
    out.push(0x65);
    out.push(0x6e);
    out.push(0x64);
    out.push(0x70);
    out.push(0x6f);
    out.push(0x69);
    out.push(0x6e);
    out.push(0x74);
    out.push(0x73);
    out.push(QUOTE);
    out.push(COLON);
    proof {
        assert(out@ =~= lit_id() + encode_string(inst@.id) + lit_name()
            + encode_string(inst@.name) + lit_endpoints());
    }
    push_string_array(&mut out, &inst.endpoints);
    out.push(COMMA);
    out.push(QUOTE);
    out.push(0x76);
    out.push(0x65);
    out.push(0x72);
    out.push(0x73);
    out.push(0x69);
    out.push(0x6f);
    out.push(0x6e);
    out.push(QUOTE);
    out.push(COLON);
    proof {
        assert(strings_view(inst.endpoints@) =~= inst@.endpoints);
        assert(out@ =~= lit_id() + encode_string(inst@.id) + lit_name()
            + encode_string(inst@.name) + lit_endpoints()
            + encode_string_array(inst@.endpoints) + lit_version());
    }
    push_string(&mut out, inst.version.as_str());
    out.push(COMMA);
    out.push(QUOTE);
    out.push(0x6d);
    out.push(0x65);
    out.push(0x74);
    out.push(0x61);
    out.push(0x64);
    out.push(0x61);
    out.push(0x74);
    out.push(0x61);
    out.push(QUOTE);
    out.push(COLON);
    proof {
        assert(out@ =~= lit_id() + encode_string(inst@.id) + lit_name()
            + encode_string(inst@.name) + lit_endpoints()
            + encode_string_array(inst@.endpoints) + lit_version()
            + encode_string(inst@.version) + lit_metadata());
    }
    push_pair_object(&mut out, &inst.metadata);
    out.push(RBRACE);
    proof {
        assert(pairs_view(inst.metadata@) =~= inst@.metadata);
        assert(out@ =~= spec_encode_instance(inst@));
    }
    out
}

/// Content already parsed, prepended to the outcome of parsing the rest of
/// a string body.
pub open spec fn body_with_prefix(c: Seq<u8>, r: Option<(Seq<u8>, Seq<u8>)>) -> Option<
    (Seq<u8>, Seq<u8>),
> {
    match r {
        Some(p) => Some((c + p.0, p.1)),
        None => None,
    }
}

/// Items already parsed, prepended to the outcome of parsing the rest of an
/// item list.
pub open spec fn items_with_prefix(
    c: Seq<Seq<char>>,
    r: Option<(Seq<Seq<char>>, Seq<u8>)>,
) -> Option<(Seq<Seq<char>>, Seq<u8>)> {
    match r {
        Some(p) => Some((c + p.0, p.1)),
        None => None,
    }
}

/// Pairs already parsed, prepended to the outcome of parsing the rest of a
/// pair list.
pub open spec fn pairs_with_prefix(
    c: Seq<(Seq<char>, Seq<char>)>,
    r: Option<(Seq<(Seq<char>, Seq<char>)>, Seq<u8>)>,
) -> Option<(Seq<(Seq<char>, Seq<char>)>, Seq<u8>)> {
    match r {
        Some(p) => Some((c + p.0, p.1)),
        None => None,
    }
}

/// Relies on String::from_utf8: it accepts exactly the valid UTF-8 byte
/// sequences and preserves the bytes, so the returned string's characters
/// are the decoding of the input.
#[verifier::external_body]
fn bytes_to_string(bytes: Vec<u8>) -> (r: Option<String>)
    ensures
        r matches Some(t) ==> valid_utf8(bytes@) && t@ == decode_utf8(bytes@),
        r is None ==> !valid_utf8(bytes@),
{
    match String::from_utf8(bytes) {
        Ok(s) => Some(s),
        Err(_) => None,
    }
}

/// Scans string content from `pos` up to a closing quote, undoing escapes.
fn parse_string_body_at(s: &[u8], pos: usize) -> (r: Option<(Vec<u8>, usize)>)
    requires
        pos <= s@.len(),
    ensures
        match r {
            Some(p) => pos < p.1 && p.1 <= s@.len() && parse_string_body(s@.skip(pos as int))
                == Some((p.0@, s@.skip(p.1 as int))),
            None => parse_string_body(s@.skip(pos as int)) is None,
        },
{
    let mut content: Vec<u8> = Vec::new();
    let mut i: usize = pos;
    proof {
        assert(content@ =~= Seq::<u8>::empty());
    }
    loop
        invariant
            pos <= i <= s@.len(),
            parse_string_body(s@.skip(pos as int)) == body_with_prefix(
                content@,
                parse_string_body(s@.skip(i as int)),
            ),
        decreases s@.len() - i,
    {
        if i == s.len() {
            proof {
                assert(s@.skip(i as int) =~= Seq::<u8>::empty());
            }
            return None;
        }
        let b = s[i];
        let ghost cur = s@.skip(i as int);
        proof {
            assert(cur.len() > 0);
            assert(cur[0] == s@[i as int]);
        }
        if b == QUOTE {
            proof {
                assert(cur.drop_first() =~= s@.skip(i + 1 as int));
                assert(parse_string_body(cur) == Some(
                    (Seq::<u8>::empty(), s@.skip(i + 1 as int)),
                ));
                assert(content@ + Seq::<u8>::empty() =~= content@);
            }
            return Some((content, i + 1));
        } else if b == BACKSLASH {
            if i + 1 == s.len() {
                proof {
                    assert(cur.len() < 2);
                }
                return None;
            }
            let c = s[i + 1];
            proof {
                assert(cur[1] == s@[i + 1 as int]);
            }
            let u = if c == QUOTE {
                Some(QUOTE)
            } else if c == BACKSLASH {
                Some(BACKSLASH)
            } else if c == ESC_N {
                Some(LF)
            } else if c == ESC_R {
                Some(CR)
            } else if c == ESC_T {
                Some(TAB)
            } else {
                None
            };
            proof {
                assert(u == unescape_code(cur[1]));
            }
            match u {
                None => {
                    return None;
                },
                Some(x) => {
                    let ghost c0 = content@;
                    content.push(x);
                    proof {
                        assert(cur.skip(2) =~= s@.skip(i + 2 as int));
                        let rnext = parse_string_body(s@.skip(i + 2 as int));
                        if rnext is Some {
                            let p = rnext->Some_0;
                            assert(parse_string_body(cur) == Some((seq![x] + p.0, p.1)));
                            assert(c0 + (seq![x] + p.0) =~= c0.push(x) + p.0);
                        } else {
                            assert(parse_string_body(cur) is None);
                        }
                    }
                    i = i + 2;
                },
            }
        } else if b >= SPACE {
            let ghost c0 = content@;
            content.push(b);
            proof {
                assert(cur.drop_first() =~= s@.skip(i + 1 as int));
                let rnext = parse_string_body(s@.skip(i + 1 as int));
                if rnext is Some {
                    let p = rnext->Some_0;
                    assert(parse_string_body(cur) == Some((seq![b] + p.0, p.1)));
                    assert(c0 + (seq![b] + p.0) =~= c0.push(b) + p.0);
                } else {
                    assert(parse_string_body(cur) is None);
                }
            }
            i = i + 1;
        } else {
            return None;
        }
    }
}

/// Parses one quoted string starting at `pos`.
fn parse_string_at(s: &[u8], pos: usize) -> (r: Option<(String, usize)>)
    requires
        pos <= s@.len(),
    ensures
        match r {
            Some(p) => pos + 2 <= p.1 && p.1 <= s@.len() && parse_string(s@.skip(pos as int))
                == Some((p.0@, s@.skip(p.1 as int))),
            None => parse_string(s@.skip(pos as int)) is None,
        },
{
    if pos == s.len() {
        proof {
            assert(s@.skip(pos as int) =~= Seq::<u8>::empty());
        }
        return None;
    }
    let ghost cur = s@.skip(pos as int);
    proof {
        assert(cur[0] == s@[pos as int]);
    }
    if s[pos] != QUOTE {
        return None;
    }
    proof {
        assert(cur.drop_first() =~= s@.skip(pos + 1 as int));
    }
    match parse_string_body_at(s, pos + 1) {
        None => None,
        Some((content, np)) => {
            let ghost cb = content@;
            match bytes_to_string(content) {
                Some(st) => Some((st, np)),
                None => {
                    proof {
                        assert(!valid_utf8(cb));
                    }
                    None
                },
            }
        },
    }
}

/// Compares the input at `pos` against an expected literal.
fn parse_lit_at(s: &[u8], pos: usize, lit: &Vec<u8>) -> (r: Option<usize>)
    requires
        pos <= s@.len(),
    ensures
        match r {
            Some(np) => np == pos + lit@.len() && np <= s@.len() && parse_lit(
                s@.skip(pos as int),
                lit@,
            ) == Some(s@.skip(np as int)),
            None => parse_lit(s@.skip(pos as int), lit@) is None,
        },
{
    if s.len() - pos < lit.len() {
        proof {
            assert(s@.skip(pos as int).len() < lit@.len());
        }
        return None;
    }
    let mut j: usize = 0;
    while j < lit.len()
        invariant
            s@.len() <= usize::MAX,
            pos + lit@.len() <= s@.len(),
            j <= lit@.len(),
            forall|k: int| 0 <= k < j ==> s@[pos + k] == lit@[k],
        decreases lit@.len() - j,
    {
        if s[pos + j] != lit[j] {
            proof {
                let sk = s@.skip(pos as int);
                assert(sk.take(lit@.len() as int)[j as int] == s@[pos + j]);
                assert(sk.take(lit@.len() as int) != lit@);
            }
            return None;
        }
        j = j + 1;
    }
    proof {
        let sk = s@.skip(pos as int);
        assert(sk.take(lit@.len() as int) =~= lit@);
        assert(sk.skip(lit@.len() as int) =~= s@.skip(pos + lit@.len()));
    }
    Some(pos + lit.len())
}

/// Parses one or more comma-separated quoted strings starting at `pos`.
fn parse_string_items_at(s: &[u8], pos: usize) -> (r: Option<(Vec<String>, usize)>)
    requires
        pos <= s@.len(),
    ensures
        match r {
            Some(p) => pos < p.1 && p.1 <= s@.len() && parse_string_items(s@.skip(pos as int))
                == Some((strings_view(p.0@), s@.skip(p.1 as int))),
            None => parse_string_items(s@.skip(pos as int)) is None,
        },
{
    let mut items: Vec<String> = Vec::new();
    let mut i: usize = pos;
    proof {
        assert(strings_view(items@) =~= Seq::<Seq<char>>::empty());
    }
    loop
        invariant
            pos <= i <= s@.len(),
            parse_string_items(s@.skip(pos as int)) == items_with_prefix(
                strings_view(items@),
                parse_string_items(s@.skip(i as int)),
            ),
        decreases s@.len() - i,
    {
        let ghost iv0 = strings_view(items@);
        match parse_string_at(s, i) {
            None => {
                return None;
            },
            Some((st, np)) => {
                let ghost stv = st@;
                items.push(st);
                proof {
                    assert(strings_view(items@) =~= iv0.push(stv));
                }
                if np < s.len() && s[np] == COMMA {
                    proof {
                        let after = s@.skip(np as int);
                        assert(after[0] == s@[np as int]);
                        assert(after.drop_first() =~= s@.skip(np + 1 as int));
                        let rnext = parse_string_items(s@.skip(np + 1 as int));
                        if rnext is Some {
                            let q = rnext->Some_0;
                            assert(parse_string_items(s@.skip(i as int)) == Some(
                                (seq![stv] + q.0, q.1),
                            ));
                            assert(iv0 + (seq![stv] + q.0) =~= iv0.push(stv) + q.0);
                        } else {
                            assert(parse_string_items(s@.skip(i as int)) is None);
                        }
                    }
                    i = np + 1;
                } else {
                    proof {
                        let after = s@.skip(np as int);
                        if np < s@.len() {
                            assert(after[0] == s@[np as int]);
                            assert(!(after.len() > 0 && after[0] == COMMA));
                        } else {
                            assert(after.len() == 0);
                        }
                        assert(parse_string_items(s@.skip(i as int)) == Some(
                            (seq![stv], after),
                        ));
                        assert(iv0 + seq![stv] =~= iv0.push(stv));
                    }
                    return Some((items, np));
                }
            },
        }
    }
}

/// Parses a bracketed array of quoted strings starting at `pos`.
fn parse_string_array_at(s: &[u8], pos: usize) -> (r: Option<(Vec<String>, usize)>)
    requires
        pos <= s@.len(),
    ensures
        match r {
            Some(p) => pos < p.1 && p.1 <= s@.len() && parse_string_array(s@.skip(pos as int))
                == Some((strings_view(p.0@), s@.skip(p.1 as int))),
            None => parse_string_array(s@.skip(pos as int)) is None,
        },
{
    let ghost cur = s@.skip(pos as int);
    if pos == s.len() {
        proof {
            assert(cur =~= Seq::<u8>::empty());
        }
        return None;
    }
    proof {
        assert(cur[0] == s@[pos as int]);
    }
    if s[pos] != LBRACKET {
        return None;
    }
    if pos + 1 < s.len() && s[pos + 1] == RBRACKET {
        proof {
            assert(cur[1] == s@[pos + 1 as int]);
            assert(cur.skip(2) =~= s@.skip(pos + 2 as int));
            assert(strings_view(Seq::<String>::empty()) =~= Seq::<Seq<char>>::empty());
        }
        let empty: Vec<String> = Vec::new();
        return Some((empty, pos + 2));
    }
    proof {
        if pos + 1 < s@.len() {
            assert(cur[1] == s@[pos + 1 as int]);
        }
        assert(!(cur.len() >= 2 && cur[0] == LBRACKET && cur[1] == RBRACKET));
        assert(cur.drop_first() =~= s@.skip(pos + 1 as int));
    }
    match parse_string_items_at(s, pos + 1) {
        None => None,
        Some((items, np)) => {
            if np < s.len() && s[np] == RBRACKET {
                proof {
                    let after = s@.skip(np as int);
                    assert(after[0] == s@[np as int]);
                    assert(after.drop_first() =~= s@.skip(np + 1 as int));
                }
                Some((items, np + 1))
            } else {
                proof {
                    let after = s@.skip(np as int);
                    if np < s@.len() {
                        assert(after[0] == s@[np as int]);
                    } else {
                        assert(after.len() == 0);
                    }
                }
                None
            }
        },
    }
}

/// Parses one or more comma-separated `"key":"value"` pairs starting at
/// `pos`.
fn parse_pair_items_at(s: &[u8], pos: usize) -> (r: Option<(Vec<(String, String)>, usize)>)
    requires
        pos <= s@.len(),
    ensures
        match r {
            Some(p) => pos < p.1 && p.1 <= s@.len() && parse_pair_items(s@.skip(pos as int))
                == Some((pairs_view(p.0@), s@.skip(p.1 as int))),
            None => parse_pair_items(s@.skip(pos as int)) is None,
        },
{
    let mut pairs: Vec<(String, String)> = Vec::new();
    let mut i: usize = pos;
    proof {
        assert(pairs_view(pairs@) =~= Seq::<(Seq<char>, Seq<char>)>::empty());
    }
    loop
        invariant
            pos <= i <= s@.len(),
            parse_pair_items(s@.skip(pos as int)) == pairs_with_prefix(
                pairs_view(pairs@),
                parse_pair_items(s@.skip(i as int)),
            ),
        decreases s@.len() - i,
    {
        let ghost pv0 = pairs_view(pairs@);
        match parse_string_at(s, i) {
            None => {
                return None;
            },
            Some((k, np1)) => {
                if np1 < s.len() && s[np1] == COLON {
                    proof {
                        let after = s@.skip(np1 as int);
                        assert(after[0] == s@[np1 as int]);
                        assert(after.drop_first() =~= s@.skip(np1 + 1 as int));
                    }
                    match parse_string_at(s, np1 + 1) {
                        None => {
                            return None;
                        },
                        Some((v, np2)) => {
                            let ghost kv = (k@, v@);
                            proof {
                                assert(parse_pair(s@.skip(i as int)) == Some(
                                    (kv, s@.skip(np2 as int)),
                                ));
                            }
                            pairs.push((k, v));
                            proof {
                                assert(pairs_view(pairs@) =~= pv0.push(kv));
                            }
                            if np2 < s.len() {
                                proof {
                                    let after2 = s@.skip(np2 as int);
                                    assert(after2[0] == s@[np2 as int]);
                                }
                            }
                            if np2 < s.len() && s[np2] == COMMA {
                                proof {
                                    let after2 = s@.skip(np2 as int);
                                    assert(after2.drop_first() =~= s@.skip(np2 + 1 as int));
                                    let rnext = parse_pair_items(s@.skip(np2 + 1 as int));
                                    if rnext is Some {
                                        let q = rnext->Some_0;
                                        assert(parse_pair_items(s@.skip(i as int)) == Some(
                                            (seq![kv] + q.0, q.1),
                                        ));
                                        assert(pv0 + (seq![kv] + q.0) =~= pv0.push(kv) + q.0);
                                    } else {
                                        assert(parse_pair_items(s@.skip(i as int)) is None);
                                    }
                                }
                                i = np2 + 1;
                            } else {
                                proof {
                                    let after2 = s@.skip(np2 as int);
                                    if np2 == s@.len() {
                                        assert(after2.len() == 0);
                                    }
                                    assert(parse_pair_items(s@.skip(i as int)) == Some(
                                        (seq![kv], after2),
                                    ));
                                    assert(pv0 + seq![kv] =~= pv0.push(kv));
                                }
                                return Some((pairs, np2));
                            }
                        },
                    }
                } else {
                    proof {
                        let after = s@.skip(np1 as int);
                        if np1 < s@.len() {
                            assert(after[0] == s@[np1 as int]);
                        } else {
                            assert(after.len() == 0);
                        }
                        assert(parse_pair(s@.skip(i as int)) is None);
                    }
                    return None;
                }
            },
        }
    }
}

/// Parses a braced object of pairs starting at `pos`.
fn parse_pair_object_at(s: &[u8], pos: usize) -> (r: Option<(Vec<(String, String)>, usize)>)
    requires
        pos <= s@.len(),
    ensures
        match r {
            Some(p) => pos < p.1 && p.1 <= s@.len() && parse_pair_object(s@.skip(pos as int))
                == Some((pairs_view(p.0@), s@.skip(p.1 as int))),
            None => parse_pair_object(s@.skip(pos as int)) is None,
        },
{
    let ghost cur = s@.skip(pos as int);
    if pos == s.len() {
        proof {
            assert(cur =~= Seq::<u8>::empty());
        }
        return None;
    }
    proof {
        assert(cur[0] == s@[pos as int]);
    }
    if s[pos] != LBRACE {
        return None;
    }
    if pos + 1 < s.len() && s[pos + 1] == RBRACE {
        proof {
            assert(cur[1] == s@[pos + 1 as int]);
            assert(cur.skip(2) =~= s@.skip(pos + 2 as int));
            assert(pairs_view(Seq::<(String, String)>::empty())
                =~= Seq::<(Seq<char>, Seq<char>)>::empty());
        }
        let empty: Vec<(String, String)> = Vec::new();
        return Some((empty, pos + 2));
    }
    proof {
        if pos + 1 < s@.len() {
            assert(cur[1] == s@[pos + 1 as int]);
        }
        assert(!(cur.len() >= 2 && cur[0] == LBRACE && cur[1] == RBRACE));
        assert(cur.drop_first() =~= s@.skip(pos + 1 as int));
    }
    match parse_pair_items_at(s, pos + 1) {
        None => None,
        Some((pairs, np)) => {
            if np < s.len() && s[np] == RBRACE {
                proof {
                    let after = s@.skip(np as int);
                    assert(after[0] == s@[np as int]);
                    assert(after.drop_first() =~= s@.skip(np + 1 as int));
                }
                Some((pairs, np + 1))
            } else {
                proof {
                    let after = s@.skip(np as int);
                    if np < s@.len() {
                        assert(after[0] == s@[np as int]);
                    } else {
                        assert(after.len() == 0);
                    }
                }
                None
            }
        },
    }
}

/// Builds the byte form of `{"id":`.
fn lit_id_vec() -> (v: Vec<u8>)
    ensures
        v@ == lit_id(),
{
    let mut v: Vec<u8> = Vec::new();
    v.push(LBRACE);
    v.push(QUOTE);
    v.push(0x69);
    v.push(0x64);
    v.push(QUOTE);
    v.push(COLON);
    proof {
        assert(v@ =~= lit_id());
    }
    v
}

/// Builds the byte form of `,"name":`.
fn lit_name_vec() -> (v: Vec<u8>)
    ensures
        v@ == lit_name(),
{
    let mut v: Vec<u8> = Vec::new();
    v.push(COMMA);
    v.push(QUOTE);
    v.push(0x6e);
    v.push(0x61);
    v.push(0x6d);
    v.push(0x65);
    v.push(QUOTE);
    v.push(COLON);
    proof {
        assert(v@ =~= lit_name());
    }
    v
}

/// Builds the byte form of `,"endpoints":`.
fn lit_endpoints_vec() -> (v: Vec<u8>)
    ensures
        v@ == lit_endpoints(),
{
    let mut v: Vec<u8> = Vec::new();
    v.push(COMMA);
    v.push(QUOTE);
    v.push(0x65);
    v.push(0x6e);
    v.push(0x64);
    v.push(0x70);
    v.push(0x6f);
    v.push(0x69);
    v.push(0x6e);
    v.push(0x74);
    v.push(0x73);
    v.push(QUOTE);
    v.push(COLON);
    proof {
        assert(v@ =~= lit_endpoints());
    }
    v
}

/// Builds the byte form of `,"version":`.
fn lit_version_vec() -> (v: Vec<u8>)
    ensures
        v@ == lit_version(),
{
    let mut v: Vec<u8> = Vec::new();
    v.push(COMMA);
    v.push(QUOTE);
    v.push(0x76);
    v.push(0x65);
    v.push(0x72);
    v.push(0x73);
    v.push(0x69);
    v.push(0x6f);
    v.push(0x6e);
    v.push(QUOTE);
    v.push(COLON);
    proof {
        assert(v@ =~= lit_version());
    }
    v
}

/// Builds the byte form of `,"metadata":`.
fn lit_metadata_vec() -> (v: Vec<u8>)
    ensures
        v@ == lit_metadata(),
{
    let mut v: Vec<u8> = Vec::new();
    v.push(COMMA);
    v.push(QUOTE);
    v.push(0x6d);
    v.push(0x65);
    v.push(0x74);
    v.push(0x61);
    v.push(0x64);
    v.push(0x61);
    v.push(0x74);
    v.push(0x61);
    v.push(QUOTE);
    v.push(COLON);
    proof {
        assert(v@ =~= lit_metadata());
    }
    v
}

/// Decodes a wire value into a record. Returns the record exactly when the
/// bytes are a canonical encoding; malformed bytes yield `None` and never a
/// misread record.
pub fn parse_instance(s: &[u8]) -> (r: Option<ServiceInstance>)
    ensures
        match r {
            Some(inst) => spec_parse_instance(s@) == Some(inst@),
            None => spec_parse_instance(s@) is None,
        },
{
    proof {
        assert(s@.skip(0) =~= s@);
    }
    let lid = lit_id_vec();
    let p1 = match parse_lit_at(s, 0, &lid) {
        Some(p) => p,
        None => {
            return None;
        },
    };
    let (id, p2) = match parse_string_at(s, p1) {
        Some(p) => p,
        None => {
            return None;
        },
    };
    let lname = lit_name_vec();
    let p3 = match parse_lit_at(s, p2, &lname) {
        Some(p) => p,
        None => {
            return None;
        },
    };
    let (name, p4) = match parse_string_at(s, p3) {
        Some(p) => p,
        None => {
            return None;
        },
    };
    let leps = lit_endpoints_vec();
    let p5 = match parse_lit_at(s, p4, &leps) {
        Some(p) => p,
        None => {
            return None;
        },
    };
    let (endpoints, p6) = match parse_string_array_at(s, p5) {
        Some(p) => p,
        None => {
            return None;
        },
    };
    let lver = lit_version_vec();
    let p7 = match parse_lit_at(s, p6, &lver) {
        Some(p) => p,
        None => {
            return None;
        },
    };
    let (version, p8) = match parse_string_at(s, p7) {
        Some(p) => p,
        None => {
            return None;
        },
    };
    let lmd = lit_metadata_vec();
    let p9 = match parse_lit_at(s, p8, &lmd) {
        Some(p) => p,
        None => {
            return None;
        },
    };
    let (metadata, p10) = match parse_pair_object_at(s, p9) {
        Some(p) => p,
        None => {
            return None;
        },
    };
    let ghost tail = s@.skip(p10 as int);
    if p10 < s.len() && s[p10] == RBRACE && p10 + 1 == s.len() {
        let inst = ServiceInstance { id, name, endpoints, version, metadata };
        proof {
            assert(tail[0] == s@[p10 as int]);
            assert(tail =~= seq![RBRACE]);
            assert(inst@.endpoints =~= strings_view(inst.endpoints@));
            assert(inst@.metadata =~= pairs_view(inst.metadata@));
            assert(spec_parse_instance(s@) matches Some(m) && m =~= inst@);
        }
        Some(inst)
    } else {
        proof {
            if p10 == s@.len() {
                assert(tail.len() == 0);
                assert(tail != seq![RBRACE]);
            } else {
                assert(tail[0] == s@[p10 as int]);
                if s@[p10 as int] != RBRACE {
                    assert(tail != seq![RBRACE]) by {
                        assert(seq![RBRACE][0] == RBRACE);
                    }
                } else {
                    assert(tail.len() > 1);
                    assert(tail != seq![RBRACE]);
                }
            }
        }
        None
    }
}

/// Decides whether a string is carryable text.
pub fn check_text(s: &str) -> (r: bool)
    ensures
        r == text_ok(s@),
{
    let bytes = s.as_bytes();
    let mut i: usize = 0;
    while i < bytes.len()
        invariant
            i <= bytes@.len(),
            bytes@ == encode_utf8(s@),
            forall|j: int| 0 <= j < i ==> allowed_byte(#[trigger] bytes@[j]),
        decreases bytes@.len() - i,
    {
        let b = bytes[i];
        if !(b == TAB || b == LF || b == CR || b >= SPACE) {
            assert(!allowed_byte(bytes@[i as int]));
            return false;
        }
        i = i + 1;
    }
    true
}

/// Decides whether a record is carryable by the wire format.
pub fn check_encodable(inst: &ServiceInstance) -> (r: bool)
    ensures
        r == encodable(inst@),
{
    if !check_text(inst.id.as_str()) {
        return false;
    }
    if !check_text(inst.name.as_str()) {
        return false;
    }
    if !check_text(inst.version.as_str()) {
        return false;
    }
    let mut i: usize = 0;
    while i < inst.endpoints.len()
        invariant
            i <= inst.endpoints@.len(),
            text_ok(inst@.id),
            text_ok(inst@.name),
            text_ok(inst@.version),
            forall|j: int| 0 <= j < i ==> text_ok(#[trigger] inst@.endpoints[j]),
        decreases inst.endpoints@.len() - i,
    {
        if !check_text(inst.endpoints[i].as_str()) {
            proof {
                assert(inst@.endpoints[i as int] == inst.endpoints@[i as int]@);
                assert(!text_ok(inst@.endpoints[i as int]));
                assert(!encodable(inst@));
            }
            return false;
        }
        i = i + 1;
    }
    let mut j: usize = 0;
    while j < inst.metadata.len()
        invariant
            j <= inst.metadata@.len(),
            text_ok(inst@.id),
            text_ok(inst@.name),
            text_ok(inst@.version),
            forall|k: int| 0 <= k < inst@.endpoints.len() ==> text_ok(#[trigger] inst@.endpoints[k]),
            forall|k: int| 0 <= k < j
                ==> text_ok((#[trigger] inst@.metadata[k]).0) && text_ok(inst@.metadata[k].1),
        decreases inst.metadata@.len() - j,
    {
        if !check_text(inst.metadata[j].0.as_str()) {
            proof {
                let ghost_pair = inst@.metadata[j as int];
                assert(ghost_pair.0 == inst.metadata@[j as int].0@);
                assert(!text_ok(ghost_pair.0));
                assert(!encodable(inst@));
            }
            return false;
        }
        if !check_text(inst.metadata[j].1.as_str()) {
            proof {
                let ghost_pair = inst@.metadata[j as int];
                assert(ghost_pair.1 == inst.metadata@[j as int].1@);
                assert(!text_ok(ghost_pair.1));
                assert(!encodable(inst@));
            }
            return false;
        }
        proof {
            let ghost_pair = inst@.metadata[j as int];
            assert(ghost_pair.0 == inst.metadata@[j as int].0@);
            assert(ghost_pair.1 == inst.metadata@[j as int].1@);
            assert(text_ok(ghost_pair.0) && text_ok(ghost_pair.1));
        }
        j = j + 1;
    }
    true
}

} // verus!
