//! Fresh instance identifiers: one per process invocation, never reused
//! across restarts, so stale entries under an old identifier are cleaned
//! up purely by lease expiry.

use vstd::prelude::*;
use vstd::utf8::encode_utf8;
use crate::codec::text_ok;
use crate::instance::{key_ok, ServiceInstance};

verus! {

/// A character of the URL-safe identifier alphabet.
pub open spec fn id_char_ok(c: char) -> bool {
    ('a' <= c && c <= 'z') || ('A' <= c && c <= 'Z') || ('0' <= c && c <= '9') || c == '_'
        || c == '-'
}

/// Relies on nanoid::format with the URL-safe alphabet and its default
/// secure random source: the identifier has exactly 21 characters, every
/// one drawn from that alphabet.
#[verifier::external_body]
fn fresh_id() -> (r: String)
    ensures
        r@.len() == 21,
        forall|i: int| 0 <= i < r@.len() ==> id_char_ok(#[trigger] r@[i]),
{
    nanoid::format(nanoid::rngs::default, &nanoid::alphabet::SAFE, 21)
}

/// Identifier characters are ASCII and printable, so an identifier is a
/// valid key component and carryable text.
pub proof fn lemma_id_text(s: Seq<char>)
    requires
        s.len() > 0,
        forall|i: int| 0 <= i < s.len() ==> id_char_ok(#[trigger] s[i]),
    ensures
        key_ok(s),
        text_ok(s),
{
    broadcast use vstd::utf8::is_ascii_chars_encode_utf8;

    assert forall|i: int| 0 <= i < s.len() implies '\0' <= #[trigger] s[i] <= '\u{7f}' by {
        assert(id_char_ok(s[i]));
    }
    assert(vstd::utf8::is_ascii_chars(s));
    assert forall|i: int|
        0 <= i < encode_utf8(s).len() implies crate::codec::allowed_byte(
        #[trigger] encode_utf8(s)[i],
    ) by {
        assert(encode_utf8(s)[i] == s[i] as u8);
        assert(id_char_ok(s[i]));
        assert(s[i] as u8 >= 0x2d);
    }
}

/// Builds a record for this process invocation under a freshly generated
/// identifier.
pub fn new_instance(
    name: String,
    endpoints: Vec<String>,
    version: String,
    metadata: Vec<(String, String)>,
) -> (r: ServiceInstance)
    ensures
        r.name == name,
        r.endpoints == endpoints,
        r.version == version,
        r.metadata == metadata,
        r.id@.len() == 21,
        key_ok(r.id@),
        text_ok(r.id@),
{
    let id = fresh_id();
    proof {
        lemma_id_text(id@);
    }
    ServiceInstance { id, name, endpoints, version, metadata }
}

} // verus!
