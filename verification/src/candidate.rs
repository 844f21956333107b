//! Keys under which the edges of traces are grouped.

use vstd::prelude::*;
use vstd::string::StringSliceAdditionalSpecFns;
use crate::digest::{sha256_hex_digest, Fingerprinter, DIGEST_LIMIT};
use crate::event::IDType;
use crate::trace::TraceEdge;

verus! {

/// Byte `i` of the sixteen bytes of `value`, the most significant first.
pub open spec fn be_byte(value: u128, i: int) -> u8 {
    ((value >> ((8 * (15 - i)) as u128)) & 0xff) as u8
}

/// The sixteen bytes of `value`, the most significant first.
pub open spec fn be_bytes(value: u128) -> Seq<u8> {
    Seq::new(16, |i: int| be_byte(value, i))
}

/// The bytes that stand for an id: the sixteen bytes of a UUID, or the
/// UTF-8 bytes of a text.
pub open spec fn id_bytes(id: IDType) -> Seq<u8> {
    match id {
        IDType::UUID(u) => be_bytes(u),
        IDType::STRING(s) => vstd::utf8::encode_utf8(s@),
    }
}

/// The sixteen bytes of `value`, the most significant first.
pub fn bytes_of(value: u128) -> (bytes: Vec<u8>)
    ensures
        bytes@ == be_bytes(value),
{
    let mut bytes: Vec<u8> = Vec::new();
    let mut i: u32 = 0;
    while i < 16
        invariant
            0 <= i <= 16,
            bytes@.len() == i,
            forall|j: int| 0 <= j < i ==> bytes@[j] == be_byte(value, j),
        decreases 16 - i,
    {
        let shift: u32 = 8 * (15 - i);
        let byte = ((value >> shift) & 0xff) as u8;
        assert(byte == be_byte(value, i as int)) by {
            assert(shift as u128 == ((8 * (15 - i as int)) as u128));
        }
        bytes.push(byte);
        i += 1;
    }
    assert(bytes@ =~= be_bytes(value));
    bytes
}

/// What is hashed for an edge of the trace `id`: the id, then the names of
/// the tracepoints at the edge's two ends.
pub open spec fn edge_key_bytes(id: IDType, edge: TraceEdge) -> Seq<u8> {
    id_bytes(id) + vstd::utf8::encode_utf8(edge.tp_start@) + vstd::utf8::encode_utf8(edge.tp_end@)
}

/// The key of an edge within the trace `id`: the SHA-256 digest, in
/// hexadecimal, of the id and the two tracepoint names. `None` exactly when
/// they are too long for the digest.
pub fn hash_id_and_edge(id: IDType, edge: TraceEdge) -> (key: Option<String>)
    ensures
        match key {
            Some(k) => edge_key_bytes(id, edge).len() < DIGEST_LIMIT && k@ == sha256_hex_digest(
                edge_key_bytes(id, edge),
            ),
            None => edge_key_bytes(id, edge).len() >= DIGEST_LIMIT,
        },
{
    let mut printer = Fingerprinter::new();
    let fed = match &id {
        IDType::UUID(u) => {
            let bytes = bytes_of(*u);
            printer.feed_bytes(bytes.as_slice())
        },
        IDType::STRING(s) => printer.feed(s.as_str()),
    };
    proof {
        assert(crate::digest::no_bytes() + id_bytes(id) =~= id_bytes(id));
    }
    if !fed {
        return None;
    }
    if !printer.feed(edge.tp_start.as_str()) {
        return None;
    }
    if !printer.feed(edge.tp_end.as_str()) {
        return None;
    }
    Some(printer.finish())
}

} // verus!
