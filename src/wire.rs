//! The message schema that carries each captured packet inside a frame.
//!
//! A frame's body is a protobuf message with these fields:
//! 1 timestamp (varint), 2 payload size (varint), 3 payload (bytes),
//! 4 pid (varint), 5 ancillary size (varint), 6 ancillary data (bytes).
//! Only the payload is needed to rebuild the text; the other known fields
//! are checked for their wire type and skipped, unknown fields are skipped.
use vstd::prelude::*;

verus! {

/// An upper bound on the value that the bytes of a varint from its `k`-th
/// byte on can still contribute (the tenth byte holds a single bit).
pub open spec fn varint_bound(k: nat) -> nat
    decreases 9 - k,
{
    if k >= 9 {
        2
    } else {
        128 * varint_bound(k + 1)
    }
}

/// The varint that starts at `i`, read from its `k`-th byte on: the value of
/// those bytes and the position just past the varint. At most ten bytes, and
/// the tenth may only be 0 or 1, so that the value fits in 64 bits.
pub open spec fn varint_from(b: Seq<u8>, i: int, k: nat) -> Option<(nat, int)>
    decreases 10 - k,
{
    if k >= 10 || i < 0 || i + k >= b.len() {
        None
    } else {
        let byte = b[i + k];
        if k == 9 && byte >= 2 {
            None
        } else if byte < 128 {
            Some((byte as nat, i + k + 1))
        } else {
            match varint_from(b, i, k + 1) {
                Some((v, e)) => Some(((byte - 128) as nat + 128 * v, e)),
                None => None,
            }
        }
    }
}

/// The varint at `i`: its value and the position just past it.
pub open spec fn varint_at(b: Seq<u8>, i: int) -> Option<(nat, int)> {
    varint_from(b, i, 0)
}

/// Where the value of a field of the given wire type, starting at `j`, lies:
/// for a length-delimited field the bytes after the length prefix.
pub open spec fn field_span(m: Seq<u8>, j: int, wire: nat) -> Option<(int, int)> {
    if wire == 0 {
        match varint_at(m, j) {
            Some((_, e)) => Some((j, e)),
            None => None,
        }
    } else if wire == 1 {
        if 0 <= j && j + 8 <= m.len() {
            Some((j, j + 8))
        } else {
            None
        }
    } else if wire == 2 {
        match varint_at(m, j) {
            Some((n, s)) => if s + n <= m.len() {
                Some((s, s + n))
            } else {
                None
            },
            None => None,
        }
    } else if wire == 5 {
        if 0 <= j && j + 4 <= m.len() {
            Some((j, j + 4))
        } else {
            None
        }
    } else {
        None
    }
}

/// The known fields of the message must come with their declared wire type.
pub open spec fn wire_fits(field: nat, wire: nat) -> bool {
    &&& (field == 1 || field == 2 || field == 4 || field == 5) ==> wire == 0
    &&& (field == 3 || field == 6) ==> wire == 2
}

/// Reads the fields from `i` to the end, `payload` being the last payload
/// seen so far; `None` where the message is malformed.
pub open spec fn scan_fields(m: Seq<u8>, i: int, payload: Seq<u8>) -> Option<Seq<u8>>
    decreases m.len() - i,
    via scan_fields_decreases
{
    if i < 0 || i >= m.len() {
        Some(payload)
    } else {
        match varint_at(m, i) {
            None => None,
            Some((key, j)) => {
                let field = key / 8;
                let wire = key % 8;
                if key > 0xffff_ffff || field == 0 || !wire_fits(field, wire) {
                    None
                } else {
                    match field_span(m, j, wire) {
                        None => None,
                        Some((s, e)) => scan_fields(
                            m,
                            e,
                            if field == 3 {
                                m.subrange(s, e)
                            } else {
                                payload
                            },
                        ),
                    }
                }
            },
        }
    }
}

#[via_fn]
proof fn scan_fields_decreases(m: Seq<u8>, i: int, payload: Seq<u8>) {
    if 0 <= i < m.len() {
        if let Some((key, j)) = varint_at(m, i) {
            lemma_varint_from(m, i, 0);
            let wire = key % 8;
            if let Some((s, e)) = field_span(m, j, wire) {
                lemma_field_span(m, j, wire);
            }
        }
    }
}

/// The payload that a frame body carries, or `None` where the body is not a
/// well-formed message. A message without a payload field carries an empty one.
pub open spec fn message_payload(m: Seq<u8>) -> Option<Seq<u8>> {
    scan_fields(m, 0, Seq::empty())
}

proof fn lemma_varint_bound_positive(k: nat)
    ensures
        varint_bound(k) >= 2,
        k < 9 ==> varint_bound(k) >= 256,
    decreases 9 - k,
{
    if k < 9 {
        lemma_varint_bound_positive(k + 1);
    }
}

proof fn lemma_varint_bound_at_most(k: nat)
    requires
        1 <= k <= 9,
    ensures
        varint_bound(k) <= 0x200_0000_0000_0000,
    decreases k,
{
    if k == 1 {
        assert(varint_bound(9) == 0x2);
        assert(varint_bound(8) == 0x100);
        assert(varint_bound(7) == 0x8000);
        assert(varint_bound(6) == 0x400000);
        assert(varint_bound(5) == 0x20000000);
        assert(varint_bound(4) == 0x1000000000);
        assert(varint_bound(3) == 0x80000000000);
        assert(varint_bound(2) == 0x4000000000000);
        assert(varint_bound(1) == 0x200000000000000);
    } else {
        lemma_varint_bound_at_most((k - 1) as nat);
    }
}

/// A varint read from its `k`-th byte on ends after that byte, within the
/// buffer, and its value stays under the bound.
pub proof fn lemma_varint_from(b: Seq<u8>, i: int, k: nat)
    ensures
        varint_from(b, i, k) matches Some((v, e)) ==> {
            &&& v < varint_bound(k)
            &&& i + k < e <= b.len()
        },
    decreases 10 - k,
{
    lemma_varint_bound_positive(k);
    if k < 10 && 0 <= i && i + k < b.len() {
        let byte = b[i + k];
        if !(k == 9 && byte >= 2) && byte >= 128 {
            lemma_varint_from(b, i, k + 1);
        }
    }
}

/// A field's value lies within the message, from `j` on.
pub proof fn lemma_field_span(m: Seq<u8>, j: int, wire: nat)
    ensures
        field_span(m, j, wire) matches Some((s, e)) ==> 0 <= j <= s <= e <= m.len() && j < e,
{
    lemma_varint_from(m, j, 0);
}

fn read_varint_from(b: &[u8], i: usize, k: usize) -> (r: Option<(u64, usize)>)
    requires
        k <= 10,
    ensures
        r is Some <==> varint_from(b@, i as int, k as nat) is Some,
        r matches Some((v, e)) ==> varint_from(b@, i as int, k as nat) == Some((v as nat, e as int)),
    decreases 10 - k,
{
    if k >= 10 || i >= b.len() || k >= b.len() - i {
        return None;
    }
    let byte = b[i + k];
    if k == 9 && byte >= 2 {
        None
    } else if byte < 128 {
        Some((byte as u64, i + k + 1))
    } else {
        match read_varint_from(b, i, k + 1) {
            None => None,
            Some((v, e)) => {
                proof {
                    lemma_varint_from(b@, i as int, (k + 1) as nat);
                    lemma_varint_bound_at_most((k + 1) as nat);
                }
                Some(((byte - 128) as u64 + 128 * v, e))
            },
        }
    }
}

/// Reads the varint at `i`: its value and the position just past it.
pub fn read_varint(b: &[u8], i: usize) -> (r: Option<(u64, usize)>)
    ensures
        r is Some <==> varint_at(b@, i as int) is Some,
        r matches Some((v, e)) ==> varint_at(b@, i as int) == Some((v as nat, e as int)),
{
    read_varint_from(b, i, 0)
}

fn read_field_span(m: &[u8], j: usize, wire: u64) -> (r: Option<(usize, usize)>)
    ensures
        r is Some <==> field_span(m@, j as int, wire as nat) is Some,
        r matches Some((s, e)) ==> field_span(m@, j as int, wire as nat) == Some((s as int, e as int)),
{
    if wire == 0 {
        match read_varint(m, j) {
            Some((_, e)) => Some((j, e)),
            None => None,
        }
    } else if wire == 1 {
        if j <= m.len() && 8 <= m.len() - j {
            Some((j, j + 8))
        } else {
            None
        }
    } else if wire == 2 {
        match read_varint(m, j) {
            Some((n, s)) => {
                proof {
                    lemma_varint_from(m@, j as int, 0);
                }
                if n <= (m.len() - s) as u64 {
                    Some((s, s + n as usize))
                } else {
                    None
                }
            },
            None => None,
        }
    } else if wire == 5 {
        if j <= m.len() && 4 <= m.len() - j {
            Some((j, j + 4))
        } else {
            None
        }
    } else {
        None
    }
}

/// Finds the payload of a frame body: `Some((s, e))` where it is `m[s..e]`,
/// `None` where the body is not a well-formed message.
pub fn find_payload(m: &[u8]) -> (r: Option<(usize, usize)>)
    ensures
        r is Some <==> message_payload(m@) is Some,
        r matches Some((s, e)) ==> {
            &&& s <= e <= m@.len()
            &&& message_payload(m@) == Some(m@.subrange(s as int, e as int))
        },
{
    let mut i: usize = 0;
    let mut ps: usize = 0;
    let mut pe: usize = 0;
    assert(m@.subrange(0, 0) =~= Seq::<u8>::empty());
    while i < m.len()
        invariant
            i <= m@.len(),
            ps <= pe <= m@.len(),
            scan_fields(m@, i as int, m@.subrange(ps as int, pe as int)) == message_payload(m@),
        decreases m@.len() - i,
    {
        let (key, j) = match read_varint(m, i) {
            None => return None,
            Some(x) => x,
        };
        proof {
            lemma_varint_from(m@, i as int, 0);
        }
        let field = key / 8;
        let wire = key % 8;
        let known_varint = field == 1 || field == 2 || field == 4 || field == 5;
        let known_bytes = field == 3 || field == 6;
        if key > 0xffff_ffff || field == 0 || (known_varint && wire != 0) || (known_bytes && wire
            != 2) {
            return None;
        }
        let (s, e) = match read_field_span(m, j, wire) {
            None => return None,
            Some(x) => x,
        };
        proof {
            lemma_field_span(m@, j as int, wire as nat);
        }
        if field == 3 {
            ps = s;
            pe = e;
        }
        i = e;
    }
    Some((ps, pe))
}

} // verus!
