//! The canonical serialization of the persisted state.
//!
//! The cursor is stored as the tuple `(current_top, current_child,
//! prev_tick_child, size, top_items, child_items)` and the scheduler
//! switch as an optional pair `(size, item)`, both in the host's
//! canonical form: little-endian words, one-byte tags for options and
//! booleans, and byte strings prefixed by their length in the compact
//! integer form.  Encoding and decoding invert one another byte for
//! byte, and the decoders accept exactly the canonical images.

use vstd::prelude::*;

use vstd::arithmetic::div_mod::{lemma_div_denominator, lemma_fundamental_div_mod};

use crate::task::{MigrationLimits, MigrationTask, TaskModel};

verus! {

/// A 32-bit word as four little-endian bytes.
pub open spec fn u32_le(v: u32) -> Seq<u8> {
    seq![
        (v % 0x100) as u8,
        ((v / 0x100) % 0x100) as u8,
        ((v / 0x10000) % 0x100) as u8,
        ((v / 0x1000000) % 0x100) as u8,
    ]
}

/// The word the four little-endian bytes at `pos` denote.
pub open spec fn u32_from(b: Seq<u8>, pos: int) -> u32 {
    (b[pos] + b[pos + 1] * 0x100 + b[pos + 2] * 0x10000 + b[pos + 3] * 0x1000000) as u32
}

/// A length in the compact form: the two low bits of the first byte
/// select one of four widths.
pub open spec fn compact_len(v: u32) -> Seq<u8> {
    if v < 64 {
        seq![(v * 4) as u8]
    } else if v < 16384 {
        seq![((v * 4 + 1) % 0x100) as u8, (((v * 4 + 1) / 0x100) % 0x100) as u8]
    } else if v < 0x40000000 {
        u32_le((v * 4 + 2) as u32)
    } else {
        seq![3u8] + u32_le(v)
    }
}

/// A byte string: its length in compact form, then its bytes.
pub open spec fn bytes_enc(s: Seq<u8>) -> Seq<u8> {
    compact_len(s.len() as u32) + s
}

/// An optional byte string: a presence tag, then the string.
pub open spec fn opt_bytes_enc(o: Option<Seq<u8>>) -> Seq<u8> {
    match o {
        None => seq![0u8],
        Some(s) => seq![1u8] + bytes_enc(s),
    }
}

/// A boolean as one byte.
pub open spec fn bool_enc(b: bool) -> Seq<u8> {
    if b {
        seq![1u8]
    } else {
        seq![0u8]
    }
}

/// The limits pair, sizes first.
pub open spec fn limits_enc(l: MigrationLimits) -> Seq<u8> {
    u32_le(l.size) + u32_le(l.item)
}

/// The optional limits of the automatic scheduler.
pub open spec fn opt_limits_enc(o: Option<MigrationLimits>) -> Seq<u8> {
    match o {
        None => seq![0u8],
        Some(l) => seq![1u8] + limits_enc(l),
    }
}

/// The persisted fields of a cursor, in storage order.  The per-run
/// counters take no part.
pub open spec fn task_enc(t: TaskModel) -> Seq<u8> {
    opt_bytes_enc(t.current_top) + opt_bytes_enc(t.current_child) + bool_enc(t.prev_tick_child)
        + u32_le(t.size) + u32_le(t.top_items) + u32_le(t.child_items)
}

/// Whether a cursor's keys fit the length prefix.
pub open spec fn task_encodable(t: TaskModel) -> bool {
    &&& (t.current_top matches Some(k) ==> k.len() <= u32::MAX)
    &&& (t.current_child matches Some(k) ==> k.len() <= u32::MAX)
}

/// The little-endian bytes of a word denote that word.
proof fn lemma_u32_le_from(v: u32)
    ensures
        u32_le(v)[0] + u32_le(v)[1] * 0x100 + u32_le(v)[2] * 0x10000 + u32_le(v)[3] * 0x1000000
            == v,
{
    lemma_fundamental_div_mod(v as int, 0x100);
    lemma_fundamental_div_mod(v as int / 0x100, 0x100);
    lemma_fundamental_div_mod(v as int / 0x10000, 0x100);
    lemma_div_denominator(v as int, 0x100, 0x100);
    lemma_div_denominator(v as int, 0x10000, 0x100);
    assert(v / 0x1000000 < 0x100);
}

/// Four bytes are the little-endian form of the word they denote.
proof fn lemma_u32_le_reconstruct(b0: u8, b1: u8, b2: u8, b3: u8)
    ensures
        u32_le(((b0 + b1 * 0x100 + b2 * 0x10000 + b3 * 0x1000000) as int) as u32) =~= seq![
            b0,
            b1,
            b2,
            b3,
        ],
{
    let x = b0 + b1 * 0x100 + b2 * 0x10000 + b3 * 0x1000000;
    assert(0 <= x < 0x100000000);
    let v = x as u32;
    assert(v == x);
    assert(x % 0x100 == b0) by {
        lemma_fundamental_div_mod(x, 0x100);
        assert(x == 0x100 * (b1 + b2 * 0x100 + b3 * 0x10000) + b0);
        crate::codec::lemma_small_mod_multiple(x, b1 + b2 * 0x100 + b3 * 0x10000, b0 as int);
    }
    assert(x / 0x100 == b1 + b2 * 0x100 + b3 * 0x10000) by {
        crate::codec::lemma_small_div_multiple(x, b1 + b2 * 0x100 + b3 * 0x10000, b0 as int);
    }
    assert((x / 0x100) % 0x100 == b1) by {
        crate::codec::lemma_small_mod_multiple(
            b1 + b2 * 0x100 + b3 * 0x10000,
            b2 + b3 * 0x100,
            b1 as int,
        );
    }
    assert((x / 0x100) / 0x100 == b2 + b3 * 0x100) by {
        crate::codec::lemma_small_div_multiple(
            b1 + b2 * 0x100 + b3 * 0x10000,
            b2 + b3 * 0x100,
            b1 as int,
        );
    }
    lemma_div_denominator(x, 0x100, 0x100);
    assert(x / 0x10000 == b2 + b3 * 0x100);
    assert((x / 0x10000) % 0x100 == b2) by {
        crate::codec::lemma_small_mod_multiple(b2 + b3 * 0x100, b3 as int, b2 as int);
    }
    assert((x / 0x10000) / 0x100 == b3) by {
        crate::codec::lemma_small_div_multiple(b2 + b3 * 0x100, b3 as int, b2 as int);
    }
    lemma_div_denominator(x, 0x10000, 0x100);
    assert(x / 0x1000000 == b3);
}

/// `(0x100 * q + r) % 0x100 == r` for a byte-sized remainder.
proof fn lemma_small_mod_multiple(x: int, q: int, r: int)
    requires
        0 <= r < 0x100,
        0 <= q,
        x == 0x100 * q + r,
    ensures
        x % 0x100 == r,
{
    lemma_fundamental_div_mod(x, 0x100);
    crate::codec::lemma_small_div_multiple(x, q, r);
}

/// `(0x100 * q + r) / 0x100 == q` for a byte-sized remainder.
proof fn lemma_small_div_multiple(x: int, q: int, r: int)
    requires
        0 <= r < 0x100,
        0 <= q,
        x == 0x100 * q + r,
    ensures
        x / 0x100 == q,
{
    vstd::arithmetic::div_mod::lemma_fundamental_div_mod_converse(x, 0x100, q, r);
}

/// Append the little-endian form of `v`.
fn encode_u32_into(out: &mut Vec<u8>, v: u32)
    ensures
        final(out)@ == old(out)@ + u32_le(v),
{
    out.push((v % 0x100) as u8);
    out.push(((v / 0x100) % 0x100) as u8);
    out.push(((v / 0x10000) % 0x100) as u8);
    out.push(((v / 0x1000000) % 0x100) as u8);
    proof {
        assert(out@ =~= old(out)@ + u32_le(v));
    }
}

/// Append the compact form of `v`.
fn encode_compact_into(out: &mut Vec<u8>, v: u32)
    ensures
        final(out)@ == old(out)@ + compact_len(v),
{
    if v < 64 {
        out.push((v * 4) as u8);
        proof {
            assert(out@ =~= old(out)@ + compact_len(v));
        }
    } else if v < 16384 {
        let x = v * 4 + 1;
        out.push((x % 0x100) as u8);
        out.push(((x / 0x100) % 0x100) as u8);
        proof {
            assert(out@ =~= old(out)@ + compact_len(v));
        }
    } else if v < 0x40000000 {
        encode_u32_into(out, v * 4 + 2);
        proof {
            assert(out@ =~= old(out)@ + compact_len(v));
        }
    } else {
        out.push(3u8);
        encode_u32_into(out, v);
        proof {
            assert(out@ =~= old(out)@ + compact_len(v));
        }
    }
}

/// Append a length-prefixed byte string.
fn encode_bytes_into(out: &mut Vec<u8>, s: &Vec<u8>)
    requires
        s@.len() <= u32::MAX,
    ensures
        final(out)@ == old(out)@ + bytes_enc(s@),
{
    let len: u32 = #[verifier::truncate] (s.len() as u32);
    encode_compact_into(out, len);
    let n = s.len();
    let mut i: usize = 0;
    let ghost mid = out@;
    while i < n
        invariant
            n == s@.len(),
            0 <= i <= n,
            out@ == mid + s@.subrange(0, i as int),
        decreases n - i,
    {
        out.push(s[i]);
        proof {
            assert(out@ =~= mid + s@.subrange(0, i + 1));
        }
        i = i + 1;
    }
    proof {
        assert(s@.subrange(0, n as int) =~= s@);
        assert(out@ =~= old(out)@ + bytes_enc(s@));
    }
}

/// Append an optional byte string.
fn encode_opt_bytes_into(out: &mut Vec<u8>, o: &Option<Vec<u8>>)
    requires
        (o matches Some(s) ==> s@.len() <= u32::MAX),
    ensures
        final(out)@ == old(out)@ + opt_bytes_enc(crate::task::opt_view(*o)),
{
    match o {
        None => {
            out.push(0u8);
            proof {
                assert(out@ =~= old(out)@ + opt_bytes_enc(None));
            }
        },
        Some(s) => {
            out.push(1u8);
            encode_bytes_into(out, s);
            proof {
                assert(out@ =~= old(out)@ + opt_bytes_enc(Some(s@)));
            }
        },
    }
}

/// The canonical bytes of the persisted fields of a cursor.
pub fn encode_task(t: &MigrationTask) -> (r: Vec<u8>)
    requires
        task_encodable(t@),
    ensures
        r@ == task_enc(t@),
{
    let mut out: Vec<u8> = Vec::new();
    encode_opt_bytes_into(&mut out, &t.current_top);
    encode_opt_bytes_into(&mut out, &t.current_child);
    out.push(if t.prev_tick_child {
        1u8
    } else {
        0u8
    });
    encode_u32_into(&mut out, t.size);
    encode_u32_into(&mut out, t.top_items);
    encode_u32_into(&mut out, t.child_items);
    proof {
        assert(out@ =~= task_enc(t@));
    }
    out
}

/// The canonical bytes of the scheduler switch.
pub fn encode_auto_limits(o: &Option<MigrationLimits>) -> (r: Vec<u8>)
    ensures
        r@ == opt_limits_enc(*o),
{
    let mut out: Vec<u8> = Vec::new();
    match o {
        None => {
            out.push(0u8);
        },
        Some(l) => {
            out.push(1u8);
            encode_u32_into(&mut out, l.size);
            encode_u32_into(&mut out, l.item);
        },
    }
    proof {
        assert(out@ =~= opt_limits_enc(*o));
    }
    out
}

/// Read a 32-bit word.
fn decode_u32(buf: &Vec<u8>, pos: usize) -> (r: Option<(u32, usize)>)
    ensures
        (r is Some) <==> pos + 4 <= buf@.len(),
        (r matches Some(vp) ==> vp.1 == pos + 4 && buf@.subrange(pos as int, pos + 4) == u32_le(
            vp.0,
        )),
{
    if pos < buf.len() && buf.len() - pos >= 4 {
        let b0 = buf[pos];
        let b1 = buf[pos + 1];
        let b2 = buf[pos + 2];
        let b3 = buf[pos + 3];
        let v: u32 = b0 as u32 + b1 as u32 * 0x100 + b2 as u32 * 0x10000 + b3 as u32 * 0x1000000;
        proof {
            lemma_u32_le_reconstruct(b0, b1, b2, b3);
            assert(buf@.subrange(pos as int, pos + 4) =~= seq![b0, b1, b2, b3]);
        }
        Some((v, pos + 4))
    } else {
        None
    }
}

/// Read a compact length.  Exactly the canonical forms are accepted:
/// each value read back re-encodes to the bytes consumed.
fn decode_compact(buf: &Vec<u8>, pos: usize) -> (r: Option<(u32, usize)>)
    ensures
        (r matches Some(vp) ==> pos < vp.1 <= buf@.len() && buf@.subrange(pos as int, vp.1 as int)
            == compact_len(vp.0)),
        forall|v: u32|
            pos + (#[trigger] compact_len(v)).len() <= buf@.len() && buf@.subrange(
                pos as int,
                pos + compact_len(v).len(),
            ) == compact_len(v) ==> r == Some((v, (pos + compact_len(v).len()) as usize)),
{
    if pos >= buf.len() {
        proof {
            assert forall|v: u32|
                !(pos + (#[trigger] compact_len(v)).len() <= buf@.len()) by {
                assert(compact_len(v).len() >= 1);
            }
        }
        return None;
    }
    let b0 = buf[pos];
    let mode = b0 % 4;
    if mode == 0 {
        let v = (b0 / 4) as u32;
        proof {
            assert(buf@.subrange(pos as int, pos + 1) =~= seq![b0]);
            assert(compact_len(v) =~= seq![b0]);
            assert forall|v2: u32|
                pos + (#[trigger] compact_len(v2)).len() <= buf@.len() && buf@.subrange(
                    pos as int,
                    pos + compact_len(v2).len(),
                ) == compact_len(v2) implies Some((v, (pos + 1) as usize)) == Some(
                (v2, (pos + compact_len(v2).len()) as usize),
            ) by {
                lemma_compact_first_byte(v2, buf@, pos as int);
            }
        }
        return Some((v, pos + 1));
    }
    if mode == 1 {
        if buf.len() - pos < 2 {
            proof {
                assert forall|v2: u32|
                    !(pos + (#[trigger] compact_len(v2)).len() <= buf@.len() && buf@.subrange(
                        pos as int,
                        pos + compact_len(v2).len(),
                    ) == compact_len(v2)) by {
                    if pos + compact_len(v2).len() <= buf@.len() && buf@.subrange(
                        pos as int,
                        pos + compact_len(v2).len(),
                    ) == compact_len(v2) {
                        lemma_compact_first_byte(v2, buf@, pos as int);
                    }
                }
            }
            return None;
        }
        let b1 = buf[pos + 1];
        let x: u32 = b0 as u32 + b1 as u32 * 0x100;
        let v = x / 4;
        if v < 64 {
            proof {
                assert forall|v2: u32|
                    !(pos + (#[trigger] compact_len(v2)).len() <= buf@.len() && buf@.subrange(
                        pos as int,
                        pos + compact_len(v2).len(),
                    ) == compact_len(v2)) by {
                        if pos + compact_len(v2).len() <= buf@.len() && buf@.subrange(
                            pos as int,
                            pos + compact_len(v2).len(),
                        ) == compact_len(v2) {
                        lemma_compact_first_byte(v2, buf@, pos as int);
                        if 64 <= v2 < 16384 && buf@.subrange(pos as int, pos + 2) == compact_len(v2) {
                            lemma_compact_two_bytes(v2, b0, b1);
                        }
                    }
                }
            }
            return None;
        }
        proof {
            lemma_two_byte_value(b0, b1);
            assert(buf@.subrange(pos as int, pos + 2) =~= seq![b0, b1]);
            assert(compact_len(v) =~= seq![b0, b1]);
            assert forall|v2: u32|
                pos + (#[trigger] compact_len(v2)).len() <= buf@.len() && buf@.subrange(
                    pos as int,
                    pos + compact_len(v2).len(),
                ) == compact_len(v2) implies Some((v, (pos + 2) as usize)) == Some(
                (v2, (pos + compact_len(v2).len()) as usize),
            ) by {
                lemma_compact_first_byte(v2, buf@, pos as int);
                lemma_compact_two_bytes(v2, b0, b1);
            }
        }
        return Some((v, pos + 2));
    }
    if mode == 2 {
        match decode_u32(buf, pos) {
            Some((x, p)) => {
                proof {
                    assert(buf@.subrange(pos as int, pos + 4)[0] == b0);
                    assert(u32_le(x)[0] == (x % 0x100) as u8);
                    assert(x % 0x100 < 0x100);
                    assert(b0 == x % 0x100);
                    lemma_mod_256_mod_4(x as int);
                    assert(x % 4 == 2);
                }
                let v = x / 4;
                if v < 16384 {
                    proof {
                        assert forall|v2: u32|
                            !(pos + (#[trigger] compact_len(v2)).len() <= buf@.len()
                                && buf@.subrange(
                                pos as int,
                                pos + compact_len(v2).len(),
                            ) == compact_len(v2)) by {
                            if pos + compact_len(v2).len() <= buf@.len() && buf@.subrange(
                                pos as int,
                                pos + compact_len(v2).len(),
                            ) == compact_len(v2) {
                                lemma_compact_first_byte(v2, buf@, pos as int);
                                if 16384 <= v2 < 0x40000000 && buf@.subrange(pos as int, pos + 4)
                                    == compact_len(v2) {
                                    lemma_compact_four_bytes(v2, buf@, pos as int, x);
                                }
                            }
                        }
                    }
                    return None;
                }
                proof {
                    lemma_four_byte_value(x);
                    assert(compact_len(v) == u32_le(x));
                    assert forall|v2: u32|
                        pos + (#[trigger] compact_len(v2)).len() <= buf@.len() && buf@.subrange(
                            pos as int,
                            pos + compact_len(v2).len(),
                        ) == compact_len(v2) implies Some((v, p)) == Some(
                        (v2, (pos + compact_len(v2).len()) as usize),
                    ) by {
                        lemma_compact_first_byte(v2, buf@, pos as int);
                        lemma_compact_four_bytes(v2, buf@, pos as int, x);
                    }
                }
                return Some((v, p));
            },
            None => {
                proof {
                    assert forall|v2: u32|
                        !(pos + (#[trigger] compact_len(v2)).len() <= buf@.len() && buf@.subrange(
                            pos as int,
                            pos + compact_len(v2).len(),
                        ) == compact_len(v2)) by {
                        if pos + compact_len(v2).len() <= buf@.len() && buf@.subrange(
                            pos as int,
                            pos + compact_len(v2).len(),
                        ) == compact_len(v2) {
                            lemma_compact_first_byte(v2, buf@, pos as int);
                        }
                    }
                }
                return None;
            },
        }
    }
    // mode == 3: a single four-byte word, tagged by the bare mode byte.
    if b0 != 3 {
        proof {
            assert forall|v2: u32|
                !(pos + (#[trigger] compact_len(v2)).len() <= buf@.len() && buf@.subrange(
                    pos as int,
                    pos + compact_len(v2).len(),
                ) == compact_len(v2)) by {
                if pos + compact_len(v2).len() <= buf@.len() && buf@.subrange(
                    pos as int,
                    pos + compact_len(v2).len(),
                ) == compact_len(v2) {
                    lemma_compact_first_byte(v2, buf@, pos as int);
                }
            }
        }
        return None;
    }
    match decode_u32(buf, pos + 1) {
        Some((v, p)) => {
            if v < 0x40000000 {
                proof {
                    assert forall|v2: u32|
                        !(pos + (#[trigger] compact_len(v2)).len() <= buf@.len() && buf@.subrange(
                            pos as int,
                            pos + compact_len(v2).len(),
                        ) == compact_len(v2)) by {
                            if pos + compact_len(v2).len() <= buf@.len() && buf@.subrange(
                                pos as int,
                                pos + compact_len(v2).len(),
                            ) == compact_len(v2) {
                            lemma_compact_first_byte(v2, buf@, pos as int);
                            if v2 >= 0x40000000 && buf@.subrange(pos as int, pos + 5) == compact_len(
                                v2,
                            ) {
                                lemma_compact_five_bytes(v2, buf@, pos as int, v);
                            }
                        }
                    }
                }
                return None;
            }
            proof {
                assert(buf@.subrange(pos as int, p as int) =~= seq![3u8] + u32_le(v));
                assert forall|v2: u32|
                    pos + (#[trigger] compact_len(v2)).len() <= buf@.len() && buf@.subrange(
                        pos as int,
                        pos + compact_len(v2).len(),
                    ) == compact_len(v2) implies Some((v, p)) == Some(
                    (v2, (pos + compact_len(v2).len()) as usize),
                ) by {
                    lemma_compact_first_byte(v2, buf@, pos as int);
                    lemma_compact_five_bytes(v2, buf@, pos as int, v);
                }
            }
            return Some((v, p));
        },
        None => {
            proof {
                assert forall|v2: u32|
                    !(pos + (#[trigger] compact_len(v2)).len() <= buf@.len() && buf@.subrange(
                        pos as int,
                        pos + compact_len(v2).len(),
                    ) == compact_len(v2)) by {
                    if pos + compact_len(v2).len() <= buf@.len() && buf@.subrange(
                        pos as int,
                        pos + compact_len(v2).len(),
                    ) == compact_len(v2) {
                        lemma_compact_first_byte(v2, buf@, pos as int);
                    }
                }
            }
            return None;
        },
    }
}

/// What the first byte of a compact form tells: its two low bits name
/// the width, and for the short widths the value itself.
proof fn lemma_compact_first_byte(v: u32, b: Seq<u8>, pos: int)
    requires
        0 <= pos,
        pos + compact_len(v).len() <= b.len(),
        b.subrange(pos, pos + compact_len(v).len()) == compact_len(v),
    ensures
        b[pos] == compact_len(v)[0],
        v < 64 ==> b[pos] % 4 == 0 && b[pos] / 4 == v && compact_len(v).len() == 1,
        64 <= v < 16384 ==> b[pos] % 4 == 1 && compact_len(v).len() == 2,
        16384 <= v < 0x40000000 ==> b[pos] % 4 == 2 && compact_len(v).len() == 4,
        v >= 0x40000000 ==> b[pos] == 3 && compact_len(v).len() == 5,
{
    assert(b[pos] == b.subrange(pos, pos + compact_len(v).len())[0]);
    if v < 64 {
        assert(compact_len(v)[0] == (v * 4) as u8);
        assert(v * 4 < 256);
        assert((v * 4) % 4 == 0 && (v * 4) / 4 == v) by {
            lemma_mul_mod_four(v as int);
        }
    } else if v < 16384 {
        let x = v * 4 + 1;
        assert(compact_len(v)[0] == (x % 0x100) as u8);
        assert(x % 0x100 % 4 == 1) by {
            lemma_mod_256_mod_4(x as int);
            lemma_mul_mod_four_plus(v as int, 1);
        }
    } else if v < 0x40000000 {
        let x = v * 4 + 2;
        assert(compact_len(v) == u32_le(x as u32));
        assert(compact_len(v)[0] == ((x as u32) % 0x100) as u8);
        assert(x as u32 == x);
        assert(x % 0x100 % 4 == 2) by {
            lemma_mod_256_mod_4(x as int);
            lemma_mul_mod_four_plus(v as int, 2);
        }
    } else {
        assert(compact_len(v)[0] == 3u8);
    }
}

/// `(4 v) % 4 == 0` and `(4 v) / 4 == v`.
proof fn lemma_mul_mod_four(v: int)
    requires
        0 <= v,
    ensures
        (v * 4) % 4 == 0,
        (v * 4) / 4 == v,
{
    vstd::arithmetic::div_mod::lemma_fundamental_div_mod_converse(v * 4, 4, v, 0);
}

/// `(4 v + r) % 4 == r` and `(4 v + r) / 4 == v` for small `r`.
proof fn lemma_mul_mod_four_plus(v: int, r: int)
    requires
        0 <= v,
        0 <= r < 4,
    ensures
        (v * 4 + r) % 4 == r,
        (v * 4 + r) / 4 == v,
{
    vstd::arithmetic::div_mod::lemma_fundamental_div_mod_converse(v * 4 + r, 4, v, r);
}

/// A remainder modulo 256 keeps its remainder modulo 4.
proof fn lemma_mod_256_mod_4(x: int)
    requires
        0 <= x,
    ensures
        x % 0x100 % 4 == x % 4,
{
    lemma_fundamental_div_mod(x, 0x100);
    let q = x / 0x100;
    let r = x % 0x100;
    assert(x == 0x100 * q + r);
    assert(x % 4 == r % 4) by {
        lemma_fundamental_div_mod(r, 4);
        vstd::arithmetic::div_mod::lemma_fundamental_div_mod_converse(
            x,
            4,
            64 * q + r / 4,
            r % 4,
        );
    }
}

/// The value a two-byte compact form carries.
proof fn lemma_two_byte_value(b0: u8, b1: u8)
    requires
        b0 % 4 == 1,
    ensures
        ({
            let x = b0 + b1 * 0x100;
            let v = x / 4;
            64 <= v ==> v < 16384 && x == v * 4 + 1 && compact_len((x / 4) as u32) =~= seq![
                b0,
                b1,
            ]
        }),
{
    let x = b0 + b1 * 0x100;
    let v = x / 4;
    assert(x % 4 == 1) by {
        lemma_mod_256_mod_4(x);
        lemma_small_mod_multiple(x, b1 as int, b0 as int);
    }
    lemma_fundamental_div_mod(x, 4);
    assert(x == 4 * v + 1);
    assert(x < 0x10000);
    assert(v < 16384);
    if 64 <= v {
        let y = v * 4 + 1;
        assert(y == x);
        assert(y % 0x100 == b0 && y / 0x100 == b1) by {
            lemma_small_mod_multiple(y, b1 as int, b0 as int);
            lemma_small_div_multiple(y, b1 as int, b0 as int);
        }
        assert((b1 as int) % 0x100 == b1 as int);
        assert(compact_len(v as u32) =~= seq![b0, b1]);
    }
}

/// A two-byte compact form in the buffer pins value and bytes alike.
proof fn lemma_compact_two_bytes(v2: u32, b0: u8, b1: u8)
    requires
        64 <= v2 < 16384,
        compact_len(v2) =~= seq![b0, b1],
    ensures
        (b0 + b1 * 0x100) / 4 == v2,
{
    let y = v2 * 4 + 1;
    assert(b0 == (y % 0x100) as u8 && b1 == ((y / 0x100) % 0x100) as u8);
    lemma_fundamental_div_mod(y as int, 0x100);
    assert(y / 0x100 < 0x100);
    assert(y / 0x100 % 0x100 == y / 0x100);
    assert(b0 + b1 * 0x100 == y);
    lemma_mul_mod_four_plus(v2 as int, 1);
}

/// A four-byte compact form in the buffer pins value and bytes alike.
proof fn lemma_compact_four_bytes(v2: u32, b: Seq<u8>, pos: int, x: u32)
    requires
        16384 <= v2 < 0x40000000,
        0 <= pos,
        pos + 4 <= b.len(),
        b.subrange(pos, pos + 4) == compact_len(v2),
        b.subrange(pos, pos + 4) == u32_le(x),
    ensures
        x / 4 == v2,
        x / 4 >= 16384,
{
    let y = (v2 * 4 + 2) as u32;
    assert(compact_len(v2) == u32_le(y));
    assert(u32_le(x) == u32_le(y));
    lemma_u32_le_from(x);
    lemma_u32_le_from(y);
    assert(u32_le(x)[0] == u32_le(y)[0]);
    assert(u32_le(x)[1] == u32_le(y)[1]);
    assert(u32_le(x)[2] == u32_le(y)[2]);
    assert(u32_le(x)[3] == u32_le(y)[3]);
    assert(x == y);
    lemma_mul_mod_four_plus(v2 as int, 2);
}

/// A five-byte compact form in the buffer pins value and bytes alike.
proof fn lemma_compact_five_bytes(v2: u32, b: Seq<u8>, pos: int, v: u32)
    requires
        v2 >= 0x40000000,
        0 <= pos,
        pos + 5 <= b.len(),
        b.subrange(pos, pos + 5) == compact_len(v2),
        b.subrange(pos + 1, pos + 5) == u32_le(v),
    ensures
        v == v2,
        v >= 0x40000000,
{
    assert(compact_len(v2) == seq![3u8] + u32_le(v2));
    assert forall|i: int| 0 <= i < 4 implies u32_le(v)[i] == u32_le(v2)[i] by {
        assert(u32_le(v)[i] == b.subrange(pos + 1, pos + 5)[i]);
        assert(b[pos + 1 + i] == b.subrange(pos, pos + 5)[i + 1]);
        assert(compact_len(v2)[i + 1] == u32_le(v2)[i]);
    }
    lemma_u32_le_from(v);
    lemma_u32_le_from(v2);
    assert(v == v2);
}

/// The value a canonical four-byte compact form denotes re-encodes to
/// the same four bytes.
proof fn lemma_four_byte_value(x: u32)
    requires
        x % 4 == 2,
        16384 <= x / 4,
    ensures
        x / 4 < 0x40000000,
        compact_len(((x / 4) as int) as u32) == u32_le(x),
{
    let v = x / 4;
    lemma_fundamental_div_mod(x as int, 4);
    assert(x == 4 * v + 2);
    assert((v * 4 + 2) as u32 == x);
}

/// Read a length-prefixed byte string.
fn decode_bytes(buf: &Vec<u8>, pos: usize) -> (r: Option<(Vec<u8>, usize)>)
    ensures
        (r matches Some(vp) ==> pos < vp.1 <= buf@.len() && vp.0@.len() <= u32::MAX
            && buf@.subrange(pos as int, vp.1 as int) == bytes_enc(vp.0@)),
        forall|s: Seq<u8>|
            s.len() <= u32::MAX && pos + (#[trigger] bytes_enc(s)).len() <= buf@.len()
                && buf@.subrange(pos as int, pos + bytes_enc(s).len()) == bytes_enc(s) ==> (
            r matches Some(vp) && vp.0@ == s && vp.1 == pos + bytes_enc(s).len()),
{
    match decode_compact(buf, pos) {
        Some((len32, p1)) => {
            let len = len32 as usize;
            if buf.len() - p1 >= len {
                let tail = vstd::slice::slice_subrange(buf.as_slice(), p1, p1 + len);
                let v = vstd::slice::slice_to_vec(tail);
                proof {
                    assert(buf@.subrange(pos as int, (p1 + len) as int) =~= bytes_enc(v@));
                    assert forall|s: Seq<u8>|
                        s.len() <= u32::MAX && pos + (#[trigger] bytes_enc(s)).len()
                            <= buf@.len() && buf@.subrange(
                            pos as int,
                            pos + bytes_enc(s).len(),
                        ) == bytes_enc(s) implies v@ == s && p1 + len == pos + bytes_enc(
                        s,
                    ).len() by {
                        lemma_bytes_enc_parts(buf@, pos as int, s);
                        assert(v@ =~= s);
                    }
                }
                Some((v, p1 + len))
            } else {
                proof {
                    assert forall|s: Seq<u8>|
                        !(s.len() <= u32::MAX && pos + (#[trigger] bytes_enc(s)).len()
                            <= buf@.len() && buf@.subrange(
                            pos as int,
                            pos + bytes_enc(s).len(),
                        ) == bytes_enc(s)) by {
                        if s.len() <= u32::MAX && pos + bytes_enc(s).len() <= buf@.len()
                            && buf@.subrange(pos as int, pos + bytes_enc(s).len()) == bytes_enc(
                            s,
                        ) {
                            lemma_bytes_enc_parts(buf@, pos as int, s);
                        }
                    }
                }
                None
            }
        },
        None => {
            proof {
                assert forall|s: Seq<u8>|
                    !(s.len() <= u32::MAX && pos + (#[trigger] bytes_enc(s)).len() <= buf@.len()
                        && buf@.subrange(pos as int, pos + bytes_enc(s).len()) == bytes_enc(
                        s,
                    )) by {
                    if s.len() <= u32::MAX && pos + bytes_enc(s).len() <= buf@.len()
                        && buf@.subrange(pos as int, pos + bytes_enc(s).len()) == bytes_enc(s) {
                        lemma_bytes_enc_parts(buf@, pos as int, s);
                    }
                }
            }
            None
        },
    }
}

/// A byte-string image in the buffer shows its length prefix and its
/// payload at their own places.
proof fn lemma_bytes_enc_parts(b: Seq<u8>, pos: int, s: Seq<u8>)
    requires
        s.len() <= u32::MAX,
        0 <= pos,
        pos + bytes_enc(s).len() <= b.len(),
        b.subrange(pos, pos + bytes_enc(s).len()) == bytes_enc(s),
    ensures
        ({
            let ln = (s.len() as u32);
            let clen = compact_len(ln).len();
            pos + clen <= b.len() && b.subrange(pos, pos + clen) == compact_len(ln)
                && b.subrange(pos + clen, pos + clen + s.len()) == s
        }),
{
    let ln = (s.len() as u32);
    let clen = compact_len(ln).len() as int;
    let total = bytes_enc(s).len() as int;
    assert forall|i: int| 0 <= i < clen implies b[pos + i] == compact_len(ln)[i] by {
        assert(b.subrange(pos, pos + total)[i] == bytes_enc(s)[i]);
    }
    assert(b.subrange(pos, pos + clen) =~= compact_len(ln));
    assert forall|i: int| 0 <= i < s.len() implies b[pos + clen + i] == s[i] by {
        assert(b.subrange(pos, pos + total)[clen + i] == bytes_enc(s)[clen + i]);
    }
    assert(b.subrange(pos + clen, pos + clen + s.len()) =~= s);
}

/// Read an optional byte string.
fn decode_opt_bytes(buf: &Vec<u8>, pos: usize) -> (r: Option<(Option<Vec<u8>>, usize)>)
    ensures
        (r matches Some(vp) ==> pos < vp.1 <= buf@.len() && (vp.0 matches Some(k) ==> k@.len()
            <= u32::MAX) && buf@.subrange(pos as int, vp.1 as int) == opt_bytes_enc(
            crate::task::opt_view(vp.0),
        )),
        forall|o2: Option<Seq<u8>>|
            (o2 matches Some(s) ==> s.len() <= u32::MAX) && pos + (
            #[trigger] opt_bytes_enc(o2)).len() <= buf@.len() && buf@.subrange(
                pos as int,
                pos + opt_bytes_enc(o2).len(),
            ) == opt_bytes_enc(o2) ==> (r matches Some(vp) && crate::task::opt_view(vp.0) == o2
                && vp.1 == pos + opt_bytes_enc(o2).len()),
{
    if pos >= buf.len() {
        return None;
    }
    let tag = buf[pos];
    if tag == 0 {
        proof {
            assert(buf@.subrange(pos as int, pos + 1) =~= opt_bytes_enc(None));
            assert forall|o2: Option<Seq<u8>>|
                (o2 matches Some(s) ==> s.len() <= u32::MAX) && pos + (
                #[trigger] opt_bytes_enc(o2)).len() <= buf@.len() && buf@.subrange(
                    pos as int,
                    pos + opt_bytes_enc(o2).len(),
                ) == opt_bytes_enc(o2) implies o2 is None by {
                if o2 is Some {
                    assert(buf@.subrange(pos as int, pos + opt_bytes_enc(o2).len())[0] == buf@[
                        pos as int
                    ]);
                }
            }
        }
        return Some((None, pos + 1));
    }
    if tag == 1 {
        match decode_bytes(buf, pos + 1) {
            Some((v, p)) => {
                proof {
                    assert(buf@.subrange(pos as int, p as int) =~= seq![1u8] + bytes_enc(v@));
                    assert forall|o2: Option<Seq<u8>>|
                        (o2 matches Some(s) ==> s.len() <= u32::MAX) && pos + (
                        #[trigger] opt_bytes_enc(o2)).len() <= buf@.len() && buf@.subrange(
                            pos as int,
                            pos + opt_bytes_enc(o2).len(),
                        ) == opt_bytes_enc(o2) implies (o2 matches Some(s) && v@ == s && p == pos
                        + opt_bytes_enc(o2).len()) by {
                        if o2 is None {
                            assert(buf@.subrange(pos as int, pos + 1)[0] == buf@[pos as int]);
                            assert(false);
                        }
                        let s = o2->0;
                        lemma_opt_bytes_tail(buf@, pos as int, s);
                    }
                }
                Some((Some(v), p))
            },
            None => {
                proof {
                    assert forall|o2: Option<Seq<u8>>|
                        !((o2 matches Some(s) ==> s.len() <= u32::MAX) && pos + (
                        #[trigger] opt_bytes_enc(o2)).len() <= buf@.len() && buf@.subrange(
                            pos as int,
                            pos + opt_bytes_enc(o2).len(),
                        ) == opt_bytes_enc(o2)) by {
                        if (o2 matches Some(s) ==> s.len() <= u32::MAX) && pos + opt_bytes_enc(
                            o2,
                        ).len() <= buf@.len() && buf@.subrange(
                            pos as int,
                            pos + opt_bytes_enc(o2).len(),
                        ) == opt_bytes_enc(o2) {
                            if o2 is None {
                                assert(buf@.subrange(pos as int, pos + 1)[0] == buf@[pos as int]);
                            } else {
                                lemma_opt_bytes_tail(buf@, pos as int, o2->0);
                            }
                        }
                    }
                }
                None
            },
        }
    } else {
        proof {
            assert forall|o2: Option<Seq<u8>>|
                !((o2 matches Some(s) ==> s.len() <= u32::MAX) && pos + (
                #[trigger] opt_bytes_enc(o2)).len() <= buf@.len() && buf@.subrange(
                    pos as int,
                    pos + opt_bytes_enc(o2).len(),
                ) == opt_bytes_enc(o2)) by {
                if (o2 matches Some(s) ==> s.len() <= u32::MAX) && pos + opt_bytes_enc(o2).len()
                    <= buf@.len() && buf@.subrange(
                    pos as int,
                    pos + opt_bytes_enc(o2).len(),
                ) == opt_bytes_enc(o2) {
                    assert(buf@.subrange(pos as int, pos + opt_bytes_enc(o2).len())[0] == buf@[
                        pos as int
                    ]);
                }
            }
        }
        None
    }
}

/// Behind a present tag the byte string stands at its own place.
proof fn lemma_opt_bytes_tail(b: Seq<u8>, pos: int, s: Seq<u8>)
    requires
        s.len() <= u32::MAX,
        0 <= pos,
        pos + opt_bytes_enc(Some(s)).len() <= b.len(),
        b.subrange(pos, pos + opt_bytes_enc(Some(s)).len()) == opt_bytes_enc(Some(s)),
    ensures
        pos + 1 + bytes_enc(s).len() <= b.len(),
        b.subrange(pos + 1, pos + 1 + bytes_enc(s).len()) == bytes_enc(s),
        b[pos] == 1,
{
    let total = opt_bytes_enc(Some(s)).len() as int;
    assert(b[pos] == b.subrange(pos, pos + total)[0]);
    assert forall|i: int| 0 <= i < bytes_enc(s).len() implies b[pos + 1 + i] == bytes_enc(s)[i]
        by {
        assert(b.subrange(pos, pos + total)[1 + i] == opt_bytes_enc(Some(s))[1 + i]);
    }
    assert(b.subrange(pos + 1, pos + 1 + bytes_enc(s).len()) =~= bytes_enc(s));
}

/// Read a boolean.  Only the two canonical bytes are accepted.
fn decode_bool(buf: &Vec<u8>, pos: usize) -> (r: Option<(bool, usize)>)
    ensures
        (r matches Some(vp) ==> vp.1 == pos + 1 && pos + 1 <= buf@.len() && buf@.subrange(
            pos as int,
            pos + 1,
        ) == bool_enc(vp.0)),
        forall|b2: bool|
            pos + 1 <= buf@.len() && buf@.subrange(pos as int, pos + 1) == (
            #[trigger] bool_enc(b2)) ==> r == Some((b2, (pos + 1) as usize)),
{
    if pos >= buf.len() {
        return None;
    }
    let tag = buf[pos];
    proof {
        assert(buf@.subrange(pos as int, pos + 1) =~= seq![buf@[pos as int]]);
        assert forall|b2: bool|
            pos + 1 <= buf@.len() && buf@.subrange(pos as int, pos + 1) == (
            #[trigger] bool_enc(b2)) implies buf@[pos as int] == (if b2 {
            1u8
        } else {
            0u8
        }) by {
            assert(bool_enc(b2)[0] == buf@.subrange(pos as int, pos + 1)[0]);
        }
    }
    if tag == 0 {
        Some((false, pos + 1))
    } else if tag == 1 {
        Some((true, pos + 1))
    } else {
        None
    }
}

/// Two words with the same little-endian bytes are the same word.
proof fn lemma_u32_le_inj(a: u32, b: u32)
    requires
        u32_le(a) == u32_le(b),
    ensures
        a == b,
{
    lemma_u32_le_from(a);
    lemma_u32_le_from(b);
}

/// Where each component of a cursor image stands in the buffer.
proof fn lemma_task_enc_split(b: Seq<u8>, t2: TaskModel)
    requires
        task_encodable(t2),
        b == task_enc(t2),
    ensures
        ({
            let e1 = opt_bytes_enc(t2.current_top);
            let e2 = opt_bytes_enc(t2.current_child);
            let l1 = e1.len() as int;
            let l2 = e2.len() as int;
            b.len() == l1 + l2 + 13 && b.subrange(0, l1) == e1 && b.subrange(l1, l1 + l2) == e2
                && b.subrange(l1 + l2, l1 + l2 + 1) == bool_enc(t2.prev_tick_child)
                && b.subrange(l1 + l2 + 1, l1 + l2 + 5) == u32_le(t2.size) && b.subrange(
                l1 + l2 + 5,
                l1 + l2 + 9,
            ) == u32_le(t2.top_items) && b.subrange(l1 + l2 + 9, l1 + l2 + 13) == u32_le(
                t2.child_items,
            )
        }),
{
    let e1 = opt_bytes_enc(t2.current_top);
    let e2 = opt_bytes_enc(t2.current_child);
    let l1 = e1.len() as int;
    let l2 = e2.len() as int;
    assert(b.subrange(0, l1) =~= e1);
    assert(b.subrange(l1, l1 + l2) =~= e2);
    assert(b.subrange(l1 + l2, l1 + l2 + 1) =~= bool_enc(t2.prev_tick_child));
    assert(b.subrange(l1 + l2 + 1, l1 + l2 + 5) =~= u32_le(t2.size));
    assert(b.subrange(l1 + l2 + 5, l1 + l2 + 9) =~= u32_le(t2.top_items));
    assert(b.subrange(l1 + l2 + 9, l1 + l2 + 13) =~= u32_le(t2.child_items));
}

/// Decode the persisted fields of a cursor; the whole input must be
/// consumed.  Exactly the canonical images of cursors are accepted, and
/// the per-run counters of the result are zero.
#[verifier::rlimit(100)]
pub fn decode_task(buf: &Vec<u8>) -> (r: Option<MigrationTask>)
    ensures
        (r matches Some(t) ==> task_encodable(t@) && t@.dyn_top_items == 0 && t@.dyn_child_items
            == 0 && t@.dyn_size == 0 && buf@ == task_enc(t@)),
        forall|t2: TaskModel|
            task_encodable(t2) && t2.dyn_top_items == 0 && t2.dyn_child_items == 0 && t2.dyn_size
                == 0 && buf@ == (#[trigger] task_enc(t2)) ==> (r matches Some(t) && t@ == t2),
{
    let ghost witnessed: bool = exists|t2: TaskModel|
        task_encodable(t2) && t2.dyn_top_items == 0 && t2.dyn_child_items == 0 && t2.dyn_size
            == 0 && buf@ == #[trigger] task_enc(t2);
    let ghost tw: TaskModel = if witnessed {
        choose|t2: TaskModel|
            task_encodable(t2) && t2.dyn_top_items == 0 && t2.dyn_child_items == 0 && t2.dyn_size
                == 0 && buf@ == #[trigger] task_enc(t2)
    } else {
        TaskModel::init()
    };
    proof {
        if witnessed {
            lemma_task_enc_split(buf@, tw);
        }
    }
    let n = buf.len();
    let (current_top, p1) = match decode_opt_bytes(buf, 0) {
        Some(vp) => vp,
        None => {
            proof {
                assert(!witnessed);
            }
            return None;
        },
    };
    proof {
        if witnessed {
            assert(crate::task::opt_view(current_top) == tw.current_top && p1
                == opt_bytes_enc(tw.current_top).len());
        }
    }
    let (current_child, p2) = match decode_opt_bytes(buf, p1) {
        Some(vp) => vp,
        None => {
            proof {
                assert(!witnessed);
            }
            return None;
        },
    };
    proof {
        if witnessed {
            assert(crate::task::opt_view(current_child) == tw.current_child && p2 == p1
                + opt_bytes_enc(tw.current_child).len());
        }
    }
    let (prev_tick_child, p3) = match decode_bool(buf, p2) {
        Some(vp) => vp,
        None => {
            proof {
                assert(!witnessed);
            }
            return None;
        },
    };
    let (size, p4) = match decode_u32(buf, p3) {
        Some(vp) => vp,
        None => {
            proof {
                assert(!witnessed);
            }
            return None;
        },
    };
    let (top_items, p5) = match decode_u32(buf, p4) {
        Some(vp) => vp,
        None => {
            proof {
                assert(!witnessed);
            }
            return None;
        },
    };
    let (child_items, p6) = match decode_u32(buf, p5) {
        Some(vp) => vp,
        None => {
            proof {
                assert(!witnessed);
            }
            return None;
        },
    };
    if p6 != n {
        proof {
            if witnessed {
                lemma_u32_le_inj(size, tw.size);
                assert(false);
            }
        }
        return None;
    }
    let t = MigrationTask {
        current_top,
        current_child,
        prev_tick_child,
        dyn_top_items: 0,
        dyn_child_items: 0,
        dyn_size: 0,
        size,
        top_items,
        child_items,
    };
    proof {
        assert(buf@.subrange(0, p2 as int) =~= buf@.subrange(0, p1 as int) + buf@.subrange(
            p1 as int,
            p2 as int,
        ));
        assert(buf@.subrange(0, p3 as int) =~= buf@.subrange(0, p2 as int) + buf@.subrange(
            p2 as int,
            p3 as int,
        ));
        assert(buf@.subrange(0, p4 as int) =~= buf@.subrange(0, p3 as int) + buf@.subrange(
            p3 as int,
            p4 as int,
        ));
        assert(buf@.subrange(0, p5 as int) =~= buf@.subrange(0, p4 as int) + buf@.subrange(
            p4 as int,
            p5 as int,
        ));
        assert(buf@.subrange(0, p6 as int) =~= buf@.subrange(0, p5 as int) + buf@.subrange(
            p5 as int,
            p6 as int,
        ));
        assert(buf@.subrange(0, n as int) =~= buf@);
        assert(buf@ == task_enc(t@));
        if witnessed {
            lemma_u32_le_inj(size, tw.size);
            lemma_u32_le_inj(top_items, tw.top_items);
            lemma_u32_le_inj(child_items, tw.child_items);
            assert(t@ =~= tw);
        }
        assert forall|t2: TaskModel|
            task_encodable(t2) && t2.dyn_top_items == 0 && t2.dyn_child_items == 0 && t2.dyn_size
                == 0 && buf@ == (#[trigger] task_enc(t2)) implies t@ == t2 by {
            assert(witnessed);
            lemma_task_enc_inj(t2, tw, buf@);
        }
    }
    Some(t)
}

/// Two cursors with the same image have the same persisted fields.
#[verifier::rlimit(100)]
proof fn lemma_task_enc_inj(a: TaskModel, b: TaskModel, buf: Seq<u8>)
    requires
        task_encodable(a),
        task_encodable(b),
        a.dyn_top_items == 0 && a.dyn_child_items == 0 && a.dyn_size == 0,
        b.dyn_top_items == 0 && b.dyn_child_items == 0 && b.dyn_size == 0,
        buf == task_enc(a),
        buf == task_enc(b),
    ensures
        a == b,
{
    lemma_task_enc_split(buf, a);
    lemma_task_enc_split(buf, b);
    lemma_opt_bytes_enc_inj(buf, a.current_top, b.current_top);
    let l1 = opt_bytes_enc(a.current_top).len() as int;
    let l2a = opt_bytes_enc(a.current_child).len() as int;
    let l2b = opt_bytes_enc(b.current_child).len() as int;
    let tail = buf.subrange(l1, buf.len() as int);
    assert(tail.subrange(0, l2a) =~= buf.subrange(l1, l1 + l2a));
    assert(tail.subrange(0, l2b) =~= buf.subrange(l1, l1 + l2b));
    lemma_opt_bytes_enc_inj(tail, a.current_child, b.current_child);
    let l2 = l2a;
    assert(bool_enc(a.prev_tick_child) == bool_enc(b.prev_tick_child));
    assert(bool_enc(a.prev_tick_child)[0] == bool_enc(b.prev_tick_child)[0]);
    assert(a.prev_tick_child == b.prev_tick_child);
    lemma_u32_le_inj(a.size, b.size);
    lemma_u32_le_inj(a.top_items, b.top_items);
    lemma_u32_le_inj(a.child_items, b.child_items);
    assert(a =~= b);
}

/// Two optional byte strings with images heading the same buffer are
/// the same string, with images of the same length.
proof fn lemma_opt_bytes_enc_inj(buf: Seq<u8>, a: Option<Seq<u8>>, b: Option<Seq<u8>>)
    requires
        (a matches Some(s) ==> s.len() <= u32::MAX),
        (b matches Some(s) ==> s.len() <= u32::MAX),
        opt_bytes_enc(a).len() <= buf.len(),
        opt_bytes_enc(b).len() <= buf.len(),
        buf.subrange(0, opt_bytes_enc(a).len() as int) == opt_bytes_enc(a),
        buf.subrange(0, opt_bytes_enc(b).len() as int) == opt_bytes_enc(b),
    ensures
        a == b,
{
    assert(opt_bytes_enc(a)[0] == buf[0]);
    assert(opt_bytes_enc(b)[0] == buf[0]);
    match (a, b) {
        (Some(sa), Some(sb)) => {
            let la = opt_bytes_enc(a).len() as int;
            let lb = opt_bytes_enc(b).len() as int;
            lemma_opt_bytes_tail(buf, 0, sa);
            lemma_opt_bytes_tail(buf, 0, sb);
            lemma_bytes_enc_parts(buf, 1, sa);
            lemma_bytes_enc_parts(buf, 1, sb);
            let ca = compact_len(sa.len() as u32).len() as int;
            let cb = compact_len(sb.len() as u32).len() as int;
            assert(buf.skip(1).subrange(0, ca) =~= buf.subrange(1, 1 + ca));
            assert(buf.skip(1).subrange(0, cb) =~= buf.subrange(1, 1 + cb));
            lemma_compact_prefix_inj(buf.skip(1), sa.len() as u32, sb.len() as u32);
            assert(sa.len() == sb.len());
            assert forall|i: int| 0 <= i < sa.len() implies sa[i] == sb[i] by {
                assert(buf.subrange(1 + ca, 1 + ca + sa.len() as int)[i] == sa[i]);
                assert(buf.subrange(1 + cb, 1 + cb + sb.len() as int)[i] == sb[i]);
            }
            assert(sa =~= sb);
        },
        (None, None) => {},
        _ => {
            assert(false);
        },
    }
}

/// Two compact forms heading the same buffer carry the same value.
proof fn lemma_compact_prefix_inj(buf: Seq<u8>, a: u32, b: u32)
    requires
        compact_len(a).len() <= buf.len(),
        compact_len(b).len() <= buf.len(),
        buf.subrange(0, compact_len(a).len() as int) == compact_len(a),
        buf.subrange(0, compact_len(b).len() as int) == compact_len(b),
    ensures
        a == b,
{
    lemma_compact_first_byte(a, buf, 0);
    lemma_compact_first_byte(b, buf, 0);
    if a < 64 && b < 64 {
    } else if 64 <= a < 16384 && 64 <= b < 16384 {
        assert(buf.subrange(0, 2) == compact_len(a));
        assert(buf.subrange(0, 2) == compact_len(b));
        assert(compact_len(a) =~= seq![buf[0], buf[1]]);
        assert(compact_len(b) =~= seq![buf[0], buf[1]]);
        lemma_compact_two_bytes(a, buf[0], buf[1]);
        lemma_compact_two_bytes(b, buf[0], buf[1]);
    } else if 16384 <= a < 0x40000000 && 16384 <= b < 0x40000000 {
        let x = (a * 4 + 2) as u32;
        assert(buf.subrange(0, 4) == u32_le(x));
        lemma_compact_four_bytes(a, buf, 0, x);
        lemma_compact_four_bytes(b, buf, 0, x);
    } else if a >= 0x40000000 && b >= 0x40000000 {
        assert(buf.subrange(1, 5) =~= u32_le(a)) by {
            assert forall|i: int| 0 <= i < 4 implies buf[1 + i] == u32_le(a)[i] by {
                assert(buf.subrange(0, 5)[1 + i] == compact_len(a)[1 + i]);
            }
        }
        lemma_compact_five_bytes(b, buf, 0, a);
    }
}

/// Decode the scheduler switch; the whole input must be consumed.
/// Exactly the canonical images are accepted.
pub fn decode_auto_limits(buf: &Vec<u8>) -> (r: Option<Option<MigrationLimits>>)
    ensures
        (r matches Some(o) ==> buf@ == opt_limits_enc(o)),
        forall|o2: Option<MigrationLimits>|
            buf@ == (#[trigger] opt_limits_enc(o2)) ==> r == Some(o2),
{
    let n = buf.len();
    if n == 0 {
        return None;
    }
    let tag = buf[0];
    if tag == 0 {
        if n != 1 {
            return None;
        }
        proof {
            assert(buf@ =~= opt_limits_enc(None));
        }
        return Some(None);
    }
    if tag != 1 {
        return None;
    }
    let (size, p1) = match decode_u32(buf, 1) {
        Some(vp) => vp,
        None => {
            proof {
                assert forall|o2: Option<MigrationLimits>|
                    buf@ != (#[trigger] opt_limits_enc(o2)) by {
                    if buf@ == opt_limits_enc(o2) {
                        lemma_opt_limits_split(buf@, o2);
                    }
                }
            }
            return None;
        },
    };
    let (item, p2) = match decode_u32(buf, p1) {
        Some(vp) => vp,
        None => {
            proof {
                assert forall|o2: Option<MigrationLimits>|
                    buf@ != (#[trigger] opt_limits_enc(o2)) by {
                    if buf@ == opt_limits_enc(o2) {
                        lemma_opt_limits_split(buf@, o2);
                    }
                }
            }
            return None;
        },
    };
    if p2 != n {
        proof {
            assert forall|o2: Option<MigrationLimits>|
                buf@ != (#[trigger] opt_limits_enc(o2)) by {
                if buf@ == opt_limits_enc(o2) {
                    lemma_opt_limits_split(buf@, o2);
                }
            }
        }
        return None;
    }
    let l = MigrationLimits { size, item };
    proof {
        assert(buf@ =~= opt_limits_enc(Some(l)));
        assert forall|o2: Option<MigrationLimits>|
            buf@ == (#[trigger] opt_limits_enc(o2)) implies Some(Some(l)) == Some(o2) by {
            lemma_opt_limits_split(buf@, o2);
            let l2 = o2->0;
            lemma_u32_le_inj(size, l2.size);
            lemma_u32_le_inj(item, l2.item);
        }
    }
    Some(Some(l))
}

/// Where the two words of a present switch image stand.
proof fn lemma_opt_limits_split(b: Seq<u8>, o: Option<MigrationLimits>)
    requires
        b == opt_limits_enc(o),
        b[0] == 1,
    ensures
        o is Some,
        b.len() == 9,
        b.subrange(1, 5) == u32_le(o->0.size),
        b.subrange(5, 9) == u32_le(o->0.item),
{
    match o {
        None => {
            assert(false);
        },
        Some(l) => {
            assert(b.subrange(1, 5) =~= u32_le(l.size));
            assert(b.subrange(5, 9) =~= u32_le(l.item));
        },
    }
}

} // verus!
