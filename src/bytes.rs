//! Little-endian integers, compact sizes and presence flags: the primitive
//! layer of the tree encodings.
use vstd::prelude::*;

verus! {

/// The largest element count that a compact size may carry.
pub const MAX_COMPACT_SIZE: u64 = 0x0200_0000;

/// `256` raised to the `k`.
pub open spec fn pow256(k: nat) -> nat
    decreases k,
{
    if k == 0 {
        1
    } else {
        256 * pow256((k - 1) as nat)
    }
}

/// The value of a little-endian byte string.
pub open spec fn le_value(s: Seq<u8>) -> nat
    decreases s.len(),
{
    if s.len() == 0 {
        0
    } else {
        s[0] as nat + 256 * le_value(s.drop_first())
    }
}

/// The `k` low bytes of `v`, least significant first.
pub open spec fn le_bytes(v: nat, k: nat) -> Seq<u8>
    decreases k,
{
    if k == 0 {
        Seq::empty()
    } else {
        seq![(v % 256) as u8] + le_bytes(v / 256, (k - 1) as nat)
    }
}

/// The little-endian integer of `k` bytes at offset `p` of `s`, with the
/// offset just past it.
pub open spec fn parse_le(s: Seq<u8>, p: int, k: nat) -> Option<(nat, int)> {
    if 0 <= p && p + k <= s.len() {
        Some((le_value(s.subrange(p, p + k)), p + k))
    } else {
        None
    }
}

/// The powers of 256 that two-, four- and eight-byte integers reach.
pub proof fn lemma_pow256_facts()
    ensures
        pow256(2) == 0x1_0000,
        pow256(4) == 0x1_0000_0000,
        pow256(8) == 0x1_0000_0000_0000_0000,
{
    reveal_with_fuel(pow256, 9);
}

/// Reading back the `k` low bytes of a value below `256^k` gives the value.
pub proof fn lemma_le_round_trip(v: nat, k: nat)
    requires
        v < pow256(k),
    ensures
        le_bytes(v, k).len() == k,
        le_value(le_bytes(v, k)) == v,
    decreases k,
{
    if k > 0 {
        let k1 = (k - 1) as nat;
        assert(v / 256 < pow256(k1)) by (nonlinear_arith)
            requires
                v < 256 * pow256(k1),
        ;
        lemma_le_round_trip(v / 256, k1);
        let s = le_bytes(v, k);
        assert(s.drop_first() =~= le_bytes(v / 256, k1));
        assert(v == v % 256 + 256 * (v / 256)) by (nonlinear_arith);
    }
}

/// A little-endian value is below `256` to the length of its bytes.
pub proof fn lemma_le_value_bound(s: Seq<u8>)
    ensures
        le_value(s) < pow256(s.len()),
    decreases s.len(),
{
    if s.len() > 0 {
        lemma_le_value_bound(s.drop_first());
        let a = le_value(s.drop_first());
        let b = pow256((s.len() - 1) as nat);
        assert(s[0] as nat + 256 * a < 256 * b) by (nonlinear_arith)
            requires
                a < b,
                s[0] < 256,
        ;
    }
}

proof fn lemma_le_value_step(s: Seq<u8>, j: int, e: int)
    requires
        0 <= j < e <= s.len(),
    ensures
        le_value(s.subrange(j, e)) == s[j] as nat + 256 * le_value(s.subrange(j + 1, e)),
{
    assert(s.subrange(j, e).drop_first() =~= s.subrange(j + 1, e));
}

/// Reads the little-endian `u64` at offset `pos`.
pub fn read_u64_le(buf: &[u8], pos: usize) -> (r: Option<(u64, usize)>)
    ensures
        match parse_le(buf@, pos as int, 8) {
            Some((v, np)) => r matches Some((x, q)) && x as nat == v && q as int == np,
            None => r is None,
        },
{
    if pos > buf.len() || buf.len() - pos < 8 {
        return None;
    }
    let ghost s = buf@;
    proof {
        lemma_pow256_facts();
        lemma_le_value_bound(s.subrange(pos as int, pos + 8));
    }
    let n = buf.len();
    let mut acc: u64 = 0;
    let mut i: usize = 8;
    while i > 0
        invariant
            pos + 8 <= s.len(),
            s == buf@,
            n == s.len(),
            i <= 8,
            acc as nat == le_value(s.subrange(pos + i, pos + 8)),
            acc < pow256((8 - i) as nat),
        decreases i,
    {
        proof {
            lemma_le_value_step(s, pos + i - 1, pos + 8);
            let k = (8 - i) as nat;
            assert(pow256((k + 1) as nat) == 256 * pow256(k));
            lemma_pow256_facts();
            assert(pow256(k) <= pow256(7)) by {
                reveal_with_fuel(pow256, 9);
            }
            assert(acc * 256 + buf@[pos + i - 1] < 256 * pow256(k)) by (nonlinear_arith)
                requires
                    acc < pow256(k),
                    buf@[pos + i - 1] < 256,
            ;
        }
        acc = acc * 256 + buf[pos + (i - 1)] as u64;
        i = i - 1;
    }
    Some((acc, pos + 8))
}

/// Appends `v` as eight little-endian bytes.
pub fn write_u64_le(out: &mut Vec<u8>, v: u64)
    ensures
        final(out)@ == old(out)@ + le_bytes(v as nat, 8),
{
    let mut cur: u64 = v;
    let mut i: usize = 0;
    while i < 8
        invariant
            i <= 8,
            out@ + le_bytes(cur as nat, (8 - i) as nat) == old(out)@ + le_bytes(v as nat, 8),
        decreases 8 - i,
    {
        let ghost before = out@;
        out.push((cur % 256) as u8);
        proof {
            let k = (8 - i) as nat;
            assert(le_bytes(cur as nat, k) == seq![(cur % 256) as u8] + le_bytes(
                (cur / 256) as nat,
                (k - 1) as nat,
            ));
            assert(out@ + le_bytes((cur / 256) as nat, (k - 1) as nat) =~= before + le_bytes(
                cur as nat,
                k,
            ));
        }
        cur = cur / 256;
        i = i + 1;
    }
    assert(le_bytes(cur as nat, 0) =~= Seq::<u8>::empty());
    assert(out@ =~= out@ + le_bytes(cur as nat, 0));
}

/// The bytes of the compact size `n`: one byte below 253, else a marker
/// byte and two, four or eight little-endian bytes.
pub open spec fn compact_size_bytes(n: nat) -> Seq<u8> {
    if n < 253 {
        seq![n as u8]
    } else if n <= 0xffff {
        seq![253u8] + le_bytes(n, 2)
    } else if n <= 0xffff_ffff {
        seq![254u8] + le_bytes(n, 4)
    } else {
        seq![255u8] + le_bytes(n, 8)
    }
}

/// The compact size at offset `p` of `s`, with the offset just past it; none
/// where the bytes end early, the value is not written in its shortest form,
/// or it exceeds [`MAX_COMPACT_SIZE`].
pub open spec fn parse_compact_size(s: Seq<u8>, p: int) -> Option<(u64, int)> {
    if p < 0 || p >= s.len() {
        None
    } else {
        let flag = s[p];
        let body: Option<(nat, int)> = if flag < 253 {
            Some((flag as nat, p + 1))
        } else if flag == 253 {
            match parse_le(s, p + 1, 2) {
                Some((n, q)) => if n < 253 { None } else { Some((n, q)) },
                None => None,
            }
        } else if flag == 254 {
            match parse_le(s, p + 1, 4) {
                Some((n, q)) => if n < 0x1_0000 { None } else { Some((n, q)) },
                None => None,
            }
        } else {
            match parse_le(s, p + 1, 8) {
                Some((n, q)) => if n < 0x1_0000_0000 { None } else { Some((n, q)) },
                None => None,
            }
        };
        match body {
            Some((n, q)) => if n > MAX_COMPACT_SIZE { None } else { Some((n as u64, q)) },
            None => None,
        }
    }
}

/// Relies on zcash_encoding's CompactSize::write: the marker-and-width form
/// of `compact_size_bytes`, appended to the vector.
#[verifier::external_body]
pub(crate) fn write_compact_size(out: &mut Vec<u8>, n: usize)
    ensures
        final(out)@ == old(out)@ + compact_size_bytes(n as nat),
{
    let _ = zcash_encoding::CompactSize::write(out, n);
}

/// Relies on zcash_encoding's CompactSize::read: what it accepts and returns,
/// with the number of bytes left unread after it.
#[verifier::external_body]
fn compact_size_read(rest: &[u8]) -> (r: Option<(u64, usize)>)
    ensures
        match parse_compact_size(rest@, 0) {
            Some((n, q)) => r matches Some((m, left)) && m == n && left as int == rest@.len() - q,
            None => r is None,
        },
{
    let mut reader = rest;
    match zcash_encoding::CompactSize::read(&mut reader) {
        Ok(n) => Some((n, reader.len())),
        Err(_) => None,
    }
}

proof fn lemma_parse_compact_size_shift(s: Seq<u8>, p: int)
    requires
        0 <= p <= s.len(),
    ensures
        parse_compact_size(s, p) == (match parse_compact_size(s.subrange(p, s.len() as int), 0) {
            Some((n, q)) => Some((n, q + p)),
            None => None,
        }),
{
    let t = s.subrange(p, s.len() as int);
    assert forall|k: nat, q: int| 0 <= q implies #[trigger] parse_le(t, q, k) == (match parse_le(
        s,
        p + q,
        k,
    ) {
        Some((v, e)) => Some((v, e - p)),
        None => None,
    }) by {
        if q + k <= t.len() {
            assert(t.subrange(q, q + k) =~= s.subrange(p + q, p + q + k));
        }
    }
    if p < s.len() {
        assert(t[0] == s[p]);
    }
}

/// Reads the compact size at offset `pos`, with the offset just past it.
pub fn read_compact_size(buf: &[u8], pos: usize) -> (r: Option<(u64, usize)>)
    ensures
        match parse_compact_size(buf@, pos as int) {
            Some((n, q)) => r matches Some((m, q2)) && m == n && q2 as int == q,
            None => r is None,
        },
{
    if pos >= buf.len() {
        return None;
    }
    let (_, rest) = buf.split_at(pos);
    proof {
        lemma_parse_compact_size_shift(buf@, pos as int);
    }
    match compact_size_read(rest) {
        Some((n, left)) => Some((n, buf.len() - left)),
        None => None,
    }
}

/// A compact size written out reads back as the same value.
pub proof fn lemma_compact_size_round_trip(s: Seq<u8>, p: int, n: nat)
    requires
        n <= MAX_COMPACT_SIZE,
        0 <= p,
        p + compact_size_bytes(n).len() <= s.len(),
        s.subrange(p, p + compact_size_bytes(n).len()) == compact_size_bytes(n),
    ensures
        parse_compact_size(s, p) == Some((n as u64, p + compact_size_bytes(n).len())),
{
    lemma_pow256_facts();
    let b = compact_size_bytes(n);
    assert(s[p] == b[0]);
    if n >= 253 {
        let k: nat = if n <= 0xffff { 2 } else { 4 };
        lemma_le_round_trip(n, k);
        assert(s.subrange(p + 1, p + 1 + k) =~= b.subrange(1, 1 + k as int));
        assert(b.subrange(1, 1 + k as int) =~= le_bytes(n, k));
    }
}

} // verus!
