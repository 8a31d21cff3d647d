//! The version 1 frontier encoding: node values, positions, presence flags,
//! and the parity rule for a right-hand leaf.
use vstd::prelude::*;
use crate::bytes::{
    compact_size_bytes, le_bytes, lemma_compact_size_round_trip, lemma_le_round_trip,
    lemma_pow256_facts, parse_compact_size, parse_le, read_compact_size, read_u64_le,
    write_compact_size, write_u64_le,
};
use crate::tree::{
    hash_valid, ones, DecodeError, FrontierModel, NonEmptyFrontier, OrchardHash,
    frontier_valid,
};

verus! {

/// Result of reading a value at an offset: the value and the offset past it.
pub type Parsed<T> = Result<(T, int), DecodeError>;

/// The 64-bit position at offset `p`, refused where it does not fit a
/// `usize` here.
pub open spec fn parse_position(s: Seq<u8>, p: int) -> Parsed<u64> {
    match parse_le(s, p, 8) {
        Some((v, q)) => if v > usize::MAX {
            Err(DecodeError::OutOfRange(v as u64))
        } else {
            Ok((v as u64, q))
        },
        None => Err(DecodeError::UnexpectedEnd),
    }
}

/// The node value at offset `p`.
pub open spec fn parse_hash(s: Seq<u8>, p: int) -> Parsed<Seq<u8>> {
    if 0 <= p && p + 32 <= s.len() {
        let b = s.subrange(p, p + 32);
        if hash_valid(b) {
            Ok((b, p + 32))
        } else {
            Err(DecodeError::NonCanonicalHash)
        }
    } else {
        Err(DecodeError::UnexpectedEnd)
    }
}

/// The presence flag at offset `p`.
pub open spec fn parse_flag(s: Seq<u8>, p: int) -> Parsed<bool> {
    if 0 <= p < s.len() {
        if s[p] == 0 {
            Ok((false, p + 1))
        } else if s[p] == 1 {
            Ok((true, p + 1))
        } else {
            Err(DecodeError::InvalidOptionFlag(s[p]))
        }
    } else {
        Err(DecodeError::UnexpectedEnd)
    }
}

/// `n` node values in a row from offset `p`.
pub open spec fn parse_hashes(s: Seq<u8>, p: int, n: nat) -> Parsed<Seq<Seq<u8>>>
    decreases n,
{
    if n == 0 {
        Ok((Seq::empty(), p))
    } else {
        match parse_hashes(s, p, (n - 1) as nat) {
            Ok((hs, q)) => match parse_hash(s, q) {
                Ok((h, r)) => Ok((hs.push(h), r)),
                Err(e) => Err(e),
            },
            Err(e) => Err(e),
        }
    }
}

/// A length-prefixed sequence of node values from offset `p`.
pub open spec fn parse_hash_vec(s: Seq<u8>, p: int) -> Parsed<Seq<Seq<u8>>> {
    match parse_compact_size(s, p) {
        Some((n, q)) => parse_hashes(s, q, n as nat),
        None => Err(DecodeError::InvalidCompactSize),
    }
}

/// A version 1 frontier from offset `p`: its position, the first node, an
/// optional second node, and the remaining ommers. Where the second node is
/// present it is the leaf and the first node becomes the lowest ommer.
pub open spec fn parse_frontier(s: Seq<u8>, p: int) -> Parsed<FrontierModel> {
    match parse_position(s, p) {
        Err(e) => Err(e),
        Ok((position, p1)) => match parse_hash(s, p1) {
            Err(e) => Err(e),
            Ok((left, p2)) => match parse_flag(s, p2) {
                Err(e) => Err(e),
                Ok((has_right, p3)) => match (if has_right {
                    parse_hash(s, p3)
                } else {
                    Ok((left, p3))
                }) {
                    Err(e) => Err(e),
                    Ok((right, p4)) => match parse_hash_vec(s, p4) {
                        Err(e) => Err(e),
                        Ok((rest, p5)) => {
                            let leaf = if has_right { right } else { left };
                            let ommers = if has_right { seq![left] + rest } else { rest };
                            if ommers.len() == ones(position as nat) {
                                Ok((FrontierModel { position, leaf, ommers }, p5))
                            } else {
                                Err(DecodeError::MalformedFrontier(position))
                            }
                        },
                    },
                },
            },
        },
    }
}

/// Node values written one after another.
pub open spec fn enc_hashes(hs: Seq<Seq<u8>>) -> Seq<u8>
    decreases hs.len(),
{
    if hs.len() == 0 {
        Seq::empty()
    } else {
        enc_hashes(hs.drop_last()) + hs.last()
    }
}

/// Node values behind their count.
pub open spec fn enc_hash_vec(hs: Seq<Seq<u8>>) -> Seq<u8> {
    compact_size_bytes(hs.len()) + enc_hashes(hs)
}

/// The version 1 encoding of a frontier. For an odd position the leaf is a
/// right child: its sibling (the lowest ommer) comes first, then the leaf
/// behind a presence flag; for an even one the leaf comes first and the flag
/// says that no second node follows.
pub open spec fn enc_frontier(f: FrontierModel) -> Seq<u8> {
    le_bytes(f.position as nat, 8) + if f.position % 2 == 1 {
        f.ommers[0] + seq![1u8] + f.leaf + enc_hash_vec(f.ommers.drop_first())
    } else {
        f.leaf + seq![0u8] + enc_hash_vec(f.ommers)
    }
}

/// Node bytes that are not a canonical field element are refused, never
/// read as some other value; a frontier with a readable position whose first
/// node has such bytes is refused for that reason.
pub proof fn lemma_non_canonical_rejected(s: Seq<u8>, p: int)
    requires
        0 <= p,
        p + 32 <= s.len(),
        !crate::tree::pallas_base_canonical(s.subrange(p, p + 32)),
    ensures
        parse_hash(s, p) == Parsed::<Seq<u8>>::Err(DecodeError::NonCanonicalHash),
        p >= 8 && parse_position(s, p - 8) is Ok ==> parse_frontier(s, p - 8) == Parsed::<
            FrontierModel,
        >::Err(
            DecodeError::NonCanonicalHash,
        ),
{
}

/// Reads a 64-bit position.
pub fn read_position(buf: &[u8], pos: usize) -> (r: Result<(u64, usize), DecodeError>)
    ensures
        match r {
            Ok((v, q)) => parse_position(buf@, pos as int) == Parsed::Ok((v, q as int)),
            Err(e) => parse_position(buf@, pos as int) == Parsed::<u64>::Err(e),
        },
{
    let (v, q) = read_leu64_usize(buf, pos)?;
    Ok((v as u64, q))
}

/// Writes a `usize` as eight little-endian bytes.
pub fn write_usize_leu64(out: &mut Vec<u8>, value: usize)
    ensures
        final(out)@ == old(out)@ + le_bytes(value as nat, 8),
{
    write_u64_le(out, value as u64);
}

/// Reads eight little-endian bytes as a `usize`, refusing a value that does
/// not fit one here.
pub fn read_leu64_usize(buf: &[u8], pos: usize) -> (r: Result<(usize, usize), DecodeError>)
    ensures
        match parse_le(buf@, pos as int, 8) {
            None => r == Err::<(usize, usize), DecodeError>(DecodeError::UnexpectedEnd),
            Some((v, q)) => if v > usize::MAX {
                r == Err::<(usize, usize), DecodeError>(DecodeError::OutOfRange(v as u64))
            } else {
                r matches Ok((x, q2)) && x as nat == v && q2 as int == q
            },
        },
{
    match read_u64_le(buf, pos) {
        None => Err(DecodeError::UnexpectedEnd),
        Some((v, q)) => if v <= usize::MAX as u64 {
            Ok((v as usize, q))
        } else {
            Err(DecodeError::OutOfRange(v))
        },
    }
}

/// Writes a 64-bit position.
pub fn write_position(out: &mut Vec<u8>, position: u64)
    ensures
        final(out)@ == old(out)@ + le_bytes(position as nat, 8),
{
    write_u64_le(out, position);
}

/// Reads a node value, rejecting a non-canonical one.
pub fn read_hash(buf: &[u8], pos: usize) -> (r: Result<(OrchardHash, usize), DecodeError>)
    ensures
        match r {
            Ok((h, q)) => parse_hash(buf@, pos as int) == Parsed::Ok((h@, q as int)),
            Err(e) => parse_hash(buf@, pos as int) == Parsed::<Seq<u8>>::Err(e),
        },
{
    if pos > buf.len() || buf.len() - pos < 32 {
        return Err(DecodeError::UnexpectedEnd);
    }
    let (_, tail) = buf.split_at(pos);
    let (head, _) = tail.split_at(32);
    assert(head@ =~= buf@.subrange(pos as int, pos + 32));
    match OrchardHash::from_bytes(head) {
        Some(h) => Ok((h, pos + 32)),
        None => Err(DecodeError::NonCanonicalHash),
    }
}

/// Writes a node value.
pub fn write_hash(out: &mut Vec<u8>, h: &OrchardHash)
    ensures
        final(out)@ == old(out)@ + h@,
{
    let b = h.to_bytes();
    let mut i: usize = 0;
    while i < b.len()
        invariant
            b@ == h@,
            i <= b@.len(),
            out@ == old(out)@ + b@.subrange(0, i as int),
        decreases b@.len() - i,
    {
        out.push(b[i]);
        i = i + 1;
        assert(out@ =~= old(out)@ + b@.subrange(0, i as int));
    }
    assert(b@.subrange(0, i as int) =~= b@);
}

/// Reads a presence flag.
pub fn read_flag(buf: &[u8], pos: usize) -> (r: Result<(bool, usize), DecodeError>)
    ensures
        match r {
            Ok((v, q)) => parse_flag(buf@, pos as int) == Parsed::Ok((v, q as int)),
            Err(e) => parse_flag(buf@, pos as int) == Parsed::<bool>::Err(e),
        },
{
    if pos >= buf.len() {
        return Err(DecodeError::UnexpectedEnd);
    }
    let b = buf[pos];
    if b == 0 {
        Ok((false, pos + 1))
    } else if b == 1 {
        Ok((true, pos + 1))
    } else {
        Err(DecodeError::InvalidOptionFlag(b))
    }
}

/// Views of a run of nodes.
pub open spec fn hash_views(v: Seq<OrchardHash>) -> Seq<Seq<u8>> {
    v.map_values(|h: OrchardHash| h@)
}

/// Once reading a run of nodes fails, reading a longer run fails the same way.
proof fn lemma_parse_hashes_err(s: Seq<u8>, p: int, k: nat, m: nat)
    requires
        k <= m,
        parse_hashes(s, p, k) is Err,
    ensures
        parse_hashes(s, p, m) == parse_hashes(s, p, k),
    decreases m - k,
{
    if k < m {
        lemma_parse_hashes_err(s, p, k, (m - 1) as nat);
    }
}

/// Reads a length-prefixed sequence of node values.
pub fn read_hash_vec(buf: &[u8], pos: usize) -> (r: Result<(Vec<OrchardHash>, usize), DecodeError>)
    ensures
        match r {
            Ok((v, q)) => parse_hash_vec(buf@, pos as int) == Parsed::Ok((hash_views(v@), q as int)),
            Err(e) => parse_hash_vec(buf@, pos as int) == Parsed::<Seq<Seq<u8>>>::Err(e),
        },
{
    let (n, start) = match read_compact_size(buf, pos) {
        Some(x) => x,
        None => return Err(DecodeError::InvalidCompactSize),
    };
    let mut v: Vec<OrchardHash> = Vec::new();
    let mut q: usize = start;
    let mut i: u64 = 0;
    assert(hash_views(v@) =~= Seq::<Seq<u8>>::empty());
    while i < n
        invariant
            i <= n,
            parse_compact_size(buf@, pos as int) == Some((n, start as int)),
            parse_hashes(buf@, start as int, i as nat) == Parsed::Ok((hash_views(v@), q as int)),
        decreases n - i,
    {
        let (h, q2) = match read_hash(buf, q) {
            Ok(x) => x,
            Err(e) => {
                proof {
                    lemma_parse_hashes_err(buf@, start as int, (i + 1) as nat, n as nat);
                }
                return Err(e);
            },
        };
        let ghost before = v@;
        v.push(h);
        assert(hash_views(v@) =~= hash_views(before).push(h@));
        q = q2;
        i = i + 1;
    }
    Ok((v, q))
}

/// Writes a length-prefixed sequence of node values.
pub fn write_hash_vec(out: &mut Vec<u8>, hs: &[OrchardHash])
    ensures
        final(out)@ == old(out)@ + enc_hash_vec(hash_views(hs@)),
{
    write_compact_size(out, hs.len());
    let ghost start = out@;
    let mut i: usize = 0;
    assert(enc_hashes(hash_views(hs@.subrange(0, 0))) =~= Seq::<u8>::empty());
    while i < hs.len()
        invariant
            i <= hs@.len(),
            out@ == start + enc_hashes(hash_views(hs@.subrange(0, i as int))),
            start == old(out)@ + compact_size_bytes(hs@.len()),
        decreases hs@.len() - i,
    {
        write_hash(out, &hs[i]);
        proof {
            let a = hash_views(hs@.subrange(0, i + 1));
            assert(a.drop_last() =~= hash_views(hs@.subrange(0, i as int)));
            assert(a.last() == hs@[i as int]@);
            assert(out@ =~= start + enc_hashes(a));
        }
        i = i + 1;
    }
    assert(hs@.subrange(0, i as int) =~= hs@);
    assert(hash_views(hs@).len() == hs@.len());
    assert(out@ =~= old(out)@ + enc_hash_vec(hash_views(hs@)));
}

/// A position with an odd value has at least one set bit.
proof fn lemma_odd_has_ommer(p: nat)
    requires
        p % 2 == 1,
    ensures
        ones(p) >= 1,
{
}

/// Writes a frontier in the version 1 layout.
pub fn write_nonempty_frontier_v1(out: &mut Vec<u8>, frontier: &NonEmptyFrontier)
    requires
        frontier.wf(),
    ensures
        final(out)@ == old(out)@ + enc_frontier(frontier@),
{
    let position = frontier.position();
    let ommers = frontier.ommers().as_slice();
    let ghost f = frontier@;
    write_position(out, position);
    if position % 2 == 1 {
        proof {
            lemma_odd_has_ommer(position as nat);
        }
        write_hash(out, &ommers[0]);
        out.push(1u8);
        write_hash(out, frontier.leaf());
        let (_, rest) = ommers.split_at(1);
        write_hash_vec(out, rest);
        assert(hash_views(rest@) =~= f.ommers.drop_first());
        assert(f.ommers[0] == ommers@[0]@);
        assert(out@ =~= old(out)@ + enc_frontier(f));
    } else {
        write_hash(out, frontier.leaf());
        out.push(0u8);
        write_hash_vec(out, ommers);
        assert(hash_views(ommers@) =~= f.ommers);
        assert(out@ =~= old(out)@ + enc_frontier(f));
    }
}

/// Reads a frontier in the version 1 layout.
pub fn read_nonempty_frontier_v1(buf: &[u8], pos: usize) -> (r: Result<
    (NonEmptyFrontier, usize),
    DecodeError,
>)
    ensures
        match r {
            Ok((f, q)) => f.wf() && parse_frontier(buf@, pos as int) == Parsed::Ok(
                (f@, q as int),
            ),
            Err(e) => parse_frontier(buf@, pos as int) == Parsed::<FrontierModel>::Err(e),
        },
{
    let (position, p1) = read_position(buf, pos)?;
    let (left, p2) = read_hash(buf, p1)?;
    let (has_right, p3) = read_flag(buf, p2)?;
    let ghost left_v = left@;
    let (leaf, ommers, p5) = if has_right {
        let (right, p4) = read_hash(buf, p3)?;
        let (mut ommers, p5) = read_hash_vec(buf, p4)?;
        let ghost rest = ommers@;
        ommers.insert(0, left);
        assert(hash_views(ommers@) =~= seq![left_v] + hash_views(rest));
        (right, ommers, p5)
    } else {
        let (ommers, p5) = read_hash_vec(buf, p3)?;
        (left, ommers, p5)
    };
    match NonEmptyFrontier::from_parts(position, leaf, ommers) {
        Ok(f) => Ok((f, p5)),
        Err(_) => Err(DecodeError::MalformedFrontier(position)),
    }
}

/// Whether a position lies within a tree of the given depth: its root level,
/// one past its highest set bit, is at most the depth.
pub open spec fn fits_depth(position: u64, depth: u8) -> bool {
    depth >= 64 || position >> (depth as u64) == 0
}

/// An optional frontier behind a presence flag, whose position must lie
/// within a tree of depth `depth`.
pub open spec fn parse_frontier_opt(s: Seq<u8>, p: int, depth: u8) -> Parsed<
    Option<FrontierModel>,
> {
    match parse_flag(s, p) {
        Err(e) => Err(e),
        Ok((false, q)) => Ok((None, q)),
        Ok((true, q)) => match parse_frontier(s, q) {
            Err(e) => Err(e),
            Ok((f, q2)) => if fits_depth(f.position, depth) {
                Ok((Some(f), q2))
            } else {
                Err(DecodeError::MaxDepthExceeded(f.position))
            },
        },
    }
}

/// The encoding of an optional frontier: a presence flag, then the frontier.
pub open spec fn enc_frontier_opt(f: Option<FrontierModel>) -> Seq<u8> {
    match f {
        None => seq![0u8],
        Some(g) => seq![1u8] + enc_frontier(g),
    }
}

/// Writes an optional frontier.
pub fn write_frontier_v1(out: &mut Vec<u8>, frontier: &Option<NonEmptyFrontier>)
    requires
        frontier matches Some(f) ==> f.wf(),
    ensures
        final(out)@ == old(out)@ + enc_frontier_opt(match frontier {
            Some(f) => Some(f@),
            None => None,
        }),
{
    match frontier {
        None => {
            out.push(0u8);
        },
        Some(f) => {
            out.push(1u8);
            write_nonempty_frontier_v1(out, f);
            assert(out@ =~= old(out)@ + (seq![1u8] + enc_frontier(f@)));
        },
    }
}

/// Reads an optional frontier of a tree of depth `depth`.
pub fn read_frontier_v1(buf: &[u8], pos: usize, depth: u8) -> (r: Result<
    (Option<NonEmptyFrontier>, usize),
    DecodeError,
>)
    ensures
        match r {
            Ok((None, q)) => parse_frontier_opt(buf@, pos as int, depth) == Parsed::Ok(
                (None::<FrontierModel>, q as int),
            ),
            Ok((Some(f), q)) => f.wf() && parse_frontier_opt(buf@, pos as int, depth) == Parsed::Ok(
                (Some(f@), q as int),
            ),
            Err(e) => parse_frontier_opt(buf@, pos as int, depth) == Parsed::<
                Option<FrontierModel>,
            >::Err(e),
        },
{
    let (present, q) = read_flag(buf, pos)?;
    if !present {
        return Ok((None, q));
    }
    let (f, q2) = read_nonempty_frontier_v1(buf, q)?;
    let position = f.position();
    if depth >= 64 || position >> (depth as u64) == 0 {
        Ok((Some(f), q2))
    } else {
        Err(DecodeError::MaxDepthExceeded(position))
    }
}

/// Where `a + b` stands at offset `p` of `s`, `a` stands at `p` and `b` right
/// after it.
pub proof fn lemma_split(s: Seq<u8>, p: int, a: Seq<u8>, b: Seq<u8>)
    requires
        0 <= p,
        p + a.len() + b.len() <= s.len(),
        s.subrange(p, p + a.len() + b.len()) == a + b,
    ensures
        s.subrange(p, p + a.len()) == a,
        s.subrange(p + a.len(), p + a.len() + b.len()) == b,
{
    let t = s.subrange(p, p + a.len() + b.len());
    assert(s.subrange(p, p + a.len()) =~= t.subrange(0, a.len() as int));
    assert(t.subrange(0, a.len() as int) =~= a);
    assert(s.subrange(p + a.len(), p + a.len() + b.len()) =~= t.subrange(
        a.len() as int,
        (a.len() + b.len()) as int,
    ));
    assert(t.subrange(a.len() as int, (a.len() + b.len()) as int) =~= b);
}

/// `2` raised to the `k`.
pub open spec fn pow2(k: nat) -> nat
    decreases k,
{
    if k == 0 {
        1
    } else {
        2 * pow2((k - 1) as nat)
    }
}

/// A number below `2^k` has at most `k` set bits.
proof fn lemma_ones_bound(p: nat, k: nat)
    requires
        p < pow2(k),
    ensures
        ones(p) <= k,
    decreases k,
{
    if p > 0 {
        assert(k > 0);
        lemma_ones_bound(p / 2, (k - 1) as nat);
    }
}

/// A `u64` has at most 64 set bits.
proof fn lemma_ones_u64(p: u64)
    ensures
        ones(p as nat) <= 64,
{
    assert(pow2(64) == 0x1_0000_0000_0000_0000) by {
        reveal_with_fuel(pow2, 65);
    }
    lemma_ones_bound(p as nat, 64);
}

/// Valid node values written in a row read back as themselves.
proof fn lemma_hashes_round_trip(s: Seq<u8>, p: int, hs: Seq<Seq<u8>>)
    requires
        0 <= p,
        forall|i: int| 0 <= i < hs.len() ==> hash_valid(#[trigger] hs[i]),
        p + enc_hashes(hs).len() <= s.len(),
        s.subrange(p, p + enc_hashes(hs).len()) == enc_hashes(hs),
    ensures
        enc_hashes(hs).len() == 32 * hs.len(),
        parse_hashes(s, p, hs.len()) == Parsed::Ok((hs, p + enc_hashes(hs).len())),
    decreases hs.len(),
{
    if hs.len() > 0 {
        let init = hs.drop_last();
        let last = hs.last();
        assert(hash_valid(hs[hs.len() - 1]));
        lemma_split(s, p, enc_hashes(init), last);
        assert forall|i: int| 0 <= i < init.len() implies hash_valid(#[trigger] init[i]) by {
            assert(init[i] == hs[i]);
        }
        lemma_hashes_round_trip(s, p, init);
        let q = p + enc_hashes(init).len();
        assert(parse_hash(s, q) == Parsed::Ok((last, q + 32)));
        assert(init.push(last) =~= hs);
    } else {
        assert(hs =~= Seq::<Seq<u8>>::empty());
    }
}

/// A valid run of node values behind its count reads back as itself.
proof fn lemma_hash_vec_round_trip(s: Seq<u8>, p: int, hs: Seq<Seq<u8>>)
    requires
        0 <= p,
        hs.len() <= 64,
        forall|i: int| 0 <= i < hs.len() ==> hash_valid(#[trigger] hs[i]),
        p + enc_hash_vec(hs).len() <= s.len(),
        s.subrange(p, p + enc_hash_vec(hs).len()) == enc_hash_vec(hs),
    ensures
        parse_hash_vec(s, p) == Parsed::Ok((hs, p + enc_hash_vec(hs).len())),
{
    let c = compact_size_bytes(hs.len());
    lemma_split(s, p, c, enc_hashes(hs));
    lemma_compact_size_round_trip(s, p, hs.len());
    lemma_hashes_round_trip(s, p + c.len(), hs);
}

/// A valid frontier written at offset `p` reads back as itself.
pub proof fn lemma_frontier_round_trip_at(s: Seq<u8>, p: int, f: FrontierModel)
    requires
        frontier_valid(f),
        0 <= p,
        p + enc_frontier(f).len() <= s.len(),
        s.subrange(p, p + enc_frontier(f).len()) == enc_frontier(f),
    ensures
        parse_frontier(s, p) == Parsed::Ok((f, p + enc_frontier(f).len())),
{
    lemma_pow256_facts();
    lemma_le_round_trip(f.position as nat, 8);
    lemma_ones_u64(f.position);
    let pb = le_bytes(f.position as nat, 8);
    let p1 = p + 8;
    if f.position % 2 == 1 {
        lemma_odd_has_ommer(f.position as nat);
        let o0 = f.ommers[0];
        let rest = f.ommers.drop_first();
        assert(hash_valid(f.ommers[0]));
        assert forall|i: int| 0 <= i < rest.len() implies hash_valid(#[trigger] rest[i]) by {
            assert(rest[i] == f.ommers[i + 1]);
        }
        let body = o0 + seq![1u8] + f.leaf + enc_hash_vec(rest);
        lemma_split(s, p, pb, body);
        lemma_split(s, p1, o0 + seq![1u8] + f.leaf, enc_hash_vec(rest));
        lemma_split(s, p1, o0 + seq![1u8], f.leaf);
        lemma_split(s, p1, o0, seq![1u8]);
        assert(s.subrange(p1 + 32, p1 + 33)[0] == s[p1 + 32]);
        lemma_hash_vec_round_trip(s, p1 + 65, rest);
        assert(seq![o0] + rest =~= f.ommers);
    } else {
        let body = f.leaf + seq![0u8] + enc_hash_vec(f.ommers);
        lemma_split(s, p, pb, body);
        lemma_split(s, p1, f.leaf + seq![0u8], enc_hash_vec(f.ommers));
        lemma_split(s, p1, f.leaf, seq![0u8]);
        assert(s.subrange(p1 + 32, p1 + 33)[0] == s[p1 + 32]);
        lemma_hash_vec_round_trip(s, p1 + 33, f.ommers);
    }
}

/// Decoding the version 1 encoding of a valid frontier gives the frontier
/// back, and consumes the whole encoding.
pub proof fn lemma_frontier_v1_round_trip(f: FrontierModel)
    requires
        frontier_valid(f),
    ensures
        parse_frontier(enc_frontier(f), 0) == Parsed::Ok((f, enc_frontier(f).len() as int)),
{
    let e = enc_frontier(f);
    assert(e.subrange(0, e.len() as int) =~= e);
    lemma_frontier_round_trip_at(e, 0, f);
}

/// A well-formed frontier whose position fits a `usize` here reads back from
/// its version 1 encoding as itself.
pub proof fn lemma_nonempty_frontier_round_trip(f: NonEmptyFrontier)
    requires
        f.wf(),
        f@.position <= usize::MAX,
    ensures
        parse_frontier(enc_frontier(f@), 0) == Parsed::Ok((f@, enc_frontier(f@).len() as int)),
{
    lemma_frontier_v1_round_trip(f@);
}

/// For a well-formed frontier with an odd position, decoding undoes the
/// parity swap of the encoding: leaf and ommers come back in place.
pub proof fn lemma_nonempty_frontier_parity(f: NonEmptyFrontier)
    requires
        f.wf(),
        f@.position <= usize::MAX,
        f@.position % 2 == 1,
    ensures
        enc_frontier(f@).subrange(8, 40) == f@.ommers[0],
        enc_frontier(f@).subrange(41, 73) == f@.leaf,
        parse_frontier(enc_frontier(f@), 0) matches Ok((g, _)) && g.leaf == f@.leaf && g.ommers
            == f@.ommers,
{
    lemma_frontier_parity_fix_up(f@);
}

/// An optional frontier, valid and within the tree's depth where present,
/// reads back from its encoding as itself.
pub proof fn lemma_frontier_opt_round_trip(f: Option<FrontierModel>, depth: u8)
    requires
        f matches Some(g) ==> frontier_valid(g) && fits_depth(g.position, depth),
    ensures
        parse_frontier_opt(enc_frontier_opt(f), 0, depth) == Parsed::Ok(
            (f, enc_frontier_opt(f).len() as int),
        ),
{
    if let Some(g) = f {
        let e = enc_frontier_opt(f);
        let b = enc_frontier(g);
        assert(e.subrange(1, (1 + b.len()) as int) =~= b);
        lemma_frontier_round_trip_at(e, 1, g);
    }
}

/// For a right-hand leaf (odd position) the encoding puts the leaf's sibling,
/// the lowest ommer, first and the leaf behind a presence flag; decoding
/// swaps them back, so leaf and ommers come out as they went in.
pub proof fn lemma_frontier_parity_fix_up(f: FrontierModel)
    requires
        frontier_valid(f),
        f.position % 2 == 1,
    ensures
        f.ommers.len() >= 1,
        enc_frontier(f).subrange(8, 40) == f.ommers[0],
        enc_frontier(f)[40] == 1u8,
        enc_frontier(f).subrange(41, 73) == f.leaf,
        parse_frontier(enc_frontier(f), 0) matches Ok((g, _)) && g.leaf == f.leaf && g.ommers
            == f.ommers,
{
    lemma_odd_has_ommer(f.position as nat);
    lemma_frontier_v1_round_trip(f);
    let e = enc_frontier(f);
    let o0 = f.ommers[0];
    assert(hash_valid(f.ommers[0]));
    let pb = le_bytes(f.position as nat, 8);
    lemma_pow256_facts();
    lemma_le_round_trip(f.position as nat, 8);
    let body = o0 + seq![1u8] + f.leaf + enc_hash_vec(f.ommers.drop_first());
    assert(e.subrange(0, e.len() as int) =~= e);
    lemma_split(e, 0, pb, body);
    lemma_split(e, 8, o0 + seq![1u8] + f.leaf, enc_hash_vec(f.ommers.drop_first()));
    lemma_split(e, 8, o0 + seq![1u8], f.leaf);
    lemma_split(e, 8, o0, seq![1u8]);
    assert(e.subrange(40, 41)[0] == e[40]);
}

/// An optional node value behind a presence flag.
pub open spec fn parse_opt_hash(s: Seq<u8>, p: int) -> Parsed<Option<Seq<u8>>> {
    match parse_flag(s, p) {
        Err(e) => Err(e),
        Ok((false, q)) => Ok((None, q)),
        Ok((true, q)) => match parse_hash(s, q) {
            Err(e) => Err(e),
            Ok((h, q2)) => Ok((Some(h), q2)),
        },
    }
}

/// `n` optional node values in a row.
pub open spec fn parse_opt_hashes(s: Seq<u8>, p: int, n: nat) -> Parsed<Seq<Option<Seq<u8>>>>
    decreases n,
{
    if n == 0 {
        Ok((Seq::empty(), p))
    } else {
        match parse_opt_hashes(s, p, (n - 1) as nat) {
            Ok((v, q)) => match parse_opt_hash(s, q) {
                Ok((x, r)) => Ok((v.push(x), r)),
                Err(e) => Err(e),
            },
            Err(e) => Err(e),
        }
    }
}

/// The number of leaves that filled parent slots stand for: the slot at
/// level `i + 1` holds a full subtree of `2^(i + 1)` leaves.
pub open spec fn parents_size(parents: Seq<Option<Seq<u8>>>) -> nat
    decreases parents.len(),
{
    if parents.len() == 0 {
        0
    } else {
        parents_size(parents.drop_last()) + if parents.last() is Some {
            pow2(parents.len())
        } else {
            0
        }
    }
}

/// The filled parent slots, lowest first.
pub open spec fn filled(parents: Seq<Option<Seq<u8>>>) -> Seq<Seq<u8>>
    decreases parents.len(),
{
    if parents.len() == 0 {
        Seq::empty()
    } else {
        match parents.last() {
            Some(h) => filled(parents.drop_last()).push(h),
            None => filled(parents.drop_last()),
        }
    }
}

/// The depth of the legacy commitment tree layout.
pub const LEGACY_TREE_DEPTH: u64 = 32;

/// A legacy commitment tree: an optional left leaf, an optional right leaf,
/// and a length-prefixed run of optional parents, one per level above the
/// leaves (fewer than the depth). It is replayed into a frontier: the last
/// filled leaf is the frontier's leaf, a left leaf beside a right one is its
/// lowest ommer, the filled parents follow, and the position is one less
/// than the number of leaves. A tree with no filled slot is the empty
/// frontier.
pub open spec fn parse_frontier_v0(s: Seq<u8>, p: int) -> Parsed<Option<FrontierModel>> {
    match parse_opt_hash(s, p) {
        Err(e) => Err(e),
        Ok((left, p1)) => match parse_opt_hash(s, p1) {
            Err(e) => Err(e),
            Ok((right, p2)) => match parse_compact_size(s, p2) {
                None => Err(DecodeError::InvalidCompactSize),
                Some((n, p3)) => match parse_opt_hashes(s, p3, n as nat) {
                    Err(e) => Err(e),
                    Ok((parents, p4)) => if n >= LEGACY_TREE_DEPTH {
                        Err(DecodeError::MaxDepthExceeded(n))
                    } else {
                        match (left, right) {
                            (None, None) => if filled(parents).len() == 0 {
                                Ok((None, p4))
                            } else {
                                Err(DecodeError::MalformedLegacyTree)
                            },
                            (None, Some(_)) => Err(DecodeError::MalformedLegacyTree),
                            (Some(a), r) => {
                                let leaf = match r {
                                    Some(b) => b,
                                    None => a,
                                };
                                let ommers = match r {
                                    Some(_) => seq![a] + filled(parents),
                                    None => filled(parents),
                                };
                                let size = (if r is Some { 2nat } else { 1nat }) + parents_size(
                                    parents,
                                );
                                let position = (size - 1) as u64;
                                if ommers.len() == ones(position as nat) {
                                    Ok(
                                        (
                                            Some(FrontierModel { position, leaf, ommers }),
                                            p4,
                                        ),
                                    )
                                } else {
                                    Err(DecodeError::MalformedFrontier(position))
                                }
                            },
                        }
                    },
                },
            },
        },
    }
}

/// Reads an optional node value.
pub fn read_opt_hash(buf: &[u8], pos: usize) -> (r: Result<(Option<OrchardHash>, usize), DecodeError>)
    ensures
        match r {
            Ok((None, q)) => parse_opt_hash(buf@, pos as int) == Parsed::Ok(
                (None::<Seq<u8>>, q as int),
            ),
            Ok((Some(h), q)) => parse_opt_hash(buf@, pos as int) == Parsed::Ok(
                (Some(h@), q as int),
            ),
            Err(e) => parse_opt_hash(buf@, pos as int) == Parsed::<Option<Seq<u8>>>::Err(e),
        },
{
    let (present, q) = read_flag(buf, pos)?;
    if present {
        let (h, q2) = read_hash(buf, q)?;
        Ok((Some(h), q2))
    } else {
        Ok((None, q))
    }
}

/// Once reading a run of optional nodes fails, reading a longer run fails
/// the same way.
proof fn lemma_parse_opt_hashes_err(s: Seq<u8>, p: int, k: nat, m: nat)
    requires
        k <= m,
        parse_opt_hashes(s, p, k) is Err,
    ensures
        parse_opt_hashes(s, p, m) == parse_opt_hashes(s, p, k),
    decreases m - k,
{
    if k < m {
        lemma_parse_opt_hashes_err(s, p, k, (m - 1) as nat);
    }
}

/// The view of an optional node.
pub open spec fn opt_view(x: Option<OrchardHash>) -> Option<Seq<u8>> {
    match x {
        Some(h) => Some(h@),
        None => None,
    }
}

/// The views of a run of optional nodes.
pub open spec fn opt_views(v: Seq<Option<OrchardHash>>) -> Seq<Option<Seq<u8>>> {
    v.map_values(
        |x: Option<OrchardHash>|
            match x {
                Some(h) => Some(h@),
                None => None,
            },
    )
}

/// Reads a frontier from the legacy commitment tree layout.
pub fn read_frontier_v0(buf: &[u8], pos: usize) -> (r: Result<
    (Option<NonEmptyFrontier>, usize),
    DecodeError,
>)
    ensures
        match r {
            Ok((None, q)) => parse_frontier_v0(buf@, pos as int) == Parsed::Ok(
                (None::<FrontierModel>, q as int),
            ),
            Ok((Some(f), q)) => f.wf() && parse_frontier_v0(buf@, pos as int) == Parsed::Ok(
                (Some(f@), q as int),
            ),
            Err(e) => parse_frontier_v0(buf@, pos as int) == Parsed::<
                Option<FrontierModel>,
            >::Err(e),
        },
{
    let (left, p1) = read_opt_hash(buf, pos)?;
    let (right, p2) = read_opt_hash(buf, p1)?;
    let (n, p3) = match read_compact_size(buf, p2) {
        Some(x) => x,
        None => return Err(DecodeError::InvalidCompactSize),
    };
    let ghost lv = opt_view(left);
    let ghost rv = opt_view(right);
    let mut parents: Vec<Option<OrchardHash>> = Vec::new();
    let mut q: usize = p3;
    let mut i: u64 = 0;
    assert(opt_views(parents@) =~= Seq::<Option<Seq<u8>>>::empty());
    while i < n
        invariant
            i <= n,
            parents@.len() == i,
            parse_opt_hash(buf@, pos as int) == Parsed::Ok((lv, p1 as int)),
            parse_opt_hash(buf@, p1 as int) == Parsed::Ok((rv, p2 as int)),
            parse_compact_size(buf@, p2 as int) == Some((n, p3 as int)),
            parse_opt_hashes(buf@, p3 as int, i as nat) == Parsed::Ok((opt_views(parents@), q as int)),
        decreases n - i,
    {
        let (x, q2) = match read_opt_hash(buf, q) {
            Ok(y) => y,
            Err(e) => {
                proof {
                    lemma_parse_opt_hashes_err(buf@, p3 as int, (i + 1) as nat, n as nat);
                }
                return Err(e);
            },
        };
        let ghost before = opt_views(parents@);
        parents.push(x);
        assert(opt_views(parents@) =~= before.push(opt_views(parents@).last()));
        q = q2;
        i = i + 1;
    }
    if n >= LEGACY_TREE_DEPTH {
        return Err(DecodeError::MaxDepthExceeded(n));
    }
    let ghost pv = opt_views(parents@);
    // Replay the filled parents: their leaf count and their values, lowest first.
    let mut size: u64 = 0;
    let mut bit: u64 = 2;
    let mut ommers: Vec<OrchardHash> = Vec::new();
    let mut j: usize = 0;
    proof {
        assert(pow2(32) == 0x1_0000_0000) by {
            reveal_with_fuel(pow2, 33);
        }
        assert(pow2(1) == 2) by {
            reveal_with_fuel(pow2, 2);
        }
        assert(pv.subrange(0, 0) =~= Seq::<Option<Seq<u8>>>::empty());
        assert(hash_views(ommers@) =~= Seq::<Seq<u8>>::empty());
    }
    while j < parents.len()
        invariant
            parents@.len() == n,
            n < 32,
            j <= n,
            pv == opt_views(parents@),
            pow2(32) == 0x1_0000_0000,
            bit as nat == pow2((j + 1) as nat),
            size as nat == parents_size(pv.subrange(0, j as int)),
            size as nat + 2 <= pow2((j + 1) as nat),
            hash_views(ommers@) == filled(pv.subrange(0, j as int)),
        decreases n - j,
    {
        proof {
            let t = pv.subrange(0, j + 1);
            assert(t.drop_last() =~= pv.subrange(0, j as int));
            assert(t.last() == pv[j as int]);
            assert(pow2((j + 2) as nat) == 2 * pow2((j + 1) as nat));
            assert(pow2((j + 1) as nat) <= pow2(32)) by {
                lemma_pow2_mono((j + 1) as nat, 32);
            }
        }
        match &parents[j] {
            Some(h) => {
                size = size + bit;
                let ghost before = hash_views(ommers@);
                ommers.push(h.clone_node());
                assert(hash_views(ommers@) =~= before.push(h@));
            },
            None => {},
        }
        bit = bit * 2;
        j = j + 1;
    }
    assert(pv.subrange(0, j as int) =~= pv);
    match (left, right) {
        (None, None) => {
            if ommers.len() == 0 {
                Ok((None, q))
            } else {
                Err(DecodeError::MalformedLegacyTree)
            }
        },
        (None, Some(_)) => Err(DecodeError::MalformedLegacyTree),
        (Some(a), None) => {
            let position = size;
            match NonEmptyFrontier::from_parts(position, a, ommers) {
                Ok(f) => Ok((Some(f), q)),
                Err(_) => Err(DecodeError::MalformedFrontier(position)),
            }
        },
        (Some(a), Some(b)) => {
            let position = size + 1;
            let ghost av = a@;
            let ghost rest = hash_views(ommers@);
            ommers.insert(0, a);
            assert(hash_views(ommers@) =~= seq![av] + rest);
            match NonEmptyFrontier::from_parts(position, b, ommers) {
                Ok(f) => Ok((Some(f), q)),
                Err(_) => Err(DecodeError::MalformedFrontier(position)),
            }
        },
    }
}

/// Powers of two grow with the exponent.
proof fn lemma_pow2_mono(a: nat, b: nat)
    requires
        a <= b,
    ensures
        pow2(a) <= pow2(b),
    decreases b - a,
{
    if a < b {
        lemma_pow2_mono(a, (b - 1) as nat);
    }
}

} // verus!
