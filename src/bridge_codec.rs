//! Bridge encodings: the current explicit layout, the legacy fragment layout
//! and its reconstruction, and the version tag that selects between them.
use vstd::prelude::*;
use crate::bridge::{map_with_new_pairs, ommer_views, pairs_to_map, BridgeModel, MerkleBridge};
use crate::bytes::{
    compact_size_bytes, le_bytes, lemma_compact_size_round_trip, lemma_le_round_trip,
    lemma_pow256_facts, parse_compact_size, parse_le, read_compact_size, read_u64_le,
    write_compact_size, write_u64_le, MAX_COMPACT_SIZE,
};
use crate::frontier_codec::{
    enc_frontier, lemma_frontier_round_trip_at, lemma_split, parse_flag, parse_frontier,
    parse_hash, parse_position, read_flag, read_hash, read_nonempty_frontier_v1,
    read_leu64_usize, read_position, write_hash, write_nonempty_frontier_v1, write_position,
    Parsed,
};
use crate::tree::{hash_valid, frontier_valid, Address, DecodeError, FrontierModel, OrchardHash};

verus! {

/// The tag of the legacy fragment layout.
pub const SER_V1: u8 = 1;

/// The tag of the current layout.
pub const SER_V2: u8 = 2;

/// An optional position behind a presence flag.
pub open spec fn parse_opt_position(s: Seq<u8>, p: int) -> Parsed<Option<u64>> {
    match parse_flag(s, p) {
        Err(e) => Err(e),
        Ok((false, q)) => Ok((None, q)),
        Ok((true, q)) => match parse_position(s, q) {
            Err(e) => Err(e),
            Ok((v, q2)) => Ok((Some(v), q2)),
        },
    }
}

/// The encoding of an optional position.
pub open spec fn enc_opt_position(o: Option<u64>) -> Seq<u8> {
    match o {
        None => seq![0u8],
        Some(v) => seq![1u8] + le_bytes(v as nat, 8),
    }
}

/// An address: its level byte, then its index in the form of a position.
pub open spec fn parse_address(s: Seq<u8>, p: int) -> Parsed<Address> {
    if 0 <= p < s.len() {
        match parse_position(s, p + 1) {
            Ok((v, q)) => Ok((Address { level: s[p], index: v }, q)),
            Err(e) => Err(e),
        }
    } else {
        Err(DecodeError::UnexpectedEnd)
    }
}

/// The encoding of an address.
pub open spec fn enc_address(a: Address) -> Seq<u8> {
    seq![a.level] + le_bytes(a.index as nat, 8)
}

/// `n` addresses in a row.
pub open spec fn parse_addresses(s: Seq<u8>, p: int, n: nat) -> Parsed<Seq<Address>>
    decreases n,
{
    if n == 0 {
        Ok((Seq::empty(), p))
    } else {
        match parse_addresses(s, p, (n - 1) as nat) {
            Ok((v, q)) => match parse_address(s, q) {
                Ok((a, r)) => Ok((v.push(a), r)),
                Err(e) => Err(e),
            },
            Err(e) => Err(e),
        }
    }
}

/// Addresses written one after another.
pub open spec fn enc_addresses(v: Seq<Address>) -> Seq<u8>
    decreases v.len(),
{
    if v.len() == 0 {
        Seq::empty()
    } else {
        enc_addresses(v.drop_last()) + enc_address(v.last())
    }
}

/// An address followed by the node value known there.
pub open spec fn parse_pair(s: Seq<u8>, p: int) -> Parsed<(Address, Seq<u8>)> {
    match parse_address(s, p) {
        Err(e) => Err(e),
        Ok((a, q)) => match parse_hash(s, q) {
            Err(e) => Err(e),
            Ok((h, r)) => Ok(((a, h), r)),
        },
    }
}

/// `n` address and value pairs in a row.
pub open spec fn parse_pairs(s: Seq<u8>, p: int, n: nat) -> Parsed<Seq<(Address, Seq<u8>)>>
    decreases n,
{
    if n == 0 {
        Ok((Seq::empty(), p))
    } else {
        match parse_pairs(s, p, (n - 1) as nat) {
            Ok((v, q)) => match parse_pair(s, q) {
                Ok((x, r)) => Ok((v.push(x), r)),
                Err(e) => Err(e),
            },
            Err(e) => Err(e),
        }
    }
}

/// Pairs written one after another.
pub open spec fn enc_pairs(v: Seq<(Address, Seq<u8>)>) -> Seq<u8>
    decreases v.len(),
{
    if v.len() == 0 {
        Seq::empty()
    } else {
        enc_pairs(v.drop_last()) + enc_address(v.last().0) + v.last().1
    }
}

/// The body of a current-layout bridge: the prior position, the tracked
/// addresses, the ommers, then the frontier. The addresses are collected into
/// a set, the ommers into a map in which a later pair wins.
pub open spec fn parse_bridge_v2(s: Seq<u8>, p: int) -> Parsed<BridgeModel> {
    match parse_opt_position(s, p) {
        Err(e) => Err(e),
        Ok((prior_position, p1)) => match parse_compact_size(s, p1) {
            None => Err(DecodeError::InvalidCompactSize),
            Some((n, p2)) => match parse_addresses(s, p2, n as nat) {
                Err(e) => Err(e),
                Ok((tracking, p3)) => match parse_compact_size(s, p3) {
                    None => Err(DecodeError::InvalidCompactSize),
                    Some((m, p4)) => match parse_pairs(s, p4, m as nat) {
                        Err(e) => Err(e),
                        Ok((ommers, p5)) => match parse_frontier(s, p5) {
                            Err(e) => Err(e),
                            Ok((frontier, p6)) => Ok(
                                (
                                    BridgeModel {
                                        prior_position,
                                        tracking: tracking.to_set(),
                                        ommers: pairs_to_map(ommers),
                                        frontier,
                                    },
                                    p6,
                                ),
                            ),
                        },
                    },
                },
            },
        },
    }
}

/// The body of a current-layout bridge with these parts, in this order.
pub open spec fn enc_bridge_v2(
    prior_position: Option<u64>,
    tracking: Seq<Address>,
    ommers: Seq<(Address, Seq<u8>)>,
    frontier: FrontierModel,
) -> Seq<u8> {
    enc_opt_position(prior_position) + compact_size_bytes(tracking.len()) + enc_addresses(
        tracking,
    ) + compact_size_bytes(ommers.len()) + enc_pairs(ommers) + enc_frontier(frontier)
}

/// Reads an address.
pub fn read_address(buf: &[u8], pos: usize) -> (r: Result<(Address, usize), DecodeError>)
    ensures
        match r {
            Ok((a, q)) => parse_address(buf@, pos as int) == Parsed::Ok((a, q as int)),
            Err(e) => parse_address(buf@, pos as int) == Parsed::<Address>::Err(e),
        },
{
    if pos >= buf.len() {
        return Err(DecodeError::UnexpectedEnd);
    }
    let level = buf[pos];
    let (index, q) = read_position(buf, pos + 1)?;
    Ok((Address { level, index }, q))
}

/// Writes an address.
pub fn write_address(out: &mut Vec<u8>, a: Address)
    ensures
        final(out)@ == old(out)@ + enc_address(a),
{
    out.push(a.level);
    write_u64_le(out, a.index);
    assert(out@ =~= old(out)@ + enc_address(a));
}

/// Reads an optional position.
pub fn read_opt_position(buf: &[u8], pos: usize) -> (r: Result<(Option<u64>, usize), DecodeError>)
    ensures
        match r {
            Ok((v, q)) => parse_opt_position(buf@, pos as int) == Parsed::Ok((v, q as int)),
            Err(e) => parse_opt_position(buf@, pos as int) == Parsed::<Option<u64>>::Err(e),
        },
{
    let (present, q) = read_flag(buf, pos)?;
    if present {
        let (v, q2) = read_position(buf, q)?;
        Ok((Some(v), q2))
    } else {
        Ok((None, q))
    }
}

/// Writes an optional position.
pub fn write_opt_position(out: &mut Vec<u8>, o: Option<u64>)
    ensures
        final(out)@ == old(out)@ + enc_opt_position(o),
{
    match o {
        None => {
            out.push(0u8);
        },
        Some(v) => {
            out.push(1u8);
            write_position(out, v);
            assert(out@ =~= old(out)@ + enc_opt_position(o));
        },
    }
}

/// Once reading a run of addresses fails, reading a longer run fails the
/// same way.
proof fn lemma_parse_addresses_err(s: Seq<u8>, p: int, k: nat, m: nat)
    requires
        k <= m,
        parse_addresses(s, p, k) is Err,
    ensures
        parse_addresses(s, p, m) == parse_addresses(s, p, k),
    decreases m - k,
{
    if k < m {
        lemma_parse_addresses_err(s, p, k, (m - 1) as nat);
    }
}

/// Once reading a run of pairs fails, reading a longer run fails the same
/// way.
proof fn lemma_parse_pairs_err(s: Seq<u8>, p: int, k: nat, m: nat)
    requires
        k <= m,
        parse_pairs(s, p, k) is Err,
    ensures
        parse_pairs(s, p, m) == parse_pairs(s, p, k),
    decreases m - k,
{
    if k < m {
        lemma_parse_pairs_err(s, p, k, (m - 1) as nat);
    }
}

/// Reads `n` addresses.
fn read_addresses(buf: &[u8], pos: usize, n: u64) -> (r: Result<(Vec<Address>, usize), DecodeError>)
    ensures
        match r {
            Ok((v, q)) => parse_addresses(buf@, pos as int, n as nat) == Parsed::Ok((v@, q as int)),
            Err(e) => parse_addresses(buf@, pos as int, n as nat) == Parsed::<Seq<Address>>::Err(e),
        },
{
    let mut v: Vec<Address> = Vec::new();
    let mut q: usize = pos;
    let mut i: u64 = 0;
    assert(v@ =~= Seq::<Address>::empty());
    while i < n
        invariant
            i <= n,
            parse_addresses(buf@, pos as int, i as nat) == Parsed::Ok((v@, q as int)),
        decreases n - i,
    {
        let (a, q2) = match read_address(buf, q) {
            Ok(x) => x,
            Err(e) => {
                proof {
                    lemma_parse_addresses_err(buf@, pos as int, (i + 1) as nat, n as nat);
                }
                return Err(e);
            },
        };
        v.push(a);
        q = q2;
        i = i + 1;
    }
    Ok((v, q))
}

/// Reads `n` address and value pairs.
fn read_pairs(buf: &[u8], pos: usize, n: u64) -> (r: Result<
    (Vec<(Address, OrchardHash)>, usize),
    DecodeError,
>)
    ensures
        match r {
            Ok((v, q)) => parse_pairs(buf@, pos as int, n as nat) == Parsed::Ok(
                (ommer_views(v@), q as int),
            ),
            Err(e) => parse_pairs(buf@, pos as int, n as nat) == Parsed::<
                Seq<(Address, Seq<u8>)>,
            >::Err(e),
        },
{
    let mut v: Vec<(Address, OrchardHash)> = Vec::new();
    let mut q: usize = pos;
    let mut i: u64 = 0;
    assert(ommer_views(v@) =~= Seq::<(Address, Seq<u8>)>::empty());
    while i < n
        invariant
            i <= n,
            parse_pairs(buf@, pos as int, i as nat) == Parsed::Ok((ommer_views(v@), q as int)),
        decreases n - i,
    {
        let (a, q1) = match read_address(buf, q) {
            Ok(x) => x,
            Err(e) => {
                proof {
                    lemma_parse_pairs_err(buf@, pos as int, (i + 1) as nat, n as nat);
                }
                return Err(e);
            },
        };
        let (h, q2) = match read_hash(buf, q1) {
            Ok(x) => x,
            Err(e) => {
                proof {
                    lemma_parse_pairs_err(buf@, pos as int, (i + 1) as nat, n as nat);
                }
                return Err(e);
            },
        };
        let ghost before = ommer_views(v@);
        let ghost hv = h@;
        v.push((a, h));
        assert(ommer_views(v@) =~= before.push((a, hv)));
        q = q2;
        i = i + 1;
    }
    Ok((v, q))
}

/// Builds a bridge from its parts: the addresses become its tracked set and
/// the pairs, in order, its ommers.
fn assemble_bridge(
    prior_position: Option<u64>,
    tracking: Vec<Address>,
    ommers: Vec<(Address, OrchardHash)>,
    frontier: crate::tree::NonEmptyFrontier,
) -> (r: MerkleBridge)
    requires
        frontier.wf(),
    ensures
        r.wf(),
        r@ == (BridgeModel {
            prior_position,
            tracking: tracking@.to_set(),
            ommers: pairs_to_map(ommer_views(ommers@)),
            frontier: frontier@,
        }),
{
    let ghost fv = frontier@;
    let mut b = MerkleBridge::new(prior_position, frontier);
    let mut i: usize = 0;
    assert(tracking@.subrange(0, 0).to_set() =~= Set::<Address>::empty());
    while i < tracking.len()
        invariant
            i <= tracking@.len(),
            b.wf(),
            b@ == (BridgeModel {
                prior_position,
                tracking: tracking@.subrange(0, i as int).to_set(),
                ommers: Map::<Address, Seq<u8>>::empty(),
                frontier: fv,
            }),
        decreases tracking@.len() - i,
    {
        b.track(tracking[i]);
        proof {
            let t = tracking@.subrange(0, i as int);
            t.lemma_push_to_set_commute(tracking@[i as int]);
            assert(t.push(tracking@[i as int]) =~= tracking@.subrange(0, i + 1));
        }
        i = i + 1;
    }
    assert(tracking@.subrange(0, i as int) =~= tracking@);
    let mut ommers = ommers;
    let ghost all = ommer_views(ommers@);
    let mut j: usize = 0;
    assert(all.subrange(0, 0) =~= Seq::<(Address, Seq<u8>)>::empty());
    while j < ommers.len()
        invariant
            j <= ommers@.len(),
            all == ommer_views(ommers@),
            b.wf(),
            b@ == (BridgeModel {
                prior_position,
                tracking: tracking@.to_set(),
                ommers: pairs_to_map(all.subrange(0, j as int)),
                frontier: fv,
            }),
        decreases ommers@.len() - j,
    {
        let a = ommers[j].0;
        let h = ommers[j].1.clone_node();
        b.insert_ommer(a, h);
        proof {
            let t = all.subrange(0, j + 1);
            assert(t.drop_last() =~= all.subrange(0, j as int));
            assert(t.last() == all[j as int]);
        }
        j = j + 1;
    }
    assert(all.subrange(0, j as int) =~= all);
    b
}

/// Reads the body of a current-layout bridge.
pub fn read_bridge_v2(buf: &[u8], pos: usize) -> (r: Result<(MerkleBridge, usize), DecodeError>)
    ensures
        match r {
            Ok((b, q)) => b.wf() && parse_bridge_v2(buf@, pos as int) == Parsed::Ok((b@, q as int)),
            Err(e) => parse_bridge_v2(buf@, pos as int) == Parsed::<BridgeModel>::Err(e),
        },
{
    let (prior_position, p1) = read_opt_position(buf, pos)?;
    let (n, p2) = match read_compact_size(buf, p1) {
        Some(x) => x,
        None => return Err(DecodeError::InvalidCompactSize),
    };
    let (tracking, p3) = read_addresses(buf, p2, n)?;
    let (m, p4) = match read_compact_size(buf, p3) {
        Some(x) => x,
        None => return Err(DecodeError::InvalidCompactSize),
    };
    let (ommers, p5) = read_pairs(buf, p4, m)?;
    let (frontier, p6) = read_nonempty_frontier_v1(buf, p5)?;
    let b = assemble_bridge(prior_position, tracking, ommers, frontier);
    Ok((b, p6))
}

/// Writes the body of a bridge in the current layout.
pub fn write_bridge_v2(out: &mut Vec<u8>, bridge: &MerkleBridge)
    requires
        bridge.wf(),
    ensures
        final(out)@ == old(out)@ + enc_bridge_v2(
            bridge@.prior_position,
            bridge.tracking_seq(),
            bridge.ommer_seq(),
            bridge@.frontier,
        ),
{
    write_opt_position(out, bridge.prior_position());
    let tracking = bridge.tracking();
    write_compact_size(out, tracking.len());
    let ghost start = out@;
    let mut i: usize = 0;
    assert(enc_addresses(tracking@.subrange(0, 0)) =~= Seq::<u8>::empty());
    while i < tracking.len()
        invariant
            i <= tracking@.len(),
            out@ == start + enc_addresses(tracking@.subrange(0, i as int)),
        decreases tracking@.len() - i,
    {
        write_address(out, tracking[i]);
        proof {
            let t = tracking@.subrange(0, i + 1);
            assert(t.drop_last() =~= tracking@.subrange(0, i as int));
            assert(out@ =~= start + enc_addresses(t));
        }
        i = i + 1;
    }
    assert(tracking@.subrange(0, i as int) =~= tracking@);
    let ommers = bridge.ommers();
    write_compact_size(out, ommers.len());
    let ghost start2 = out@;
    let ghost all = ommer_views(ommers@);
    let mut j: usize = 0;
    assert(enc_pairs(all.subrange(0, 0)) =~= Seq::<u8>::empty());
    while j < ommers.len()
        invariant
            j <= ommers@.len(),
            all == ommer_views(ommers@),
            out@ == start2 + enc_pairs(all.subrange(0, j as int)),
        decreases ommers@.len() - j,
    {
        write_address(out, ommers[j].0);
        write_hash(out, &ommers[j].1);
        proof {
            let t = all.subrange(0, j + 1);
            assert(t.drop_last() =~= all.subrange(0, j as int));
            assert(t.last() == all[j as int]);
            assert(out@ =~= start2 + enc_pairs(t));
        }
        j = j + 1;
    }
    assert(all.subrange(0, j as int) =~= all);
    write_nonempty_frontier_v1(out, bridge.frontier());
    proof {
        bridge.lemma_view();
    }
    assert(out@ =~= old(out)@ + enc_bridge_v2(
        bridge@.prior_position,
        bridge.tracking_seq(),
        bridge.ommer_seq(),
        bridge@.frontier,
    ));
}

/// An address written at offset `p` reads back as itself.
proof fn lemma_address_round_trip(s: Seq<u8>, p: int, a: Address)
    requires
        a.index <= usize::MAX,
        0 <= p,
        p + 9 <= s.len(),
        s.subrange(p, p + 9) == enc_address(a),
    ensures
        enc_address(a).len() == 9,
        parse_address(s, p) == Parsed::Ok((a, p + 9)),
{
    lemma_pow256_facts();
    lemma_le_round_trip(a.index as nat, 8);
    lemma_split(s, p, seq![a.level], le_bytes(a.index as nat, 8));
    assert(s.subrange(p, p + 1)[0] == s[p]);
}

proof fn lemma_enc_addresses_len(v: Seq<Address>)
    ensures
        enc_addresses(v).len() == 9 * v.len(),
    decreases v.len(),
{
    if v.len() > 0 {
        lemma_enc_addresses_len(v.drop_last());
        lemma_pow256_facts();
        lemma_le_round_trip(v.last().index as nat, 8);
    }
}

proof fn lemma_enc_pairs_len(v: Seq<(Address, Seq<u8>)>)
    requires
        forall|i: int| 0 <= i < v.len() ==> hash_valid(#[trigger] v[i].1),
    ensures
        enc_pairs(v).len() == 41 * v.len(),
    decreases v.len(),
{
    if v.len() > 0 {
        let init = v.drop_last();
        assert forall|i: int| 0 <= i < init.len() implies hash_valid(#[trigger] init[i].1) by {
            assert(init[i] == v[i]);
        }
        assert(hash_valid(v[v.len() - 1].1));
        lemma_enc_pairs_len(init);
        lemma_pow256_facts();
        lemma_le_round_trip(v.last().0.index as nat, 8);
    }
}

/// Addresses written in a row read back as themselves.
proof fn lemma_addresses_round_trip(s: Seq<u8>, p: int, v: Seq<Address>)
    requires
        forall|i: int| 0 <= i < v.len() ==> #[trigger] v[i].index <= usize::MAX,
        0 <= p,
        p + 9 * v.len() <= s.len(),
        s.subrange(p, p + 9 * v.len()) == enc_addresses(v),
    ensures
        enc_addresses(v).len() == 9 * v.len(),
        parse_addresses(s, p, v.len()) == Parsed::Ok((v, p + 9 * v.len())),
    decreases v.len(),
{
    lemma_pow256_facts();
    lemma_enc_addresses_len(v);
    if v.len() > 0 {
        let init = v.drop_last();
        lemma_enc_addresses_len(init);
        lemma_le_round_trip(v.last().index as nat, 8);
        assert(enc_address(v.last()).len() == 9);
        lemma_split(s, p, enc_addresses(init), enc_address(v.last()));
        assert forall|i: int| 0 <= i < init.len() implies #[trigger] init[i].index <= usize::MAX by {
            assert(init[i] == v[i]);
        }
        assert(v[v.len() - 1].index <= usize::MAX);
        lemma_addresses_round_trip(s, p, init);
        lemma_address_round_trip(s, p + 9 * init.len(), v.last());
        assert(init.push(v.last()) =~= v);
    } else {
        assert(v =~= Seq::<Address>::empty());
    }
}

/// Valid pairs written in a row read back as themselves.
proof fn lemma_pairs_round_trip(s: Seq<u8>, p: int, v: Seq<(Address, Seq<u8>)>)
    requires
        forall|i: int| 0 <= i < v.len() ==> #[trigger] v[i].0.index <= usize::MAX,
        0 <= p,
        forall|i: int| 0 <= i < v.len() ==> hash_valid(#[trigger] v[i].1),
        p + 41 * v.len() <= s.len(),
        s.subrange(p, p + 41 * v.len()) == enc_pairs(v),
    ensures
        enc_pairs(v).len() == 41 * v.len(),
        parse_pairs(s, p, v.len()) == Parsed::Ok((v, p + 41 * v.len())),
    decreases v.len(),
{
    lemma_pow256_facts();
    if v.len() > 0 {
        let init = v.drop_last();
        let x = v.last();
        assert(hash_valid(v[v.len() - 1].1));
        lemma_le_round_trip(x.0.index as nat, 8);
        assert forall|i: int| 0 <= i < init.len() implies hash_valid(#[trigger] init[i].1) by {
            assert(init[i] == v[i]);
        }
        assert forall|i: int| 0 <= i < init.len() implies #[trigger] init[i].0.index
            <= usize::MAX by {
            assert(init[i] == v[i]);
        }
        assert(v[v.len() - 1].0.index <= usize::MAX);
        let q = p + 41 * init.len();
        lemma_enc_pairs_len(v);
        lemma_enc_pairs_len(init);
        lemma_split(s, p, enc_pairs(init) + enc_address(x.0), x.1);
        lemma_split(s, p, enc_pairs(init), enc_address(x.0));
        lemma_pairs_round_trip(s, p, init);
        lemma_address_round_trip(s, q, x.0);
        assert(parse_hash(s, q + 9) == Parsed::Ok((x.1, q + 41)));
        assert(init.push(x) =~= v);
    } else {
        assert(v =~= Seq::<(Address, Seq<u8>)>::empty());
    }
}

/// Whether a bridge's parts can be written and read back: its nodes are
/// valid and each collection fits a compact size.
pub open spec fn bridge_parts_valid(
    prior_position: Option<u64>,
    tracking: Seq<Address>,
    ommers: Seq<(Address, Seq<u8>)>,
    frontier: FrontierModel,
) -> bool {
    &&& frontier_valid(frontier)
    &&& prior_position matches Some(v) ==> v <= usize::MAX
    &&& forall|i: int| 0 <= i < tracking.len() ==> #[trigger] tracking[i].index <= usize::MAX
    &&& forall|i: int| 0 <= i < ommers.len() ==> #[trigger] ommers[i].0.index <= usize::MAX
    &&& forall|i: int| 0 <= i < ommers.len() ==> hash_valid(#[trigger] ommers[i].1)
    &&& tracking.len() <= MAX_COMPACT_SIZE
    &&& ommers.len() <= MAX_COMPACT_SIZE
}

/// A bridge body written at offset `p` reads back as the bridge that its
/// parts describe.
proof fn lemma_bridge_v2_round_trip_at(
    s: Seq<u8>,
    p: int,
    prior_position: Option<u64>,
    tracking: Seq<Address>,
    ommers: Seq<(Address, Seq<u8>)>,
    frontier: FrontierModel,
)
    requires
        bridge_parts_valid(prior_position, tracking, ommers, frontier),
        0 <= p,
        p + enc_bridge_v2(prior_position, tracking, ommers, frontier).len() <= s.len(),
        s.subrange(p, p + enc_bridge_v2(prior_position, tracking, ommers, frontier).len())
            == enc_bridge_v2(prior_position, tracking, ommers, frontier),
    ensures
        parse_bridge_v2(s, p) == Parsed::Ok(
            (
                BridgeModel {
                    prior_position,
                    tracking: tracking.to_set(),
                    ommers: pairs_to_map(ommers),
                    frontier,
                },
                p + enc_bridge_v2(prior_position, tracking, ommers, frontier).len(),
            ),
        ),
{
    lemma_pow256_facts();
    lemma_enc_addresses_len(tracking);
    lemma_enc_pairs_len(ommers);
    let e0 = enc_opt_position(prior_position);
    let e1 = compact_size_bytes(tracking.len());
    let e2 = enc_addresses(tracking);
    let e3 = compact_size_bytes(ommers.len());
    let e4 = enc_pairs(ommers);
    let e5 = enc_frontier(frontier);
    lemma_split(s, p, e0 + e1 + e2 + e3 + e4, e5);
    lemma_split(s, p, e0 + e1 + e2 + e3, e4);
    lemma_split(s, p, e0 + e1 + e2, e3);
    lemma_split(s, p, e0 + e1, e2);
    lemma_split(s, p, e0, e1);
    let p1 = p + e0.len();
    match prior_position {
        None => {
            assert(s.subrange(p, p + 1)[0] == s[p]);
        },
        Some(v) => {
            lemma_le_round_trip(v as nat, 8);
            lemma_split(s, p, seq![1u8], le_bytes(v as nat, 8));
            assert(s.subrange(p, p + 1)[0] == s[p]);
        },
    }
    assert(parse_opt_position(s, p) == Parsed::Ok((prior_position, p1)));
    lemma_compact_size_round_trip(s, p1, tracking.len());
    let p2 = p1 + e1.len();
    lemma_addresses_round_trip(s, p2, tracking);
    let p3 = p2 + e2.len();
    lemma_compact_size_round_trip(s, p3, ommers.len());
    let p4 = p3 + e3.len();
    lemma_pairs_round_trip(s, p4, ommers);
    let p5 = p4 + e4.len();
    lemma_frontier_round_trip_at(s, p5, frontier);
}

/// A legacy auth fragment: the position it tracks, how many levels it had
/// observed, and the sibling values seen so far.
pub type Fragment = (u64, nat, Seq<Seq<u8>>);

/// A legacy fragment record: the position again, then the auth fragment's
/// own position, the observed level count and the values. The two positions
/// must agree.
pub open spec fn parse_fragment(s: Seq<u8>, p: int) -> Parsed<Fragment> {
    match parse_position(s, p) {
        Err(e) => Err(e),
        Ok((outer, p1)) => match parse_position(s, p1) {
            Err(e) => Err(e),
            Ok((inner, p2)) => match parse_le(s, p2, 8) {
                None => Err(DecodeError::UnexpectedEnd),
                Some((k, p3)) => if k > usize::MAX {
                    Err(DecodeError::OutOfRange(k as u64))
                } else {
                    match crate::frontier_codec::parse_hash_vec(s, p3) {
                        Err(e) => Err(e),
                        Ok((values, p4)) => if outer == inner {
                            Ok(((inner, k, values), p4))
                        } else {
                            Err(DecodeError::FragmentPositionMismatch { outer, inner })
                        },
                    }
                },
            },
        },
    }
}

/// `n` fragment records in a row.
pub open spec fn parse_fragments(s: Seq<u8>, p: int, n: nat) -> Parsed<Seq<Fragment>>
    decreases n,
{
    if n == 0 {
        Ok((Seq::empty(), p))
    } else {
        match parse_fragments(s, p, (n - 1) as nat) {
            Ok((v, q)) => match parse_fragment(s, q) {
                Ok((x, r)) => Ok((v.push(x), r)),
                Err(e) => Err(e),
            },
            Err(e) => Err(e),
        }
    }
}

/// Whether the node above `pos` at level `l` is not yet complete: its bit is
/// unset, or the position is the first.
pub open spec fn level_open(pos: u64, l: nat) -> bool {
    pos == 0 || (pos >> (l as u64)) & 1 == 0
}

/// The open levels below `l`, lowest first.
pub open spec fn levels_below(pos: u64, l: nat) -> Seq<u8>
    decreases l,
{
    if l == 0 {
        Seq::empty()
    } else {
        let prev = levels_below(pos, (l - 1) as nat);
        if level_open(pos, (l - 1) as nat) {
            prev.push((l - 1) as u8)
        } else {
            prev
        }
    }
}

/// The levels, lowest first, at which a leaf at `pos` still lacks a right
/// sibling subtree.
pub open spec fn levels_required(pos: u64) -> Seq<u8> {
    levels_below(pos, 64)
}

/// The levels that a fragment with `k` observed levels has information for:
/// the first `k + 1` required levels, or all where there are fewer.
pub open spec fn fragment_levels(pos: u64, k: nat) -> Seq<u8> {
    let all = levels_required(pos);
    if k + 1 <= all.len() {
        all.take((k + 1) as int)
    } else {
        all
    }
}

/// The ommers that a fragment records: below its tracked level, from the
/// highest level down, the sibling of the node above `pos` at that level,
/// paired with the values taken from the last one back.
pub open spec fn fragment_ommers(pos: u64, levels: Seq<u8>, values: Seq<Seq<u8>>) -> Seq<
    (Address, Seq<u8>),
> {
    let m = levels.len() - 1;
    let c = if m <= values.len() { m } else { values.len() as int };
    Seq::new(
        c as nat,
        |j: int|
            (
                crate::tree::sibling(crate::tree::above_position(levels[m - 1 - j], pos)),
                values[values.len() - 1 - j],
            ),
    )
}

/// The tracked set and ommer map rebuilt from legacy fragments, in order;
/// an ommer address already known keeps its value, and a fragment with no
/// level to track is refused.
pub open spec fn reconstruct(frags: Seq<Fragment>) -> Result<
    (Set<Address>, Map<Address, Seq<u8>>),
    DecodeError,
>
    decreases frags.len(),
{
    if frags.len() == 0 {
        Ok((Set::empty(), Map::empty()))
    } else {
        match reconstruct(frags.drop_last()) {
            Err(e) => Err(e),
            Ok((t, o)) => {
                let (pos, k, values) = frags.last();
                let lv = fragment_levels(pos, k);
                if lv.len() == 0 {
                    Err(DecodeError::UntrackableFragment(pos))
                } else {
                    Ok(
                        (
                            t.insert(crate::tree::above_position(lv.last(), pos)),
                            map_with_new_pairs(o, fragment_ommers(pos, lv, values)),
                        ),
                    )
                }
            },
        }
    }
}

/// Adding new pairs keeps every entry already in the map.
proof fn lemma_new_pairs_keep(m: Map<Address, Seq<u8>>, s: Seq<(Address, Seq<u8>)>)
    ensures
        m.submap_of(map_with_new_pairs(m, s)),
    decreases s.len(),
{
    if s.len() > 0 {
        lemma_new_pairs_keep(m, s.drop_last());
    }
}

/// Rebuilding from legacy fragments only ever adds: where the whole run of
/// fragments rebuilds, every prefix of it rebuilds too, to a tracked set
/// inside the whole's and an ommer map whose every entry the whole's holds
/// with the same value.
pub proof fn lemma_reconstruct_monotone(fs: Seq<Fragment>, k: nat)
    requires
        k <= fs.len(),
        reconstruct(fs) is Ok,
    ensures
        reconstruct(fs.take(k as int)) matches Ok((t, o)) && reconstruct(fs) matches Ok((
            t2,
            o2,
        )) && t.subset_of(t2) && o.submap_of(o2),
    decreases fs.len() - k,
{
    if k == fs.len() {
        assert(fs.take(k as int) =~= fs);
        if let Ok((t, o)) = reconstruct(fs) {
            assert(t.subset_of(t));
            assert(o.submap_of(o));
        }
    } else {
        let d = fs.drop_last();
        assert(reconstruct(d) is Ok);
        assert(d.take(k as int) =~= fs.take(k as int));
        lemma_reconstruct_monotone(d, k);
        let (pos, lvl, values) = fs.last();
        let lv = fragment_levels(pos, lvl);
        if let Ok((t1, o1)) = reconstruct(d) {
            lemma_new_pairs_keep(o1, fragment_ommers(pos, lv, values));
            if let Ok((t0, o0)) = reconstruct(fs.take(k as int)) {
                if let Ok((t2, o2)) = reconstruct(fs) {
                    assert(t1.subset_of(t2));
                    assert(o1.submap_of(o2));
                    assert(t0.subset_of(t2));
                    assert forall|x: Address| #[trigger] o0.contains_key(x) implies o2.contains_key(x)
                        && o0[x] == o2[x] by {
                        assert(o1.contains_key(x));
                    }
                }
            }
        }
    }
}

/// The body of a legacy bridge: the prior position, the fragment records,
/// then the frontier, with tracking and ommers rebuilt from the fragments.
pub open spec fn parse_bridge_v1(s: Seq<u8>, p: int) -> Parsed<BridgeModel> {
    match parse_opt_position(s, p) {
        Err(e) => Err(e),
        Ok((prior_position, p1)) => match parse_compact_size(s, p1) {
            None => Err(DecodeError::InvalidCompactSize),
            Some((n, p2)) => match parse_fragments(s, p2, n as nat) {
                Err(e) => Err(e),
                Ok((frags, p3)) => match parse_frontier(s, p3) {
                    Err(e) => Err(e),
                    Ok((frontier, p4)) => match reconstruct(frags) {
                        Err(e) => Err(e),
                        Ok((tracking, ommers)) => Ok(
                            (BridgeModel { prior_position, tracking, ommers, frontier }, p4),
                        ),
                    },
                },
            },
        },
    }
}

/// A bridge behind its version tag: 1 for the legacy layout, 2 for the
/// current one.
pub open spec fn parse_bridge(s: Seq<u8>, p: int) -> Parsed<BridgeModel> {
    if 0 <= p < s.len() {
        if s[p] == SER_V1 {
            parse_bridge_v1(s, p + 1)
        } else if s[p] == SER_V2 {
            parse_bridge_v2(s, p + 1)
        } else {
            Err(DecodeError::UnrecognizedVersion(s[p]))
        }
    } else {
        Err(DecodeError::UnexpectedEnd)
    }
}

/// The version tag alone picks the layout: 1 the legacy one, 2 the current
/// one, and any other tag is refused as unrecognized.
pub proof fn lemma_version_dispatch(s: Seq<u8>)
    requires
        s.len() > 0,
    ensures
        s[0] == 1 ==> parse_bridge(s, 0) == parse_bridge_v1(s, 1),
        s[0] == 2 ==> parse_bridge(s, 0) == parse_bridge_v2(s, 1),
        s[0] != 1 && s[0] != 2 ==> parse_bridge(s, 0) == Parsed::<BridgeModel>::Err(
            DecodeError::UnrecognizedVersion(s[0]),
        ),
{
}

/// The encoding of a bridge: the current version tag and body.
pub open spec fn enc_bridge(
    prior_position: Option<u64>,
    tracking: Seq<Address>,
    ommers: Seq<(Address, Seq<u8>)>,
    frontier: FrontierModel,
) -> Seq<u8> {
    seq![SER_V2] + enc_bridge_v2(prior_position, tracking, ommers, frontier)
}

/// Writing a well-formed bridge and reading it back gives the same bridge:
/// the same prior position, tracked set, ommer map and frontier. Its
/// positions and indices must fit a `usize` here and each collection a
/// compact size.
pub proof fn lemma_bridge_round_trip(b: MerkleBridge)
    requires
        b.wf(),
        b@.prior_position matches Some(v) ==> v <= usize::MAX,
        b@.frontier.position <= usize::MAX,
        forall|i: int| 0 <= i < b.tracking_seq().len() ==> #[trigger] b.tracking_seq()[i].index
            <= usize::MAX,
        forall|i: int| 0 <= i < b.ommer_seq().len() ==> #[trigger] b.ommer_seq()[i].0.index
            <= usize::MAX,
        b.tracking_seq().len() <= MAX_COMPACT_SIZE,
        b.ommer_seq().len() <= MAX_COMPACT_SIZE,
    ensures
        parse_bridge(
            enc_bridge(b@.prior_position, b.tracking_seq(), b.ommer_seq(), b@.frontier),
            0,
        ) == Parsed::Ok(
            (
                b@,
                enc_bridge(b@.prior_position, b.tracking_seq(), b.ommer_seq(), b@.frontier).len()
                    as int,
            ),
        ),
{
    b.lemma_view();
    assert(bridge_parts_valid(b@.prior_position, b.tracking_seq(), b.ommer_seq(), b@.frontier));
    let body = enc_bridge_v2(b@.prior_position, b.tracking_seq(), b.ommer_seq(), b@.frontier);
    let e = seq![SER_V2] + body;
    assert(e.subrange(1, (1 + body.len()) as int) =~= body);
    lemma_bridge_v2_round_trip_at(
        e,
        1,
        b@.prior_position,
        b.tracking_seq(),
        b.ommer_seq(),
        b@.frontier,
    );
}

/// The fragment that a record read here stands for.
pub open spec fn fragment_view(x: (u64, usize, Vec<OrchardHash>)) -> Fragment {
    (x.0, x.1 as nat, crate::frontier_codec::hash_views(x.2@))
}

/// Reads a legacy fragment record.
pub fn read_auth_fragment_v1(buf: &[u8], pos: usize) -> (r: Result<
    ((u64, usize, Vec<OrchardHash>), usize),
    DecodeError,
>)
    ensures
        match r {
            Ok((x, q)) => parse_fragment(buf@, pos as int) == Parsed::Ok(
                (fragment_view(x), q as int),
            ),
            Err(e) => parse_fragment(buf@, pos as int) == Parsed::<Fragment>::Err(e),
        },
{
    let (outer, p1) = read_position(buf, pos)?;
    let (inner, p2) = read_position(buf, p1)?;
    let (k, p3) = read_leu64_usize(buf, p2)?;
    let (values, p4) = crate::frontier_codec::read_hash_vec(buf, p3)?;
    if outer == inner {
        Ok(((inner, k, values), p4))
    } else {
        Err(DecodeError::FragmentPositionMismatch { outer, inner })
    }
}

/// Once reading a run of fragments fails, reading a longer run fails the
/// same way.
proof fn lemma_parse_fragments_err(s: Seq<u8>, p: int, k: nat, m: nat)
    requires
        k <= m,
        parse_fragments(s, p, k) is Err,
    ensures
        parse_fragments(s, p, m) == parse_fragments(s, p, k),
    decreases m - k,
{
    if k < m {
        lemma_parse_fragments_err(s, p, k, (m - 1) as nat);
    }
}

/// The views of a run of fragment records.
pub open spec fn fragment_views(v: Seq<(u64, usize, Vec<OrchardHash>)>) -> Seq<Fragment> {
    v.map_values(|x: (u64, usize, Vec<OrchardHash>)| fragment_view(x))
}

/// Reads `n` fragment records.
fn read_fragments(buf: &[u8], pos: usize, n: u64) -> (r: Result<
    (Vec<(u64, usize, Vec<OrchardHash>)>, usize),
    DecodeError,
>)
    ensures
        match r {
            Ok((v, q)) => parse_fragments(buf@, pos as int, n as nat) == Parsed::Ok(
                (fragment_views(v@), q as int),
            ),
            Err(e) => parse_fragments(buf@, pos as int, n as nat) == Parsed::<
                Seq<Fragment>,
            >::Err(e),
        },
{
    let mut v: Vec<(u64, usize, Vec<OrchardHash>)> = Vec::new();
    let mut q: usize = pos;
    let mut i: u64 = 0;
    assert(fragment_views(v@) =~= Seq::<Fragment>::empty());
    while i < n
        invariant
            i <= n,
            parse_fragments(buf@, pos as int, i as nat) == Parsed::Ok(
                (fragment_views(v@), q as int),
            ),
        decreases n - i,
    {
        let (x, q2) = match read_auth_fragment_v1(buf, q) {
            Ok(y) => y,
            Err(e) => {
                proof {
                    lemma_parse_fragments_err(buf@, pos as int, (i + 1) as nat, n as nat);
                }
                return Err(e);
            },
        };
        let ghost before = fragment_views(v@);
        let ghost xv = fragment_view(x);
        v.push(x);
        assert(fragment_views(v@) =~= before.push(xv));
        q = q2;
        i = i + 1;
    }
    Ok((v, q))
}

/// Every open level below `l` is below `l`.
proof fn lemma_levels_below_bound(pos: u64, l: nat)
    ensures
        levels_below(pos, l).len() <= l,
        forall|i: int| 0 <= i < levels_below(pos, l).len() ==> #[trigger] levels_below(pos, l)[i]
            < l,
    decreases l,
{
    if l > 0 {
        lemma_levels_below_bound(pos, (l - 1) as nat);
    }
}

/// The open levels of a position, lowest first.
pub fn levels_required_exec(pos: u64) -> (r: Vec<u8>)
    ensures
        r@ == levels_required(pos),
        r@.len() <= 64,
        forall|i: int| 0 <= i < r@.len() ==> #[trigger] r@[i] < 64,
{
    let mut v: Vec<u8> = Vec::new();
    let mut l: u64 = 0;
    while l < 64
        invariant
            l <= 64,
            v@ == levels_below(pos, l as nat),
        decreases 64 - l,
    {
        if pos == 0 || (pos >> l) & 1 == 0 {
            v.push(l as u8);
        }
        l = l + 1;
    }
    proof {
        lemma_levels_below_bound(pos, 64);
    }
    v
}

/// Adds what one legacy fragment records to a bridge: the node it tracks,
/// and its ommers.
fn apply_fragment(b: &mut MerkleBridge, pos: u64, k: usize, values: &Vec<OrchardHash>) -> (r:
    Result<(), DecodeError>)
    requires
        old(b).wf(),
    ensures
        final(b).wf(),
        ({
            let lv = fragment_levels(pos, k as nat);
            match r {
                Ok(()) => lv.len() > 0 && final(b)@ == (BridgeModel {
                    tracking: old(b)@.tracking.insert(
                        crate::tree::above_position(lv.last(), pos),
                    ),
                    ommers: map_with_new_pairs(
                        old(b)@.ommers,
                        fragment_ommers(pos, lv, crate::frontier_codec::hash_views(values@)),
                    ),
                    ..old(b)@
                }),
                Err(e) => lv.len() == 0 && e == DecodeError::UntrackableFragment(pos),
            }
        }),
{
    let all = levels_required_exec(pos);
    let m: usize = if k < all.len() {
        k + 1
    } else {
        all.len()
    };
    let ghost lv = fragment_levels(pos, k as nat);
    assert(lv =~= all@.subrange(0, m as int));
    if m == 0 {
        return Err(DecodeError::UntrackableFragment(pos));
    }
    let top = all[m - 1];
    b.track(Address::above_position(top, pos));
    let ghost vals = crate::frontier_codec::hash_views(values@);
    let ghost fo = fragment_ommers(pos, lv, vals);
    let ghost mid = b@;
    let vn = values.len();
    let c: usize = if m - 1 <= vn {
        m - 1
    } else {
        vn
    };
    let mut j: usize = 0;
    assert(fo.subrange(0, 0) =~= Seq::<(Address, Seq<u8>)>::empty());
    while j < c
        invariant
            j <= c,
            c == fo.len(),
            c <= m - 1,
            c <= vn,
            vn == values@.len(),
            m <= all@.len(),
            lv == all@.subrange(0, m as int),
            forall|i: int| 0 <= i < all@.len() ==> #[trigger] all@[i] < 64,
            vals == crate::frontier_codec::hash_views(values@),
            fo == fragment_ommers(pos, lv, vals),
            b.wf(),
            b@ == (BridgeModel {
                ommers: map_with_new_pairs(mid.ommers, fo.subrange(0, j as int)),
                ..mid
            }),
        decreases c - j,
    {
        let lvl = all[m - 2 - j];
        let a = Address::above_position(lvl, pos).sibling();
        let h = values[vn - 1 - j].clone_node();
        b.insert_new_ommer(a, h);
        proof {
            let t = fo.subrange(0, j + 1);
            assert(t.drop_last() =~= fo.subrange(0, j as int));
            assert(t.last() == fo[j as int]);
            assert(fo[j as int] == (a, h@));
        }
        j = j + 1;
    }
    assert(fo.subrange(0, j as int) =~= fo);
    Ok(())
}

/// Once rebuilding from a prefix of the fragments fails, rebuilding from a
/// longer prefix fails the same way.
proof fn lemma_reconstruct_err(fs: Seq<Fragment>, k: nat, m: nat)
    requires
        k <= m <= fs.len(),
        reconstruct(fs.subrange(0, k as int)) is Err,
    ensures
        reconstruct(fs.subrange(0, m as int)) == reconstruct(fs.subrange(0, k as int)),
    decreases m - k,
{
    if k < m {
        lemma_reconstruct_err(fs, k, (m - 1) as nat);
        assert(fs.subrange(0, m as int).drop_last() =~= fs.subrange(0, m - 1));
    }
}

/// Reads the body of a legacy bridge and rebuilds its tracked set and ommer
/// map from the fragments.
pub fn read_bridge_v1(buf: &[u8], pos: usize) -> (r: Result<(MerkleBridge, usize), DecodeError>)
    ensures
        match r {
            Ok((b, q)) => b.wf() && parse_bridge_v1(buf@, pos as int) == Parsed::Ok((b@, q as int)),
            Err(e) => parse_bridge_v1(buf@, pos as int) == Parsed::<BridgeModel>::Err(e),
        },
{
    let (prior_position, p1) = read_opt_position(buf, pos)?;
    let (n, p2) = match read_compact_size(buf, p1) {
        Some(x) => x,
        None => return Err(DecodeError::InvalidCompactSize),
    };
    let (frags, p3) = read_fragments(buf, p2, n)?;
    let (frontier, p4) = read_nonempty_frontier_v1(buf, p3)?;
    let ghost fv = frontier@;
    let ghost fs = fragment_views(frags@);
    let ghost whole = parse_bridge_v1(buf@, pos as int) == match reconstruct(fs) {
        Err(e) => Parsed::<BridgeModel>::Err(e),
        Ok((t, o)) => Parsed::Ok(
            (
                BridgeModel { prior_position, tracking: t, ommers: o, frontier: fv },
                p4 as int,
            ),
        ),
    };
    assert(whole);
    let mut b = MerkleBridge::new(prior_position, frontier);
    let mut i: usize = 0;
    assert(fs.subrange(0, 0) =~= Seq::<Fragment>::empty());
    while i < frags.len()
        invariant
            whole,
            whole == (parse_bridge_v1(buf@, pos as int) == match reconstruct(fs) {
                Err(e) => Parsed::<BridgeModel>::Err(e),
                Ok((t, o)) => Parsed::Ok(
                    (
                        BridgeModel { prior_position, tracking: t, ommers: o, frontier: fv },
                        p4 as int,
                    ),
                ),
            }),
            i <= frags@.len(),
            fs == fragment_views(frags@),
            b.wf(),
            b@.prior_position == prior_position,
            b@.frontier == fv,
            reconstruct(fs.subrange(0, i as int)) == Ok::<
                (Set<Address>, Map<Address, Seq<u8>>),
                DecodeError,
            >((b@.tracking, b@.ommers)),
        decreases frags@.len() - i,
    {
        let ghost t = fs.subrange(0, i + 1);
        assert(t.drop_last() =~= fs.subrange(0, i as int));
        assert(t.last() == fs[i as int]);
        let (fpos, k, values) = (frags[i].0, frags[i].1, &frags[i].2);
        match apply_fragment(&mut b, fpos, k, values) {
            Ok(()) => {},
            Err(e) => {
                proof {
                    assert(fs[i as int] == fragment_view(frags@[i as int]));
                    assert(reconstruct(t) == Err::<
                        (Set<Address>, Map<Address, Seq<u8>>),
                        DecodeError,
                    >(e));
                    lemma_reconstruct_err(fs, (i + 1) as nat, fs.len());
                    assert(fs.subrange(0, fs.len() as int) =~= fs);
                    assert(reconstruct(fs) == Err::<
                        (Set<Address>, Map<Address, Seq<u8>>),
                        DecodeError,
                    >(e));
                }
                return Err(e);
            },
        }
        i = i + 1;
    }
    assert(fs.subrange(0, i as int) =~= fs);
    Ok((b, p4))
}

/// Reads a bridge behind its version tag.
pub fn read_bridge(buf: &[u8], pos: usize) -> (r: Result<(MerkleBridge, usize), DecodeError>)
    ensures
        match r {
            Ok((b, q)) => b.wf() && parse_bridge(buf@, pos as int) == Parsed::Ok((b@, q as int)),
            Err(e) => parse_bridge(buf@, pos as int) == Parsed::<BridgeModel>::Err(e),
        },
{
    if pos >= buf.len() {
        return Err(DecodeError::UnexpectedEnd);
    }
    let tag = buf[pos];
    if tag == SER_V1 {
        read_bridge_v1(buf, pos + 1)
    } else if tag == SER_V2 {
        read_bridge_v2(buf, pos + 1)
    } else {
        Err(DecodeError::UnrecognizedVersion(tag))
    }
}

/// Writes a bridge with the current version tag.
pub fn write_bridge(out: &mut Vec<u8>, bridge: &MerkleBridge)
    requires
        bridge.wf(),
    ensures
        final(out)@ == old(out)@ + enc_bridge(
            bridge@.prior_position,
            bridge.tracking_seq(),
            bridge.ommer_seq(),
            bridge@.frontier,
        ),
{
    out.push(SER_V2);
    write_bridge_v2(out, bridge);
    assert(out@ =~= old(out)@ + enc_bridge(
        bridge@.prior_position,
        bridge.tracking_seq(),
        bridge.ommer_seq(),
        bridge@.frontier,
    ));
}

} // verus!
