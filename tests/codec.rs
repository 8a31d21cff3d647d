use zcash_tree_codec::bridge::MerkleBridge;
use zcash_tree_codec::bridge_codec::{levels_required_exec, read_bridge, write_bridge};
use zcash_tree_codec::bytes::{read_compact_size, read_u64_le, write_u64_le};
use zcash_tree_codec::frontier_codec::{
    read_frontier_v0, read_frontier_v1, read_hash, read_leu64_usize, read_nonempty_frontier_v1, write_frontier_v1,
    write_hash, write_nonempty_frontier_v1, write_usize_leu64,
};
use zcash_tree_codec::tree::{Address, DecodeError, FrontierError, NonEmptyFrontier, OrchardHash};

fn node(v: u8) -> OrchardHash {
    let mut b = [0u8; 32];
    b[0] = v;
    b[1] = 0x5a;
    OrchardHash::from_bytes(&b).expect("small values are canonical")
}

fn frontier(position: u64, leaf: u8, ommers: &[u8]) -> NonEmptyFrontier {
    NonEmptyFrontier::from_parts(position, node(leaf), ommers.iter().map(|v| node(*v)).collect())
        .expect("ommer count fits the position")
}

fn same_frontier(a: &NonEmptyFrontier, b: &NonEmptyFrontier) -> bool {
    a.position() == b.position()
        && a.leaf().to_bytes() == b.leaf().to_bytes()
        && a.ommers().len() == b.ommers().len()
        && a.ommers().iter().zip(b.ommers().iter()).all(|(x, y)| x.to_bytes() == y.to_bytes())
}

fn sorted_tracking(b: &MerkleBridge) -> Vec<Address> {
    let mut v = b.tracking().clone();
    v.sort();
    v
}

fn sorted_ommers(b: &MerkleBridge) -> Vec<(Address, Vec<u8>)> {
    let mut v: Vec<(Address, Vec<u8>)> =
        b.ommers().iter().map(|(a, h)| (*a, h.to_bytes())).collect();
    v.sort();
    v
}

#[test]
fn u64_little_endian_round_trip() {
    let mut out = vec![];
    write_u64_le(&mut out, 0x0102_0304_0506_0708);
    assert_eq!(out, vec![8, 7, 6, 5, 4, 3, 2, 1]);
    assert_eq!(read_u64_le(&out, 0), Some((0x0102_0304_0506_0708, 8)));
    assert_eq!(read_u64_le(&out, 1), None);
}

#[test]
fn usize_as_leu64() {
    let mut out = vec![];
    write_usize_leu64(&mut out, 300);
    assert_eq!(out, vec![44, 1, 0, 0, 0, 0, 0, 0]);
    assert_eq!(read_leu64_usize(&out, 0), Ok((300, 8)));
    assert_eq!(read_leu64_usize(&out, 4), Err(DecodeError::UnexpectedEnd));
}

#[test]
fn compact_size_forms() {
    let cases: [(&[u8], u64); 6] = [
        (&[0], 0),
        (&[252], 252),
        (&[253, 253, 0], 253),
        (&[253, 0xff, 0xff], 0xffff),
        (&[254, 0, 0, 1, 0], 0x10000),
        (&[254, 0, 0, 0, 2], 0x0200_0000),
    ];
    for (bytes, n) in cases {
        assert_eq!(read_compact_size(bytes, 0), Some((n, bytes.len())));
    }
    // not the shortest form
    assert_eq!(read_compact_size(&[253, 10, 0], 0), None);
    // above the largest count
    assert_eq!(read_compact_size(&[254, 1, 0, 0, 2], 0), None);
    // cut short
    assert_eq!(read_compact_size(&[254, 1, 0], 0), None);
}

#[test]
fn length_prefix_written_before_ommers() {
    let f = frontier(7, 1, &[2, 3, 4]);
    let mut out = vec![];
    write_nonempty_frontier_v1(&mut out, &f);
    // position, sibling, flag, leaf, then a count of the two remaining ommers
    assert_eq!(out[73], 2);
    assert_eq!(out.len(), 74 + 64);
}

#[test]
fn canonical_hash_round_trip() {
    let h = node(7);
    let mut out = vec![];
    write_hash(&mut out, &h);
    assert_eq!(out.len(), 32);
    let (back, q) = read_hash(&out, 0).unwrap();
    assert_eq!(q, 32);
    assert_eq!(back.to_bytes(), h.to_bytes());
}

#[test]
fn non_canonical_hash_rejected() {
    let bytes = [0xffu8; 32];
    assert!(OrchardHash::from_bytes(&bytes).is_none());
    assert_eq!(read_hash(&bytes, 0).err(), Some(DecodeError::NonCanonicalHash));
    // the field modulus itself is not canonical
    let mut p = [0u8; 32];
    p[0] = 0x01;
    p[4] = 0xed;
    p[5] = 0x30;
    p[6] = 0x2d;
    p[7] = 0x99;
    p[8] = 0x1b;
    p[9] = 0xf9;
    p[10] = 0x4c;
    p[11] = 0x09;
    p[12] = 0xfc;
    p[13] = 0x98;
    p[14] = 0x46;
    p[15] = 0x22;
    p[31] = 0x40;
    assert_eq!(read_hash(&p, 0).err(), Some(DecodeError::NonCanonicalHash));
    p[0] = 0x00;
    assert!(read_hash(&p, 0).is_ok());
    assert_eq!(read_hash(&bytes[..31], 0).err(), Some(DecodeError::UnexpectedEnd));
}

#[test]
fn frontier_ommer_count_checked() {
    assert_eq!(
        NonEmptyFrontier::from_parts(5, node(1), vec![node(2)]).err(),
        Some(FrontierError::PositionMismatch { expected_ommers: 2 })
    );
    assert!(NonEmptyFrontier::from_parts(4, node(1), vec![node(2)]).is_ok());
}

#[test]
fn frontier_even_position_round_trip() {
    let f = frontier(4, 9, &[3]);
    let mut out = vec![];
    write_nonempty_frontier_v1(&mut out, &f);
    // position, leaf, absent flag, one ommer
    assert_eq!(out.len(), 8 + 32 + 1 + 1 + 32);
    assert_eq!(out[40], 0);
    assert_eq!(out[41], 1);
    let (g, q) = read_nonempty_frontier_v1(&out, 0).unwrap();
    assert_eq!(q, out.len());
    assert!(same_frontier(&f, &g));
}

#[test]
fn frontier_odd_position_parity_fix_up() {
    let f = frontier(5, 9, &[3, 4]);
    let mut out = vec![];
    write_nonempty_frontier_v1(&mut out, &f);
    // the sibling comes first, then the leaf behind a presence flag
    assert_eq!(&out[8..40], &node(3).to_bytes()[..]);
    assert_eq!(out[40], 1);
    assert_eq!(&out[41..73], &node(9).to_bytes()[..]);
    assert_eq!(out[73], 1);
    let (g, q) = read_nonempty_frontier_v1(&out, 0).unwrap();
    assert_eq!(q, out.len());
    assert!(same_frontier(&f, &g));
    assert_eq!(g.leaf().to_bytes(), node(9).to_bytes());
    assert_eq!(g.ommers()[0].to_bytes(), node(3).to_bytes());
}

#[test]
fn frontier_wrong_ommer_count_is_malformed() {
    let f = frontier(4, 9, &[3]);
    let mut out = vec![];
    write_nonempty_frontier_v1(&mut out, &f);
    // claim position 7, which needs three ommers
    out[0] = 7;
    assert_eq!(read_nonempty_frontier_v1(&out, 0).err(), Some(DecodeError::MalformedFrontier(7)));
}

#[test]
fn frontier_bad_flag_rejected() {
    let f = frontier(0, 9, &[]);
    let mut out = vec![];
    write_nonempty_frontier_v1(&mut out, &f);
    out[40] = 2;
    assert_eq!(read_nonempty_frontier_v1(&out, 0).err(), Some(DecodeError::InvalidOptionFlag(2)));
}

#[test]
fn optional_frontier_round_trip() {
    let mut out = vec![];
    write_frontier_v1(&mut out, &None);
    assert_eq!(out, vec![0]);
    assert!(matches!(read_frontier_v1(&out, 0, 32), Ok((None, 1))));

    let f = frontier(6, 1, &[2, 3]);
    let mut out = vec![];
    write_frontier_v1(&mut out, &Some(f.clone()));
    let (g, q) = read_frontier_v1(&out, 0, 32).unwrap();
    assert_eq!(q, out.len());
    assert!(same_frontier(&f, &g.unwrap()));
}

#[test]
fn optional_frontier_beyond_depth() {
    let f = frontier(1u64 << 32, 1, &[2]);
    let mut out = vec![];
    write_frontier_v1(&mut out, &Some(f));
    assert_eq!(read_frontier_v1(&out, 0, 32).err(), Some(DecodeError::MaxDepthExceeded(1u64 << 32)));
    assert!(read_frontier_v1(&out, 0, 33).is_ok());
    let g = frontier((1u64 << 32) - 1, 1, &[2u8; 32]);
    let mut out = vec![];
    write_frontier_v1(&mut out, &Some(g));
    assert!(read_frontier_v1(&out, 0, 32).is_ok());
    assert_eq!(read_frontier_v1(&out, 0, 31).err(), Some(DecodeError::MaxDepthExceeded((1u64 << 32) - 1)));
}

fn sample_bridge() -> MerkleBridge {
    let mut b = MerkleBridge::new(Some(3), frontier(6, 1, &[2, 3]));
    b.track(Address { level: 2, index: 1 });
    b.track(Address { level: 0, index: 6 });
    b.track(Address { level: 2, index: 1 });
    b.insert_ommer(Address { level: 0, index: 5 }, node(10));
    b.insert_ommer(Address { level: 1, index: 2 }, node(11));
    b.insert_ommer(Address { level: 0, index: 5 }, node(12));
    b
}

#[test]
fn bridge_collections_behave_as_set_and_map() {
    let b = sample_bridge();
    assert_eq!(b.tracking().len(), 2);
    assert_eq!(b.ommers().len(), 2);
    assert_eq!(
        sorted_ommers(&b),
        vec![
            (Address { level: 0, index: 5 }, node(12).to_bytes()),
            (Address { level: 1, index: 2 }, node(11).to_bytes()),
        ]
    );
}

#[test]
fn bridge_round_trip() {
    let b = sample_bridge();
    let mut out = vec![];
    write_bridge(&mut out, &b);
    assert_eq!(out[0], 2);
    let (b2, q) = read_bridge(&out, 0).unwrap();
    assert_eq!(q, out.len());
    assert_eq!(b2.prior_position(), Some(3));
    assert_eq!(sorted_tracking(&b), sorted_tracking(&b2));
    assert_eq!(sorted_ommers(&b), sorted_ommers(&b2));
    assert!(same_frontier(b.frontier(), b2.frontier()));
}

#[test]
fn bridge_version_dispatch() {
    let b = sample_bridge();
    let mut out = vec![];
    write_bridge(&mut out, &b);
    out[0] = 3;
    assert_eq!(read_bridge(&out, 0).err(), Some(DecodeError::UnrecognizedVersion(3)));
    out[0] = 0;
    assert_eq!(read_bridge(&out, 0).err(), Some(DecodeError::UnrecognizedVersion(0)));
    assert_eq!(read_bridge(&[], 0).err(), Some(DecodeError::UnexpectedEnd));
}

fn legacy_bridge(outer: u64, inner: u64, levels: u64, values: &[u8]) -> Vec<u8> {
    let mut out = vec![1u8];
    // prior position
    out.push(1);
    write_u64_le(&mut out, 0);
    // one fragment
    out.push(1);
    write_u64_le(&mut out, outer);
    write_u64_le(&mut out, inner);
    write_u64_le(&mut out, levels);
    out.push(values.len() as u8);
    for v in values {
        write_hash(&mut out, &node(*v));
    }
    write_nonempty_frontier_v1(&mut out, &frontier(5, 6, &[4, 7]));
    out
}

#[test]
fn legacy_bridge_reconstruction() {
    let out = legacy_bridge(0, 0, 2, &[1, 2]);
    let (b, q) = read_bridge(&out, 0).unwrap();
    assert_eq!(q, out.len());
    assert_eq!(b.prior_position(), Some(0));
    // levels 0, 1 and 2 are observed; level 2 is the one being built
    assert_eq!(sorted_tracking(&b), vec![Address { level: 2, index: 0 }]);
    // the last value is the sibling at level 1, the one before at level 0
    assert_eq!(
        sorted_ommers(&b),
        vec![
            (Address { level: 0, index: 1 }, node(1).to_bytes()),
            (Address { level: 1, index: 1 }, node(2).to_bytes()),
        ]
    );
    assert!(same_frontier(b.frontier(), &frontier(5, 6, &[4, 7])));
}

#[test]
fn legacy_bridge_skips_complete_levels() {
    // position 5 = 0b101: levels 0 and 2 are complete
    let out = legacy_bridge(5, 5, 1, &[9]);
    let (b, _) = read_bridge(&out, 0).unwrap();
    assert_eq!(sorted_tracking(&b), vec![Address { level: 3, index: 0 }]);
    assert_eq!(
        sorted_ommers(&b),
        vec![(Address { level: 1, index: 3 }, node(9).to_bytes())]
    );
}

#[test]
fn legacy_fragment_position_mismatch() {
    let out = legacy_bridge(0, 1, 0, &[]);
    assert_eq!(
        read_bridge(&out, 0).err(),
        Some(DecodeError::FragmentPositionMismatch { outer: 0, inner: 1 })
    );
}

#[test]
fn legacy_fragment_without_open_level() {
    let out = legacy_bridge(u64::MAX, u64::MAX, 0, &[]);
    assert_eq!(read_bridge(&out, 0).err(), Some(DecodeError::UntrackableFragment(u64::MAX)));
}

#[test]
fn levels_required_of_positions() {
    let all: Vec<u8> = (0u8..64).collect();
    assert_eq!(levels_required_exec(0), all);
    let five = levels_required_exec(5);
    assert_eq!(&five[..4], &[1, 3, 4, 5]);
    assert_eq!(five.len(), 62);
    assert!(levels_required_exec(u64::MAX).is_empty());
}

#[test]
fn legacy_fragments_keep_first_ommer_value() {
    let mut out = vec![1u8, 0u8];
    // two fragments at position 0, one observed level each
    out.push(2);
    for v in [1u8, 2u8] {
        write_u64_le(&mut out, 0);
        write_u64_le(&mut out, 0);
        write_u64_le(&mut out, 1);
        out.push(1);
        write_hash(&mut out, &node(v));
    }
    write_nonempty_frontier_v1(&mut out, &frontier(1, 6, &[4]));
    let (b, q) = read_bridge(&out, 0).unwrap();
    assert_eq!(q, out.len());
    assert_eq!(b.prior_position(), None);
    assert_eq!(sorted_tracking(&b), vec![Address { level: 1, index: 0 }]);
    assert_eq!(
        sorted_ommers(&b),
        vec![(Address { level: 0, index: 1 }, node(1).to_bytes())]
    );
}

#[test]
fn legacy_bridge_cut_short() {
    let mut out = legacy_bridge(0, 0, 0, &[]);
    out.truncate(30);
    assert_eq!(read_bridge(&out, 0).err(), Some(DecodeError::UnexpectedEnd));
}

fn legacy_tree(left: Option<u8>, right: Option<u8>, parents: &[Option<u8>]) -> Vec<u8> {
    let mut out = vec![];
    for slot in [left, right] {
        match slot {
            Some(v) => {
                out.push(1);
                write_hash(&mut out, &node(v));
            }
            None => out.push(0),
        }
    }
    out.push(parents.len() as u8);
    for p in parents {
        match p {
            Some(v) => {
                out.push(1);
                write_hash(&mut out, &node(*v));
            }
            None => out.push(0),
        }
    }
    out
}

#[test]
fn legacy_tree_to_frontier() {
    // two leaves and a filled parent at level 2: six leaves, the last at position 5
    let out = legacy_tree(Some(1), Some(2), &[None, Some(3)]);
    let (f, q) = read_frontier_v0(&out, 0).unwrap();
    assert_eq!(q, out.len());
    assert!(same_frontier(&f.unwrap(), &frontier(5, 2, &[1, 3])));

    let out = legacy_tree(Some(1), None, &[Some(4)]);
    let (f, _) = read_frontier_v0(&out, 0).unwrap();
    assert!(same_frontier(&f.unwrap(), &frontier(2, 1, &[4])));

    let out = legacy_tree(Some(1), None, &[]);
    let (f, _) = read_frontier_v0(&out, 0).unwrap();
    assert!(same_frontier(&f.unwrap(), &frontier(0, 1, &[])));
}

#[test]
fn legacy_tree_empty_and_malformed() {
    let out = legacy_tree(None, None, &[None]);
    assert!(matches!(read_frontier_v0(&out, 0), Ok((None, 4))));
    let out = legacy_tree(None, Some(2), &[]);
    assert_eq!(read_frontier_v0(&out, 0).err(), Some(DecodeError::MalformedLegacyTree));
    let out = legacy_tree(None, None, &[Some(3)]);
    assert_eq!(read_frontier_v0(&out, 0).err(), Some(DecodeError::MalformedLegacyTree));
    let out = legacy_tree(Some(1), None, &[None; 32]);
    assert_eq!(read_frontier_v0(&out, 0).err(), Some(DecodeError::MaxDepthExceeded(32)));
}
