use std::collections::hash_map::DefaultHasher;
use std::hash::{Hash, Hasher};

use bridgetree::BridgeTree;
use incrementalmerkletree::{Hashable, Level, Position};
use zcash_tree_codec::bridge::MerkleBridge;
use zcash_tree_codec::bridge_codec::{read_bridge, write_bridge};
use zcash_tree_codec::tree::{Address, NonEmptyFrontier, OrchardHash};

/// A tree node of eight bytes, combined through the standard hasher.
#[derive(Clone, Copy, Debug, PartialEq, Eq, PartialOrd, Ord, Hash)]
struct TestNode(u64);

impl Hashable for TestNode {
    fn empty_leaf() -> Self {
        TestNode(0)
    }

    fn combine(level: Level, a: &Self, b: &Self) -> Self {
        let mut hasher = DefaultHasher::new();
        level.hash(&mut hasher);
        a.hash(&mut hasher);
        b.hash(&mut hasher);
        TestNode(hasher.finish())
    }
}

/// The node's eight bytes, widened with zeros to a 32-byte node; a value
/// below 2^64 is always canonical.
fn widen_bytes(v: u64) -> Vec<u8> {
    let mut b = v.to_le_bytes().to_vec();
    b.resize(32, 0);
    b
}

fn widen(n: &TestNode) -> OrchardHash {
    OrchardHash::from_bytes(&widen_bytes(n.0)).expect("widened nodes are canonical")
}

fn addr(a: &incrementalmerkletree::Address) -> Address {
    Address { level: u8::from(a.level()), index: a.index() }
}

/// Rewrites a legacy bridge encoding with eight-byte nodes into the same
/// encoding with each node widened to 32 bytes.
fn widen_legacy(v: &[u8]) -> Vec<u8> {
    let mut i = 0usize;
    let mut out = vec![];
    let copy = |n: usize, i: &mut usize, out: &mut Vec<u8>| -> Vec<u8> {
        let s = v[*i..*i + n].to_vec();
        out.extend_from_slice(&s);
        *i += n;
        s
    };
    let node = |i: &mut usize, out: &mut Vec<u8>| {
        let mut b = [0u8; 8];
        b.copy_from_slice(&v[*i..*i + 8]);
        out.extend_from_slice(&widen_bytes(u64::from_le_bytes(b)));
        *i += 8;
    };
    assert_eq!(copy(1, &mut i, &mut out), vec![1]);
    if copy(1, &mut i, &mut out)[0] == 1 {
        copy(8, &mut i, &mut out);
    }
    let n = copy(1, &mut i, &mut out)[0];
    assert!(n < 253);
    for _ in 0..n {
        copy(24, &mut i, &mut out);
        let m = copy(1, &mut i, &mut out)[0];
        assert!(m < 253);
        for _ in 0..m {
            node(&mut i, &mut out);
        }
    }
    copy(8, &mut i, &mut out);
    node(&mut i, &mut out);
    if copy(1, &mut i, &mut out)[0] == 1 {
        node(&mut i, &mut out);
    }
    let k = copy(1, &mut i, &mut out)[0];
    for _ in 0..k {
        node(&mut i, &mut out);
    }
    assert_eq!(i, v.len());
    out
}

fn decode_hex(s: &str) -> Vec<u8> {
    (0..s.len())
        .step_by(2)
        .map(|i| u8::from_str_radix(&s[i..i + 2], 16).unwrap())
        .collect()
}

fn to_library(b: &bridgetree::MerkleBridge<TestNode>) -> MerkleBridge {
    let f = b.frontier();
    let frontier = NonEmptyFrontier::from_parts(
        u64::from(f.position()),
        widen(f.leaf()),
        f.ommers().iter().map(widen).collect(),
    )
    .expect("engine frontiers are well formed");
    let mut out = MerkleBridge::new(b.prior_position().map(u64::from), frontier);
    for a in b.tracking() {
        out.track(addr(a));
    }
    for (a, h) in b.ommers() {
        out.insert_ommer(addr(a), widen(h));
    }
    out
}

fn frontier_parts(f: &NonEmptyFrontier) -> (u64, Vec<u8>, Vec<Vec<u8>>) {
    (f.position(), f.leaf().to_bytes(), f.ommers().iter().map(|h| h.to_bytes()).collect())
}

fn check_same(b: &bridgetree::MerkleBridge<TestNode>, b0: &MerkleBridge) {
    assert_eq!(b.prior_position().map(u64::from), b0.prior_position());
    let mut tracking: Vec<Address> = b0.tracking().clone();
    tracking.sort();
    let expected: Vec<Address> = b.tracking().iter().map(addr).collect();
    assert_eq!(tracking, expected);
    let mut ommers: Vec<(Address, Vec<u8>)> =
        b0.ommers().iter().map(|(a, h)| (*a, h.to_bytes())).collect();
    ommers.sort();
    let expected: Vec<(Address, Vec<u8>)> =
        b.ommers().iter().map(|(a, h)| (addr(a), widen_bytes(h.0))).collect();
    assert_eq!(ommers, expected);
    let f = b.frontier();
    assert_eq!(
        frontier_parts(b0.frontier()),
        (
            u64::from(f.position()),
            widen_bytes(f.leaf().0),
            f.ommers().iter().map(|h| widen_bytes(h.0)).collect()
        )
    );
}

#[test]
fn test_bridge_roundtrip() {
    let mut t: BridgeTree<TestNode, usize, 8> = BridgeTree::new(10);
    let mut to_unwitness = vec![];
    let mut has_auth_path = vec![];
    for i in 0usize..100 {
        assert!(t.append(TestNode(i.try_into().unwrap())), "Append should succeed.");
        if i % 7 == 0 {
            t.mark();
            if i > 0 && i % 2 == 0 {
                to_unwitness.push(Position::from(i as u64));
            } else {
                has_auth_path.push(Position::from(i as u64));
            }
        }
        if i % 5 == 0 {
            t.checkpoint(i + 1);
        }
        if i % 11 == 0 && !to_unwitness.is_empty() {
            let pos = to_unwitness.remove(0);
            t.remove_mark(pos);
        }
    }

    for (i, b) in t.prior_bridges().iter().chain(t.current_bridge().iter()).enumerate() {
        let lib = to_library(b);
        check_same(b, &lib);
        let mut buffer = vec![];
        write_bridge(&mut buffer, &lib);
        let (b0, q) = read_bridge(&buffer, 0).unwrap();
        assert_eq!(q, buffer.len());
        check_same(b, &b0);

        let buffer2 = widen_legacy(&decode_hex(BRIDGE_V1_VECTORS[i]));
        let (b2, q2) = read_bridge(&buffer2, 0).unwrap();
        assert_eq!(q2, buffer2.len());
        assert_eq!(b0.prior_position(), b2.prior_position());
        assert_eq!(frontier_parts(b0.frontier()), frontier_parts(b2.frontier()));
        // Garbage collection changed between the two generations of bridges: a bridge
        // of the current generation may still track what a legacy one had let go, so
        // the legacy tracking set is only contained in the current one.
        for a in b2.tracking() {
            assert!(b0.tracking().contains(a));
        }
        for (k, v) in b2.ommers() {
            let found = b0.ommers().iter().find(|(a, _)| a == k).map(|(_, h)| h.to_bytes());
            assert_eq!(found, Some(v.to_bytes()));
        }
    }

    for (pos, witness) in BRIDGE_V1_WITNESSES {
        let path = t.witness(Position::from(*pos as u64), 0).unwrap();
        assert_eq!(witness.to_vec(), path);
    }
}

const BRIDGE_V1_VECTORS: &[&str] = &[
    "010000000000000000000000000000000000000000",
    "01010000000000000000010000000000000000000000000000000002000000000000000201000000000000000cf29c71c9b7c4a50500000000000000040000000000000001050000000000000001545227c621102b3a",
    "010105000000000000000100000000000000000000000000000000030000000000000001948e8c8cb96eed280700000000000000060000000000000001070000000000000002bae878935340beb7545227c621102b3a",
    "010107000000000000000200000000000000000000000000000000030000000000000000070000000000000007000000000000000000000000000000000a000000000000000a000000000000000002157a46a02f6b8e34c730d7a51e3a8378",
    "01010a000000000000000200000000000000000000000000000000030000000000000000070000000000000007000000000000000000000000000000000e000000000000000e000000000000000003779388f05d9525bb33fac4dcb323ec8bc730d7a51e3a8378",
    "01010e000000000000000300000000000000000000000000000000040000000000000001c49580ae5e5e758307000000000000000700000000000000010000000000000001c49580ae5e5e75830e000000000000000e000000000000000100000000000000010f000000000000000f000000000000000e00000000000000010f0000000000000003779388f05d9525bb33fac4dcb323ec8bc730d7a51e3a8378",
    "01010f000000000000000300000000000000000000000000000000040000000000000000070000000000000007000000000000000100000000000000000e000000000000000e0000000000000001000000000000000014000000000000001400000000000000000281be7679141b8edda519e57e99af06e2",
    "010114000000000000000300000000000000000000000000000000040000000000000000070000000000000007000000000000000100000000000000000e000000000000000e00000000000000010000000000000000150000000000000014000000000000000115000000000000000281be7679141b8edda519e57e99af06e2",
    "0101150000000000000003000000000000000000000000000000000400000000000000000700000000000000070000000000000001000000000000000015000000000000001500000000000000010000000000000001fdf772cabf2d5b20190000000000000018000000000000000119000000000000000244365e47c1afcfa1a519e57e99af06e2",
    "01011900000000000000030000000000000000000000000000000004000000000000000007000000000000000700000000000000010000000000000000150000000000000015000000000000000100000000000000001c000000000000001c000000000000000003174b903560b67a6744365e47c1afcfa1a519e57e99af06e2",
    "01011c00000000000000040000000000000000000000000000000004000000000000000007000000000000000700000000000000010000000000000000150000000000000015000000000000000100000000000000001c000000000000001c000000000000000100000000000000011d000000000000001e000000000000001e000000000000000004cfe7a4133f88607d174b903560b67a6744365e47c1afcfa1a519e57e99af06e2",
    "01011e00000000000000030000000000000000000000000000000005000000000000000175938fb118b4555d0700000000000000070000000000000002000000000000000175938fb118b4555d15000000000000001500000000000000020000000000000001c050bf17c144495d2300000000000000220000000000000001230000000000000002f22dbb4a83f3b28318bd1c4cf1fd912e",
    "0101230000000000000004000000000000000000000000000000000500000000000000000700000000000000070000000000000002000000000000000015000000000000001500000000000000020000000000000000230000000000000023000000000000000100000000000000017cf828deead5aa3d280000000000000028000000000000000002e28c91f60fbf69d518bd1c4cf1fd912e",
    "0101280000000000000004000000000000000000000000000000000500000000000000000700000000000000070000000000000002000000000000000015000000000000001500000000000000020000000000000000230000000000000023000000000000000100000000000000002a000000000000002a000000000000000003e16610644840a918e28c91f60fbf69d518bd1c4cf1fd912e",
    "01012a0000000000000004000000000000000000000000000000000500000000000000000700000000000000070000000000000002000000000000000015000000000000001500000000000000020000000000000000230000000000000023000000000000000100000000000000002d000000000000002c00000000000000012d0000000000000003afd0751401aff593e28c91f60fbf69d518bd1c4cf1fd912e",
    "01012d000000000000000400000000000000000000000000000000050000000000000000070000000000000007000000000000000200000000000000001500000000000000150000000000000002000000000000000023000000000000002300000000000000020000000000000001dd486e048f1e6c2131000000000000003000000000000000013100000000000000029f16b2397db7491d18bd1c4cf1fd912e",
    "0101310000000000000005000000000000000000000000000000000500000000000000000700000000000000070000000000000002000000000000000015000000000000001500000000000000020000000000000000230000000000000023000000000000000200000000000000003100000000000000310000000000000000000000000000000032000000000000003200000000000000000356370c5489a364b29f16b2397db7491d18bd1c4cf1fd912e",
    "010132000000000000000500000000000000000000000000000000050000000000000000070000000000000007000000000000000200000000000000001500000000000000150000000000000002000000000000000023000000000000002300000000000000020000000000000000310000000000000031000000000000000200000000000000024f6ce1b1025daa00c2db272cc44c77c6370000000000000036000000000000000137000000000000000491c03add43411617ff8c00dfd0bc84289f16b2397db7491d18bd1c4cf1fd912e",
    "0101370000000000000005000000000000000000000000000000000500000000000000000700000000000000070000000000000002000000000000000015000000000000001500000000000000020000000000000000230000000000000023000000000000000200000000000000003100000000000000310000000000000002000000000000000038000000000000003800000000000000000335cff7ed860ba07e9f16b2397db7491d18bd1c4cf1fd912e",
    "010138000000000000000600000000000000000000000000000000050000000000000000070000000000000007000000000000000200000000000000001500000000000000150000000000000002000000000000000023000000000000002300000000000000020000000000000000310000000000000031000000000000000200000000000000003800000000000000380000000000000002000000000000000239000000000000001f6951d61f683ea73c000000000000003c0000000000000000047cfc0f73b07bd1ef35cff7ed860ba07e9f16b2397db7491d18bd1c4cf1fd912e",
    "01013c000000000000000600000000000000000000000000000000060000000000000001f788446318d5f99907000000000000000700000000000000030000000000000001f788446318d5f99915000000000000001500000000000000030000000000000001f788446318d5f99923000000000000002300000000000000030000000000000001fb8290b35ee7b7dd31000000000000003100000000000000030000000000000001ea30e73bc03ac3c638000000000000003800000000000000030000000000000001852e67bafeb639803f000000000000003e00000000000000013f00000000000000050a984f21271cd02d7cfc0f73b07bd1ef35cff7ed860ba07e9f16b2397db7491d18bd1c4cf1fd912e",
    "01013f00000000000000070000000000000000000000000000000006000000000000000007000000000000000700000000000000030000000000000000150000000000000015000000000000000300000000000000002300000000000000230000000000000003000000000000000031000000000000003100000000000000030000000000000000380000000000000038000000000000000300000000000000003f000000000000003f000000000000000000000000000000004100000000000000400000000000000001410000000000000001af35cc5f4335f3a7",
    "010141000000000000000600000000000000000000000000000000060000000000000000070000000000000007000000000000000300000000000000001500000000000000150000000000000003000000000000000023000000000000002300000000000000030000000000000000310000000000000031000000000000000300000000000000003f000000000000003f0000000000000000000000000000000046000000000000004600000000000000000331fc52e580f35e5348d31a06aa5a4470af35cc5f4335f3a7",
    "010146000000000000000700000000000000000000000000000000060000000000000000070000000000000007000000000000000300000000000000001500000000000000150000000000000003000000000000000023000000000000002300000000000000030000000000000000310000000000000031000000000000000300000000000000003f000000000000003f000000000000000000000000000000004600000000000000460000000000000001000000000000000147000000000000004b000000000000004a00000000000000014b0000000000000003fe1c911e7cebb841b8b5aeae9a67d003af35cc5f4335f3a7",
    "01014b000000000000000700000000000000000000000000000000060000000000000000070000000000000007000000000000000300000000000000001500000000000000150000000000000003000000000000000023000000000000002300000000000000030000000000000000310000000000000031000000000000000300000000000000003f000000000000003f00000000000000000000000000000000460000000000000046000000000000000100000000000000004d000000000000004c00000000000000014d000000000000000347a60f231e2896ceb8b5aeae9a67d003af35cc5f4335f3a7",
    "01014d000000000000000700000000000000000000000000000000060000000000000000070000000000000007000000000000000300000000000000001500000000000000150000000000000003000000000000000023000000000000002300000000000000030000000000000000310000000000000031000000000000000300000000000000003f000000000000003f000000000000000000000000000000004d000000000000004d000000000000000100000000000000011387f5de1c3253dd500000000000000050000000000000000002428877913fee798baf35cc5f4335f3a7",
    "010150000000000000000700000000000000000000000000000000060000000000000000070000000000000007000000000000000300000000000000001500000000000000150000000000000003000000000000000023000000000000002300000000000000030000000000000000310000000000000031000000000000000300000000000000003f000000000000003f000000000000000000000000000000004d000000000000004d00000000000000010000000000000000540000000000000054000000000000000003e22700e31d13d582428877913fee798baf35cc5f4335f3a7",
    "010154000000000000000800000000000000000000000000000000060000000000000000070000000000000007000000000000000300000000000000001500000000000000150000000000000003000000000000000023000000000000002300000000000000030000000000000000310000000000000031000000000000000300000000000000003f000000000000003f000000000000000000000000000000004d000000000000004d000000000000000100000000000000005400000000000000540000000000000001000000000000000155000000000000005500000000000000540000000000000001550000000000000003e22700e31d13d582428877913fee798baf35cc5f4335f3a7",
    "010155000000000000000700000000000000000000000000000000060000000000000000070000000000000007000000000000000300000000000000001500000000000000150000000000000003000000000000000023000000000000002300000000000000030000000000000000310000000000000031000000000000000300000000000000003f000000000000003f000000000000000000000000000000004d000000000000004d000000000000000100000000000000005a000000000000005a00000000000000000498e2ef95e82f2d3e901d6a966885931b428877913fee798baf35cc5f4335f3a7",
    "01015a000000000000000700000000000000000000000000000000060000000000000000070000000000000007000000000000000300000000000000001500000000000000150000000000000003000000000000000023000000000000002300000000000000030000000000000000310000000000000031000000000000000300000000000000003f000000000000003f000000000000000000000000000000004d000000000000004d000000000000000100000000000000005b000000000000005a00000000000000015b000000000000000498e2ef95e82f2d3e901d6a966885931b428877913fee798baf35cc5f4335f3a7",
    "01015b000000000000000800000000000000000000000000000000060000000000000000070000000000000007000000000000000300000000000000001500000000000000150000000000000003000000000000000023000000000000002300000000000000030000000000000000310000000000000031000000000000000300000000000000003f000000000000003f000000000000000000000000000000004d000000000000004d00000000000000020000000000000001e7e0fcdfe98c29685b000000000000005b00000000000000010000000000000001d8900fcea5e695a55f000000000000005e00000000000000015f0000000000000005c3c19bd287343ee12218736715dbc702901d6a966885931b428877913fee798baf35cc5f4335f3a7",
    "01015f000000000000000800000000000000000000000000000000060000000000000000070000000000000007000000000000000300000000000000001500000000000000150000000000000003000000000000000023000000000000002300000000000000030000000000000000310000000000000031000000000000000300000000000000003f000000000000003f000000000000000000000000000000004d000000000000004d000000000000000200000000000000005b000000000000005b000000000000000100000000000000006200000000000000620000000000000000036aa28f62b4a6071a082530c7c14f49acaf35cc5f4335f3a7",
    "010162000000000000000800000000000000000000000000000000060000000000000000070000000000000007000000000000000300000000000000001500000000000000150000000000000003000000000000000023000000000000002300000000000000030000000000000000310000000000000031000000000000000300000000000000003f000000000000003f000000000000000000000000000000004d000000000000004d000000000000000200000000000000005b000000000000005b0000000000000001000000000000000063000000000000006200000000000000016300000000000000036aa28f62b4a6071a082530c7c14f49acaf35cc5f4335f3a7",
];

const BRIDGE_V1_WITNESSES: &[(usize, [TestNode; 8])] = &[
    (
        0,
        [
            TestNode(1),
            TestNode(11944874187515818508),
            TestNode(2949135074203569812),
            TestNode(9472581151991305668),
            TestNode(6725479636698895221),
            TestNode(11095133457725294839),
            TestNode(14133087432678894597),
            TestNode(5741638299150577022),
        ],
    ),
    (
        7,
        [
            TestNode(6),
            TestNode(13240090682216474810),
            TestNode(4191461615442809428),
            TestNode(9472581151991305668),
            TestNode(6725479636698895221),
            TestNode(11095133457725294839),
            TestNode(14133087432678894597),
            TestNode(5741638299150577022),
        ],
    ),
    (
        21,
        [
            TestNode(20),
            TestNode(2331507533852899325),
            TestNode(15964727503826108033),
            TestNode(6721979514944966848),
            TestNode(16286898176225778085),
            TestNode(11095133457725294839),
            TestNode(14133087432678894597),
            TestNode(5741638299150577022),
        ],
    ),
    (
        35,
        [
            TestNode(34),
            TestNode(9489915110043102706),
            TestNode(4443599187080706172),
            TestNode(2408333500339865821),
            TestNode(15976492597045658363),
            TestNode(3355742410173627672),
            TestNode(14133087432678894597),
            TestNode(5741638299150577022),
        ],
    ),
    (
        49,
        [
            TestNode(48),
            TestNode(47953012196469839),
            TestNode(14300983547176410050),
            TestNode(14322355837281448170),
            TestNode(2110419648866555551),
            TestNode(3355742410173627672),
            TestNode(14133087432678894597),
            TestNode(5741638299150577022),
        ],
    ),
    (
        63,
        [
            TestNode(62),
            TestNode(3301169481250740234),
            TestNode(17280729242972191868),
            TestNode(9124305519198588725),
            TestNode(2110419648866555551),
            TestNode(3355742410173627672),
            TestNode(14133087432678894597),
            TestNode(5741638299150577022),
        ],
    ),
    (
        77,
        [
            TestNode(76),
            TestNode(15948145805030164243),
            TestNode(14886129728222111303),
            TestNode(274833491322910136),
            TestNode(7505685190102802663),
            TestNode(2256868868291095598),
            TestNode(12102075187160954287),
            TestNode(5741638299150577022),
        ],
    ),
    (
        91,
        [
            TestNode(90),
            TestNode(4480289880297955992),
            TestNode(11931696387589116120),
            TestNode(1987078544847150480),
            TestNode(10050326000244852802),
            TestNode(2256868868291095598),
            TestNode(12102075187160954287),
            TestNode(5741638299150577022),
        ],
    ),
];
