//! Merkle bridges: the tracked addresses and known ommers between two
//! checkpoints, with the collection rules that keep them a set and a map.
use vstd::prelude::*;
use crate::tree::{Address, FrontierModel, NonEmptyFrontier, OrchardHash};

verus! {

/// What a bridge holds: the prior position, the tracked addresses, the known
/// ommers by address, and the frontier.
pub struct BridgeModel {
    pub prior_position: Option<u64>,
    pub tracking: Set<Address>,
    pub ommers: Map<Address, Seq<u8>>,
    pub frontier: FrontierModel,
}

/// The map built by inserting `s`'s pairs into `m` in order; a later pair
/// replaces an earlier one with the same address.
pub open spec fn map_with_pairs(m: Map<Address, Seq<u8>>, s: Seq<(Address, Seq<u8>)>) -> Map<
    Address,
    Seq<u8>,
>
    decreases s.len(),
{
    if s.len() == 0 {
        m
    } else {
        map_with_pairs(m, s.drop_last()).insert(s.last().0, s.last().1)
    }
}

/// The map built by adding `s`'s pairs to `m` in order, where a pair whose
/// address is already held is passed over.
pub open spec fn map_with_new_pairs(m: Map<Address, Seq<u8>>, s: Seq<(Address, Seq<u8>)>) -> Map<
    Address,
    Seq<u8>,
>
    decreases s.len(),
{
    if s.len() == 0 {
        m
    } else {
        let prev = map_with_new_pairs(m, s.drop_last());
        if prev.contains_key(s.last().0) {
            prev
        } else {
            prev.insert(s.last().0, s.last().1)
        }
    }
}

/// The map of a sequence of pairs, a later pair winning.
pub open spec fn pairs_to_map(s: Seq<(Address, Seq<u8>)>) -> Map<Address, Seq<u8>> {
    map_with_pairs(Map::empty(), s)
}

/// Every ommer value is a valid node.
pub open spec fn values_valid(s: Seq<(Address, Seq<u8>)>) -> bool {
    forall|i: int| 0 <= i < s.len() ==> crate::tree::hash_valid(#[trigger] s[i].1)
}

/// Whether `a` comes before `b`: by level, then by index.
pub open spec fn addr_lt(a: Address, b: Address) -> bool {
    a.level < b.level || (a.level == b.level && a.index < b.index)
}

/// The addresses are strictly ascending.
pub open spec fn addresses_sorted(s: Seq<Address>) -> bool {
    forall|i: int, j: int| 0 <= i < j < s.len() ==> addr_lt(s[i], s[j])
}

/// The pairs' addresses are strictly ascending.
pub open spec fn keys_sorted(s: Seq<(Address, Seq<u8>)>) -> bool {
    forall|i: int, j: int| 0 <= i < j < s.len() ==> addr_lt(s[i].0, s[j].0)
}

/// No address occurs twice among the pairs.
pub open spec fn keys_unique(s: Seq<(Address, Seq<u8>)>) -> bool {
    forall|i: int, j: int| 0 <= i < j < s.len() ==> s[i].0 != s[j].0
}

/// The pairs with each node replaced by its bytes.
pub open spec fn ommer_views(s: Seq<(Address, OrchardHash)>) -> Seq<(Address, Seq<u8>)> {
    s.map_values(|p: (Address, OrchardHash)| (p.0, p.1@))
}

/// A bridge between two checkpoints of an append-only tree.
#[derive(Clone, Debug)]
pub struct MerkleBridge {
    prior_position: Option<u64>,
    tracking: Vec<Address>,
    ommers: Vec<(Address, OrchardHash)>,
    frontier: NonEmptyFrontier,
}

impl View for MerkleBridge {
    type V = BridgeModel;

    closed spec fn view(&self) -> BridgeModel {
        BridgeModel {
            prior_position: self.prior_position,
            tracking: self.tracking@.to_set(),
            ommers: pairs_to_map(ommer_views(self.ommers@)),
            frontier: self.frontier@,
        }
    }
}

impl MerkleBridge {
    /// The tracked addresses in the order they are written.
    pub closed spec fn tracking_seq(&self) -> Seq<Address> {
        self.tracking@
    }

    /// The ommers in the order they are written.
    pub closed spec fn ommer_seq(&self) -> Seq<(Address, Seq<u8>)> {
        ommer_views(self.ommers@)
    }

    /// The tracked addresses and the ommers' addresses are held in strictly
    /// ascending order, the ommer values are valid nodes, and the frontier is
    /// well formed.
    pub open spec fn wf(&self) -> bool {
        &&& addresses_sorted(self.tracking_seq())
        &&& keys_sorted(self.ommer_seq())
        &&& values_valid(self.ommer_seq())
        &&& self.frontier_wf()
    }

    /// The frontier is well formed.
    pub closed spec fn frontier_wf(&self) -> bool {
        self.frontier.wf()
    }

    /// The bridge's view in terms of the sequences it writes.
    pub proof fn lemma_view(&self)
        ensures
            self@.tracking == self.tracking_seq().to_set(),
            self@.ommers == pairs_to_map(self.ommer_seq()),
            self.frontier_wf() <==> {
                &&& crate::tree::hash_valid(self@.frontier.leaf)
                &&& forall|i: int|
                    0 <= i < self@.frontier.ommers.len() ==> crate::tree::hash_valid(
                        #[trigger] self@.frontier.ommers[i],
                    )
                &&& self@.frontier.ommers.len() == crate::tree::ones(
                    self@.frontier.position as nat,
                )
            },
    {
    }

    /// An empty bridge that starts at the given frontier.
    pub fn new(prior_position: Option<u64>, frontier: NonEmptyFrontier) -> (r: MerkleBridge)
        requires
            frontier.wf(),
        ensures
            r.wf(),
            r@.prior_position == prior_position,
            r@.tracking == Set::<Address>::empty(),
            r@.ommers == Map::<Address, Seq<u8>>::empty(),
            r@.frontier == frontier@,
    {
        let r = MerkleBridge { prior_position, tracking: Vec::new(), ommers: Vec::new(), frontier };
        assert(r.tracking@.to_set() =~= Set::<Address>::empty());
        assert(ommer_views(r.ommers@) =~= Seq::<(Address, Seq<u8>)>::empty());
        r
    }

    /// Adds an address to the tracked set.
    pub fn track(&mut self, a: Address)
        requires
            old(self).wf(),
        ensures
            final(self).wf(),
            final(self)@ == (BridgeModel { tracking: old(self)@.tracking.insert(a), ..old(self)@ }),
    {
        tracking_insert(&mut self.tracking, a);
    }

    /// Records the value of an ommer, replacing one held at that address.
    pub fn insert_ommer(&mut self, a: Address, h: OrchardHash)
        requires
            old(self).wf(),
        ensures
            final(self).wf(),
            final(self)@ == (BridgeModel {
                ommers: old(self)@.ommers.insert(a, h@),
                ..old(self)@
            }),
    {
        proof {
            use_type_invariant(&h);
        }
        ommers_insert(&mut self.ommers, a, h);
    }

    /// Records the value of an ommer unless one is held at that address.
    pub fn insert_new_ommer(&mut self, a: Address, h: OrchardHash)
        requires
            old(self).wf(),
        ensures
            final(self).wf(),
            final(self)@ == (BridgeModel {
                ommers: if old(self)@.ommers.contains_key(a) {
                    old(self)@.ommers
                } else {
                    old(self)@.ommers.insert(a, h@)
                },
                ..old(self)@
            }),
    {
        proof {
            use_type_invariant(&h);
        }
        if ommers_contains(&self.ommers, a) {
        } else {
            ommers_insert(&mut self.ommers, a, h);
        }
    }

    /// The position of the last leaf of the previous bridge, if any.
    pub fn prior_position(&self) -> (r: Option<u64>)
        ensures
            r == self@.prior_position,
    {
        self.prior_position
    }

    /// The tracked addresses.
    pub fn tracking(&self) -> (r: &Vec<Address>)
        ensures
            r@ == self.tracking_seq(),
    {
        &self.tracking
    }

    /// The known ommers.
    pub fn ommers(&self) -> (r: &Vec<(Address, OrchardHash)>)
        ensures
            ommer_views(r@) == self.ommer_seq(),
    {
        &self.ommers
    }

    /// The frontier.
    pub fn frontier(&self) -> (r: &NonEmptyFrontier)
        ensures
            r@ == self@.frontier,
            self.frontier_wf() ==> r.wf(),
    {
        &self.frontier
    }
}

/// Whether the address is among the vector's.
fn tracking_contains(v: &Vec<Address>, a: Address) -> (r: bool)
    ensures
        r == v@.contains(a),
{
    let mut i: usize = 0;
    while i < v.len()
        invariant
            i <= v@.len(),
            forall|j: int| 0 <= j < i ==> v@[j] != a,
        decreases v@.len() - i,
    {
        if v[i] == a {
            assert(v@[i as int] == a);
            return true;
        }
        i = i + 1;
    }
    false
}

/// Whether `a` comes before `b`.
fn addr_before(a: Address, b: Address) -> (r: bool)
    ensures
        r == addr_lt(a, b),
{
    a.level < b.level || (a.level == b.level && a.index < b.index)
}

/// Inserting an element into a sequence adds it to the sequence's set.
proof fn lemma_insert_to_set(s: Seq<Address>, i: int, a: Address)
    requires
        0 <= i <= s.len(),
    ensures
        s.insert(i, a).to_set() == s.to_set().insert(a),
{
    let t = s.insert(i, a);
    assert forall|x: Address| t.contains(x) <==> s.contains(x) || x == a by {
        if s.contains(x) {
            let k = choose|k: int| 0 <= k < s.len() && s[k] == x;
            if k < i {
                assert(t[k] == x);
            } else {
                assert(t[k + 1] == x);
            }
        }
        if t.contains(x) && x != a {
            let k = choose|k: int| 0 <= k < t.len() && t[k] == x;
            if k < i {
                assert(s[k] == x);
            } else {
                assert(k != i);
                assert(s[k - 1] == x);
            }
        }
        if x == a {
            assert(t[i] == a);
        }
    }
    assert(t.to_set() =~= s.to_set().insert(a));
}

/// Inserting an address at its place keeps a sequence ascending.
proof fn lemma_sorted_insert(s: Seq<Address>, i: int, a: Address)
    requires
        addresses_sorted(s),
        0 <= i <= s.len(),
        forall|j: int| 0 <= j < i ==> addr_lt(s[j], a),
        i < s.len() ==> addr_lt(a, s[i]),
    ensures
        addresses_sorted(s.insert(i, a)),
{
    let t = s.insert(i, a);
    assert forall|m: int| i <= m < s.len() implies addr_lt(a, #[trigger] s[m]) by {
        if m > i {
            assert(addr_lt(s[i], s[m]));
        }
    }
    assert forall|p: int, q: int| 0 <= p < q < t.len() implies addr_lt(t[p], t[q]) by {
        if q < i {
            assert(t[p] == s[p] && t[q] == s[q]);
        } else if q == i {
            assert(t[p] == s[p]);
        } else if p < i {
            assert(t[p] == s[p] && t[q] == s[q - 1]);
            assert(addr_lt(s[q - 1], s[q - 1]) || addr_lt(a, s[q - 1]));
        } else if p == i {
            assert(t[q] == s[q - 1]);
        } else {
            assert(t[p] == s[p - 1] && t[q] == s[q - 1]);
        }
    }
}

/// Adds an address to an ascending vector of addresses, keeping it ascending.
fn tracking_insert(v: &mut Vec<Address>, a: Address)
    requires
        addresses_sorted(old(v)@),
    ensures
        addresses_sorted(final(v)@),
        final(v)@.to_set() == old(v)@.to_set().insert(a),
{
    let mut i: usize = 0;
    while i < v.len()
        invariant
            i <= v@.len(),
            v@ == old(v)@,
            addresses_sorted(v@),
            forall|j: int| 0 <= j < i ==> addr_lt(v@[j], a),
        ensures
            i <= v@.len(),
            v@ == old(v)@,
            forall|j: int| 0 <= j < i ==> addr_lt(v@[j], a),
            i < v@.len() ==> !addr_lt(v@[i as int], a),
        decreases v@.len() - i,
    {
        if !addr_before(v[i], a) {
            break;
        }
        i = i + 1;
    }
    if i < v.len() && v[i] == a {
        assert(v@.contains(a) ==> v@.to_set().contains(a));
        assert(v@[i as int] == a);
        assert(v@.to_set() =~= v@.to_set().insert(a));
    } else {
        let ghost before = v@;
        proof {
            lemma_sorted_insert(before, i as int, a);
            lemma_insert_to_set(before, i as int, a);
        }
        v.insert(i, a);
    }
}

/// Replacing the value at an address held once updates the map there.
proof fn lemma_pairs_update(s: Seq<(Address, Seq<u8>)>, j: int, x: Seq<u8>)
    requires
        keys_unique(s),
        0 <= j < s.len(),
    ensures
        pairs_to_map(s.update(j, (s[j].0, x))) == pairs_to_map(s).insert(s[j].0, x),
    decreases s.len(),
{
    let a = s[j].0;
    let t = s.update(j, (a, x));
    if j == s.len() - 1 {
        assert(t.drop_last() =~= s.drop_last());
        assert(pairs_to_map(t) =~= pairs_to_map(s).insert(a, x));
    } else {
        let d = s.drop_last();
        assert(t.drop_last() =~= d.update(j, (a, x)));
        assert(keys_unique(d));
        lemma_pairs_update(d, j, x);
        assert(s.last().0 != a);
        assert(t.last() == s.last());
        assert(pairs_to_map(t) =~= pairs_to_map(s).insert(a, x));
    }
}

/// An address is a key of the map of pairs exactly when some pair holds it.
proof fn lemma_pairs_contains(s: Seq<(Address, Seq<u8>)>, a: Address)
    ensures
        pairs_to_map(s).contains_key(a) <==> exists|j: int| 0 <= j < s.len() && s[j].0 == a,
    decreases s.len(),
{
    if s.len() > 0 {
        let d = s.drop_last();
        lemma_pairs_contains(d, a);
        if pairs_to_map(s).contains_key(a) {
            if s.last().0 == a {
                assert(s[s.len() - 1].0 == a);
            } else {
                let j = choose|j: int| 0 <= j < d.len() && d[j].0 == a;
                assert(s[j] == d[j]);
            }
        }
        if exists|j: int| 0 <= j < s.len() && s[j].0 == a {
            let j = choose|j: int| 0 <= j < s.len() && s[j].0 == a;
            if j < s.len() - 1 {
                assert(d[j] == s[j]);
            }
        }
    }
}

/// Whether some pair of the vector holds the address.
fn ommers_contains(v: &Vec<(Address, OrchardHash)>, a: Address) -> (r: bool)
    ensures
        r == pairs_to_map(ommer_views(v@)).contains_key(a),
{
    proof {
        lemma_pairs_contains(ommer_views(v@), a);
    }
    let mut i: usize = 0;
    while i < v.len()
        invariant
            i <= v@.len(),
            forall|j: int| 0 <= j < i ==> v@[j].0 != a,
            pairs_to_map(ommer_views(v@)).contains_key(a) <==> exists|j: int|
                0 <= j < ommer_views(v@).len() && ommer_views(v@)[j].0 == a,
        decreases v@.len() - i,
    {
        if v[i].0 == a {
            assert(ommer_views(v@)[i as int].0 == a);
            return true;
        }
        i = i + 1;
    }
    assert forall|j: int| 0 <= j < ommer_views(v@).len() implies ommer_views(v@)[j].0 != a by {
        assert(v@[j].0 != a);
    }
    false
}

/// Ascending keys are distinct.
proof fn lemma_sorted_keys_unique(s: Seq<(Address, Seq<u8>)>)
    requires
        keys_sorted(s),
    ensures
        keys_unique(s),
{
    assert forall|i: int, j: int| 0 <= i < j < s.len() implies s[i].0 != s[j].0 by {
        assert(addr_lt(s[i].0, s[j].0));
    }
}

/// Inserting a pair at its place keeps the keys ascending.
proof fn lemma_keys_sorted_insert(s: Seq<(Address, Seq<u8>)>, i: int, x: (Address, Seq<u8>))
    requires
        keys_sorted(s),
        0 <= i <= s.len(),
        forall|j: int| 0 <= j < i ==> addr_lt(s[j].0, x.0),
        i < s.len() ==> addr_lt(x.0, s[i].0),
    ensures
        keys_sorted(s.insert(i, x)),
{
    let t = s.insert(i, x);
    assert forall|m: int| i <= m < s.len() implies addr_lt(x.0, #[trigger] s[m].0) by {
        if m > i {
            assert(addr_lt(s[i].0, s[m].0));
        }
    }
    assert forall|p: int, q: int| 0 <= p < q < t.len() implies addr_lt(t[p].0, t[q].0) by {
        if q < i {
            assert(t[p] == s[p] && t[q] == s[q]);
        } else if q == i {
            assert(t[p] == s[p]);
        } else if p < i {
            assert(t[p] == s[p] && t[q] == s[q - 1]);
        } else if p == i {
            assert(t[q] == s[q - 1]);
        } else {
            assert(t[p] == s[p - 1] && t[q] == s[q - 1]);
        }
    }
}

/// Inserting a pair whose address is new anywhere in the sequence adds it to
/// the map.
proof fn lemma_pairs_insert(s: Seq<(Address, Seq<u8>)>, i: int, x: (Address, Seq<u8>))
    requires
        0 <= i <= s.len(),
        forall|j: int| 0 <= j < s.len() ==> s[j].0 != x.0,
    ensures
        pairs_to_map(s.insert(i, x)) == pairs_to_map(s).insert(x.0, x.1),
    decreases s.len(),
{
    let t = s.insert(i, x);
    if i == s.len() {
        assert(t.drop_last() =~= s);
    } else {
        let d = s.drop_last();
        assert(t.drop_last() =~= d.insert(i, x));
        lemma_pairs_insert(d, i, x);
        assert(t.last() == s.last());
        assert(s.last().0 != x.0);
        assert(pairs_to_map(t) =~= pairs_to_map(s).insert(x.0, x.1));
    }
}

/// Records a pair in a vector whose addresses are ascending, replacing the
/// value held at that address, if any, and keeping the order.
fn ommers_insert(v: &mut Vec<(Address, OrchardHash)>, a: Address, h: OrchardHash)
    requires
        keys_sorted(ommer_views(old(v)@)),
        values_valid(ommer_views(old(v)@)),
        crate::tree::hash_valid(h@),
    ensures
        keys_sorted(ommer_views(final(v)@)),
        values_valid(ommer_views(final(v)@)),
        pairs_to_map(ommer_views(final(v)@)) == pairs_to_map(ommer_views(old(v)@)).insert(a, h@),
{
    let ghost hv = h@;
    let mut i: usize = 0;
    while i < v.len()
        invariant
            i <= v@.len(),
            v@ == old(v)@,
            keys_sorted(ommer_views(v@)),
            forall|j: int| 0 <= j < i ==> addr_lt(#[trigger] v@[j].0, a),
        ensures
            i <= v@.len(),
            v@ == old(v)@,
            forall|j: int| 0 <= j < i ==> addr_lt(#[trigger] v@[j].0, a),
            i < v@.len() ==> !addr_lt(v@[i as int].0, a),
        decreases v@.len() - i,
    {
        if !addr_before(v[i].0, a) {
            break;
        }
        i = i + 1;
    }
    let ghost s = ommer_views(v@);
    assert forall|j: int| 0 <= j < s.len() implies #[trigger] s[j].0 == v@[j].0 by {}
    if i < v.len() && v[i].0 == a {
        proof {
            lemma_sorted_keys_unique(s);
            assert(s[i as int].0 == a);
            lemma_pairs_update(s, i as int, hv);
        }
        let ghost before = v@;
        v.set(i, (a, h));
        assert forall|k: int| 0 <= k < v@.len() implies #[trigger] ommer_views(v@)[k] == s.update(
            i as int,
            (a, hv),
        )[k] by {
            assert(ommer_views(v@)[k] == (v@[k].0, v@[k].1@));
            if k != i {
                assert(v@[k] == before[k]);
                assert(s[k] == (before[k].0, before[k].1@));
            }
        }
        assert(ommer_views(v@) =~= s.update(i as int, (a, hv)));
        assert forall|p: int, q: int| 0 <= p < q < ommer_views(v@).len() implies addr_lt(
            ommer_views(v@)[p].0,
            ommer_views(v@)[q].0,
        ) by {
            assert(addr_lt(s[p].0, s[q].0));
        }
    } else {
        proof {
            assert(i < s.len() ==> addr_lt(a, s[i as int].0));
            assert forall|j: int| i <= j < s.len() implies #[trigger] s[j].0 != a by {
                if j > i {
                    assert(addr_lt(s[i as int].0, s[j].0));
                }
            }
            lemma_keys_sorted_insert(s, i as int, (a, hv));
            lemma_pairs_insert(s, i as int, (a, hv));
        }
        let ghost before = v@;
        v.insert(i, (a, h));
        assert forall|k: int| 0 <= k < v@.len() implies #[trigger] ommer_views(v@)[k] == s.insert(
            i as int,
            (a, hv),
        )[k] by {
            assert(ommer_views(v@)[k] == (v@[k].0, v@[k].1@));
            if k < i {
                assert(v@[k] == before[k]);
            } else if k > i {
                assert(v@[k] == before[k - 1]);
            }
        }
        assert(ommer_views(v@) =~= s.insert(i as int, (a, hv)));
    }
}

} // verus!
