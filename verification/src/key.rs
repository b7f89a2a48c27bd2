//! Keys of the overlay's key space and the XOR metric on them.

use vstd::prelude::*;

verus! {

/// The identifier of a node: 32 raw bytes.
#[derive(Clone, Copy, PartialEq, Eq, Debug)]
pub struct NodeId {
    pub raw: [u8; 32],
}

/// A point of the key space, with the value that it was derived from.
#[derive(Debug)]
pub struct Key<T> {
    pub preimage: T,
    pub hash: [u8; 32],
}

/// The bitwise XOR of two byte strings, read as a big-endian number.
pub open spec fn xor_value(a: Seq<u8>, b: Seq<u8>) -> nat
    decreases a.len(),
{
    if a.len() == 0 || b.len() == 0 {
        0
    } else {
        xor_value(a.drop_last(), b.drop_last()) * 256 + (a.last() ^ b.last()) as nat
    }
}

/// The distance between two points of the key space under the XOR metric.
pub open spec fn distance(a: [u8; 32], b: [u8; 32]) -> nat {
    xor_value(a@, b@)
}

proof fn lemma_xor_symmetric(a: Seq<u8>, b: Seq<u8>)
    requires
        a.len() == b.len(),
    ensures
        xor_value(a, b) == xor_value(b, a),
    decreases a.len(),
{
    if a.len() > 0 {
        lemma_xor_symmetric(a.drop_last(), b.drop_last());
        let x = a.last();
        let y = b.last();
        assert(x ^ y == y ^ x) by (bit_vector);
    }
}

proof fn lemma_xor_injective(a: Seq<u8>, b: Seq<u8>, target: Seq<u8>)
    requires
        a.len() == b.len() == target.len(),
        xor_value(a, target) == xor_value(b, target),
    ensures
        a == b,
    decreases a.len(),
{
    if a.len() > 0 {
        let x = a.last();
        let y = b.last();
        let t = target.last();
        assert(x ^ t == y ^ t ==> x == y) by (bit_vector);
        lemma_xor_injective(a.drop_last(), b.drop_last(), target.drop_last());
        assert(a =~= a.drop_last().push(x));
        assert(b =~= b.drop_last().push(y));
    } else {
        assert(a =~= b);
    }
}

proof fn lemma_xor_same(a: Seq<u8>)
    ensures
        xor_value(a, a) == 0,
    decreases a.len(),
{
    if a.len() > 0 {
        lemma_xor_same(a.drop_last());
        let x = a.last();
        assert(x ^ x == 0) by (bit_vector);
    }
}

/// The metric is symmetric: it does not matter from which end a distance is taken.
pub proof fn distance_is_symmetric(a: [u8; 32], b: [u8; 32])
    ensures
        distance(a, b) == distance(b, a),
{
    lemma_xor_symmetric(a@, b@);
}

/// No two points are equidistant from a third: one distance identifies one point.
pub proof fn equidistant_points_are_equal(a: [u8; 32], b: [u8; 32], target: [u8; 32])
    ensures
        distance(a, target) == distance(b, target) <==> a@ == b@,
{
    if distance(a, target) == distance(b, target) {
        lemma_xor_injective(a@, b@, target@);
    }
}

/// A point is at distance zero from itself and from no other point.
pub proof fn zero_distance_is_identity(a: [u8; 32], b: [u8; 32])
    ensures
        distance(a, b) == 0 <==> a@ == b@,
{
    lemma_xor_same(b@);
    equidistant_points_are_equal(a, b, b);
}

proof fn lemma_first_difference(a: Seq<u8>, b: Seq<u8>, target: Seq<u8>, i: int)
    requires
        a.len() == b.len() == target.len(),
        0 <= i < a.len(),
        forall|j: int| 0 <= j < i ==> a[j] == b[j],
        (a[i] ^ target[i]) < (b[i] ^ target[i]),
    ensures
        xor_value(a, target) < xor_value(b, target),
    decreases a.len(),
{
    let x = a.last() ^ target.last();
    let y = b.last() ^ target.last();
    if i == a.len() - 1 {
        assert(a.drop_last() =~= b.drop_last());
    } else {
        lemma_first_difference(a.drop_last(), b.drop_last(), target.drop_last(), i);
    }
}

/// Of two points the first byte in which they differ decides which one is closer
/// to a target: the one whose byte differs less from that of the target.
pub proof fn first_difference_decides(a: [u8; 32], b: [u8; 32], target: [u8; 32], i: int)
    requires
        0 <= i < 32,
        forall|j: int| 0 <= j < i ==> a@[j] == b@[j],
        a@[i] != b@[i],
    ensures
        distance(a, target) < distance(b, target) <==> (a@[i] ^ target@[i]) < (b@[i] ^ target@[i]),
{
    let x = a@[i];
    let y = b@[i];
    let t = target@[i];
    assert(x != y ==> x ^ t != y ^ t) by (bit_vector);
    if (x ^ t) < (y ^ t) {
        lemma_first_difference(a@, b@, target@, i);
    } else {
        lemma_first_difference(b@, a@, target@, i);
    }
}

/// Whether `a` lies strictly closer to `target` than `b` does.
///
/// Computes both distances with `discv5::kbucket::Key::distance` and compares
/// them with the order of `discv5::kbucket::Distance`. Trusted: that `distance`
/// XORs the two hashes as 256-bit big-endian integers and that `Distance`
/// orders as those integers do.
#[verifier::external_body]
pub(crate) fn closer(target: &[u8; 32], a: &[u8; 32], b: &[u8; 32]) -> (r: bool)
    ensures
        r == (distance(*a, *target) < distance(*b, *target)),
{
    let target = discv5::kbucket::Key::new_raw((), (*target).into());
    let a = discv5::kbucket::Key::new_raw((), (*a).into());
    let b = discv5::kbucket::Key::new_raw((), (*b).into());
    a.distance(&target) < b.distance(&target)
}

impl<T> Key<T> {
    /// A key with the given hash.
    pub fn new_raw(preimage: T, hash: [u8; 32]) -> (r: Self)
        ensures
            r == (Key { preimage, hash }),
    {
        Key { preimage, hash }
    }

    /// Borrows the preimage of the key.
    pub fn preimage(&self) -> (r: &T)
        ensures
            *r == self.preimage,
    {
        &self.preimage
    }

    /// Converts the key into its preimage.
    pub fn into_preimage(self) -> (r: T)
        ensures
            r == self.preimage,
    {
        self.preimage
    }
}

impl<T: Clone> Clone for Key<T> {
    fn clone(&self) -> (r: Self)
        ensures
            cloned(self.preimage, r.preimage),
            r.hash == self.hash,
    {
        Key { preimage: self.preimage.clone(), hash: self.hash }
    }
}

impl From<NodeId> for Key<NodeId> {
    fn from(node_id: NodeId) -> (r: Self) {
        Key { preimage: node_id, hash: node_id.raw }
    }
}

impl vstd::std_specs::convert::FromSpecImpl<NodeId> for Key<NodeId> {
    open spec fn obeys_from_spec() -> bool {
        true
    }

    /// A node's key is its identifier.
    open spec fn from_spec(node_id: NodeId) -> Self {
        Key { preimage: node_id, hash: node_id.raw }
    }
}

/// `key` is a key that converting a clone of `peer` can yield.
pub open spec fn keyed_as<T: Into<Key<T>> + Clone>(peer: T, key: Key<T>) -> bool {
    exists|copy: T|
        #[trigger] cloned(peer, copy) && call_ensures(<T as Into<Key<T>>>::into, (copy,), key)
}

/// `keys` are keys that converting `peers` one by one can yield.
pub open spec fn keyed_each<T: Into<Key<T>>>(peers: Seq<T>, keys: Seq<Key<T>>) -> bool {
    &&& keys.len() == peers.len()
    &&& forall|i: int|
        0 <= i < keys.len() ==> call_ensures(
            <T as Into<Key<T>>>::into,
            (peers[i],),
            #[trigger] keys[i],
        )
}

/// The key of `peer`, from a clone of it.
pub fn key_of<T: Into<Key<T>> + Clone>(peer: &T) -> (key: Key<T>)
    ensures
        keyed_as(*peer, key),
{
    let copy = peer.clone();
    assert(cloned(*peer, copy));
    copy.into()
}

/// The keys of `peers`, in their order.
pub fn keys_of<T: Into<Key<T>>>(peers: Vec<T>) -> (keys: Vec<Key<T>>)
    ensures
        keyed_each(peers@, keys@),
{
    let mut keys: Vec<Key<T>> = Vec::new();
    for peer in iter: peers
        invariant
            keys@.len() == iter.index(),
            iter.seq() == peers@,
            forall|i: int|
                0 <= i < keys@.len() ==> call_ensures(
                    <T as Into<Key<T>>>::into,
                    (peers@[i],),
                    #[trigger] keys@[i],
                ),
    {
        let key: Key<T> = peer.into();
        keys.push(key);
    }
    keys
}

/// A peer's key is what the peer's own conversion makes of a clone of the peer.
pub proof fn key_comes_from_conversion<T: Into<Key<T>> + Clone>(peer: T, key: Key<T>)
    requires
        keyed_as(peer, key),
    ensures
        exists|copy: T|
            #[trigger] cloned(peer, copy) && call_ensures(<T as Into<Key<T>>>::into, (copy,), key),
{
}

/// The keys of peers are what each peer's own conversion makes of it, in order.
pub proof fn keys_come_from_conversion<T: Into<Key<T>>>(peers: Seq<T>, keys: Seq<Key<T>>, i: int)
    requires
        keyed_each(peers, keys),
    ensures
        keys.len() == peers.len(),
        0 <= i < peers.len() ==> call_ensures(<T as Into<Key<T>>>::into, (peers[i],), keys[i]),
{
}

/// The keys of nodes are the nodes' identifiers, in their order.
pub proof fn keys_of_nodes_are_their_ids(peers: Seq<NodeId>, keys: Seq<Key<NodeId>>)
    requires
        keyed_each(peers, keys),
    ensures
        keys == peers.map_values(|peer: NodeId| Key { preimage: peer, hash: peer.raw }),
{
    assert(keys =~= peers.map_values(|peer: NodeId| Key { preimage: peer, hash: peer.raw }));
}

/// The key of a node is the node's identifier, whichever way it is obtained.
pub proof fn key_of_node_is_its_id(peer: NodeId, key: Key<NodeId>)
    requires
        keyed_as(peer, key),
    ensures
        key.preimage == peer,
        key.hash == peer.raw,
{
}

} // verus!
