//! The nodes a broadcaster sends to, the set of them, and one round of a
//! broadcast over that set.
//!
//! A round picks a node at random among those not yet tried, sends to it, and
//! stops as soon as a node answers that it had already seen the message;
//! every other outcome drops that node from the round and tries another.

use vstd::prelude::*;
use indexmap::IndexMap;
use rand::Rng;

use crate::error::FabError;

verus! {

/// Where a node listens: an IPv4 or IPv6 address (an IPv4 address held in
/// the low 32 bits of `ip`), a port, and for IPv6 the flow information and
/// scope id (both 0 for IPv4).
#[derive(Clone, Copy, Debug, PartialEq, Eq)]
pub struct NodeAddr {
    pub v6: bool,
    pub ip: u128,
    pub port: u16,
    pub flowinfo: u32,
    pub scope_id: u32,
}

/// The key under which a node is filed in a [`NodeSet`].
pub type NodeKey = (bool, u128, u16, u32, u32);

/// The key of an address: all of its fields.
pub open spec fn key_of(a: NodeAddr) -> NodeKey {
    (a.v6, a.ip, a.port, a.flowinfo, a.scope_id)
}

/// An address as a socket address can be: an IPv4 address fits in 32 bits
/// and has no flow information or scope id.
pub open spec fn addr_wf(a: NodeAddr) -> bool {
    a.v6 || (a.ip <= 0xffff_ffff && a.flowinfo == 0 && a.scope_id == 0)
}

/// Every node of `s` has a well-formed address.
pub open spec fn all_addrs_wf(s: Seq<Node>) -> bool {
    forall|i: int| 0 <= i < s.len() ==> addr_wf(#[trigger] s[i].address)
}

impl NodeAddr {
    /// An IPv4 address and port.
    pub fn v4(ip: u32, port: u16) -> (a: NodeAddr)
        ensures
            a == (NodeAddr { v6: false, ip: ip as u128, port, flowinfo: 0, scope_id: 0 }),
            addr_wf(a),
    {
        NodeAddr { v6: false, ip: ip as u128, port, flowinfo: 0, scope_id: 0 }
    }

    /// An IPv6 address, port, flow information and scope id.
    pub fn v6(ip: u128, port: u16, flowinfo: u32, scope_id: u32) -> (a: NodeAddr)
        ensures
            a == (NodeAddr { v6: true, ip, port, flowinfo, scope_id }),
            addr_wf(a),
    {
        NodeAddr { v6: true, ip, port, flowinfo, scope_id }
    }

    /// Whether the address is well formed.
    pub fn is_wf(&self) -> (b: bool)
        ensures
            b == addr_wf(*self),
    {
        self.v6 || (self.ip <= 0xffff_ffff && self.flowinfo == 0 && self.scope_id == 0)
    }

    pub fn key(&self) -> (k: NodeKey)
        ensures
            k == key_of(*self),
    {
        (self.v6, self.ip, self.port, self.flowinfo, self.scope_id)
    }
}

/// A node of the system: where it listens, and its public key (none yet).
#[derive(Clone, Copy, Debug, PartialEq, Eq)]
pub struct Node {
    pub address: NodeAddr,
    pub public_key: Option<()>,
}

impl Node {
    pub fn new(address: NodeAddr, public_key: Option<()>) -> (n: Node)
        ensures
            n.address == address,
            n.public_key == public_key,
    {
        Node { address, public_key }
    }
}

/// The byte a listener answers a delivery with: 0 when the message was new
/// to it, 1 when it had seen it already.
#[verifier::allow_in_spec]
pub fn ack_byte(new: bool) -> u8
    returns
        (if new { 0u8 } else { 1u8 }),
{
    if new {
        0
    } else {
        1
    }
}

/// How a sender reads the answer to a delivery: any byte but 0 means the
/// other node had already seen the message.
#[verifier::allow_in_spec]
pub fn ack_seen(b: u8) -> bool
    returns
        b != 0,
{
    b != 0
}

/// A sender reads from the answer exactly whether the message was not new to
/// the listener.
pub proof fn lemma_ack_round_trip(new: bool)
    ensures
        ack_seen(ack_byte(new)) == !new,
{
}

/// `indexmap::IndexMap`, which keeps the nodes in the order they were added.
#[verifier::external_type_specification]
#[verifier::external_body]
#[verifier::reject_recursive_types(K)]
#[verifier::reject_recursive_types(V)]
#[verifier::reject_recursive_types(S)]
pub struct ExIndexMap<K, V, S>(IndexMap<K, V, S>);

/// The entries of an `IndexMap`, in its order.
pub uninterp spec fn index_map_entries(m: IndexMap<NodeKey, Node>) -> Seq<(NodeKey, Node)>;

/// No key occurs twice among the entries.
pub open spec fn distinct_keys(s: Seq<(NodeKey, Node)>) -> bool {
    forall|i: int, j: int| 0 <= i < j < s.len() ==> s[i].0 != s[j].0
}

pub open spec fn has_key(s: Seq<(NodeKey, Node)>, k: NodeKey) -> bool {
    exists|i: int| 0 <= i < s.len() && s[i].0 == k
}

pub open spec fn key_index(s: Seq<(NodeKey, Node)>, k: NodeKey) -> int {
    choose|i: int| 0 <= i < s.len() && s[i].0 == k
}

/// Removes the item at `i` by moving the last item into its place.
pub open spec fn swap_remove<T>(s: Seq<T>, i: int) -> Seq<T> {
    s.update(i, s.last()).drop_last()
}

/// The entries after inserting `(k, v)`: an entry with key `k` keeps its
/// place and takes the value `v`; otherwise the pair goes last.
pub open spec fn entries_inserted(s: Seq<(NodeKey, Node)>, k: NodeKey, v: Node) -> Seq<(NodeKey, Node)> {
    if has_key(s, k) {
        s.update(key_index(s, k), (k, v))
    } else {
        s.push((k, v))
    }
}

/// The entries after removing key `k` by swapping with the last.
pub open spec fn entries_removed(s: Seq<(NodeKey, Node)>, k: NodeKey) -> Seq<(NodeKey, Node)> {
    if has_key(s, k) {
        swap_remove(s, key_index(s, k))
    } else {
        s
    }
}

/// `IndexMap::new`: a map with no entries.
#[verifier::external_body]
fn map_new() -> (m: IndexMap<NodeKey, Node>)
    ensures
        index_map_entries(m) == Seq::<(NodeKey, Node)>::empty(),
{
    IndexMap::new()
}

/// `IndexMap::insert`: when an entry with key `k` exists, its value is
/// replaced in place and the old value returned; otherwise `(k, v)` is
/// appended last and `None` returned. Keys stay distinct.
#[verifier::external_body]
fn map_insert(m: &mut IndexMap<NodeKey, Node>, k: NodeKey, v: Node) -> (r: Option<Node>)
    ensures
        index_map_entries(*final(m)) == entries_inserted(index_map_entries(*old(m)), k, v),
        distinct_keys(index_map_entries(*final(m))),
        r == (if has_key(index_map_entries(*old(m)), k) {
            Some(index_map_entries(*old(m))[key_index(index_map_entries(*old(m)), k)].1)
        } else {
            None
        }),
{
    m.insert(k, v)
}

/// `IndexMap::remove` (which is `swap_remove` in indexmap 1): the entry with
/// key `k`, if any, is replaced by the last entry, and its value returned.
#[verifier::external_body]
fn map_remove(m: &mut IndexMap<NodeKey, Node>, k: &NodeKey) -> (r: Option<Node>)
    ensures
        index_map_entries(*final(m)) == entries_removed(index_map_entries(*old(m)), *k),
        distinct_keys(index_map_entries(*final(m))),
        r == (if has_key(index_map_entries(*old(m)), *k) {
            Some(index_map_entries(*old(m))[key_index(index_map_entries(*old(m)), *k)].1)
        } else {
            None
        }),
{
    m.remove(k)
}

/// `IndexMap::len`: the number of entries.
#[verifier::external_body]
fn map_len(m: &IndexMap<NodeKey, Node>) -> (n: usize)
    ensures
        n == index_map_entries(*m).len(),
{
    m.len()
}

/// `IndexMap::get_index`: the entry at position `i`, if there is one; the
/// value is copied out.
#[verifier::external_body]
fn map_get_index(m: &IndexMap<NodeKey, Node>, i: usize) -> (r: Option<Node>)
    ensures
        r == (if i < index_map_entries(*m).len() {
            Some(index_map_entries(*m)[i as int].1)
        } else {
            None
        }),
{
    m.get_index(i).map(|(_, v)| *v)
}

/// `IndexMap::swap_remove_index`: the entry at position `i`, if any, is
/// replaced by the last entry and returned.
#[verifier::external_body]
fn map_swap_remove_index(m: &mut IndexMap<NodeKey, Node>, i: usize) -> (r: Option<(NodeKey, Node)>)
    ensures
        i < index_map_entries(*old(m)).len() ==> r == Some(index_map_entries(*old(m))[i as int])
            && index_map_entries(*final(m)) == swap_remove(index_map_entries(*old(m)), i as int),
        i >= index_map_entries(*old(m)).len() ==> r is None && index_map_entries(*final(m))
            == index_map_entries(*old(m)),
        distinct_keys(index_map_entries(*final(m))),
{
    m.swap_remove_index(i)
}

/// `Clone::clone` of an `IndexMap`: the same entries in the same order.
#[verifier::external_body]
fn map_clone(m: &IndexMap<NodeKey, Node>) -> (c: IndexMap<NodeKey, Node>)
    ensures
        index_map_entries(c) == index_map_entries(*m),
{
    m.clone()
}

/// A random position below `n`: `Rng::gen_range(0, n)` on the thread's
/// generator, which returns a value in `[0, n)`.
#[verifier::external_body]
fn random_below(n: usize) -> (i: usize)
    requires
        n > 0,
    ensures
        i < n,
{
    rand::thread_rng().gen_range(0, n)
}

/// The nodes of a list of entries, in order.
pub open spec fn node_seq(s: Seq<(NodeKey, Node)>) -> Seq<Node> {
    s.map_values(|e: (NodeKey, Node)| e.1)
}

/// Each entry is filed under the key of its node's address, and no key occurs twice.
spec fn entries_wf(s: Seq<(NodeKey, Node)>) -> bool {
    &&& distinct_keys(s)
    &&& forall|i: int| 0 <= i < s.len() ==> #[trigger] s[i].0 == key_of(s[i].1.address)
}

/// No address occurs twice among the nodes.
pub open spec fn distinct_addrs(s: Seq<Node>) -> bool {
    forall|i: int, j: int| 0 <= i < j < s.len() ==> s[i].address != s[j].address
}

pub open spec fn has_addr(s: Seq<Node>, a: NodeAddr) -> bool {
    exists|i: int| 0 <= i < s.len() && s[i].address == a
}

pub open spec fn addr_index(s: Seq<Node>, a: NodeAddr) -> int {
    choose|i: int| 0 <= i < s.len() && s[i].address == a
}

/// The nodes after adding `n`: a node with the same address is replaced in
/// place; otherwise `n` goes last.
pub open spec fn with_node(s: Seq<Node>, n: Node) -> Seq<Node> {
    if has_addr(s, n.address) {
        s.update(addr_index(s, n.address), n)
    } else {
        s.push(n)
    }
}

/// The nodes after removing the one at address `a`, if any, by moving the
/// last node into its place.
pub open spec fn without_addr(s: Seq<Node>, a: NodeAddr) -> Seq<Node> {
    if has_addr(s, a) {
        swap_remove(s, addr_index(s, a))
    } else {
        s
    }
}

proof fn lemma_with_node_wf(s: Seq<Node>, n: Node)
    requires
        all_addrs_wf(s),
        addr_wf(n.address),
    ensures
        all_addrs_wf(with_node(s, n)),
{
    let t = with_node(s, n);
    assert forall|i: int| 0 <= i < t.len() implies addr_wf(#[trigger] t[i].address) by {
        if has_addr(s, n.address) {
            if i != addr_index(s, n.address) {
                assert(t[i] == s[i]);
            }
        } else if i < s.len() {
            assert(t[i] == s[i]);
        }
    }
}

proof fn lemma_swap_remove_wf(s: Seq<Node>, i: int)
    requires
        all_addrs_wf(s),
        0 <= i < s.len(),
    ensures
        all_addrs_wf(swap_remove(s, i)),
{
    let t = swap_remove(s, i);
    assert forall|k: int| 0 <= k < t.len() implies addr_wf(#[trigger] t[k].address) by {
        if k == i {
            assert(t[k] == s[s.len() - 1]);
        } else {
            assert(t[k] == s[k]);
        }
    }
}

proof fn lemma_wf_distinct(e: Seq<(NodeKey, Node)>)
    requires
        entries_wf(e),
    ensures
        distinct_addrs(node_seq(e)),
{
    assert forall|i: int, j: int| 0 <= i < j < node_seq(e).len() implies node_seq(e)[i].address
        != node_seq(e)[j].address by {
        assert(e[i].0 == key_of(e[i].1.address));
        assert(e[j].0 == key_of(e[j].1.address));
    }
}

proof fn lemma_key_lookup(e: Seq<(NodeKey, Node)>, a: NodeAddr)
    requires
        entries_wf(e),
    ensures
        has_key(e, key_of(a)) == has_addr(node_seq(e), a),
        has_key(e, key_of(a)) ==> key_index(e, key_of(a)) == addr_index(node_seq(e), a)
            && 0 <= key_index(e, key_of(a)) < e.len(),
{
    let s = node_seq(e);
    if has_key(e, key_of(a)) {
        let i = key_index(e, key_of(a));
        assert(e[i].0 == key_of(e[i].1.address));
        assert(s[i].address == a);
        let j = addr_index(s, a);
        assert(e[j].0 == key_of(e[j].1.address));
        assert(e[j].0 == key_of(a));
    }
    if has_addr(s, a) {
        let j = addr_index(s, a);
        assert(e[j].0 == key_of(e[j].1.address));
    }
}

proof fn lemma_swap_remove_entries(e: Seq<(NodeKey, Node)>, i: int)
    requires
        entries_wf(e),
        0 <= i < e.len(),
    ensures
        entries_wf(swap_remove(e, i)),
        node_seq(swap_remove(e, i)) == swap_remove(node_seq(e), i),
{
    let r = swap_remove(e, i);
    assert forall|a: int, b: int| 0 <= a < b < r.len() implies r[a].0 != r[b].0 by {
        if a == i {
            assert(r[a] == e[e.len() - 1]);
        } else if b == i {
            assert(r[b] == e[e.len() - 1]);
        }
    }
    assert forall|k: int| 0 <= k < r.len() implies #[trigger] r[k].0 == key_of(r[k].1.address) by {
        if k == i {
            assert(r[k] == e[e.len() - 1]);
        } else {
            assert(r[k] == e[k]);
        }
    }
    assert(node_seq(r) =~= swap_remove(node_seq(e), i));
}

proof fn lemma_insert_entries(e: Seq<(NodeKey, Node)>, n: Node)
    requires
        entries_wf(e),
    ensures
        entries_wf(entries_inserted(e, key_of(n.address), n)),
        node_seq(entries_inserted(e, key_of(n.address), n)) == with_node(node_seq(e), n),
{
    let k = key_of(n.address);
    lemma_key_lookup(e, n.address);
    let r = entries_inserted(e, k, n);
    if has_key(e, k) {
        let i = key_index(e, k);
        assert forall|a: int, b: int| 0 <= a < b < r.len() implies r[a].0 != r[b].0 by {
            if a == i {
                assert(r[a].0 == e[i].0);
            } else if b == i {
                assert(r[b].0 == e[i].0);
            }
        }
        assert forall|j: int| 0 <= j < r.len() implies #[trigger] r[j].0 == key_of(
            r[j].1.address,
        ) by {
            if j != i {
                assert(r[j] == e[j]);
            }
        }
        assert(node_seq(r) =~= with_node(node_seq(e), n));
    } else {
        assert forall|a: int, b: int| 0 <= a < b < r.len() implies r[a].0 != r[b].0 by {
            if b == e.len() {
                assert(r[a] == e[a]);
            }
        }
        assert forall|j: int| 0 <= j < r.len() implies #[trigger] r[j].0 == key_of(
            r[j].1.address,
        ) by {
            if j < e.len() {
                assert(r[j] == e[j]);
            }
        }
        assert(node_seq(r) =~= with_node(node_seq(e), n));
    }
}

proof fn lemma_remove_entries(e: Seq<(NodeKey, Node)>, a: NodeAddr)
    requires
        entries_wf(e),
    ensures
        entries_wf(entries_removed(e, key_of(a))),
        node_seq(entries_removed(e, key_of(a))) == without_addr(node_seq(e), a),
{
    lemma_key_lookup(e, a);
    if has_key(e, key_of(a)) {
        lemma_swap_remove_entries(e, key_index(e, key_of(a)));
    }
}

/// The nodes a broadcaster sends to, each address at most once, kept in
/// the order they were added (a removal moves the last node into the gap).
#[derive(Debug)]
pub struct NodeSet {
    map: IndexMap<NodeKey, Node>,
}

impl NodeSet {
    #[verifier::type_invariant]
    spec fn inv(self) -> bool {
        &&& entries_wf(index_map_entries(self.map))
        &&& all_addrs_wf(node_seq(index_map_entries(self.map)))
    }

    /// The nodes, in order.
    pub closed spec fn nodes(&self) -> Seq<Node> {
        node_seq(index_map_entries(self.map))
    }

    /// An empty set.
    pub fn new() -> (s: NodeSet)
        ensures
            s.nodes() == Seq::<Node>::empty(),
    {
        let m = map_new();
        let s = NodeSet { map: m };
        assert(s.nodes() =~= Seq::<Node>::empty());
        s
    }

    /// Takes the map out, leaving an empty one in its place.
    fn take_map(&mut self) -> (m: IndexMap<NodeKey, Node>)
        ensures
            index_map_entries(m) == index_map_entries(old(self).map),
            entries_wf(index_map_entries(m)),
            all_addrs_wf(node_seq(index_map_entries(m))),
    {
        proof {
            use_type_invariant(&*self);
        }
        let mut m = map_new();
        std::mem::swap(&mut m, &mut self.map);
        m
    }

    /// Adds `node`; a node at the same address is replaced in place, and returned.
    pub fn insert(&mut self, node: Node) -> (r: Option<Node>)
        requires
            addr_wf(node.address),
        ensures
            final(self).nodes() == with_node(old(self).nodes(), node),
            distinct_addrs(final(self).nodes()),
            all_addrs_wf(final(self).nodes()),
            r == (if has_addr(old(self).nodes(), node.address) {
                Some(old(self).nodes()[addr_index(old(self).nodes(), node.address)])
            } else {
                None
            }),
    {
        let mut m = self.take_map();
        let ghost e = index_map_entries(m);
        proof {
            lemma_insert_entries(e, node);
            lemma_key_lookup(e, node.address);
            lemma_wf_distinct(entries_inserted(e, key_of(node.address), node));
            lemma_with_node_wf(node_seq(e), node);
        }
        let k = node.address.key();
        let r = map_insert(&mut m, k, node);
        self.map = m;
        r
    }

    /// Removes the node at `address`, if any, moving the last node into its
    /// place; returns the removed node.
    pub fn remove(&mut self, address: NodeAddr) -> (r: Option<Node>)
        ensures
            final(self).nodes() == without_addr(old(self).nodes(), address),
            distinct_addrs(final(self).nodes()),
            all_addrs_wf(final(self).nodes()),
            r == (if has_addr(old(self).nodes(), address) {
                Some(old(self).nodes()[addr_index(old(self).nodes(), address)])
            } else {
                None
            }),
    {
        let mut m = self.take_map();
        let ghost e = index_map_entries(m);
        proof {
            lemma_remove_entries(e, address);
            lemma_key_lookup(e, address);
            lemma_wf_distinct(entries_removed(e, key_of(address)));
            if has_addr(node_seq(e), address) {
                lemma_swap_remove_wf(node_seq(e), addr_index(node_seq(e), address));
            }
        }
        let k = address.key();
        let r = map_remove(&mut m, &k);
        self.map = m;
        r
    }

    /// The number of nodes.
    pub fn len(&self) -> (n: usize)
        ensures
            n == self.nodes().len(),
    {
        map_len(&self.map)
    }

    /// The node at position `i`, if there is one.
    pub fn get(&self, i: usize) -> (r: Option<Node>)
        ensures
            r == (if i < self.nodes().len() {
                Some(self.nodes()[i as int])
            } else {
                None
            }),
    {
        map_get_index(&self.map, i)
    }

    /// A copy of the set, with the same nodes in the same order.
    pub fn snapshot(&self) -> (s: NodeSet)
        ensures
            s.nodes() == self.nodes(),
            distinct_addrs(s.nodes()),
            all_addrs_wf(s.nodes()),
    {
        proof {
            use_type_invariant(self);
            lemma_wf_distinct(index_map_entries(self.map));
        }
        NodeSet { map: map_clone(&self.map) }
    }

    /// Removes the node at position `i` by moving the last node into its place.
    fn swap_remove_at(&mut self, i: usize)
        requires
            i < old(self).nodes().len(),
        ensures
            final(self).nodes() == swap_remove(old(self).nodes(), i as int),
            distinct_addrs(final(self).nodes()),
    {
        let mut m = self.take_map();
        let ghost e = index_map_entries(m);
        proof {
            lemma_swap_remove_entries(e, i as int);
            lemma_wf_distinct(swap_remove(e, i as int));
            lemma_swap_remove_wf(node_seq(e), i as int);
        }
        let _ = map_swap_remove_index(&mut m, i);
        self.map = m;
    }

    fn distinct(&self)
        ensures
            distinct_addrs(self.nodes()),
            all_addrs_wf(self.nodes()),
    {
        proof {
            use_type_invariant(self);
            lemma_wf_distinct(index_map_entries(self.map));
        }
    }
}

/// After adding `n`, the set has a node at `n`'s address and it is `n`; the
/// other addresses present are those present before; addresses stay distinct.
pub proof fn lemma_insert_then_present(s: Seq<Node>, n: Node)
    requires
        distinct_addrs(s),
    ensures
        has_addr(with_node(s, n), n.address),
        with_node(s, n)[addr_index(with_node(s, n), n.address)] == n,
        distinct_addrs(with_node(s, n)),
        forall|a: NodeAddr| a != n.address ==> has_addr(with_node(s, n), a) == has_addr(s, a),
{
    let t = with_node(s, n);
    if has_addr(s, n.address) {
        let i = addr_index(s, n.address);
        assert(t[i].address == n.address);
        assert forall|a: int, b: int| 0 <= a < b < t.len() implies t[a].address != t[b].address by {
            if a == i {
                assert(s[i].address == n.address);
            } else if b == i {
                assert(s[i].address == n.address);
            }
        }
        assert forall|a: NodeAddr| a != n.address implies has_addr(t, a) == has_addr(s, a) by {
            if has_addr(s, a) {
                let j = addr_index(s, a);
                assert(t[j] == s[j]);
            }
            if has_addr(t, a) {
                let j = addr_index(t, a);
                assert(t[j] == s[j]);
            }
        }
    } else {
        assert(t[s.len() as int].address == n.address);
        assert forall|a: NodeAddr| a != n.address implies has_addr(t, a) == has_addr(s, a) by {
            if has_addr(s, a) {
                let j = addr_index(s, a);
                assert(t[j] == s[j]);
            }
            if has_addr(t, a) {
                let j = addr_index(t, a);
                assert(t[j] == s[j]);
            }
        }
    }
    let j = addr_index(t, n.address);
    assert(t[j].address == n.address);
}

/// Removing the item at `i` from a list of distinct addresses: that address
/// is gone, every other item stays, one item fewer, addresses stay distinct.
pub proof fn lemma_swap_remove_drops_one(s: Seq<Node>, i: int)
    requires
        distinct_addrs(s),
        0 <= i < s.len(),
    ensures
        !has_addr(swap_remove(s, i), s[i].address),
        forall|j: int| 0 <= j < s.len() && j != i ==> swap_remove(s, i).contains(#[trigger] s[j]),
        swap_remove(s, i).len() == s.len() - 1,
        distinct_addrs(swap_remove(s, i)),
{
    let t = swap_remove(s, i);
    let last = s.len() - 1;
    if has_addr(t, s[i].address) {
        let j = addr_index(t, s[i].address);
        if j == i {
            assert(t[j] == s[last]);
        } else {
            assert(t[j] == s[j]);
        }
    }
    assert forall|j: int| 0 <= j < s.len() && j != i implies t.contains(#[trigger] s[j]) by {
        if j == last {
            assert(t[i] == s[j]);
        } else {
            assert(t[j] == s[j]);
        }
    }
    assert forall|a: int, b: int| 0 <= a < b < t.len() implies t[a].address != t[b].address by {
        if a == i {
            assert(t[a] == s[last]);
        } else if b == i {
            assert(t[b] == s[last]);
        }
    }
}

/// After removing address `a`, no node is at `a`; every other address
/// present before is still present; addresses stay distinct.
pub proof fn lemma_remove_then_absent(s: Seq<Node>, a: NodeAddr)
    requires
        distinct_addrs(s),
    ensures
        !has_addr(without_addr(s, a), a),
        forall|b: NodeAddr| b != a ==> has_addr(without_addr(s, a), b) == has_addr(s, b),
        distinct_addrs(without_addr(s, a)),
{
    if has_addr(s, a) {
        let i = addr_index(s, a);
        lemma_swap_remove_drops_one(s, i);
        let t = without_addr(s, a);
        assert forall|b: NodeAddr| b != a implies has_addr(t, b) == has_addr(s, b) by {
            if has_addr(s, b) {
                let j = addr_index(s, b);
                assert(t.contains(s[j]));
                let k = choose|k: int| 0 <= k < t.len() && t[k] == s[j];
                assert(t[k].address == b);
            }
            if has_addr(t, b) {
                let j = addr_index(t, b);
                if j == i {
                    assert(t[j] == s[s.len() - 1]);
                } else {
                    assert(t[j] == s[j]);
                }
            }
        }
    }
}

/// A run of a round in which no node had seen the message: from the nodes
/// `s`, the node at position `picks[k]` of what is left is tried at step `k`
/// and dropped. Whether each position is one of what is left.
pub open spec fn valid_run(s: Seq<Node>, picks: Seq<int>) -> bool
    decreases picks.len(),
{
    picks.len() == 0 || (0 <= picks[0] < s.len() && valid_run(
        swap_remove(s, picks[0]),
        picks.drop_first(),
    ))
}

/// The nodes tried in such a run, in order.
pub open spec fn tried(s: Seq<Node>, picks: Seq<int>) -> Seq<Node>
    decreases picks.len(),
{
    if picks.len() == 0 || !(0 <= picks[0] < s.len()) {
        Seq::empty()
    } else {
        seq![s[picks[0]]] + tried(swap_remove(s, picks[0]), picks.drop_first())
    }
}

/// The nodes left after such a run.
pub open spec fn left_after(s: Seq<Node>, picks: Seq<int>) -> Seq<Node>
    decreases picks.len(),
{
    if picks.len() == 0 || !(0 <= picks[0] < s.len()) {
        s
    } else {
        left_after(swap_remove(s, picks[0]), picks.drop_first())
    }
}

/// A whole round: however the positions are picked, a round over nodes with
/// distinct addresses makes at most as many sends as there are nodes, tries
/// no node twice and only nodes of the round, and every node of the round is
/// either tried or still left; when as many sends were made as there are
/// nodes, every node was tried and none is left.
pub proof fn lemma_round_run(s: Seq<Node>, picks: Seq<int>)
    requires
        distinct_addrs(s),
        valid_run(s, picks),
    ensures
        picks.len() <= s.len(),
        tried(s, picks).len() == picks.len(),
        left_after(s, picks).len() == s.len() - picks.len(),
        distinct_addrs(tried(s, picks)),
        distinct_addrs(left_after(s, picks)),
        forall|x: Node| #[trigger] tried(s, picks).contains(x) ==> s.contains(x),
        forall|x: Node| #[trigger] s.contains(x) ==> tried(s, picks).contains(x) || left_after(
            s,
            picks,
        ).contains(x),
        forall|i: int, j: int|
            0 <= i < tried(s, picks).len() && 0 <= j < left_after(s, picks).len() ==> tried(
                s,
                picks,
            )[i].address != left_after(s, picks)[j].address,
        picks.len() == s.len() ==> left_after(s, picks).len() == 0,
    decreases picks.len(),
{
    if picks.len() > 0 {
        let i = picks[0];
        let s1 = swap_remove(s, i);
        let rest = picks.drop_first();
        lemma_swap_remove_drops_one(s, i);
        lemma_round_run(s1, rest);
        let t = tried(s, picks);
        let t1 = tried(s1, rest);
        let l = left_after(s1, rest);
        assert(t == seq![s[i]] + t1);
        assert(left_after(s, picks) == l);
        assert forall|x: Node| s1.contains(x) implies s.contains(x) by {
            let k = choose|k: int| 0 <= k < s1.len() && s1[k] == x;
            if k == i {
                assert(s1[k] == s[s.len() - 1]);
            } else {
                assert(s1[k] == s[k]);
            }
        }
        assert forall|x: Node| #[trigger] t.contains(x) implies s.contains(x) by {
            let k = choose|k: int| 0 <= k < t.len() && t[k] == x;
            if k == 0 {
                assert(t[0] == s[i]);
            } else {
                assert(t[k] == t1[k - 1]);
                assert(t1.contains(x));
            }
        }
        assert forall|x: Node| #[trigger] s.contains(x) implies t.contains(x) || l.contains(x) by {
            let k = choose|k: int| 0 <= k < s.len() && s[k] == x;
            if k == i {
                assert(t[0] == x);
            } else {
                assert(s1.contains(s[k]));
                if t1.contains(x) {
                    let m = choose|m: int| 0 <= m < t1.len() && t1[m] == x;
                    assert(t[m + 1] == x);
                }
            }
        }
        // nodes of s1 (hence of t1 and l) do not have the address of s[i]
        assert forall|x: Node| s1.contains(x) implies x.address != s[i].address by {
            let k = choose|k: int| 0 <= k < s1.len() && s1[k] == x;
        }
        assert forall|a: int, b: int| 0 <= a < b < t.len() implies t[a].address != t[b].address by {
            assert(t[b] == t1[b - 1]);
            if a == 0 {
                assert(t1.contains(t1[b - 1]));
                assert(s1.contains(t1[b - 1]));
            } else {
                assert(t[a] == t1[a - 1]);
            }
        }
        assert forall|a: int, b: int|
            0 <= a < t.len() && 0 <= b < l.len() implies t[a].address != l[b].address by {
            if a == 0 {
                assert(l.contains(l[b]));
                assert(t1.contains(l[b]) || l.contains(l[b]));
                assert(s1.contains(l[b])) by {
                    lemma_left_within(s1, rest);
                }
            } else {
                assert(t[a] == t1[a - 1]);
            }
        }
    }
}

/// What is left after a run is among the nodes it started with.
proof fn lemma_left_within(s: Seq<Node>, picks: Seq<int>)
    requires
        distinct_addrs(s),
        valid_run(s, picks),
    ensures
        forall|x: Node| #[trigger] left_after(s, picks).contains(x) ==> s.contains(x),
    decreases picks.len(),
{
    if picks.len() > 0 {
        let i = picks[0];
        let s1 = swap_remove(s, i);
        lemma_swap_remove_drops_one(s, i);
        lemma_left_within(s1, picks.drop_first());
        assert(left_after(s, picks) == left_after(s1, picks.drop_first()));
        assert forall|x: Node| #[trigger] left_after(s, picks).contains(x) implies s.contains(x) by {
            assert(s1.contains(x));
            let k = choose|k: int| 0 <= k < s1.len() && s1[k] == x;
            if k == i {
                assert(s1[k] == s[s.len() - 1]);
            } else {
                assert(s1[k] == s[k]);
            }
        }
    }
}

/// One round of a broadcast: the nodes not yet tried.
#[derive(Debug)]
pub struct BroadcastRound {
    targets: NodeSet,
}

impl BroadcastRound {
    /// The nodes not yet tried, in order.
    pub closed spec fn remaining(&self) -> Seq<Node> {
        self.targets.nodes()
    }

    /// A round over `targets` (a snapshot of the broadcaster's nodes).
    pub fn new(targets: NodeSet) -> (r: BroadcastRound)
        ensures
            r.remaining() == targets.nodes(),
            distinct_addrs(r.remaining()),
    {
        targets.distinct();
        BroadcastRound { targets }
    }

    /// The number of nodes not yet tried.
    pub fn remaining_len(&self) -> (n: usize)
        ensures
            n == self.remaining().len(),
    {
        self.targets.len()
    }

    /// Picks, at random, the next node to send to, with its position; `None`
    /// when every node has been tried and the round is over.
    pub fn next_target(&self) -> (r: Option<(usize, Node)>)
        ensures
            r is None <==> self.remaining().len() == 0,
            r matches Some((i, n)) ==> i < self.remaining().len() && n == self.remaining()[i as int],
    {
        let n = self.targets.len();
        if n == 0 {
            return None;
        }
        let i = random_below(n);
        match self.targets.get(i) {
            Some(node) => Some((i, node)),
            None => None,
        }
    }

    /// Takes the answer of the node at position `i`. The round is over when
    /// the node had already seen the message (`Ok(true)`); on any other
    /// answer, including an error, the node is dropped from the round.
    /// Returns whether the round is over.
    pub fn record_reply(&mut self, i: usize, reply: Result<bool, FabError>) -> (finished: bool)
        requires
            i < old(self).remaining().len(),
        ensures
            finished == (reply is Ok && reply->Ok_0),
            finished ==> final(self).remaining() == old(self).remaining(),
            !finished ==> final(self).remaining() == swap_remove(old(self).remaining(), i as int),
            distinct_addrs(final(self).remaining()),
    {
        match reply {
            Ok(true) => {
                self.targets.distinct();
                true
            },
            _ => {
                self.targets.swap_remove_at(i);
                false
            },
        }
    }
}
} // verus!
