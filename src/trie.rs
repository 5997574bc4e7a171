//! A persistent trie over byte keys. Nodes live in an arena and are never
//! changed once written: `insert` and `remove` append copies of the nodes on
//! the key's path, so every earlier root stays a valid snapshot. A node's
//! children are an `im::OrdMap` from byte to node index.
use vstd::prelude::*;

verus! {

#[verifier::external_type_specification]
#[verifier::external_body]
#[verifier::reject_recursive_types(K)]
#[verifier::reject_recursive_types(V)]
pub struct ExOrdMap<K, V>(im::OrdMap<K, V>);

/// The edges held by an `im::OrdMap` of child links.
pub uninterp spec fn edges_of(m: im::OrdMap<u8, usize>) -> Map<u8, usize>;

/// The edges of a node without children.
pub open spec fn no_edges() -> Map<u8, usize> {
    Map::empty()
}

/// Relies on `im::OrdMap::new`: the map starts empty.
#[verifier::external_body]
fn edges_new() -> (r: im::OrdMap<u8, usize>)
    ensures
        edges_of(r) == no_edges(),
{
    im::OrdMap::new()
}

/// Relies on `im::OrdMap::get`: the value stored under the key, if any.
#[verifier::external_body]
fn edges_get(m: &im::OrdMap<u8, usize>, k: u8) -> (r: Option<usize>)
    ensures
        r == (if edges_of(*m).contains_key(k) {
            Some(edges_of(*m)[k])
        } else {
            None
        }),
{
    m.get(&k).copied()
}

/// Relies on `im::OrdMap::update`: a new map with the key set, the old one unchanged.
#[verifier::external_body]
fn edges_update(m: &im::OrdMap<u8, usize>, k: u8, v: usize) -> (r: im::OrdMap<u8, usize>)
    ensures
        edges_of(r) == edges_of(*m).insert(k, v),
{
    m.update(k, v)
}

/// Relies on `im::OrdMap::without`: a new map without the key, the old one unchanged.
#[verifier::external_body]
fn edges_without(m: &im::OrdMap<u8, usize>, k: u8) -> (r: im::OrdMap<u8, usize>)
    ensures
        edges_of(r) == edges_of(*m).remove(k),
{
    m.without(&k)
}

/// Relies on `Clone for im::OrdMap`: the copy holds the same entries.
#[verifier::external_body]
fn edges_clone(m: &im::OrdMap<u8, usize>) -> (r: im::OrdMap<u8, usize>)
    ensures
        edges_of(r) == edges_of(*m),
{
    m.clone()
}

/// Relies on `im::OrdMap::is_empty`: whether the map holds no entry.
#[verifier::external_body]
fn edges_is_empty(m: &im::OrdMap<u8, usize>) -> (r: bool)
    ensures
        r <==> edges_of(*m).dom() == Set::<u8>::empty(),
{
    m.is_empty()
}

/// Relies on `im::OrdMap::iter`: every entry, each once, in key order.
#[verifier::external_body]
fn edges_entries(m: &im::OrdMap<u8, usize>) -> (r: Vec<(u8, usize)>)
    ensures
        forall|i: int|
            0 <= i < r@.len() ==> edges_of(*m).contains_key(#[trigger] r@[i].0) && edges_of(
                *m,
            )[r@[i].0] == r@[i].1,
        forall|k: u8|
            #[trigger] edges_of(*m).contains_key(k) ==> exists|i: int|
                0 <= i < r@.len() && r@[i].0 == k,
        forall|i: int, j: int| 0 <= i < j < r@.len() ==> r@[i].0 < r@[j].0,
{
    m.iter().map(|(k, v)| (*k, *v)).collect()
}

/// One node: its children by byte and the value stored at it.
pub struct TrieNode {
    pub children: im::OrdMap<u8, usize>,
    pub value: Option<u128>,
}

impl TrieNode {
    /// A node without children or value.
    pub fn new() -> (r: TrieNode)
        ensures
            edges_of(r.children) == no_edges(),
            r.value is None,
    {
        TrieNode { children: edges_new(), value: None }
    }
}

/// The value found by following `key` from node `n`.
pub open spec fn lookup(nodes: Seq<TrieNode>, n: int, key: Seq<u8>) -> Option<u128>
    decreases key.len(),
{
    if !(0 <= n < nodes.len()) {
        None
    } else if key.len() == 0 {
        nodes[n].value
    } else if edges_of(nodes[n].children).contains_key(key[0]) {
        lookup(nodes, edges_of(nodes[n].children)[key[0]] as int, key.drop_first())
    } else {
        None
    }
}

/// Whether following `key` from node `n` reaches a node, valued or not.
pub open spec fn path_exists(nodes: Seq<TrieNode>, n: int, key: Seq<u8>) -> bool
    decreases key.len(),
{
    if !(0 <= n < nodes.len()) {
        false
    } else if key.len() == 0 {
        true
    } else if edges_of(nodes[n].children).contains_key(key[0]) {
        path_exists(nodes, edges_of(nodes[n].children)[key[0]] as int, key.drop_first())
    } else {
        false
    }
}

/// A key whose path is missing holds no value.
proof fn lemma_no_path_no_value(nodes: Seq<TrieNode>, n: int, key: Seq<u8>)
    requires
        !path_exists(nodes, n, key),
    ensures
        lookup(nodes, n, key) is None,
    decreases key.len(),
{
    if 0 <= n < nodes.len() && key.len() > 0 && edges_of(nodes[n].children).contains_key(key[0]) {
        lemma_no_path_no_value(nodes, edges_of(nodes[n].children)[key[0]] as int, key.drop_first());
    }
}

/// Every child link of a node points to an earlier node.
pub open spec fn node_wf(node: TrieNode, n: int) -> bool {
    forall|c: u8| #[trigger]
        edges_of(node.children).contains_key(c) ==> (edges_of(node.children)[c] as int) < n
}

pub open spec fn arena_wf(nodes: Seq<TrieNode>) -> bool {
    forall|n: int| 0 <= n < nodes.len() ==> node_wf(#[trigger] nodes[n], n)
}

/// Appending a node leaves every lookup from an existing node unchanged.
proof fn lemma_push_keeps(nodes: Seq<TrieNode>, node: TrieNode, n: int, key: Seq<u8>)
    requires
        arena_wf(nodes),
        0 <= n < nodes.len(),
    ensures
        lookup(nodes.push(node), n, key) == lookup(nodes, n, key),
    decreases key.len(),
{
    let big = nodes.push(node);
    assert(big[n] == nodes[n]);
    if key.len() > 0 && edges_of(nodes[n].children).contains_key(key[0]) {
        assert(node_wf(nodes[n], n));
        let c = edges_of(nodes[n].children)[key[0]] as int;
        lemma_push_keeps(nodes, node, c, key.drop_first());
    }
}

proof fn lemma_cons_eq(a: Seq<u8>, b: Seq<u8>)
    requires
        a.len() > 0,
        b.len() > 0,
        a[0] == b[0],
        a.drop_first() == b.drop_first(),
    ensures
        a == b,
{
    assert(a.drop_first().len() == a.len() - 1);
    assert(b.drop_first().len() == b.len() - 1);
    assert(a.len() == b.len());
    assert forall|j: int| 0 <= j < a.len() implies a[j] == b[j] by {
        if j > 0 {
            assert(a[j] == a.drop_first()[j - 1]);
            assert(b[j] == b.drop_first()[j - 1]);
        }
    }
    assert(a =~= b);
}

/// The value found by following `key` from a node with these children and value.
pub open spec fn node_lookup(
    nodes: Seq<TrieNode>,
    children: Map<u8, usize>,
    value: Option<u128>,
    key: Seq<u8>,
) -> Option<u128> {
    if key.len() == 0 {
        value
    } else if children.contains_key(key[0]) {
        lookup(nodes, children[key[0]] as int, key.drop_first())
    } else {
        None
    }
}

/// Appending a well-formed node keeps the arena well formed and every old node.
proof fn lemma_push_all(nodes: Seq<TrieNode>, node: TrieNode)
    requires
        arena_wf(nodes),
        node_wf(node, nodes.len() as int),
    ensures
        arena_wf(nodes.push(node)),
        forall|m: int, k: Seq<u8>|
            0 <= m < nodes.len() ==> #[trigger] lookup(nodes.push(node), m, k) == lookup(
                nodes,
                m,
                k,
            ),
{
    let big = nodes.push(node);
    assert forall|j: int| 0 <= j < big.len() implies node_wf(#[trigger] big[j], j) by {
        if j < nodes.len() {
            assert(big[j] == nodes[j]);
        }
    }
    assert forall|m: int, k: Seq<u8>| 0 <= m < nodes.len() implies #[trigger] lookup(
        big,
        m,
        k,
    ) == lookup(nodes, m, k) by {
        lemma_push_keeps(nodes, node, m, k);
    }
}

/// The appended node looks up through its own children and value.
proof fn lemma_node_lookup_push(nodes: Seq<TrieNode>, node: TrieNode, key: Seq<u8>)
    requires
        arena_wf(nodes),
        node_wf(node, nodes.len() as int),
    ensures
        lookup(nodes.push(node), nodes.len() as int, key) == node_lookup(
            nodes,
            edges_of(node.children),
            node.value,
            key,
        ),
{
    let big = nodes.push(node);
    assert(big[nodes.len() as int] == node);
    if key.len() > 0 && edges_of(node.children).contains_key(key[0]) {
        let c = edges_of(node.children)[key[0]] as int;
        lemma_push_keeps(nodes, node, c, key.drop_first());
    }
}

/// A node with no value and no children stores nothing.
proof fn lemma_empty_node(nodes: Seq<TrieNode>, n: int, key: Seq<u8>)
    requires
        0 <= n < nodes.len(),
        nodes[n].value is None,
        edges_of(nodes[n].children).dom() == Set::<u8>::empty(),
    ensures
        lookup(nodes, n, key) is None,
{
    if key.len() > 0 {
        assert(!edges_of(nodes[n].children).dom().contains(key[0]));
    }
}

/// A persistent trie: an arena of nodes and the node that is the current root.
pub struct Trie {
    nodes: Vec<TrieNode>,
    root: usize,
}

impl Trie {
    pub closed spec fn wf(&self) -> bool {
        &&& arena_wf(self.nodes@)
        &&& self.root < self.nodes@.len()
    }

    /// The mapping from keys to values held under the current root.
    pub closed spec fn view(&self) -> Map<Seq<u8>, u128> {
        Map::new(
            |k: Seq<u8>| lookup(self.nodes@, self.root as int, k) is Some,
            |k: Seq<u8>| lookup(self.nodes@, self.root as int, k).unwrap(),
        )
    }

    /// The mapping held under an earlier root.
    pub closed spec fn view_at(&self, root: int) -> Map<Seq<u8>, u128> {
        Map::new(
            |k: Seq<u8>| lookup(self.nodes@, root, k) is Some,
            |k: Seq<u8>| lookup(self.nodes@, root, k).unwrap(),
        )
    }

    /// The current root, usable later as a snapshot.
    pub closed spec fn root_id(&self) -> int {
        self.root as int
    }

    pub closed spec fn arena_len(&self) -> int {
        self.nodes@.len() as int
    }

    pub fn new() -> (r: Trie)
        ensures
            r.wf(),
            r@ == Map::<Seq<u8>, u128>::empty(),
    {
        let mut nodes: Vec<TrieNode> = Vec::new();
        nodes.push(TrieNode::new());
        let r = Trie { nodes, root: 0 };
        assert forall|k: Seq<u8>| lookup(r.nodes@, 0, k) is None by {
            lemma_empty_node(r.nodes@, 0, k);
        }
        assert(r@ =~= Map::<Seq<u8>, u128>::empty());
        r
    }

    /// Whether a node, valued or not, sits at the end of `key`.
    pub closed spec fn has_node(&self, key: Seq<u8>) -> bool {
        path_exists(self.nodes@, self.root as int, key)
    }

    /// The view is what the current root holds.
    pub proof fn lemma_view_is_root(&self)
        ensures
            self@ == self.view_at(self.root_id()),
    {
        assert(self@ =~= self.view_at(self.root_id()));
    }

    /// Whether following `key` reaches a node.
    pub fn reaches(&self, key: &[u8]) -> (r: bool)
        requires
            self.wf(),
        ensures
            r == self.has_node(key@),
    {
        let mut cur = self.root;
        let mut i: usize = 0;
        assert(key@.subrange(0, key@.len() as int) =~= key@);
        while i < key.len()
            invariant
                self.wf(),
                i <= key@.len(),
                cur < self.nodes@.len(),
                path_exists(self.nodes@, cur as int, key@.subrange(i as int, key@.len() as int))
                    == path_exists(self.nodes@, self.root as int, key@),
            decreases key@.len() - i,
        {
            let ghost rest = key@.subrange(i as int, key@.len() as int);
            assert(rest.drop_first() =~= key@.subrange(i + 1, key@.len() as int));
            match edges_get(&self.nodes[cur].children, key[i]) {
                Some(c) => {
                    assert(node_wf(self.nodes@[cur as int], cur as int));
                    cur = c;
                },
                None => {
                    return false;
                },
            }
            i = i + 1;
        }
        assert(key@.subrange(key@.len() as int, key@.len() as int) =~= Seq::<u8>::empty());
        true
    }

    /// The value stored under `key`.
    pub fn get(&self, key: &[u8]) -> (r: Option<u128>)
        requires
            self.wf(),
        ensures
            r == (if self@.contains_key(key@) {
                Some(self@[key@])
            } else {
                None
            }),
    {
        let mut cur = self.root;
        let mut i: usize = 0;
        assert(key@.subrange(0, key@.len() as int) =~= key@);
        while i < key.len()
            invariant
                self.wf(),
                i <= key@.len(),
                cur < self.nodes@.len(),
                lookup(self.nodes@, cur as int, key@.subrange(i as int, key@.len() as int))
                    == lookup(self.nodes@, self.root as int, key@),
            decreases key@.len() - i,
        {
            let ghost rest = key@.subrange(i as int, key@.len() as int);
            assert(rest.drop_first() =~= key@.subrange(i + 1, key@.len() as int));
            match edges_get(&self.nodes[cur].children, key[i]) {
                Some(c) => {
                    assert(node_wf(self.nodes@[cur as int], cur as int));
                    cur = c;
                },
                None => {
                    return None;
                },
            }
            i = i + 1;
        }
        assert(key@.subrange(key@.len() as int, key@.len() as int) =~= Seq::<u8>::empty());
        self.nodes[cur].value
    }

    /// Appends a copy of node `n` (or an empty node) holding `key[i..]` → `id`.
    fn insert_at(&mut self, n: Option<usize>, key: &[u8], i: usize, id: u128) -> (r: usize)
        requires
            old(self).wf(),
            i <= key@.len(),
            n matches Some(m) ==> m < old(self).nodes@.len(),
        ensures
            final(self).wf(),
            final(self).root == old(self).root,
            old(self).nodes@.len() <= r < final(self).nodes@.len(),
            forall|j: int|
                0 <= j < old(self).nodes@.len() ==> #[trigger] final(self).nodes@[j] == old(
                    self,
                ).nodes@[j],
            forall|m: int, k: Seq<u8>|
                0 <= m < old(self).nodes@.len() ==> #[trigger] lookup(final(self).nodes@, m, k)
                    == lookup(old(self).nodes@, m, k),
            forall|k: Seq<u8>| #[trigger]
                lookup(final(self).nodes@, r as int, k) == if k == key@.subrange(
                    i as int,
                    key@.len() as int,
                ) {
                    Some(id)
                } else {
                    lookup_or_none(old(self).nodes@, n, k)
                },
        decreases key@.len() - i,
    {
        let ghost old_nodes = self.nodes@;
        let ghost suffix = key@.subrange(i as int, key@.len() as int);
        proof {
            if let Some(m) = n {
                assert(node_wf(old_nodes[m as int], m as int));
            }
        }
        let children;
        let value;
        if i == key.len() {
            children = match n {
                Some(m) => edges_clone(&self.nodes[m].children),
                None => edges_new(),
            };
            value = Some(id);
            proof {
                assert forall|k: Seq<u8>| #[trigger]
                    node_lookup(self.nodes@, edges_of(children), value, k) == if k == suffix {
                        Some(id)
                    } else {
                        lookup_or_none(old_nodes, n, k)
                    } by {
                    if k.len() == 0 {
                        assert(k =~= suffix);
                    } else {
                        assert(k != suffix);
                    }
                }
            }
        } else {
            let b = key[i];
            let child = match n {
                Some(m) => edges_get(&self.nodes[m].children, b),
                None => None,
            };
            let new_child = self.insert_at(child, key, i + 1, id);
            children = match n {
                Some(m) => edges_update(&self.nodes[m].children, b, new_child),
                None => edges_update(&edges_new(), b, new_child),
            };
            value = match n {
                Some(m) => self.nodes[m].value,
                None => None,
            };
            proof {
                assert(suffix.len() > 0 && suffix[0] == b);
                assert(suffix.drop_first() =~= key@.subrange(i + 1, key@.len() as int));
                assert forall|k: Seq<u8>| #[trigger]
                    node_lookup(self.nodes@, edges_of(children), value, k) == if k == suffix {
                        Some(id)
                    } else {
                        lookup_or_none(old_nodes, n, k)
                    } by {
                    if k.len() == 0 {
                        assert(k != suffix);
                    } else if k[0] == b {
                        assert(lookup(self.nodes@, new_child as int, k.drop_first()) == if k.drop_first()
                            == suffix.drop_first() {
                            Some(id)
                        } else {
                            lookup_or_none(old_nodes, child, k.drop_first())
                        });
                        if k.drop_first() == suffix.drop_first() {
                            lemma_cons_eq(k, suffix);
                        }
                    } else {
                        assert(k != suffix);
                        if let Some(m) = n {
                            if edges_of(old_nodes[m as int].children).contains_key(k[0]) {
                                let c = edges_of(old_nodes[m as int].children)[k[0]] as int;
                                assert(lookup(self.nodes@, c, k.drop_first()) == lookup(
                                    old_nodes,
                                    c,
                                    k.drop_first(),
                                ));
                            }
                        }
                    }
                }
            }
        }
        let ghost mid = self.nodes@;
        let node = TrieNode { children, value };
        proof {
            assert forall|c: u8| #[trigger]
                edges_of(node.children).contains_key(c) implies (edges_of(node.children)[c] as int)
                < mid.len() by {
                if let Some(m) = n {
                    if edges_of(old_nodes[m as int].children).contains_key(c) {
                        assert(node_wf(old_nodes[m as int], m as int));
                    }
                }
            }
        }
        self.nodes.push(node);
        let r = self.nodes.len() - 1;
        proof {
            lemma_push_all(mid, node);
            assert forall|k: Seq<u8>| #[trigger]
                lookup(self.nodes@, r as int, k) == if k == suffix {
                    Some(id)
                } else {
                    lookup_or_none(old_nodes, n, k)
                } by {
                lemma_node_lookup_push(mid, node, k);
            }
        }
        r
    }

    /// Stores `id` under `key`. Earlier roots keep what they held.
    pub fn insert(&mut self, key: &[u8], id: u128)
        requires
            old(self).wf(),
        ensures
            final(self).wf(),
            final(self)@ == old(self)@.insert(key@, id),
            final(self).view_at(old(self).root_id()) == old(self)@,
            old(self).arena_len() <= final(self).arena_len(),
            forall|r: int|
                0 <= r < old(self).arena_len() ==> #[trigger] final(self).view_at(r) == old(
                    self,
                ).view_at(r),
    {
        let ghost prev = *self;
        let root = self.root;
        let r = self.insert_at(Some(root), key, 0, id);
        self.root = r;
        proof {
            assert(key@.subrange(0, key@.len() as int) =~= key@);
            assert(self@ =~= prev@.insert(key@, id));
            assert forall|q: int| 0 <= q < prev.arena_len() implies #[trigger] self.view_at(q)
                == prev.view_at(q) by {
                assert(self.view_at(q) =~= prev.view_at(q));
            }
        }
    }

    /// Appends copies of the path to `key[i..]` under `n` without that key;
    /// `None` when the copy would hold nothing and is left out.
    fn remove_at(&mut self, n: usize, key: &[u8], i: usize) -> (r: Option<usize>)
        requires
            old(self).wf(),
            i <= key@.len(),
            n < old(self).nodes@.len(),
        ensures
            final(self).wf(),
            final(self).root == old(self).root,
            old(self).nodes@.len() <= final(self).nodes@.len(),
            forall|j: int|
                0 <= j < old(self).nodes@.len() ==> #[trigger] final(self).nodes@[j] == old(
                    self,
                ).nodes@[j],
            forall|m: int, k: Seq<u8>|
                0 <= m < old(self).nodes@.len() ==> #[trigger] lookup(final(self).nodes@, m, k)
                    == lookup(old(self).nodes@, m, k),
            r matches Some(q) ==> q < final(self).nodes@.len(),
            forall|k: Seq<u8>| #[trigger]
                lookup_or_none(final(self).nodes@, r, k) == if k == key@.subrange(
                    i as int,
                    key@.len() as int,
                ) {
                    None
                } else {
                    lookup(old(self).nodes@, n as int, k)
                },
        decreases key@.len() - i,
    {
        let ghost old_nodes = self.nodes@;
        let ghost suffix = key@.subrange(i as int, key@.len() as int);
        proof {
            assert(node_wf(old_nodes[n as int], n as int));
        }
        let children;
        let value;
        if i == key.len() {
            children = edges_clone(&self.nodes[n].children);
            value = None;
            proof {
                assert forall|k: Seq<u8>| #[trigger]
                    node_lookup(self.nodes@, edges_of(children), value, k) == if k == suffix {
                        None
                    } else {
                        lookup(old_nodes, n as int, k)
                    } by {
                    if k.len() == 0 {
                        assert(k =~= suffix);
                    } else {
                        assert(k != suffix);
                    }
                }
            }
        } else {
            let b = key[i];
            proof {
                assert(suffix.len() > 0 && suffix[0] == b);
                assert(suffix.drop_first() =~= key@.subrange(i + 1, key@.len() as int));
            }
            match edges_get(&self.nodes[n].children, b) {
                None => {
                    proof {
                        assert forall|k: Seq<u8>| #[trigger]
                            lookup_or_none(self.nodes@, Some(n), k) == if k == suffix {
                                None
                            } else {
                                lookup(old_nodes, n as int, k)
                            } by {}
                    }
                    return Some(n);
                },
                Some(c) => {
                    let sub = self.remove_at(c, key, i + 1);
                    children = match sub {
                        Some(q) => edges_update(&self.nodes[n].children, b, q),
                        None => edges_without(&self.nodes[n].children, b),
                    };
                    value = self.nodes[n].value;
                    proof {
                        assert forall|k: Seq<u8>| #[trigger]
                            node_lookup(self.nodes@, edges_of(children), value, k) == if k
                                == suffix {
                                None
                            } else {
                                lookup(old_nodes, n as int, k)
                            } by {
                            if k.len() == 0 {
                                assert(k != suffix);
                            } else if k[0] == b {
                                assert(lookup_or_none(self.nodes@, sub, k.drop_first()) == if k.drop_first()
                                    == suffix.drop_first() {
                                    None
                                } else {
                                    lookup(old_nodes, c as int, k.drop_first())
                                });
                                if k.drop_first() == suffix.drop_first() {
                                    lemma_cons_eq(k, suffix);
                                }
                            } else {
                                assert(k != suffix);
                                if edges_of(old_nodes[n as int].children).contains_key(k[0]) {
                                    let c2 = edges_of(old_nodes[n as int].children)[k[0]] as int;
                                    assert(lookup(self.nodes@, c2, k.drop_first()) == lookup(
                                        old_nodes,
                                        c2,
                                        k.drop_first(),
                                    ));
                                }
                            }
                        }
                    }
                },
            }
        }
        let ghost mid = self.nodes@;
        let node = TrieNode { children, value };
        proof {
            assert forall|c: u8| #[trigger]
                edges_of(node.children).contains_key(c) implies (edges_of(node.children)[c] as int)
                < mid.len() by {
                if edges_of(old_nodes[n as int].children).contains_key(c) {
                    assert(node_wf(old_nodes[n as int], n as int));
                }
            }
        }
        if value.is_none() && edges_is_empty(&node.children) {
            proof {
                assert forall|k: Seq<u8>| #[trigger]
                    lookup_or_none(self.nodes@, None, k) == if k == suffix {
                        None
                    } else {
                        lookup(old_nodes, n as int, k)
                    } by {
                    assert(node_lookup(mid, edges_of(node.children), value, k) is None) by {
                        if k.len() > 0 {
                            assert(!edges_of(node.children).dom().contains(k[0]));
                        }
                    }
                }
            }
            return None;
        }
        self.nodes.push(node);
        let r = self.nodes.len() - 1;
        proof {
            lemma_push_all(mid, node);
            assert forall|k: Seq<u8>| #[trigger]
                lookup_or_none(self.nodes@, Some(r), k) == if k == suffix {
                    None
                } else {
                    lookup(old_nodes, n as int, k)
                } by {
                lemma_node_lookup_push(mid, node, k);
            }
        }
        Some(r)
    }

    /// Removes `key`, pruning nodes left without value or children; returns
    /// whether the key was present. Earlier roots keep what they held.
    pub fn remove(&mut self, key: &[u8]) -> (found: bool)
        requires
            old(self).wf(),
        ensures
            final(self).wf(),
            found == old(self).has_node(key@),
            old(self)@.contains_key(key@) ==> found,
            final(self).view_at(old(self).root_id()) == old(self)@,
            final(self)@ == old(self)@.remove(key@),
            old(self).arena_len() <= final(self).arena_len(),
            forall|r: int|
                0 <= r < old(self).arena_len() ==> #[trigger] final(self).view_at(r) == old(
                    self,
                ).view_at(r),
    {
        let ghost prev = *self;
        if !self.reaches(key) {
            proof {
                lemma_no_path_no_value(self.nodes@, self.root as int, key@);
            }
            assert(self@ =~= prev@.remove(key@));
            return false;
        }
        proof {
            if lookup(self.nodes@, self.root as int, key@) is Some {
                assert(self@.contains_key(key@));
            }
        }
        let root = self.root;
        let r = self.remove_at(root, key, 0);
        let ghost mid = self.nodes@;
        match r {
            Some(q) => {
                self.root = q;
            },
            None => {
                self.nodes.push(TrieNode::new());
                self.root = self.nodes.len() - 1;
                proof {
                    let node = self.nodes@[self.root as int];
                    assert forall|m: int, k: Seq<u8>|
                        0 <= m < mid.len() implies #[trigger] lookup(self.nodes@, m, k) == lookup(
                        mid,
                        m,
                        k,
                    ) by {
                        lemma_push_keeps(mid, node, m, k);
                    }
                    assert forall|k: Seq<u8>| lookup(self.nodes@, self.root as int, k) is None by {
                        lemma_empty_node(self.nodes@, self.root as int, k);
                    }
                    assert(arena_wf(self.nodes@)) by {
                        assert forall|j: int| 0 <= j < self.nodes@.len() implies node_wf(
                            #[trigger] self.nodes@[j],
                            j,
                        ) by {
                            if j < mid.len() {
                                assert(self.nodes@[j] == mid[j]);
                            }
                        }
                    }
                }
            },
        }
        proof {
            assert(key@.subrange(0, key@.len() as int) =~= key@);
            assert forall|k: Seq<u8>|
                lookup(self.nodes@, self.root as int, k) == if k == key@ {
                    None
                } else {
                    lookup(prev.nodes@, prev.root as int, k)
                } by {
                assert(lookup_or_none(mid, r, k) == if k == key@ {
                    None
                } else {
                    lookup(prev.nodes@, prev.root as int, k)
                });
                if let Some(q) = r {
                } else {
                    lemma_empty_node(self.nodes@, self.root as int, k);
                }
            }
            assert(self@ =~= prev@.remove(key@));
            assert forall|q: int| 0 <= q < prev.arena_len() implies #[trigger] self.view_at(q)
                == prev.view_at(q) by {
                assert(self.view_at(q) =~= prev.view_at(q));
            }
        }
        true
    }

    /// Appends to `out` every (key, value) pair stored under node `n`, each
    /// key prefixed by `prefix`.
    fn collect(&self, n: usize, prefix: &mut Vec<u8>, out: &mut Vec<(Vec<u8>, u128)>)
        requires
            self.wf(),
            n < self.nodes@.len(),
        ensures
            final(prefix)@ == old(prefix)@,
            old(out)@.len() <= final(out)@.len(),
            forall|j: int|
                0 <= j < old(out)@.len() ==> #[trigger] final(out)@[j] == old(out)@[j],
            forall|j: int|
                old(out)@.len() <= j < final(out)@.len() ==> {
                    let e = #[trigger] final(out)@[j];
                    &&& old(prefix)@.is_prefix_of(e.0@)
                    &&& lookup(self.nodes@, n as int, e.0@.subrange(
                        old(prefix)@.len() as int,
                        e.0@.len() as int,
                    )) == Some(e.1)
                },
            forall|k: Seq<u8>|
                #[trigger] lookup(self.nodes@, n as int, k) is Some ==> exists|j: int|
                    old(out)@.len() <= j < final(out)@.len() && final(out)@[j].0@ == old(
                        prefix,
                    )@ + k,
        decreases n,
    {
        let ghost out0 = out@;
        let ghost p0 = prefix@;
        if let Some(v) = self.nodes[n].value {
            out.push((prefix.clone(), v));
            proof {
                let e = out@[out@.len() - 1];
                assert(e.0@ =~= p0);
                assert(e.0@.subrange(p0.len() as int, e.0@.len() as int) =~= Seq::<u8>::empty());
                assert(p0 + Seq::<u8>::empty() =~= p0);
            }
        }
        let ghost out1 = out@;
        let entries = edges_entries(&self.nodes[n].children);
        proof {
            assert(node_wf(self.nodes@[n as int], n as int));
        }
        let mut i: usize = 0;
        while i < entries.len()
            invariant
                self.wf(),
                n < self.nodes@.len(),
                node_wf(self.nodes@[n as int], n as int),
                prefix@ == p0,
                i <= entries@.len(),
                out0.len() <= out1.len() <= out@.len(),
                forall|j: int| 0 <= j < out1.len() ==> #[trigger] out@[j] == out1[j],
                forall|j: int| 0 <= j < out0.len() ==> #[trigger] out1[j] == out0[j],
                forall|j: int|
                    0 <= j < entries@.len() ==> edges_of(self.nodes@[n as int].children).contains_key(
                        #[trigger] entries@[j].0,
                    ) && edges_of(self.nodes@[n as int].children)[entries@[j].0] == entries@[j].1,
                forall|j: int|
                    out0.len() <= j < out@.len() ==> {
                        let e = #[trigger] out@[j];
                        &&& p0.is_prefix_of(e.0@)
                        &&& lookup(self.nodes@, n as int, e.0@.subrange(
                            p0.len() as int,
                            e.0@.len() as int,
                        )) == Some(e.1)
                    },
                self.nodes@[n as int].value is Some ==> out1[out1.len() - 1].0@ == p0 + Seq::<
                    u8,
                >::empty() && out0.len() < out1.len(),
                forall|t: int, k: Seq<u8>|
                    0 <= t < i && #[trigger] lookup(self.nodes@, entries@[t].1 as int, k) is Some
                        ==> exists|j: int|
                        out0.len() <= j < out@.len() && out@[j].0@ == p0 + seq![entries@[t].0]
                            + k,
            decreases entries@.len() - i,
        {
            let (b, c) = entries[i];
            let ghost out_before = out@;
            prefix.push(b);
            self.collect(c, prefix, out);
            prefix.pop();
            proof {
                assert(prefix@ =~= p0);
                assert forall|j: int| out0.len() <= j < out@.len() implies {
                    let e = #[trigger] out@[j];
                    &&& p0.is_prefix_of(e.0@)
                    &&& lookup(self.nodes@, n as int, e.0@.subrange(
                        p0.len() as int,
                        e.0@.len() as int,
                    )) == Some(e.1)
                } by {
                    if j >= out_before.len() {
                        let e = out@[j];
                        let pb = p0.push(b);
                        assert(pb.is_prefix_of(e.0@));
                        let rest = e.0@.subrange(p0.len() as int, e.0@.len() as int);
                        assert(rest.len() > 0 && rest[0] == b) by {
                            assert(pb[p0.len() as int] == b);
                            assert(e.0@.subrange(0, pb.len() as int)[p0.len() as int] == b);
                        }
                        assert(rest.drop_first() =~= e.0@.subrange(pb.len() as int, e.0@.len() as int));
                        assert(p0 =~= e.0@.subrange(0, p0.len() as int)) by {
                            assert forall|x: int| 0 <= x < p0.len() implies p0[x] == e.0@[x] by {
                                assert(pb[x] == p0[x]);
                                assert(e.0@.subrange(0, pb.len() as int)[x] == e.0@[x]);
                            }
                        }
                    } else {
                        assert(out@[j] == out_before[j]);
                    }
                }
                assert forall|t: int, k: Seq<u8>|
                    0 <= t < i + 1 && #[trigger] lookup(self.nodes@, entries@[t].1 as int, k) is Some
                        implies exists|j: int|
                    out0.len() <= j < out@.len() && out@[j].0@ == p0 + seq![entries@[t].0] + k by {
                    if t == i {
                        let j = choose|j: int|
                            out_before.len() <= j < out@.len() && out@[j].0@ == p0.push(b) + k;
                        assert(p0.push(b) + k =~= p0 + seq![b] + k);
                    } else {
                        let j = choose|j: int|
                            out0.len() <= j < out_before.len() && out_before[j].0@ == p0 + seq![
                                entries@[t].0,
                            ] + k;
                        assert(out@[j] == out_before[j]);
                    }
                }
            }
            i = i + 1;
        }
        proof {
            assert forall|k: Seq<u8>| #[trigger]
                lookup(self.nodes@, n as int, k) is Some implies exists|j: int|
                out0.len() <= j < out@.len() && out@[j].0@ == p0 + k by {
                if k.len() == 0 {
                    let j = out1.len() - 1;
                    assert(out@[j] == out1[j]);
                    assert(p0 + k =~= p0);
                    assert(p0 + Seq::<u8>::empty() =~= p0);
                } else {
                    let b = k[0];
                    let edges = edges_of(self.nodes@[n as int].children);
                    assert(edges.contains_key(b));
                    let t = choose|t: int| 0 <= t < entries@.len() && entries@[t].0 == b;
                    assert(entries@[t].1 == edges[b]);
                    assert(lookup(self.nodes@, entries@[t].1 as int, k.drop_first()) is Some);
                    assert(p0 + seq![b] + k.drop_first() =~= p0 + k);
                }
            }
        }
    }

    /// Every (key, value) pair under the current root.
    pub fn entries(&self) -> (r: Vec<(Vec<u8>, u128)>)
        requires
            self.wf(),
        ensures
            forall|j: int|
                0 <= j < r@.len() ==> self@.contains_key(#[trigger] r@[j].0@) && self@[r@[j].0@]
                    == r@[j].1,
            forall|k: Seq<u8>| #[trigger]
                self@.contains_key(k) ==> exists|j: int| 0 <= j < r@.len() && r@[j].0@ == k,
    {
        let mut out: Vec<(Vec<u8>, u128)> = Vec::new();
        let mut prefix: Vec<u8> = Vec::new();
        self.collect(self.root, &mut prefix, &mut out);
        proof {
            assert forall|j: int| 0 <= j < out@.len() implies self@.contains_key(
                #[trigger] out@[j].0@,
            ) && self@[out@[j].0@] == out@[j].1 by {
                assert(out@[j].0@.subrange(0, out@[j].0@.len() as int) =~= out@[j].0@);
            }
            assert forall|k: Seq<u8>| #[trigger] self@.contains_key(k) implies exists|j: int|
                0 <= j < out@.len() && out@[j].0@ == k by {
                assert(lookup(self.nodes@, self.root as int, k) is Some);
                assert(Seq::<u8>::empty() + k =~= k);
            }
        }
        out
    }
}

/// A lookup from an optional node, where no node stores nothing.
pub open spec fn lookup_or_none(nodes: Seq<TrieNode>, n: Option<usize>, key: Seq<u8>) -> Option<
    u128,
> {
    match n {
        Some(m) => lookup(nodes, m as int, key),
        None => None,
    }
}

} // verus!
