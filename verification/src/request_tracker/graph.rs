//! Directed acyclic graph of requests: a request that followed from the response to another
//! request is its child. Each request is stored once per (message key, disambiguator), the
//! disambiguator being what tells apart requests for the same data made in different
//! circumstances: the block presence the request was made for, or a request variant.

use crate::message::{key_of, MessageKey, MultiBlockPresence, Request};
use crate::request_tracker::RequestVariant;
use vstd::prelude::*;

verus! {

/// Key of a node in the graph.
#[derive(Clone, Copy, Eq, PartialEq, Hash, Debug, Structural)]
pub struct Key(pub usize);

/// What, besides the message key, tells two nodes apart.
pub trait Disambiguator: Copy {
    /// Whether the two are the same.
    fn same(&self, other: &Self) -> (r: bool)
        ensures
            r == (*self == *other),
    ;
}

impl Disambiguator for MultiBlockPresence {
    fn same(&self, other: &Self) -> (r: bool) {
        MultiBlockPresence::same(self, other)
    }
}

impl Disambiguator for RequestVariant {
    fn same(&self, other: &Self) -> (r: bool) {
        self.0 == other.0
    }
}

/// The set of keys in a sequence.
pub open spec fn key_set(s: Seq<Key>) -> Set<Key> {
    Set::new(|k: Key| s.contains(k))
}

proof fn lemma_key_set_take_step(s: Seq<Key>, i: int)
    requires
        0 <= i < s.len(),
    ensures
        key_set(s.take(i + 1)) == key_set(s.take(i)).insert(s[i]),
{
    assert(s.take(i + 1) =~= s.take(i).push(s[i]));
    assert forall|x: Key| key_set(s.take(i + 1)).contains(x) <==> key_set(s.take(i)).insert(s[i]).contains(x) by {
        if s.take(i).contains(x) {
            let j = choose|j: int| 0 <= j < s.take(i).len() && #[trigger] s.take(i)[j] == x;
            assert(s.take(i + 1)[j] == x);
        }
        if x == s[i] {
            assert(s.take(i + 1)[i] == x);
        }
        if s.take(i + 1).contains(x) {
            let j = choose|j: int| 0 <= j < s.take(i + 1).len() && #[trigger] s.take(i + 1)[j] == x;
            if j < i {
                assert(s.take(i)[j] == x);
            }
        }
    }
    assert(key_set(s.take(i + 1)) =~= key_set(s.take(i)).insert(s[i]));
}

/// What a node holds.
pub struct NodeView<D, T> {
    pub request: Request,
    pub disambiguator: D,
    pub parents: Set<Key>,
    pub children: Set<Key>,
    pub value: T,
}

/// The pair by which nodes are told apart.
pub open spec fn index_key<D, T>(n: NodeView<D, T>) -> (MessageKey, D) {
    (key_of(n.request), n.disambiguator)
}

pub struct Node<D, T> {
    request: Request,
    disambiguator: D,
    parents: Vec<Key>,
    children: Vec<Key>,
    value: T,
}

impl<D, T> Node<D, T> {
    pub closed spec fn view(&self) -> NodeView<D, T> {
        NodeView {
            request: self.request,
            disambiguator: self.disambiguator,
            parents: key_set(self.parents@),
            children: key_set(self.children@),
            value: self.value,
        }
    }

    pub closed spec fn wf(&self) -> bool {
        self.parents@.no_duplicates() && self.children@.no_duplicates()
    }

    pub fn value(&self) -> (r: &T)
        ensures
            *r == self.view().value,
    {
        &self.value
    }

    pub fn request(&self) -> (r: &Request)
        ensures
            *r == self.view().request,
    {
        &self.request
    }

    pub fn disambiguator(&self) -> (r: &D)
        ensures
            *r == self.view().disambiguator,
    {
        &self.disambiguator
    }

    /// Keys of the parents of this node, each once.
    pub fn parents(&self) -> (r: Vec<Key>)
        requires
            self.wf(),
        ensures
            key_set(r@) == self.view().parents,
            r@.no_duplicates(),
    {
        self.parents.clone()
    }

    /// Keys of the children of this node, each once.
    pub fn children(&self) -> (r: Vec<Key>)
        requires
            self.wf(),
        ensures
            key_set(r@) == self.view().children,
            r@.no_duplicates(),
    {
        self.children.clone()
    }
}

/// Adds `k` to the key set held in `v`.
fn set_insert(v: &mut Vec<Key>, k: Key)
    requires
        old(v)@.no_duplicates(),
    ensures
        final(v)@.no_duplicates(),
        key_set(final(v)@) == key_set(old(v)@).insert(k),
{
    let mut i: usize = 0;
    while i < v.len()
        invariant
            i <= v@.len(),
            v@ == old(v)@,
            v@.no_duplicates(),
            forall|j: int| 0 <= j < i ==> v@[j] != k,
        decreases v@.len() - i,
    {
        if v[i] == k {
            assert(v@.contains(k));
            assert(key_set(v@) =~= key_set(v@).insert(k));
            return;
        }
        i = i + 1;
    }
    let ghost before = v@;
    v.push(k);
    assert forall|a: int, b: int| 0 <= a < b < v@.len() implies v@[a] != v@[b] by {
        if b == v@.len() - 1 {
            assert(v@[a] == before[a]);
        } else {
            assert(v@[a] == before[a] && v@[b] == before[b]);
        }
    }
    assert forall|x: Key| v@.contains(x) <==> (before.contains(x) || x == k) by {
        if v@.contains(x) {
            let j = choose|j: int| 0 <= j < v@.len() && v@[j] == x;
            if j < before.len() {
                assert(before[j] == x);
            }
        }
        if before.contains(x) {
            let j = choose|j: int| 0 <= j < before.len() && before[j] == x;
            assert(v@[j] == x);
        }
        if x == k {
            assert(v@[v@.len() - 1] == k);
        }
    }
    assert forall|x: Key| key_set(v@).contains(x) <==> key_set(before).insert(k).contains(x) by {
        assert(key_set(v@).contains(x) == v@.contains(x));
        assert(key_set(before).contains(x) == before.contains(x));
    }
    assert(key_set(v@) =~= key_set(before).insert(k));
}

/// The keys of `v` other than `k`.
fn set_without(v: &Vec<Key>, k: Key) -> (r: Vec<Key>)
    requires
        v@.no_duplicates(),
    ensures
        r@.no_duplicates(),
        key_set(r@) == key_set(v@).remove(k),
{
    let mut r: Vec<Key> = Vec::new();
    let mut i: usize = 0;
    while i < v.len()
        invariant
            i <= v@.len(),
            v@.no_duplicates(),
            r@.no_duplicates(),
            forall|x: Key|
                r@.contains(x) <==> (x != k && exists|j: int| 0 <= j < i && v@[j] == x),
        decreases v@.len() - i,
    {
        let x = v[i];
        if x != k {
            let ghost before = r@;
            proof {
                assert(!before.contains(x)) by {
                    if before.contains(x) {
                        let j = choose|j: int| 0 <= j < i && v@[j] == x;
                        assert(v@[j] == v@[i as int]);
                    }
                }
            }
            r.push(x);
            assert forall|a: int, b: int| 0 <= a < b < r@.len() implies r@[a] != r@[b] by {
                if b == r@.len() - 1 {
                    assert(r@[a] == before[a]);
                    assert(before.contains(before[a]));
                } else {
                    assert(r@[a] == before[a] && r@[b] == before[b]);
                }
            }
            assert forall|y: Key|
                r@.contains(y) <==> (y != k && exists|j: int| 0 <= j < i + 1 && v@[j] == y) by {
                if r@.contains(y) {
                    let j = choose|j: int| 0 <= j < r@.len() && r@[j] == y;
                    if j < before.len() {
                        assert(before[j] == y);
                        assert(before.contains(y));
                    } else {
                        assert(v@[i as int] == y);
                    }
                }
                if y != k && exists|j: int| 0 <= j < i + 1 && v@[j] == y {
                    let j = choose|j: int| 0 <= j < i + 1 && v@[j] == y;
                    if j < i {
                        assert(before.contains(y));
                        let m = choose|m: int| 0 <= m < before.len() && before[m] == y;
                        assert(r@[m] == y);
                    } else {
                        assert(r@[r@.len() - 1] == y);
                    }
                }
            }
        } else {
            assert forall|y: Key|
                r@.contains(y) <==> (y != k && exists|j: int| 0 <= j < i + 1 && v@[j] == y) by {
                if y != k && exists|j: int| 0 <= j < i + 1 && v@[j] == y {
                    let j = choose|j: int| 0 <= j < i + 1 && v@[j] == y;
                    assert(j != i);
                }
            }
        }
        i = i + 1;
    }
    assert forall|y: Key| r@.contains(y) <==> key_set(v@).remove(k).contains(y) by {
        if y != k && v@.contains(y) {
            let j = choose|j: int| 0 <= j < v@.len() && v@[j] == y;
        }
    }
    assert(key_set(r@) =~= key_set(v@).remove(k));
    r
}

/// DAG for storing data for the request tracker.
pub struct Graph<D, T> {
    nodes: Vec<Option<Node<D, T>>>,
}

/// Number of occupied slots among the first `n`.
pub open spec fn occupied<D, T>(nodes: Seq<Option<Node<D, T>>>, n: int) -> nat
    decreases n,
{
    if n <= 0 {
        0
    } else {
        occupied(nodes, n - 1) + if nodes[n - 1] is Some {
            1nat
        } else {
            0nat
        }
    }
}

pub open spec fn occupied_keys<D, T>(nodes: Seq<Option<Node<D, T>>>, n: int) -> Set<Key> {
    Set::new(|k: Key| k.0 < n && k.0 < nodes.len() && nodes[k.0 as int] is Some)
}

proof fn lemma_occupied_card<D, T>(nodes: Seq<Option<Node<D, T>>>, n: int)
    requires
        0 <= n <= nodes.len(),
        nodes.len() <= usize::MAX,
    ensures
        occupied_keys(nodes, n).finite(),
        occupied_keys(nodes, n).len() == occupied(nodes, n),
        occupied(nodes, n) <= n,
    decreases n,
{
    if n == 0 {
        assert(occupied_keys(nodes, n) =~= Set::empty());
    } else {
        lemma_occupied_card(nodes, n - 1);
        let prev = occupied_keys(nodes, n - 1);
        if nodes[n - 1] is Some {
            assert(occupied_keys(nodes, n) =~= prev.insert(Key((n - 1) as usize)));
        } else {
            assert(occupied_keys(nodes, n) =~= prev);
        }
    }
}

impl<D: Disambiguator, T> Graph<D, T> {
    pub closed spec fn live(&self, k: Key) -> bool {
        k.0 < self.nodes@.len() && self.nodes@[k.0 as int] is Some
    }

    pub closed spec fn view(&self) -> Map<Key, NodeView<D, T>> {
        Map::new(|k: Key| self.live(k), |k: Key| self.nodes@[k.0 as int]->Some_0.view())
    }

    proof fn lemma_view_at(&self, i: usize)
        requires
            i < self.nodes@.len(),
            self.nodes@[i as int] is Some,
        ensures
            self.view().contains_key(Key(i)),
            self.view()[Key(i)] == self.nodes@[i as int]->Some_0.view(),
    {
        assert(self.live(Key(i)));
    }

    proof fn lemma_live_iff(&self, k: Key)
        ensures
            self.live(k) <==> self.view().contains_key(k),
    {
    }

    pub closed spec fn nodes_wf(&self) -> bool {
        forall|i: int|
            0 <= i < self.nodes@.len() && #[trigger] self.nodes@[i] is Some ==> self.nodes@[i]->Some_0.wf()
    }

    /// The graph is consistent: a child link is mutual and names a node of the graph, a parent
    /// link to a node of the graph is mutual (a node may keep as parent a key the graph does not
    /// hold), and no two nodes share a (message key, disambiguator) pair.
    pub open spec fn wf(&self) -> bool {
        &&& self.nodes_wf()
        &&& links_consistent(self.view())
        &&& keys_unique(self.view())
    }

    pub fn new() -> (r: Self)
        ensures
            r.wf(),
            r.view() == Map::<Key, NodeView<D, T>>::empty(),
    {
        let r = Graph { nodes: Vec::new() };
        assert(r.view() =~= Map::<Key, NodeView<D, T>>::empty());
        r
    }

    pub fn get(&self, key: Key) -> (r: Option<&Node<D, T>>)
        requires
            self.wf(),
        ensures
            r is Some <==> self.view().contains_key(key),
            r matches Some(n) ==> n.view() == self.view()[key] && n.wf(),
    {
        if key.0 < self.nodes.len() {
            match &self.nodes[key.0] {
                Some(n) => Some(n),
                None => None,
            }
        } else {
            None
        }
    }

    /// The graph has finitely many nodes.
    pub proof fn lemma_dom_finite(&self)
        ensures
            self.view().dom().finite(),
            self.view().dom().len() <= usize::MAX,
    {
        assert(self.nodes@.len() <= usize::MAX) by {
            assert(self.nodes@.len() == self.nodes.len());
        }
        lemma_occupied_card(self.nodes@, self.nodes@.len() as int);
        assert(self.view().dom() =~= occupied_keys(self.nodes@, self.nodes@.len() as int));
    }

    /// Number of nodes in the graph.
    pub fn len(&self) -> (r: usize)
        ensures
            r == self.view().dom().len(),
    {
        let mut count: usize = 0;
        let mut i: usize = 0;
        while i < self.nodes.len()
            invariant
                i <= self.nodes@.len(),
                count == occupied(self.nodes@, i as int),
                count <= i,
            decreases self.nodes@.len() - i,
        {
            if self.nodes[i].is_some() {
                count = count + 1;
            }
            i = i + 1;
        }
        proof {
            lemma_occupied_card(self.nodes@, self.nodes@.len() as int);
            assert(self.view().dom() =~= occupied_keys(self.nodes@, self.nodes@.len() as int));
        }
        count
    }

    /// The requests of all the nodes.
    pub fn requests(&self) -> (r: Vec<Request>)
        ensures
            r@.len() == self.view().dom().len(),
            forall|i: int| 0 <= i < r@.len() ==> is_request_of(self.view(), #[trigger] r@[i]),
    {
        let mut r: Vec<Request> = Vec::new();
        let ghost mut ks: Seq<Key> = Seq::empty();
        let mut i: usize = 0;
        while i < self.nodes.len()
            invariant
                i <= self.nodes@.len(),
                r@.len() == occupied(self.nodes@, i as int),
                ks.len() == r@.len(),
                forall|j: int|
                    0 <= j < r@.len() ==> self.view().contains_key(#[trigger] ks[j])
                        && self.view()[ks[j]].request == r@[j],
            decreases self.nodes@.len() - i,
        {
            match &self.nodes[i] {
                Some(n) => {
                    r.push(n.request);
                    proof {
                        self.lemma_view_at(i);
                        ks = ks.push(Key(i));
                    }
                },
                None => {},
            }
            i = i + 1;
        }
        proof {
            lemma_occupied_card(self.nodes@, self.nodes@.len() as int);
            assert(self.view().dom() =~= occupied_keys(self.nodes@, self.nodes@.len() as int));
            assert forall|j: int| 0 <= j < r@.len() implies is_request_of(
                self.view(),
                #[trigger] r@[j],
            ) by {
                let k = ks[j];
                assert(self.view().contains_key(k) && self.view()[k].request == r@[j]);
            }
        }
        r
    }
}


impl<D: Disambiguator, T> Graph<D, T> {
    fn is_live(&self, k: Key) -> (r: bool)
        ensures
            r == self.live(k),
    {
        k.0 < self.nodes.len() && self.nodes[k.0].is_some()
    }

    /// Takes the node out of its slot.
    fn take_node(&mut self, k: Key) -> (r: Node<D, T>)
        requires
            old(self).live(k),
            old(self).nodes_wf(),
        ensures
            final(self).nodes_wf(),
            final(self).nodes@.len() == old(self).nodes@.len(),
            !final(self).live(k),
            r.view() == old(self).view()[k],
            r.wf(),
            final(self).view() == old(self).view().remove(k),
    {
        let mut slot: Option<Node<D, T>> = None;
        std::mem::swap(&mut self.nodes[k.0], &mut slot);
        let node = slot.unwrap();
        proof {
            assert(self.view() =~= old(self).view().remove(k));
        }
        node
    }

    /// Puts the node into the free slot `k`.
    fn put_node(&mut self, k: Key, node: Node<D, T>)
        requires
            k.0 < old(self).nodes@.len(),
            !old(self).live(k),
            old(self).nodes_wf(),
            node.wf(),
        ensures
            final(self).nodes_wf(),
            final(self).nodes@.len() == old(self).nodes@.len(),
            final(self).view() == old(self).view().insert(k, node.view()),
    {
        let ghost nv = node.view();
        self.nodes.set(k.0, Some(node));
        proof {
            assert(self.view() =~= old(self).view().insert(k, nv));
        }
    }

    fn update_links(&mut self, k: Key, add_parent: Option<Key>, add_child: Option<Key>, drop: Option<Key>)
        requires
            old(self).live(k),
            old(self).nodes_wf(),
        ensures
            final(self).nodes_wf(),
            final(self).nodes@.len() == old(self).nodes@.len(),
            final(self).view() == old(self).view().insert(
                k,
                relinked(old(self).view()[k], add_parent, add_child, drop),
            ),
    {
        let mut node = self.take_node(k);
        if let Some(p) = add_parent {
            set_insert(&mut node.parents, p);
        }
        if let Some(c) = add_child {
            set_insert(&mut node.children, c);
        }
        if let Some(d) = drop {
            node.parents = set_without(&node.parents, d);
            node.children = set_without(&node.children, d);
        }
        proof {
            let n = old(self).view()[k];
            let r = relinked(n, add_parent, add_child, drop);
            assert(key_set(node.parents@) =~= r.parents);
            assert(key_set(node.children@) =~= r.children);
            assert(node.view() == r);
        }
        self.put_node(k, node);
        proof {
            assert(self.view() =~= old(self).view().insert(
                k,
                relinked(old(self).view()[k], add_parent, add_child, drop),
            ));
        }
    }

    /// The node with the given message key and disambiguator, if there is one.
    pub fn lookup(&self, message_key: &MessageKey, disambiguator: &D) -> (r: Option<Key>)
        requires
            self.wf(),
        ensures
            r == spec_lookup(self.view(), (*message_key, *disambiguator)),
    {
        self.find(message_key, disambiguator)
    }

    /// Finds the node with the given message key and disambiguator.
    fn find(&self, message_key: &MessageKey, disambiguator: &D) -> (r: Option<Key>)
        requires
            self.wf(),
        ensures
            r == spec_lookup(self.view(), (*message_key, *disambiguator)),
    {
        let ghost ik = (*message_key, *disambiguator);
        let mut i: usize = 0;
        while i < self.nodes.len()
            invariant
                i <= self.nodes@.len(),
                self.wf(),
                ik == (*message_key, *disambiguator),
                forall|k: Key|
                    k.0 < i && #[trigger] self.view().contains_key(k) ==> index_key(self.view()[k]) != ik,
            decreases self.nodes@.len() - i,
        {
            match &self.nodes[i] {
                Some(node) => {
                    let mk = MessageKey::from_request(&node.request);
                    if mk.same(message_key) && node.disambiguator.same(disambiguator) {
                        proof {
                            self.lemma_view_at(i);
                            let k = Key(i);
                            assert(index_key(self.view()[k]) == ik);
                            let c = choose|c: Key|
                                self.view().contains_key(c) && index_key(self.view()[c]) == ik;
                            assert(c == k);
                        }
                        return Some(Key(i));
                    }
                    proof {
                        self.lemma_view_at(i);
                    }
                },
                None => {},
            }
            i = i + 1;
        }
        None
    }

    /// A free slot other than `avoid`, growing the slot table if need be.
    fn free_slot(&mut self, avoid: Option<Key>) -> (r: Key)
        requires
            old(self).nodes_wf(),
        ensures
            final(self).nodes_wf(),
            final(self).view() == old(self).view(),
            r.0 < final(self).nodes@.len(),
            !final(self).live(r),
            avoid != Some(r),
    {
        let mut i: usize = 0;
        while i < self.nodes.len()
            invariant
                i <= self.nodes@.len(),
                self.nodes@ == old(self).nodes@,
                self.nodes_wf(),
            decreases self.nodes@.len() - i,
        {
            if self.nodes[i].is_none() && avoid != Some(Key(i)) {
                return Key(i);
            }
            i = i + 1;
        }
        let ghost before = self.view();
        if avoid == Some(Key(self.nodes.len())) {
            self.nodes.push(None);
            proof {
                assert(self.view() =~= before);
            }
        }
        let k = Key(self.nodes.len());
        self.nodes.push(None);
        proof {
            assert(self.view() =~= before);
        }
        k
    }

    /// Drops `key` from the links of every node, `key` being no node of the graph.
    fn forget_key(&mut self, key: Key)
        requires
            old(self).nodes_wf(),
            !old(self).live(key),
        ensures
            final(self).nodes_wf(),
            final(self).nodes@.len() == old(self).nodes@.len(),
            !final(self).live(key),
            final(self).view() == unlinked_from(old(self).view(), key),
    {
        let ghost v = self.view();
        proof {
            assert(self.view() =~= scrubbed_below(v, key, 0));
        }
        let mut i: usize = 0;
        while i < self.nodes.len()
            invariant
                i <= self.nodes@.len(),
                self.nodes@.len() == old(self).nodes@.len(),
                self.nodes_wf(),
                !v.contains_key(key),
                self.view() == scrubbed_below(v, key, i as int),
            decreases self.nodes@.len() - i,
        {
            let ghost before = self.view();
            if self.is_live(Key(i)) {
                self.update_links(Key(i), None, None, Some(key));
                proof {
                    assert(self.view() =~= scrubbed_below(v, key, i + 1));
                }
            } else {
                proof {
                    assert(before =~= scrubbed_below(v, key, i + 1));
                }
            }
            i = i + 1;
        }
        proof {
            assert forall|k: Key| #[trigger] v.contains_key(k) implies k.0 < i by {
                assert(self.view().contains_key(k));
            }
            assert(self.view() =~= unlinked_from(v, key));
            self.lemma_live_iff(key);
        }
    }

    /// Returns the node for the request and disambiguator, inserting a new one (holding `value`)
    /// if there is none. The given parent, if any, becomes a parent of the node, and the node a
    /// child of the parent if the graph holds the parent. A new node takes a slot other than the
    /// given parent's, and no link left over to its slot carries over to it.
    pub fn get_or_insert(
        &mut self,
        request: Request,
        disambiguator: D,
        parent_key: Option<Key>,
        value: T,
    ) -> (r: Key)
        requires
            old(self).wf(),
        ensures
            final(self).wf(),
            spec_lookup(old(self).view(), (key_of(request), disambiguator)) matches Some(k) ==> r == k,
            spec_lookup(old(self).view(), (key_of(request), disambiguator)) is None
                ==> !old(self).view().contains_key(r) && parent_key != Some(r),
            final(self).view() == after_get_or_insert(
                old(self).view(),
                r,
                request,
                disambiguator,
                parent_key,
                value,
            ),
            parent_key matches Some(p) ==> final(self).view()[r].parents.contains(p),
            parent_key is Some && old(self).view().contains_key(parent_key->Some_0)
                ==> final(self).view()[parent_key->Some_0].children.contains(r),
    {
        let ghost old_view = self.view();
        let mk = MessageKey::from_request(&request);
        let found = self.find(&mk, &disambiguator);
        let node_key = match found {
            Some(k) => {
                proof {
                    self.lemma_live_iff(k);
                }
                if let Some(p) = parent_key {
                    self.update_links(k, Some(p), None, None);
                } else {
                    proof {
                        lemma_relinked_unchanged(old_view[k]);
                        assert(self.view() =~= old_view.insert(k, relinked(old_view[k], None, None, None)));
                    }
                }
                k
            },
            None => {
                let k = self.free_slot(parent_key);
                proof {
                    self.lemma_live_iff(k);
                }
                self.forget_key(k);
                let mut parents: Vec<Key> = Vec::new();
                if let Some(p) = parent_key {
                    parents.push(p);
                }
                let node = Node {
                    request,
                    disambiguator,
                    parents,
                    children: Vec::new(),
                    value,
                };
                proof {
                    assert(node.parents@.no_duplicates());
                    assert(node.children@.no_duplicates());
                    assert(key_set(node.parents@) =~= opt_key_set(parent_key)) by {
                        if let Some(p) = parent_key {
                            assert(node.parents@[0] == p);
                        }
                    }
                    assert(key_set(node.children@) =~= Set::<Key>::empty());
                }
                self.put_node(k, node);
                k
            },
        };
        let ghost mid = self.view();
        if let Some(p) = parent_key {
            if self.is_live(p) {
                proof {
                    self.lemma_live_iff(p);
                }
                self.update_links(p, None, Some(node_key), None);
            } else {
                proof {
                    self.lemma_live_iff(p);
                }
            }
        }
        proof {
            let after = after_get_or_insert(old_view, node_key, request, disambiguator, parent_key, value);
            assert(self.view() =~= after);
            lemma_get_or_insert_wf(old_view, node_key, request, disambiguator, parent_key, value);
        }
        node_key
    }

    /// Removes the node, unlinking it from its parents and children.
    pub fn remove(&mut self, key: Key) -> (r: Option<Node<D, T>>)
        requires
            old(self).wf(),
        ensures
            final(self).wf(),
            r is Some <==> old(self).view().contains_key(key),
            r matches Some(n) ==> n.view() == old(self).view()[key] && n.wf(),
            final(self).view() == after_remove(old(self).view(), key),
    {
        let ghost old_view = self.view();
        if !self.is_live(key) {
            proof {
                self.lemma_live_iff(key);
            }
            return None;
        }
        proof {
            self.lemma_live_iff(key);
            assert(self.view().remove(key) =~= partly_unlinked(old_view, key, Set::empty()));
        }
        let node = self.take_node(key);
        let mut i: usize = 0;
        while i < node.parents.len()
            invariant
                i <= node.parents@.len(),
                node.view() == old_view[key],
                node.wf(),
                old_view.contains_key(key),
                links_consistent(old_view),
                self.nodes_wf(),
                self.view() == partly_unlinked(old_view, key, key_set(node.parents@.take(i as int))),
            decreases node.parents@.len() - i,
        {
            let p = node.parents[i];
            proof {
                assert(key_set(node.parents@).contains(p));
                assert(old_view[key].parents.contains(p));
                lemma_key_set_take_step(node.parents@, i as int);
                lemma_unlink_step(old_view, key, key_set(node.parents@.take(i as int)), p);
                self.lemma_live_iff(p);
            }
            if self.is_live(p) {
                self.update_links(p, None, None, Some(key));
            }
            i = i + 1;
        }
        proof {
            assert(node.parents@.take(node.parents@.len() as int) =~= node.parents@);
        }
        let mut j: usize = 0;
        while j < node.children.len()
            invariant
                j <= node.children@.len(),
                node.view() == old_view[key],
                node.wf(),
                old_view.contains_key(key),
                links_consistent(old_view),
                self.nodes_wf(),
                self.view() == partly_unlinked(
                    old_view,
                    key,
                    key_set(node.parents@) + key_set(node.children@.take(j as int)),
                ),
            decreases node.children@.len() - j,
        {
            let c = node.children[j];
            proof {
                assert(key_set(node.children@).contains(c));
                assert(old_view[key].children.contains(c));
                lemma_key_set_take_step(node.children@, j as int);
                let before = key_set(node.parents@) + key_set(node.children@.take(j as int));
                assert(key_set(node.parents@) + key_set(node.children@.take(j + 1)) =~= before.insert(c));
                lemma_unlink_step(old_view, key, before, c);
                self.lemma_live_iff(c);
            }
            if self.is_live(c) {
                self.update_links(c, None, None, Some(key));
            }
            j = j + 1;
        }
        proof {
            assert(node.children@.take(node.children@.len() as int) =~= node.children@);
            lemma_fully_unlinked(old_view, key);
            lemma_remove_wf(old_view, key);
        }
        Some(node)
    }

    /// Mutable access to the value of a node.
    pub fn value_mut(&mut self, key: Key) -> (r: &mut T)
        requires
            old(self).wf(),
            old(self).view().contains_key(key),
        ensures
            *r == old(self).view()[key].value,
            final(self).wf(),
            final(self).view() == old(self).view().insert(
                key,
                with_value(old(self).view()[key], *final(r)),
            ),
    {
        self.slot_value_mut(key)
    }

    fn slot_value_mut(&mut self, key: Key) -> (r: &mut T)
        requires
            old(self).wf(),
            old(self).view().contains_key(key),
        ensures
            *r == old(self).view()[key].value,
            final(self).nodes_wf(),
            final(self).view() == old(self).view().insert(
                key,
                with_value(old(self).view()[key], *final(r)),
            ),
            links_consistent(old(self).view().insert(key, with_value(old(self).view()[key], *final(r)))),
            keys_unique(old(self).view().insert(key, with_value(old(self).view()[key], *final(r)))),
    {
        match &mut self.nodes[key.0] {
            Some(node) => {
                let r = &mut node.value;
                proof {
                    lemma_value_change_wf(old(self).view(), key, *final(r));
                }
                r
            },
            None => vstd::pervasive::unreached(),
        }
    }
}

pub open spec fn with_value<D, T>(n: NodeView<D, T>, value: T) -> NodeView<D, T> {
    NodeView {
        request: n.request,
        disambiguator: n.disambiguator,
        parents: n.parents,
        children: n.children,
        value,
    }
}

proof fn lemma_value_change_wf<D, T>(v: Map<Key, NodeView<D, T>>, key: Key, value: T)
    requires
        v.contains_key(key),
        links_consistent(v),
        keys_unique(v),
    ensures
        links_consistent(v.insert(key, with_value(v[key], value))),
        keys_unique(v.insert(key, with_value(v[key], value))),
{
    let a = v.insert(key, with_value(v[key], value));
    assert forall|k: Key, p: Key| a.contains_key(k) && #[trigger] a[k].parents.contains(p) && a.contains_key(p)
        implies a[p].children.contains(k) by {
        assert(v[k].parents.contains(p));
    }
    assert forall|k: Key, c: Key| a.contains_key(k) && #[trigger] a[k].children.contains(c) implies a.contains_key(c)
        && a[c].parents.contains(k) by {
        assert(v[k].children.contains(c));
    }
    assert forall|x: Key, y: Key| #![trigger a[x], a[y]] a.contains_key(x) && a.contains_key(y) && x != y implies index_key(a[x])
        != index_key(a[y]) by {
        assert(index_key(v[x]) != index_key(v[y]));
    }
}

pub open spec fn opt_key_set(k: Option<Key>) -> Set<Key> {
    match k {
        Some(k) => set![k],
        None => Set::empty(),
    }
}

pub open spec fn relinked<D, T>(n: NodeView<D, T>, add_parent: Option<Key>, add_child: Option<Key>, drop: Option<Key>) -> NodeView<D, T> {
    let parents = n.parents + opt_key_set(add_parent);
    let children = n.children + opt_key_set(add_child);
    NodeView {
        request: n.request,
        disambiguator: n.disambiguator,
        parents: match drop {
            Some(d) => parents.remove(d),
            None => parents,
        },
        children: match drop {
            Some(d) => children.remove(d),
            None => children,
        },
        value: n.value,
    }
}

proof fn lemma_relinked_unchanged<D, T>(n: NodeView<D, T>)
    ensures
        relinked(n, None, None, None) == n,
{
    assert(n.parents + opt_key_set(None) =~= n.parents);
    assert(n.children + opt_key_set(None) =~= n.children);
}

/// The node with the given (message key, disambiguator), if there is one.
pub open spec fn spec_lookup<D, T>(v: Map<Key, NodeView<D, T>>, ik: (MessageKey, D)) -> Option<Key> {
    if exists|k: Key| v.contains_key(k) && index_key(v[k]) == ik {
        Some(choose|k: Key| v.contains_key(k) && index_key(v[k]) == ik)
    } else {
        None
    }
}

/// The graph after `get_or_insert` returned `r`: the node `r` (found, or new and holding
/// `value`) gains the given parent, and the parent, if the graph has it, gains `r` as a child.
pub open spec fn after_get_or_insert<D, T>(
    v: Map<Key, NodeView<D, T>>,
    r: Key,
    request: Request,
    disambiguator: D,
    parent: Option<Key>,
    value: T,
) -> Map<Key, NodeView<D, T>> {
    let m = if v.contains_key(r) {
        v.insert(r, relinked(v[r], parent, None, None))
    } else {
        unlinked_from(v, r).insert(
            r,
            NodeView { request, disambiguator, parents: opt_key_set(parent), children: Set::empty(), value },
        )
    };
    match parent {
        Some(p) => if v.contains_key(p) {
            m.insert(p, relinked(m[p], None, Some(r), None))
        } else {
            m
        },
        None => m,
    }
}

/// The graph without `key` and with every link to `key` dropped.
pub open spec fn unlinked_from<D, T>(v: Map<Key, NodeView<D, T>>, key: Key) -> Map<Key, NodeView<D, T>> {
    Map::new(|k: Key| v.contains_key(k) && k != key, |k: Key| relinked(v[k], None, None, Some(key)))
}

/// The graph after `remove(key)`: unchanged if it has no node `key`.
pub open spec fn after_remove<D, T>(v: Map<Key, NodeView<D, T>>, key: Key) -> Map<Key, NodeView<D, T>> {
    if v.contains_key(key) {
        unlinked_from(v, key)
    } else {
        v
    }
}

/// The graph with the links to `key` dropped from the nodes in the slots below `i`.
spec fn scrubbed_below<D, T>(v: Map<Key, NodeView<D, T>>, key: Key, i: int) -> Map<Key, NodeView<D, T>> {
    Map::new(
        |k: Key| v.contains_key(k),
        |k: Key| if k.0 < i { relinked(v[k], None, None, Some(key)) } else { v[k] },
    )
}

/// The graph with `key` removed and unlinked from the nodes in `touched`.
pub open spec fn partly_unlinked<D, T>(v: Map<Key, NodeView<D, T>>, key: Key, touched: Set<Key>) -> Map<Key, NodeView<D, T>> {
    Map::new(
        |k: Key| v.contains_key(k) && k != key,
        |k: Key| if touched.contains(k) { relinked(v[k], None, None, Some(key)) } else { v[k] },
    )
}

proof fn lemma_relinked_drop_twice<D, T>(n: NodeView<D, T>, key: Key)
    ensures
        relinked(relinked(n, None, None, Some(key)), None, None, Some(key)) == relinked(n, None, None, Some(key)),
{
    let once = relinked(n, None, None, Some(key));
    assert((once.parents + opt_key_set(None)).remove(key) =~= once.parents);
    assert((once.children + opt_key_set(None)).remove(key) =~= once.children);
}

proof fn lemma_relinked_drop_absent<D, T>(n: NodeView<D, T>, key: Key)
    requires
        !n.parents.contains(key),
        !n.children.contains(key),
    ensures
        relinked(n, None, None, Some(key)) == n,
{
    assert((n.parents + opt_key_set(None)).remove(key) =~= n.parents);
    assert((n.children + opt_key_set(None)).remove(key) =~= n.children);
}

/// One step of unlinking `key` from the node `p`: a node of the graph other than `key` has its
/// links to `key` dropped; the removed node itself, or a key the graph does not hold, is not
/// there to touch.
proof fn lemma_unlink_step<D, T>(v: Map<Key, NodeView<D, T>>, key: Key, touched: Set<Key>, p: Key)
    ensures
        p != key && v.contains_key(p) ==> partly_unlinked(v, key, touched).contains_key(p)
            && partly_unlinked(v, key, touched).insert(
            p,
            relinked(partly_unlinked(v, key, touched)[p], None, None, Some(key)),
        ) == partly_unlinked(v, key, touched.insert(p)),
        p == key || !v.contains_key(p) ==> !partly_unlinked(v, key, touched).contains_key(p)
            && partly_unlinked(v, key, touched) == partly_unlinked(v, key, touched.insert(p)),
{
    let prev = partly_unlinked(v, key, touched);
    let next = partly_unlinked(v, key, touched.insert(p));
    if p != key && v.contains_key(p) {
        if touched.contains(p) {
            lemma_relinked_drop_twice(v[p], key);
        }
        assert(prev.insert(p, relinked(prev[p], None, None, Some(key))) =~= next);
    } else {
        assert(prev =~= next);
    }
}

proof fn lemma_fully_unlinked<D, T>(v: Map<Key, NodeView<D, T>>, key: Key)
    requires
        v.contains_key(key),
        links_consistent(v),
    ensures
        partly_unlinked(v, key, v[key].parents + v[key].children) == after_remove(v, key),
{
    let touched = v[key].parents + v[key].children;
    assert forall|k: Key| v.contains_key(k) && k != key && !touched.contains(k) implies relinked(
        v[k],
        None,
        None,
        Some(key),
    ) == v[k] by {
        if v[k].children.contains(key) {
            assert(v[key].parents.contains(k));
        }
        if v[k].parents.contains(key) {
            assert(v[key].children.contains(k));
        }
        lemma_relinked_drop_absent(v[k], key);
    }
    assert(partly_unlinked(v, key, touched) =~= after_remove(v, key));
}

proof fn lemma_remove_wf<D, T>(v: Map<Key, NodeView<D, T>>, key: Key)
    requires
        links_consistent(v),
        keys_unique(v),
    ensures
        links_consistent(after_remove(v, key)),
        keys_unique(after_remove(v, key)),
{
    let a = after_remove(v, key);
    if v.contains_key(key) {
        assert forall|k: Key, p: Key| a.contains_key(k) && #[trigger] a[k].parents.contains(p) && a.contains_key(p)
            implies a[p].children.contains(k) by {
            assert(v[k].parents.contains(p));
        }
        assert forall|k: Key, c: Key| a.contains_key(k) && #[trigger] a[k].children.contains(c) implies a.contains_key(c)
            && a[c].parents.contains(k) by {
            assert(v[k].children.contains(c));
        }
        assert forall|x: Key, y: Key| #![trigger a[x], a[y]] a.contains_key(x) && a.contains_key(y) && x != y implies index_key(a[x])
            != index_key(a[y]) by {
            assert(index_key(v[x]) != index_key(v[y]));
        }
    }
}

proof fn lemma_get_or_insert_wf<D, T>(
    v: Map<Key, NodeView<D, T>>,
    r: Key,
    request: Request,
    disambiguator: D,
    parent: Option<Key>,
    value: T,
)
    requires
        links_consistent(v),
        keys_unique(v),
        spec_lookup(v, (key_of(request), disambiguator)) matches Some(k) ==> r == k,
        spec_lookup(v, (key_of(request), disambiguator)) is None ==> !v.contains_key(r) && parent != Some(r),
    ensures
        links_consistent(after_get_or_insert(v, r, request, disambiguator, parent, value)),
        keys_unique(after_get_or_insert(v, r, request, disambiguator, parent, value)),
        after_get_or_insert(v, r, request, disambiguator, parent, value).contains_key(r),
        index_key(after_get_or_insert(v, r, request, disambiguator, parent, value)[r]) == (
            key_of(request),
            disambiguator,
        ),
{
    let a = after_get_or_insert(v, r, request, disambiguator, parent, value);
    let ik = (key_of(request), disambiguator);
    if spec_lookup(v, ik) is Some {
        let k = choose|k: Key| v.contains_key(k) && index_key(v[k]) == ik;
        assert(v.contains_key(k));
    }
    assert forall|k: Key, p: Key| a.contains_key(k) && #[trigger] a[k].parents.contains(p) && a.contains_key(p)
        implies a[p].children.contains(k) by {
        if v.contains_key(k) && v[k].parents.contains(p) && v.contains_key(p) {
            assert(v[p].children.contains(k));
        }
    }
    assert forall|k: Key, c: Key| a.contains_key(k) && #[trigger] a[k].children.contains(c) implies a.contains_key(c)
        && a[c].parents.contains(k) by {
        if v.contains_key(k) && v[k].children.contains(c) {
            assert(v[c].parents.contains(k));
        }
    }
    assert forall|x: Key, y: Key| #![trigger a[x], a[y]] a.contains_key(x) && a.contains_key(y) && x != y implies index_key(a[x])
        != index_key(a[y]) by {
        if x != r && y != r {
            assert(index_key(v[x]) != index_key(v[y]));
        } else if x == r && !v.contains_key(r) {
            assert(index_key(a[x]) == ik);
            if index_key(a[y]) == ik {
                assert(v.contains_key(y) && index_key(v[y]) == ik);
            }
        } else if y == r && !v.contains_key(r) {
            assert(index_key(a[y]) == ik);
            if index_key(a[x]) == ik {
                assert(v.contains_key(x) && index_key(v[x]) == ik);
            }
        } else {
            assert(index_key(v[x]) != index_key(v[y]));
        }
    }
}

/// Whether some node of the graph holds the request.
pub open spec fn is_request_of<D, T>(v: Map<Key, NodeView<D, T>>, req: Request) -> bool {
    exists|k: Key| #[trigger] v.contains_key(k) && v[k].request == req
}

pub open spec fn links_consistent<D, T>(v: Map<Key, NodeView<D, T>>) -> bool {
    &&& forall|k: Key, p: Key|
        #![trigger v[k].parents.contains(p)]
        v.contains_key(k) && v[k].parents.contains(p) && v.contains_key(p) ==> v[p].children.contains(k)
    &&& forall|k: Key, c: Key|
        #![trigger v[k].children.contains(c)]
        v.contains_key(k) && v[k].children.contains(c) ==> v.contains_key(c) && v[c].parents.contains(k)
}

pub open spec fn keys_unique<D, T>(v: Map<Key, NodeView<D, T>>) -> bool {
    forall|a: Key, b: Key|
        #![trigger v[a], v[b]]
        v.contains_key(a) && v.contains_key(b) && a != b ==> index_key(v[a]) != index_key(v[b])
}

/// After a node of the graph is removed, the graph has no node under its key and no node of
/// the graph links to it any more.
pub proof fn lemma_removed_node_unlinked<D, T>(v: Map<Key, NodeView<D, T>>, key: Key)
    requires
        v.contains_key(key),
    ensures
        forall|k: Key|
            #[trigger] after_remove(v, key).contains_key(k) ==> !after_remove(v, key)[k].parents.contains(key)
                && !after_remove(v, key)[k].children.contains(key),
        !after_remove(v, key).contains_key(key),
{
}

/// Asking again for the node of the same request and disambiguator finds the node that
/// `get_or_insert` returned: each (message key, disambiguator) has one node.
pub proof fn lemma_get_or_insert_finds_again<D, T>(
    v: Map<Key, NodeView<D, T>>,
    r: Key,
    request: Request,
    disambiguator: D,
    parent: Option<Key>,
    value: T,
)
    requires
        links_consistent(v),
        keys_unique(v),
        spec_lookup(v, (key_of(request), disambiguator)) matches Some(k) ==> r == k,
        spec_lookup(v, (key_of(request), disambiguator)) is None ==> !v.contains_key(r) && parent != Some(r),
    ensures
        spec_lookup(after_get_or_insert(v, r, request, disambiguator, parent, value), (key_of(request), disambiguator))
            == Some(r),
{
    let a = after_get_or_insert(v, r, request, disambiguator, parent, value);
    let ik = (key_of(request), disambiguator);
    lemma_get_or_insert_wf(v, r, request, disambiguator, parent, value);
    assert(a.contains_key(r) && index_key(a[r]) == ik);
    let c = choose|c: Key| a.contains_key(c) && index_key(a[c]) == ik;
    if c != r {
        assert(index_key(a[c]) != index_key(a[r]));
    }
}

} // verus!
