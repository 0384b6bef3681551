//! The trie engine: node/edge model, insertion with lazy node creation,
//! whole-key lookup, and the incremental-search cursor.

use vstd::prelude::*;

use petgraph::stable_graph::StableGraph;
use petgraph::Directed;

use crate::store::{
    graph_edges, graph_nodes, sg_add_edge, sg_add_node, sg_empty, sg_node_count, sg_node_value,
    sg_out_edges, sg_swap_node_value,
};
use crate::InvalidKeyPartErr;

verus! {

/// Data structure for storing key-value pairs, with partial key lookup.
///
/// Keys are sequences of `char` key parts; values are `String`s. The pairs
/// live in a trie held in a petgraph arena: one arena node per stored key
/// prefix, one edge per key part, and a value exactly at each node where an
/// inserted key ends. `count` tracks the number of stored values, so `len`
/// need not walk the arena.
pub struct Dictionary {
    graph: StableGraph<Option<String>, char, Directed, usize>,
    root: usize,
    count: usize,
}

impl Dictionary {
    /// The trie's nodes: arena index to the value stored there, if any.
    pub closed spec fn nodes(self) -> Map<int, Option<Seq<char>>> {
        graph_nodes(self.graph)
    }

    /// The trie's edges: (parent, child, key part) triples.
    pub closed spec fn edges(self) -> Set<(int, int, char)> {
        graph_edges(self.graph)
    }

    /// The arena index of the root node.
    pub closed spec fn root_id(self) -> int {
        self.root as int
    }

    /// Total number of arena nodes, the root included.
    pub closed spec fn node_total(self) -> nat {
        self.nodes().dom().len()
    }

    /// The child reached from node `n` along the edge labelled `c`, if any.
    pub closed spec fn step(self, n: int, c: char) -> Option<int> {
        if exists|t: int| self.edges().contains((n, t, c)) {
            Some(choose|t: int| self.edges().contains((n, t, c)))
        } else {
            None
        }
    }

    /// The node reached from the root by walking the key parts of `k` in order.
    pub closed spec fn node_at(self, k: Seq<char>) -> Option<int>
        decreases k.len(),
    {
        if k.len() == 0 {
            Some(self.root_id())
        } else {
            match self.node_at(k.drop_last()) {
                Some(n) => self.step(n, k.last()),
                None => None,
            }
        }
    }

    /// Whether the key parts of `k` name a node of the trie.
    pub open spec fn path_exists(self, k: Seq<char>) -> bool {
        self.node_at(k) is Some
    }

    /// The value stored at node `n`, if `n` is live and holds one.
    pub closed spec fn value_of(self, n: int) -> Option<Seq<char>> {
        if self.nodes().dom().contains(n) {
            self.nodes()[n]
        } else {
            None
        }
    }

    /// The value that the key sequence `k` resolves to, if any.
    pub open spec fn value_at(self, k: Seq<char>) -> Option<Seq<char>> {
        match self.node_at(k) {
            Some(n) => self.value_of(n),
            None => None,
        }
    }

    /// The set of nodes that hold a value.
    pub closed spec fn valued(self) -> Set<int> {
        self.nodes().dom().filter(|n: int| self.nodes()[n] is Some)
    }

    /// The number of key-value pairs held.
    pub open spec fn spec_len(self) -> nat {
        self.valued().len()
    }

    /// Structural well-formedness of the arena as a trie:
    /// the root is live and valueless, every edge joins live nodes, no edge
    /// enters the root, edges out of one node have distinct key parts, and
    /// every node has at most one incoming edge.
    pub closed spec fn graph_wf(self) -> bool {
        &&& self.nodes().dom().finite()
        &&& self.nodes().dom().contains(self.root_id())
        &&& self.nodes()[self.root_id()] is None
        &&& forall|n: int| #[trigger] self.nodes().dom().contains(n) ==> 0 <= n <= usize::MAX
        &&& forall|e: (int, int, char)| #[trigger] self.edges().contains(e)
            ==> self.nodes().dom().contains(e.0) && self.nodes().dom().contains(e.1)
                && e.1 != self.root_id()
        &&& forall|a: int, t1: int, t2: int, c: char|
            #![trigger self.edges().contains((a, t1, c)), self.edges().contains((a, t2, c))]
            self.edges().contains((a, t1, c)) && self.edges().contains((a, t2, c)) ==> t1 == t2
        &&& forall|a1: int, a2: int, t: int, c1: char, c2: char|
            #![trigger self.edges().contains((a1, t, c1)), self.edges().contains((a2, t, c2))]
            self.edges().contains((a1, t, c1)) && self.edges().contains((a2, t, c2))
                ==> a1 == a2 && c1 == c2
        &&& self.node_total() <= usize::MAX
    }

    /// Full invariant: the arena is a well-formed trie and `count` agrees
    /// with the number of stored values.
    pub closed spec fn wf(self) -> bool {
        &&& self.graph_wf()
        &&& self.count as nat == self.spec_len()
        &&& (self.count == 0 <==> self.node_total() == 1)
    }

    /// In a trie with no edges, no non-empty key names a node.
    proof fn lemma_no_edges_no_path(self, k: Seq<char>)
        requires
            self.edges() == Set::<(int, int, char)>::empty(),
            k.len() > 0,
        ensures
            self.node_at(k) is None,
        decreases k.len(),
    {
        if k.len() > 1 {
            self.lemma_no_edges_no_path(k.drop_last());
        } else {
            assert(forall|t: int| !self.edges().contains((self.root_id(), t, k.last())));
        }
    }

    /// Creates a new empty `Dictionary`.
    pub fn new() -> (d: Dictionary)
        ensures
            d.wf(),
            d.spec_len() == 0,
            d.node_total() == 1,
            forall|k: Seq<char>| #[trigger] d.value_at(k) is None,
            forall|k: Seq<char>| #[trigger] d.path_exists(k) <==> k.len() == 0,
    {
        let mut g = sg_empty();
        proof {
            assert(graph_nodes(g).dom() =~= Set::<int>::empty());
        }
        let root = sg_add_node(&mut g, None);
        let d = Dictionary { graph: g, root, count: 0 };
        proof {
            assert(d.nodes().dom() =~= Set::<int>::empty().insert(root as int));
            assert(d.nodes().dom().len() == 1) by {
                assert(d.nodes().dom().remove(root as int) =~= Set::<int>::empty());
            }
            assert(d.valued() =~= Set::<int>::empty());
            assert forall|k: Seq<char>| k.len() > 0 implies d.node_at(k) is None by {
                d.lemma_no_edges_no_path(k);
            }
            assert forall|k: Seq<char>| #[trigger] d.value_at(k) is None by {
                if k.len() == 0 {
                    assert(d.node_at(k) == Some(d.root_id()));
                }
            }
        }
        d
    }

    /// Checks whether this `Dictionary` is empty - contains no key-value pairs.
    pub fn is_empty(&self) -> (r: bool)
        requires
            self.wf(),
        ensures
            r <==> self.spec_len() == 0,
    {
        // the root node is always present, but the dictionary is empty then
        sg_node_count(&self.graph) <= 1
    }

    /// Returns the number of key-value pairs contained in this `Dictionary`.
    pub fn len(&self) -> (r: usize)
        requires
            self.wf(),
        ensures
            r as nat == self.spec_len(),
    {
        self.count
    }

    /// A key whose walk dies at some prefix names no node.
    proof fn lemma_take_none_extends(self, k: Seq<char>, j: int, jj: int)
        requires
            0 <= j <= jj <= k.len(),
            self.node_at(k.take(j)) is None,
        ensures
            self.node_at(k.take(jj)) is None,
        decreases jj - j,
    {
        if j < jj {
            assert(k.take(j + 1).drop_last() =~= k.take(j));
            self.lemma_take_none_extends(k, j + 1, jj);
        }
    }

    /// Looks up the child of node `n` along the edge labelled `c`.
    #[verifier::loop_isolation(false)]
    fn find_child(&self, n: usize, c: char) -> (r: Option<usize>)
        requires
            self.graph_wf(),
        ensures
            match r {
                Some(t) => self.step(n as int, c) == Some(t as int),
                None => self.step(n as int, c) is None,
            },
    {
        let kids = sg_out_edges(&self.graph, n);
        let mut i: usize = 0;
        while i < kids.len()
            invariant
                i <= kids@.len(),
                forall|j: int| 0 <= j < i ==> (#[trigger] kids@[j]).1 != c,
            decreases kids@.len() - i,
        {
            let (t, ec) = kids[i];
            if ec == c {
                proof {
                    assert(self.edges().contains((n as int, t as int, c)));
                    let tc = choose|tt: int| self.edges().contains((n as int, tt, c));
                    assert(self.edges().contains((n as int, tc, c)));
                    assert(tc == t as int);
                }
                return Some(t);
            }
            i = i + 1;
        }
        proof {
            if self.step(n as int, c) is Some {
                let tc = choose|tt: int| self.edges().contains((n as int, tt, c));
                assert(self.edges().contains((n as int, tc, c)));
                assert(self.nodes().dom().contains(tc));
                assert(self.edges().contains((n as int, (tc as usize) as int, c)));
                let j = choose|jj: int| 0 <= jj < kids@.len() && kids@[jj] == (tc as usize, c);
                assert(kids@[j].1 == c);
                assert(false);
            }
        }
        None
    }

    /// Walks from the root along `key` while matching edges exist; stops at
    /// the first missing edge.
    fn descend(&self, key: &Vec<char>) -> (r: (usize, usize))
        requires
            self.graph_wf(),
        ensures
            r.0 <= key@.len(),
            self.node_at(key@.take(r.0 as int)) == Some(r.1 as int),
            r.0 < key@.len() ==> self.step(r.1 as int, key@[r.0 as int]) is None,
    {
        let mut i: usize = 0;
        let mut curr: usize = self.root;
        proof {
            assert(key@.take(0) =~= Seq::<char>::empty());
        }
        while i < key.len()
            invariant
                self.graph_wf(),
                i <= key@.len(),
                self.node_at(key@.take(i as int)) == Some(curr as int),
            ensures
                i <= key@.len(),
                self.node_at(key@.take(i as int)) == Some(curr as int),
                i < key@.len() ==> self.step(curr as int, key@[i as int]) is None,
            decreases key@.len() - i,
        {
            match self.find_child(curr, key[i]) {
                Some(t) => {
                    proof {
                        assert(key@.take(i as int + 1).drop_last() =~= key@.take(i as int));
                        assert(key@.take(i as int + 1).last() == key@[i as int]);
                    }
                    curr = t;
                    i = i + 1;
                }
                None => {
                    break;
                }
            }
        }
        (i, curr)
    }

    /// Returns the arena node where the non-empty `key` ends, if the whole
    /// key names one.
    fn find_node(&self, key: &Vec<char>) -> (r: Option<usize>)
        requires
            self.graph_wf(),
        ensures
            match r {
                Some(n) => key@.len() > 0 && self.node_at(key@) == Some(n as int),
                None => key@.len() == 0 || self.node_at(key@) is None,
            },
    {
        let (i, curr) = self.descend(key);
        if key.len() > 0 && i == key.len() {
            proof {
                assert(key@.take(key@.len() as int) =~= key@);
            }
            Some(curr)
        } else {
            proof {
                if key@.len() > 0 {
                    assert(key@.take(i as int + 1).drop_last() =~= key@.take(i as int));
                    assert(self.node_at(key@.take(i as int + 1)) is None);
                    self.lemma_take_none_extends(key@, i as int + 1, key@.len() as int);
                    assert(key@.take(key@.len() as int) =~= key@);
                }
            }
            None
        }
    }

    /// Returns a reference to the value paired with the given key. Returns
    /// None if there is no value stored with the given key.
    pub fn get<'a>(&'a self, key: &Vec<char>) -> (r: Option<&'a String>)
        requires
            self.wf(),
        ensures
            match r {
                Some(v) => self.value_at(key@) == Some(v@),
                None => self.value_at(key@) is None,
            },
    {
        match self.find_node(key) {
            Some(n) => sg_node_value(&self.graph, n),
            None => None,
        }
    }

    /// Any node named by a key is live.
    proof fn lemma_node_at_in_dom(self, k: Seq<char>)
        requires
            self.graph_wf(),
            self.node_at(k) is Some,
        ensures
            self.nodes().dom().contains(self.node_at(k)->Some_0),
        decreases k.len(),
    {
        if k.len() > 0 {
            self.lemma_node_at_in_dom(k.drop_last());
            let n = self.node_at(k.drop_last())->Some_0;
            let c = k.last();
            let t = choose|t: int| self.edges().contains((n, t, c));
            assert(self.edges().contains((n, t, c)));
        }
    }

    /// Two keys that name the same node are the same key.
    proof fn lemma_node_at_injective(self, k1: Seq<char>, k2: Seq<char>)
        requires
            self.graph_wf(),
            self.node_at(k1) is Some,
            self.node_at(k1) == self.node_at(k2),
        ensures
            k1 == k2,
        decreases k1.len() + k2.len(),
    {
        let n = self.node_at(k1)->Some_0;
        if k1.len() == 0 {
            if k2.len() > 0 {
                // k2's last step would enter the root, which no edge does
                let a2 = self.node_at(k2.drop_last())->Some_0;
                let c2 = k2.last();
                let t2 = choose|t: int| self.edges().contains((a2, t, c2));
                assert(self.edges().contains((a2, t2, c2)));
                assert(false);
            }
            assert(k1 =~= k2);
        } else if k2.len() == 0 {
            let a1 = self.node_at(k1.drop_last())->Some_0;
            let c1 = k1.last();
            let t1 = choose|t: int| self.edges().contains((a1, t, c1));
            assert(self.edges().contains((a1, t1, c1)));
            assert(false);
        } else {
            let a1 = self.node_at(k1.drop_last())->Some_0;
            let c1 = k1.last();
            let a2 = self.node_at(k2.drop_last())->Some_0;
            let c2 = k2.last();
            let t1 = choose|t: int| self.edges().contains((a1, t, c1));
            assert(self.edges().contains((a1, t1, c1)));
            assert(t1 == n);
            let t2 = choose|t: int| self.edges().contains((a2, t, c2));
            assert(self.edges().contains((a2, t2, c2)));
            assert(t2 == n);
            // at most one incoming edge per node
            assert(a1 == a2 && c1 == c2);
            self.lemma_node_at_injective(k1.drop_last(), k2.drop_last());
            assert(k1 =~= k1.drop_last().push(c1));
            assert(k2 =~= k2.drop_last().push(c2));
            assert(k1 =~= k2);
        }
    }

    /// Adding one edge out of `m` labelled `c`, where `m` had no such edge,
    /// changes no other step.
    proof fn lemma_extend_step(
        pre: Dictionary,
        post: Dictionary,
        m: int,
        fresh: int,
        c: char,
        n: int,
        x: char,
    )
        requires
            pre.graph_wf(),
            post.edges() == pre.edges().insert((m, fresh, c)),
            pre.step(m, c) is None,
            forall|e: (int, int, char)| #[trigger]
                pre.edges().contains(e) ==> e.0 != fresh && e.1 != fresh,
        ensures
            post.step(n, x) == if n == m && x == c {
                Some(fresh)
            } else {
                pre.step(n, x)
            },
    {
        if n == m && x == c {
            assert(post.edges().contains((m, fresh, c)));
            let t = choose|t: int| post.edges().contains((m, t, c));
            assert(post.edges().contains((m, t, c)));
            if t != fresh {
                assert(pre.edges().contains((m, t, c)));
                assert(false);
            }
        } else {
            if pre.step(n, x) is Some {
                let t = choose|t: int| pre.edges().contains((n, t, x));
                assert(pre.edges().contains((n, t, x)));
                assert(post.edges().contains((n, t, x)));
                let t2 = choose|t2: int| post.edges().contains((n, t2, x));
                assert(post.edges().contains((n, t2, x)));
                if t2 != t {
                    assert(pre.edges().contains((n, t2, x)));
                    assert(false);
                }
            } else {
                if post.step(n, x) is Some {
                    let t2 = choose|t2: int| post.edges().contains((n, t2, x));
                    assert(post.edges().contains((n, t2, x)));
                    assert(pre.edges().contains((n, t2, x)));
                    assert(false);
                }
            }
        }
    }

    /// After hanging a fresh node under `m` by an edge labelled `c`, the key
    /// reaching `m` extended by `c` names the fresh node, and every other key
    /// names what it named before.
    proof fn lemma_extend_node_at(
        pre: Dictionary,
        post: Dictionary,
        m: int,
        fresh: int,
        c: char,
        km: Seq<char>,
        k: Seq<char>,
    )
        requires
            pre.graph_wf(),
            post.root_id() == pre.root_id(),
            post.edges() == pre.edges().insert((m, fresh, c)),
            forall|e: (int, int, char)| #[trigger]
                pre.edges().contains(e) ==> e.0 != fresh && e.1 != fresh,
            fresh != m,
            fresh != pre.root_id(),
            pre.node_at(km) == Some(m),
            pre.step(m, c) is None,
        ensures
            post.node_at(k) == if k == km.push(c) {
                Some(fresh)
            } else {
                pre.node_at(k)
            },
        decreases k.len(),
    {
        assert(km.push(c).drop_last() =~= km);
        assert(km.push(c).last() == c);
        if k.len() == 0 {
        } else {
            let kp = k.drop_last();
            let x = k.last();
            Self::lemma_extend_node_at(pre, post, m, fresh, c, km, kp);
            assert(k =~= kp.push(x));
            if kp == km.push(c) {
                // post reaches the fresh node, which has no outgoing edge
                assert(post.node_at(kp) == Some(fresh));
                if post.step(fresh, x) is Some {
                    let t = choose|t: int| post.edges().contains((fresh, t, x));
                    assert(post.edges().contains((fresh, t, x)));
                    assert(false);
                }
                // and pre already died one step earlier
                assert(pre.node_at(km.push(c)) is None);
            } else {
                match pre.node_at(kp) {
                    Some(n) => {
                        Self::lemma_extend_step(pre, post, m, fresh, c, n, x);
                        if n == m && x == c {
                            pre.lemma_node_at_injective(kp, km);
                            assert(k =~= km.push(c));
                        } else {
                            if k == km.push(c) {
                                assert(kp =~= km);
                                assert(false);
                            }
                        }
                    },
                    None => {
                        if k == km.push(c) {
                            assert(kp =~= km);
                            assert(false);
                        }
                    },
                }
            }
        }
    }

    /// The effect on the whole trie of hanging one fresh leaf holding `w`
    /// under node `m`, reached by `km`, along a new edge labelled `c`.
    proof fn lemma_attach_leaf(
        pre: Dictionary,
        post: Dictionary,
        m: int,
        fresh: int,
        c: char,
        km: Seq<char>,
        w: Option<Seq<char>>,
    )
        requires
            pre.graph_wf(),
            pre.node_total() < usize::MAX,
            post.root_id() == pre.root_id(),
            !pre.nodes().dom().contains(fresh),
            0 <= fresh <= usize::MAX,
            pre.nodes().dom().contains(m),
            post.nodes() == pre.nodes().insert(fresh, w),
            post.edges() == pre.edges().insert((m, fresh, c)),
            pre.node_at(km) == Some(m),
            pre.step(m, c) is None,
        ensures
            post.graph_wf(),
            post.node_total() == pre.node_total() + 1,
            forall|k: Seq<char>| #![trigger post.node_at(k)]
                post.node_at(k) == if k == km.push(c) {
                    Some(fresh)
                } else {
                    pre.node_at(k)
                },
            forall|k: Seq<char>| #![trigger post.value_at(k)]
                k != km.push(c) ==> post.value_at(k) == pre.value_at(k),
            post.value_at(km.push(c)) == w,
            post.valued() == if w is Some {
                pre.valued().insert(fresh)
            } else {
                pre.valued()
            },
            w is Some ==> post.spec_len() == pre.spec_len() + 1,
            forall|t: int, ch: char| !post.edges().contains((fresh, t, ch)),
    {
        assert forall|e: (int, int, char)| #[trigger]
            pre.edges().contains(e) implies e.0 != fresh && e.1 != fresh by {}
        assert(post.nodes().dom() =~= pre.nodes().dom().insert(fresh));
        // the fresh node has no outgoing edges
        assert forall|t: int, ch: char| !post.edges().contains((fresh, t, ch)) by {
            if post.edges().contains((fresh, t, ch)) {
                assert(pre.edges().contains((fresh, t, ch)));
            }
        }
        // every key names what the single-extension lemma says
        assert forall|k: Seq<char>| #![trigger post.node_at(k)]
            post.node_at(k) == if k == km.push(c) {
                Some(fresh)
            } else {
                pre.node_at(k)
            } by {
            Self::lemma_extend_node_at(pre, post, m, fresh, c, km, k);
        }
        // well-formedness of the extended trie
        assert(post.graph_wf()) by {
            assert forall|a: int, t1: int, t2: int, ch: char|
                #![trigger post.edges().contains((a, t1, ch)), post.edges().contains((a, t2, ch))]
                post.edges().contains((a, t1, ch)) && post.edges().contains((a, t2, ch))
                    implies t1 == t2 by {
                if a == m && ch == c {
                    if t1 != fresh {
                        assert(pre.edges().contains((m, t1, c)));
                        assert(false);
                    }
                    if t2 != fresh {
                        assert(pre.edges().contains((m, t2, c)));
                        assert(false);
                    }
                } else {
                    assert(pre.edges().contains((a, t1, ch)));
                    assert(pre.edges().contains((a, t2, ch)));
                }
            }
            assert forall|a1: int, a2: int, t: int, c1: char, c2: char|
                #![trigger post.edges().contains((a1, t, c1)), post.edges().contains((a2, t, c2))]
                post.edges().contains((a1, t, c1)) && post.edges().contains((a2, t, c2))
                    implies a1 == a2 && c1 == c2 by {
                if t == fresh {
                    assert((a1, t, c1) == (m, fresh, c));
                    assert((a2, t, c2) == (m, fresh, c));
                } else {
                    assert(pre.edges().contains((a1, t, c1)));
                    assert(pre.edges().contains((a2, t, c2)));
                }
            }
        }
        // values: the fresh leaf holds w, everything else is untouched
        assert(post.node_at(km.push(c)) == Some(fresh));
        assert(post.value_at(km.push(c)) == w);
        assert forall|k: Seq<char>| #![trigger post.value_at(k)]
            k != km.push(c) implies post.value_at(k) == pre.value_at(k) by {
            assert(post.node_at(k) == pre.node_at(k));
            match pre.node_at(k) {
                Some(n) => {
                    pre.lemma_node_at_in_dom(k);
                    assert(n != fresh);
                },
                None => {},
            }
        }
        // the set of valued nodes gains the leaf exactly when it holds a value
        if w is Some {
            assert(post.valued() =~= pre.valued().insert(fresh));
            pre.nodes().dom().lemma_len_filter(|n: int| pre.nodes()[n] is Some);
            assert(!pre.valued().contains(fresh));
            assert(post.spec_len() == pre.spec_len() + 1);
        } else {
            assert(post.valued() =~= pre.valued());
        }
    }

    /// Inserts a key-value pair into the `Dictionary`.
    ///
    /// The key parts are walked in order, following existing edges; from the
    /// first missing edge on, fresh nodes are created. The value is stored at
    /// the node where the key ends — also when that node already existed as a
    /// prefix of an earlier key — unless it already holds a value: the first
    /// value inserted for a complete key wins. An empty key is a no-op.
    pub fn insert(&mut self, key: &Vec<char>, value: String)
        requires
            old(self).wf(),
            old(self).node_total() + key@.len() <= usize::MAX,
        ensures
            final(self).wf(),
            key@.len() == 0 ==> *final(self) == *old(self),
            key@.len() > 0 ==> insert_effect(*old(self), *final(self), key@, value@),
            final(self).node_total() <= old(self).node_total() + key@.len(),
    {
        if key.len() == 0 {
            return;
        }
        let ghost orig: Dictionary = *self;
        let (start, tail) = self.descend(key);
        let mut i = start;
        let mut curr = tail;
        proof {
            assert(key@.take(key@.len() as int) =~= key@);
        }
        if i == key.len() {
            // the whole path is already present; the value goes to the node
            // where the key ends unless one is stored there already: the
            // first value inserted for a complete key wins
            proof {
                assert(orig.path_exists(key@));
                orig.lemma_node_at_in_dom(key@);
                orig.lemma_node_at_not_root(key@);
                assert forall|k: Seq<char>| #![trigger orig.node_at(k)]
                    orig.path_exists(k) <==> orig.path_exists(k) || k.is_prefix_of(key@) by {
                    if k.is_prefix_of(key@) && orig.node_at(k) is None {
                        assert(k =~= key@.take(k.len() as int));
                        orig.lemma_take_none_extends(key@, k.len() as int, key@.len() as int);
                        assert(false);
                    }
                }
            }
            if sg_node_value(&self.graph, curr).is_some() {
                return;
            }
            proof {
                // room for the count: the stored values sit at distinct
                // non-root nodes
                orig.nodes().dom().lemma_len_filter(|n: int| orig.nodes()[n] is Some);
                assert(orig.valued().subset_of(orig.nodes().dom().remove(orig.root_id())));
                vstd::set_lib::lemma_len_subset(
                    orig.valued(),
                    orig.nodes().dom().remove(orig.root_id()),
                );
            }
            let prev = sg_swap_node_value(&mut self.graph, curr, Some(value));
            self.count = self.count + 1;
            let _ = prev;
            proof {
                assert(self.nodes() == orig.nodes().insert(curr as int, Some(value@)));
                assert(self.nodes().dom() =~= orig.nodes().dom());
                assert forall|k: Seq<char>| #![trigger self.node_at(k)]
                    self.node_at(k) == orig.node_at(k) by {
                    Self::lemma_same_shape_node_at(orig, *self, k);
                }
                assert(orig.value_at(key@) is None);
                assert(self.value_at(key@) == Some(value@));
                assert forall|k: Seq<char>| #![trigger self.value_at(k)]
                    k != key@ implies self.value_at(k) == orig.value_at(k) by {
                    if orig.node_at(k) is Some {
                        let nk = orig.node_at(k)->Some_0;
                        if nk == curr as int {
                            orig.lemma_node_at_injective(k, key@);
                            assert(false);
                        }
                    }
                }
                assert(self.valued() =~= orig.valued().insert(curr as int));
                assert(!orig.valued().contains(curr as int));
                assert(self.spec_len() == orig.spec_len() + 1);
                // two distinct live nodes: the root and the key's end node
                assert(self.nodes().dom().len() >= 2) by {
                    assert(self.nodes().dom().remove(self.root_id()).contains(curr as int));
                    assert(self.nodes().dom().remove(self.root_id()).remove(curr as int).len()
                        == self.nodes().dom().len() - 2);
                }
            }
            return;
        }
        proof {
            orig.lemma_node_at_in_dom(key@.take(start as int));
            // the walk of the key dies right at the stop point
            assert(key@.take(start as int + 1).drop_last() =~= key@.take(start as int));
            assert(key@.take(start as int + 1).last() == key@[start as int]);
            assert(orig.node_at(key@.take(start as int + 1)) is None);
            // prefixes up to the stop point are existing paths
            assert forall|k: Seq<char>| #![trigger orig.node_at(k)]
                orig.path_exists(k) <==> orig.path_exists(k) || k.is_prefix_of(
                    key@.take(start as int),
                ) by {
                if k.is_prefix_of(key@.take(start as int)) && orig.node_at(k) is None {
                    assert(k =~= key@.take(start as int).take(k.len() as int));
                    assert(key@.take(start as int).take(k.len() as int) =~= key@.take(
                        k.len() as int,
                    ));
                    orig.lemma_take_none_extends(key@, k.len() as int, start as int);
                    assert(false);
                }
            }
        }
        // from here on, every remaining key part gets a fresh node
        while i + 1 < key.len()
            invariant
                key@.len() > 0,
                start <= i < key@.len(),
                orig.wf(),
                orig.node_at(key@.take(start as int + 1)) is None,
                orig.node_total() + key@.len() <= usize::MAX,
                self.root == orig.root,
                self.count == orig.count,
                self.graph_wf(),
                self.node_total() == orig.node_total() + (i - start),
                forall|n: int| #[trigger] orig.nodes().dom().contains(n)
                    ==> self.nodes().dom().contains(n) && self.nodes()[n] == orig.nodes()[n],
                forall|n: int| #[trigger] self.nodes().dom().contains(n)
                    ==> orig.nodes().dom().contains(n) || self.nodes()[n] is None,
                self.valued() == orig.valued(),
                self.node_at(key@.take(i as int)) == Some(curr as int),
                self.nodes().dom().contains(curr as int),
                self.step(curr as int, key@[i as int]) is None,
                forall|k: Seq<char>| #![trigger self.node_at(k)]
                    self.path_exists(k) <==> orig.path_exists(k) || k.is_prefix_of(
                        key@.take(i as int),
                    ),
                forall|k: Seq<char>| #![trigger self.value_at(k)]
                    self.value_at(k) == orig.value_at(k),
            decreases key@.len() - i,
        {
            let ghost s0: Dictionary = *self;
            let fresh = sg_add_node(&mut self.graph, None);
            sg_add_edge(&mut self.graph, curr, fresh, key[i]);
            proof {
                Self::lemma_attach_leaf(
                    s0,
                    *self,
                    curr as int,
                    fresh as int,
                    key@[i as int],
                    key@.take(i as int),
                    None,
                );
                assert(key@.take(i as int).push(key@[i as int]) =~= key@.take(i as int + 1));
                assert(self.node_at(key@.take(i as int + 1)) == Some(fresh as int));
                assert forall|k: Seq<char>| #![trigger self.node_at(k)]
                    self.path_exists(k) <==> orig.path_exists(k) || k.is_prefix_of(
                        key@.take(i as int + 1),
                    ) by {
                    lemma_prefix_one_longer(key@, i as int, k);
                    assert(self.node_at(k) == if k == key@.take(i as int + 1) {
                        Some(fresh as int)
                    } else {
                        s0.node_at(k)
                    });
                }
                assert forall|k: Seq<char>| #![trigger self.value_at(k)]
                    self.value_at(k) == orig.value_at(k) by {
                    if k == key@.take(i as int + 1) {
                        assert(self.value_at(k) is None);
                        orig.lemma_take_none_extends(key@, start as int + 1, i as int + 1);
                        assert(orig.value_at(k) is None);
                    } else {
                        assert(self.value_at(k) == s0.value_at(k));
                    }
                }
            }
            curr = fresh;
            i = i + 1;
        }
        // the node where the stored value lives
        let ghost s0: Dictionary = *self;
        proof {
            // no overflow: the stored values sit at distinct non-root nodes
            orig.nodes().dom().lemma_len_filter(|n: int| orig.nodes()[n] is Some);
            assert(orig.valued().subset_of(orig.nodes().dom().remove(orig.root_id())));
            vstd::set_lib::lemma_len_subset(
                orig.valued(),
                orig.nodes().dom().remove(orig.root_id()),
            );
        }
        let fresh = sg_add_node(&mut self.graph, Some(value));
        sg_add_edge(&mut self.graph, curr, fresh, key[i]);
        self.count = self.count + 1;
        proof {
            Self::lemma_attach_leaf(
                s0,
                *self,
                curr as int,
                fresh as int,
                key@[i as int],
                key@.take(i as int),
                Some(value@),
            );
            assert(key@.take(i as int).push(key@[i as int]) =~= key@);
            // the full key was no path before this call
            orig.lemma_take_none_extends(key@, start as int + 1, key@.len() as int);
            assert(!orig.path_exists(key@));
            assert(orig.value_at(key@) is None);
            // the new key resolves to the new value, everything else stands
            assert(self.value_at(key@) == Some(value@));
            assert forall|k: Seq<char>| #![trigger self.node_at(k)]
                self.path_exists(k) <==> orig.path_exists(k) || k.is_prefix_of(key@) by {
                lemma_prefix_one_longer(key@, i as int, k);
                assert(key@.take(i as int + 1) =~= key@);
                assert(self.node_at(k) == if k == key@ {
                    Some(fresh as int)
                } else {
                    s0.node_at(k)
                });
            }
            assert forall|k: Seq<char>| #![trigger self.value_at(k)]
                k != key@ implies self.value_at(k) == orig.value_at(k) by {
                assert(self.value_at(k) == s0.value_at(k));
            }
            assert(self.spec_len() == orig.spec_len() + 1);
            assert(self.node_total() == orig.node_total() + (i + 1 - start));
        }
    }
}

/// A cursor into a [`Dictionary`], used for searching inside the dictionary
/// by feeding key parts one at a time.
///
/// The cursor only references the dictionary and tracks a position; it is
/// not part of the dictionary's state, and any number of cursors may search
/// one dictionary independently.
pub struct Lookup<'a> {
    dict: &'a Dictionary,
    curr_node: usize,
}

impl Dictionary {
    /// Keys name nodes through the edges and the root alone.
    proof fn lemma_same_shape_node_at(a: Dictionary, b: Dictionary, k: Seq<char>)
        requires
            a.graph_wf(),
            a.edges() == b.edges(),
            a.root_id() == b.root_id(),
        ensures
            a.node_at(k) == b.node_at(k),
        decreases k.len(),
    {
        if k.len() > 0 {
            Self::lemma_same_shape_node_at(a, b, k.drop_last());
            match a.node_at(k.drop_last()) {
                Some(n) => {
                    let c = k.last();
                    if a.step(n, c) is Some {
                        let ta = choose|t: int| a.edges().contains((n, t, c));
                        assert(a.edges().contains((n, ta, c)));
                        assert(b.edges().contains((n, ta, c)));
                        let tb = choose|t: int| b.edges().contains((n, t, c));
                        assert(b.edges().contains((n, tb, c)));
                        assert(a.edges().contains((n, tb, c)));
                        assert(ta == tb);
                    } else {
                        if b.step(n, c) is Some {
                            let tb = choose|t: int| b.edges().contains((n, t, c));
                            assert(b.edges().contains((n, tb, c)));
                            assert(a.edges().contains((n, tb, c)));
                            assert(false);
                        }
                    }
                },
                None => {},
            }
        }
    }

    /// A non-empty key names a node only through that node's incoming edge,
    /// so it never names the root.
    proof fn lemma_node_at_not_root(self, k: Seq<char>)
        requires
            self.graph_wf(),
            k.len() > 0,
            self.node_at(k) is Some,
        ensures
            self.node_at(k)->Some_0 != self.root_id(),
    {
        let a = self.node_at(k.drop_last())->Some_0;
        let c = k.last();
        let t = choose|t: int| self.edges().contains((a, t, c));
        assert(self.edges().contains((a, t, c)));
    }

    /// Gives the value paired with the given key new contents, handing back
    /// the previous contents. Returns None, leaving every stored value as it
    /// was, if there is no value stored with the given key.
    pub fn get_mut(&mut self, key: &Vec<char>, new_value: String) -> (r: Option<String>)
        requires
            old(self).wf(),
        ensures
            final(self).wf(),
            final(self).node_total() == old(self).node_total(),
            forall|k: Seq<char>| #![trigger final(self).node_at(k)]
                final(self).node_at(k) == old(self).node_at(k),
            final(self).spec_len() == old(self).spec_len(),
            match r {
                Some(v) => old(self).value_at(key@) == Some(v@)
                    && final(self).value_at(key@) == Some(new_value@)
                    && forall|k: Seq<char>| #![trigger final(self).value_at(k)]
                        k != key@ ==> final(self).value_at(k) == old(self).value_at(k),
                None => old(self).value_at(key@) is None
                    && forall|k: Seq<char>| #![trigger final(self).value_at(k)]
                        final(self).value_at(k) == old(self).value_at(k),
            },
    {
        let n = match self.find_node(key) {
            Some(n) => n,
            None => {
                return None;
            },
        };
        proof {
            old(self).lemma_node_at_in_dom(key@);
            old(self).lemma_node_at_not_root(key@);
        }
        let ghost s0: Dictionary = *self;
        let prev = sg_swap_node_value(&mut self.graph, n, None);
        match prev {
            Some(v) => {
                let ghost s1: Dictionary = *self;
                let result = sg_swap_node_value(&mut self.graph, n, Some(new_value));
                proof {
                    assert(self.nodes() =~= s0.nodes().insert(n as int, Some(new_value@)));
                    assert(self.nodes().dom() =~= s0.nodes().dom());
                    assert forall|k: Seq<char>| #![trigger self.node_at(k)]
                        self.node_at(k) == s0.node_at(k) by {
                        Self::lemma_same_shape_node_at(s0, *self, k);
                    }
                    assert forall|k: Seq<char>| #![trigger self.value_at(k)]
                        k != key@ implies self.value_at(k) == s0.value_at(k) by {
                        if s0.node_at(k) is Some {
                            let nk = s0.node_at(k)->Some_0;
                            if nk == n as int {
                                s0.lemma_node_at_injective(k, key@);
                                assert(false);
                            }
                        }
                    }
                    assert(self.value_at(key@) == Some(new_value@));
                    assert(self.valued() =~= s0.valued());
                }
                let _ = result;
                Some(v)
            },
            None => {
                proof {
                    assert(self.nodes() =~= s0.nodes());
                    assert forall|k: Seq<char>| #![trigger self.node_at(k)]
                        self.node_at(k) == s0.node_at(k) by {
                        Self::lemma_same_shape_node_at(s0, *self, k);
                    }
                    assert(self.valued() =~= s0.valued());
                }
                None
            },
        }
    }

    /// Creates a [`Lookup`] into the [`Dictionary`], used for searching
    /// inside the dictionary.
    pub fn lookup(&self) -> (r: Lookup<'_>)
        requires
            self.wf(),
        ensures
            r.wf(),
            r.dict_view() == *self,
            r.at_root(),
    {
        Lookup { dict: self, curr_node: self.root }
    }
}

impl<'a> Lookup<'a> {
    /// The dictionary this cursor searches in.
    pub closed spec fn dict_view(self) -> Dictionary {
        *self.dict
    }

    /// The node the cursor currently stands on.
    pub closed spec fn pos(self) -> int {
        self.curr_node as int
    }

    /// Whether the cursor stands at the root: its fresh, default state.
    pub open spec fn at_root(self) -> bool {
        self.pos() == self.dict_view().root_id()
    }

    /// A valid cursor: its dictionary is well formed and its position is a
    /// live node.
    pub open spec fn wf(self) -> bool {
        self.dict_view().wf() && self.dict_view().nodes().dom().contains(self.pos())
    }

    /// Moves along some key path if and only if the given key part labels an
    /// edge from the current state. If it labels none, the state of the
    /// `Lookup` is reset to the default state, and `Err` is returned.
    pub fn partial_search(&mut self, key_part: &char) -> (r: Result<(), InvalidKeyPartErr>)
        requires
            old(self).wf(),
        ensures
            final(self).wf(),
            final(self).dict_view() == old(self).dict_view(),
            match old(self).dict_view().step(old(self).pos(), *key_part) {
                Some(t) => r is Ok && final(self).pos() == t,
                None => r is Err && final(self).at_root(),
            },
    {
        match self.dict.find_child(self.curr_node, *key_part) {
            Some(t) => {
                proof {
                    let d = *self.dict;
                    let tc = choose|tt: int|
                        d.edges().contains((self.curr_node as int, tt, *key_part));
                    assert(d.edges().contains((self.curr_node as int, tc, *key_part)));
                }
                self.curr_node = t;
                Ok(())
            },
            None => {
                self.curr_node = self.dict.root;
                Err(InvalidKeyPartErr)
            },
        }
    }

    /// Tries to retrieve the value associated with the key built from the
    /// key parts provided so far through [`Lookup::partial_search`].
    pub fn try_resolve(&self) -> (r: Option<&String>)
        requires
            self.wf(),
        ensures
            match r {
                Some(v) => self.dict_view().value_of(self.pos()) == Some(v@),
                None => self.dict_view().value_of(self.pos()) is None,
            },
    {
        sg_node_value(&self.dict.graph, self.curr_node)
    }

    /// Returns a reference to the value paired with the given key. Returns
    /// None if there is no value stored with the given key. Does not touch
    /// or depend on the cursor's position.
    pub fn get(&self, key: &Vec<char>) -> (r: Option<&String>)
        requires
            self.wf(),
        ensures
            match r {
                Some(v) => self.dict_view().value_at(key@) == Some(v@),
                None => self.dict_view().value_at(key@) is None,
            },
    {
        self.dict.get(key)
    }

    /// Resets the state of the lookup. Typically used after
    /// [`Lookup::partial_search`] to start the search over from a clean
    /// slate.
    pub fn reset(&mut self)
        requires
            old(self).wf(),
        ensures
            final(self).wf(),
            final(self).dict_view() == old(self).dict_view(),
            final(self).at_root(),
    {
        self.curr_node = self.dict.root;
    }
}

/// Whether `k` is a prefix of `key` cut one part later: it either was a
/// prefix of the shorter cut already, or is the longer cut itself.
proof fn lemma_prefix_one_longer(key: Seq<char>, i: int, k: Seq<char>)
    requires
        0 <= i < key.len(),
    ensures
        k.is_prefix_of(key.take(i + 1)) <==> k.is_prefix_of(key.take(i)) || k == key.take(i + 1),
{
    if k.is_prefix_of(key.take(i + 1)) {
        if k.len() <= i {
            assert(k =~= key.take(i + 1).subrange(0, k.len() as int));
            assert(key.take(i + 1).subrange(0, k.len() as int) =~= key.take(i).subrange(
                0,
                k.len() as int,
            ));
        } else {
            assert(k =~= key.take(i + 1));
        }
    }
    if k.is_prefix_of(key.take(i)) {
        assert(k =~= key.take(i).subrange(0, k.len() as int));
        assert(key.take(i).subrange(0, k.len() as int) =~= key.take(i + 1).subrange(
            0,
            k.len() as int,
        ));
    }
    if k == key.take(i + 1) {
        assert(k =~= key.take(i + 1).subrange(0, k.len() as int));
    }
}

impl Dictionary {
    /// The cursor position after feeding the key parts of `k`, in order,
    /// starting from position `pos`: each part follows its edge when there is
    /// one, and resets the cursor to the root when there is none, as
    /// [`Lookup::partial_search`] does.
    pub open spec fn drive(self, pos: int, k: Seq<char>) -> int
        decreases k.len(),
    {
        if k.len() == 0 {
            pos
        } else {
            let p = self.drive(pos, k.drop_last());
            match self.step(p, k.last()) {
                Some(t) => t,
                None => self.root_id(),
            }
        }
    }

    /// Driving the cursor along a stored path lands on the node the path
    /// names.
    proof fn lemma_drive_follows(self, k: Seq<char>)
        requires
            self.graph_wf(),
            self.path_exists(k),
        ensures
            self.drive(self.root_id(), k) == self.node_at(k)->Some_0,
        decreases k.len(),
    {
        if k.len() > 0 {
            self.lemma_drive_follows(k.drop_last());
        }
    }
}

/// Driving a cursor from its default state through the key parts of a stored
/// path `k`, one at a time and in order, follows an edge at every part; the
/// value the cursor then resolves to is the value that whole-key lookup
/// gives for `k`.
pub proof fn lemma_drive_resolves(d: Dictionary, k: Seq<char>)
    requires
        d.wf(),
        d.path_exists(k),
    ensures
        d.node_at(k) == Some(d.drive(d.root_id(), k)),
        forall|j: int| 0 <= j < k.len()
            ==> #[trigger] d.step(d.drive(d.root_id(), k.take(j)), k[j]) is Some,
        d.value_of(d.drive(d.root_id(), k)) == d.value_at(k),
{
    assert(k.take(k.len() as int) =~= k);
    assert forall|j: int| 0 <= j <= k.len() implies #[trigger] d.node_at(k.take(j)) is Some by {
        if d.node_at(k.take(j)) is None {
            d.lemma_take_none_extends(k, j, k.len() as int);
        }
    }
    assert forall|j: int| 0 <= j < k.len() implies #[trigger] d.step(
        d.drive(d.root_id(), k.take(j)),
        k[j],
    ) is Some by {
        d.lemma_drive_follows(k.take(j));
        assert(k.take(j + 1).drop_last() =~= k.take(j));
        assert(k.take(j + 1).last() == k[j]);
        assert(d.node_at(k.take(j + 1)) is Some);
    }
    d.lemma_drive_follows(k);
}

/// A failed partial search leaves the cursor in its default state: any
/// further key parts drive it exactly as they drive a fresh cursor.
pub proof fn lemma_failed_search_is_fresh(d: Dictionary, pos: int, c: char, rest: Seq<char>)
    requires
        d.wf(),
        d.step(pos, c) is None,
    ensures
        d.drive(d.drive(pos, seq![c]), rest) == d.drive(d.root_id(), rest),
{
    assert(seq![c].drop_last() =~= Seq::<char>::empty());
    assert(seq![c].last() == c);
    assert(d.drive(pos, Seq::<char>::empty()) == pos);
    assert(d.drive(pos, seq![c]) == d.root_id());
}

/// After inserting a non-empty key that held no value yet, the key resolves
/// to the inserted value.
pub proof fn lemma_insert_resolves(
    pre: Dictionary,
    post: Dictionary,
    key: Seq<char>,
    value: Seq<char>,
)
    requires
        insert_effect(pre, post, key, value),
        pre.value_at(key) is None,
    ensures
        post.value_at(key) == Some(value),
{
}

/// Re-inserting a key that already resolves to a value keeps the earlier
/// value: the first insert wins.
pub proof fn lemma_insert_first_wins(
    pre: Dictionary,
    post: Dictionary,
    key: Seq<char>,
    value: Seq<char>,
    prior: Seq<char>,
)
    requires
        insert_effect(pre, post, key, value),
        pre.value_at(key) == Some(prior),
    ensures
        post.value_at(key) == Some(prior),
{
    assert(pre.node_at(key) is Some);
}

/// A key that resolved to no value before an insertion of a different key
/// still resolves to none after it; in particular a strict prefix of an
/// inserted key, never itself inserted, resolves to no value.
pub proof fn lemma_prefix_not_inserted(
    pre: Dictionary,
    post: Dictionary,
    key: Seq<char>,
    value: Seq<char>,
    k: Seq<char>,
)
    requires
        insert_effect(pre, post, key, value),
        k != key,
        pre.value_at(k) is None,
    ensures
        post.value_at(k) is None,
{
    assert(post.value_at(k) == pre.value_at(k));
}

impl Default for Dictionary {
    /// Creates a new empty `Dictionary`.
    fn default() -> (d: Self)
        ensures
            d.wf(),
            d.spec_len() == 0,
            d.node_total() == 1,
            forall|k: Seq<char>| #[trigger] d.value_at(k) is None,
            forall|k: Seq<char>| #[trigger] d.path_exists(k) <==> k.len() == 0,
    {
        Dictionary::new()
    }
}

/// The single path of a freshly built trie: the empty key, naming the root.
pub open spec fn root_paths() -> Set<Seq<char>> {
    Set::new(|k: Seq<char>| k.len() == 0)
}

/// The value store of a freshly built trie: nothing.
pub open spec fn no_values() -> Map<Seq<char>, Seq<char>> {
    Map::empty()
}

/// The combined length of the keys among the pairs.
pub open spec fn total_key_len(pairs: Seq<(Vec<char>, String)>) -> nat
    decreases pairs.len(),
{
    if pairs.len() == 0 {
        0
    } else {
        total_key_len(pairs.drop_last()) + pairs.last().0@.len()
    }
}

/// A prefix of the pairs carries at most the combined key length of them all.
proof fn lemma_total_key_len_prefix(pairs: Seq<(Vec<char>, String)>, i: int)
    requires
        0 <= i <= pairs.len(),
    ensures
        total_key_len(pairs.take(i)) <= total_key_len(pairs),
    decreases pairs.len() - i,
{
    if i < pairs.len() {
        assert(pairs.take(i + 1).drop_last() =~= pairs.take(i));
        lemma_total_key_len_prefix(pairs, i + 1);
    } else {
        assert(pairs.take(i) =~= pairs);
    }
}

/// The paths named after loading `pairs`, in order, into a trie whose paths
/// were exactly `p`: each non-empty key contributes all its prefixes.
pub open spec fn loaded_paths(p: Set<Seq<char>>, pairs: Seq<(Vec<char>, String)>) -> Set<
    Seq<char>,
>
    decreases pairs.len(),
{
    if pairs.len() == 0 {
        p
    } else {
        let q = loaded_paths(p, pairs.drop_last());
        let key = pairs.last().0@;
        if key.len() == 0 {
            q
        } else {
            q.union(Set::new(|k: Seq<char>| k.is_prefix_of(key)))
        }
    }
}

/// The values stored after loading `pairs`, in order, into a trie whose
/// stored values were exactly `m`: a pair stores its value only when its key
/// is non-empty and holds no value yet, so among pairs with one key the
/// first wins.
pub open spec fn loaded_values(
    m: Map<Seq<char>, Seq<char>>,
    pairs: Seq<(Vec<char>, String)>,
) -> Map<Seq<char>, Seq<char>>
    decreases pairs.len(),
{
    if pairs.len() == 0 {
        m
    } else {
        let m2 = loaded_values(m, pairs.drop_last());
        let key = pairs.last().0@;
        if key.len() == 0 || m2.dom().contains(key) {
            m2
        } else {
            m2.insert(key, pairs.last().1@)
        }
    }
}

impl Dictionary {
    /// Builds a `Dictionary` from (key, value) pairs by repeated insertion,
    /// in order: the bulk-load entry point.
    pub fn from_pairs(pairs: &Vec<(Vec<char>, String)>) -> (d: Dictionary)
        requires
            1 + total_key_len(pairs@) <= usize::MAX,
        ensures
            d.wf(),
            forall|k: Seq<char>| #[trigger] d.path_exists(k) <==> loaded_paths(
                root_paths(),
                pairs@,
            ).contains(k),
            forall|k: Seq<char>| #[trigger] d.value_at(k) == (if loaded_values(
                no_values(),
                pairs@,
            ).dom().contains(k) {
                Some(loaded_values(no_values(), pairs@)[k])
            } else {
                None::<Seq<char>>
            }),
            d.spec_len() == loaded_values(no_values(), pairs@).dom().len(),
    {
        let mut d = Dictionary::new();
        proof {
            assert(pairs@.take(0) =~= Seq::<(Vec<char>, String)>::empty());
            assert(no_values().dom() =~= Set::<Seq<char>>::empty());
        }
        let mut i: usize = 0;
        while i < pairs.len()
            invariant
                i <= pairs@.len(),
                1 + total_key_len(pairs@) <= usize::MAX,
                d.wf(),
                d.node_total() <= 1 + total_key_len(pairs@.take(i as int)),
                forall|k: Seq<char>| #![trigger d.node_at(k)]
                    d.path_exists(k) <==> loaded_paths(
                        root_paths(),
                        pairs@.take(i as int),
                    ).contains(k),
                forall|k: Seq<char>| #![trigger d.value_at(k)]
                    d.value_at(k) == (if loaded_values(
                        no_values(),
                        pairs@.take(i as int),
                    ).dom().contains(k) {
                        Some(loaded_values(no_values(), pairs@.take(i as int))[k])
                    } else {
                        None::<Seq<char>>
                    }),
                loaded_values(no_values(), pairs@.take(i as int)).dom().finite(),
                d.spec_len() == loaded_values(no_values(), pairs@.take(i as int)).dom().len(),
            decreases pairs@.len() - i,
        {
            let ghost before: Dictionary = *&d;
            proof {
                assert(pairs@.take(i as int + 1).drop_last() =~= pairs@.take(i as int));
                assert(pairs@.take(i as int + 1).last() == pairs@[i as int]);
                lemma_total_key_len_prefix(pairs@, i as int + 1);
            }
            d.insert(&pairs[i].0, pairs[i].1.clone());
            proof {
                let ghost key = pairs@[i as int].0@;
                let ghost q = loaded_paths(root_paths(), pairs@.take(i as int));
                let ghost m2 = loaded_values(no_values(), pairs@.take(i as int));
                let ghost q2 = loaded_paths(root_paths(), pairs@.take(i as int + 1));
                let ghost m3 = loaded_values(no_values(), pairs@.take(i as int + 1));
                if key.len() == 0 {
                    assert(q2 =~= q);
                    assert(m3 =~= m2);
                } else {
                    assert forall|k: Seq<char>| #![trigger d.node_at(k)]
                        d.path_exists(k) <==> q2.contains(k) by {
                        assert(d.path_exists(k) <==> before.path_exists(k) || k.is_prefix_of(
                            key,
                        ));
                    }
                    if before.value_at(key) is Some {
                        assert(m2.dom().contains(key));
                        assert(m3 =~= m2);
                        assert forall|k: Seq<char>| #![trigger d.value_at(k)]
                            d.value_at(k) == before.value_at(k) by {
                            if k == key {
                                assert(d.value_at(key) == before.value_at(key));
                            }
                        }
                    } else {
                        assert(!m2.dom().contains(key));
                        assert(m3 =~= m2.insert(key, pairs@[i as int].1@));
                        assert(d.value_at(key) == Some(pairs@[i as int].1@));
                        assert(m3.dom() =~= m2.dom().insert(key));
                        assert(m3.dom().len() == m2.dom().len() + 1);
                    }
                }
            }
            i = i + 1;
        }
        proof {
            assert(pairs@.take(pairs@.len() as int) =~= pairs@);
        }
        d
    }
}

/// The empty key resolves to no value: the root node never holds one.
pub proof fn lemma_empty_key_no_value(d: Dictionary)
    requires
        d.wf(),
    ensures
        d.value_at(Seq::empty()) is None,
{
    assert(d.node_at(Seq::<char>::empty()) == Some(d.root_id()));
}

/// The empty key names the root node, and the root holds no value: a fresh
/// or freshly reset cursor stands there and resolves to nothing.
pub proof fn lemma_empty_key_names_root(d: Dictionary)
    requires
        d.wf(),
    ensures
        d.node_at(Seq::empty()) == Some(d.root_id()),
        d.value_of(d.root_id()) is None,
{
}

/// From the node named by `p`, a key part can be consumed exactly when the
/// key extended by that part names a node: `partial_search` succeeds on `c`
/// right where `p.push(c)` is a stored path, and errs where it is not. When
/// it succeeds, the node it moves to is the one the extended key names, so a
/// cursor driven along stored paths always stands on the named node.
pub proof fn lemma_step_extends_path(d: Dictionary, p: Seq<char>, n: int, c: char)
    requires
        d.wf(),
        d.node_at(p) == Some(n),
    ensures
        d.step(n, c) is Some <==> d.path_exists(p.push(c)),
        d.node_at(p.push(c)) == d.step(n, c),
{
    assert(p.push(c).drop_last() =~= p);
    assert(p.push(c).last() == c);
}

/// What one insertion does, stated over the abstract trie model: exactly the
/// prefixes of the key become (or stay) paths; the key gains the value when
/// it held none yet, and otherwise every value is unchanged (the first value
/// inserted for a complete key wins); the pair count grows accordingly.
pub open spec fn insert_effect(
    pre: Dictionary,
    post: Dictionary,
    key: Seq<char>,
    value: Seq<char>,
) -> bool {
    &&& forall|k: Seq<char>| #![trigger post.path_exists(k)] #![trigger pre.path_exists(k)]
        post.path_exists(k) <==> pre.path_exists(k) || k.is_prefix_of(key)
    &&& forall|k: Seq<char>| #![trigger post.value_at(k)] #![trigger pre.value_at(k)]
        k != key ==> post.value_at(k) == pre.value_at(k)
    &&& post.value_at(key) == if pre.value_at(key) is Some {
        pre.value_at(key)
    } else {
        Some(value)
    }
    &&& post.spec_len() == pre.spec_len() + (if pre.value_at(key) is Some {
        0int
    } else {
        1int
    })
}

} // verus!
