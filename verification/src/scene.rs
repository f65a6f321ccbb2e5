use vstd::prelude::*;

use crate::error::CoreError;

verus! {

/// One entity of the scene-graph model.
///
/// A despawned entity keeps its slot (entity handles are never reused within
/// one graph) but is marked dead; everything the graph's accessors report of
/// a dead entity is canonical: no parent, no children, no text, no tag.
struct SceneNode {
    alive: bool,
    parent: Option<usize>,
    children: Vec<usize>,
    text: Option<String>,
    tag: Option<String>,
}

/// The view of an optional text or tag value as an optional character
/// sequence.
pub open spec fn opt_str_view(t: Option<String>) -> Option<Seq<char>> {
    match t {
        Some(s) => Some(s@),
        None => None,
    }
}

/// A model of the host's scene graph: a set of entities, each with an
/// optional parent, an ordered child list, optional text content and an
/// optional element-kind tag.
///
/// Deferred commands are executed against this model; the host mirrors the
/// resulting operations onto its own storage.  Entity handles are indices,
/// handed out in spawn order and never reused.
pub struct SceneGraph {
    nodes: Vec<SceneNode>,
}

impl SceneGraph {
    /// How many entities have ever been spawned (live or despawned).
    pub closed spec fn n_nodes(self) -> nat {
        self.nodes@.len()
    }

    /// Whether `e` is a live entity.
    pub closed spec fn live(self, e: usize) -> bool {
        e < self.nodes@.len() && self.nodes@[e as int].alive
    }

    /// The parent of `e`; `None` for roots and for anything not live.
    pub closed spec fn parent_of(self, e: usize) -> Option<usize> {
        if self.live(e) {
            self.nodes@[e as int].parent
        } else {
            None
        }
    }

    /// The ordered children of `e`; empty for anything not live.
    pub closed spec fn children_of(self, e: usize) -> Seq<usize> {
        if self.live(e) {
            self.nodes@[e as int].children@
        } else {
            Seq::empty()
        }
    }

    /// The text content of `e`; `None` for non-text entities and for
    /// anything not live.
    pub closed spec fn text_of(self, e: usize) -> Option<Seq<char>> {
        if self.live(e) {
            opt_str_view(self.nodes@[e as int].text)
        } else {
            None
        }
    }

    /// The element-kind tag of `e`; `None` for untagged entities and for
    /// anything not live.
    pub closed spec fn tag_of(self, e: usize) -> Option<Seq<char>> {
        if self.live(e) {
            opt_str_view(self.nodes@[e as int].tag)
        } else {
            None
        }
    }

    /// Structural well-formedness: every child list names live entities that
    /// point back to exactly that parent, no child appears twice under one
    /// parent, no entity is its own parent, and every live entity with a
    /// parent is listed among that parent's children.
    ///
    /// Together these clauses mean each live entity sits in at most one
    /// child list, exactly once.
    pub open spec fn wf(self) -> bool {
        &&& forall|p: usize, j: int|
            #![trigger self.children_of(p)[j]]
            0 <= j < self.children_of(p).len() ==> {
                let c = self.children_of(p)[j];
                self.live(c) && c != p && self.parent_of(c) == Some(p)
            }
        &&& forall|p: usize, j: int, k: int|
            #![trigger self.children_of(p)[j], self.children_of(p)[k]]
            0 <= j < k < self.children_of(p).len() ==> self.children_of(p)[j]
                != self.children_of(p)[k]
        &&& forall|c: usize|
            #![trigger self.parent_of(c)]
            self.parent_of(c) is Some ==> {
                let p = self.parent_of(c)->0;
                self.live(p) && self.children_of(p).contains(c)
            }
    }

    /// `e` looks exactly the same in `other` as in `self`.
    pub open spec fn same_node(self, other: SceneGraph, e: usize) -> bool {
        &&& other.live(e) == self.live(e)
        &&& other.parent_of(e) == self.parent_of(e)
        &&& other.children_of(e) == self.children_of(e)
        &&& other.text_of(e) == self.text_of(e)
        &&& other.tag_of(e) == self.tag_of(e)
    }

    /// `e` looks the same in `other` as in `self` apart from its child list.
    pub open spec fn same_node_except_children(self, other: SceneGraph, e: usize) -> bool {
        &&& other.live(e) == self.live(e)
        &&& other.parent_of(e) == self.parent_of(e)
        &&& other.text_of(e) == self.text_of(e)
        &&& other.tag_of(e) == self.tag_of(e)
    }

    /// `e` looks the same in `other` as in `self` apart from its parent.
    pub open spec fn same_node_except_parent(self, other: SceneGraph, e: usize) -> bool {
        &&& other.live(e) == self.live(e)
        &&& other.children_of(e) == self.children_of(e)
        &&& other.text_of(e) == self.text_of(e)
        &&& other.tag_of(e) == self.tag_of(e)
    }

    /// An empty scene graph.
    pub fn new() -> (r: SceneGraph)
        ensures
            r.wf(),
            r.n_nodes() == 0,
    {
        SceneGraph { nodes: Vec::new() }
    }

    /// Spawns a fresh root entity with the given text content and
    /// element-kind tag, and returns its handle.
    pub fn spawn(&mut self, text: Option<String>, tag: Option<String>) -> (e: usize)
        requires
            old(self).wf(),
        ensures
            final(self).wf(),
            e == old(self).n_nodes(),
            final(self).n_nodes() == old(self).n_nodes() + 1,
            final(self).live(e),
            final(self).parent_of(e) == None::<usize>,
            final(self).children_of(e) == Seq::<usize>::empty(),
            final(self).text_of(e) == opt_str_view(text),
            final(self).tag_of(e) == opt_str_view(tag),
            forall|n: usize| n != e ==> old(self).same_node(*final(self), n),
    {
        let e = self.nodes.len();
        let node = SceneNode { alive: true, parent: None, children: Vec::new(), text, tag };
        self.nodes.push(node);
        proof {
            let s1 = *old(self);
            let s2 = *self;
            assert forall|n: usize| n != e implies s1.same_node(s2, n) by {
                if (n as int) < s1.nodes@.len() {
                    assert(s2.nodes@[n as int] == s1.nodes@[n as int]);
                }
            }
            assert forall|p: usize, j: int|
                #![trigger s2.children_of(p)[j]]
                0 <= j < s2.children_of(p).len() implies {
                let c = s2.children_of(p)[j];
                s2.live(c) && c != p && s2.parent_of(c) == Some(p)
            } by {
                assert(p != e ==> s2.children_of(p) == s1.children_of(p));
                let c = s2.children_of(p)[j];
                assert(s1.children_of(p)[j] == c);
                assert(s1.live(c) && c != p && s1.parent_of(c) == Some(p));
                assert(c != e);
            }
            assert forall|p: usize, j: int, k: int|
                #![trigger s2.children_of(p)[j], s2.children_of(p)[k]]
                0 <= j < k < s2.children_of(p).len() implies s2.children_of(p)[j]
                != s2.children_of(p)[k] by {
                assert(p != e ==> s2.children_of(p) == s1.children_of(p));
            }
            assert forall|c: usize| #![trigger s2.parent_of(c)] s2.parent_of(c) is Some implies {
                let p = s2.parent_of(c)->0;
                s2.live(p) && s2.children_of(p).contains(c)
            } by {
                assert(c != e ==> s2.parent_of(c) == s1.parent_of(c));
                assert(s2.parent_of(e) is None);
                let p = s2.parent_of(c)->0;
                assert(s1.live(p) && s1.children_of(p).contains(c));
                let j = choose|j: int|
                    0 <= j < s1.children_of(p).len() && s1.children_of(p)[j] == c;
                assert(p != e);
                assert(s2.children_of(p)[j] == c);
            }
        }
        e
    }

    /// How many entities exist, live or despawned.
    pub fn node_count(&self) -> (r: usize)
        ensures
            r == self.n_nodes(),
    {
        self.nodes.len()
    }

    /// Whether `e` is a live entity.
    pub fn is_live(&self, e: usize) -> (r: bool)
        ensures
            r == self.live(e),
    {
        e < self.nodes.len() && self.nodes[e].alive
    }

    /// The parent of `e`, or `None` for roots and for anything not live.
    pub fn get_parent(&self, e: usize) -> (r: Option<usize>)
        ensures
            r == self.parent_of(e),
    {
        if e < self.nodes.len() && self.nodes[e].alive {
            self.nodes[e].parent
        } else {
            None
        }
    }

    /// How many children `e` has.
    pub fn child_count(&self, e: usize) -> (r: usize)
        ensures
            r == self.children_of(e).len(),
    {
        if e < self.nodes.len() && self.nodes[e].alive {
            self.nodes[e].children.len()
        } else {
            0
        }
    }

    /// The child of `e` at position `i`.
    pub fn child_at(&self, e: usize, i: usize) -> (r: usize)
        requires
            i < self.children_of(e).len(),
        ensures
            r == self.children_of(e)[i as int],
    {
        self.nodes[e].children[i]
    }

    /// A copy of the ordered child list of `e`.
    pub fn get_children(&self, e: usize) -> (r: Vec<usize>)
        ensures
            r@ == self.children_of(e),
    {
        let mut r: Vec<usize> = Vec::new();
        if e < self.nodes.len() && self.nodes[e].alive {
            let n = self.nodes[e].children.len();
            for i in 0..n
                invariant
                    n == self.children_of(e).len(),
                    e < self.nodes@.len(),
                    self.nodes@[e as int].alive,
                    r@ == self.children_of(e).subrange(0, i as int),
            {
                r.push(self.nodes[e].children[i]);
                proof {
                    assert(r@ =~= self.children_of(e).subrange(0, i + 1));
                }
            }
            proof {
                assert(r@ =~= self.children_of(e));
            }
        }
        r
    }

    /// The position of `c` in the child list of `p`.
    pub fn index_of_child(&self, p: usize, c: usize) -> (r: usize)
        requires
            self.children_of(p).contains(c),
        ensures
            r < self.children_of(p).len(),
            self.children_of(p)[r as int] == c,
    {
        let n = self.child_count(p);
        for i in 0..n
            invariant
                n == self.children_of(p).len(),
                self.children_of(p).contains(c),
                forall|j: int| 0 <= j < i ==> self.children_of(p)[j] != c,
        {
            if self.child_at(p, i) == c {
                return i;
            }
        }
        proof {
            let j = choose|j: int|
                0 <= j < self.children_of(p).len() && self.children_of(p)[j] == c;
            assert(false);
        }
        0
    }

    /// Inserts the parentless entity `c` at position `at` of the child list
    /// of `p`.
    fn insert_child_at(&mut self, p: usize, at: usize, c: usize)
        requires
            old(self).wf(),
            old(self).live(p),
            old(self).live(c),
            c != p,
            old(self).parent_of(c) is None,
            at <= old(self).children_of(p).len(),
        ensures
            final(self).wf(),
            final(self).n_nodes() == old(self).n_nodes(),
            final(self).children_of(p) == old(self).children_of(p).insert(at as int, c),
            final(self).parent_of(c) == Some(p),
            old(self).same_node_except_children(*final(self), p),
            old(self).same_node_except_parent(*final(self), c),
            forall|n: usize| n != p && n != c ==> old(self).same_node(*final(self), n),
    {
        let cnode = &mut self.nodes[c];
        cnode.parent = Some(p);
        let pnode = &mut self.nodes[p];
        pnode.children.insert(at, c);
        proof {
            let s1 = *old(self);
            let s2 = *self;
            let oldc = s1.children_of(p);
            let newc = s2.children_of(p);
            oldc.insert_ensures(at as int, c);
            assert(newc == oldc.insert(at as int, c));
            // a parentless entity sits in no child list
            assert forall|q: usize, j: int|
                #![trigger s1.children_of(q)[j]]
                0 <= j < s1.children_of(q).len() implies s1.children_of(q)[j] != c by {
                if s1.children_of(q)[j] == c {
                    assert(s1.parent_of(c) == Some(q));
                }
            }
            assert forall|n: usize| n != p && n != c implies s1.same_node(s2, n) by {
                if (n as int) < s1.nodes@.len() {
                    assert(s2.nodes@[n as int] == s1.nodes@[n as int]);
                }
            }
            assert forall|n: usize| #![trigger s2.live(n)] s2.live(n) == s1.live(n) by {}
            assert forall|q: usize, j: int|
                #![trigger s2.children_of(q)[j]]
                0 <= j < s2.children_of(q).len() implies {
                let x = s2.children_of(q)[j];
                s2.live(x) && x != q && s2.parent_of(x) == Some(q)
            } by {
                let x = s2.children_of(q)[j];
                if q == p {
                    if j == at {
                        assert(x == c);
                    } else if j < at {
                        assert(x == oldc[j]);
                        assert(x != c);
                    } else {
                        assert(x == oldc[j - 1]);
                        assert(x != c);
                    }
                } else {
                    assert(s2.children_of(q) == s1.children_of(q));
                    assert(x == s1.children_of(q)[j]);
                    assert(x != c);
                    assert(s1.live(x) && x != q && s1.parent_of(x) == Some(q));
                }
            }
            assert forall|q: usize, j: int, k: int|
                #![trigger s2.children_of(q)[j], s2.children_of(q)[k]]
                0 <= j < k < s2.children_of(q).len() implies s2.children_of(q)[j]
                != s2.children_of(q)[k] by {
                if q == p {
                    let x = s2.children_of(p)[j];
                    let y = s2.children_of(p)[k];
                    if j == at {
                        assert(y == oldc[k - 1]);
                    } else if k == at {
                        assert(x == oldc[j]);
                    } else {
                        let j1: int = if j < at { j } else { j - 1 };
                        let k1: int = if k < at { k } else { k - 1 };
                        assert(x == oldc[j1]);
                        assert(y == oldc[k1]);
                        assert(j1 < k1);
                    }
                } else {
                    assert(s2.children_of(q) == s1.children_of(q));
                }
            }
            assert forall|x: usize| #![trigger s2.parent_of(x)] s2.parent_of(x) is Some implies {
                let q = s2.parent_of(x)->0;
                s2.live(q) && s2.children_of(q).contains(x)
            } by {
                let q = s2.parent_of(x)->0;
                if x == c {
                    assert(q == p);
                    assert(newc[at as int] == c);
                } else {
                    assert(s2.parent_of(x) == s1.parent_of(x));
                    assert(s1.live(q) && s1.children_of(q).contains(x));
                    let j = choose|j: int|
                        0 <= j < s1.children_of(q).len() && s1.children_of(q)[j] == x;
                    if q == p {
                        if j < at {
                            assert(newc[j] == x);
                        } else {
                            assert(newc[j + 1] == x);
                        }
                    } else {
                        assert(s2.children_of(q) == s1.children_of(q));
                        assert(s2.children_of(q)[j] == x);
                    }
                }
            }
        }
    }

    /// A copy of the text content of `e`, or `None` for non-text entities
    /// and for anything not live.
    pub fn get_text(&self, e: usize) -> (r: Option<String>)
        ensures
            opt_str_view(r) == self.text_of(e),
    {
        if e < self.nodes.len() && self.nodes[e].alive {
            match &self.nodes[e].text {
                Some(s) => Some(s.clone()),
                None => None,
            }
        } else {
            None
        }
    }

    /// A copy of the element-kind tag of `e`, or `None` for untagged
    /// entities and for anything not live.
    pub fn get_tag(&self, e: usize) -> (r: Option<String>)
        ensures
            opt_str_view(r) == self.tag_of(e),
    {
        if e < self.nodes.len() && self.nodes[e].alive {
            match &self.nodes[e].tag {
                Some(s) => Some(s.clone()),
                None => None,
            }
        } else {
            None
        }
    }
    /// Whether a block of entities may be moved under `p`: every member is
    /// live and distinct from `p`, and the members are pairwise distinct.
    /// Members may currently have parents; moving them detaches them
    /// first.
    pub open spec fn block_movable(self, p: usize, block: Seq<usize>) -> bool {
        &&& forall|i: int|
            #![trigger block[i]]
            0 <= i < block.len() ==> self.live(block[i]) && block[i] != p
        &&& forall|i: int, j: int|
            #![trigger block[i], block[j]]
            0 <= i < j < block.len() ==> block[i] != block[j]
    }

    /// Detaches every entity of the block from its current parent, in
    /// block order: afterwards each is a root, and every child list is its
    /// old one with the block's entities taken out, order preserved.
    /// Nothing else changes.  Fails exactly when some member is not live
    /// or occurs twice, and then changes nothing.
    #[verifier::loop_isolation(false)]
    pub fn detach_block(&mut self, block: &Vec<usize>) -> (r: Result<(), CoreError>)
        requires
            old(self).wf(),
        ensures
            final(self).wf(),
            final(self).n_nodes() == old(self).n_nodes(),
            r is Ok <==> ((forall|i: int|
                #![trigger block@[i]]
                0 <= i < block@.len() ==> old(self).live(block@[i])) && (forall|i: int, j: int|
                #![trigger block@[i], block@[j]]
                0 <= i < j < block@.len() ==> block@[i] != block@[j])),
            r is Err ==> *final(self) == *old(self),
            r is Ok ==> {
                &&& forall|q: usize|
                    #![trigger final(self).children_of(q)]
                    final(self).children_of(q) == seq_without(old(self).children_of(q), block@)
                &&& forall|i: int|
                    #![trigger block@[i]]
                    0 <= i < block@.len() ==> final(self).parent_of(block@[i]) is None
                &&& forall|n: usize|
                    #![trigger final(self).parent_of(n)]
                    !block@.contains(n) ==> final(self).parent_of(n) == old(self).parent_of(n)
                &&& forall|n: usize| #![trigger final(self).live(n)] final(self).live(n) == old(
                    self,
                ).live(n)
                &&& forall|n: usize| #![trigger final(self).text_of(n)] final(self).text_of(n)
                    == old(self).text_of(n)
                &&& forall|n: usize| #![trigger final(self).tag_of(n)] final(self).tag_of(n)
                    == old(self).tag_of(n)
            },
    {
        let m = block.len();
        for i in 0..m
            invariant
                *self == *old(self),
                forall|a: int| #![trigger block@[a]] 0 <= a < i ==> self.live(block@[a]),
        {
            if !self.is_live(block[i]) {
                return Err(CoreError::NotAlive { entity: block[i] });
            }
        }
        for i in 0..m
            invariant
                *self == *old(self),
                forall|a: int, b: int|
                    #![trigger block@[a], block@[b]]
                    0 <= a < b < i ==> block@[a] != block@[b],
        {
            for j in 0..i
                invariant
                    *self == *old(self),
                    i < m,
                    forall|a: int| #![trigger block@[a]] 0 <= a < j ==> block@[a] != block@[
                        i as int
                    ],
            {
                if block[j] == block[i] {
                    return Err(CoreError::DuplicateEntity { entity: block[i] });
                }
            }
        }
        let ghost s0 = *self;
        proof {
            assert forall|q: usize|
                #![trigger self.children_of(q)]
                self.children_of(q) == seq_without(
                    s0.children_of(q),
                    block@.subrange(0, 0),
                ) by {
                assert(block@.subrange(0, 0) =~= Seq::<usize>::empty());
                lemma_seq_without_all_absent(s0.children_of(q), block@.subrange(0, 0));
            }
        }
        for i in 0..m
            invariant
                self.wf(),
                self.n_nodes() == s0.n_nodes(),
                forall|q: usize|
                    #![trigger self.children_of(q)]
                    self.children_of(q) == seq_without(
                        s0.children_of(q),
                        block@.subrange(0, i as int),
                    ),
                forall|a: int|
                    #![trigger block@[a]]
                    0 <= a < i ==> self.parent_of(block@[a]) is None,
                forall|n: usize|
                    #![trigger self.parent_of(n)]
                    !block@.subrange(0, i as int).contains(n) ==> self.parent_of(n)
                        == s0.parent_of(n),
                forall|n: usize| #![trigger self.live(n)] self.live(n) == s0.live(n),
                forall|n: usize| #![trigger self.text_of(n)] self.text_of(n) == s0.text_of(n),
                forall|n: usize| #![trigger self.tag_of(n)] self.tag_of(n) == s0.tag_of(n),
        {
            let c = block[i];
            let ghost mid = *self;
            proof {
                assert(!block@.subrange(0, i as int).contains(c)) by {
                    if block@.subrange(0, i as int).contains(c) {
                        let w = choose|w: int|
                            0 <= w < i && block@.subrange(0, i as int)[w] == c;
                        assert(block@[w] == block@[i as int]);
                    }
                }
                assert(mid.parent_of(c) == s0.parent_of(c));
                assert(mid.live(c));
            }
            let _detached = self.detach(c);
            proof {
                let now = *self;
                let ghost processed = block@.subrange(0, i as int);
                assert(processed.push(c) =~= block@.subrange(0, i + 1));
                match mid.parent_of(c) {
                    None => {
                        assert(now == mid);
                        // c sits in no child list, so extending the block
                        // by it filters nothing new
                        assert forall|q: usize|
                            #![trigger now.children_of(q)]
                            now.children_of(q) == seq_without(
                                s0.children_of(q),
                                block@.subrange(0, i + 1),
                            ) by {
                            assert(!s0.children_of(q).contains(c)) by {
                                if s0.children_of(q).contains(c) {
                                    let w = choose|w: int|
                                        0 <= w < s0.children_of(q).len()
                                            && s0.children_of(q)[w] == c;
                                    assert(s0.parent_of(c) == Some(q));
                                }
                            }
                            lemma_seq_without_push_absent(s0.children_of(q), processed, c);
                        }
                        assert forall|n: usize|
                            #![trigger now.parent_of(n)]
                            !block@.subrange(0, i + 1).contains(n) implies now.parent_of(n)
                            == s0.parent_of(n) by {
                            assert(!processed.contains(n)) by {
                                if processed.contains(n) {
                                    let w = choose|w: int|
                                        0 <= w < processed.len() && processed[w] == n;
                                    assert(block@.subrange(0, i + 1)[w] == n);
                                }
                            }
                        }
                        assert forall|a: int| #![trigger block@[a]] 0 <= a < i + 1 implies
                            now.parent_of(block@[a]) is None by {}
                    },
                    Some(q0) => {
                        let prev = mid.children_of(q0);
                        let k = prev.index_of(c);
                        assert(prev.contains(c));
                        assert(0 <= k < prev.len() && prev[k] == c);
                        assert forall|j: int, l: int|
                            0 <= j < l < prev.len() implies !(#[trigger] prev[j] == c
                            && #[trigger] prev[l] == c) by {
                            assert(prev[j] != prev[l]);
                        }
                        lemma_remove_unique_is_without(prev, c, k);
                        assert forall|q: usize|
                            #![trigger now.children_of(q)]
                            now.children_of(q) == seq_without(
                                s0.children_of(q),
                                block@.subrange(0, i + 1),
                            ) by {
                            if q == q0 {
                                assert(now.children_of(q0) == prev.remove(k));
                                assert(prev.remove(k) == seq_without(prev, seq![c]));
                                lemma_seq_without_compose(
                                    s0.children_of(q0),
                                    processed,
                                    seq![c],
                                );
                                assert(processed + seq![c] =~= processed.push(c));
                            } else {
                                assert(now.children_of(q) == mid.children_of(q)) by {
                                    assert(mid.same_node_except_parent(now, c));
                                    if q == c {
                                    } else {
                                        assert(mid.same_node(now, q));
                                    }
                                }
                                assert(!s0.children_of(q).contains(c)) by {
                                    if s0.children_of(q).contains(c) {
                                        let w = choose|w: int|
                                            0 <= w < s0.children_of(q).len()
                                                && s0.children_of(q)[w] == c;
                                        assert(s0.parent_of(c) == Some(q));
                                    }
                                }
                                lemma_seq_without_push_absent(
                                    s0.children_of(q),
                                    processed,
                                    c,
                                );
                            }
                        }
                        assert forall|n: usize|
                            #![trigger now.parent_of(n)]
                            !block@.subrange(0, i + 1).contains(n) implies now.parent_of(n)
                            == s0.parent_of(n) by {
                            assert(!processed.contains(n)) by {
                                if processed.contains(n) {
                                    let w = choose|w: int|
                                        0 <= w < processed.len() && processed[w] == n;
                                    assert(block@.subrange(0, i + 1)[w] == n);
                                }
                            }
                            assert(n != c) by {
                                assert(block@.subrange(0, i + 1)[i as int] == c);
                            }
                            if n == q0 {
                                assert(mid.same_node_except_children(now, q0));
                            } else {
                                assert(mid.same_node(now, n));
                            }
                        }
                        assert forall|n: usize| #![trigger now.live(n)] now.live(n)
                            == s0.live(n) by {
                            if n == c {
                                assert(mid.same_node_except_parent(now, c));
                            } else if n == q0 {
                                assert(mid.same_node_except_children(now, q0));
                            } else {
                                assert(mid.same_node(now, n));
                            }
                        }
                        assert forall|n: usize| #![trigger now.text_of(n)] now.text_of(n)
                            == s0.text_of(n) by {
                            if n == c {
                                assert(mid.same_node_except_parent(now, c));
                            } else if n == q0 {
                                assert(mid.same_node_except_children(now, q0));
                            } else {
                                assert(mid.same_node(now, n));
                            }
                        }
                        assert forall|n: usize| #![trigger now.tag_of(n)] now.tag_of(n)
                            == s0.tag_of(n) by {
                            if n == c {
                                assert(mid.same_node_except_parent(now, c));
                            } else if n == q0 {
                                assert(mid.same_node_except_children(now, q0));
                            } else {
                                assert(mid.same_node(now, n));
                            }
                        }
                        assert forall|a: int| #![trigger block@[a]] 0 <= a < i + 1 implies
                            now.parent_of(block@[a]) is None by {
                            if a < i {
                                let n = block@[a];
                                assert(n != c);
                                if n == q0 {
                                    assert(mid.same_node_except_children(now, q0));
                                } else {
                                    assert(mid.same_node(now, n));
                                }
                            }
                        }
                    },
                }
            }
        }
        proof {
            assert(block@.subrange(0, m as int) =~= block@);
        }
        Ok(())
    }

    /// Whether a block of entities may be spliced into the child list of
    /// `p`: every member is live, parentless, distinct from `p`, and the
    /// members are pairwise distinct.
    pub open spec fn block_ok(self, p: usize, block: Seq<usize>) -> bool {
        &&& forall|i: int|
            #![trigger block[i]]
            0 <= i < block.len() ==> self.live(block[i]) && block[i] != p && self.parent_of(
                block[i],
            ) is None
        &&& forall|i: int, j: int|
            #![trigger block[i], block[j]]
            0 <= i < j < block.len() ==> block[i] != block[j]
    }

    /// Splices a block of parentless entities into the child list of `p` so
    /// that the block occupies positions `at .. at + block.len()`, keeping
    /// its internal order, and shifting the children previously at `at` and
    /// later behind the block.
    #[verifier::loop_isolation(false)]
    pub fn insert_block_at(&mut self, p: usize, at: usize, block: &Vec<usize>) -> (r: Result<
        (),
        CoreError,
    >)
        requires
            old(self).wf(),
        ensures
            final(self).wf(),
            final(self).n_nodes() == old(self).n_nodes(),
            r is Ok <==> (old(self).live(p) && at <= old(self).children_of(p).len() && old(
                self,
            ).block_ok(p, block@)),
            r is Err ==> *final(self) == *old(self),
            r is Ok ==> {
                &&& final(self).children_of(p) == old(self).children_of(p).subrange(0, at as int)
                    + block@ + old(self).children_of(p).subrange(
                    at as int,
                    old(self).children_of(p).len() as int,
                )
                &&& forall|i: int|
                    0 <= i < block@.len() ==> final(self).parent_of(block@[i]) == Some(p)
                &&& forall|i: int|
                    0 <= i < block@.len() ==> old(self).same_node_except_parent(
                        *final(self),
                        block@[i],
                    )
                &&& old(self).same_node_except_children(*final(self), p)
                &&& forall|n: usize|
                    n != p && !block@.contains(n) ==> old(self).same_node(*final(self), n)
            },
    {
        let m = block.len();
        if !self.is_live(p) {
            return Err(CoreError::NotAlive { entity: p });
        }
        if at > self.child_count(p) {
            return Err(CoreError::PathWalkFailed);
        }
        for i in 0..m
            invariant
                m == block@.len(),
                *self == *old(self),
                forall|a: int|
                    #![trigger block@[a]]
                    0 <= a < i ==> self.live(block@[a]) && block@[a] != p && self.parent_of(
                        block@[a],
                    ) is None,
                forall|a: int, b: int|
                    #![trigger block@[a], block@[b]]
                    0 <= a < b < i ==> block@[a] != block@[b],
        {
            let c = block[i];
            if !self.is_live(c) {
                return Err(CoreError::NotAlive { entity: c });
            }
            if c == p {
                return Err(CoreError::SelfParent { entity: c });
            }
            if self.get_parent(c).is_some() {
                return Err(CoreError::AlreadyParented { entity: c });
            }
            for j in 0..i
                invariant
                    m == block@.len(),
                    i < m,
                    *self == *old(self),
                    c == block@[i as int],
                    forall|a: int| #![trigger block@[a]] 0 <= a < j ==> block@[a] != c,
            {
                if block[j] == c {
                    return Err(CoreError::AlreadyParented { entity: c });
                }
            }
        }
        let ghost s1 = *self;
        let ghost oldc = s1.children_of(p);
        let ghost pre = oldc.subrange(0, at as int);
        let ghost post = oldc.subrange(at as int, oldc.len() as int);
        for i in 0..m
            invariant
                m == block@.len(),
                self.wf(),
                self.n_nodes() == s1.n_nodes(),
                at <= self.children_of(p).len(),
                s1.live(p),
                at <= oldc.len(),
                s1.block_ok(p, block@),
                self.children_of(p) == pre + block@.subrange(m - i, m as int) + post,
                forall|a: int|
                    #![trigger block@[a]]
                    m - i <= a < m ==> self.parent_of(block@[a]) == Some(p)
                        && s1.same_node_except_parent(*self, block@[a]),
                forall|a: int|
                    #![trigger block@[a]]
                    0 <= a < m - i ==> s1.same_node(*self, block@[a]),
                s1.same_node_except_children(*self, p),
                forall|n: usize| n != p && !block@.contains(n) ==> s1.same_node(*self, n),
        {
            let idx = m - 1 - i;
            let c = block[idx];
            proof {
                assert(s1.live(c) && c != p && s1.parent_of(c) is None);
                assert(s1.same_node(*self, c));
            }
            let ghost mid = *self;
            let ghost curc = mid.children_of(p);
            self.insert_child_at(p, at, c);
            proof {
                let s2 = *self;
                let oldb = block@.subrange(m - i, m as int);
                let newb = block@.subrange(m - 1 - i, m as int);
                assert(curc == pre + oldb + post);
                assert(s2.children_of(p) == curc.insert(at as int, c));
                assert(pre.len() == at);
                lemma_splice_step(pre, oldb, post, c);
                assert(newb =~= seq![c] + oldb);
                assert(s2.children_of(p) == pre + newb + post);
                assert forall|n: usize| n != p && !block@.contains(n) implies s1.same_node(
                    s2,
                    n,
                ) by {
                    assert(n != c) by {
                        assert(block@[idx as int] == c);
                    }
                    assert(mid.same_node(s2, n));
                }
                assert forall|a: int| #![trigger block@[a]] 0 <= a < m - i - 1 implies
                    s1.same_node(s2, block@[a]) by {
                    assert(block@[a] != c);
                    assert(block@[a] != p);
                    assert(mid.same_node(s2, block@[a]));
                }
                assert forall|a: int| #![trigger block@[a]] m - i - 1 <= a < m implies
                    s2.parent_of(block@[a]) == Some(p) && s1.same_node_except_parent(
                        s2,
                        block@[a],
                    ) by {
                    if a == m - 1 - i {
                        assert(block@[a] == c);
                    } else {
                        assert(block@[a] != c);
                        assert(block@[a] != p);
                        assert(mid.same_node(s2, block@[a]));
                    }
                }
            }
        }
        proof {
            assert(block@.subrange(0, m as int) =~= block@);
        }
        Ok(())
    }

    /// Removes `c` from its parent's child list (keeping the remaining
    /// children in order) and makes it a root.  Detaching an entity that is
    /// already a root changes nothing.
    pub fn detach(&mut self, c: usize) -> (r: Result<(), CoreError>)
        requires
            old(self).wf(),
        ensures
            final(self).wf(),
            final(self).n_nodes() == old(self).n_nodes(),
            r is Ok <==> old(self).live(c),
            r is Err ==> *final(self) == *old(self) && r == Err::<(), CoreError>(
                CoreError::NotAlive { entity: c },
            ),
            r is Ok ==> match old(self).parent_of(c) {
                None => *final(self) == *old(self),
                Some(p) => {
                    let k = old(self).children_of(p).index_of(c);
                    &&& 0 <= k < old(self).children_of(p).len()
                    &&& old(self).children_of(p)[k] == c
                    &&& final(self).children_of(p) == old(self).children_of(p).remove(k)
                    &&& final(self).parent_of(c) == None::<usize>
                    &&& old(self).same_node_except_parent(*final(self), c)
                    &&& old(self).same_node_except_children(*final(self), p)
                    &&& forall|n: usize| n != p && n != c ==> old(self).same_node(*final(self), n)
                },
            },
    {
        if !self.is_live(c) {
            return Err(CoreError::NotAlive { entity: c });
        }
        match self.get_parent(c) {
            None => Ok(()),
            Some(p) => {
                proof {
                    assert(old(self).children_of(p).contains(c));
                }
                let k = self.index_of_child(p, c);
                let cnode = &mut self.nodes[c];
                cnode.parent = None;
                let pnode = &mut self.nodes[p];
                pnode.children.remove(k);
                proof {
                    let s1 = *old(self);
                    let s2 = *self;
                    let oldc = s1.children_of(p);
                    let newc = s2.children_of(p);
                    assert(newc == oldc.remove(k as int));
                    // the unique position of c is k
                    assert forall|j: int| 0 <= j < oldc.len() && oldc[j] == c implies j
                        == k by {
                        if j < k {
                            assert(oldc[j] != oldc[k as int]);
                        } else if j > k {
                            assert(oldc[k as int] != oldc[j]);
                        }
                    }
                    assert(oldc.index_of(c) == k as int);
                    assert forall|n: usize| n != p && n != c implies s1.same_node(s2, n) by {
                        if (n as int) < s1.nodes@.len() {
                            assert(s2.nodes@[n as int] == s1.nodes@[n as int]);
                        }
                    }
                    // well-formedness
                    assert forall|q: usize, j: int|
                        #![trigger s2.children_of(q)[j]]
                        0 <= j < s2.children_of(q).len() implies {
                        let x = s2.children_of(q)[j];
                        s2.live(x) && x != q && s2.parent_of(x) == Some(q)
                    } by {
                        if q == p {
                            let x = newc[j];
                            let j1: int = if j < k { j } else { j + 1 };
                            assert(x == oldc[j1]);
                            assert(x != c);
                            assert(s1.live(x) && x != p && s1.parent_of(x) == Some(p));
                        } else {
                            assert(s2.children_of(q) == s1.children_of(q));
                            let x = s1.children_of(q)[j];
                            assert(s1.live(x) && x != q && s1.parent_of(x) == Some(q));
                            assert(x != c) by {
                                if x == c {
                                    assert(s1.parent_of(c) == Some(q));
                                }
                            }
                        }
                    }
                    assert forall|q: usize, j: int, l: int|
                        #![trigger s2.children_of(q)[j], s2.children_of(q)[l]]
                        0 <= j < l < s2.children_of(q).len() implies s2.children_of(q)[j]
                        != s2.children_of(q)[l] by {
                        if q == p {
                            let j1: int = if j < k { j } else { j + 1 };
                            let l1: int = if l < k { l } else { l + 1 };
                            assert(newc[j] == oldc[j1]);
                            assert(newc[l] == oldc[l1]);
                            assert(j1 < l1);
                        } else {
                            assert(s2.children_of(q) == s1.children_of(q));
                        }
                    }
                    assert forall|x: usize| #![trigger s2.parent_of(x)] s2.parent_of(
                        x,
                    ) is Some implies {
                        let q = s2.parent_of(x)->0;
                        s2.live(q) && s2.children_of(q).contains(x)
                    } by {
                        let q = s2.parent_of(x)->0;
                        assert(x != c);
                        assert(s2.parent_of(x) == s1.parent_of(x));
                        assert(s1.live(q) && s1.children_of(q).contains(x));
                        let j = choose|j: int|
                            0 <= j < s1.children_of(q).len() && s1.children_of(q)[j] == x;
                        if q == p {
                            if j < k {
                                assert(newc[j] == x);
                            } else {
                                assert(j != k);
                                assert(newc[j - 1] == x);
                            }
                        } else {
                            assert(s2.children_of(q) == s1.children_of(q));
                            assert(s2.children_of(q)[j] == x);
                        }
                    }
                }
                Ok(())
            },
        }
    }

    /// How many entities are live.
    pub closed spec fn live_count(self) -> nat {
        count_live(self.nodes@)
    }

    /// Despawns the detached entity `e` and, recursively, everything below
    /// it: the host runtime's cascade rule removes a despawned entity's
    /// descendants as well, and the model does the same.
    #[verifier::loop_isolation(false)]
    fn despawn_rec(&mut self, e: usize)
        requires
            old(self).wf(),
            old(self).live(e),
            old(self).parent_of(e) is None,
        ensures
            final(self).wf(),
            final(self).n_nodes() == old(self).n_nodes(),
            !final(self).live(e),
            forall|n: usize|
                #![trigger final(self).live(n)]
                final(self).live(n) ==> old(self).live(n) && old(self).same_node(*final(self), n),
            forall|n: usize|
                old(self).live(n) && old(self).parent_of(n) is None && n != e ==> final(self).live(
                    n,
                ),
            final(self).live_count() < old(self).live_count(),
        decreases old(self).live_count(),
    {
        let ghost s0 = *self;
        let total_nodes = self.nodes.len();
        let kids = self.get_children(e);
        let m = kids.len();
        proof {
            assert(s0.nodes@.len() == total_nodes as nat);
            assert(kids@ == s0.children_of(e));
            assert forall|a: int, b: int| 0 <= a < b < m implies kids@[a] != kids@[b] by {
                assert(s0.children_of(e)[a] != s0.children_of(e)[b]);
            }
            assert forall|a: int| #![trigger kids@[a]] 0 <= a < m implies s0.live(kids@[a])
                && kids@[a] != e && s0.parent_of(kids@[a]) == Some(e) by {
                assert(s0.children_of(e)[a] == kids@[a]);
            }
            assert(s0.children_of(e) == kids@.skip(0));
        }
        // make every child a root
        for i in 0..m
            invariant
                self.wf(),
                self.n_nodes() == s0.n_nodes(),
                self.live(e),
                self.parent_of(e) is None,
                self.children_of(e) == kids@.skip(i as int),
                forall|n: usize| #![trigger self.live(n)] self.live(n) == s0.live(n),
                forall|a: int|
                    #![trigger kids@[a]]
                    0 <= a < i ==> self.parent_of(kids@[a]) is None
                        && s0.same_node_except_parent(*self, kids@[a]),
                forall|a: int| #![trigger kids@[a]] i <= a < m ==> s0.same_node(*self, kids@[a]),
                forall|n: usize| n != e && !kids@.contains(n) ==> s0.same_node(*self, n),
        {
            let c = kids[i];
            let ghost mid = *self;
            proof {
                assert(kids@.skip(i as int)[0] == kids@[i as int]);
                assert(mid.children_of(e)[0] == c);
                assert(mid.live(c) && mid.parent_of(c) == Some(e));
            }
            let _detached = self.detach(c);
            proof {
                let s3 = *self;
                // the unique index of c among the remaining children is 0
                assert forall|j: int|
                    0 <= j < mid.children_of(e).len() && mid.children_of(e)[j] == c implies j
                    == 0 by {
                    if j > 0 {
                        assert(mid.children_of(e)[0] != mid.children_of(e)[j]);
                    }
                }
                assert(mid.children_of(e).index_of(c) == 0);
                assert(s3.children_of(e) == mid.children_of(e).remove(0));
                assert(s3.children_of(e) =~= kids@.skip(i + 1));
                assert forall|n: usize| #![trigger s3.live(n)] s3.live(n) == s0.live(n) by {
                    if n == e {
                        assert(mid.same_node_except_children(s3, e));
                    } else if n == c {
                        assert(mid.same_node_except_parent(s3, c));
                    } else {
                        assert(mid.same_node(s3, n));
                    }
                    assert(mid.live(n) == s0.live(n));
                }
                assert forall|a: int| #![trigger kids@[a]] 0 <= a < i + 1 implies s3.parent_of(
                    kids@[a],
                ) is None && s0.same_node_except_parent(s3, kids@[a]) by {
                    if a == i {
                        assert(s0.same_node(mid, c));
                        assert(mid.same_node_except_parent(s3, c));
                    } else {
                        let n = kids@[a];
                        assert(n != c);
                        assert(n != e);
                        assert(mid.same_node(s3, n));
                    }
                }
                assert forall|a: int| #![trigger kids@[a]] i + 1 <= a < m implies s0.same_node(
                    s3,
                    kids@[a],
                ) by {
                    let n = kids@[a];
                    assert(n != c);
                    assert(n != e);
                    assert(mid.same_node(s3, n));
                }
                assert forall|n: usize| n != e && !kids@.contains(n) implies s0.same_node(
                    s3,
                    n,
                ) by {
                    assert(kids@[i as int] == c);
                    assert(n != c);
                    assert(mid.same_node(s3, n));
                }
            }
        }
        proof {
            assert(self.children_of(e) =~= Seq::<usize>::empty());
        }
        // despawn the now isolated entity
        let ghost s1 = *self;
        let enode = &mut self.nodes[e];
        enode.alive = false;
        let ghost s2 = *self;
        proof {
            assert forall|n: usize| n != e implies s1.same_node(s2, n) by {
                if (n as int) < s1.nodes@.len() {
                    assert(s2.nodes@[n as int] == s1.nodes@[n as int]);
                }
            }
            assert(!s2.live(e));
            assert(s2.children_of(e) == Seq::<usize>::empty());
            assert(s2.parent_of(e) is None);
            // nothing listed e as a child, so killing it keeps the graph well formed
            assert forall|q: usize, j: int|
                #![trigger s1.children_of(q)[j]]
                0 <= j < s1.children_of(q).len() implies s1.children_of(q)[j] != e by {
                if s1.children_of(q)[j] == e {
                    assert(s1.parent_of(e) == Some(q));
                }
            }
            assert forall|q: usize, j: int|
                #![trigger s2.children_of(q)[j]]
                0 <= j < s2.children_of(q).len() implies {
                let x = s2.children_of(q)[j];
                s2.live(x) && x != q && s2.parent_of(x) == Some(q)
            } by {
                assert(q != e);
                assert(s2.children_of(q) == s1.children_of(q));
                let x = s1.children_of(q)[j];
                assert(s1.live(x) && x != q && s1.parent_of(x) == Some(q));
                assert(x != e);
            }
            assert forall|q: usize, j: int, k: int|
                #![trigger s2.children_of(q)[j], s2.children_of(q)[k]]
                0 <= j < k < s2.children_of(q).len() implies s2.children_of(q)[j]
                != s2.children_of(q)[k] by {
                assert(q != e);
                assert(s2.children_of(q) == s1.children_of(q));
            }
            assert forall|x: usize| #![trigger s2.parent_of(x)] s2.parent_of(x) is Some implies {
                let q = s2.parent_of(x)->0;
                s2.live(q) && s2.children_of(q).contains(x)
            } by {
                assert(x != e);
                assert(s1.same_node(s2, x));
                let q = s1.parent_of(x)->0;
                assert(s1.live(q) && s1.children_of(q).contains(x));
                assert(q != e) by {
                    if q == e {
                        let j = choose|j: int|
                            0 <= j < s1.children_of(e).len() && s1.children_of(e)[j] == x;
                        assert(false);
                    }
                }
                assert(s2.children_of(q) == s1.children_of(q));
            }
            // the live count drops by the one entity
            assert forall|i: int|
                #![trigger s2.nodes@[i]]
                0 <= i < s2.nodes@.len() && s2.nodes@[i].alive implies s1.nodes@[i].alive by {}
            lemma_count_live_strict(s1.nodes@, s2.nodes@, e as int);
            assert forall|i: int|
                #![trigger s1.nodes@[i]]
                0 <= i < s1.nodes@.len() && s1.nodes@[i].alive implies s0.nodes@[i].alive by {
                assert(0 <= i < total_nodes as int);
                let n = i as usize;
                assert(n as int == i);
                assert(s1.live(n) == s0.live(n));
            }
            assert forall|i: int|
                #![trigger s0.nodes@[i]]
                0 <= i < s0.nodes@.len() && s0.nodes@[i].alive implies s1.nodes@[i].alive by {
                assert(0 <= i < total_nodes as int);
                let n = i as usize;
                assert(n as int == i);
                assert(s1.live(n) == s0.live(n));
            }
            lemma_count_live_pointwise(s0.nodes@, s1.nodes@);
            lemma_count_live_pointwise(s1.nodes@, s0.nodes@);
            assert(s2.live_count() < s0.live_count());
        }
        // recursively despawn the former children
        for i in 0..m
            invariant
                self.wf(),
                self.n_nodes() == s0.n_nodes(),
                !self.live(e),
                forall|n: usize|
                    #![trigger self.live(n)]
                    self.live(n) ==> s2.live(n) && s2.same_node(*self, n),
                forall|a: int| #![trigger kids@[a]] 0 <= a < i ==> !self.live(kids@[a]),
                forall|a: int|
                    #![trigger kids@[a]]
                    i <= a < m ==> self.live(kids@[a]) && self.parent_of(kids@[a]) is None,
                forall|n: usize|
                    s2.live(n) && s2.parent_of(n) is None && !kids@.contains(n) ==> self.live(n),
                self.live_count() <= s2.live_count(),
        {
            let c = kids[i];
            let ghost mid = *self;
            self.despawn_rec(c);
            proof {
                let s3 = *self;
                assert forall|n: usize| #![trigger s3.live(n)] s3.live(n) implies s2.live(n)
                    && s2.same_node(s3, n) by {
                    assert(mid.live(n) && mid.same_node(s3, n));
                    assert(s2.live(n) && s2.same_node(mid, n));
                }
                assert forall|a: int| #![trigger kids@[a]] 0 <= a < i + 1 implies !s3.live(
                    kids@[a],
                ) by {
                    if a < i {
                        assert(!mid.live(kids@[a]));
                        if s3.live(kids@[a]) {
                            assert(mid.live(kids@[a]));
                        }
                    }
                }
                assert forall|a: int| #![trigger kids@[a]] i + 1 <= a < m implies s3.live(kids@[a])
                    && s3.parent_of(kids@[a]) is None by {
                    let n = kids@[a];
                    assert(n != c);
                    assert(mid.live(n) && mid.parent_of(n) is None);
                    assert(s3.live(n));
                    assert(mid.same_node(s3, n));
                }
                assert forall|n: usize|
                    s2.live(n) && s2.parent_of(n) is None && !kids@.contains(n) implies s3.live(
                    n,
                ) by {
                    assert(mid.live(n));
                    assert(s2.same_node(mid, n));
                    assert(kids@[i as int] == c);
                    assert(n != c);
                }
            }
        }
        proof {
            let sf = *self;
            assert forall|n: usize| #![trigger sf.live(n)] sf.live(n) implies s0.live(n)
                && s0.same_node(sf, n) by {
                assert(s2.live(n) && s2.same_node(sf, n));
                assert(n != e);
                assert(!kids@.contains(n)) by {
                    if kids@.contains(n) {
                        let a = choose|a: int| 0 <= a < kids@.len() && kids@[a] == n;
                        assert(!sf.live(kids@[a]));
                    }
                }
                assert(s0.same_node(s1, n));
                assert(s1.same_node(s2, n));
            }
            assert forall|n: usize|
                s0.live(n) && s0.parent_of(n) is None && n != e implies sf.live(n) by {
                assert(!kids@.contains(n)) by {
                    if kids@.contains(n) {
                        let a = choose|a: int| 0 <= a < kids@.len() && kids@[a] == n;
                        assert(s0.parent_of(kids@[a]) == Some(e));
                    }
                }
                assert(s0.same_node(s1, n));
                assert(s1.same_node(s2, n));
                assert(s2.live(n) && s2.parent_of(n) is None);
            }
            assert(sf.live_count() < s0.live_count());
        }
    }

    /// Despawns `e`: removes it from its parent's child list (keeping the
    /// remaining siblings in order), and despawns it together with its
    /// descendants, following the host runtime's cascade rule.
    ///
    /// `wf` does not rule out an entity sitting beneath its own descendant,
    /// so the parent's new child list is pinned only when the parent
    /// survives the cascade.  An entity with no parent always survives (it
    /// sits in no child list, hence never below `e`), which is what callers
    /// rely on.
    pub fn despawn(&mut self, e: usize) -> (r: Result<(), CoreError>)
        requires
            old(self).wf(),
        ensures
            final(self).wf(),
            final(self).n_nodes() == old(self).n_nodes(),
            r is Ok <==> old(self).live(e),
            r is Err ==> *final(self) == *old(self) && r == Err::<(), CoreError>(
                CoreError::NotAlive { entity: e },
            ),
            r is Ok ==> {
                &&& !final(self).live(e)
                &&& forall|n: usize|
                    #![trigger final(self).live(n)]
                    final(self).live(n) ==> old(self).live(n)
                &&& forall|n: usize|
                    final(self).live(n) && Some(n) != old(self).parent_of(e) ==> old(
                        self,
                    ).same_node(*final(self), n)
                &&& forall|n: usize|
                    final(self).live(n) && Some(n) == old(self).parent_of(e) ==> old(
                        self,
                    ).same_node_except_children(*final(self), n)
                &&& match old(self).parent_of(e) {
                    Some(p) => {
                        let k = old(self).children_of(p).index_of(e);
                        &&& 0 <= k < old(self).children_of(p).len()
                        &&& old(self).children_of(p)[k] == e
                        &&& final(self).live(p) ==> final(self).children_of(p) == old(self).children_of(p).remove(k)
                    },
                    None => true,
                }
                &&& forall|n: usize|
                    old(self).live(n) && old(self).parent_of(n) is None && n != e
                        ==> final(self).live(n)
            },
    {
        if !self.is_live(e) {
            return Err(CoreError::NotAlive { entity: e });
        }
        let ghost s0 = *self;
        let _detached = self.detach(e);
        let ghost s1 = *self;
        self.despawn_rec(e);
        proof {
            let sf = *self;
            match s0.parent_of(e) {
                None => {
                    assert(s1 == s0);
                },
                Some(p) => {
                    assert forall|n: usize|
                        sf.live(n) && Some(n) != s0.parent_of(e) implies s0.same_node(sf, n) by {
                        assert(s1.live(n) && s1.same_node(sf, n));
                        assert(n != e);
                        assert(s0.same_node(s1, n));
                    }
                    assert forall|n: usize|
                        sf.live(n) && Some(n) == s0.parent_of(e) implies s0.same_node_except_children(
                        sf,
                        n,
                    ) by {
                        assert(s1.live(n) && s1.same_node(sf, n));
                        assert(s0.same_node_except_children(s1, p));
                    }
                    assert(sf.live(p) ==> sf.children_of(p) == s0.children_of(p).remove(
                        s0.children_of(p).index_of(e),
                    )) by {
                        if sf.live(p) {
                            assert(s1.live(p) && s1.same_node(sf, p));
                        }
                    }
                },
            }
            assert forall|n: usize|
                s0.live(n) && s0.parent_of(n) is None && n != e implies sf.live(n) by {
                match s0.parent_of(e) {
                    None => {
                        assert(s1 == s0);
                    },
                    Some(p) => {
                        if n == p {
                            assert(s0.same_node_except_children(s1, p));
                        } else {
                            assert(s0.same_node(s1, n));
                        }
                    },
                }
                assert(s1.live(n) && s1.parent_of(n) is None);
            }
        }
        Ok(())
    }

    /// Overwrites the text content of the text entity `e` in place.
    pub fn set_text(&mut self, e: usize, value: String) -> (r: Result<(), CoreError>)
        requires
            old(self).wf(),
        ensures
            final(self).wf(),
            final(self).n_nodes() == old(self).n_nodes(),
            r is Ok <==> (old(self).live(e) && old(self).text_of(e) is Some),
            r is Err ==> *final(self) == *old(self),
            !old(self).live(e) ==> r == Err::<(), CoreError>(CoreError::NotAlive { entity: e }),
            old(self).live(e) && old(self).text_of(e) is None ==> r == Err::<(), CoreError>(
                CoreError::NoText { entity: e },
            ),
            r is Ok ==> {
                &&& final(self).text_of(e) == Some(value@)
                &&& final(self).live(e)
                &&& final(self).parent_of(e) == old(self).parent_of(e)
                &&& final(self).children_of(e) == old(self).children_of(e)
                &&& final(self).tag_of(e) == old(self).tag_of(e)
                &&& forall|n: usize| n != e ==> old(self).same_node(*final(self), n)
            },
    {
        if !(e < self.nodes.len() && self.nodes[e].alive) {
            return Err(CoreError::NotAlive { entity: e });
        }
        if self.nodes[e].text.is_none() {
            return Err(CoreError::NoText { entity: e });
        }
        let enode = &mut self.nodes[e];
        enode.text = Some(value);
        proof {
            let s1 = *old(self);
            let s2 = *self;
            assert forall|n: usize| n != e implies s1.same_node(s2, n) by {
                if (n as int) < s1.nodes@.len() {
                    assert(s2.nodes@[n as int] == s1.nodes@[n as int]);
                }
            }
            lemma_wf_same_structure(s1, s2);
        }
        Ok(())
    }

    /// The descendant of `e` reached by following the child-index path, or
    /// `None` when some index is out of range.
    pub open spec fn descend(self, e: usize, path: Seq<u8>) -> Option<usize>
        decreases path.len(),
    {
        if path.len() == 0 {
            Some(e)
        } else {
            let i = path[0] as int;
            if i < self.children_of(e).len() {
                self.descend(self.children_of(e)[i], path.skip(1))
            } else {
                None
            }
        }
    }

    /// Walks from `start` through the child-index path and returns the
    /// descendant it designates.  Fails exactly when some index of the path
    /// is out of range.
    pub fn descend_path(&self, start: usize, path: &Vec<u8>) -> (r: Result<usize, CoreError>)
        ensures
            match self.descend(start, path@) {
                Some(e) => r == Ok::<usize, CoreError>(e),
                None => r == Err::<usize, CoreError>(CoreError::PathWalkFailed),
            },
    {
        let mut cur = start;
        proof {
            assert(path@.skip(0) =~= path@);
        }
        let n = path.len();
        for i in 0..n
            invariant
                n == path@.len(),
                self.descend(start, path@) == self.descend(cur, path@.skip(i as int)),
        {
            let idx = path[i] as usize;
            proof {
                assert(path@.skip(i as int)[0] == path@[i as int]);
                assert(path@.skip(i as int).skip(1) =~= path@.skip(i + 1));
            }
            if idx >= self.child_count(cur) {
                return Err(CoreError::PathWalkFailed);
            }
            cur = self.child_at(cur, idx);
        }
        proof {
            assert(path@.skip(n as int) =~= Seq::<u8>::empty());
        }
        Ok(cur)
    }
}

/// How many of the nodes are alive.
spec fn count_live(s: Seq<SceneNode>) -> nat
    decreases s.len(),
{
    if s.len() == 0 {
        0
    } else {
        count_live(s.drop_last()) + if s.last().alive {
            1nat
        } else {
            0nat
        }
    }
}

/// Fewer nodes are alive in `s2` than in `s1` when liveness only ever goes
/// from alive to dead.
proof fn lemma_count_live_pointwise(s1: Seq<SceneNode>, s2: Seq<SceneNode>)
    requires
        s1.len() == s2.len(),
        forall|i: int| #![trigger s2[i]] 0 <= i < s2.len() && s2[i].alive ==> s1[i].alive,
    ensures
        count_live(s2) <= count_live(s1),
    decreases s1.len(),
{
    if s1.len() > 0 {
        assert forall|i: int|
            #![trigger s2.drop_last()[i]]
            0 <= i < s2.drop_last().len() && s2.drop_last()[i].alive implies s1.drop_last()[i].alive by {
            assert(s2.drop_last()[i] == s2[i]);
            assert(s1.drop_last()[i] == s1[i]);
        }
        lemma_count_live_pointwise(s1.drop_last(), s2.drop_last());
        assert(s2.last() == s2[s1.len() - 1]);
        assert(s1.last() == s1[s1.len() - 1]);
    }
}

/// And strictly fewer when some node died.
proof fn lemma_count_live_strict(s1: Seq<SceneNode>, s2: Seq<SceneNode>, x: int)
    requires
        s1.len() == s2.len(),
        forall|i: int| #![trigger s2[i]] 0 <= i < s2.len() && s2[i].alive ==> s1[i].alive,
        0 <= x < s1.len(),
        s1[x].alive,
        !s2[x].alive,
    ensures
        count_live(s2) < count_live(s1),
    decreases s1.len(),
{
    assert forall|i: int|
        #![trigger s2.drop_last()[i]]
        0 <= i < s2.drop_last().len() && s2.drop_last()[i].alive implies s1.drop_last()[i].alive by {
        assert(s2.drop_last()[i] == s2[i]);
        assert(s1.drop_last()[i] == s1[i]);
    }
    assert(s2.last() == s2[s1.len() - 1]);
    assert(s1.last() == s1[s1.len() - 1]);
    if x == s1.len() - 1 {
        lemma_count_live_pointwise(s1.drop_last(), s2.drop_last());
    } else {
        assert(s1.drop_last()[x] == s1[x]);
        assert(s2.drop_last()[x] == s2[x]);
        lemma_count_live_strict(s1.drop_last(), s2.drop_last(), x);
    }
}

/// The child list `c` with every entity of `block` taken out, the
/// remaining entities keeping their relative order.
pub open spec fn seq_without(c: Seq<usize>, block: Seq<usize>) -> Seq<usize>
    decreases c.len(),
{
    if c.len() == 0 {
        Seq::empty()
    } else if block.contains(c[0]) {
        seq_without(c.drop_first(), block)
    } else {
        seq![c[0]] + seq_without(c.drop_first(), block)
    }
}

/// Taking out entities that do not occur leaves the list as it is.
pub proof fn lemma_seq_without_all_absent(c: Seq<usize>, block: Seq<usize>)
    requires
        forall|j: int| 0 <= j < c.len() ==> !block.contains(#[trigger] c[j]),
    ensures
        seq_without(c, block) == c,
    decreases c.len(),
{
    if c.len() > 0 {
        assert(!block.contains(c[0]));
        assert forall|j: int| 0 <= j < c.drop_first().len() implies !block.contains(
            #[trigger] c.drop_first()[j],
        ) by {
            assert(c.drop_first()[j] == c[j + 1]);
        }
        lemma_seq_without_all_absent(c.drop_first(), block);
        assert(seq_without(c, block) =~= c);
    }
}

/// Extending the block by an entity the list does not hold changes
/// nothing.
pub proof fn lemma_seq_without_push_absent(c: Seq<usize>, block: Seq<usize>, x: usize)
    requires
        !c.contains(x),
    ensures
        seq_without(c, block.push(x)) == seq_without(c, block),
    decreases c.len(),
{
    if c.len() > 0 {
        assert(c[0] != x);
        assert(block.push(x).contains(c[0]) == block.contains(c[0])) by {
            if block.contains(c[0]) {
                let w = choose|w: int| 0 <= w < block.len() && block[w] == c[0];
                assert(block.push(x)[w] == c[0]);
            }
            if block.push(x).contains(c[0]) {
                let w = choose|w: int|
                    0 <= w < block.push(x).len() && block.push(x)[w] == c[0];
                assert(w < block.len());
            }
        }
        assert(!c.drop_first().contains(x)) by {
            if c.drop_first().contains(x) {
                let w = choose|w: int|
                    0 <= w < c.drop_first().len() && c.drop_first()[w] == x;
                assert(c[w + 1] == x);
            }
        }
        lemma_seq_without_push_absent(c.drop_first(), block, x);
    }
}

/// Taking entities out one block after another is taking out the combined
/// block.
pub proof fn lemma_seq_without_compose(c: Seq<usize>, a: Seq<usize>, b: Seq<usize>)
    ensures
        seq_without(seq_without(c, a), b) == seq_without(c, a + b),
    decreases c.len(),
{
    if c.len() > 0 {
        lemma_seq_without_compose(c.drop_first(), a, b);
        assert((a + b).contains(c[0]) == (a.contains(c[0]) || b.contains(c[0]))) by {
            if a.contains(c[0]) {
                let w = choose|w: int| 0 <= w < a.len() && a[w] == c[0];
                assert((a + b)[w] == c[0]);
            }
            if b.contains(c[0]) {
                let w = choose|w: int| 0 <= w < b.len() && b[w] == c[0];
                assert((a + b)[a.len() + w] == c[0]);
            }
            if (a + b).contains(c[0]) {
                let w = choose|w: int| 0 <= w < (a + b).len() && (a + b)[w] == c[0];
                if w < a.len() {
                    assert(a[w] == c[0]);
                } else {
                    assert(b[w - a.len()] == c[0]);
                }
            }
        }
        if a.contains(c[0]) {
        } else if b.contains(c[0]) {
            assert(seq_without(seq_without(c, a), b) =~= seq_without(c, a + b)) by {
                assert(seq_without(c, a) == seq![c[0]] + seq_without(c.drop_first(), a));
                assert((seq![c[0]] + seq_without(c.drop_first(), a)).drop_first()
                    =~= seq_without(c.drop_first(), a));
            }
        } else {
            assert(seq_without(c, a) == seq![c[0]] + seq_without(c.drop_first(), a));
            assert((seq![c[0]] + seq_without(c.drop_first(), a)).drop_first()
                =~= seq_without(c.drop_first(), a));
            assert(seq_without(seq_without(c, a), b) =~= seq_without(c, a + b));
        }
    }
}

/// Removing the one position where `x` sits is taking `x` out.
pub proof fn lemma_remove_unique_is_without(f: Seq<usize>, x: usize, k: int)
    requires
        0 <= k < f.len(),
        f[k] == x,
        forall|j: int, l: int| 0 <= j < l < f.len() ==> !(#[trigger] f[j] == x && #[trigger] f[l] == x),
    ensures
        f.remove(k) == seq_without(f, seq![x]),
    decreases f.len(),
{
    if k == 0 {
        assert(seq![x][0] == x);
        assert(seq![x].contains(f[0]));
        assert(!f.drop_first().contains(x)) by {
            if f.drop_first().contains(x) {
                let w = choose|w: int|
                    0 <= w < f.drop_first().len() && f.drop_first()[w] == x;
                assert(f[w + 1] == x && f[0] == x);
            }
        }
        assert forall|j: int| 0 <= j < f.drop_first().len() implies !seq![x].contains(
            #[trigger] f.drop_first()[j],
        ) by {
            assert(f.drop_first()[j] == f[j + 1]);
            if seq![x].contains(f[j + 1]) {
                assert(f[j + 1] == x);
            }
        }
        lemma_seq_without_all_absent(f.drop_first(), seq![x]);
        assert(f.remove(0) =~= f.drop_first());
    } else {
        assert(f[0] != x) by {
            if f[0] == x {
                assert(f[0] == x && f[k] == x);
            }
        }
        assert(!seq![x].contains(f[0]));
        assert(f.drop_first()[k - 1] == x);
        assert forall|j: int, l: int| 0 <= j < l < f.drop_first().len() implies !(
        #[trigger] f.drop_first()[j] == x && #[trigger] f.drop_first()[l] == x) by {
            assert(f.drop_first()[j] == f[j + 1]);
            assert(f.drop_first()[l] == f[l + 1]);
        }
        lemma_remove_unique_is_without(f.drop_first(), x, k - 1);
        assert(f.remove(k) =~= seq![f[0]] + f.drop_first().remove(k - 1));
        assert(seq_without(f, seq![x]) == seq![f[0]] + seq_without(f.drop_first(), seq![x]));
    }
}

/// Law: appending a block of entities under a parent and then removing one
/// of the appended entities leaves the remaining siblings — the old
/// children followed by the rest of the block — in their original relative
/// order.  `c` is the parent's original child list, `b` the appended block
/// and `b[j]` the entity removed again; removal happens at the position
/// `index_of` reports, as `despawn` states it.
pub proof fn lemma_append_then_remove_preserves_order(c: Seq<usize>, b: Seq<usize>, j: int)
    requires
        0 <= j < b.len(),
        forall|i: int| 0 <= i < c.len() ==> #[trigger] c[i] != b[j],
        forall|i: int| 0 <= i < b.len() && i != j ==> #[trigger] b[i] != b[j],
    ensures
        (c + b).index_of(b[j]) == c.len() + j,
        (c + b).remove(c.len() + j) == c + b.remove(j),
{
    let s = c + b;
    assert(s[c.len() + j] == b[j]);
    assert forall|i: int| 0 <= i < s.len() && s[i] == b[j] implies i == c.len() + j by {
        if i < c.len() {
            assert(c[i] != b[j]);
        } else {
            assert(s[i] == b[i - c.len()]);
        }
    }
    assert(s.contains(b[j]));
    assert(s.remove(c.len() + j) =~= c + b.remove(j));
}

/// A live entity's handle is always below the node count.
pub broadcast proof fn scene_live_bound(s: SceneGraph, n: usize)
    ensures
        #[trigger] s.live(n) ==> n < s.n_nodes(),
{
}

/// Inserting an element at the seam between `pre` and `mid` prepends it to
/// `mid`.
proof fn lemma_splice_step<A>(pre: Seq<A>, mid: Seq<A>, post: Seq<A>, x: A)
    ensures
        (pre + mid + post).insert(pre.len() as int, x) == pre + (seq![x] + mid) + post,
{
    let s = pre + mid + post;
    let n = pre.len() as int;
    assert(s.subrange(0, n) =~= pre);
    assert(s.subrange(n, s.len() as int) =~= mid + post);
    assert(s.insert(n, x) =~= pre + (seq![x] + mid) + post);
}

/// Well-formedness depends only on liveness, parents and child lists: a
/// graph that agrees with a well-formed one on those is well-formed.
proof fn lemma_wf_same_structure(s1: SceneGraph, s2: SceneGraph)
    requires
        s1.wf(),
        forall|n: usize| #![trigger s2.live(n)] s2.live(n) == s1.live(n),
        forall|n: usize| #![trigger s2.parent_of(n)] s2.parent_of(n) == s1.parent_of(n),
        forall|n: usize| #![trigger s2.children_of(n)] s2.children_of(n) == s1.children_of(n),
    ensures
        s2.wf(),
{
    assert forall|p: usize, j: int|
        #![trigger s2.children_of(p)[j]]
        0 <= j < s2.children_of(p).len() implies {
        let c = s2.children_of(p)[j];
        s2.live(c) && c != p && s2.parent_of(c) == Some(p)
    } by {
        assert(s2.children_of(p) == s1.children_of(p));
        let c = s1.children_of(p)[j];
        assert(s1.live(c) && c != p && s1.parent_of(c) == Some(p));
    }
    assert forall|p: usize, j: int, k: int|
        #![trigger s2.children_of(p)[j], s2.children_of(p)[k]]
        0 <= j < k < s2.children_of(p).len() implies s2.children_of(p)[j] != s2.children_of(
        p,
    )[k] by {
        assert(s2.children_of(p) == s1.children_of(p));
    }
    assert forall|c: usize| #![trigger s2.parent_of(c)] s2.parent_of(c) is Some implies {
        let p = s2.parent_of(c)->0;
        s2.live(p) && s2.children_of(p).contains(c)
    } by {
        assert(s2.parent_of(c) == s1.parent_of(c));
        let p = s1.parent_of(c)->0;
        assert(s1.live(p) && s1.children_of(p).contains(c));
        assert(s2.children_of(p) == s1.children_of(p));
    }
}

} // verus!
