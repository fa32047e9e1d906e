//! The metric tree: a Burkhard-Keller tree over case-insensitive edit
//! distance.
//!
//! Every node owns its identifier, a set of opaque catalog references and a
//! mapping from edit distance to child node; a node sits in the tree exactly
//! at the chain of distances from its ancestors, which is what makes bounded
//! search with triangle-inequality pruning exact.  The tree additionally
//! records the path of every non-root node, in insertion order, which the
//! codec replays when persisting the tree.
//!
//! Specifications are stated over a ghost mirror of the structure
//! ([`SpecNode`], [`SpecTree`]) reached through the `@` view.

use vstd::prelude::*;

use crate::distance::dist;
use crate::distance::distance;
use crate::distance::fold;
use crate::metric::lemma_dist_le_max;

verus! {

/// Longest identifier the tree accepts, so that every pairwise distance fits
/// in the `u16` child keys.
pub const MAX_IDENTIFIER_LEN: usize = 65535;

/// The payload of a node: the catalog references its identifier resolves to,
/// tagged with the kind of identifier (book title or author name).
pub enum BkData {
    Book(Vec<u32>),
    Author(Vec<u32>),
}

impl Clone for BkData {
    /// An independent copy of the payload.
    fn clone(&self) -> (r: Self)
        ensures
            r.refs() == self.refs(),
            r.is_author() == self.is_author(),
    {
        let refs = self.get_refs();
        match self {
            BkData::Book(_) => BkData::Book(refs),
            BkData::Author(_) => BkData::Author(refs),
        }
    }
}

/// One child link: the child sits at edit distance `key` from its parent.
pub struct BkEdge {
    pub key: u16,
    pub node: BkNode,
}

/// A node of the metric tree.
pub struct BkNode {
    pub identifier: String,
    pub data: BkData,
    pub children: Vec<BkEdge>,
}

/// The tree: a root node plus the recorded path of every non-root node, in
/// insertion order.
pub struct BkTree {
    pub root: BkNode,
    pub paths: Vec<Vec<u16>>,
}

/// One match returned by a search: the payload of a matching node and its
/// distance from the query.
pub struct SearchResult {
    pub contents: BkData,
    pub distance: u16,
}

/// Ghost mirror of a node.
#[verifier::ext_equal]
pub struct SpecNode {
    pub ident: Seq<char>,
    pub author: bool,
    pub refs: Seq<u32>,
    pub children: Seq<(u16, SpecNode)>,
}

/// What a node contributes to the index, children aside.
#[verifier::ext_equal]
pub struct Entry {
    pub ident: Seq<char>,
    pub author: bool,
    pub refs: Seq<u32>,
}

/// Ghost mirror of a tree.
#[verifier::ext_equal]
pub struct SpecTree {
    pub root: SpecNode,
    pub paths: Seq<Seq<u16>>,
}

impl BkData {
    /// The reference list this payload carries.
    pub open spec fn refs(self) -> Seq<u32> {
        match self {
            BkData::Book(v) => v@,
            BkData::Author(v) => v@,
        }
    }

    /// Whether this payload marks an author identifier.
    pub open spec fn is_author(self) -> bool {
        self is Author
    }

    /// Appends the given references to this payload, keeping its kind.
    pub fn add_refs(&mut self, book_ref: Vec<u32>)
        ensures
            final(self).refs() == old(self).refs() + book_ref@,
            final(self).is_author() == old(self).is_author(),
    {
        let mut br = book_ref;
        match self {
            BkData::Book(d) => d.append(&mut br),
            BkData::Author(d) => d.append(&mut br),
        }
    }

    /// Whether this payload marks an author identifier.
    pub fn author_kind(&self) -> (b: bool)
        ensures
            b == self.is_author(),
    {
        match self {
            BkData::Book(_) => false,
            BkData::Author(_) => true,
        }
    }

    /// The reference list, borrowed.
    pub fn refs_ref(&self) -> (r: &Vec<u32>)
        ensures
            r@ == self.refs(),
    {
        match self {
            BkData::Book(d) => d,
            BkData::Author(d) => d,
        }
    }

    /// A copy of the reference list.
    pub fn get_refs(&self) -> (r: Vec<u32>)
        ensures
            r@ == self.refs(),
    {
        let src: &Vec<u32> = match self {
            BkData::Book(d) => d,
            BkData::Author(d) => d,
        };
        let mut r: Vec<u32> = Vec::new();
        for i in 0..src.len()
            invariant
                r@ =~= src@.take(i as int),
        {
            r.push(src[i]);
        }
        assert(src@.take(src@.len() as int) =~= src@);
        r
    }
}

impl BkNode {
    /// The ghost mirror of this node.
    pub open spec fn model(self) -> SpecNode
        decreases self,
    {
        SpecNode {
            ident: self.identifier@,
            author: self.data.is_author(),
            refs: self.data.refs(),
            children: BkNode::children_model(self.children@),
        }
    }

    /// The ghost mirror of a child list.
    pub open spec fn children_model(cs: Seq<BkEdge>) -> Seq<(u16, SpecNode)>
        decreases cs,
    {
        if cs.len() == 0 {
            Seq::empty()
        } else {
            BkNode::children_model(cs.drop_last()).push(
                (cs.last().key, cs.last().node.model()),
            )
        }
    }
}

impl View for BkNode {
    type V = SpecNode;

    open spec fn view(&self) -> SpecNode {
        self.model()
    }
}

impl View for BkTree {
    type V = SpecTree;

    open spec fn view(&self) -> SpecTree {
        SpecTree {
            root: self.root.model(),
            paths: self.paths@.map_values(|p: Vec<u16>| p@),
        }
    }
}

/// The child-list mirror is pointwise.
pub proof fn lemma_children_model(cs: Seq<BkEdge>)
    ensures
        BkNode::children_model(cs).len() == cs.len(),
        forall|i: int|
            0 <= i < cs.len() ==> #[trigger] BkNode::children_model(cs)[i] == (
                cs[i].key,
                cs[i].node.model(),
            ),
    decreases cs.len(),
{
    if cs.len() > 0 {
        lemma_children_model(cs.drop_last());
    }
}

/// Whether a raw insertion identifier carries the author marker.
pub open spec fn norm_author(id: Seq<char>) -> bool {
    id.len() > 0 && id[0] == '@'
}

/// The identifier with the author marker stripped.
pub open spec fn norm_ident(id: Seq<char>) -> Seq<char> {
    if norm_author(id) {
        id.drop_first()
    } else {
        id
    }
}

impl SpecNode {
    /// What this node contributes to the index.
    pub open spec fn entry(self) -> Entry {
        Entry { ident: self.ident, author: self.author, refs: self.refs }
    }

    /// The identifier this node is compared by: its case-folded form.
    pub open spec fn key(self) -> Seq<char> {
        fold(self.ident)
    }

    /// Every entry of the subtree rooted here, in preorder.
    pub open spec fn entries(self) -> Seq<Entry>
        decreases self,
    {
        seq![self.entry()] + SpecNode::entries_list(self.children)
    }

    /// The entries of a list of subtrees, left to right.
    pub open spec fn entries_list(cs: Seq<(u16, SpecNode)>) -> Seq<Entry>
        decreases cs,
    {
        if cs.len() == 0 {
            Seq::empty()
        } else {
            SpecNode::entries_list(cs.drop_last()) + cs.last().1.entries()
        }
    }

    /// The number of nodes in this subtree.
    pub open spec fn count(self) -> nat {
        self.entries().len()
    }

    /// Whether some node of this subtree has the given folded identifier.
    pub open spec fn contains_key(self, k: Seq<char>) -> bool {
        exists|i: int| 0 <= i < self.entries().len() && fold(#[trigger] self.entries()[i].ident) == k
    }

    /// Whether a child sits at distance `k`.
    pub open spec fn has_child(self, k: u16) -> bool {
        exists|i: int| 0 <= i < self.children.len() && (#[trigger] self.children[i]).0 == k
    }

    /// The position of the child at distance `k`.
    pub open spec fn child_index(self, k: u16) -> int {
        choose|i: int| 0 <= i < self.children.len() && (#[trigger] self.children[i]).0 == k
    }

    /// The child at distance `k`.
    pub open spec fn child_at(self, k: u16) -> SpecNode {
        self.children[self.child_index(k)].1
    }

    /// The node reached by following the given chain of distances.
    pub open spec fn node_at(self, p: Seq<u16>) -> Option<SpecNode>
        decreases p.len(),
    {
        if p.len() == 0 {
            Some(self)
        } else if self.has_child(p.first()) {
            self.child_at(p.first()).node_at(p.drop_first())
        } else {
            None
        }
    }

    /// Well-formedness: identifiers are short enough for `u16` distances,
    /// book identifiers never look like author markers, child keys are
    /// distinct and non-zero, and every node of a child's subtree sits at
    /// exactly the child's distance from this node.
    pub open spec fn wf(self) -> bool
        decreases self,
    {
        &&& self.ident.len() <= MAX_IDENTIFIER_LEN
        &&& (!self.author && self.ident.len() > 0 ==> self.ident[0] != '@')
        &&& (forall|i: int, j: int|
            0 <= i < j < self.children.len() ==> (#[trigger] self.children[i]).0 != (
            #[trigger] self.children[j]).0)
        &&& (forall|i: int| 0 <= i < self.children.len() ==> (#[trigger] self.children[i]).0 != 0)
        &&& (forall|i: int| 0 <= i < self.children.len() ==> (#[trigger] self.children[i]).1.wf())
        &&& (forall|i: int, e: Entry|
            0 <= i < self.children.len() && #[trigger] self.children[i].1.entries().contains(e)
                ==> dist(self.ident, e.ident) == self.children[i].0)
    }

    /// The node obtained by appending references to this node's list.
    pub open spec fn merge_refs(self, extra: Seq<u32>) -> SpecNode {
        SpecNode { refs: self.refs + extra, ..self }
    }

    /// Insertion: either merges the references into the node at distance
    /// zero, or records the new node as a fresh leaf, returning its path.
    pub open spec fn add_spec(self, m: SpecNode) -> (SpecNode, Option<Seq<u16>>)
        decreases self,
    {
        let d = dist(self.ident, m.ident);
        if d == 0 {
            (self.merge_refs(m.refs), None)
        } else {
            let k = d as u16;
            if self.has_child(k) {
                let i = self.child_index(k);
                let r = self.children[i].1.add_spec(m);
                (
                    SpecNode { children: self.children.update(i, (k, r.0)), ..self },
                    match r.1 {
                        Some(p) => Some(seq![k] + p),
                        None => None,
                    },
                )
            } else {
                (SpecNode { children: self.children.push((k, m)), ..self }, Some(seq![k]))
            }
        }
    }
}

impl SpecTree {
    /// Well-formedness of the whole tree: a well-formed root, and a path
    /// table that lists every non-root node exactly once, in an order that
    /// agrees with each node's position among its siblings.
    pub open spec fn wf(self) -> bool {
        &&& self.root.wf()
        &&& self.paths.len() + 1 == self.root.count()
        &&& (forall|i: int| 0 <= i < self.paths.len() ==> (#[trigger] self.paths[i]).len() > 0)
        &&& (forall|i: int|
            0 <= i < self.paths.len() ==> (#[trigger] self.root.node_at(self.paths[i])) is Some)
        &&& (forall|i: int, j: int|
            0 <= i < j < self.paths.len() ==> #[trigger] self.paths[i] != #[trigger] self.paths[j])
        &&& (forall|q: Seq<u16>|
            q.len() > 0 && (#[trigger] self.root.node_at(q)) is Some ==> self.paths.contains(q))
        &&& (forall|i: int|
            0 <= i < self.paths.len() && (#[trigger] self.paths[i]).len() > 1 ==> exists|j: int|
                0 <= j < i && self.paths[j] == self.paths[i].drop_last())
        &&& (forall|i: int, j: int, x: int, y: int|
            #![trigger self.root.node_at(self.paths[i].drop_last()).unwrap().children[x],
                self.root.node_at(self.paths[j].drop_last()).unwrap().children[y]]
            {
                let par = self.root.node_at(self.paths[i].drop_last()).unwrap();
                0 <= i < j < self.paths.len() && self.paths[i].drop_last()
                    == self.paths[j].drop_last() && 0 <= x < par.children.len() && 0 <= y
                    < par.children.len() && par.children[x].0 == self.paths[i].last()
                    && par.children[y].0 == self.paths[j].last() ==> x < y
            })
    }

    /// Tree-level insertion of a prepared leaf, recording the new node's
    /// path if one was created.
    pub open spec fn add_leaf_spec(self, m: SpecNode) -> SpecTree {
        let r = self.root.add_spec(m);
        SpecTree {
            root: r.0,
            paths: match r.1 {
                Some(p) => self.paths.push(p),
                None => self.paths,
            },
        }
    }

    /// Tree-level insertion: normalizes the identifier, inserts, and records
    /// the new node's path if one was created.
    pub open spec fn add_spec(self, id: Seq<char>, refs: Seq<u32>) -> SpecTree {
        self.add_leaf_spec(new_leaf(id, refs))
    }
}

/// Pushing one subtree onto a child list appends its entries.
proof fn lemma_el_push(cs: Seq<(u16, SpecNode)>, k: u16, n: SpecNode)
    ensures
        SpecNode::entries_list(cs.push((k, n))) == SpecNode::entries_list(cs) + n.entries(),
{
    assert(cs.push((k, n)).drop_last() =~= cs);
    assert(cs.push((k, n)).last() == (k, n));
}

/// The entries of a child list split around any one child.
proof fn lemma_el_split(cs: Seq<(u16, SpecNode)>, i: int)
    requires
        0 <= i < cs.len(),
    ensures
        SpecNode::entries_list(cs) == SpecNode::entries_list(cs.take(i)) + cs[i].1.entries()
            + SpecNode::entries_list(cs.skip(i + 1)),
    decreases cs.len(),
{
    if i == cs.len() - 1 {
        assert(cs.take(i) =~= cs.drop_last());
        assert(cs.skip(i + 1) =~= Seq::<(u16, SpecNode)>::empty());
        assert(SpecNode::entries_list(cs) =~= SpecNode::entries_list(cs.take(i))
            + cs[i].1.entries() + SpecNode::entries_list(cs.skip(i + 1)));
    } else {
        let dl = cs.drop_last();
        lemma_el_split(dl, i);
        assert(dl.take(i) =~= cs.take(i));
        assert(dl[i] == cs[i]);
        assert(dl.skip(i + 1) =~= cs.skip(i + 1).drop_last());
        assert(cs.skip(i + 1).last() == cs.last());
        assert(SpecNode::entries_list(cs.skip(i + 1)) == SpecNode::entries_list(
            dl.skip(i + 1),
        ) + cs.last().1.entries());
        assert(SpecNode::entries_list(cs) =~= SpecNode::entries_list(cs.take(i))
            + cs[i].1.entries() + SpecNode::entries_list(cs.skip(i + 1)));
    }
}

/// An entry occurs in a child list's entries exactly when one of the
/// children's subtrees holds it.
proof fn lemma_el_contains(cs: Seq<(u16, SpecNode)>, e: Entry)
    ensures
        SpecNode::entries_list(cs).contains(e) <==> exists|c: int|
            0 <= c < cs.len() && (#[trigger] cs[c]).1.entries().contains(e),
    decreases cs.len(),
{
    if cs.len() == 0 {
    } else {
        let dl = cs.drop_last();
        lemma_el_contains(dl, e);
        let a = SpecNode::entries_list(dl);
        let b = cs.last().1.entries();
        if a.contains(e) {
            let i = choose|i: int| 0 <= i < a.len() && a[i] == e;
            assert((a + b)[i] == e);
            let c = choose|c: int| 0 <= c < dl.len() && (#[trigger] dl[c]).1.entries().contains(e);
            assert((#[trigger] cs[c]).1.entries().contains(e));
        }
        if b.contains(e) {
            let i = choose|i: int| 0 <= i < b.len() && b[i] == e;
            assert((a + b)[a.len() + i] == e);
            assert((#[trigger] cs[cs.len() - 1]).1.entries().contains(e));
        }
        if (a + b).contains(e) {
            let i = choose|i: int| 0 <= i < (a + b).len() && (a + b)[i] == e;
            if i < a.len() {
                assert(a[i] == e);
            } else {
                assert(b[i - a.len()] == e);
            }
        }
        if exists|c: int| 0 <= c < cs.len() && (#[trigger] cs[c]).1.entries().contains(e) {
            let c = choose|c: int| 0 <= c < cs.len() && (#[trigger] cs[c]).1.entries().contains(e);
            if c < cs.len() - 1 {
                assert((#[trigger] dl[c]).1.entries().contains(e));
                assert(a.contains(e));
            } else {
                assert(b.contains(e));
            }
            let i = choose|i: int| 0 <= i < (a + b).len() && (a + b)[i] == e;
        }
    }
}

/// No two entries of a sequence share a folded identifier.
pub open spec fn keys_distinct(s: Seq<Entry>) -> bool {
    forall|i: int, j: int|
        0 <= i < j < s.len() ==> fold((#[trigger] s[i]).ident) != fold((#[trigger] s[j]).ident)
}

/// Distinctness of the entries below one node, over its child list.
proof fn lemma_el_distinct(me: SpecNode, cs: Seq<(u16, SpecNode)>)
    requires
        forall|i: int| 0 <= i < cs.len() ==> keys_distinct((#[trigger] cs[i]).1.entries()),
        forall|i: int, j: int|
            0 <= i < j < cs.len() ==> (#[trigger] cs[i]).0 != (#[trigger] cs[j]).0,
        forall|i: int, e: Entry|
            0 <= i < cs.len() && #[trigger] cs[i].1.entries().contains(e) ==> dist(
                me.ident,
                e.ident,
            ) == cs[i].0,
    ensures
        keys_distinct(SpecNode::entries_list(cs)),
    decreases cs.len(),
{
    if cs.len() == 0 {
    } else {
        let dl = cs.drop_last();
        lemma_el_distinct(me, dl);
        let a = SpecNode::entries_list(dl);
        let b = cs.last().1.entries();
        assert forall|i: int, j: int|
            0 <= i < j < (a + b).len() implies fold(((a + b)[i]).ident) != fold(
            ((a + b)[j]).ident,
        ) by {
            if j < a.len() {
                // both in the earlier children: inherited
            } else if i >= a.len() {
                // both in the last child's subtree
                assert(b[i - a.len()] == (a + b)[i]);
                assert(b[j - a.len()] == (a + b)[j]);
            } else {
                // across: the two entries sit under children with different
                // keys, so their distances from `me` differ.
                let e1 = (a + b)[i];
                let e2 = (a + b)[j];
                assert(a[i] == e1);
                assert(a.contains(e1));
                lemma_el_contains(dl, e1);
                let c = choose|c: int|
                    0 <= c < dl.len() && (#[trigger] dl[c]).1.entries().contains(e1);
                assert(cs[c].1.entries().contains(e1));
                assert(b[j - a.len()] == e2);
                assert(b.contains(e2));
                assert(cs[cs.len() - 1].1.entries().contains(e2));
                assert(dist(me.ident, e1.ident) == cs[c].0);
                assert(dist(me.ident, e2.ident) == cs[cs.len() - 1].0);
                assert(cs[c].0 != cs[cs.len() - 1].0);
                if fold(e1.ident) == fold(e2.ident) {
                    assert(dist(me.ident, e1.ident) == dist(me.ident, e2.ident));
                }
            }
        }
        assert(keys_distinct(a + b));
    }
}

/// Every folded identifier occurs at most once in a well-formed subtree.
pub proof fn lemma_wf_keys_distinct(n: SpecNode)
    requires
        n.wf(),
    ensures
        keys_distinct(n.entries()),
    decreases n,
{
    assert forall|i: int| 0 <= i < n.children.len() implies keys_distinct(
        (#[trigger] n.children[i]).1.entries(),
    ) by {
        lemma_wf_keys_distinct(n.children[i].1);
    }
    lemma_el_distinct(n, n.children);
    let a = seq![n.entry()];
    let b = SpecNode::entries_list(n.children);
    assert forall|i: int, j: int|
        0 <= i < j < (a + b).len() implies fold(((a + b)[i]).ident) != fold(
        ((a + b)[j]).ident,
    ) by {
        if i >= 1 {
            assert(b[i - 1] == (a + b)[i]);
            assert(b[j - 1] == (a + b)[j]);
        } else {
            // the root entry against a child subtree's entry: the latter
            // sits at a non-zero distance from the root
            let e2 = (a + b)[j];
            assert(b[j - 1] == e2);
            assert(b.contains(e2));
            lemma_el_contains(n.children, e2);
            let c = choose|c: int|
                0 <= c < n.children.len() && (#[trigger] n.children[c]).1.entries().contains(e2);
            assert(dist(n.ident, e2.ident) == n.children[c].0);
            assert(n.children[c].0 != 0);
            if fold(n.ident) == fold(e2.ident) {
                crate::metric::lemma_dist_zero(n.ident, e2.ident);
                crate::metric::lemma_lev_self(fold(n.ident));
            }
        }
    }
    assert(keys_distinct(n.entries()));
}

/// The node a valid path leads to contributes one of the subtree's entries.
proof fn lemma_node_at_in_entries(n: SpecNode, q: Seq<u16>)
    requires
        n.node_at(q) is Some,
    ensures
        n.entries().contains(n.node_at(q).unwrap().entry()),
    decreases q.len(),
{
    if q.len() == 0 {
        assert(n.entries()[0] == n.entry());
    } else {
        let i = n.child_index(q.first());
        let c = n.children[i].1;
        lemma_node_at_in_entries(c, q.drop_first());
        lemma_el_contains(n.children, n.node_at(q).unwrap().entry());
        let b = SpecNode::entries_list(n.children);
        let e = n.node_at(q).unwrap().entry();
        assert(b.contains(e));
        let k = choose|k: int| 0 <= k < b.len() && b[k] == e;
        assert((seq![n.entry()] + b)[k + 1] == e);
    }
}

/// Prefixes of a valid path are valid.
pub proof fn lemma_node_at_prefix(n: SpecNode, p: Seq<u16>, i: int)
    requires
        n.node_at(p) is Some,
        0 <= i <= p.len(),
    ensures
        n.node_at(p.take(i)) is Some,
    decreases p.len(),
{
    if i == 0 {
        assert(p.take(0) =~= Seq::<u16>::empty());
    } else {
        let c = n.child_at(p.first());
        lemma_node_at_prefix(c, p.drop_first(), i - 1);
        assert(p.take(i).first() == p.first());
        assert(p.take(i).drop_first() =~= p.drop_first().take(i - 1));
    }
}

/// Path validity: a node reached by a path sits at exactly the recorded
/// distance from each of its ancestors along that path.
pub proof fn lemma_path_distances(n: SpecNode, p: Seq<u16>, i: int)
    requires
        n.wf(),
        n.node_at(p) is Some,
        0 <= i < p.len(),
    ensures
        n.node_at(p.take(i)) is Some,
        dist(n.node_at(p.take(i)).unwrap().ident, n.node_at(p).unwrap().ident) == p[i],
    decreases p.len(),
{
    lemma_node_at_prefix(n, p, i);
    let c = n.child_at(p.first());
    assert(n.has_child(p.first()));
    let ci = n.child_index(p.first());
    if i == 0 {
        assert(p.take(0) =~= Seq::<u16>::empty());
        lemma_node_at_in_entries(c, p.drop_first());
        assert(c.entries().contains(n.node_at(p).unwrap().entry()));
        assert(dist(n.ident, n.node_at(p).unwrap().entry().ident) == n.children[ci].0);
    } else {
        lemma_path_distances(c, p.drop_first(), i - 1);
        assert(p.take(i).first() == p.first());
        assert(p.take(i).drop_first() =~= p.drop_first().take(i - 1));
        assert(p.drop_first()[i - 1] == p[i]);
    }
}

/// Unfolds key containment one level: the key is the node's own, or sits in
/// one of the child subtrees.
proof fn lemma_contains_key_unfold(n: SpecNode, k: Seq<char>)
    ensures
        n.contains_key(k) <==> (fold(n.ident) == k || exists|c: int|
            0 <= c < n.children.len() && (#[trigger] n.children[c]).1.contains_key(k)),
{
    let el = SpecNode::entries_list(n.children);
    if n.contains_key(k) {
        let idx = choose|idx: int|
            0 <= idx < n.entries().len() && fold(#[trigger] n.entries()[idx].ident) == k;
        if idx == 0 {
            assert(n.entries()[0] == n.entry());
        } else {
            let e = n.entries()[idx];
            assert(el[idx - 1] == e);
            assert(el.contains(e));
            lemma_el_contains(n.children, e);
            let c = choose|c: int|
                0 <= c < n.children.len() && (#[trigger] n.children[c]).1.entries().contains(e);
            let sub = n.children[c].1.entries();
            let pos = choose|pos: int| 0 <= pos < sub.len() && sub[pos] == e;
            assert(fold(#[trigger] n.children[c].1.entries()[pos].ident) == k);
            assert(n.children[c].1.contains_key(k));
        }
    }
    if fold(n.ident) == k {
        assert(n.entries()[0] == n.entry());
        assert(fold(#[trigger] n.entries()[0].ident) == k);
    }
    if exists|c: int| 0 <= c < n.children.len() && (#[trigger] n.children[c]).1.contains_key(k) {
        let c = choose|c: int|
            0 <= c < n.children.len() && (#[trigger] n.children[c]).1.contains_key(k);
        let sub = n.children[c].1.entries();
        let pos = choose|pos: int| 0 <= pos < sub.len() && fold(#[trigger] sub[pos].ident) == k;
        let e = sub[pos];
        assert(sub.contains(e));
        lemma_el_contains(n.children, e);
        assert(el.contains(e));
        let q = choose|q: int| 0 <= q < el.len() && el[q] == e;
        assert(n.entries()[q + 1] == e);
        assert(fold(#[trigger] n.entries()[q + 1].ident) == k);
    }
}

/// Strings with the same folded form are at the same distance from anything.
proof fn lemma_same_fold_same_dist(x: Seq<char>, a: Seq<char>, b: Seq<char>)
    requires
        fold(a) == fold(b),
    ensures
        dist(x, a) == dist(x, b),
{
}

/// What insertion does to a subtree: it keeps the node well-formed and
/// either extends the references of the one entry whose folded identifier
/// matches, or adds the new node's entry, depending on whether the folded
/// identifier was already present.
pub proof fn lemma_add_spec(n: SpecNode, m: SpecNode)
    requires
        n.wf(),
        m.wf(),
        m.children.len() == 0,
    ensures
        n.add_spec(m).0.wf(),
        n.add_spec(m).0.ident == n.ident,
        n.add_spec(m).0.author == n.author,
        n.add_spec(m).1 is None <==> n.contains_key(fold(m.ident)),
        n.add_spec(m).1 is None ==> n.add_spec(m).0.entries().len() == n.entries().len()
            && exists|j: int|
            0 <= j < n.entries().len() && fold((#[trigger] n.entries()[j]).ident) == fold(m.ident)
                && n.add_spec(m).0.entries()[j] == (Entry {
                refs: n.entries()[j].refs + m.refs,
                ..n.entries()[j]
            }) && (forall|i: int|
                0 <= i < n.entries().len() && i != j ==> n.add_spec(m).0.entries()[i] == (
                #[trigger] n.entries()[i])),
        n.add_spec(m).1 is Some ==> n.add_spec(m).0.entries().len() == n.entries().len() + 1
            && n.add_spec(m).0.entries().to_multiset() == n.entries().to_multiset().insert(
            m.entry(),
        ),
    decreases n,
{
    broadcast use vstd::seq_lib::group_to_multiset_ensures;

    let d = dist(n.ident, m.ident);
    let r = n.add_spec(m);
    let el = SpecNode::entries_list(n.children);
    lemma_contains_key_unfold(n, fold(m.ident));
    if d == 0 {
        crate::metric::lemma_dist_zero(n.ident, m.ident);
        assert(r.0.children == n.children);
        assert(r.0.wf());
        assert(n.entries()[0] == n.entry());
        assert(fold((#[trigger] n.entries()[0]).ident) == fold(m.ident));
        assert(r.0.entries()[0] == (Entry { refs: n.entries()[0].refs + m.refs, ..n.entries()[0] }));
        assert(forall|i: int|
            0 <= i < n.entries().len() && i != 0 ==> r.0.entries()[i] == (#[trigger] n.entries()[i]));
    } else {
        crate::metric::lemma_dist_zero(n.ident, m.ident);
        lemma_dist_le_max(n.ident, m.ident);
        let k = d as u16;
        assert(k == d);
        assert(k != 0);
        // No entry outside the child at distance `d` can share `m`'s folded
        // identifier.
        assert forall|c: int|
            0 <= c < n.children.len() && (#[trigger] n.children[c]).0 != k implies !n.children[c].1.contains_key(
            fold(m.ident),
        ) by {
            if n.children[c].1.contains_key(fold(m.ident)) {
                let sub = n.children[c].1.entries();
                let pos = choose|pos: int|
                    0 <= pos < sub.len() && fold(#[trigger] sub[pos].ident) == fold(m.ident);
                let e = sub[pos];
                assert(sub.contains(e));
                assert(dist(n.ident, e.ident) == n.children[c].0);
                lemma_same_fold_same_dist(n.ident, e.ident, m.ident);
            }
        }
        if n.has_child(k) {
            let i = n.child_index(k);
            assert(0 <= i < n.children.len() && n.children[i].0 == k);
            let c = n.children[i].1;
            lemma_add_spec(c, m);
            let rc = c.add_spec(m);
            let cs2 = n.children.update(i, (k, rc.0));
            assert(r.0.children == cs2);
            // entries of both trees, split around child i
            lemma_el_split(n.children, i);
            lemma_el_split(cs2, i);
            assert(cs2.take(i) =~= n.children.take(i));
            assert(cs2.skip(i + 1) =~= n.children.skip(i + 1));
            let a = SpecNode::entries_list(n.children.take(i));
            let b = SpecNode::entries_list(n.children.skip(i + 1));
            assert(SpecNode::entries_list(n.children) == a + c.entries() + b);
            assert(SpecNode::entries_list(cs2) == a + rc.0.entries() + b);
            // well-formedness
            assert forall|x: int, y: int| 0 <= x < y < cs2.len() implies (#[trigger] cs2[x]).0 != (
            #[trigger] cs2[y]).0 by {
                assert(n.children[x].0 == cs2[x].0);
                assert(n.children[y].0 == cs2[y].0);
            }
            assert forall|x: int| 0 <= x < cs2.len() implies (#[trigger] cs2[x]).0 != 0 by {
                assert(n.children[x].0 == cs2[x].0);
            }
            assert forall|x: int| 0 <= x < cs2.len() implies (#[trigger] cs2[x]).1.wf() by {
                if x != i {
                    assert(cs2[x].1 == n.children[x].1);
                }
            }
            assert forall|x: int, e: Entry|
                0 <= x < cs2.len() && #[trigger] cs2[x].1.entries().contains(e) implies dist(
                n.ident,
                e.ident,
            ) == cs2[x].0 by {
                if x != i {
                    assert(cs2[x].1 == n.children[x].1);
                    assert(n.children[x].1.entries().contains(e));
                } else {
                    // an entry of the updated child: either an old entry's
                    // identifier, or `m` itself
                    if rc.1 is None {
                        let es2 = rc.0.entries();
                        let es = c.entries();
                        let pos = choose|pos: int| 0 <= pos < es2.len() && es2[pos] == e;
                        let j = choose|j: int|
                            0 <= j < es.len() && fold((#[trigger] es[j]).ident) == fold(m.ident)
                                && es2[j] == (Entry { refs: es[j].refs + m.refs, ..es[j] }) && (
                            forall|w: int| 0 <= w < es.len() && w != j ==> es2[w] == (
                            #[trigger] es[w]));
                        assert(e.ident == es[pos].ident);
                        assert(es.contains(es[pos]));
                        assert(dist(n.ident, es[pos].ident) == n.children[i].0);
                    } else {
                        assert(rc.0.entries().to_multiset().contains(e));
                        assert(rc.0.entries().to_multiset() == c.entries().to_multiset().insert(
                            m.entry(),
                        ));
                        if e == m.entry() {
                            assert(dist(n.ident, e.ident) == k);
                        } else {
                            assert(c.entries().to_multiset().contains(e));
                            assert(c.entries().contains(e));
                            assert(dist(n.ident, e.ident) == n.children[i].0);
                        }
                    }
                }
            }
            assert(r.0.wf());
            // containment: the walk went to child i, and only child i can
            // hold the key
            assert(fold(n.ident) != fold(m.ident));
            assert(r.1 is None <==> rc.1 is None);
            if rc.1 is None {
                assert(n.children[i].1.contains_key(fold(m.ident)));
                assert(n.contains_key(fold(m.ident)));
            } else {
                assert forall|cc: int|
                    0 <= cc < n.children.len() implies !(#[trigger] n.children[cc]).1.contains_key(
                    fold(m.ident),
                ) by {
                    if n.children[cc].0 == k {
                        assert(cc == i) by {
                            if cc != i {
                                assert(n.children[cc].0 != n.children[i].0);
                            }
                        }
                    }
                }
                assert(!n.contains_key(fold(m.ident)));
            }
            // entry bookkeeping
            if rc.1 is None {
                let es2 = rc.0.entries();
                let es = c.entries();
                let j = choose|j: int|
                    0 <= j < es.len() && fold((#[trigger] es[j]).ident) == fold(m.ident) && es2[j]
                        == (Entry { refs: es[j].refs + m.refs, ..es[j] }) && (forall|w: int|
                        0 <= w < es.len() && w != j ==> es2[w] == (#[trigger] es[w]));
                let g = 1 + a.len() + j;
                assert(n.entries()[g] == es[j]);
                assert(r.0.entries()[g] == es2[j]);
                assert(fold((#[trigger] n.entries()[g]).ident) == fold(m.ident));
                assert forall|w: int|
                    0 <= w < n.entries().len() && w != g implies r.0.entries()[w] == (
                #[trigger] n.entries()[w]) by {
                    if w == 0 {
                    } else if w < 1 + a.len() {
                        assert(n.entries()[w] == a[w - 1]);
                        assert(r.0.entries()[w] == a[w - 1]);
                    } else if w < 1 + a.len() + es.len() {
                        assert(n.entries()[w] == es[w - 1 - a.len()]);
                        assert(r.0.entries()[w] == es2[w - 1 - a.len()]);
                    } else {
                        assert(n.entries()[w] == b[w - 1 - a.len() - es.len()]);
                        assert(r.0.entries()[w] == b[w - 1 - a.len() - es.len()]);
                    }
                }
            } else {
                assert(r.0.entries().len() == n.entries().len() + 1);
                vstd::seq_lib::lemma_multiset_commutative(a, c.entries());
                vstd::seq_lib::lemma_multiset_commutative(a + c.entries(), b);
                vstd::seq_lib::lemma_multiset_commutative(a, rc.0.entries());
                vstd::seq_lib::lemma_multiset_commutative(a + rc.0.entries(), b);
                let head = seq![n.entry()];
                vstd::seq_lib::lemma_multiset_commutative(head, a + c.entries() + b);
                vstd::seq_lib::lemma_multiset_commutative(head, a + rc.0.entries() + b);
                assert(r.0.entries().to_multiset() =~= n.entries().to_multiset().insert(m.entry()));
            }
        } else {
            let cs2 = n.children.push((k, m));
            assert(r.0.children == cs2);
            lemma_el_push(n.children, k, m);
            assert(m.entries() =~= seq![m.entry()]);
            // well-formedness
            assert forall|x: int, y: int| 0 <= x < y < cs2.len() implies (#[trigger] cs2[x]).0 != (
            #[trigger] cs2[y]).0 by {
                if y < cs2.len() - 1 {
                    assert(n.children[x].0 != n.children[y].0);
                } else {
                    assert(cs2[x].0 == n.children[x].0);
                    assert(!n.has_child(k));
                    assert(n.children[x].0 != k);
                }
            }
            assert forall|x: int| 0 <= x < cs2.len() implies (#[trigger] cs2[x]).0 != 0 by {
                if x < cs2.len() - 1 {
                    assert(n.children[x].0 != 0);
                }
            }
            assert forall|x: int| 0 <= x < cs2.len() implies (#[trigger] cs2[x]).1.wf() by {
                if x < cs2.len() - 1 {
                    assert(cs2[x].1 == n.children[x].1);
                }
            }
            assert forall|x: int, e: Entry|
                0 <= x < cs2.len() && #[trigger] cs2[x].1.entries().contains(e) implies dist(
                n.ident,
                e.ident,
            ) == cs2[x].0 by {
                if x < cs2.len() - 1 {
                    assert(cs2[x].1 == n.children[x].1);
                    assert(n.children[x].1.entries().contains(e));
                } else {
                    assert(cs2[x].1 == m);
                    assert(e == m.entry());
                }
            }
            assert(r.0.wf());
            // the key is nowhere in the old tree
            assert(fold(n.ident) != fold(m.ident));
            assert forall|cc: int|
                0 <= cc < n.children.len() implies !(#[trigger] n.children[cc]).1.contains_key(
                fold(m.ident),
            ) by {
                assert(n.children[cc].0 != k);
            }
            assert(!n.contains_key(fold(m.ident)));
            // entry bookkeeping
            assert(r.0.entries() =~= n.entries() + seq![m.entry()]);
            assert(r.0.entries() =~= n.entries().push(m.entry()));
            assert(r.0.entries().to_multiset() == n.entries().to_multiset().insert(m.entry()));
        }
    }
}

/// Where insertion puts a new node: at a fresh path whose parent existed
/// already, with the new node a leaf there afterwards.
pub proof fn lemma_add_spec_path(n: SpecNode, m: SpecNode)
    requires
        n.wf(),
        m.wf(),
        m.children.len() == 0,
        n.add_spec(m).1 is Some,
    ensures
        n.add_spec(m).1.unwrap().len() >= 1,
        n.node_at(n.add_spec(m).1.unwrap()) is None,
        n.node_at(n.add_spec(m).1.unwrap().drop_last()) is Some,
        n.add_spec(m).0.node_at(n.add_spec(m).1.unwrap()) == Some(m),
    decreases n,
{
    let d = dist(n.ident, m.ident);
    lemma_dist_le_max(n.ident, m.ident);
    let k = d as u16;
    let r = n.add_spec(m);
    let p = r.1.unwrap();
    if n.has_child(k) {
        let i = n.child_index(k);
        let c = n.children[i].1;
        lemma_add_spec(c, m);
        lemma_add_spec_path(c, m);
        let rc = c.add_spec(m);
        let pc = rc.1.unwrap();
        assert(p =~= seq![k] + pc);
        assert(p.first() == k);
        assert(p.drop_first() =~= pc);
        assert(n.node_at(p) == c.node_at(pc));
        assert(p.drop_last() =~= seq![k] + pc.drop_last());
        assert(p.drop_last().first() == k);
        assert(p.drop_last().drop_first() =~= pc.drop_last());
        assert(n.node_at(p.drop_last()) == c.node_at(pc.drop_last()));
        // the updated tree keeps child keys, so the walk stays aligned
        let cs2 = r.0.children;
        assert(cs2[i].0 == k);
        assert(r.0.has_child(k));
        let i2 = r.0.child_index(k);
        assert(0 <= i2 < cs2.len() && cs2[i2].0 == k);
        if i2 != i {
            assert(n.children[i2].0 == cs2[i2].0);
            assert(n.children[i2].0 != n.children[i].0);
        }
        assert(i2 == i);
        assert(r.0.child_at(k) == rc.0);
        assert(r.0.node_at(p) == rc.0.node_at(pc));
    } else {
        assert(p =~= seq![k]);
        assert(!n.has_child(p.first()));
        assert(n.node_at(p) is None);
        assert(p.drop_last() =~= Seq::<u16>::empty());
        let cs2 = r.0.children;
        assert(cs2[cs2.len() - 1].0 == k);
        assert(r.0.has_child(k));
        let i2 = r.0.child_index(k);
        assert(0 <= i2 < cs2.len() && cs2[i2].0 == k);
        if i2 != cs2.len() - 1 {
            assert(n.children[i2].0 == cs2[i2].0);
            assert(!n.has_child(k));
            assert(n.children[i2].0 != k);
        }
        assert(i2 == cs2.len() - 1);
        assert(r.0.child_at(k) == m);
        assert(p.drop_first() =~= Seq::<u16>::empty());
        assert(p.first() == k);
        assert(m.node_at(p.drop_first()) == Some(m));
        assert(r.0.node_at(p) == Some(m));
    }
}

/// Two child lists with the same keys in the same places.
pub open spec fn same_keys(c1: Seq<(u16, SpecNode)>, c2: Seq<(u16, SpecNode)>) -> bool {
    c1.len() == c2.len() && forall|x: int|
        0 <= x < c1.len() ==> (#[trigger] c1[x]).0 == (#[trigger] c2[x]).0
}

/// A child list extended by exactly one key at the end.
pub open spec fn keys_plus_one(c1: Seq<(u16, SpecNode)>, c2: Seq<(u16, SpecNode)>, k: u16) -> bool {
    c2.len() == c1.len() + 1 && (forall|x: int|
        0 <= x < c1.len() ==> (#[trigger] c1[x]).0 == (#[trigger] c2[x]).0) && c2[c1.len() as int].0
        == k
}

/// Every node of a well-formed subtree is itself well-formed.
pub proof fn lemma_node_at_wf(n: SpecNode, q: Seq<u16>)
    requires
        n.wf(),
        n.node_at(q) is Some,
    ensures
        n.node_at(q).unwrap().wf(),
    decreases q.len(),
{
    if q.len() > 0 {
        lemma_node_at_wf(n.child_at(q.first()), q.drop_first());
    }
}

/// How insertion changes which paths lead anywhere: every old path still
/// does, the only new one is the fresh node's, and no node's child keys
/// change except the new node's parent gaining one at the end.
pub proof fn lemma_add_spec_node_at(n: SpecNode, m: SpecNode, q: Seq<u16>)
    requires
        n.wf(),
        m.wf(),
        m.children.len() == 0,
    ensures
        n.node_at(q) is Some ==> n.add_spec(m).0.node_at(q) is Some,
        n.add_spec(m).0.node_at(q) is Some ==> n.node_at(q) is Some || (n.add_spec(m).1 is Some
            && q == n.add_spec(m).1.unwrap()),
        n.node_at(q) is Some && n.add_spec(m).0.node_at(q) is Some ==> {
            let n1 = n.node_at(q).unwrap();
            let n2 = n.add_spec(m).0.node_at(q).unwrap();
            if n.add_spec(m).1 is Some && q == n.add_spec(m).1.unwrap().drop_last() {
                keys_plus_one(n1.children, n2.children, n.add_spec(m).1.unwrap().last())
            } else {
                same_keys(n1.children, n2.children)
            }
        },
    decreases q.len(),
{
    let d = dist(n.ident, m.ident);
    lemma_dist_le_max(n.ident, m.ident);
    let k = d as u16;
    let r = n.add_spec(m);
    if q.len() == 0 {
        if r.1 is Some {
            lemma_add_spec_path(n, m);
            let p = r.1.unwrap();
            if n.has_child(k) {
                let i = n.child_index(k);
                let c = n.children[i].1;
                lemma_add_spec(c, m);
                lemma_add_spec_path(c, m);
                let rc = c.add_spec(m);
                let pc = rc.1.unwrap();
                assert(p =~= seq![k] + pc);
                assert(p.drop_last().len() == pc.len() > 0);
                assert(q != p.drop_last());
                assert(same_keys(n.children, r.0.children));
            } else {
                assert(p =~= seq![k]);
                assert(p.drop_last() =~= Seq::<u16>::empty());
                assert(q =~= Seq::<u16>::empty());
                assert(p.last() == k);
                assert(keys_plus_one(n.children, r.0.children, k));
            }
        } else {
            if d == 0 {
                assert(same_keys(n.children, r.0.children));
            } else {
                assert(n.has_child(k));
                let i = n.child_index(k);
                assert(same_keys(n.children, r.0.children));
            }
        }
    } else if d == 0 {
        assert(r.0.children == n.children);
        if q.len() > 0 && n.has_child(q.first()) {
            assert(r.0.node_at(q) == n.node_at(q));
        }
    } else {
        let q0 = q.first();
        if n.has_child(k) {
            let i = n.child_index(k);
            let c = n.children[i].1;
            lemma_add_spec(c, m);
            let rc = c.add_spec(m);
            let cs2 = r.0.children;
            // keys are unchanged, so both trees agree on which child a step
            // descends into
            assert(forall|x: int|
                0 <= x < cs2.len() ==> (#[trigger] cs2[x]).0 == n.children[x].0);
            assert(n.has_child(q0) <==> r.0.has_child(q0)) by {
                if n.has_child(q0) {
                    let a1 = n.child_index(q0);
                    assert(cs2[a1].0 == q0);
                }
                if r.0.has_child(q0) {
                    let a2 = r.0.child_index(q0);
                    assert(n.children[a2].0 == q0);
                }
            }
            if n.has_child(q0) {
                let a1 = n.child_index(q0);
                let a2 = r.0.child_index(q0);
                assert(0 <= a1 < n.children.len() && n.children[a1].0 == q0);
                assert(0 <= a2 < cs2.len() && cs2[a2].0 == q0);
                if a1 != a2 {
                    assert(n.children[a1].0 != n.children[a2].0);
                }
                assert(a1 == a2);
                if q0 == k {
                    assert(a1 == i) by {
                        if a1 != i {
                            assert(n.children[a1].0 != n.children[i].0);
                        }
                    }
                    lemma_add_spec_node_at(c, m, q.drop_first());
                    assert(cs2[i].1 == rc.0);
                    assert(n.node_at(q) == c.node_at(q.drop_first()));
                    assert(r.0.node_at(q) == rc.0.node_at(q.drop_first()));
                    if rc.1 is Some {
                        lemma_add_spec_path(c, m);
                        let pc = rc.1.unwrap();
                        let p = r.1.unwrap();
                        assert(p =~= seq![k] + pc);
                        if rc.0.node_at(q.drop_first()) is Some && !(c.node_at(q.drop_first())
                            is Some) {
                            assert(q.drop_first() == pc);
                            assert(q =~= seq![k] + pc);
                        }
                        // relate the parent-path tests at the two levels
                        assert(p.drop_last() =~= seq![k] + pc.drop_last());
                        assert(p.last() == pc.last());
                        if q.drop_first() == pc.drop_last() {
                            assert(q =~= p.drop_last());
                        }
                        if q == p.drop_last() {
                            assert(q.drop_first() =~= pc.drop_last());
                        }
                    }
                } else {
                    assert(cs2[a2].1 == n.children[a1].1);
                    assert(r.0.node_at(q) == n.node_at(q));
                    if r.1 is Some {
                        lemma_add_spec_path(c, m);
                        let pc = rc.1.unwrap();
                        let p = r.1.unwrap();
                        assert(p =~= seq![k] + pc);
                        assert(q != p) by {
                            if q == p {
                                assert(q.first() == k);
                            }
                        }
                        assert(p.drop_last() =~= seq![k] + pc.drop_last());
                        assert(q != p.drop_last()) by {
                            if q == p.drop_last() {
                                assert(q.first() == k);
                            }
                        }
                    }
                }
            } else {
                // neither tree can take this step
            }
        } else {
            let cs2 = r.0.children;
            assert(cs2 == n.children.push((k, m)));
            if q0 == k {
                assert(!n.has_child(q0));
                assert(n.node_at(q) is None);
                assert(cs2[cs2.len() - 1].0 == k);
                assert(r.0.has_child(k));
                let a2 = r.0.child_index(k);
                assert(0 <= a2 < cs2.len() && cs2[a2].0 == k);
                if a2 != cs2.len() - 1 {
                    assert(n.children[a2].0 == cs2[a2].0);
                    assert(n.children[a2].0 != k);
                }
                assert(r.0.child_at(k) == m);
                if r.0.node_at(q) is Some {
                    // `m` is a leaf, so the walk must stop right there
                    if q.drop_first().len() > 0 {
                        assert(!m.has_child(q.drop_first().first()));
                        assert(m.node_at(q.drop_first()) is None);
                    }
                    assert(q.drop_first() =~= Seq::<u16>::empty());
                    assert(q =~= seq![k]);
                    assert(q == r.1.unwrap());
                }
            } else {
                assert(forall|x: int|
                    0 <= x < n.children.len() ==> (#[trigger] cs2[x]).0 == n.children[x].0);
                assert(n.has_child(q0) <==> r.0.has_child(q0)) by {
                    if r.0.has_child(q0) {
                        let a2 = r.0.child_index(q0);
                        assert(0 <= a2 < cs2.len() && cs2[a2].0 == q0);
                        assert(a2 != cs2.len() - 1);
                        assert(n.children[a2].0 == q0);
                    }
                    if n.has_child(q0) {
                        let a1 = n.child_index(q0);
                        assert(cs2[a1].0 == q0);
                    }
                }
                if n.has_child(q0) {
                    let a1 = n.child_index(q0);
                    let a2 = r.0.child_index(q0);
                    assert(0 <= a2 < cs2.len() && cs2[a2].0 == q0);
                    if a2 == cs2.len() - 1 {
                        assert(cs2[a2].0 == k);
                    }
                    assert(a2 != cs2.len() - 1);
                    assert(n.children[a2].0 == q0);
                    if a1 != a2 {
                        assert(n.children[a1].0 != n.children[a2].0);
                    }
                    assert(cs2[a2].1 == n.children[a1].1);
                    assert(r.0.node_at(q) == n.node_at(q));
                    assert(r.1.unwrap() =~= seq![k]);
                    assert(r.1.unwrap().drop_last() =~= Seq::<u16>::empty());
                    assert(q != r.1.unwrap().drop_last());
                }
            }
        }
    }
}

/// The fresh leaf inserted for a raw identifier and reference list.
pub open spec fn new_leaf(id: Seq<char>, refs: Seq<u32>) -> SpecNode {
    SpecNode { ident: norm_ident(id), author: norm_author(id), refs: refs, children: Seq::empty() }
}

/// Tree-level insertion preserves well-formedness: a merge leaves the path
/// table and node count alone, a fresh insertion grows both by one.
pub proof fn lemma_tree_add(t: SpecTree, m: SpecNode)
    requires
        t.wf(),
        m.wf(),
        m.children.len() == 0,
    ensures
        t.add_leaf_spec(m).wf(),
        t.root.contains_key(fold(m.ident)) ==> t.add_leaf_spec(m).paths == t.paths
            && t.add_leaf_spec(m).root.count() == t.root.count(),
        !t.root.contains_key(fold(m.ident)) ==> t.add_leaf_spec(m).paths.len() == t.paths.len()
            + 1 && t.add_leaf_spec(m).root.count() == t.root.count() + 1,
{
    lemma_add_spec(t.root, m);
    let r = t.root.add_spec(m);
    let t2 = t.add_leaf_spec(m);
    assert(t2.root == r.0);
    if r.1 is None {
        assert(t2.paths == t.paths);
        // the tree keeps its shape: every path leads to the same place, and
        // child keys are untouched everywhere
        assert forall|q: Seq<u16>| true implies (t.root.node_at(q) is Some <==> r.0.node_at(q)
            is Some) && (t.root.node_at(q) is Some ==> same_keys(
            t.root.node_at(q).unwrap().children,
            r.0.node_at(q).unwrap().children,
        )) by {
            lemma_add_spec_node_at(t.root, m, q);
        }
        assert forall|i: int| 0 <= i < t2.paths.len() implies (#[trigger] t2.root.node_at(
            t2.paths[i],
        )) is Some by {
            assert(t.root.node_at(t.paths[i]) is Some);
        }
        assert forall|q: Seq<u16>| q.len() > 0 && (#[trigger] t2.root.node_at(q)) is Some implies
            t2.paths.contains(q) by {
            assert(t.root.node_at(q) is Some);
        }
        assert forall|i: int, j: int, x: int, y: int|
            #![trigger t2.root.node_at(t2.paths[i].drop_last()).unwrap().children[x],
                t2.root.node_at(t2.paths[j].drop_last()).unwrap().children[y]]
            {
                let par = t2.root.node_at(t2.paths[i].drop_last()).unwrap();
                0 <= i < j < t2.paths.len() && t2.paths[i].drop_last() == t2.paths[j].drop_last()
                    && 0 <= x < par.children.len() && 0 <= y < par.children.len()
                    && par.children[x].0 == t2.paths[i].last() && par.children[y].0
                    == t2.paths[j].last()
            } implies x < y by {
            let pp = t.paths[i].drop_last();
            lemma_node_at_prefix(t.root, t.paths[i], t.paths[i].len() - 1);
            assert(t.paths[i].take(t.paths[i].len() - 1) =~= pp);
            assert(t.root.node_at(pp) is Some);
            let par1 = t.root.node_at(pp).unwrap();
            let par2 = t2.root.node_at(pp).unwrap();
            assert(same_keys(par1.children, par2.children));
            assert(par1.children[x].0 == t.paths[i].last());
            assert(par1.children[y].0 == t.paths[j].last());
        }
        assert(t2.wf());
    } else {
        lemma_add_spec_path(t.root, m);
        let p = r.1.unwrap();
        assert(t2.paths == t.paths.push(p));
        assert(t2.paths.len() == t.paths.len() + 1);
        assert(forall|i: int| 0 <= i < t.paths.len() ==> #[trigger] t2.paths[i] == t.paths[i]);
        assert(t2.paths[t.paths.len() as int] == p);
        // validity of every recorded path
        assert forall|q: Seq<u16>| true implies (t.root.node_at(q) is Some ==> r.0.node_at(q)
            is Some) && (r.0.node_at(q) is Some ==> t.root.node_at(q) is Some || q == p) && (
        t.root.node_at(q) is Some ==> if q == p.drop_last() {
            keys_plus_one(
                t.root.node_at(q).unwrap().children,
                r.0.node_at(q).unwrap().children,
                p.last(),
            )
        } else {
            same_keys(t.root.node_at(q).unwrap().children, r.0.node_at(q).unwrap().children)
        }) by {
            lemma_add_spec_node_at(t.root, m, q);
        }
        assert forall|i: int| 0 <= i < t2.paths.len() implies (#[trigger] t2.root.node_at(
            t2.paths[i],
        )) is Some by {
            if i < t.paths.len() {
                assert(t.root.node_at(t.paths[i]) is Some);
            } else {
                assert(t2.paths[i] == p);
            }
        }
        // the new path is new
        assert forall|i: int, j: int| 0 <= i < j < t2.paths.len() implies #[trigger] t2.paths[i]
            != #[trigger] t2.paths[j] by {
            if j == t.paths.len() {
                assert(t.root.node_at(t.paths[i]) is Some);
                assert(t.root.node_at(p) is None);
            }
        }
        // the table still lists every non-root node
        assert forall|q: Seq<u16>| q.len() > 0 && (#[trigger] t2.root.node_at(q)) is Some implies
            t2.paths.contains(q) by {
            if t.root.node_at(q) is Some {
                assert(t.paths.contains(q));
                let w = choose|w: int| 0 <= w < t.paths.len() && t.paths[w] == q;
                assert(t2.paths[w] == q);
            } else {
                assert(q == p);
                assert(t2.paths[t.paths.len() as int] == q);
            }
        }
        // sibling order: the new node is the last child of its parent and
        // the last entry of the table
        assert forall|i: int, j: int, x: int, y: int|
            #![trigger t2.root.node_at(t2.paths[i].drop_last()).unwrap().children[x],
                t2.root.node_at(t2.paths[j].drop_last()).unwrap().children[y]]
            {
                let par = t2.root.node_at(t2.paths[i].drop_last()).unwrap();
                0 <= i < j < t2.paths.len() && t2.paths[i].drop_last() == t2.paths[j].drop_last()
                    && 0 <= x < par.children.len() && 0 <= y < par.children.len()
                    && par.children[x].0 == t2.paths[i].last() && par.children[y].0
                    == t2.paths[j].last()
            } implies x < y by {
            let pp = t2.paths[i].drop_last();
            let par2 = t2.root.node_at(pp).unwrap();
            lemma_node_at_prefix(t.root, t.paths[i], t.paths[i].len() - 1);
            assert(t.paths[i].take(t.paths[i].len() - 1) =~= t.paths[i].drop_last());
            assert(t.root.node_at(pp) is Some);
            let par1 = t.root.node_at(pp).unwrap();
            // old paths step through old child keys
            assert(t.root.node_at(t.paths[i]) is Some);
            assert(par1.has_child(t.paths[i].last())) by {
                lemma_node_at_step(t.root, t.paths[i]);
            }
            if j < t.paths.len() {
                assert(par1.has_child(t.paths[j].last())) by {
                    lemma_node_at_prefix(t.root, t.paths[j], t.paths[j].len() - 1);
                    assert(t.paths[j].take(t.paths[j].len() - 1) =~= pp);
                    lemma_node_at_step(t.root, t.paths[j]);
                }
                if pp == p.drop_last() {
                    assert(!par1.has_child(p.last())) by {
                        if par1.has_child(p.last()) {
                            lemma_node_at_extend(t.root, p.drop_last(), p.last());
                            assert(p.drop_last().push(p.last()) =~= p);
                            assert(t.root.node_at(p) is Some);
                        }
                    }
                    let ci = par1.child_index(t.paths[i].last());
                    let cj = par1.child_index(t.paths[j].last());
                    assert(par1.children[ci].0 == t.paths[i].last());
                    assert(par1.children[cj].0 == t.paths[j].last());
                    assert(x < par1.children.len()) by {
                        if x == par1.children.len() {
                            assert(par2.children[x].0 == p.last());
                            assert(!par1.has_child(p.last()));
                            assert(par1.has_child(t.paths[i].last()));
                            assert(t.paths[i].last() != p.last());
                            assert(par1.children[ci].0 == par2.children[ci].0);
                        }
                    }
                    assert(y < par1.children.len()) by {
                        if y == par1.children.len() {
                            assert(par2.children[y].0 == p.last());
                            assert(!par1.has_child(p.last()));
                            assert(par1.children[cj].0 == par2.children[cj].0);
                        }
                    }
                    assert(par1.children[x].0 == t.paths[i].last());
                    assert(par1.children[y].0 == t.paths[j].last());
                } else {
                    assert(same_keys(par1.children, par2.children));
                    assert(par1.children[x].0 == t.paths[i].last());
                    assert(par1.children[y].0 == t.paths[j].last());
                }
            } else {
                // `j` is the new node: it sits at the end of its parent's list
                assert(t2.paths[j] == p);
                assert(pp == p.drop_last());
                assert(keys_plus_one(par1.children, par2.children, p.last()));
                assert(!par1.has_child(p.last())) by {
                    if par1.has_child(p.last()) {
                        let w = par1.child_index(p.last());
                        assert(par1.children[w].0 == p.last());
                        assert(par2.children[w].0 == p.last());
                        lemma_node_at_extend(t.root, p.drop_last(), p.last());
                        assert(p.drop_last().push(p.last()) =~= p);
                        assert(t.root.node_at(p) is Some);
                    }
                }
                assert(y == par1.children.len()) by {
                    if y < par1.children.len() {
                        assert(par1.children[y].0 == par2.children[y].0);
                        assert(par1.has_child(p.last()));
                    }
                }
                assert(x < y) by {
                    if x == y {
                        assert(par2.children[x].0 == p.last());
                        assert(t.paths[i].last() == p.last());
                        assert(par1.has_child(t.paths[i].last())) by {
                            lemma_node_at_step(t.root, t.paths[i]);
                        }
                    }
                }
            }
        }
        // parents are recorded before their children
        assert forall|i: int|
            0 <= i < t2.paths.len() && (#[trigger] t2.paths[i]).len() > 1 implies exists|j: int|
            0 <= j < i && t2.paths[j] == t2.paths[i].drop_last() by {
            if i < t.paths.len() {
                let j = choose|j: int| 0 <= j < i && t.paths[j] == t.paths[i].drop_last();
                assert(t2.paths[j] == t2.paths[i].drop_last());
            } else {
                assert(t2.paths[i] == p);
                assert(t.root.node_at(p.drop_last()) is Some);
                assert(t.paths.contains(p.drop_last()));
                let j = choose|j: int| 0 <= j < t.paths.len() && t.paths[j] == p.drop_last();
                assert(t2.paths[j] == t2.paths[i].drop_last());
            }
        }
        assert(t2.wf());
    }
}

/// The last step of a valid path goes through a child of the second-to-last
/// node.
proof fn lemma_node_at_step(n: SpecNode, p: Seq<u16>)
    requires
        p.len() > 0,
        n.node_at(p) is Some,
    ensures
        n.node_at(p.drop_last()) is Some,
        n.node_at(p.drop_last()).unwrap().has_child(p.last()),
    decreases p.len(),
{
    if p.len() == 1 {
        assert(p.drop_last() =~= Seq::<u16>::empty());
        assert(p.first() == p.last());
    } else {
        let c = n.child_at(p.first());
        lemma_node_at_step(c, p.drop_first());
        assert(p.drop_first().drop_last() =~= p.drop_last().drop_first());
        assert(p.drop_last().first() == p.first());
        assert(p.drop_first().last() == p.last());
        assert(n.node_at(p.drop_last()) == c.node_at(p.drop_last().drop_first()));
    }
}

/// A valid path extended by an existing child key is valid.
proof fn lemma_node_at_extend(n: SpecNode, q: Seq<u16>, k: u16)
    requires
        n.node_at(q) is Some,
        n.node_at(q).unwrap().has_child(k),
    ensures
        n.node_at(q.push(k)) is Some,
    decreases q.len(),
{
    if q.len() == 0 {
        assert(q.push(k).first() == k);
        assert(q.push(k).drop_first() =~= Seq::<u16>::empty());
        let c = n.child_at(k);
        assert(n.node_at(q.push(k)) == c.node_at(q.push(k).drop_first()));
    } else {
        let c = n.child_at(q.first());
        lemma_node_at_extend(c, q.drop_first(), k);
        assert(q.push(k).first() == q.first());
        assert(q.push(k).drop_first() =~= q.drop_first().push(k));
    }
}

impl SpecNode {
    /// The entries a bounded search of this subtree reports: one for every
    /// node within tolerance of the query, in preorder.
    pub open spec fn matching(self, q: Seq<char>, tol: nat) -> Seq<Entry>
        decreases self,
    {
        (if dist(self.ident, q) <= tol {
            seq![self.entry()]
        } else {
            Seq::empty()
        }) + SpecNode::matching_list(self.children, q, tol)
    }

    /// The reported entries of a list of subtrees, left to right.
    pub open spec fn matching_list(cs: Seq<(u16, SpecNode)>, q: Seq<char>, tol: nat) -> Seq<Entry>
        decreases cs,
    {
        if cs.len() == 0 {
            Seq::empty()
        } else {
            SpecNode::matching_list(cs.drop_last(), q, tol) + cs.last().1.matching(q, tol)
        }
    }
}

/// A reported entry occurs under a child list exactly when some child's
/// subtree reports it.
proof fn lemma_ml_contains(cs: Seq<(u16, SpecNode)>, q: Seq<char>, tol: nat, e: Entry)
    ensures
        SpecNode::matching_list(cs, q, tol).contains(e) <==> exists|c: int|
            0 <= c < cs.len() && (#[trigger] cs[c]).1.matching(q, tol).contains(e),
    decreases cs.len(),
{
    if cs.len() == 0 {
    } else {
        let dl = cs.drop_last();
        lemma_ml_contains(dl, q, tol, e);
        let a = SpecNode::matching_list(dl, q, tol);
        let b = cs.last().1.matching(q, tol);
        if a.contains(e) {
            let i = choose|i: int| 0 <= i < a.len() && a[i] == e;
            assert((a + b)[i] == e);
            let c = choose|c: int| 0 <= c < dl.len() && (#[trigger] dl[c]).1.matching(q, tol).contains(e);
            assert((#[trigger] cs[c]).1.matching(q, tol).contains(e));
        }
        if b.contains(e) {
            let i = choose|i: int| 0 <= i < b.len() && b[i] == e;
            assert((a + b)[a.len() + i] == e);
            assert((#[trigger] cs[cs.len() - 1]).1.matching(q, tol).contains(e));
        }
        if (a + b).contains(e) {
            let i = choose|i: int| 0 <= i < (a + b).len() && (a + b)[i] == e;
            if i < a.len() {
                assert(a[i] == e);
            } else {
                assert(b[i - a.len()] == e);
            }
        }
        if exists|c: int| 0 <= c < cs.len() && (#[trigger] cs[c]).1.matching(q, tol).contains(e) {
            let c = choose|c: int|
                0 <= c < cs.len() && (#[trigger] cs[c]).1.matching(q, tol).contains(e);
            if c < cs.len() - 1 {
                assert((#[trigger] dl[c]).1.matching(q, tol).contains(e));
                assert(a.contains(e));
                let i = choose|i: int| 0 <= i < a.len() && a[i] == e;
                assert((a + b)[i] == e);
            } else {
                assert(b.contains(e));
                let i = choose|i: int| 0 <= i < b.len() && b[i] == e;
                assert((a + b)[a.len() + i] == e);
            }
        }
    }
}

/// Search soundness: everything a bounded search reports lies within the
/// tolerance of the query, and really is in the tree.
pub proof fn lemma_matching_sound(n: SpecNode, q: Seq<char>, tol: nat)
    ensures
        forall|e: Entry|
            #[trigger] n.matching(q, tol).contains(e) ==> dist(e.ident, q) <= tol
                && n.entries().contains(e),
    decreases n,
{
    assert forall|e: Entry| #[trigger] n.matching(q, tol).contains(e) implies dist(e.ident, q)
        <= tol && n.entries().contains(e) by {
        let a: Seq<Entry> = if dist(n.ident, q) <= tol {
            seq![n.entry()]
        } else {
            Seq::empty()
        };
        let b = SpecNode::matching_list(n.children, q, tol);
        let i = choose|i: int| 0 <= i < (a + b).len() && (a + b)[i] == e;
        if i < a.len() {
            assert(e == n.entry());
            crate::metric::lemma_dist_symmetric(n.ident, q);
            assert(n.entries()[0] == n.entry());
        } else {
            assert(b[i - a.len()] == e);
            assert(b.contains(e));
            lemma_ml_contains(n.children, q, tol, e);
            let c = choose|c: int|
                0 <= c < n.children.len() && (#[trigger] n.children[c]).1.matching(q, tol).contains(
                    e,
                );
            lemma_matching_sound(n.children[c].1, q, tol);
            assert(n.children[c].1.entries().contains(e));
            lemma_el_contains(n.children, e);
            let el = SpecNode::entries_list(n.children);
            assert(el.contains(e));
            let w = choose|w: int| 0 <= w < el.len() && el[w] == e;
            assert(n.entries()[w + 1] == e);
        }
    }
}

/// Search completeness: every node within tolerance of the query is
/// reported.
pub proof fn lemma_matching_complete(n: SpecNode, q: Seq<char>, tol: nat)
    ensures
        forall|e: Entry|
            #[trigger] n.entries().contains(e) && dist(e.ident, q) <= tol ==> n.matching(
                q,
                tol,
            ).contains(e),
    decreases n,
{
    assert forall|e: Entry|
        #[trigger] n.entries().contains(e) && dist(e.ident, q) <= tol implies n.matching(
        q,
        tol,
    ).contains(e) by {
        let a: Seq<Entry> = if dist(n.ident, q) <= tol {
            seq![n.entry()]
        } else {
            Seq::empty()
        };
        let b = SpecNode::matching_list(n.children, q, tol);
        let i = choose|i: int| 0 <= i < n.entries().len() && n.entries()[i] == e;
        if i == 0 {
            crate::metric::lemma_dist_symmetric(n.ident, q);
            assert(a.len() == 1);
            assert((a + b)[0] == e);
        } else {
            let el = SpecNode::entries_list(n.children);
            assert(el[i - 1] == e);
            assert(el.contains(e));
            lemma_el_contains(n.children, e);
            let c = choose|c: int|
                0 <= c < n.children.len() && (#[trigger] n.children[c]).1.entries().contains(e);
            lemma_matching_complete(n.children[c].1, q, tol);
            assert(n.children[c].1.matching(q, tol).contains(e));
            lemma_ml_contains(n.children, q, tol, e);
            assert(b.contains(e));
            let w = choose|w: int| 0 <= w < b.len() && b[w] == e;
            assert((a + b)[a.len() + w] == e);
        }
    }
}

/// A subtree none of whose nodes is within tolerance reports nothing.
proof fn lemma_matching_empty(n: SpecNode, q: Seq<char>, tol: nat)
    requires
        forall|e: Entry| #[trigger] n.entries().contains(e) ==> dist(e.ident, q) > tol,
    ensures
        n.matching(q, tol).len() == 0,
{
    lemma_matching_sound(n, q, tol);
    if n.matching(q, tol).len() > 0 {
        let e = n.matching(q, tol)[0];
        assert(n.matching(q, tol).contains(e));
    }
}

/// Whether one search result reports one entry, for a given query.
pub open spec fn result_matches(r: SearchResult, e: Entry, q: Seq<char>) -> bool {
    &&& r.contents.refs() == e.refs
    &&& r.contents.is_author() == e.author
    &&& r.distance as nat == dist(e.ident, q)
}

/// Whether a result list reports an entry list, item by item.
pub open spec fn results_match(rs: Seq<SearchResult>, es: Seq<Entry>, q: Seq<char>) -> bool {
    rs.len() == es.len() && forall|i: int|
        0 <= i < rs.len() ==> result_matches(#[trigger] rs[i], es[i], q)
}

/// One more step at the end of a path: where it leads, if anywhere.
pub proof fn lemma_node_at_snoc(n: SpecNode, q: Seq<u16>, k: u16)
    ensures
        n.node_at(q.push(k)) == (match n.node_at(q) {
            Some(m) => if m.has_child(k) {
                m.child_at(k).node_at(Seq::<u16>::empty())
            } else {
                None
            },
            None => None,
        }),
    decreases q.len(),
{
    if q.len() == 0 {
        assert(q.push(k).first() == k);
        assert(q.push(k).drop_first() =~= Seq::<u16>::empty());
    } else {
        if n.has_child(q.first()) {
            lemma_node_at_snoc(n.child_at(q.first()), q.drop_first(), k);
            assert(q.push(k).first() == q.first());
            assert(q.push(k).drop_first() =~= q.drop_first().push(k));
        } else {
            assert(q.push(k).first() == q.first());
        }
    }
}

/// Search soundness, at the interface: whatever a bounded search reports
/// lies within the tolerance of the query and is carried by a node of the
/// tree.
pub proof fn lemma_search_sound(rs: Seq<SearchResult>, t: SpecTree, q: Seq<char>, tol: nat)
    requires
        results_match(rs, t.root.matching(q, tol), q),
    ensures
        forall|i: int|
            0 <= i < rs.len() ==> (#[trigger] rs[i]).distance <= tol && exists|e: Entry|
                t.root.entries().contains(e) && rs[i].contents.refs() == e.refs
                    && rs[i].contents.is_author() == e.author && rs[i].distance as nat == dist(
                    e.ident,
                    q,
                ),
{
    lemma_matching_sound(t.root, q, tol);
    assert forall|i: int| 0 <= i < rs.len() implies (#[trigger] rs[i]).distance <= tol && exists|
        e: Entry,
    |
        t.root.entries().contains(e) && rs[i].contents.refs() == e.refs
            && rs[i].contents.is_author() == e.author && rs[i].distance as nat == dist(
            e.ident,
            q,
        ) by {
        let e = t.root.matching(q, tol)[i];
        assert(t.root.matching(q, tol).contains(e));
        assert(result_matches(rs[i], e, q));
        assert(t.root.entries().contains(e) && rs[i].contents.refs() == e.refs
            && rs[i].contents.is_author() == e.author && rs[i].distance as nat == dist(e.ident, q));
    }
}

/// Search completeness, at the interface: every node of the tree within
/// tolerance of the query is reported, with its distance.
pub proof fn lemma_search_complete(rs: Seq<SearchResult>, t: SpecTree, q: Seq<char>, tol: nat)
    requires
        results_match(rs, t.root.matching(q, tol), q),
    ensures
        forall|e: Entry|
            #[trigger] t.root.entries().contains(e) && dist(e.ident, q) <= tol ==> exists|i: int|
                0 <= i < rs.len() && (#[trigger] rs[i]).contents.refs() == e.refs
                    && rs[i].contents.is_author() == e.author && rs[i].distance as nat == dist(
                    e.ident,
                    q,
                ),
{
    lemma_matching_complete(t.root, q, tol);
    assert forall|e: Entry|
        #[trigger] t.root.entries().contains(e) && dist(e.ident, q) <= tol implies exists|i: int|
        0 <= i < rs.len() && (#[trigger] rs[i]).contents.refs() == e.refs
            && rs[i].contents.is_author() == e.author && rs[i].distance as nat == dist(
            e.ident,
            q,
        ) by {
        assert(t.root.matching(q, tol).contains(e));
        let i = choose|i: int|
            0 <= i < t.root.matching(q, tol).len() && t.root.matching(q, tol)[i] == e;
        assert(result_matches(rs[i], e, q));
        assert(0 <= i < rs.len() && (#[trigger] rs[i]).contents.refs() == e.refs
            && rs[i].contents.is_author() == e.author && rs[i].distance as nat == dist(e.ident, q));
    }
}

/// The ghost mirror of an optional path.
pub open spec fn opt_path_model(r: Option<Vec<u16>>) -> Option<Seq<u16>> {
    match r {
        Some(p) => Some(p@),
        None => None,
    }
}

/// An independent copy of a path.
fn copy_path(p: &Vec<u16>) -> (r: Vec<u16>)
    ensures
        r@ == p@,
{
    let mut r: Vec<u16> = Vec::new();
    for i in 0..p.len()
        invariant
            r@ =~= p@.take(i as int),
    {
        r.push(p[i]);
    }
    assert(p@.take(p@.len() as int) =~= p@);
    r
}

/// The position of the child at distance `k`, if any.
pub(crate) fn find_child(children: &Vec<BkEdge>, k: u16) -> (r: Option<usize>)
    requires
        forall|i: int, j: int|
            0 <= i < j < children@.len() ==> (#[trigger] children@[i]).key != (
            #[trigger] children@[j]).key,
    ensures
        match r {
            Some(i) => i < children@.len() && children@[i as int].key == k,
            None => forall|i: int| 0 <= i < children@.len() ==> (#[trigger] children@[i]).key != k,
        },
{
    for i in 0..children.len()
        invariant
            forall|j: int| 0 <= j < i ==> (#[trigger] children@[j]).key != k,
    {
        if children[i].key == k {
            return Some(i);
        }
    }
    None
}

impl BkNode {
    /// Builds a fresh leaf from a raw insertion identifier: a leading `@`
    /// marks an author name and is stripped, anything else is a book title.
    pub fn create(identifier: String, book_refs: Vec<u32>) -> (n: BkNode)
        requires
            identifier@.len() <= MAX_IDENTIFIER_LEN,
        ensures
            n@ == (SpecNode {
                ident: norm_ident(identifier@),
                author: norm_author(identifier@),
                refs: book_refs@,
                children: Seq::empty(),
            }),
            n@.wf(),
    {
        let len = identifier.as_str().unicode_len();
        let n = if len > 0 && identifier.as_str().get_char(0) == '@' {
            let bare = identifier.as_str().substring_char(1, len).to_owned();
            proof {
                assert(bare@ =~= identifier@.drop_first());
            }
            BkNode { identifier: bare, data: BkData::Author(book_refs), children: Vec::new() }
        } else {
            BkNode { identifier, data: BkData::Book(book_refs), children: Vec::new() }
        };
        proof {
            assert(BkNode::children_model(n.children@) =~= Seq::<(u16, SpecNode)>::empty());
        }
        n
    }

    /// Recursive insertion below this node; returns the path of the new
    /// node, or `None` when the references were merged into an existing one.
    fn add(&mut self, m: BkNode) -> (r: Option<Vec<u16>>)
        requires
            old(self)@.wf(),
            m@.wf(),
            m@.children.len() == 0,
        ensures
            final(self)@ == old(self)@.add_spec(m@).0,
            opt_path_model(r) == old(self)@.add_spec(m@).1,
        decreases *old(self),
    {
        proof {
            lemma_dist_le_max(self.identifier@, m.identifier@);
        }
        let d_full = distance(self.identifier.as_str(), m.identifier.as_str());
        if d_full == 0 {
            let extra = m.data.get_refs();
            self.data.add_refs(extra);
            proof {
                assert(final(self)@ =~= old(self)@.merge_refs(m@.refs));
            }
            return None;
        }
        let d = d_full as u16;
        proof {
            lemma_children_model(self.children@);
            assert forall|i: int, j: int|
                0 <= i < j < self.children@.len() implies (#[trigger] self.children@[i]).key != (
            #[trigger] self.children@[j]).key by {
                assert(old(self)@.children[i].0 != old(self)@.children[j].0);
            }
        }
        match find_child(&self.children, d) {
            Some(i) => {
                let ghost old_children = self.children@;
                proof {
                    assert(old(self)@.children[i as int].0 == d);
                    assert(old(self)@.has_child(d));
                    // The child keys are distinct, so position `i` is the
                    // one `child_index` denotes.
                    let c = old(self)@.child_index(d);
                    assert(old(self)@.children[c].0 == d);
                    if c != i as int {
                        assert(old(self)@.children[c].0 != old(self)@.children[i as int].0);
                    }
                    assert(c == i as int);
                }
                let mut edge = self.children.remove(i);
                proof {
                    assert(edge.node == old(self).children@[i as int].node);
                    assert(decreases_to!(*old(self) => edge.node));
                }
                let sub = edge.node.add(m);
                self.children.insert(i, edge);
                proof {
                    lemma_children_model(self.children@);
                    lemma_children_model(old_children);
                    assert(self.children@ =~= old_children.update(
                        i as int,
                        BkEdge { key: old_children[i as int].key, node: edge.node },
                    ));
                    assert(BkNode::children_model(self.children@) =~= old(
                        self,
                    )@.children.update(i as int, (d, edge.node@)));
                    assert(final(self)@ =~= old(self)@.add_spec(m@).0);
                }
                match sub {
                    None => None,
                    Some(mut p) => {
                        p.insert(0, d);
                        proof {
                            assert(p@ =~= old(self)@.add_spec(m@).1.unwrap());
                        }
                        Some(p)
                    },
                }
            },
            None => {
                let ghost old_children = self.children@;
                self.children.push(BkEdge { key: d, node: m });
                let mut p: Vec<u16> = Vec::new();
                p.push(d);
                proof {
                    lemma_children_model(self.children@);
                    lemma_children_model(old_children);
                    assert(self.children@.drop_last() =~= old_children);
                    assert(BkNode::children_model(self.children@) =~= old(
                        self,
                    )@.children.push((d, m@)));
                    assert(final(self)@ =~= old(self)@.add_spec(m@).0);
                    assert(p@ =~= seq![d]);
                }
                Some(p)
            },
        }
    }
}

impl BkNode {
    /// Bounded search below this node, appending one result per node within
    /// tolerance, in preorder, pruning subtrees that the triangle inequality
    /// rules out.
    fn search_into(&self, query: &str, tolerance: u16, result: &mut Vec<SearchResult>)
        requires
            self@.wf(),
            query@.len() < usize::MAX,
        ensures
            final(result)@.len() == old(result)@.len() + self@.matching(
                query@,
                tolerance as nat,
            ).len(),
            forall|i: int| 0 <= i < old(result)@.len() ==> final(result)@[i] == old(result)@[i],
            results_match(
                final(result)@.skip(old(result)@.len() as int),
                self@.matching(query@, tolerance as nat),
                query@,
            ),
        decreases *self,
    {
        let ghost q = query@;
        let ghost tol = tolerance as nat;
        let d = distance(self.identifier.as_str(), query);
        if d <= tolerance as usize {
            result.push(SearchResult { contents: self.data.clone(), distance: d as u16 });
        }
        let ghost head: Seq<Entry> = if dist(self@.ident, q) <= tol {
            seq![self@.entry()]
        } else {
            Seq::<Entry>::empty()
        };
        proof {
            lemma_children_model(self.children@);
        }
        let n = self.children.len();
        for i in 0..n
            invariant
                n == self.children@.len(),
                n == self@.children.len(),
                self@.wf(),
                query@ == q,
                query@.len() < usize::MAX,
                tol == tolerance as nat,
                d == dist(self@.ident, q),
                head == (if dist(self@.ident, q) <= tol {
                    seq![self@.entry()]
                } else {
                    Seq::<Entry>::empty()
                }),
                BkNode::children_model(self.children@) == self@.children,
                forall|x: int|
                    0 <= x < n ==> #[trigger] BkNode::children_model(self.children@)[x] == (
                        self.children@[x].key,
                        self.children@[x].node.model(),
                    ),
                result@.len() == old(result)@.len() + head.len() + SpecNode::matching_list(
                    self@.children.take(i as int),
                    q,
                    tol,
                ).len(),
                forall|x: int| 0 <= x < old(result)@.len() ==> result@[x] == old(result)@[x],
                results_match(
                    result@.skip(old(result)@.len() as int),
                    head + SpecNode::matching_list(self@.children.take(i as int), q, tol),
                    q,
                ),
        {
            let ghost cs = self@.children;
            proof {
                assert(cs.take(i + 1).drop_last() =~= cs.take(i as int));
                assert(cs.take(i + 1).last() == cs[i as int]);
                assert(SpecNode::matching_list(cs.take(i + 1), q, tol)
                    == SpecNode::matching_list(cs.take(i as int), q, tol) + cs[i as int].1.matching(
                    q,
                    tol,
                ));
            }
            let edge = &self.children[i];
            let k = edge.key as usize;
            let diff = if d >= k {
                d - k
            } else {
                k - d
            };
            if diff <= tolerance as usize {
                proof {
                    assert(decreases_to!(*self => edge.node));
                }
                let ghost prev = result@;
                edge.node.search_into(query, tolerance, result);
                proof {
                    let oldn = old(result)@.len() as int;
                    let es_prev = head + SpecNode::matching_list(cs.take(i as int), q, tol);
                    let es_add = cs[i as int].1.matching(q, tol);
                    let es_new = head + SpecNode::matching_list(cs.take(i + 1), q, tol);
                    assert(es_new =~= es_prev + es_add);
                    assert forall|x: int| 0 <= x < es_new.len() implies result_matches(
                        result@.skip(oldn)[x],
                        es_new[x],
                        q,
                    ) by {
                        if x < es_prev.len() {
                            assert(result@[oldn + x] == prev[oldn + x]);
                            assert(result_matches(prev.skip(oldn)[x], es_prev[x], q));
                        } else {
                            assert(result_matches(
                                result@.skip(prev.len() as int)[x - es_prev.len()],
                                es_add[x - es_prev.len()],
                                q,
                            ));
                            assert(result@.skip(prev.len() as int)[x - es_prev.len()] == result@[
                                oldn + x]);
                        }
                    }
                    assert(results_match(result@.skip(oldn), es_new, q));
                }
            } else {
                // every node of this subtree sits at distance `k` from this
                // one, so by the triangle inequality none can match
                proof {
                    let c = cs[i as int].1;
                    assert forall|e: Entry| #[trigger] c.entries().contains(e) implies dist(
                        e.ident,
                        q,
                    ) > tol by {
                        assert(dist(self@.ident, e.ident) == cs[i as int].0);
                        crate::metric::lemma_dist_reverse_triangle(self@.ident, e.ident, q);
                    }
                    lemma_matching_empty(c, q, tol);
                    assert(SpecNode::matching_list(cs.take(i + 1), q, tol) =~= SpecNode::matching_list(
                        cs.take(i as int),
                        q,
                        tol,
                    ));
                }
            }
        }
        proof {
            assert(self@.children.take(n as int) =~= self@.children);
            assert(self@.matching(q, tol) == head + SpecNode::matching_list(self@.children, q, tol));
        }
    }
}

impl BkTree {
    /// Wraps a freshly created node as the root of a new tree.
    pub fn init(root: BkNode) -> (t: BkTree)
        requires
            root@.wf(),
            root@.children.len() == 0,
        ensures
            t@ == (SpecTree { root: root@, paths: Seq::empty() }),
            t@.wf(),
    {
        let t = BkTree { root, paths: Vec::new() };
        proof {
            assert(t@.paths =~= Seq::<Seq<u16>>::empty());
            assert(SpecNode::entries_list(t@.root.children) =~= Seq::<Entry>::empty());
            assert(t@.root.count() == 1);
        }
        t
    }

    /// Bounded fuzzy search: one result for every node of the tree whose
    /// identifier lies within `tolerance` edits of the query, case
    /// folded, in preorder.
    pub fn search(&self, query: &str, tolerance: u16) -> (results: Vec<SearchResult>)
        requires
            self@.wf(),
            query@.len() < usize::MAX,
        ensures
            results_match(
                results@,
                self@.root.matching(norm_ident(query@), tolerance as nat),
                norm_ident(query@),
            ),
    {
        let len = query.unicode_len();
        let bare: &str = if len > 0 && query.get_char(0) == '@' {
            let b = query.substring_char(1, len);
            proof {
                assert(b@ =~= query@.drop_first());
            }
            b
        } else {
            query
        };
        let mut results: Vec<SearchResult> = Vec::new();
        self.root.search_into(bare, tolerance, &mut results);
        proof {
            assert(results@.skip(0) =~= results@);
        }
        results
    }

    /// A tolerance that grows with the query: the integer square root of
    /// its length, floored at one.
    pub fn per_query_tolerance(query: &str) -> (t: u16)
        ensures
            t >= 1,
            query@.len() < 4 ==> t == 1,
            query@.len() >= 4 ==> (t as nat) * (t as nat) <= query@.len(),
            query@.len() < ((t as nat) + 1) * ((t as nat) + 1) || t == 65535,
    {
        let len = query.unicode_len();
        let mut t: u16 = 1;
        let mut next: u64 = 4;
        proof {
            assert(((t as nat) + 1) * ((t as nat) + 1) == 4) by (nonlinear_arith)
                requires
                    t == 1,
            ;
        }
        while t < 65535 && next <= len as u64
            invariant
                1 <= t,
                len == query@.len(),
                next == ((t as nat) + 1) * ((t as nat) + 1),
                (t as nat) * (t as nat) <= len || t == 1,
            decreases 65535 - t,
        {
            t = t + 1;
            let a = t as u64 + 1;
            proof {
                assert((a as nat) * (a as nat) <= 65536 * 65536) by (nonlinear_arith)
                    requires
                        a <= 65536,
                ;
            }
            next = a * a;
        }
        proof {
            if query@.len() < 4 && t != 1 {
                assert((t as nat) * (t as nat) <= len);
                assert((t as nat) * (t as nat) >= 4) by (nonlinear_arith)
                    requires
                        t >= 2,
                ;
            }
        }
        t
    }

    /// Inserts a prepared leaf, recording its path; used when replaying a
    /// persisted tree.  Returns a copy of the new node's path, or `None`
    /// when the references were merged into an existing node instead.
    pub(crate) fn add_leaf_node(&mut self, node: BkNode) -> (r: Option<Vec<u16>>)
        requires
            old(self)@.wf(),
            node@.wf(),
            node@.children.len() == 0,
        ensures
            final(self)@ == old(self)@.add_leaf_spec(node@),
            final(self)@.wf(),
            opt_path_model(r) == old(self)@.root.add_spec(node@).1,
    {
        let ghost m = node@;
        let p = self.root.add(node);
        let r = match p {
            Some(p) => {
                let cp = copy_path(&p);
                self.paths.push(p);
                Some(cp)
            },
            None => None,
        };
        proof {
            assert(final(self)@ =~= old(self)@.add_leaf_spec(m));
            lemma_tree_add(old(self)@, m);
        }
        r
    }

    /// Inserts one identifier with its references: merges into the node with
    /// the same folded identifier if there is one, otherwise records a new
    /// leaf and its path.
    pub fn add_node(&mut self, identifier: String, book_refs: Vec<u32>)
        requires
            old(self)@.wf(),
            identifier@.len() <= MAX_IDENTIFIER_LEN,
        ensures
            final(self)@ == old(self)@.add_spec(identifier@, book_refs@),
            final(self)@.wf(),
            old(self)@.root.contains_key(fold(norm_ident(identifier@))) ==> final(self)@.paths
                == old(self)@.paths && final(self)@.root.count() == old(self)@.root.count(),
            !old(self)@.root.contains_key(fold(norm_ident(identifier@)))
                ==> final(self)@.paths.len() == old(self)@.paths.len() + 1
                && final(self)@.root.count() == old(self)@.root.count() + 1,
    {
        let new_node = BkNode::create(identifier, book_refs);
        let node_added = self.root.add(new_node);
        match node_added {
            Some(p) => {
                self.paths.push(p);
            },
            None => {},
        }
        proof {
            assert(final(self)@ =~= old(self)@.add_spec(identifier@, book_refs@));
            lemma_tree_add(old(self)@, new_leaf(identifier@, book_refs@));
        }
    }
}


impl SpecNode {
    /// The subtree with the node at `p` removed; meaningful when that node
    /// is a leaf and the last child of its parent, which is how the tree's
    /// most recently inserted node always sits.
    pub open spec fn remove_at(self, p: Seq<u16>) -> SpecNode
        decreases p.len(),
    {
        if p.len() <= 1 {
            SpecNode { children: self.children.drop_last(), ..self }
        } else {
            let i = self.child_index(p.first());
            SpecNode {
                children: self.children.update(
                    i,
                    (p.first(), self.children[i].1.remove_at(p.drop_first())),
                ),
                ..self
            }
        }
    }
}

impl SpecTree {
    /// The tree with its most recently recorded node removed.
    pub open spec fn remove_last(self) -> SpecTree {
        SpecTree { root: self.root.remove_at(self.paths.last()), paths: self.paths.drop_last() }
    }

    /// The tree reduced to its first `k` recorded nodes.
    pub open spec fn strip_to(self, k: int) -> SpecTree
        decreases self.paths.len() - k,
    {
        if k < 0 || k >= self.paths.len() {
            self
        } else {
            self.remove_last().strip_to(k)
        }
    }
}

/// A child list accounts for at least one entry per child.
pub proof fn lemma_el_len_ge(cs: Seq<(u16, SpecNode)>)
    ensures
        SpecNode::entries_list(cs).len() >= cs.len(),
    decreases cs.len(),
{
    if cs.len() > 0 {
        lemma_el_len_ge(cs.drop_last());
        assert(cs.last().1.entries().len() >= 1);
    }
}

/// What removing the last-inserted leaf does to a subtree: one entry fewer,
/// nothing new, and inserting the leaf again restores the subtree exactly,
/// landing on the same path.
proof fn lemma_remove_at(n: SpecNode, p: Seq<u16>)
    requires
        n.wf(),
        p.len() >= 1,
        n.node_at(p) is Some,
        n.node_at(p).unwrap().children.len() == 0,
        n.node_at(p.drop_last()).unwrap().children.len() > 0,
        n.node_at(p.drop_last()).unwrap().children.last().0 == p.last(),
        n.node_at(p.drop_last()) is Some,
    ensures
        n.remove_at(p).wf(),
        n.remove_at(p).entries().len() + 1 == n.entries().len(),
        forall|e: Entry|
            #[trigger] n.remove_at(p).entries().contains(e) ==> n.entries().contains(e),
        n.remove_at(p).add_spec(n.node_at(p).unwrap()) == (n, Some(p)),
    decreases p.len(),
{
    let m = n.node_at(p).unwrap();
    let n2 = n.remove_at(p);
    lemma_dist_le_max(n.ident, m.ident);
    if p.len() == 1 {
        assert(p.drop_last() =~= Seq::<u16>::empty());
        assert(n.has_child(p.first()));
        let ci = n.child_index(p.first());
        assert(0 <= ci < n.children.len() && n.children[ci].0 == p.first());
        assert(p.first() == p.last());
        assert(n.children.last().0 == p.last());
        assert(ci == n.children.len() - 1) by {
            if ci != n.children.len() - 1 {
                assert(n.children[ci].0 != n.children[n.children.len() - 1].0);
            }
        }
        assert(p.drop_first() =~= Seq::<u16>::empty());
        assert(m == n.children.last().1);
        let dl = n.children.drop_last();
        assert(n2.children == dl);
        // well-formedness of the pruned node
        assert forall|x: int| 0 <= x < dl.len() implies (#[trigger] dl[x]) == n.children[x] by {}
        assert(n2.wf());
        // entry bookkeeping
        assert(m.entries() =~= seq![m.entry()]);
        assert(SpecNode::entries_list(n.children) == SpecNode::entries_list(dl) + m.entries());
        assert(n2.entries().len() + 1 == n.entries().len());
        assert forall|e: Entry| #[trigger] n2.entries().contains(e) implies n.entries().contains(
            e,
        ) by {
            let w = choose|w: int| 0 <= w < n2.entries().len() && n2.entries()[w] == e;
            assert(n.entries()[w] == e);
        }
        // adding the leaf back
        assert(m.entries()[0] == m.entry());
        assert(m.entries().contains(m.entry()));
        assert(dist(n.ident, m.ident) == p.first());
        assert(p.first() != 0);
        let k = dist(n.ident, m.ident) as u16;
        assert(k == p.first());
        assert(!n2.has_child(k)) by {
            if n2.has_child(k) {
                let w = n2.child_index(k);
                assert(0 <= w < dl.len() && dl[w].0 == k);
                assert(n.children[w].0 != n.children[n.children.len() - 1].0);
            }
        }
        assert(n2.add_spec(m).0 == (SpecNode { children: dl.push((k, m)), ..n2 }));
        assert(dl.push((k, m)) =~= n.children);
        assert(n2.add_spec(m).0 =~= n);
        assert(n2.add_spec(m).1 == Some(seq![k]));
        assert(seq![k] =~= p);
    } else {
        let q0 = p.first();
        let pr = p.drop_first();
        assert(n.has_child(q0));
        let i = n.child_index(q0);
        assert(0 <= i < n.children.len() && n.children[i].0 == q0);
        let c = n.children[i].1;
        assert(c.node_at(pr) is Some && c.node_at(pr).unwrap() == m);
        // the parent seen from the child
        assert(p.drop_last().first() == q0);
        assert(p.drop_last().drop_first() =~= pr.drop_last());
        assert(n.node_at(p.drop_last()) == c.node_at(pr.drop_last()));
        lemma_remove_at(c, pr);
        let c2 = c.remove_at(pr);
        let cs2 = n.children.update(i, (q0, c2));
        assert(n2.children == cs2);
        // well-formedness
        assert forall|x: int, y: int| 0 <= x < y < cs2.len() implies (#[trigger] cs2[x]).0 != (
        #[trigger] cs2[y]).0 by {
            assert(n.children[x].0 == cs2[x].0);
            assert(n.children[y].0 == cs2[y].0);
        }
        assert forall|x: int| 0 <= x < cs2.len() implies (#[trigger] cs2[x]).0 != 0 by {
            assert(n.children[x].0 == cs2[x].0);
        }
        assert forall|x: int| 0 <= x < cs2.len() implies (#[trigger] cs2[x]).1.wf() by {
            if x != i {
                assert(cs2[x].1 == n.children[x].1);
            }
        }
        assert forall|x: int, e: Entry|
            0 <= x < cs2.len() && #[trigger] cs2[x].1.entries().contains(e) implies dist(
            n.ident,
            e.ident,
        ) == cs2[x].0 by {
            if x != i {
                assert(cs2[x].1 == n.children[x].1);
                assert(n.children[x].1.entries().contains(e));
            } else {
                assert(c.entries().contains(e));
            }
        }
        assert(n2.wf());
        // entry bookkeeping through the split around child i
        lemma_el_split(n.children, i);
        lemma_el_split(cs2, i);
        assert(cs2.take(i) =~= n.children.take(i));
        assert(cs2.skip(i + 1) =~= n.children.skip(i + 1));
        let a = SpecNode::entries_list(n.children.take(i));
        let b = SpecNode::entries_list(n.children.skip(i + 1));
        assert(SpecNode::entries_list(n.children) == a + c.entries() + b);
        assert(SpecNode::entries_list(cs2) == a + c2.entries() + b);
        assert(n2.entries().len() + 1 == n.entries().len());
        assert forall|e: Entry| #[trigger] n2.entries().contains(e) implies n.entries().contains(
            e,
        ) by {
            let w = choose|w: int| 0 <= w < n2.entries().len() && n2.entries()[w] == e;
            if w == 0 {
                assert(n.entries()[0] == e);
            } else if w - 1 < a.len() {
                assert(n.entries()[w] == e);
            } else if w - 1 < a.len() + c2.entries().len() {
                assert(c2.entries()[w - 1 - a.len()] == e);
                assert(c2.entries().contains(e));
                assert(c.entries().contains(e));
                let v = choose|v: int| 0 <= v < c.entries().len() && c.entries()[v] == e;
                assert(n.entries()[1 + a.len() + v] == e);
            } else {
                assert(n.entries()[w + c.entries().len() - c2.entries().len()] == e);
            }
        }
        // adding the leaf back
        lemma_node_at_in_entries(c, pr);
        assert(c.entries().contains(m.entry()));
        assert(dist(n.ident, m.entry().ident) == q0);
        assert(dist(n.ident, m.ident) == q0);
        assert(q0 != 0);
        let k = dist(n.ident, m.ident) as u16;
        assert(k == q0);
        assert(n2.has_child(k)) by {
            assert(cs2[i].0 == k);
        }
        let i2 = n2.child_index(k);
        assert(0 <= i2 < cs2.len() && cs2[i2].0 == k);
        assert(i2 == i) by {
            if i2 != i {
                assert(n.children[i2].0 == cs2[i2].0);
                assert(n.children[i2].0 != n.children[i].0);
            }
        }
        assert(c2.add_spec(m) == (c, Some(pr)));
        assert(n2.add_spec(m).0 == (SpecNode { children: cs2.update(i, (k, c)), ..n2 }));
        assert(cs2.update(i, (k, c)) =~= n.children);
        assert(n2.add_spec(m).0 =~= n);
        assert(n2.add_spec(m).1 == Some(seq![k] + pr));
        assert(seq![k] + pr =~= p);
    }
}

/// After the removal, the removed path leads nowhere.
proof fn lemma_remove_at_gone(n: SpecNode, p: Seq<u16>)
    requires
        n.wf(),
        p.len() >= 1,
        n.node_at(p) is Some,
        n.node_at(p).unwrap().children.len() == 0,
        n.node_at(p.drop_last()).unwrap().children.len() > 0,
        n.node_at(p.drop_last()).unwrap().children.last().0 == p.last(),
        n.node_at(p.drop_last()) is Some,
    ensures
        n.remove_at(p).node_at(p) is None,
    decreases p.len(),
{
    let n2 = n.remove_at(p);
    if p.len() == 1 {
        assert(n.has_child(p.first()));
        assert(p.drop_last() =~= Seq::<u16>::empty());
        let ci = n.child_index(p.first());
        assert(0 <= ci < n.children.len() && n.children[ci].0 == p.first());
        assert(n.children.last().0 == p.last());
        assert(ci == n.children.len() - 1) by {
            if ci != n.children.len() - 1 {
                assert(n.children[ci].0 != n.children[n.children.len() - 1].0);
            }
        }
        let dl = n.children.drop_last();
        assert(!n2.has_child(p.first())) by {
            if n2.has_child(p.first()) {
                let w = n2.child_index(p.first());
                assert(0 <= w < dl.len() && dl[w].0 == p.first());
                assert(n.children[w].0 != n.children[n.children.len() - 1].0);
            }
        }
    } else {
        let q0 = p.first();
        let pr = p.drop_first();
        assert(n.has_child(q0));
        let i = n.child_index(q0);
        assert(0 <= i < n.children.len() && n.children[i].0 == q0);
        let c = n.children[i].1;
        assert(p.drop_last().first() == q0);
        assert(p.drop_last().drop_first() =~= pr.drop_last());
        assert(n.node_at(p.drop_last()) == c.node_at(pr.drop_last()));
        lemma_remove_at_gone(c, pr);
        let c2 = c.remove_at(pr);
        let cs2 = n2.children;
        assert(cs2 == n.children.update(i, (q0, c2)));
        assert(cs2[i].0 == q0);
        assert(n2.has_child(q0));
        let i2 = n2.child_index(q0);
        assert(0 <= i2 < cs2.len() && cs2[i2].0 == q0);
        assert(i2 == i) by {
            if i2 != i {
                assert(n.children[i2].0 == cs2[i2].0);
                assert(n.children[i2].0 != n.children[i].0);
            }
        }
        assert(n2.node_at(p) == c2.node_at(pr));
    }
}

/// Where paths lead after the removal: the removed path leads nowhere, all
/// others lead to the same entries, and only the removed node's parent has
/// its child keys shortened.
proof fn lemma_remove_at_node_at(n: SpecNode, p: Seq<u16>, q: Seq<u16>)
    requires
        n.wf(),
        p.len() >= 1,
        n.node_at(p) is Some,
        n.node_at(p).unwrap().children.len() == 0,
        n.node_at(p.drop_last()).unwrap().children.len() > 0,
        n.node_at(p.drop_last()).unwrap().children.last().0 == p.last(),
        n.node_at(p.drop_last()) is Some,
    ensures
        q != p && n.node_at(q) is Some ==> {
            let m1 = n.node_at(q).unwrap();
            let m2 = n.remove_at(p).node_at(q).unwrap();
            &&& n.remove_at(p).node_at(q) is Some
            &&& m2.ident == m1.ident
            &&& m2.author == m1.author
            &&& m2.refs == m1.refs
            &&& if q == p.drop_last() {
                keys_plus_one(m2.children, m1.children, p.last())
            } else {
                same_keys(m1.children, m2.children)
            }
        },
        n.remove_at(p).node_at(q) is Some ==> n.node_at(q) is Some,
    decreases q.len(),
{
    let n2 = n.remove_at(p);
    if p.len() == 1 {
        assert(n.has_child(p.first()));
        assert(p.drop_first() =~= Seq::<u16>::empty());
        assert(n.node_at(p) == n.child_at(p.first()).node_at(p.drop_first()));
        assert(n.child_at(p.first()).node_at(p.drop_first()) == Some(n.child_at(p.first())));
        assert(n.node_at(p).unwrap() == n.child_at(p.first()));
        let ci = n.child_index(p.first());
        assert(p.drop_last() =~= Seq::<u16>::empty());
        assert(0 <= ci < n.children.len() && n.children[ci].0 == p.first());
        assert(n.children.last().0 == p.last());
        assert(ci == n.children.len() - 1) by {
            if ci != n.children.len() - 1 {
                assert(n.children[ci].0 != n.children[n.children.len() - 1].0);
            }
        }
        let dl = n.children.drop_last();
        assert(n2.children == dl);
        if q.len() == 0 {
            assert(q != p);
            assert(q == p.drop_last());
            assert(keys_plus_one(n2.children, n.children, p.last()));
        } else {
            let q0 = q.first();
            assert(!n2.has_child(p.first())) by {
                if n2.has_child(p.first()) {
                    let w = n2.child_index(p.first());
                    assert(0 <= w < dl.len() && dl[w].0 == p.first());
                    assert(n.children[w].0 != n.children[n.children.len() - 1].0);
                }
            }
            if q0 == p.first() {
                assert(n2.node_at(q) is None);
                if q.drop_first().len() == 0 {
                    assert(q =~= p);
                } else {
                    let m = n.node_at(p).unwrap();
                    assert(n.node_at(q) == m.node_at(q.drop_first()));
                    assert(!m.has_child(q.drop_first().first()));
                    assert(n.node_at(q) is None);
                }
            } else {
                assert(q != p) by {
                    if q == p {
                        assert(q.first() == p.first());
                    }
                }
                assert(q != p.drop_last());
                assert(n.has_child(q0) <==> n2.has_child(q0)) by {
                    if n.has_child(q0) {
                        let w = n.child_index(q0);
                        assert(0 <= w < n.children.len() && n.children[w].0 == q0);
                        assert(w != n.children.len() - 1);
                        assert(dl[w].0 == q0);
                    }
                    if n2.has_child(q0) {
                        let w = n2.child_index(q0);
                        assert(n.children[w].0 == q0);
                    }
                }
                if n.has_child(q0) {
                    let a1 = n.child_index(q0);
                    let a2 = n2.child_index(q0);
                    assert(0 <= a1 < n.children.len() && n.children[a1].0 == q0);
                    assert(0 <= a2 < dl.len() && dl[a2].0 == q0);
                    assert(a1 == a2) by {
                        if a1 != a2 {
                            assert(n.children[a1].0 != n.children[a2].0);
                        }
                    }
                    assert(n2.child_at(q0) == n.child_at(q0));
                    assert(n2.node_at(q) == n.node_at(q));
                    if n.node_at(q) is Some {
                        assert(same_keys(
                            n.node_at(q).unwrap().children,
                            n2.node_at(q).unwrap().children,
                        ));
                    }
                }
            }
        }
    } else {
        let q0_p = p.first();
        let pr = p.drop_first();
        let i = n.child_index(q0_p);
        assert(n.has_child(q0_p));
        assert(0 <= i < n.children.len() && n.children[i].0 == q0_p);
        let c = n.children[i].1;
        assert(p.drop_last().first() == q0_p);
        assert(p.drop_last().drop_first() =~= pr.drop_last());
        assert(n.node_at(p.drop_last()) == c.node_at(pr.drop_last()));
        assert(c.node_at(pr) is Some && c.node_at(pr).unwrap() == n.node_at(p).unwrap());
        let c2 = c.remove_at(pr);
        let cs2 = n2.children;
        assert(cs2 == n.children.update(i, (q0_p, c2)));
        assert(forall|x: int| 0 <= x < cs2.len() ==> (#[trigger] cs2[x]).0 == n.children[x].0);
        if q.len() == 0 {
            assert(q != p);
            assert(q != p.drop_last());
            assert(same_keys(n.children, cs2));
        } else {
            let q0 = q.first();
            assert(n.has_child(q0) <==> n2.has_child(q0)) by {
                if n.has_child(q0) {
                    let w = n.child_index(q0);
                    assert(cs2[w].0 == q0);
                }
                if n2.has_child(q0) {
                    let w = n2.child_index(q0);
                    assert(n.children[w].0 == q0);
                }
            }
            if n.has_child(q0) {
                let a1 = n.child_index(q0);
                let a2 = n2.child_index(q0);
                assert(0 <= a1 < n.children.len() && n.children[a1].0 == q0);
                assert(0 <= a2 < cs2.len() && cs2[a2].0 == q0);
                assert(a1 == a2) by {
                    if a1 != a2 {
                        assert(n.children[a1].0 != n.children[a2].0);
                    }
                }
                if q0 == q0_p {
                    assert(a1 == i) by {
                        if a1 != i {
                            assert(n.children[a1].0 != n.children[i].0);
                        }
                    }
                    lemma_remove_at_node_at(c, pr, q.drop_first());
                    assert(n.node_at(q) == c.node_at(q.drop_first()));
                    assert(n2.node_at(q) == c2.node_at(q.drop_first()));
                    if q.drop_first() == pr {
                        assert(q =~= seq![q.first()] + q.drop_first());
                        assert(p =~= seq![p.first()] + pr);
                        assert(q =~= p);
                    } else {
                        assert(q != p) by {
                            if q == p {
                                assert(q.drop_first() =~= pr);
                            }
                        }
                    }
                    if q.drop_first() == pr.drop_last() {
                        assert(q =~= seq![q.first()] + q.drop_first());
                        assert(p.drop_last() =~= seq![p.first()] + pr.drop_last());
                        assert(q =~= p.drop_last());
                    } else {
                        assert(q != p.drop_last()) by {
                            if q == p.drop_last() {
                                assert(q.drop_first() =~= pr.drop_last());
                            }
                        }
                    }
                } else {
                    assert(cs2[a2].1 == n.children[a1].1);
                    assert(n2.node_at(q) == n.node_at(q));
                    assert(q != p) by {
                        if q == p {
                            assert(q.first() == p.first());
                        }
                    }
                    assert(q != p.drop_last()) by {
                        if q == p.drop_last() {
                            assert(q.first() == p.drop_last().first());
                        }
                    }
                    if n.node_at(q) is Some {
                        assert(same_keys(
                            n.node_at(q).unwrap().children,
                            n2.node_at(q).unwrap().children,
                        ));
                    }
                }
            } else {
                assert(q != p) by {
                    if q == p {
                        assert(q.first() == p.first());
                        assert(n.has_child(q0));
                    }
                }
            }
        }
    }
}


/// The most recently recorded node is a leaf and the last child of its
/// parent; removing it keeps the tree well-formed, leaves every other
/// node's entry alone, and inserting it again restores the tree exactly,
/// landing on the recorded path.
pub proof fn lemma_tree_remove_last(t: SpecTree)
    requires
        t.wf(),
        t.paths.len() >= 1,
    ensures
        t.root.node_at(t.paths.last()) is Some,
        t.root.node_at(t.paths.last()).unwrap().children.len() == 0,
        t.remove_last().wf(),
        t.remove_last().root.add_spec(t.root.node_at(t.paths.last()).unwrap()) == (
            t.root,
            Some(t.paths.last()),
        ),
        t.remove_last().root.ident == t.root.ident,
        t.remove_last().root.author == t.root.author,
        t.remove_last().root.refs == t.root.refs,
        forall|j: int|
            0 <= j < t.paths.len() - 1 ==> {
                let m1 = t.root.node_at(t.paths[j]).unwrap();
                let m2 = t.remove_last().root.node_at(t.paths[j]).unwrap();
                &&& (#[trigger] t.remove_last().root.node_at(t.paths[j])) is Some
                &&& m2.ident == m1.ident
                &&& m2.author == m1.author
                &&& m2.refs == m1.refs
            },
{
    let n = t.paths.len() as int;
    let p = t.paths.last();
    assert(t.paths[n - 1] == p);
    assert(t.root.node_at(p) is Some);
    let m = t.root.node_at(p).unwrap();
    lemma_node_at_wf(t.root, p);
    // the node is a leaf: a child would be a later-recorded node
    assert(m.children.len() == 0) by {
        if m.children.len() > 0 {
            let k1 = m.children[0].0;
            assert(m.has_child(k1));
            lemma_node_at_extend(t.root, p, k1);
            let q = p.push(k1);
            assert(q.len() > 1);
            assert(t.root.node_at(q) is Some);
            assert(t.paths.contains(q));
            let j = choose|j: int| 0 <= j < t.paths.len() && t.paths[j] == q;
            assert(t.paths[j].len() > 1);
            let j2 = choose|j2: int| 0 <= j2 < j && t.paths[j2] == t.paths[j].drop_last();
            assert(q.drop_last() =~= p);
            assert(t.paths[j2] == p);
            assert(j2 == n - 1) by {
                if j2 < n - 1 {
                    assert(t.paths[j2] != t.paths[n - 1]);
                }
            }
        }
    }
    // the parent, and the node's position among its siblings
    lemma_node_at_prefix(t.root, p, p.len() - 1);
    assert(p.take(p.len() - 1) =~= p.drop_last());
    assert(t.root.node_at(p.drop_last()) is Some);
    let par = t.root.node_at(p.drop_last()).unwrap();
    lemma_node_at_wf(t.root, p.drop_last());
    lemma_node_at_step(t.root, p);
    assert(par.has_child(p.last()));
    let ci = par.child_index(p.last());
    assert(0 <= ci < par.children.len() && par.children[ci].0 == p.last());
    assert(ci == par.children.len() - 1) by {
        let kl = par.children[par.children.len() - 1].0;
        if kl == p.last() {
            if ci != par.children.len() - 1 {
                assert(par.children[ci].0 != par.children[par.children.len() - 1].0);
            }
        } else {
            assert(par.has_child(kl));
            lemma_node_at_extend(t.root, p.drop_last(), kl);
            let q = p.drop_last().push(kl);
            assert(q.len() == p.len());
            assert(t.root.node_at(q) is Some);
            assert(q.len() > 0);
            assert(t.paths.contains(q));
            let j = choose|j: int| 0 <= j < t.paths.len() && t.paths[j] == q;
            assert(q.last() == kl);
            assert(q != p);
            assert(j < n - 1) by {
                if j == n - 1 {
                    assert(t.paths[j] == p);
                }
            }
            // sibling order: the node at `q` was recorded earlier, so its
            // position among the children is earlier too
            assert(q.drop_last() =~= p.drop_last());
            assert(t.paths[j].drop_last() == t.paths[n - 1].drop_last());
            let x = par.children.len() - 1;
            assert(t.root.node_at(t.paths[j].drop_last()).unwrap() == par);
            assert(t.root.node_at(t.paths[j].drop_last()).unwrap().children[x].0 == t.paths[
                j].last());
            assert(t.root.node_at(t.paths[n - 1].drop_last()).unwrap().children[ci].0 == t.paths[
                n - 1].last());
            assert(x < ci);
        }
    }
    // removal facts
    lemma_remove_at(t.root, p);
    lemma_remove_at_gone(t.root, p);
    let t2 = t.remove_last();
    assert(t2.root == t.root.remove_at(p));
    assert(forall|j: int| 0 <= j < n - 1 ==> #[trigger] t2.paths[j] == t.paths[j]);
    assert forall|j: int| 0 <= j < n - 1 implies t.paths[j] != p by {
        assert(t.paths[j] != t.paths[n - 1]);
    }
    assert forall|q: Seq<u16>| q != p implies {
        &&& (t.root.node_at(q) is Some ==> {
            let m1 = t.root.node_at(q).unwrap();
            let m2 = t2.root.node_at(q).unwrap();
            &&& (#[trigger] t2.root.node_at(q)) is Some
            &&& m2.ident == m1.ident
            &&& m2.author == m1.author
            &&& m2.refs == m1.refs
            &&& if q == p.drop_last() {
                keys_plus_one(m2.children, m1.children, p.last())
            } else {
                same_keys(m1.children, m2.children)
            }
        })
        &&& (t2.root.node_at(q) is Some ==> t.root.node_at(q) is Some)
    } by {
        lemma_remove_at_node_at(t.root, p, q);
    }
    assert(Seq::<u16>::empty() != p);
    assert(t.root.node_at(Seq::<u16>::empty()) is Some);
    assert(t2.root.ident == t.root.ident);
    // the whole tree remains well-formed
    assert(t2.paths.len() + 1 == t2.root.count());
    assert forall|i: int| 0 <= i < t2.paths.len() implies (#[trigger] t2.root.node_at(
        t2.paths[i],
    )) is Some by {
        assert(t2.paths[i] == t.paths[i]);
        assert(t.root.node_at(t.paths[i]) is Some);
    }
    assert forall|q: Seq<u16>| q.len() > 0 && (#[trigger] t2.root.node_at(q)) is Some implies
        t2.paths.contains(q) by {
        assert(t.root.node_at(q) is Some);
        assert(t.paths.contains(q));
        let j = choose|j: int| 0 <= j < t.paths.len() && t.paths[j] == q;
        assert(j < n - 1) by {
            if j == n - 1 {
                assert(t2.root.node_at(p) is None);
            }
        }
        assert(t2.paths[j] == q);
    }
    assert forall|i: int|
        0 <= i < t2.paths.len() && (#[trigger] t2.paths[i]).len() > 1 implies exists|j: int|
        0 <= j < i && t2.paths[j] == t2.paths[i].drop_last() by {
        assert(t.paths[i].len() > 1);
        let j = choose|j: int| 0 <= j < i && t.paths[j] == t.paths[i].drop_last();
        assert(t2.paths[j] == t2.paths[i].drop_last());
    }
    assert forall|i: int, j: int, x: int, y: int|
        #![trigger t2.root.node_at(t2.paths[i].drop_last()).unwrap().children[x],
            t2.root.node_at(t2.paths[j].drop_last()).unwrap().children[y]]
        {
            let par2 = t2.root.node_at(t2.paths[i].drop_last()).unwrap();
            0 <= i < j < t2.paths.len() && t2.paths[i].drop_last() == t2.paths[j].drop_last() && 0
                <= x < par2.children.len() && 0 <= y < par2.children.len() && par2.children[x].0
                == t2.paths[i].last() && par2.children[y].0 == t2.paths[j].last()
        } implies x < y by {
        let pp = t.paths[i].drop_last();
        lemma_node_at_prefix(t.root, t.paths[i], t.paths[i].len() - 1);
        assert(t.paths[i].take(t.paths[i].len() - 1) =~= pp);
        assert(t.root.node_at(pp) is Some);
        let par1 = t.root.node_at(pp).unwrap();
        let par2 = t2.root.node_at(pp).unwrap();
        assert(pp != p) by {
            if pp == p {
                assert(t2.root.node_at(t2.paths[i]) is Some);
                lemma_node_at_prefix(t2.root, t2.paths[i], t2.paths[i].len() - 1);
                assert(t2.paths[i].take(t2.paths[i].len() - 1) =~= pp);
                assert(t2.root.node_at(p) is None);
            }
        }
        if pp == p.drop_last() {
            assert(keys_plus_one(par2.children, par1.children, p.last()));
            assert(par1.children[x].0 == t.paths[i].last());
            assert(par1.children[y].0 == t.paths[j].last());
            assert(t.root.node_at(t.paths[i].drop_last()).unwrap().children[x].0 == t.paths[
                i].last());
            assert(t.root.node_at(t.paths[j].drop_last()).unwrap().children[y].0 == t.paths[
                j].last());
        } else {
            assert(same_keys(par1.children, par2.children));
            assert(t.root.node_at(t.paths[i].drop_last()).unwrap().children[x].0 == t.paths[
                i].last());
            assert(t.root.node_at(t.paths[j].drop_last()).unwrap().children[y].0 == t.paths[
                j].last());
        }
    }
    assert(t2.wf());
}

/// Stripping one step at a time: the reduced tree is the next one with its
/// last node removed.
pub proof fn lemma_strip_step(t: SpecTree, k: int)
    requires
        t.wf(),
        0 <= k < t.paths.len(),
    ensures
        t.strip_to(k) == t.strip_to(k + 1).remove_last(),
    decreases t.paths.len() - k,
{
    lemma_tree_remove_last(t);
    if k + 1 == t.paths.len() {
        assert(t.strip_to(k + 1) == t);
        assert(t.strip_to(k) == t.remove_last().strip_to(k));
        assert(t.remove_last().paths.len() == k);
        assert(t.remove_last().strip_to(k) == t.remove_last());
    } else {
        lemma_strip_step(t.remove_last(), k);
        assert(t.strip_to(k) == t.remove_last().strip_to(k));
        assert(t.strip_to(k + 1) == t.remove_last().strip_to(k + 1));
    }
}

/// The reduced tree is well-formed, keeps the first `k` recorded paths, and
/// carries the same entries at them, root included.
pub proof fn lemma_strip(t: SpecTree, k: int)
    requires
        t.wf(),
        0 <= k <= t.paths.len(),
    ensures
        t.strip_to(k).wf(),
        t.strip_to(k).paths == t.paths.take(k),
        t.strip_to(k).root.ident == t.root.ident,
        t.strip_to(k).root.author == t.root.author,
        t.strip_to(k).root.refs == t.root.refs,
        forall|j: int|
            0 <= j < k ==> {
                let m1 = t.root.node_at(t.paths[j]).unwrap();
                let m2 = t.strip_to(k).root.node_at(t.paths[j]).unwrap();
                &&& (#[trigger] t.strip_to(k).root.node_at(t.paths[j])) is Some
                &&& m2.ident == m1.ident
                &&& m2.author == m1.author
                &&& m2.refs == m1.refs
            },
    decreases t.paths.len() - k,
{
    if k == t.paths.len() {
        assert(t.paths.take(k) =~= t.paths);
    } else {
        lemma_tree_remove_last(t);
        let rl = t.remove_last();
        lemma_strip(rl, k);
        assert(t.strip_to(k) == rl.strip_to(k));
        assert(rl.paths.take(k) =~= t.paths.take(k));
        assert forall|j: int| 0 <= j < k implies {
            let m1 = t.root.node_at(t.paths[j]).unwrap();
            let m2 = t.strip_to(k).root.node_at(t.paths[j]).unwrap();
            &&& (#[trigger] t.strip_to(k).root.node_at(t.paths[j])) is Some
            &&& m2.ident == m1.ident
            &&& m2.author == m1.author
            &&& m2.refs == m1.refs
        } by {
            assert(rl.paths[j] == t.paths[j]);
            assert(rl.root.node_at(rl.paths[j]) is Some);
        }
    }
}


/// The merge invariant: inserting an identifier that is fresh and then
/// inserting it again (up to case and kind marker) leaves the node count
/// and path table alone and yields one node carrying both reference lists,
/// in order.
pub proof fn lemma_merge_invariant(
    t: SpecTree,
    id: Seq<char>,
    r1: Seq<u32>,
    id2: Seq<char>,
    r2: Seq<u32>,
)
    requires
        t.wf(),
        id.len() <= MAX_IDENTIFIER_LEN,
        id2.len() <= MAX_IDENTIFIER_LEN,
        fold(norm_ident(id2)) == fold(norm_ident(id)),
        !t.root.contains_key(fold(norm_ident(id))),
    ensures
        ({
            let t1 = t.add_spec(id, r1);
            let t2 = t1.add_spec(id2, r2);
            &&& t2.root.count() == t1.root.count()
            &&& t2.paths == t1.paths
            &&& exists|j: int|
                0 <= j < t2.root.entries().len() && fold(
                    (#[trigger] t2.root.entries()[j]).ident,
                ) == fold(norm_ident(id)) && t2.root.entries()[j].refs == r1 + r2
        }),
{
    broadcast use vstd::seq_lib::group_to_multiset_ensures;

    let key = fold(norm_ident(id));
    let m1 = new_leaf(id, r1);
    let m2 = new_leaf(id2, r2);
    assert(m1.wf());
    assert(m2.wf());
    lemma_tree_add(t, m1);
    lemma_add_spec(t.root, m1);
    let t1 = t.add_spec(id, r1);
    assert(t1.root == t.root.add_spec(m1).0);
    // after the first insertion the key is present, on the fresh entry
    assert(t1.root.entries().to_multiset() == t.root.entries().to_multiset().insert(m1.entry()));
    assert(t1.root.entries().to_multiset().contains(m1.entry()));
    assert(t1.root.entries().contains(m1.entry()));
    let w = choose|w: int|
        0 <= w < t1.root.entries().len() && t1.root.entries()[w] == m1.entry();
    assert(fold((#[trigger] t1.root.entries()[w]).ident) == key);
    assert(t1.root.contains_key(key));
    // the second insertion merges into exactly that entry
    lemma_add_spec(t1.root, m2);
    lemma_tree_add(t1, m2);
    let t2 = t1.add_spec(id2, r2);
    assert(t2.root == t1.root.add_spec(m2).0);
    assert(t1.root.add_spec(m2).1 is None);
    let j = choose|j: int|
        0 <= j < t1.root.entries().len() && fold((#[trigger] t1.root.entries()[j]).ident) == fold(
            m2.ident,
        ) && t2.root.entries()[j] == (Entry {
            refs: t1.root.entries()[j].refs + m2.refs,
            ..t1.root.entries()[j]
        }) && (forall|i: int|
            0 <= i < t1.root.entries().len() && i != j ==> t2.root.entries()[i] == (
            #[trigger] t1.root.entries()[i]));
    // only one entry can hold the key, so it is the fresh one
    lemma_wf_keys_distinct(t1.root);
    assert(j == w) by {
        if j != w {
            assert(fold(t1.root.entries()[j].ident) != fold(t1.root.entries()[w].ident));
        }
    }
    assert(t2.root.entries()[j].refs == r1 + r2);
    assert(fold((#[trigger] t2.root.entries()[j]).ident) == key);
}

} // verus!
