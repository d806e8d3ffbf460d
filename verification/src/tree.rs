//! The approximate-match index: a BK-tree over Levenshtein distance.
//!
//! Nodes live in a flat arena and point to their children by arena index,
//! keyed by the exact edit distance between child and parent descriptions.
//! The arena order is the insertion order, so the tree's view is the
//! dictionary itself, in dictionary order. Every query is specified
//! against that view alone: `find_exact` finds an entry iff one with the
//! queried description exists, and `find_within` returns exactly the
//! entries a brute-force scan within the tolerance would return, in
//! dictionary order — the triangle-inequality pruning never changes the
//! result set.

use vstd::prelude::*;
use vstd::pervasive::VecAdditionalExecFns;
use crate::distance::{lev, levenshtein, chars_of, lemma_lev_self, lemma_lev_zero, lemma_lev_sym,
    lemma_lev_triangle};
use crate::pair::{EmojiPair, PairView};

verus! {

/// One arena node: an entry and the distance-keyed edges to its children.
/// Each edge holds the edit distance to the child and the child's arena
/// index.
pub struct Node {
    pub entry: EmojiPair,
    pub children: Vec<(usize, usize)>,
}

/// The index. `nodes[0]` is the root when the arena is not empty.
pub struct BkTree {
    pub nodes: Vec<Node>,
}

impl View for BkTree {
    type V = Seq<PairView>;

    open spec fn view(&self) -> Seq<PairView> {
        self.nodes@.map_values(|n: Node| n.entry@)
    }
}

/// The description stored at node `j`.
pub open spec fn desc_at(nodes: Seq<Node>, j: int) -> Seq<char> {
    nodes[j].entry@.description
}

/// The set of arena indices in the subtree rooted at `i`, following only
/// edges that point forward into the arena. `kids_below` collects the
/// subtrees of the first `m` children of `i`.
pub open spec fn kids_below(nodes: Seq<Node>, i: int, m: int) -> Set<int>
    decreases nodes.len() - i, m, 0int,
{
    if m <= 0 || i < 0 || i >= nodes.len() {
        Set::empty()
    } else {
        let c = nodes[i].children@[m - 1].1 as int;
        kids_below(nodes, i, m - 1).union(
            if i < c < nodes.len() {
                subtree(nodes, c)
            } else {
                Set::empty()
            },
        )
    }
}

/// The set of arena indices in the subtree rooted at `i`, `i` included.
pub open spec fn subtree(nodes: Seq<Node>, i: int) -> Set<int>
    decreases nodes.len() - i, nodes[i].children@.len() as int, 1int,
{
    if i < 0 || i >= nodes.len() {
        Set::empty()
    } else {
        kids_below(nodes, i, nodes[i].children@.len() as int).insert(i)
    }
}

/// True when `m` names an existing child slot of node `p`.
pub open spec fn valid_slot(nodes: Seq<Node>, p: int, m: int) -> bool {
    0 <= p < nodes.len() && 0 <= m < nodes[p].children@.len()
}

/// The distance key of child slot `m` of node `p`.
pub open spec fn slot_key(nodes: Seq<Node>, p: int, m: int) -> int {
    nodes[p].children@[m].0 as int
}

/// The child index of child slot `m` of node `p`.
pub open spec fn slot_child(nodes: Seq<Node>, p: int, m: int) -> int {
    nodes[p].children@[m].1 as int
}

/// Every child edge points forward: strictly past its parent, into the
/// arena. This is what makes the recursion over subtrees well founded.
pub open spec fn edges_forward(nodes: Seq<Node>) -> bool {
    forall|p: int, m: int|
        valid_slot(nodes, p, m) ==> p < #[trigger] slot_child(nodes, p, m) < nodes.len()
}

/// No two child slots of one node carry the same distance key.
pub open spec fn keys_distinct(nodes: Seq<Node>) -> bool {
    forall|p: int, m1: int, m2: int|
        valid_slot(nodes, p, m1) && valid_slot(nodes, p, m2) && m1 != m2
            ==> #[trigger] slot_key(nodes, p, m1) != #[trigger] slot_key(nodes, p, m2)
}

/// No arena index is the child of two different slots.
pub open spec fn parents_unique(nodes: Seq<Node>) -> bool {
    forall|p1: int, m1: int, p2: int, m2: int|
        valid_slot(nodes, p1, m1) && valid_slot(nodes, p2, m2)
            && #[trigger] slot_child(nodes, p1, m1) == #[trigger] slot_child(nodes, p2, m2)
            ==> p1 == p2 && m1 == m2
}

/// The BK invariant: every entry in the subtree hanging off a child slot
/// is at exactly that slot's distance from the slot's own node.
pub open spec fn slot_metric_ok(nodes: Seq<Node>, p: int, m: int) -> bool {
    forall|j: int|
        #[trigger] subtree(nodes, slot_child(nodes, p, m)).contains(j)
            ==> lev(desc_at(nodes, j), desc_at(nodes, p)) == slot_key(nodes, p, m)
}

/// All distance keys hold, tree-wide.
pub open spec fn metric_ok(nodes: Seq<Node>) -> bool {
    forall|p: int, m: int| valid_slot(nodes, p, m) ==> #[trigger] slot_metric_ok(nodes, p, m)
}

/// The structural part of well-formedness: sound edges, distinct keys,
/// unique parents, true distance keys.
pub open spec fn wf_arena(nodes: Seq<Node>) -> bool {
    &&& edges_forward(nodes)
    &&& keys_distinct(nodes)
    &&& parents_unique(nodes)
    &&& metric_ok(nodes)
}

impl BkTree {
    /// Well-formed: a sound arena in which every node hangs off the root.
    pub open spec fn wf(&self) -> bool {
        &&& wf_arena(self.nodes@)
        &&& forall|j: int|
            0 <= j < self.nodes@.len() ==> #[trigger] subtree(self.nodes@, 0).contains(j)
    }
}

/// A subtree contains its own root.
pub proof fn lemma_subtree_self(nodes: Seq<Node>, i: int)
    requires
        0 <= i < nodes.len(),
    ensures
        subtree(nodes, i).contains(i),
{
}

/// Subtree members lie between the root of the subtree and the end of the
/// arena; members contributed by children lie strictly past the node.
pub proof fn lemma_kids_bounds(nodes: Seq<Node>, i: int, m: int)
    ensures
        forall|x: int| #[trigger] kids_below(nodes, i, m).contains(x) ==> i < x < nodes.len(),
    decreases nodes.len() - i, m, 0int,
{
    if !(m <= 0 || i < 0 || i >= nodes.len()) {
        lemma_kids_bounds(nodes, i, m - 1);
        let c = nodes[i].children@[m - 1].1 as int;
        if i < c < nodes.len() {
            lemma_subtree_bounds(nodes, c);
        }
        assert forall|x: int| #[trigger] kids_below(nodes, i, m).contains(x)
            implies i < x < nodes.len() by {
            if !kids_below(nodes, i, m - 1).contains(x) {
                assert(i < c < nodes.len() && subtree(nodes, c).contains(x));
            }
        }
    }
}

/// See `lemma_kids_bounds`.
pub proof fn lemma_subtree_bounds(nodes: Seq<Node>, i: int)
    ensures
        forall|x: int| #[trigger] subtree(nodes, i).contains(x) ==> i <= x < nodes.len(),
    decreases nodes.len() - i, nodes[i].children@.len() as int, 1int,
{
    if 0 <= i < nodes.len() {
        lemma_kids_bounds(nodes, i, nodes[i].children@.len() as int);
        assert forall|x: int| #[trigger] subtree(nodes, i).contains(x)
            implies i <= x < nodes.len() by {
            if x != i {
                assert(kids_below(nodes, i, nodes[i].children@.len() as int).contains(x));
            }
        }
    } else {
        assert(subtree(nodes, i) =~= Set::<int>::empty());
    }
}

/// Collecting more child subtrees only grows the set.
pub proof fn lemma_kids_mono(nodes: Seq<Node>, i: int, m1: int, m2: int)
    requires
        m1 <= m2,
    ensures
        forall|x: int| #[trigger] kids_below(nodes, i, m1).contains(x)
            ==> kids_below(nodes, i, m2).contains(x),
    decreases m2 - m1,
{
    if m1 < m2 {
        lemma_kids_mono(nodes, i, m1, m2 - 1);
    }
}

/// The subtree hanging off a child slot sits inside the node's own
/// subtree.
pub proof fn lemma_slot_subtree(nodes: Seq<Node>, p: int, m: int)
    requires
        valid_slot(nodes, p, m),
        p < slot_child(nodes, p, m) < nodes.len(),
    ensures
        forall|x: int| #[trigger] subtree(nodes, slot_child(nodes, p, m)).contains(x)
            ==> subtree(nodes, p).contains(x),
{
    let c = slot_child(nodes, p, m);
    assert forall|x: int| #[trigger] subtree(nodes, c).contains(x)
        implies subtree(nodes, p).contains(x) by {
        assert(kids_below(nodes, p, m + 1).contains(x));
        lemma_kids_mono(nodes, p, m + 1, nodes[p].children@.len() as int);
    }
}

/// A member of the collected child subtrees comes from some child slot.
pub proof fn lemma_kids_member(nodes: Seq<Node>, i: int, m: int, x: int)
    requires
        kids_below(nodes, i, m).contains(x),
        m <= nodes[i].children@.len(),
    ensures
        exists|m2: int|
            0 <= m2 < m && valid_slot(nodes, i, m2) && i < slot_child(nodes, i, m2) < nodes.len()
                && #[trigger] subtree(nodes, slot_child(nodes, i, m2)).contains(x),
    decreases m,
{
    if m <= 0 || i < 0 || i >= nodes.len() {
        assert(false);
    } else {
        let c = nodes[i].children@[m - 1].1 as int;
        if i < c < nodes.len() && subtree(nodes, c).contains(x) {
            assert(slot_child(nodes, i, m - 1) == c);
            assert(subtree(nodes, slot_child(nodes, i, m - 1)).contains(x));
        } else {
            lemma_kids_member(nodes, i, m - 1, x);
        }
    }
}

/// A strict member of a subtree comes from one of the root's child slots.
pub proof fn lemma_subtree_member(nodes: Seq<Node>, i: int, x: int)
    requires
        subtree(nodes, i).contains(x),
        x != i,
    ensures
        exists|m: int|
            valid_slot(nodes, i, m) && i < slot_child(nodes, i, m) < nodes.len()
                && #[trigger] subtree(nodes, slot_child(nodes, i, m)).contains(x),
{
    lemma_kids_member(nodes, i, nodes[i].children@.len() as int, x);
}

/// A node with no child slots forms a singleton subtree.
pub proof fn lemma_subtree_leaf(nodes: Seq<Node>, i: int)
    requires
        0 <= i < nodes.len(),
        nodes[i].children@.len() == 0,
    ensures
        subtree(nodes, i) =~= set![i],
{
}

/// Walking one step up: if `x` sits strictly inside the subtree of `y`,
/// so does `x`'s parent.
pub proof fn lemma_parent_in_subtree(nodes: Seq<Node>, y: int, x: int, p: int, m: int)
    requires
        parents_unique(nodes),
        subtree(nodes, y).contains(x),
        x != y,
        valid_slot(nodes, p, m),
        slot_child(nodes, p, m) == x,
    ensures
        subtree(nodes, y).contains(p),
    decreases nodes.len() - y,
{
    lemma_subtree_bounds(nodes, y);
    lemma_subtree_member(nodes, y, x);
    let m2 = choose|m2: int|
        valid_slot(nodes, y, m2) && y < slot_child(nodes, y, m2) < nodes.len()
            && #[trigger] subtree(nodes, slot_child(nodes, y, m2)).contains(x);
    let c2 = slot_child(nodes, y, m2);
    if c2 == x {
        assert(p == y && m == m2);
        lemma_subtree_self(nodes, y);
    } else {
        lemma_parent_in_subtree(nodes, c2, x, p, m);
        lemma_slot_subtree(nodes, y, m2);
    }
}

/// How one insertion reshapes the arena: node `cur` gains one final child
/// slot pointing at `l`, the index of the new, childless node; every other
/// node keeps its entry and children.
pub open spec fn extend_shape(n1: Seq<Node>, n2: Seq<Node>, cur: int, l: int) -> bool {
    &&& 0 <= cur < n1.len()
    &&& l == n1.len()
    &&& n2.len() == n1.len() + 1
    &&& forall|p: int| 0 <= p < n1.len() ==> desc_at(n2, p) == #[trigger] desc_at(n1, p)
    &&& forall|p: int| 0 <= p < n1.len() ==> #[trigger] n2[p].entry@ == n1[p].entry@
    &&& forall|p: int|
        0 <= p < n1.len() && p != cur ==> #[trigger] n2[p].children@ == n1[p].children@
    &&& n2[cur].children@.len() == n1[cur].children@.len() + 1
    &&& n2[cur].children@.drop_last() == n1[cur].children@
    &&& slot_child(n2, cur, n1[cur].children@.len() as int) == l
    &&& n2[l].children@.len() == 0
}

/// After an insertion under `cur`, the collected child subtrees of any
/// old node gain exactly the new index `l`, and only where they already
/// contained `cur`.
pub proof fn lemma_extend_kids(n1: Seq<Node>, n2: Seq<Node>, cur: int, l: int, j: int, m: int)
    requires
        extend_shape(n1, n2, cur, l),
        edges_forward(n1),
        0 <= j < n1.len(),
        0 <= m <= n1[j].children@.len(),
    ensures
        kids_below(n2, j, m) =~= kids_below(n1, j, m).union(
            if kids_below(n1, j, m).contains(cur) {
                set![l]
            } else {
                Set::empty()
            },
        ),
    decreases n1.len() - j, m, 0int,
{
    if m > 0 {
        lemma_extend_kids(n1, n2, cur, l, j, m - 1);
        assert(valid_slot(n1, j, m - 1));
        let c = slot_child(n1, j, m - 1);
        assert(j < c < n1.len());
        assert(n2[j].children@[m - 1] == n1[j].children@[m - 1]) by {
            if j == cur {
                assert(n2[j].children@.drop_last()[m - 1] == n2[j].children@[m - 1]);
            }
        }
        lemma_extend_node(n1, n2, cur, l, c);
    }
}

/// After an insertion under `cur`, the subtree of any old node gains
/// exactly the new index `l`, and only where it already contained `cur`.
pub proof fn lemma_extend_node(n1: Seq<Node>, n2: Seq<Node>, cur: int, l: int, j: int)
    requires
        extend_shape(n1, n2, cur, l),
        edges_forward(n1),
        0 <= j < n1.len(),
    ensures
        subtree(n2, j) =~= subtree(n1, j).union(
            if subtree(n1, j).contains(cur) {
                set![l]
            } else {
                Set::empty()
            },
        ),
    decreases n1.len() - j, n1[j].children@.len() as int, 1int,
{
    let clen = n1[j].children@.len() as int;
    lemma_extend_kids(n1, n2, cur, l, j, clen);
    lemma_kids_bounds(n1, j, clen);
    if j == cur {
        assert(n2[j].children@.len() as int == clen + 1);
        assert(subtree(n2, l) =~= set![l]) by {
            lemma_subtree_leaf(n2, l);
        }
        assert(kids_below(n2, j, clen + 1) =~= kids_below(n2, j, clen).union(set![l])) by {
            assert(slot_child(n2, j, clen) == l);
            assert(cur < l < n2.len());
        }
        lemma_subtree_self(n1, cur);
    } else {
        assert(n2[j].children@ == n1[j].children@);
    }
}

/// The new entry's description is at the right distance for every slot
/// whose subtree contains `i`: attaching it anywhere under `i` keeps all
/// existing distance keys true.
pub open spec fn anc_ok(nodes: Seq<Node>, i: int, q: Seq<char>) -> bool {
    forall|p: int, m: int|
        valid_slot(nodes, p, m) && #[trigger] subtree(nodes, slot_child(nodes, p, m)).contains(i)
            ==> lev(q, desc_at(nodes, p)) == slot_key(nodes, p, m)
}


/// The views of a dictionary of entries, in dictionary order.
pub open spec fn views_of(entries: Seq<EmojiPair>) -> Seq<PairView> {
    entries.map_values(|e: EmojiPair| e@)
}

/// A mutable reference to one arena node.
fn node_mut(nodes: &mut Vec<Node>, i: usize) -> (node: &mut Node)
    requires
        i < old(nodes)@.len(),
    ensures
        *node == old(nodes)@[i as int],
        final(nodes)@ == old(nodes)@.update(i as int, *final(node)),
{
    &mut nodes[i]
}

impl BkTree {
    /// The empty index: every lookup misses.
    pub fn new() -> (r: BkTree)
        ensures
            r.wf(),
            r@ == Seq::<PairView>::empty(),
    {
        let r = BkTree { nodes: Vec::new() };
        proof {
            assert(r@ =~= Seq::<PairView>::empty());
        }
        r
    }

    /// Insert one entry: walk down along matching distance keys and attach
    /// a new leaf where the key is free. Whatever shape the walk gives the
    /// tree, the entry lands at the end of the dictionary view.
    pub fn add(&mut self, entry: EmojiPair)
        requires
            old(self).wf(),
        ensures
            final(self).wf(),
            final(self)@ == old(self)@.push(entry@),
    {
        let ghost e = entry@;
        let q = chars_of(entry.description.as_str());
        if self.nodes.len() == 0 {
            self.nodes.push(Node { entry, children: Vec::new() });
            proof {
                let n2 = self.nodes@;
                lemma_subtree_leaf(n2, 0);
                assert(self@ =~= old(self)@.push(e));
            }
            return;
        }
        let mut cur: usize = 0;
        let name0 = chars_of(self.nodes[0].entry.description.as_str());
        let mut d = levenshtein(&q, &name0);
        proof {
            assert forall|p: int, m: int|
                valid_slot(self.nodes@, p, m)
                    && #[trigger] subtree(self.nodes@, slot_child(self.nodes@, p, m)).contains(0)
                implies lev(q@, desc_at(self.nodes@, p)) == slot_key(self.nodes@, p, m) by {
                lemma_subtree_bounds(self.nodes@, slot_child(self.nodes@, p, m));
            }
        }
        loop
            invariant
                self.nodes@ == old(self).nodes@,
                old(self).wf(),
                old(self).nodes@.len() > 0,
                q@ == e.description,
                entry@ == e,
                cur < self.nodes@.len(),
                d as nat == lev(q@, desc_at(self.nodes@, cur as int)),
                anc_ok(self.nodes@, cur as int, q@),
            decreases self.nodes@.len() - cur,
        {
            let mut m: usize = 0;
            let mut next: usize = 0;
            let mut found: bool = false;
            let ghost mut m_found: int = 0;
            while m < self.nodes[cur].children.len()
                invariant
                    cur < self.nodes@.len(),
                    m <= self.nodes@[cur as int].children@.len(),
                    !found ==> forall|m2: int|
                        0 <= m2 < m ==> #[trigger] slot_key(self.nodes@, cur as int, m2)
                            != d as int,
                    found ==> valid_slot(self.nodes@, cur as int, m_found)
                        && slot_key(self.nodes@, cur as int, m_found) == d as int
                        && slot_child(self.nodes@, cur as int, m_found) == next as int,
                decreases self.nodes@[cur as int].children@.len() - m,
            {
                let node = &self.nodes[cur];
                let (k, c) = node.children[m];
                if !found && k == d {
                    found = true;
                    next = c;
                    proof {
                        m_found = m as int;
                    }
                }
                m += 1;
            }
            if found {
                proof {
                    let n = self.nodes@;
                    let ci = next as int;
                    let curi = cur as int;
                    assert(curi < ci < n.len());
                    assert forall|p: int, mm: int|
                        valid_slot(n, p, mm)
                            && #[trigger] subtree(n, slot_child(n, p, mm)).contains(ci)
                        implies lev(q@, desc_at(n, p)) == slot_key(n, p, mm) by {
                        let cp = slot_child(n, p, mm);
                        if !subtree(n, cp).contains(curi) {
                            if ci != cp {
                                lemma_parent_in_subtree(n, cp, ci, curi, m_found);
                                assert(false);
                            }
                            assert(slot_child(n, p, mm) == slot_child(n, curi, m_found));
                            assert(p == curi && mm == m_found);
                        }
                    }
                    assert(slot_metric_ok(n, curi, m_found));
                    lemma_subtree_self(n, ci);
                    assert(lev(desc_at(n, ci), desc_at(n, curi)) == d as int);
                }
                cur = next;
                let name = chars_of(self.nodes[cur].entry.description.as_str());
                d = levenshtein(&q, &name);
            } else {
                let l = self.nodes.len();
                let ghost n1 = self.nodes@;
                proof {
                    assert(m == n1[cur as int].children@.len());
                    assert(forall|m2: int|
                        0 <= m2 < n1[cur as int].children@.len()
                            ==> #[trigger] slot_key(n1, cur as int, m2) != d as int);
                }
                let node = node_mut(&mut self.nodes, cur);
                node.children.push((d, l));
                self.nodes.push(Node { entry, children: Vec::new() });
                proof {
                    let n2 = self.nodes@;
                    let curi = cur as int;
                    let li = l as int;
                    assert(n2[curi].children@.drop_last() =~= n1[curi].children@);
                    assert(extend_shape(n1, n2, curi, li));
                    lemma_subtree_leaf(n2, li);

                    // every old subtree gains exactly the new leaf, where
                    // it contained the attach point
                    assert forall|j: int| 0 <= j < n1.len() implies #[trigger] subtree(n2, j)
                        =~= subtree(n1, j).union(
                        if subtree(n1, j).contains(curi) {
                            set![li]
                        } else {
                            Set::empty()
                        },
                    ) by {
                        lemma_extend_node(n1, n2, curi, li, j);
                    }

                    // edges still point forward
                    assert forall|p: int, mm: int| valid_slot(n2, p, mm)
                        implies p < #[trigger] slot_child(n2, p, mm) < n2.len() by {
                        if p == curi && mm == n1[curi].children@.len() {
                        } else {
                            assert(valid_slot(n1, p, mm));
                            assert(slot_child(n2, p, mm) == slot_child(n1, p, mm));
                        }
                    }

                    // keys still distinct within each node
                    assert forall|p: int, m1: int, m2: int|
                        valid_slot(n2, p, m1) && valid_slot(n2, p, m2) && m1 != m2
                        implies #[trigger] slot_key(n2, p, m1) != #[trigger] slot_key(
                        n2,
                        p,
                        m2,
                    ) by {
                        if p == curi {
                            let fresh = n1[curi].children@.len() as int;
                            if m1 != fresh && m2 != fresh {
                                assert(slot_key(n2, p, m1) == slot_key(n1, p, m1));
                                assert(slot_key(n2, p, m2) == slot_key(n1, p, m2));
                            } else if m1 == fresh {
                                assert(slot_key(n2, p, m2) == slot_key(n1, p, m2));
                                assert(slot_key(n1, p, m2) != d as int);
                            } else {
                                assert(slot_key(n2, p, m1) == slot_key(n1, p, m1));
                                assert(slot_key(n1, p, m1) != d as int);
                            }
                        } else {
                            assert(slot_key(n2, p, m1) == slot_key(n1, p, m1));
                            assert(slot_key(n2, p, m2) == slot_key(n1, p, m2));
                        }
                    }

                    // parents still unique
                    assert forall|p1: int, m1: int, p2: int, m2: int|
                        valid_slot(n2, p1, m1) && valid_slot(n2, p2, m2)
                            && #[trigger] slot_child(n2, p1, m1) == #[trigger] slot_child(
                            n2,
                            p2,
                            m2,
                        )
                        implies p1 == p2 && m1 == m2 by {
                        let fresh = n1[curi].children@.len() as int;
                        if !(p1 == curi && m1 == fresh) && !(p2 == curi && m2 == fresh) {
                            assert(valid_slot(n1, p1, m1) && valid_slot(n1, p2, m2));
                            assert(slot_child(n2, p1, m1) == slot_child(n1, p1, m1));
                            assert(slot_child(n2, p2, m2) == slot_child(n1, p2, m2));
                        } else if p1 == curi && m1 == fresh {
                            if !(p2 == curi && m2 == fresh) {
                                assert(valid_slot(n1, p2, m2));
                                assert(slot_child(n1, p2, m2) < n1.len());
                                assert(slot_child(n2, p2, m2) == slot_child(n1, p2, m2));
                                assert(false);
                            }
                        } else {
                            assert(valid_slot(n1, p1, m1));
                            assert(slot_child(n1, p1, m1) < n1.len());
                            assert(slot_child(n2, p1, m1) == slot_child(n1, p1, m1));
                            assert(false);
                        }
                    }

                    // every distance key still true
                    assert forall|p: int, mm: int| valid_slot(n2, p, mm)
                        implies #[trigger] slot_metric_ok(n2, p, mm) by {
                        let fresh = n1[curi].children@.len() as int;
                        if p == curi && mm == fresh {
                            assert forall|j: int|
                                #[trigger] subtree(n2, slot_child(n2, p, mm)).contains(j)
                                implies lev(desc_at(n2, j), desc_at(n2, p)) == slot_key(
                                n2,
                                p,
                                mm,
                            ) by {
                                assert(j == li);
                                assert(desc_at(n2, li) == q@);
                            }
                        } else {
                            assert(valid_slot(n1, p, mm));
                            assert(slot_child(n2, p, mm) == slot_child(n1, p, mm));
                            assert(slot_key(n2, p, mm) == slot_key(n1, p, mm));
                            let cp = slot_child(n1, p, mm);
                            assert(slot_metric_ok(n1, p, mm));
                            assert forall|j: int| #[trigger] subtree(n2, cp).contains(j)
                                implies lev(desc_at(n2, j), desc_at(n2, p)) == slot_key(
                                n1,
                                p,
                                mm,
                            ) by {
                                if j == li && !subtree(n1, cp).contains(j) {
                                    assert(subtree(n1, cp).contains(curi));
                                    assert(desc_at(n2, li) == q@);
                                } else {
                                    assert(subtree(n1, cp).contains(j));
                                    lemma_subtree_bounds(n1, cp);
                                }
                            }
                        }
                    }

                    // everything still hangs off the root
                    assert forall|j: int| 0 <= j < n2.len()
                        implies #[trigger] subtree(n2, 0).contains(j) by {
                        assert(subtree(n1, 0).contains(curi));
                        if j < li {
                            assert(subtree(n1, 0).contains(j));
                        }
                    }

                    assert(self@ =~= old(self)@.push(e));
                }
                return;
            }
        }
    }

    /// Build the index over a dictionary, inserting in dictionary order.
    /// The view is the dictionary itself.
    pub fn build(entries: &Vec<EmojiPair>) -> (r: BkTree)
        ensures
            r.wf(),
            r@ == views_of(entries@),
    {
        let mut r = BkTree::new();
        let mut i: usize = 0;
        while i < entries.len()
            invariant
                i <= entries@.len(),
                r.wf(),
                r@ == views_of(entries@.take(i as int)),
            decreases entries@.len() - i,
        {
            let p = entries[i].duplicate();
            r.add(p);
            proof {
                assert(views_of(entries@.take(i as int + 1)) =~= views_of(
                    entries@.take(i as int),
                ).push(entries@[i as int]@));
            }
            i += 1;
        }
        proof {
            assert(entries@.take(entries@.len() as int) =~= entries@);
        }
        r
    }
}


/// The hits a brute-force scan of the dictionary would yield: every entry
/// within the tolerance of the query, with its distance, in dictionary
/// order.
pub open spec fn spec_hits(dict: Seq<PairView>, q: Seq<char>, tolerance: u32) -> Seq<(u32, PairView)>
    decreases dict.len(),
{
    if dict.len() == 0 {
        Seq::empty()
    } else {
        let rest = spec_hits(dict.drop_last(), q, tolerance);
        if lev(q, dict.last().description) <= tolerance {
            rest.push((lev(q, dict.last().description) as u32, dict.last()))
        } else {
            rest
        }
    }
}

/// The view of an executable hit list.
pub open spec fn hits_view(hits: Seq<(u32, EmojiPair)>) -> Seq<(u32, PairView)> {
    hits.map_values(|h: (u32, EmojiPair)| (h.0, h.1@))
}

/// The mathematical value of an optional entry.
pub open spec fn opt_pair_view(r: Option<EmojiPair>) -> Option<PairView> {
    match r {
        Some(p) => Some(p@),
        None => None,
    }
}

/// What exact lookup promises: a found entry is a dictionary entry with
/// the queried description; a miss means no dictionary entry has it.
pub open spec fn exact_found(dict: Seq<PairView>, description: Seq<char>, r: Option<
    PairView,
>) -> bool {
    match r {
        Some(p) => dict.contains(p) && p.description == description,
        None => forall|j: int|
            0 <= j < dict.len() ==> (#[trigger] dict[j]).description != description,
    }
}

/// No two dictionary entries share a description.
pub open spec fn names_distinct(dict: Seq<PairView>) -> bool {
    forall|i: int, j: int|
        0 <= i < j < dict.len() ==> (#[trigger] dict[i]).description != (
        #[trigger] dict[j]).description
}

/// Exactness: when descriptions are unique, looking up the description of
/// a dictionary entry finds exactly that entry, its emoji included.
pub proof fn lemma_find_exact_exactness(dict: Seq<PairView>, e: PairView, r: Option<PairView>)
    requires
        names_distinct(dict),
        dict.contains(e),
        exact_found(dict, e.description, r),
    ensures
        r == Some(e),
{
    let i = choose|i: int| 0 <= i < dict.len() && dict[i] == e;
    match r {
        None => {
            assert(dict[i].description == e.description);
            assert(false);
        },
        Some(p) => {
            let j = choose|j: int| 0 <= j < dict.len() && dict[j] == p;
            assert(dict.contains(p));
            if i != j {
                assert(dict[i].description != dict[j].description || dict[j].description != dict[
                    i].description);
                assert(false);
            }
        },
    }
}

impl BkTree {
    /// Exact lookup: walk the tree along matching distance keys; distance
    /// zero is a hit. An entry comes back iff the dictionary holds one
    /// with the queried description.
    pub fn find_exact(&self, description: &str) -> (r: Option<EmojiPair>)
        requires
            self.wf(),
        ensures
            exact_found(self@, description@, opt_pair_view(r)),
    {
        if self.nodes.len() == 0 {
            return None;
        }
        let q = chars_of(description);
        let mut cur: usize = 0;
        let name0 = chars_of(self.nodes[0].entry.description.as_str());
        let mut d = levenshtein(&q, &name0);
        loop
            invariant
                self.wf(),
                q@ == description@,
                cur < self.nodes@.len(),
                d as nat == lev(q@, desc_at(self.nodes@, cur as int)),
                forall|j: int|
                    0 <= j < self.nodes@.len() && desc_at(self.nodes@, j) == q@
                        ==> #[trigger] subtree(self.nodes@, cur as int).contains(j),
            decreases self.nodes@.len() - cur,
        {
            if d == 0 {
                proof {
                    lemma_lev_zero(q@, desc_at(self.nodes@, cur as int));
                }
                let p = self.nodes[cur].entry.duplicate();
                proof {
                    assert(self@[cur as int] == p@);
                    assert(self@.contains(p@));
                }
                return Some(p);
            }
            let mut m: usize = 0;
            let mut next: usize = 0;
            let mut found: bool = false;
            let ghost mut m_found: int = 0;
            while m < self.nodes[cur].children.len()
                invariant
                    cur < self.nodes@.len(),
                    m <= self.nodes@[cur as int].children@.len(),
                    !found ==> forall|m2: int|
                        0 <= m2 < m ==> #[trigger] slot_key(self.nodes@, cur as int, m2)
                            != d as int,
                    found ==> valid_slot(self.nodes@, cur as int, m_found)
                        && slot_key(self.nodes@, cur as int, m_found) == d as int
                        && slot_child(self.nodes@, cur as int, m_found) == next as int,
                decreases self.nodes@[cur as int].children@.len() - m,
            {
                let node = &self.nodes[cur];
                let (k, c) = node.children[m];
                if !found && k == d {
                    found = true;
                    next = c;
                    proof {
                        m_found = m as int;
                    }
                }
                m += 1;
            }
            let ghost n = self.nodes@;
            let ghost curi = cur as int;
            proof {
                lemma_lev_self(q@);
                assert forall|j: int|
                    0 <= j < n.len() && desc_at(n, j) == q@ && j != curi
                    implies exists|mj: int|
                        valid_slot(n, curi, mj) && #[trigger] slot_key(n, curi, mj) == d as int
                            && subtree(n, slot_child(n, curi, mj)).contains(j) by {
                    assert(subtree(n, curi).contains(j));
                    lemma_subtree_member(n, curi, j);
                    let mj = choose|mj: int|
                        valid_slot(n, curi, mj) && curi < slot_child(n, curi, mj) < n.len()
                            && #[trigger] subtree(n, slot_child(n, curi, mj)).contains(j);
                    assert(slot_metric_ok(n, curi, mj));
                    assert(lev(desc_at(n, j), desc_at(n, curi)) == slot_key(n, curi, mj));
                    assert(slot_key(n, curi, mj) == d as int);
                }
            }
            if found {
                proof {
                    assert forall|j: int|
                        0 <= j < n.len() && desc_at(n, j) == q@
                        implies #[trigger] subtree(n, next as int).contains(j) by {
                        assert(j != curi);
                        let mj = choose|mj: int|
                            valid_slot(n, curi, mj) && #[trigger] slot_key(n, curi, mj)
                                == d as int && subtree(n, slot_child(n, curi, mj)).contains(j);
                        assert(mj == m_found);
                    }
                }
                cur = next;
                let name = chars_of(self.nodes[cur].entry.description.as_str());
                d = levenshtein(&q, &name);
            } else {
                proof {
                    assert forall|j: int| 0 <= j < self@.len()
                        implies (#[trigger] self@[j]).description != description@ by {
                        if desc_at(n, j) == q@ {
                            assert(j != curi);
                            let mj = choose|mj: int|
                                valid_slot(n, curi, mj) && #[trigger] slot_key(n, curi, mj)
                                    == d as int
                                    && subtree(n, slot_child(n, curi, mj)).contains(j);
                            assert(false);
                        }
                        assert(self@[j].description == desc_at(n, j));
                    }
                }
                return None;
            }
        }
    }

    /// The pruned depth-first search under `cur`: it records the distance
    /// of every subtree entry within the tolerance and touches nothing
    /// else. Children are descended only where the triangle inequality
    /// still allows a match below them.
    fn search_from(&self, cur: usize, q: &Vec<char>, tolerance: u32, marks: &mut Vec<Option<u32>>)
        requires
            self.wf(),
            cur < self.nodes@.len(),
            old(marks)@.len() == self.nodes@.len(),
        ensures
            final(marks)@.len() == self.nodes@.len(),
            forall|j: int|
                0 <= j < self.nodes@.len() ==> final(marks)@[j] == if subtree(
                    self.nodes@,
                    cur as int,
                ).contains(j) && lev(q@, desc_at(self.nodes@, j)) <= tolerance {
                    Some(lev(q@, desc_at(self.nodes@, j)) as u32)
                } else {
                    old(marks)@[j]
                },
        decreases self.nodes@.len() - cur,
    {
        let name = chars_of(self.nodes[cur].entry.description.as_str());
        let d = levenshtein(q, &name);
        let tol = tolerance as usize;
        if d <= tol {
            marks.set(cur, Some(d as u32));
        }
        let ghost ns = self.nodes@;
        let ghost curi = cur as int;
        proof {
            lemma_subtree_self(ns, curi);
        }
        let mut m: usize = 0;
        while m < self.nodes[cur].children.len()
            invariant
                self.wf(),
                ns == self.nodes@,
                curi == cur as int,
                cur < self.nodes@.len(),
                tol == tolerance as usize,
                d as nat == lev(q@, desc_at(ns, curi)),
                m <= ns[curi].children@.len(),
                marks@.len() == ns.len(),
                forall|j: int|
                    0 <= j < ns.len() ==> marks@[j] == if kids_below(ns, curi, m as int).insert(
                        curi,
                    ).contains(j) && lev(q@, desc_at(ns, j)) <= tolerance {
                        Some(lev(q@, desc_at(ns, j)) as u32)
                    } else {
                        old(marks)@[j]
                    },
            decreases ns[curi].children@.len() - m,
        {
            let node = &self.nodes[cur];
            let (k, c) = node.children[m];
            proof {
                assert(valid_slot(ns, curi, m as int));
                assert(slot_child(ns, curi, m as int) == c as int);
                assert(curi < (c as int) < ns.len());
                assert(kids_below(ns, curi, m as int + 1) =~= kids_below(ns, curi, m as int)
                    .union(subtree(ns, c as int)));
            }
            let within = if k >= d {
                k - d <= tol
            } else {
                d - k <= tol
            };
            if within {
                let ghost before = marks@;
                self.search_from(c, q, tolerance, marks);
                proof {
                    assert forall|j: int| 0 <= j < ns.len() implies marks@[j] == if kids_below(
                        ns,
                        curi,
                        m as int + 1,
                    ).insert(curi).contains(j) && lev(q@, desc_at(ns, j)) <= tolerance {
                        Some(lev(q@, desc_at(ns, j)) as u32)
                    } else {
                        old(marks)@[j]
                    } by {
                        if !subtree(ns, c as int).contains(j) {
                            assert(marks@[j] == before[j]);
                        }
                    }
                }
            } else {
                proof {
                    assert(slot_metric_ok(ns, curi, m as int));
                    assert forall|j: int| #[trigger] subtree(ns, c as int).contains(j)
                        implies !(lev(q@, desc_at(ns, j)) <= tolerance) by {
                        assert(lev(desc_at(ns, j), desc_at(ns, curi)) == k as int);
                        lemma_lev_triangle(q@, desc_at(ns, j), desc_at(ns, curi));
                        lemma_lev_triangle(desc_at(ns, j), q@, desc_at(ns, curi));
                        lemma_lev_sym(desc_at(ns, j), q@);
                        lemma_subtree_bounds(ns, c as int);
                    }
                }
            }
            m += 1;
        }
        proof {
            assert(subtree(ns, curi) =~= kids_below(
                ns,
                curi,
                ns[curi].children@.len() as int,
            ).insert(curi));
        }
    }

    /// Bounded fuzzy lookup: exactly the entries a brute-force scan with
    /// the same tolerance would keep, each with its distance, in
    /// dictionary order.
    pub fn find_within(&self, description: &str, tolerance: u32) -> (r: Vec<(u32, EmojiPair)>)
        requires
            self.wf(),
        ensures
            hits_view(r@) == spec_hits(self@, description@, tolerance),
    {
        let q = chars_of(description);
        self.find_within_chars(&q, tolerance)
    }

    /// `find_within` for a query already split into characters.
    pub fn find_within_chars(&self, query: &Vec<char>, tolerance: u32) -> (r: Vec<
        (u32, EmojiPair),
    >)
        requires
            self.wf(),
        ensures
            hits_view(r@) == spec_hits(self@, query@, tolerance),
    {
        let n = self.nodes.len();
        let mut marks: Vec<Option<u32>> = Vec::new();
        while marks.len() < n
            invariant
                marks@.len() <= n,
                forall|j: int| 0 <= j < marks@.len() ==> marks@[j] is None,
            decreases n - marks.len(),
        {
            marks.push(None);
        }
        if n > 0 {
            self.search_from(0, query, tolerance, &mut marks);
        }
        proof {
            assert forall|j: int| 0 <= j < self.nodes@.len() implies marks@[j] == if lev(
                query@,
                desc_at(self.nodes@, j),
            ) <= tolerance {
                Some(lev(query@, desc_at(self.nodes@, j)) as u32)
            } else {
                None::<u32>
            } by {
                assert(subtree(self.nodes@, 0).contains(j));
            }
        }
        let mut r: Vec<(u32, EmojiPair)> = Vec::new();
        let mut idx: usize = 0;
        while idx < n
            invariant
                n == self.nodes@.len(),
                idx <= n,
                self.wf(),
                marks@.len() == n,
                forall|j: int| 0 <= j < n ==> marks@[j] == if lev(
                    query@,
                    desc_at(self.nodes@, j),
                ) <= tolerance {
                    Some(lev(query@, desc_at(self.nodes@, j)) as u32)
                } else {
                    None::<u32>
                },
                hits_view(r@) == spec_hits(self@.take(idx as int), query@, tolerance),
            decreases n - idx,
        {
            let ghost prefix = self@.take(idx as int);
            proof {
                assert(self@.take(idx as int + 1).drop_last() =~= prefix);
                assert(self@.take(idx as int + 1).last() == self@[idx as int]);
                assert(self@[idx as int] == self.nodes@[idx as int].entry@);
            }
            let mk = marks[idx];
            match mk {
                Some(dd) => {
                    let p = self.nodes[idx].entry.duplicate();
                    r.push((dd, p));
                    proof {
                        assert(hits_view(r@) =~= spec_hits(
                            self@.take(idx as int + 1),
                            query@,
                            tolerance,
                        ));
                    }
                },
                None => {
                    proof {
                        assert(hits_view(r@) =~= spec_hits(
                            self@.take(idx as int + 1),
                            query@,
                            tolerance,
                        ));
                    }
                },
            }
            idx += 1;
        }
        proof {
            assert(self@.take(n as int) =~= self@);
        }
        r
    }
}

} // verus!
