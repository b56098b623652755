//! A BK-tree: a rooted tree holding one string per node, where each
//! child edge is keyed by the exact edit distance between the child's
//! string and its parent's string. That invariant, together with the
//! triangle inequality of the metric, lets a search prune whole
//! subtrees while still finding every stored string within tolerance.

use vstd::prelude::*;

use crate::metric::{lev, distance, lemma_lev_self, lemma_lev_sym, lemma_lev_triangle, lemma_lev_zero};

verus! {

/// Whether some entry of `rs` reads as the character sequence `v`.
pub open spec fn in_view(rs: Seq<String>, v: Seq<char>) -> bool {
    exists|i: int| 0 <= i < rs.len() && rs[i]@ == v
}

/// The strings of `vals` within `tolerance` of `query`: what a
/// brute-force linear scan over the stored set would keep.
pub open spec fn matching(vals: Set<Seq<char>>, query: Seq<char>, tolerance: nat) -> Set<Seq<char>> {
    vals.filter(|v: Seq<char>| lev(query, v) <= tolerance)
}

/// A string just inserted is owed to a search for itself: it lies in
/// the stored set after the insertion and is within every tolerance of
/// itself, so the search contract forces it into the results.
pub proof fn lemma_insert_then_find(vals: Set<Seq<char>>, s: Seq<char>, tolerance: nat)
    ensures
        matching(vals.insert(s), s, tolerance).contains(s),
{
    lemma_lev_self(s);
}

/// Raising the tolerance only grows the matching set: every string
/// within `t1` of the query is also within `t2` when `t1 <= t2`.
pub proof fn lemma_tolerance_monotone(vals: Set<Seq<char>>, query: Seq<char>, t1: nat, t2: nat)
    requires
        t1 <= t2,
    ensures
        matching(vals, query, t1) <= matching(vals, query, t2),
{
    assert forall|v: Seq<char>| matching(vals, query, t1).contains(v) implies matching(
        vals,
        query,
        t2,
    ).contains(v) by {}
}

/// Inserting the same string twice stores it once: the second
/// insertion leaves the stored set unchanged.
pub proof fn lemma_duplicate_insert(vals: Set<Seq<char>>, s: Seq<char>)
    ensures
        vals.insert(s).insert(s) == vals.insert(s),
{
    assert(vals.insert(s).insert(s) =~= vals.insert(s));
}

/// One node of the tree: a stored string and its children, each keyed
/// by its exact edit distance from this node's string.
pub struct BKNode {
    word: String,
    children: Vec<(usize, Box<BKNode>)>,
}

/// A BK-tree: empty, or rooted at one node.
pub struct BKTree {
    root: Option<Box<BKNode>>,
}

/// The facts tied to one child entry seen from a node whose string is
/// `w`: the key is positive, and every string stored anywhere in that
/// child's subtree lies at exactly that edit distance from `w`.
spec fn child_props(w: Seq<char>, c: (usize, Box<BKNode>)) -> bool {
    &&& c.0 > 0
    &&& forall|v: Seq<char>| #[trigger] (*c.1).values().contains(v) ==> lev(w, v) == c.0
}

impl BKNode {
    /// The stored strings in the subtrees of the first `i` children.
    closed spec fn child_values(self, i: int) -> Set<Seq<char>>
        decreases self, i,
    {
        if 0 < i <= self.children@.len() {
            self.child_values(i - 1).union((*self.children@[i - 1].1).values_rec())
        } else {
            Set::empty()
        }
    }

    /// All strings stored in this subtree.
    closed spec fn values_rec(self) -> Set<Seq<char>>
        decreases self, self.children@.len() + 1,
    {
        self.child_values(self.children@.len() as int).insert(self.word@)
    }

    /// All strings stored in this subtree.
    pub closed spec fn values(self) -> Set<Seq<char>> {
        self.values_rec()
    }

    /// Well-formedness of the first `i` child entries: each child is
    /// itself well-formed, carries `child_props`, and no two of the
    /// keys collide.
    closed spec fn children_wf(self, i: int) -> bool
        decreases self, i,
    {
        !(0 < i <= self.children@.len()) || {
            &&& self.children_wf(i - 1)
            &&& child_props(self.word@, self.children@[i - 1])
            &&& (*self.children@[i - 1].1).wf_rec()
            &&& forall|j: int|
                0 <= j < i - 1 ==> (#[trigger] self.children@[j]).0 != self.children@[i - 1].0
        }
    }

    /// Well-formedness of the whole subtree.
    closed spec fn wf_rec(self) -> bool
        decreases self, self.children@.len() + 1,
    {
        self.children_wf(self.children@.len() as int)
    }

    /// Well-formedness of the whole subtree.
    pub closed spec fn wf(self) -> bool {
        self.wf_rec()
    }

    /// Index of the child entry keyed `d`, if one exists.
    fn find_child(&self, d: usize) -> (r: Option<usize>)
        ensures
            match r {
                Option::Some(j) => j < self.children@.len() && self.children@[j as int].0 == d,
                Option::None => forall|m: int|
                    0 <= m < self.children@.len() ==> (#[trigger] self.children@[m]).0 != d,
            },
    {
        let n = self.children.len();
        let mut j: usize = 0;
        while j < n
            invariant
                j <= n,
                n == self.children@.len(),
                forall|m: int| 0 <= m < j ==> (#[trigger] self.children@[m]).0 != d,
            decreases n - j,
        {
            if self.children[j].0 == d {
                return Some(j);
            }
            j = j + 1;
        }
        None
    }

    /// Adds `word` to this subtree, descending along its distance from
    /// each node on the way; a word already present is left alone, so
    /// the stored set gains at most one element.
    fn insert(&mut self, word: String)
        requires
            old(self).wf(),
        ensures
            final(self).wf(),
            final(self).word@ == old(self).word@,
            final(self).values() == old(self).values().insert(word@),
        decreases *old(self),
    {
        let ghost w = word@;
        let ghost n1 = *old(self);
        let ghost len = n1.children@.len() as int;
        let d = distance(self.word.as_str(), word.as_str());
        if d == 0 {
            proof {
                lemma_lev_zero(n1.word@, w);
                assert(n1.values().contains(w));
                assert(n1.values().insert(w) =~= n1.values());
            }
        } else {
            proof {
                lemma_children_wf_iff(n1, len);
            }
            match self.find_child(d) {
                Some(j) => {
                    let (key, mut child) = self.children.remove(j);
                    let ghost child1 = *child;
                    proof {
                        assert(n1.children@[j as int].1 == child);
                        assert(child_props(n1.word@, n1.children@[j as int]));
                        assert(child1.wf());
                    }
                    (&mut *child).insert(word);
                    let ghost child2 = *child;
                    self.children.insert(j, (key, child));
                    proof {
                        let n2 = *self;
                        assert(n2.children@ =~= n1.children@.update(j as int, (key, child)));
                        assert(n2.word@ == n1.word@);
                        lemma_children_wf_iff(n2, len);
                        // every child entry still carries its facts
                        assert forall|m: int|
                            0 <= m < len implies child_props(n2.word@, #[trigger] n2.children@[m])
                            && (*n2.children@[m].1).wf() by {
                            if m != j {
                                assert(n2.children@[m] == n1.children@[m]);
                            } else {
                                assert(child2.wf());
                                assert forall|v: Seq<char>| #[trigger] child2.values().contains(v)
                                    implies lev(n2.word@, v) == key by {
                                    if v != w {
                                        assert(child1.values().contains(v));
                                    }
                                }
                            }
                        }
                        assert(n2.children_wf(len));
                        assert(n2.wf());
                        // the stored set gained exactly `w`
                        assert forall|v: Seq<char>| #[trigger] n2.child_values(len).contains(v)
                            implies n1.child_values(len).contains(v) || v == w by {
                            lemma_child_values_iff(n2, len, v);
                            lemma_child_values_iff(n1, len, v);
                            let m = choose|m: int|
                                0 <= m < len && (*(#[trigger] n2.children@[m]).1).values().contains(v);
                            if m == j {
                                if v != w {
                                    assert((*(n1.children@[m]).1).values().contains(v));
                                }
                            } else {
                                assert((*(n1.children@[m]).1).values().contains(v));
                            }
                        }
                        assert forall|v: Seq<char>|
                            n1.child_values(len).contains(v) || v == w implies #[trigger] n2.child_values(
                            len).contains(v) by {
                            lemma_child_values_iff(n2, len, v);
                            lemma_child_values_iff(n1, len, v);
                            if n1.child_values(len).contains(v) {
                                let m = choose|m: int|
                                    0 <= m < len && (*(#[trigger] n1.children@[m]).1).values().contains(
                                    v);
                                if m == j {
                                    assert(child2.values().contains(v));
                                    assert((*(n2.children@[m]).1).values().contains(v));
                                } else {
                                    assert((*(n2.children@[m]).1).values().contains(v));
                                }
                            } else {
                                assert(child2.values().contains(w));
                                assert((*(n2.children@[j as int]).1).values().contains(v));
                            }
                        }
                        assert(n2.children@.len() as int == len);
                        assert(n2.values() == n2.child_values(len).insert(n2.word@));
                        assert(n1.values() == n1.child_values(len).insert(n1.word@));
                        assert(n2.values() =~= n1.values().insert(w));
                    }
                }
                None => {
                    let node = Box::new(BKNode::new(word));
                    self.children.push((d, node));
                    proof {
                        let n2 = *self;
                        let len2 = len + 1;
                        assert(n2.children@ =~= n1.children@.push((d, node)));
                        assert(n2.word@ == n1.word@);
                        lemma_children_wf_iff(n2, len2);
                        assert forall|m: int|
                            0 <= m < len2 implies child_props(n2.word@, #[trigger] n2.children@[m])
                            && (*n2.children@[m].1).wf() by {
                            if m < len {
                                assert(n2.children@[m] == n1.children@[m]);
                            } else {
                                assert(n2.children@[m] == (d, node));
                                assert forall|v: Seq<char>| #[trigger] (*node).values().contains(v)
                                    implies lev(n2.word@, v) == d by {
                                    assert(v == w);
                                }
                            }
                        }
                        assert forall|m1: int, m2: int| 0 <= m1 < m2 < len2 implies (
                        #[trigger] n2.children@[m1]).0 != (#[trigger] n2.children@[m2]).0 by {
                            if m2 == len {
                                assert(n2.children@[m1] == n1.children@[m1]);
                            }
                        }
                        assert(n2.children_wf(len2));
                        assert(n2.wf());
                        assert forall|v: Seq<char>| #[trigger] n2.child_values(len2).contains(v)
                            implies n1.child_values(len).contains(v) || v == w by {
                            lemma_child_values_iff(n2, len2, v);
                            lemma_child_values_iff(n1, len, v);
                            let m = choose|m: int|
                                0 <= m < len2 && (*(#[trigger] n2.children@[m]).1).values().contains(
                                v);
                            if m < len {
                                assert((*(n1.children@[m]).1).values().contains(v));
                            }
                        }
                        assert forall|v: Seq<char>|
                            n1.child_values(len).contains(v) || v == w implies #[trigger] n2.child_values(
                            len2).contains(v) by {
                            lemma_child_values_iff(n2, len2, v);
                            lemma_child_values_iff(n1, len, v);
                            if n1.child_values(len).contains(v) {
                                let m = choose|m: int|
                                    0 <= m < len && (*(#[trigger] n1.children@[m]).1).values().contains(
                                    v);
                                assert((*(n2.children@[m]).1).values().contains(v));
                            } else {
                                assert((*(n2.children@[len]).1).values().contains(v));
                            }
                        }
                        assert(n2.children@.len() as int == len2);
                        assert(n2.values() == n2.child_values(len2).insert(n2.word@));
                        assert(n1.values() == n1.child_values(len).insert(n1.word@));
                        assert(n2.values() =~= n1.values().insert(w));
                    }
                }
            }
        }
    }

    /// Appends to `results` every string of this subtree whose distance
    /// from `word` is at most `tolerance`, each exactly once, pruning
    /// every child subtree that the triangle inequality rules out.
    fn search(&self, word: &str, tolerance: usize, results: &mut Vec<String>)
        requires
            self.wf(),
        ensures
            final(results)@.len() >= old(results)@.len(),
            forall|i: int| 0 <= i < old(results)@.len() ==> final(results)@[i] == old(results)@[i],
            forall|i: int|
                old(results)@.len() <= i < final(results)@.len() ==> self.values().contains(
                    (#[trigger] final(results)@[i])@,
                ) && lev(word@, final(results)@[i]@) <= tolerance,
            forall|v: Seq<char>|
                #[trigger] self.values().contains(v) && lev(word@, v) <= tolerance ==> in_view(
                    final(results)@,
                    v,
                ),
            forall|i: int, k: int|
                old(results)@.len() <= i < k < final(results)@.len() ==> (
                #[trigger] final(results)@[i])@ != (#[trigger] final(results)@[k])@,
        decreases *self,
    {
        let ghost q = word@;
        let d = distance(self.word.as_str(), word);
        proof {
            lemma_lev_sym(self.word@, q);
        }
        if d <= tolerance {
            results.push(self.word.clone());
            proof {
                assert(results@[results@.len() - 1]@ == self.word@);
            }
        }
        let n = self.children.len();
        let ghost len = n as int;
        let mut j: usize = 0;
        while j < n
            invariant
                j <= n,
                n == self.children@.len(),
                len == n as int,
                self.wf(),
                d == lev(self.word@, q),
                d == lev(q, self.word@),
                q == word@,
                results@.len() >= old(results)@.len(),
                forall|i: int| 0 <= i < old(results)@.len() ==> results@[i] == old(results)@[i],
                forall|i: int|
                    old(results)@.len() <= i < results@.len() ==> ((#[trigger] results@[i])@
                        == self.word@ || self.child_values(j as int).contains(results@[i]@)) && lev(
                        q,
                        results@[i]@,
                    ) <= tolerance,
                lev(q, self.word@) <= tolerance ==> in_view(results@, self.word@),
                forall|v: Seq<char>|
                    #[trigger] self.child_values(j as int).contains(v) && lev(q, v) <= tolerance
                        ==> in_view(results@, v),
                forall|i: int, k: int|
                    old(results)@.len() <= i < k < results@.len() ==> (#[trigger] results@[i])@ != (
                    #[trigger] results@[k])@,
            decreases n - j,
        {
            proof {
                lemma_children_wf_iff(*self, len);
                assert(child_props(self.word@, self.children@[j as int]));
            }
            let ghost jj = j as int;
            let ghost child = *self.children@[jj].1;
            let ghost key = self.children@[jj].0 as nat;
            let k = self.children[j].0;
            if d.saturating_sub(tolerance) <= k && k.saturating_sub(d) <= tolerance {
                let ghost pre = results@;
                self.children[j].1.search(word, tolerance, results);
                proof {
                    // appended entries are sound for the first j + 1 children
                    assert forall|i: int|
                        old(results)@.len() <= i < results@.len() implies ((
                    #[trigger] results@[i])@ == self.word@ || self.child_values(jj + 1).contains(
                        results@[i]@,
                    )) && lev(q, results@[i]@) <= tolerance by {
                        if i < pre.len() {
                            assert(results@[i] == pre[i]);
                            if pre[i]@ != self.word@ {
                                assert(self.child_values(jj).contains(pre[i]@));
                                assert(self.child_values(jj + 1).contains(pre[i]@));
                            }
                        } else {
                            assert(child.values().contains(results@[i]@));
                            lemma_child_values_iff(*self, jj + 1, results@[i]@);
                        }
                    }
                    // everything matching among the first j + 1 children is present
                    assert forall|v: Seq<char>|
                        #[trigger] self.child_values(jj + 1).contains(v) && lev(q, v) <= tolerance
                        implies in_view(results@, v) by {
                        if self.child_values(jj).contains(v) {
                            let i = choose|i: int| 0 <= i < pre.len() && pre[i]@ == v;
                            assert(results@[i] == pre[i]);
                        } else {
                            assert(child.values().contains(v));
                            lemma_lev_sym(q, v);
                            lemma_lev_sym(v, q);
                            assert(lev(word@, v) <= tolerance);
                        }
                    }
                    // the node's own word stays present
                    if lev(q, self.word@) <= tolerance {
                        let i = choose|i: int| 0 <= i < pre.len() && pre[i]@ == self.word@;
                        assert(results@[i] == pre[i]);
                    }
                    // appended entries stay pairwise distinct
                    assert forall|i: int, k2: int|
                        old(results)@.len() <= i < k2 < results@.len() implies (
                    #[trigger] results@[i])@ != (#[trigger] results@[k2])@ by {
                        if i < pre.len() && k2 >= pre.len() {
                            assert(results@[i] == pre[i]);
                            let vi = results@[i]@;
                            let vk = results@[k2]@;
                            assert(child.values().contains(vk));
                            assert(lev(self.word@, vk) == key);
                            lemma_lev_self(self.word@);
                            if vi == self.word@ {
                                assert(vi != vk);
                            } else {
                                assert(self.child_values(jj).contains(vi));
                                lemma_child_values_iff(*self, jj, vi);
                                let m = choose|m: int|
                                    0 <= m < jj && (*(#[trigger] self.children@[m]).1).values().contains(
                                    vi);
                                assert(child_props(self.word@, self.children@[m]));
                                assert(lev(self.word@, vi) == self.children@[m].0);
                                assert(self.children@[m].0 != self.children@[jj].0);
                            }
                        }
                    }
                }
            } else {
                proof {
                    // pruned: nothing in this child's subtree can match
                    assert forall|v: Seq<char>| #[trigger] child.values().contains(v) implies lev(
                        q,
                        v,
                    ) > tolerance by {
                        assert(lev(self.word@, v) == key);
                        lemma_lev_triangle(self.word@, q, v);
                        lemma_lev_triangle(self.word@, v, q);
                        lemma_lev_sym(v, q);
                    }
                    assert forall|v: Seq<char>|
                        #[trigger] self.child_values(jj + 1).contains(v) && lev(q, v) <= tolerance
                        implies in_view(results@, v) by {
                        if !self.child_values(jj).contains(v) {
                            assert(child.values().contains(v));
                        }
                    }
                    assert forall|i: int|
                        old(results)@.len() <= i < results@.len() implies ((
                    #[trigger] results@[i])@ == self.word@ || self.child_values(jj + 1).contains(
                        results@[i]@,
                    )) && lev(q, results@[i]@) <= tolerance by {
                        if results@[i]@ != self.word@ {
                            assert(self.child_values(jj).contains(results@[i]@));
                        }
                    }
                }
            }
            j = j + 1;
        }
        proof {
            assert(len == self.children@.len() as int);
            assert(self.values() == self.child_values(len).insert(self.word@));
            assert forall|v: Seq<char>|
                #[trigger] self.values().contains(v) && lev(word@, v) <= tolerance implies in_view(
                results@,
                v,
            ) by {
                lemma_lev_sym(q, v);
                lemma_lev_sym(v, q);
                if v != self.word@ {
                    assert(self.child_values(len).contains(v));
                }
            }
        }
    }

    /// Creates a leaf node holding `word`.
    pub fn new(word: String) -> (n: BKNode)
        ensures
            n.wf(),
            n.values() == Set::<Seq<char>>::empty().insert(word@),
    {
        let n = BKNode { word, children: Vec::new() };
        proof {
            assert(n.values() =~= Set::<Seq<char>>::empty().insert(word@));
        }
        n
    }
}

/// `children_wf` spelled out child by child: every child entry carries
/// its facts, and the keys are pairwise distinct.
proof fn lemma_children_wf_iff(n: BKNode, i: int)
    requires
        0 <= i <= n.children@.len(),
    ensures
        n.children_wf(i) <==> ((forall|m: int|
            0 <= m < i ==> child_props(n.word@, #[trigger] n.children@[m]) && (*n.children@[m].1).wf())
            && (forall|m1: int, m2: int|
            0 <= m1 < m2 < i ==> (#[trigger] n.children@[m1]).0 != (#[trigger] n.children@[m2]).0)),
    decreases i,
{
    if i > 0 {
        lemma_children_wf_iff(n, i - 1);
    }
}

/// Membership in the union of the first `i` children's value sets is
/// membership in one of them.
proof fn lemma_child_values_iff(n: BKNode, i: int, v: Seq<char>)
    requires
        0 <= i <= n.children@.len(),
    ensures
        n.child_values(i).contains(v) <==> exists|m: int|
            0 <= m < i && (*(#[trigger] n.children@[m]).1).values().contains(v),
    decreases i,
{
    if i > 0 {
        lemma_child_values_iff(n, i - 1, v);
        if (*n.children@[i - 1].1).values().contains(v) {
            assert((*(n.children@[i - 1]).1).values().contains(v));
        }
    }
}

impl BKTree {
    /// The set of strings stored in the tree.
    pub closed spec fn value_set(self) -> Set<Seq<char>> {
        match self.root {
            Option::None => Set::empty(),
            Option::Some(r) => r.values(),
        }
    }

    /// Well-formedness of the tree.
    pub closed spec fn wf(self) -> bool {
        match self.root {
            Option::None => true,
            Option::Some(r) => r.wf(),
        }
    }

    /// Creates an empty tree.
    pub fn new() -> (t: BKTree)
        ensures
            t.wf(),
            t@ == Set::<Seq<char>>::empty(),
    {
        BKTree { root: None }
    }

    /// Adds `word` to the tree. A word inserted twice is stored once:
    /// the tree holds a set of distinct strings.
    pub fn insert(&mut self, word: String)
        requires
            old(self).wf(),
        ensures
            final(self).wf(),
            final(self)@ == old(self)@.insert(word@),
    {
        let root = self.root.take();
        match root {
            None => {
                let node = Box::new(BKNode::new(word));
                self.root = Some(node);
                proof {
                    assert(self@ =~= old(self)@.insert(word@));
                }
            },
            Some(mut node) => {
                (&mut *node).insert(word);
                self.root = Some(node);
            },
        }
    }

    /// Returns every stored string whose edit distance from `word` is
    /// at most `tolerance`: exactly the strings a linear scan over the
    /// stored set would keep, each exactly once, and nothing else.
    pub fn search(&self, word: &str, tolerance: usize) -> (results: Vec<String>)
        requires
            self.wf(),
        ensures
            forall|i: int|
                0 <= i < results@.len() ==> self@.contains((#[trigger] results@[i])@) && lev(
                    word@,
                    results@[i]@,
                ) <= tolerance,
            forall|v: Seq<char>|
                #[trigger] self@.contains(v) && lev(word@, v) <= tolerance ==> in_view(
                    results@,
                    v,
                ),
            forall|i: int, k: int|
                0 <= i < k < results@.len() ==> (#[trigger] results@[i])@ != (
                #[trigger] results@[k])@,
            forall|v: Seq<char>|
                in_view(results@, v) <==> #[trigger] matching(
                    self@,
                    word@,
                    tolerance as nat,
                ).contains(v),
            self@ == Set::<Seq<char>>::empty() ==> results@ == Seq::<String>::empty(),
    {
        let mut results: Vec<String> = Vec::new();
        match &self.root {
            None => {},
            Some(node) => {
                node.search(word, tolerance, &mut results);
                proof {
                    assert(self@.contains((*node).word@));
                    assert(self@ != Set::<Seq<char>>::empty());
                }
            },
        }
        proof {
            assert forall|v: Seq<char>| in_view(results@, v) implies #[trigger] matching(
                self@,
                word@,
                tolerance as nat,
            ).contains(v) by {
                let i = choose|i: int| 0 <= i < results@.len() && results@[i]@ == v;
                assert(self@.contains(results@[i]@));
            }
        }
        results
    }
}

impl View for BKTree {
    type V = Set<Seq<char>>;

    open spec fn view(&self) -> Set<Seq<char>> {
        self.value_set()
    }
}

} // verus!
