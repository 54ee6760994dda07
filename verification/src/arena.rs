//! An arena-allocated tree: nodes live in one growable vector and are
//! addressed by the position at which they were inserted. Identifiers stay
//! valid for the life of the tree, the root is always identifier 0, and a
//! parent always precedes its children, so parent chains cannot cycle.

use vstd::prelude::*;

verus! {

/// A stable identifier for a node of a [`Tree`]: the position at which the
/// node was inserted, never reused or renumbered.
#[derive(Debug, Clone, Copy, PartialEq, Eq, Structural)]
pub struct NodeId(pub usize);

/// One node of a [`Tree`]: a payload, the parent's identifier (absent only
/// for the root), and the identifiers of the children in insertion order.
pub struct Node<T> {
    data: T,
    parent: Option<NodeId>,
    children: Vec<NodeId>,
}

/// The mathematical shape of one node: payload, parent link and child list
/// with identifiers as plain integers.
#[verifier::ext_equal]
pub struct NodeView<T> {
    pub data: T,
    pub parent: Option<int>,
    pub children: Seq<int>,
}

impl<T> Node<T> {
    fn new(data: T, parent: Option<NodeId>) -> (n: Node<T>)
        ensures
            n@.data == data,
            n@.parent == spec_id_of(parent),
            n@.children == Seq::<int>::empty(),
    {
        let n = Node { data, parent, children: Vec::new() };
        proof {
            assert(n@.children =~= Seq::<int>::empty());
        }
        n
    }

    /// Read access to the payload.
    pub fn data(&self) -> (r: &T)
        ensures
            *r == self@.data,
    {
        &self.data
    }

    /// Mutable access to the payload.
    pub fn data_mut(&mut self) -> (r: &mut T)
        ensures
            *r == old(self)@.data,
            final(self)@ == (NodeView { data: *final(r), ..old(self)@ }),
    {
        &mut self.data
    }

    /// The parent's identifier; absent exactly for the root.
    pub fn parent(&self) -> (r: Option<NodeId>)
        ensures
            spec_id_of(r) == self@.parent,
    {
        self.parent
    }

    /// The children's identifiers, in insertion order.
    pub fn children(&self) -> (r: &Vec<NodeId>)
        ensures
            r@.map_values(|id: NodeId| id.0 as int) == self@.children,
    {
        &self.children
    }
}

impl<T> View for Node<T> {
    type V = NodeView<T>;

    closed spec fn view(&self) -> NodeView<T> {
        NodeView {
            data: self.data,
            parent: spec_id_of(self.parent),
            children: self.children@.map_values(|id: NodeId| id.0 as int),
        }
    }
}

/// The integer behind an optional identifier.
pub open spec fn spec_id_of(id: Option<NodeId>) -> Option<int> {
    match id {
        Some(n) => Some(n.0 as int),
        None => None,
    }
}

/// Well-formedness of a tree's node sequence: the root is node 0 and is the
/// only node without a parent, every parent precedes its child, and the child
/// lists record exactly the nodes that name the parent, in insertion order.
pub open spec fn tree_wf<T>(s: Seq<NodeView<T>>) -> bool {
    &&& s.len() > 0 ==> s[0].parent is None
    &&& forall|i: int| 0 < i < s.len() ==> #[trigger] s[i].parent is Some
    &&& forall|i: int|
        0 <= i < s.len() ==> (#[trigger] s[i].parent matches Some(p) ==> 0 <= p < i)
    &&& forall|i: int, j: int|
        0 <= i < s.len() && 0 <= j < s[i].children.len() ==> {
            let c = #[trigger] s[i].children[j];
            &&& i < c < s.len()
            &&& s[c].parent == Some(i)
        }
    &&& forall|i: int, j1: int, j2: int|
        0 <= i < s.len() && 0 <= j1 < j2 < s[i].children.len() ==> #[trigger] s[i].children[j1]
            < #[trigger] s[i].children[j2]
    &&& forall|c: int|
        0 < c < s.len() ==> (#[trigger] s[c].parent matches Some(p)
            ==> s[p].children.contains(c))
}

/// An append-only tree of nodes addressed by insertion position.
pub struct Tree<T> {
    nodes: Vec<Node<T>>,
}

impl<T> View for Tree<T> {
    type V = Seq<NodeView<T>>;

    closed spec fn view(&self) -> Seq<NodeView<T>> {
        self.nodes@.map_values(|n: Node<T>| n@)
    }
}

impl<T> Tree<T> {
    /// Whether the tree's structure satisfies the arena invariant.
    pub open spec fn wf(&self) -> bool {
        tree_wf(self@)
    }

    /// An empty tree.
    pub fn new() -> (t: Tree<T>)
        ensures
            t@ == Seq::<NodeView<T>>::empty(),
            t.wf(),
    {
        let t = Tree { nodes: Vec::new() };
        proof {
            assert(t@ =~= Seq::<NodeView<T>>::empty());
        }
        t
    }

    /// The number of nodes inserted so far.
    pub fn len(&self) -> (n: usize)
        ensures
            n == self@.len(),
    {
        self.nodes.len()
    }

    /// Appends a node. Fails exactly when the named parent does not exist,
    /// or when no parent is named while the tree already has its root. On
    /// success the new node's identifier is the old length, and the only
    /// change to existing nodes is the new entry in the parent's child list.
    pub fn insert(&mut self, data: T, parent: Option<NodeId>) -> (r: Option<NodeId>)
        requires
            old(self).wf(),
        ensures
            final(self).wf(),
            r is None <==> {
                ||| (parent is None && old(self)@.len() > 0)
                ||| (parent matches Some(p) && p.0 >= old(self)@.len())
            },
            r is None ==> *final(self) == *old(self),
            r matches Some(id) ==> {
                &&& id.0 == old(self)@.len()
                &&& final(self)@.len() == old(self)@.len() + 1
                &&& final(self)@[id.0 as int] == (NodeView {
                    data,
                    parent: spec_id_of(parent),
                    children: Seq::<int>::empty(),
                })
                &&& forall|k: int|
                    0 <= k < old(self)@.len() && spec_id_of(parent) != Some(k)
                        ==> final(self)@[k] == #[trigger] old(self)@[k]
                &&& parent matches Some(p) ==> final(self)@[p.0 as int] == (NodeView {
                    children: old(self)@[p.0 as int].children.push(id.0 as int),
                    ..old(self)@[p.0 as int]
                })
            },
    {
        let id = NodeId(self.nodes.len());
        let ghost pre = self@;
        match parent {
            None => {
                if self.nodes.len() > 0 {
                    return None;
                }
            },
            Some(p) => {
                if p.0 >= self.nodes.len() {
                    return None;
                }
                let parent_node = &mut self.nodes[p.0];
                parent_node.children.push(id);
                proof {
                    let ghost sa = after_borrow(self)@;
                    assert(sa.len() == pre.len());
                    assert(sa[p.0 as int].children =~= pre[p.0 as int].children.push(
                        id.0 as int,
                    ));
                    assert(sa =~~= pre.update(
                        p.0 as int,
                        NodeView {
                            children: pre[p.0 as int].children.push(id.0 as int),
                            ..pre[p.0 as int]
                        },
                    ));
                }
            },
        }
        let ghost mid = self@;
        self.nodes.push(Node::new(data, parent));
        proof {
            let ghost n = pre.len() as int;
            let ghost s = self@;
            assert(s =~= mid.push(
                NodeView { data, parent: spec_id_of(parent), children: Seq::<int>::empty() },
            ));
            assert(forall|k: int| 0 <= k < n ==> #[trigger] s[k] == mid[k]);
            assert(forall|k: int|
                0 <= k < n && spec_id_of(parent) != Some(k) ==> #[trigger] s[k] == pre[k]);
            assert(forall|k: int| 0 <= k < n ==> #[trigger] s[k].parent == pre[k].parent);
            if parent is Some {
                let p = parent->Some_0.0 as int;
                // every recorded child of any old node stays a recorded child,
                // and the new node joins its parent's list
                assert(s[p].children == pre[p].children.push(n));
                assert(s[p].children[s[p].children.len() - 1] == n);
                assert(s[p].children.contains(n));
                assert forall|c: int|
                    0 < c < s.len() && (#[trigger] s[c].parent) is Some implies s[s[c].parent->Some_0].children.contains(c) by {
                    if c < n {
                        let q = s[c].parent->Some_0;
                        assert(pre[c].parent == Some(q));
                        assert(pre[q].children.contains(c));
                        let w = choose|w: int|
                            0 <= w < pre[q].children.len() && pre[q].children[w] == c;
                        assert(s[q].children[w] == c);
                        assert(s[q].children.contains(c));
                    } else {
                        assert(s[c].parent == Some(p));
                        assert(s[p].children.contains(c));
                    }
                }
                // child lists stay strictly increasing: every old child of the
                // parent precedes the appended identifier
                assert forall|i: int, j1: int, j2: int|
                    0 <= i < s.len() && 0 <= j1 < j2 < s[i].children.len() implies #[trigger] s[i].children[j1] < #[trigger] s[i].children[j2] by {
                    if i == p && j2 == s[p].children.len() - 1 {
                        assert(s[i].children[j1] == pre[p].children[j1]);
                        assert(pre[p].children[j1] < n);
                    } else if i < n {
                        assert(s[i].children == if i == p {
                            pre[p].children.push(n)
                        } else {
                            pre[i].children
                        });
                    }
                }
            }
            assert(tree_wf(s));
        }
        Some(id)
    }

    /// Looks a node up by identifier; absent exactly when the identifier is
    /// out of range.
    pub fn get(&self, id: NodeId) -> (r: Option<&Node<T>>)
        ensures
            r is Some <==> id.0 < self@.len(),
            r matches Some(n) ==> n@ == self@[id.0 as int],
    {
        if id.0 < self.nodes.len() {
            Some(&self.nodes[id.0])
        } else {
            None
        }
    }

    /// Mutable lookup by identifier; absent exactly when the identifier is
    /// out of range.
    pub fn get_mut(&mut self, id: NodeId) -> (r: Option<&mut Node<T>>)
        ensures
            r is Some <==> id.0 < old(self)@.len(),
            r is None ==> *final(self) == *old(self),
            r matches Some(n) ==> {
                &&& (*n)@ == old(self)@[id.0 as int]
                &&& final(self)@ == old(self)@.update(id.0 as int, (*final(n))@)
            },
    {
        if id.0 < self.nodes.len() {
            let n = &mut self.nodes[id.0];
            proof {
                assert(after_borrow(self)@ =~= old(self)@.update(id.0 as int, (*final(n))@));
            }
            Some(n)
        } else {
            None
        }
    }
}

/// The identifiers on the path from node `i` up to and including the root,
/// starting at `i` itself. Parent links point strictly downwards in a
/// well-formed tree, so the walk terminates.
pub open spec fn ancestor_chain<T>(s: Seq<NodeView<T>>, i: int) -> Seq<int>
    decreases i,
{
    if 0 <= i < s.len() {
        match s[i].parent {
            None => seq![i],
            Some(p) => if 0 <= p < i {
                seq![i] + ancestor_chain(s, p)
            } else {
                seq![i]
            },
        }
    } else {
        Seq::<int>::empty()
    }
}

/// In a well-formed tree the ancestor walk from any node is finite, visits
/// only existing nodes, follows the parent links step by step, and ends at
/// the root, identifier 0.
pub proof fn lemma_ancestors_reach_root<T>(s: Seq<NodeView<T>>, i: int)
    requires
        tree_wf(s),
        0 <= i < s.len(),
    ensures
        ancestor_chain(s, i).len() >= 1,
        ancestor_chain(s, i)[0] == i,
        ancestor_chain(s, i).last() == 0,
        forall|k: int|
            0 <= k < ancestor_chain(s, i).len() ==> 0 <= #[trigger] ancestor_chain(s, i)[k]
                < s.len(),
        forall|k: int|
            0 <= k < ancestor_chain(s, i).len() - 1 ==> s[#[trigger] ancestor_chain(s, i)[k]].parent
                == Some(ancestor_chain(s, i)[k + 1]),
        forall|k1: int, k2: int|
            0 <= k1 < k2 < ancestor_chain(s, i).len() ==> #[trigger] ancestor_chain(s, i)[k1]
                > #[trigger] ancestor_chain(s, i)[k2],
    decreases i,
{
    let chain = ancestor_chain(s, i);
    match s[i].parent {
        None => {
            assert(i == 0);
        },
        Some(p) => {
            lemma_ancestors_reach_root(s, p);
            let tail = ancestor_chain(s, p);
            assert(chain == seq![i] + tail);
            assert(chain.last() == tail.last());
            assert forall|k: int| 0 <= k < chain.len() implies 0 <= #[trigger] chain[k]
                < s.len() by {
                if k > 0 {
                    assert(chain[k] == tail[k - 1]);
                }
            }
            assert forall|k: int| 0 <= k < chain.len() - 1 implies s[#[trigger] chain[k]].parent
                == Some(chain[k + 1]) by {
                if k == 0 {
                    assert(chain[0] == i && chain[1] == tail[0]);
                } else {
                    assert(chain[k] == tail[k - 1] && chain[k + 1] == tail[k]);
                }
            }
            assert forall|k1: int, k2: int|
                0 <= k1 < k2 < chain.len() implies #[trigger] chain[k1]
                > #[trigger] chain[k2] by {
                if k1 == 0 {
                    assert(chain[0] == i);
                    assert(chain[k2] == tail[k2 - 1]);
                    if k2 == 1 {
                        assert(tail[0] == p < i);
                    } else {
                        assert(tail[0] > tail[k2 - 1]);
                        assert(tail[0] == p < i);
                    }
                } else {
                    assert(chain[k1] == tail[k1 - 1] && chain[k2] == tail[k2 - 1]);
                }
            }
        },
    }
}

/// Two node sequences with the same parent links and child lists are both
/// well-formed trees as soon as one of them is: well-formedness never reads
/// the payloads.
pub proof fn lemma_tree_wf_same_structure<T1, T2>(
    pre: Seq<NodeView<T1>>,
    post: Seq<NodeView<T2>>,
)
    requires
        tree_wf(pre),
        post.len() == pre.len(),
        forall|j: int| 0 <= j < pre.len() ==> (#[trigger] post[j]).parent == pre[j].parent,
        forall|j: int| 0 <= j < pre.len() ==> (#[trigger] post[j]).children == pre[j].children,
    ensures
        tree_wf(post),
{
    assert forall|i: int, j: int|
        0 <= i < post.len() && 0 <= j < post[i].children.len() implies {
        let c = #[trigger] post[i].children[j];
        &&& i < c < post.len()
        &&& post[c].parent == Some(i)
    } by {
        assert(post[i].children == pre[i].children);
        let c = pre[i].children[j];
        assert(post[c].parent == pre[c].parent);
    }
    assert forall|i: int, j1: int, j2: int|
        0 <= i < post.len() && 0 <= j1 < j2 < post[i].children.len() implies #[trigger] post[i].children[j1] < #[trigger] post[i].children[j2] by {
        assert(post[i].children == pre[i].children);
    }
    assert forall|c: int|
        0 < c < post.len() && (#[trigger] post[c].parent) is Some implies post[post[c].parent->Some_0].children.contains(c) by {
        assert(post[c].parent == pre[c].parent);
        let q = pre[c].parent->Some_0;
        assert(post[q].children == pre[q].children);
    }
}

impl NodeId {
    /// The identifiers from this node up to and including the root, in
    /// walk order; empty when the identifier is out of range.
    pub fn ancestors<T>(self, tree: &Tree<T>) -> (r: Vec<NodeId>)
        requires
            tree.wf(),
        ensures
            r@.map_values(|id: NodeId| id.0 as int) == ancestor_chain(tree@, self.0 as int),
    {
        let mut out: Vec<NodeId> = Vec::new();
        if self.0 >= tree.len() {
            proof {
                assert(out@.map_values(|id: NodeId| id.0 as int) =~= ancestor_chain(
                    tree@,
                    self.0 as int,
                ));
            }
            return out;
        }
        let mut current: Option<NodeId> = Some(self);
        while current.is_some()
            invariant
                tree.wf(),
                current matches Some(c) ==> {
                    &&& c.0 < tree@.len()
                    &&& out@.map_values(|id: NodeId| id.0 as int) + ancestor_chain(
                        tree@,
                        c.0 as int,
                    ) == ancestor_chain(tree@, self.0 as int)
                },
                current is None ==> out@.map_values(|id: NodeId| id.0 as int) == ancestor_chain(
                    tree@,
                    self.0 as int,
                ),
            decreases match current {
                Some(c) => c.0 as int + 1,
                None => 0int,
            },
        {
            let c = current.unwrap();
            let ghost pre_out = out@;
            out.push(c);
            proof {
                assert(out@.map_values(|id: NodeId| id.0 as int) =~= pre_out.map_values(
                    |id: NodeId| id.0 as int,
                ) + seq![c.0 as int]);
            }
            match tree.get(c) {
                Some(node) => {
                    current = node.parent();
                    proof {
                        match current {
                            Some(p) => {
                                assert(out@.map_values(|id: NodeId| id.0 as int)
                                    + ancestor_chain(tree@, p.0 as int) =~= pre_out.map_values(
                                    |id: NodeId| id.0 as int,
                                ) + ancestor_chain(tree@, c.0 as int));
                            },
                            None => {
                                assert(ancestor_chain(tree@, c.0 as int) =~= seq![c.0 as int]);
                                assert(out@.map_values(|id: NodeId| id.0 as int)
                                    =~= pre_out.map_values(|id: NodeId| id.0 as int)
                                    + ancestor_chain(tree@, c.0 as int));
                            },
                        }
                    }
                },
                None => {
                    current = None;
                },
            }
        }
        out
    }
}

/// A lazy walk from a starting node up through its ancestors; each call of
/// [`AncestorIterator::next`] yields the current node and steps to its
/// parent. Building a new iterator restarts the walk.
pub struct AncestorIterator {
    current: Option<NodeId>,
}

impl AncestorIterator {
    /// The identifier the walk will yield next, if any.
    pub closed spec fn pos(&self) -> Option<int> {
        spec_id_of(self.current)
    }

    /// A walk that starts at `start`.
    pub fn new(start: NodeId) -> (it: AncestorIterator)
        ensures
            it.pos() == Some(start.0 as int),
    {
        AncestorIterator { current: Some(start) }
    }

    /// Yields the current node and moves to its parent; `None` once the walk
    /// has passed the root or an out-of-range identifier.
    pub fn next<T>(&mut self, tree: &Tree<T>) -> (r: Option<NodeId>)
        ensures
            old(self).pos() is None ==> r is None && final(self).pos() is None,
            old(self).pos() matches Some(c) ==> {
                &&& r matches Some(id) && id.0 == c
                &&& c < tree@.len() ==> final(self).pos() == tree@[c].parent
                &&& c >= tree@.len() ==> final(self).pos() is None
            },
    {
        match self.current {
            None => None,
            Some(c) => {
                self.current = match tree.get(c) {
                    Some(node) => node.parent(),
                    None => None,
                };
                Some(c)
            },
        }
    }
}

/// The position the comparator-guided fold picks among the first `upto`
/// children, given the verdicts of the successive comparisons: verdict
/// `j - 1` compares the running best against child `j`, and any verdict
/// but `Greater` moves the fold on, so the last of equally ranked children
/// wins.
pub open spec fn fold_best(verdicts: Seq<core::cmp::Ordering>, upto: int) -> int
    decreases upto,
{
    if upto <= 1 {
        0
    } else {
        let prev = fold_best(verdicts, upto - 1);
        if verdicts[upto - 2] == core::cmp::Ordering::Greater {
            prev
        } else {
            upto - 1
        }
    }
}

/// The fold reads only the first `upto - 1` verdicts.
proof fn lemma_fold_best_prefix(
    vs1: Seq<core::cmp::Ordering>,
    vs2: Seq<core::cmp::Ordering>,
    upto: int,
)
    requires
        forall|k: int| 0 <= k < upto - 1 ==> vs1[k] == vs2[k],
    ensures
        fold_best(vs1, upto) == fold_best(vs2, upto),
    decreases upto,
{
    if upto > 1 {
        lemma_fold_best_prefix(vs1, vs2, upto - 1);
    }
}

/// The picked position lies within the prefix it was chosen from.
proof fn lemma_fold_best_range(vs: Seq<core::cmp::Ordering>, upto: int)
    requires
        upto >= 1,
    ensures
        0 <= fold_best(vs, upto) < upto,
    decreases upto,
{
    if upto > 1 {
        lemma_fold_best_range(vs, upto - 1);
    }
}

/// Whether `d` is the child of node `c` that a comparator-guided fold
/// picks: for some sequence of verdicts, each one a result the comparator
/// can return on a pair of witness nodes carrying the running best's and
/// the candidate's views, `d` is the child at the fold's final position.
pub open spec fn comparator_descent<T, F: Fn(&Node<T>, &Node<T>) -> core::cmp::Ordering>(
    f: F,
    tr: Seq<NodeView<T>>,
    c: int,
    d: Option<int>,
) -> bool {
    exists|w: (Seq<core::cmp::Ordering>, Seq<Node<T>>, Seq<Node<T>>)|
        #![trigger fold_best(w.0, tr[c].children.len() as int)]
        {
            &&& w.0.len() == tr[c].children.len() - 1
            &&& w.1.len() == w.0.len()
            &&& w.2.len() == w.0.len()
            &&& d == Some(tr[c].children[fold_best(w.0, tr[c].children.len() as int)])
            &&& forall|j: int|
                1 <= j < tr[c].children.len() ==> {
                    &&& (#[trigger] w.1[j - 1])@ == tr[tr[c].children[fold_best(w.0, j)]]
                    &&& w.2[j - 1]@ == tr[tr[c].children[j]]
                    &&& call_ensures(f, (&w.1[j - 1], &w.2[j - 1]), w.0[j - 1])
                }
        }
}

/// Introduces [`comparator_descent`] from explicit verdict and witness
/// sequences.
proof fn lemma_comparator_descent_intro<T, F: Fn(&Node<T>, &Node<T>) -> core::cmp::Ordering>(
    f: F,
    tr: Seq<NodeView<T>>,
    c: int,
    d: Option<int>,
    vs: Seq<core::cmp::Ordering>,
    wa: Seq<Node<T>>,
    wb: Seq<Node<T>>,
)
    requires
        0 <= c < tr.len(),
        vs.len() == tr[c].children.len() - 1,
        wa.len() == vs.len(),
        wb.len() == vs.len(),
        d == Some(tr[c].children[fold_best(vs, tr[c].children.len() as int)]),
        forall|j: int|
            1 <= j < tr[c].children.len() ==> {
                &&& (#[trigger] wa[j - 1])@ == tr[tr[c].children[fold_best(vs, j)]]
                &&& wb[j - 1]@ == tr[tr[c].children[j]]
                &&& call_ensures(f, (&wa[j - 1], &wb[j - 1]), vs[j - 1])
            },
    ensures
        comparator_descent(f, tr, c, d),
{
    let w = (vs, wa, wb);
    assert(tr[c].children.len() >= 1);
    lemma_fold_best_range(w.0, tr[c].children.len() as int);
    assert forall|j: int|
        1 <= j < tr[c].children.len() implies {
        &&& (#[trigger] w.1[j - 1])@ == tr[tr[c].children[fold_best(w.0, j)]]
        &&& w.2[j - 1]@ == tr[tr[c].children[j]]
        &&& call_ensures(f, (&w.1[j - 1], &w.2[j - 1]), w.0[j - 1])
    } by {
        assert(wa[j - 1]@ == tr[tr[c].children[fold_best(vs, j)]]);
    }
}

/// A lazy walk downwards from a starting node: each call of
/// [`TraverseByIterator::next`] yields the current node and steps into the
/// child the comparator ranks highest, the last of equally ranked children
/// winning. Building a new iterator restarts the walk.
pub struct TraverseByIterator<F> {
    current: Option<NodeId>,
    evaluate: F,
}

impl<F> TraverseByIterator<F> {
    /// The identifier the walk will yield next, if any.
    pub closed spec fn pos(&self) -> Option<int> {
        spec_id_of(self.current)
    }

    /// The comparator the walk descends by.
    pub closed spec fn func(&self) -> F {
        self.evaluate
    }

    /// A walk that starts at `start` and descends by `evaluate`.
    pub fn new<T>(start: NodeId, evaluate: F) -> (it: TraverseByIterator<F>) where
        F: Fn(&Node<T>, &Node<T>) -> core::cmp::Ordering,

        ensures
            it.pos() == Some(start.0 as int),
            it.func() == evaluate,
    {
        TraverseByIterator { current: Some(start), evaluate }
    }

    /// Yields the current node and steps into the comparator-maximal
    /// child — the fold keeps the running best only on a `Greater` verdict,
    /// so the last of equally ranked children wins, and every verdict is a
    /// result the comparator can return on nodes carrying the compared
    /// views. `None` once the walk has left a childless node or an
    /// out-of-range identifier behind.
    pub fn next<T>(&mut self, tree: &Tree<T>) -> (r: Option<NodeId>) where
        F: Fn(&Node<T>, &Node<T>) -> core::cmp::Ordering,

        requires
            tree.wf(),
            forall|a: &Node<T>, b: &Node<T>| call_requires(old(self).func(), (a, b)),
        ensures
            final(self).func() == old(self).func(),
            old(self).pos() is None ==> r is None && final(self).pos() is None,
            old(self).pos() matches Some(c) ==> {
                &&& r matches Some(id) && id.0 == c
                &&& match final(self).pos() {
                    Some(d) => c < tree@.len() && tree@[c].children.contains(d),
                    None => c >= tree@.len() || tree@[c].children.len() == 0,
                }
                &&& (c < tree@.len() && tree@[c].children.len() > 0) ==> comparator_descent(
                    old(self).func(),
                    tree@,
                    c,
                    final(self).pos(),
                )
            },
    {
        let c = match self.current {
            None => {
                return None;
            },
            Some(c) => c,
        };
        let node = match tree.get(c) {
            Some(n) => n,
            None => {
                self.current = None;
                return Some(c);
            },
        };
        let kids = node.children();
        if kids.len() == 0 {
            self.current = None;
            return Some(c);
        }
        let mut best: NodeId = kids[0];
        let ghost mut vs: Seq<core::cmp::Ordering> = Seq::empty();
        let ghost mut wa: Seq<Node<T>> = Seq::empty();
        let ghost mut wb: Seq<Node<T>> = Seq::empty();
        let mut j: usize = 1;
        proof {
            assert(tree@[c.0 as int].children[0] == kids@[0].0 as int);
        }
        while j < kids.len()
            invariant
                tree.wf(),
                forall|a: &Node<T>, b: &Node<T>| call_requires(old(self).func(), (a, b)),
                self.evaluate == old(self).func(),
                1 <= j <= kids@.len(),
                kids@.map_values(|id: NodeId| id.0 as int) == tree@[c.0 as int].children,
                c.0 < tree@.len(),
                vs.len() == j - 1,
                wa.len() == j - 1,
                wb.len() == j - 1,
                best.0 as int == tree@[c.0 as int].children[fold_best(vs, j as int)],
                forall|j2: int|
                    1 <= j2 < j ==> {
                        &&& (#[trigger] wa[j2 - 1])@ == tree@[tree@[c.0 as int].children[fold_best(
                            vs,
                            j2,
                        )]]
                        &&& wb[j2 - 1]@ == tree@[tree@[c.0 as int].children[j2]]
                        &&& call_ensures(old(self).func(), (&wa[j2 - 1], &wb[j2 - 1]), vs[j2 - 1])
                    },
            decreases kids@.len() - j,
        {
            let candidate = kids[j];
            proof {
                lemma_fold_best_range(vs, j as int);
                assert(tree@[c.0 as int].children[j as int] == kids@[j as int].0 as int);
            }
            let bn = match tree.get(best) {
                Some(n) => n,
                None => {
                    proof {
                        assert(false);
                    }
                    return None;
                },
            };
            let cn = match tree.get(candidate) {
                Some(n) => n,
                None => {
                    proof {
                        assert(false);
                    }
                    return None;
                },
            };
            let ord = (&self.evaluate)(bn, cn);
            proof {
                let ghost old_vs = vs;
                vs = vs.push(ord);
                wa = wa.push(*bn);
                wb = wb.push(*cn);
                lemma_fold_best_prefix(old_vs, vs, j as int);
                assert forall|j2: int|
                    1 <= j2 < j + 1 implies {
                    &&& (#[trigger] wa[j2 - 1])@ == tree@[tree@[c.0 as int].children[fold_best(
                        vs,
                        j2,
                    )]]
                    &&& wb[j2 - 1]@ == tree@[tree@[c.0 as int].children[j2]]
                    &&& call_ensures(old(self).func(), (&wa[j2 - 1], &wb[j2 - 1]), vs[j2 - 1])
                } by {
                    lemma_fold_best_prefix(old_vs, vs, j2);
                    if j2 == j {
                        assert(vs[j2 - 1] == ord);
                        assert(wa[j2 - 1] == *bn && wb[j2 - 1] == *cn);
                    }
                }
                assert(fold_best(vs, j as int) == fold_best(old_vs, j as int));
            }
            if !(matches!(ord, core::cmp::Ordering::Greater)) {
                best = candidate;
            }
            j += 1;
        }
        self.current = Some(best);
        proof {
            lemma_fold_best_range(vs, kids@.len() as int);
            assert(tree@[c.0 as int].children.contains(best.0 as int)) by {
                assert(tree@[c.0 as int].children[fold_best(vs, kids@.len() as int)] == best.0
                    as int);
            }
            lemma_comparator_descent_intro(
                old(self).func(),
                tree@,
                c.0 as int,
                self.pos(),
                vs,
                wa,
                wb,
            );
        }
        Some(c)
    }
}

/// A lazy breadth-first walk over a subtree: each call of
/// [`BreadthFirstIterator::next`] yields the front of its queue and
/// appends that node's children, so the nodes come out level by level in
/// insertion order. Building a new iterator restarts the walk.
pub struct BreadthFirstIterator {
    queue: Vec<NodeId>,
}

impl BreadthFirstIterator {
    /// The identifiers still queued, front first.
    pub closed spec fn pending(&self) -> Seq<int> {
        self.queue@.map_values(|id: NodeId| id.0 as int)
    }

    /// A walk that starts at `start`.
    pub fn new(start: NodeId) -> (it: BreadthFirstIterator)
        ensures
            it.pending() == seq![start.0 as int],
    {
        let mut queue: Vec<NodeId> = Vec::new();
        queue.push(start);
        let it = BreadthFirstIterator { queue };
        proof {
            assert(it.pending() =~= seq![start.0 as int]);
        }
        it
    }

    /// Yields the front of the queue and queues that node's children
    /// behind everything already pending; `None` once the queue is empty.
    pub fn next<T>(&mut self, tree: &Tree<T>) -> (r: Option<NodeId>)
        ensures
            old(self).pending().len() == 0 ==> r is None && final(self).pending() == old(
                self,
            ).pending(),
            old(self).pending().len() > 0 ==> {
                &&& r matches Some(id) && id.0 as int == old(self).pending()[0]
                &&& final(self).pending() == old(self).pending().drop_first() + (if old(
                    self,
                ).pending()[0] < tree@.len() {
                    tree@[old(self).pending()[0]].children
                } else {
                    Seq::<int>::empty()
                })
            },
    {
        if self.queue.len() == 0 {
            return None;
        }
        let front = self.queue.remove(0);
        proof {
            assert(self.pending() =~= old(self).pending().drop_first());
        }
        match tree.get(front) {
            Some(n) => {
                let kids = n.children();
                let ghost base_q = self.queue@;
                let mut i: usize = 0;
                while i < kids.len()
                    invariant
                        kids@.map_values(|id: NodeId| id.0 as int) == tree@[front.0 as int].children,
                        0 <= i <= kids@.len(),
                        self.queue@ == base_q + kids@.take(i as int),
                    decreases kids@.len() - i,
                {
                    self.queue.push(kids[i]);
                    proof {
                        assert(self.queue@ =~= base_q + kids@.take(i + 1));
                    }
                    i += 1;
                }
                proof {
                    assert(kids@.take(kids@.len() as int) =~= kids@);
                    assert(self.queue@ == base_q + kids@);
                    assert(self.pending() =~= base_q.map_values(|id: NodeId| id.0 as int)
                        + tree@[front.0 as int].children);
                }
            },
            None => {},
        }
        Some(front)
    }
}

impl NodeId {
    /// A downward walk from this node, descending by `evaluate`; the tree
    /// itself is handed to each call of the iterator's `next`.
    pub fn traverse_by<T, F>(self, _tree: &Tree<T>, evaluate: F) -> (it: TraverseByIterator<
        F,
    >) where F: Fn(&Node<T>, &Node<T>) -> core::cmp::Ordering
        ensures
            it.pos() == Some(self.0 as int),
            it.func() == evaluate,
    {
        TraverseByIterator::<F>::new::<T>(self, evaluate)
    }
}

} // verus!
