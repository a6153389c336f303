use vstd::prelude::*;

verus! {

/// Identifies a node of a [`TreeStructure`] by its position in preorder.
#[derive(Clone, Copy, PartialEq, Eq, Structural, PartialOrd, Ord, Debug)]
pub struct NodeId(usize);

impl NodeId {
    /// The preorder position that the identifier stands for.
    pub closed spec fn index(self) -> nat {
        self.0 as nat
    }
}

/// The mathematical shape of a [`Tree`]: a value and the ordered list of subtrees.
#[verifier::ext_equal]
pub struct TreeModel<T> {
    pub val: T,
    pub children: Seq<TreeModel<T>>,
}

/// Number of nodes of a tree model.
pub open spec fn model_size<T>(m: TreeModel<T>) -> nat
    decreases m,
{
    1 + forest_size(m.children)
}

/// Number of nodes of a sequence of tree models.
pub open spec fn forest_size<T>(cs: Seq<TreeModel<T>>) -> nat
    decreases cs,
{
    if cs.len() == 0 {
        0
    } else {
        forest_size(cs.drop_last()) + model_size(cs.last())
    }
}

/// An owned tree whose nodes carry values of type `T`.
#[derive(Debug)]
pub struct Tree<T> {
    val: T,
    children: Vec<Tree<T>>,
    num_nodes: usize,
}

/// The shape of a tree, read off its nodes.
pub closed spec fn tree_model<T>(t: Tree<T>) -> TreeModel<T>
    decreases t,
{
    let cs = t.children@;
    TreeModel {
        val: t.val,
        children: Seq::new(
            cs.len(),
            |i: int|
                if 0 <= i < cs.len() {
                    tree_model(cs[i])
                } else {
                    arbitrary()
                },
        ),
    }
}

/// Every node's stored count equals the number of nodes below and including it.
pub closed spec fn tree_wf<T>(t: Tree<T>) -> bool
    decreases t,
{
    &&& t.num_nodes == model_size(tree_model(t))
    &&& forest_wf(t.children@)
}

/// Every tree of the sequence is well formed.
pub closed spec fn forest_wf<T>(cs: Seq<Tree<T>>) -> bool
    decreases cs,
{
    if cs.len() == 0 {
        true
    } else {
        forest_wf(cs.drop_last()) && tree_wf(cs.last())
    }
}

/// A forest is well formed exactly when each of its trees is.
proof fn lemma_forest_wf<T>(cs: Seq<Tree<T>>)
    ensures
        forest_wf(cs) <==> forall|i: int| 0 <= i < cs.len() ==> #[trigger] tree_wf(cs[i]),
    decreases cs.len(),
{
    if cs.len() > 0 {
        lemma_forest_wf(cs.drop_last());
        if forall|i: int| 0 <= i < cs.len() ==> #[trigger] tree_wf(cs[i]) {
            assert forall|i: int| 0 <= i < cs.drop_last().len() implies #[trigger] tree_wf(
                cs.drop_last()[i],
            ) by {
                assert(tree_wf(cs[i]));
            }
            assert(tree_wf(cs[cs.len() - 1]));
        }
        if forest_wf(cs) {
            assert forall|i: int| 0 <= i < cs.len() implies #[trigger] tree_wf(cs[i]) by {
                if i < cs.len() - 1 {
                    assert(tree_wf(cs.drop_last()[i]));
                }
            }
        }
    }
}

impl<T> View for Tree<T> {
    type V = TreeModel<T>;

    closed spec fn view(&self) -> TreeModel<T> {
        tree_model(*self)
    }
}

} // verus!

verus! {

/// The tree obtained by reversing the order of the children of every node.
pub open spec fn mirror_model<T>(m: TreeModel<T>) -> TreeModel<T>
    decreases m,
{
    let n = m.children.len();
    TreeModel {
        val: m.val,
        children: Seq::new(
            n,
            |i: int|
                if 0 <= i < n {
                    mirror_model(m.children[n - 1 - i])
                } else {
                    arbitrary()
                },
        ),
    }
}

impl<T> Tree<T> {
    /// The stored node count agrees with the shape, in every subtree.
    pub closed spec fn wf(&self) -> bool {
        tree_wf(*self)
    }

    proof fn lemma_view_children(&self)
        ensures
            self@.val == self.val,
            self@.children.len() == self.children@.len(),
            forall|i: int|
                0 <= i < self.children@.len() ==> #[trigger] self@.children[i]
                    == self.children@[i]@,
    {
    }

    /// Builds a tree from a root value and its subtrees, counting the nodes.
    pub fn new(val: T, children: Vec<Tree<T>>) -> (r: Self)
        requires
            forall|i: int| 0 <= i < children@.len() ==> #[trigger] children@[i].wf(),
            1 + forest_size(children@.map_values(|c: Tree<T>| c@)) <= usize::MAX,
        ensures
            r.wf(),
            r@ == (TreeModel { val, children: children@.map_values(|c: Tree<T>| c@) }),
    {
        let ghost ms = children@.map_values(|c: Tree<T>| c@);
        let mut sum: usize = 0;
        let mut i: usize = 0;
        while i < children.len()
            invariant
                0 <= i <= children@.len(),
                ms == children@.map_values(|c: Tree<T>| c@),
                forall|j: int| 0 <= j < children@.len() ==> #[trigger] children@[j].wf(),
                1 + forest_size(ms) <= usize::MAX,
                sum == forest_size(ms.take(i as int)),
            decreases children@.len() - i,
        {
            proof {
                assert(ms.take(i + 1).drop_last() =~= ms.take(i as int));
                lemma_forest_size_prefix(ms, i as int + 1, ms.len() as int);
                assert(children@[i as int].wf());
                assert(ms.take(ms.len() as int) =~= ms);
                assert(ms[i as int] == children@[i as int]@);
            }
            sum = sum + children[i].num_nodes;
            i = i + 1;
        }
        proof {
            assert(ms.take(children@.len() as int) =~= ms);
        }
        let r = Tree { val, children, num_nodes: sum + 1 };
        proof {
            assert(r@.children =~= ms);
            assert forall|j: int| 0 <= j < r.children@.len() implies tree_wf(
                #[trigger] r.children@[j],
            ) by {
                assert(children@[j].wf());
            }
            lemma_forest_wf(r.children@);
        }
        r
    }

    /// Number of nodes in the tree.
    pub fn len(&self) -> (r: usize)
        requires
            self.wf(),
        ensures
            r == model_size(self@),
    {
        self.num_nodes
    }

    /// Whether the tree has no node; a tree always holds at least its root.
    pub fn is_empty(&self) -> (r: bool)
        requires
            self.wf(),
        ensures
            r == (model_size(self@) == 0),
            !r,
    {
        self.len() == 0
    }

    /// Reverses the order of the children of every node.
    pub fn mirror(&mut self)
        requires
            old(self).wf(),
        ensures
            final(self).wf(),
            final(self)@ == mirror_model(old(self)@),
        decreases *old(self),
    {
        let mut old_children: Vec<Tree<T>> = Vec::new();
        std::mem::swap(&mut old_children, &mut self.children);
        let ghost oc = old_children@;
        proof {
            assert(tree_wf(*old(self)));
            lemma_forest_wf(oc);
        }
        let mut rev: Vec<Tree<T>> = Vec::new();
        while old_children.len() > 0
            invariant
                oc == old(self).children@,
                old_children@ == oc.take(old_children@.len() as int),
                old_children@.len() + rev@.len() == oc.len(),
                forall|j: int| 0 <= j < oc.len() ==> #[trigger] tree_wf(oc[j]),
                forall|j: int| 0 <= j < rev@.len() ==> #[trigger] tree_wf(rev@[j]),
                forall|j: int|
                    0 <= j < rev@.len() ==> #[trigger] rev@[j]@ == mirror_model(
                        oc[oc.len() - 1 - j]@,
                    ),
            decreases old_children@.len(),
        {
            let ghost k = old_children@.len() - 1;
            let mut c = old_children.pop().unwrap();
            proof {
                assert(c == oc[k]);
            }
            c.mirror();
            rev.push(c);
            proof {
                assert(old_children@ =~= oc.take(old_children@.len() as int));
            }
        }
        self.children = rev;
        proof {
            let om = old(self)@;
            old(self).lemma_view_children();
            self.lemma_view_children();
            assert(self@.children =~= mirror_model(om).children);
            lemma_mirror_size(om);
            lemma_forest_wf(self.children@);
        }
    }
}

/// The size of a prefix of a forest is at most the size of a longer prefix.
proof fn lemma_forest_size_prefix<T>(cs: Seq<TreeModel<T>>, i: int, j: int)
    requires
        0 <= i <= j <= cs.len(),
    ensures
        forest_size(cs.take(i)) <= forest_size(cs.take(j)),
    decreases j - i,
{
    if i < j {
        lemma_forest_size_prefix(cs, i, j - 1);
        assert(cs.take(j).drop_last() =~= cs.take(j - 1));
    }
}

/// Mirroring keeps the number of nodes.
pub proof fn lemma_mirror_size<T>(m: TreeModel<T>)
    ensures
        model_size(mirror_model(m)) == model_size(m),
    decreases m,
{
    let cs = m.children;
    let rs = mirror_model(m).children;
    assert forall|i: int| 0 <= i < rs.len() implies model_size(#[trigger] rs[i]) == model_size(
        cs[cs.len() - 1 - i],
    ) by {
        lemma_mirror_size(cs[cs.len() - 1 - i]);
    }
    lemma_forest_size_reversed(cs, rs);
}

/// The size of a forest is the size of its first tree plus the size of the rest.
proof fn lemma_forest_size_first<T>(cs: Seq<TreeModel<T>>)
    requires
        cs.len() > 0,
    ensures
        forest_size(cs) == model_size(cs[0]) + forest_size(cs.drop_first()),
    decreases cs.len(),
{
    if cs.len() > 1 {
        lemma_forest_size_first(cs.drop_last());
        assert(cs.drop_last().drop_first() =~= cs.drop_first().drop_last());
    } else {
        assert(cs.drop_last() =~= Seq::<TreeModel<T>>::empty());
        assert(cs.drop_first() =~= Seq::<TreeModel<T>>::empty());
    }
}

/// Two forests whose trees have the same sizes in reverse order have the same size.
proof fn lemma_forest_size_reversed<T>(cs: Seq<TreeModel<T>>, rs: Seq<TreeModel<T>>)
    requires
        rs.len() == cs.len(),
        forall|i: int|
            0 <= i < rs.len() ==> model_size(#[trigger] rs[i]) == model_size(cs[cs.len() - 1 - i]),
    ensures
        forest_size(rs) == forest_size(cs),
    decreases cs.len(),
{
    if cs.len() > 0 {
        let n = cs.len();
        assert forall|i: int| 0 <= i < rs.drop_last().len() implies model_size(
            #[trigger] rs.drop_last()[i],
        ) == model_size(cs.drop_first()[cs.drop_first().len() - 1 - i]) by {
            assert(rs.drop_last()[i] == rs[i]);
            assert(cs.drop_first()[n - 2 - i] == cs[n - 1 - i]);
        }
        lemma_forest_size_reversed(cs.drop_first(), rs.drop_last());
        lemma_forest_size_first(cs);
        assert(model_size(rs[n - 1]) == model_size(cs[0]));
    }
}

} // verus!

verus! {

/// Mirroring twice gives back the tree one started with.
pub proof fn lemma_mirror_involution<T>(m: TreeModel<T>)
    ensures
        mirror_model(mirror_model(m)) == m,
    decreases m,
{
    let n = m.children.len();
    let mm = mirror_model(mirror_model(m));
    assert forall|i: int| 0 <= i < n implies #[trigger] mm.children[i] == m.children[i] by {
        lemma_mirror_involution(m.children[i]);
        assert(mirror_model(m).children[n - 1 - i] == mirror_model(m.children[i]));
    }
    assert(mm.children =~= m.children);
}

} // verus!

verus! {

/// Position of an optional node identifier.
pub open spec fn opt_index(p: Option<NodeId>) -> Option<nat> {
    match p {
        Some(id) => Some(id.index()),
        None => None,
    }
}

/// A node of a [`TreeStructure`]: its identifier, its parent and its children in order.
#[derive(Clone)]
pub struct Node {
    pub id: NodeId,
    pub parent: Option<NodeId>,
    pub children: Vec<NodeId>,
}

/// A node with positions in place of identifiers.
#[verifier::ext_equal]
pub struct NodeModel {
    pub id: nat,
    pub parent: Option<nat>,
    pub children: Seq<nat>,
}

impl View for Node {
    type V = NodeModel;

    open spec fn view(&self) -> NodeModel {
        NodeModel {
            id: self.id.index(),
            parent: opt_index(self.parent),
            children: self.children@.map_values(|c: NodeId| c.index()),
        }
    }
}

impl Node {
    /// The identifiers of the children, in order.
    pub fn iter_children(&self) -> (r: &[NodeId])
        ensures
            r@ == self.children@,
    {
        self.children.as_slice()
    }
}

/// Positions of the roots of a forest laid out in preorder from `base` on.
pub open spec fn child_offsets<T>(cs: Seq<TreeModel<T>>, base: nat) -> Seq<nat> {
    Seq::new(cs.len(), |i: int| base + forest_size(cs.take(i)))
}

/// The nodes of a tree in preorder, its root at position `base` with the given parent.
pub open spec fn model_nodes<T>(m: TreeModel<T>, base: nat, parent: Option<nat>) -> Seq<NodeModel>
    decreases m,
{
    seq![NodeModel { id: base, parent, children: child_offsets(m.children, base + 1) }]
        + forest_nodes(m.children, base + 1, base)
}

/// The nodes of a forest in preorder, laid out from `base` on, all roots under `parent`.
pub open spec fn forest_nodes<T>(cs: Seq<TreeModel<T>>, base: nat, parent: nat) -> Seq<NodeModel>
    decreases cs,
{
    if cs.len() == 0 {
        seq![]
    } else {
        forest_nodes(cs.drop_last(), base, parent) + model_nodes(
            cs.last(),
            base + forest_size(cs.drop_last()),
            Some(parent),
        )
    }
}

/// The values of a tree in preorder.
pub open spec fn model_values<T>(m: TreeModel<T>) -> Seq<T>
    decreases m,
{
    seq![m.val] + forest_values(m.children)
}

/// The values of a forest in preorder.
pub open spec fn forest_values<T>(cs: Seq<TreeModel<T>>) -> Seq<T>
    decreases cs,
{
    if cs.len() == 0 {
        seq![]
    } else {
        forest_values(cs.drop_last()) + model_values(cs.last())
    }
}

/// The nodes with positions in place of identifiers.
pub open spec fn node_models(ns: Seq<Node>) -> Seq<NodeModel> {
    ns.map_values(|n: Node| n@)
}

/// A sequence of nodes forms a tree laid out in preorder: every node sits at the position
/// its identifier names, children come after their parent and point back to it, every node
/// but the root has a parent before it that lists it among its children, and the children
/// of a node are listed in increasing order.
pub open spec fn tree_shaped(ns: Seq<NodeModel>) -> bool {
    &&& forall|i: int| 0 <= i < ns.len() ==> #[trigger] ns[i].id == i
    &&& ns.len() > 0 ==> ns[0].parent is None
    &&& forall|i: int, k: int|
        0 <= i < ns.len() && 0 <= k < ns[i].children.len() ==> {
            let c = #[trigger] ns[i].children[k];
            &&& i < c < ns.len()
            &&& ns[c as int].parent == Some(i as nat)
        }
    &&& forall|i: int, k: int, l: int|
        0 <= i < ns.len() && 0 <= k < l < ns[i].children.len() ==> #[trigger] ns[i].children[k]
            < #[trigger] ns[i].children[l]
    &&& forall|i: int|
        0 < i < ns.len() ==> {
            &&& (#[trigger] ns[i]).parent is Some
            &&& ns[i].parent->0 < i
            &&& ns[ns[i].parent->0 as int].children.contains(i as nat)
        }
}

/// The shape of a tree flattened into a sequence of nodes in preorder.
pub struct TreeStructure {
    nodes: Vec<Node>,
}

impl View for TreeStructure {
    type V = Seq<Node>;

    closed spec fn view(&self) -> Seq<Node> {
        self.nodes@
    }
}

impl Default for TreeStructure {
    fn default() -> (r: Self)
        ensures
            r@ == Seq::<Node>::empty(),
    {
        TreeStructure { nodes: Vec::new() }
    }
}

impl TreeStructure {
    /// The nodes form a tree laid out in preorder.
    pub open spec fn wf(&self) -> bool {
        tree_shaped(node_models(self@))
    }

    /// An empty structure.
    pub fn new() -> (r: Self)
        ensures
            r@ == Seq::<Node>::empty(),
            r.wf(),
    {
        TreeStructure { nodes: Vec::new() }
    }

    /// The root, which is the first node in preorder, if there is any node.
    pub fn root(&self) -> (r: Option<NodeId>)
        ensures
            r is None <==> self@.len() == 0,
            r matches Some(id) ==> id == self@[0].id,
    {
        if self.nodes.is_empty() {
            None
        } else {
            Some(self.nodes[0].id)
        }
    }

    /// The children of a node, in order.
    pub fn iter_children(&self, node_id: NodeId) -> (r: &[NodeId])
        requires
            node_id.index() < self@.len(),
        ensures
            r@ == self@[node_id.index() as int].children@,
    {
        self.nodes[node_id.0].children.as_slice()
    }

    /// How many children a node has.
    pub fn num_children(&self, node_id: NodeId) -> (r: usize)
        requires
            node_id.index() < self@.len(),
        ensures
            r == self@[node_id.index() as int].children@.len(),
    {
        self.nodes[node_id.0].children.len()
    }

    /// The `i`-th child of a node.
    pub fn get_child(&self, node_id: NodeId, i: usize) -> (r: NodeId)
        requires
            node_id.index() < self@.len(),
            i < self@[node_id.index() as int].children@.len(),
        ensures
            r == self@[node_id.index() as int].children@[i as int],
    {
        self.nodes[node_id.0].children[i]
    }

    /// Whether a node has at least one child.
    pub fn has_children(&self, node_id: NodeId) -> (r: bool)
        requires
            node_id.index() < self@.len(),
        ensures
            r == (self@[node_id.index() as int].children@.len() > 0),
    {
        !self.nodes[node_id.0].children.is_empty()
    }

    /// The first child of a node.
    pub fn first_child(&self, node_id: NodeId) -> (r: NodeId)
        requires
            node_id.index() < self@.len(),
            self@[node_id.index() as int].children@.len() > 0,
        ensures
            r == self@[node_id.index() as int].children@[0],
    {
        self.get_child(node_id, 0)
    }

    /// The last child of a node.
    pub fn last_child(&self, node_id: NodeId) -> (r: NodeId)
        requires
            node_id.index() < self@.len(),
            self@[node_id.index() as int].children@.len() > 0,
        ensures
            r == self@[node_id.index() as int].children@.last(),
    {
        self.get_child(node_id, self.num_children(node_id) - 1)
    }

    /// All nodes in preorder.
    pub fn iter_preorder(&self) -> (r: &[Node])
        ensures
            r@ == self@,
    {
        self.nodes.as_slice()
    }
}

} // verus!

verus! {

impl TreeStructure {
    fn load_data_inner<V>(&mut self, t: Tree<V>, data: &mut Vec<V>, parent: Option<NodeId>)
        requires
            t.wf(),
            old(self)@.len() + model_size(t@) <= usize::MAX,
        ensures
            node_models(final(self)@) == node_models(old(self)@) + model_nodes(
                t@,
                old(self)@.len() as nat,
                opt_index(parent),
            ),
            final(data)@ == old(data)@ + model_values(t@),
        decreases t,
    {
        let root_idx = self.nodes.len();
        let root_id = NodeId(root_idx);
        let ghost m = t@;
        let ghost t0 = t;
        let ghost cms = m.children;
        proof {
            t.lemma_view_children();
            assert(tree_wf(t));
            lemma_forest_wf(t.children@);
        }
        let mut children = Vec::<NodeId>::with_capacity(t.children.len());
        let mut child_idx = root_idx + 1;
        let mut i: usize = 0;
        while i < t.children.len()
            invariant
                i <= t.children@.len(),
                children@.len() == i,
                cms == t@.children,
                cms.len() == t.children@.len(),
                forall|j: int| 0 <= j < cms.len() ==> #[trigger] cms[j] == t.children@[j]@,
                forall|j: int| 0 <= j < cms.len() ==> #[trigger] tree_wf(t.children@[j]),
                root_idx + model_size(m) <= usize::MAX,
                model_size(m) == 1 + forest_size(cms),
                child_idx == root_idx + 1 + forest_size(cms.take(i as int)),
                children@.map_values(|c: NodeId| c.index()) == child_offsets(
                    cms,
                    (root_idx + 1) as nat,
                ).take(i as int),
            decreases t.children@.len() - i,
        {
            proof {
                assert(cms.take(i + 1).drop_last() =~= cms.take(i as int));
                lemma_forest_size_prefix(cms, i as int + 1, cms.len() as int);
                assert(cms.take(cms.len() as int) =~= cms);
                assert(tree_wf(t.children@[i as int]));
            }
            let ghost prev = children@;
            children.push(NodeId(child_idx));
            proof {
                let offs = child_offsets(cms, (root_idx + 1) as nat);
                let mapped = children@.map_values(|c: NodeId| c.index());
                assert forall|j: int| 0 <= j <= i implies #[trigger] mapped[j] == offs.take(
                    i + 1,
                )[j] by {
                    if j < i {
                        assert(children@[j] == prev[j]);
                        assert(prev.map_values(|c: NodeId| c.index())[j] == offs.take(i as int)[j]);
                    }
                }
                assert(mapped =~= offs.take(i + 1));
            }
            child_idx = child_idx + t.children[i].num_nodes;
            i = i + 1;
        }
        let Tree { val, children: subtrees, num_nodes: _ } = t;
        data.push(val);
        let root_node = Node { id: root_id, parent, children };
        self.nodes.push(root_node);
        let ghost mid_nodes = node_models(self@);
        let ghost mid_data = data@;
        proof {
            assert(children@.map_values(|c: NodeId| c.index()) =~= child_offsets(
                cms,
                (root_idx + 1) as nat,
            ));
        }
        let ghost sub = subtrees@;
        for c in it: subtrees
            invariant
                sub == it.seq(),
                sub == t0.children@,
                t0 == t,
                root_id == NodeId(root_idx),
                sub.len() == cms.len(),
                forall|j: int| 0 <= j < cms.len() ==> #[trigger] cms[j] == sub[j]@,
                forall|j: int| 0 <= j < cms.len() ==> #[trigger] tree_wf(sub[j]),
                root_idx + 1 + forest_size(cms) <= usize::MAX,
                node_models(self@) == mid_nodes + forest_nodes(
                    cms.take(it.index() as int),
                    (root_idx + 1) as nat,
                    root_idx as nat,
                ),
                data@ == mid_data + forest_values(cms.take(it.index() as int)),
                self@.len() == root_idx + 1 + forest_size(cms.take(it.index() as int)),
        {
            let ghost k = it.index();
            proof {
                assert(decreases_to!(t0 => t0.children));
                assert(decreases_to!(t0.children => t0.children@));
                assert(decreases_to!(t0.children@ => t0.children@[k]));
                assert(c == sub[k as int]);
                lemma_forest_size_prefix(cms, k as int + 1, cms.len() as int);
                assert(cms.take(cms.len() as int) =~= cms);
                assert(cms.take(k + 1).drop_last() =~= cms.take(k as int));
            }
            proof {
                assert(c == t0.children@[k as int]);
                assert(decreases_to!(t0 => c));
                assert(t0 == t);
            }
            let ghost before_nodes = node_models(self@);
            let ghost before_data = data@;
            self.load_data_inner(c, data, Some(root_id));
            proof {
                assert(node_models(self@) == before_nodes + model_nodes(
                    c@,
                    (root_idx + 1 + forest_size(cms.take(k as int))) as nat,
                    Some(root_idx as nat),
                ));
                let tk = cms.take(k + 1);
                assert(tk.drop_last() =~= cms.take(k as int));
                assert(tk.last() == c@);
                assert(node_models(self@) =~= mid_nodes + forest_nodes(
                    tk,
                    (root_idx + 1) as nat,
                    root_idx as nat,
                ));
                assert(data@ =~= mid_data + forest_values(tk));
                lemma_model_nodes_len(c@, (root_idx + 1 + forest_size(cms.take(k as int))) as nat, Some(root_idx as nat));
            }
        }
        proof {
            assert(cms.take(cms.len() as int) =~= cms);
            assert(model_nodes(m, root_idx as nat, opt_index(parent)) =~= seq![
                NodeModel { id: root_idx as nat, parent: opt_index(parent), children: child_offsets(cms, (root_idx + 1) as nat) },
            ] + forest_nodes(cms, (root_idx + 1) as nat, root_idx as nat));
        }
    }
}

} // verus!

verus! {

/// A tree flattens to as many nodes, and as many values, as it has.
pub proof fn lemma_model_nodes_len<T>(m: TreeModel<T>, base: nat, parent: Option<nat>)
    ensures
        model_nodes(m, base, parent).len() == model_size(m),
        model_values(m).len() == model_size(m),
    decreases m,
{
    lemma_forest_nodes_len(m.children, base + 1, base);
}

/// A forest flattens to as many nodes, and as many values, as it has.
pub proof fn lemma_forest_nodes_len<T>(cs: Seq<TreeModel<T>>, base: nat, parent: nat)
    ensures
        forest_nodes(cs, base, parent).len() == forest_size(cs),
        forest_values(cs).len() == forest_size(cs),
    decreases cs,
{
    if cs.len() > 0 {
        lemma_forest_nodes_len(cs.drop_last(), base, parent);
        lemma_model_nodes_len(cs.last(), base + forest_size(cs.drop_last()), Some(parent));
    }
}

} // verus!

verus! {

/// One value per node of a [`TreeStructure`], kept in preorder and reached through node ids.
pub struct TreeData<'t, D> {
    tree: &'t TreeStructure,
    data: Vec<D>,
}

impl<'t, D> TreeData<'t, D> {
    /// The structure the values belong to.
    pub closed spec fn structure(&self) -> TreeStructure {
        *self.tree
    }

    /// The values, in preorder.
    pub closed spec fn values(&self) -> Seq<D> {
        self.data@
    }

    /// The structure is a tree and there is exactly one value per node.
    pub open spec fn wf(&self) -> bool {
        &&& self.structure().wf()
        &&& self.values().len() == self.structure()@.len()
    }
}

impl TreeStructure {
    /// Replaces the contents by the nodes of `t` in preorder, and pairs each node with its value.
    pub fn load_data<'t, V>(&'t mut self, t: Tree<V>) -> (r: TreeData<'t, V>)
        requires
            t.wf(),
        ensures
            node_models(r.structure()@) == model_nodes(t@, 0, None),
            r.values() == model_values(t@),
            r.wf(),
            final(self)@ == r.structure()@,
    {
        self.nodes.clear();
        proof {
            assert(tree_wf(t));
        }
        let mut data = Vec::with_capacity(t.len());
        self.load_data_inner(t, &mut data, None);
        proof {
            assert(node_models(self@) =~= model_nodes(t@, 0, None));
            lemma_model_nodes_shaped(t@);
            lemma_model_nodes_len(t@, 0, None);
        }
        TreeData { tree: self, data }
    }
}

} // verus!

verus! {

/// The nodes of a tree flattened in preorder form a tree.
pub proof fn lemma_model_nodes_shaped<T>(m: TreeModel<T>)
    ensures
        tree_shaped(model_nodes(m, 0, None)),
{
    let ns = model_nodes(m, 0, None);
    lemma_subtree_shaped(m, 0, None);
    assert forall|i: int, k: int| 0 <= i < ns.len() && 0 <= k < ns[i].children.len() implies {
        let c = #[trigger] ns[i].children[k];
        &&& i < c < ns.len()
        &&& ns[c as int].parent == Some(i as nat)
    } by {
        assert(child_ok(ns, 0, i, ns[i].children[k]));
    }
    assert forall|i: int| 0 < i < ns.len() implies {
        &&& (#[trigger] ns[i]).parent is Some
        &&& ns[i].parent->0 < i
        &&& ns[ns[i].parent->0 as int].children.contains(i as nat)
    } by {
        assert(inner_parent_ok(ns, 0, i));
    }
}

/// A child position of node `k` of a block of nodes starting at `b`: it lies after `k`, inside
/// the block, and names `k` as its parent.
spec fn child_ok(ns: Seq<NodeModel>, b: nat, k: int, c: nat) -> bool {
    &&& b + k < c < b + ns.len()
    &&& ns[c - b].parent == Some((b + k) as nat)
}

/// Node `k` of a block starting at `b` has a parent inside the block, before it, that lists it.
spec fn inner_parent_ok(ns: Seq<NodeModel>, b: nat, k: int) -> bool {
    &&& ns[k].parent is Some
    &&& b <= ns[k].parent->0 < b + k
    &&& ns[ns[k].parent->0 - b].children.contains((b + k) as nat)
}

/// Identifiers, child links and child order of a block of nodes starting at `b` agree.
spec fn block_consistent(ns: Seq<NodeModel>, b: nat) -> bool {
    &&& forall|k: int| 0 <= k < ns.len() ==> #[trigger] ns[k].id == b + k
    &&& forall|k: int, j: int|
        0 <= k < ns.len() && 0 <= j < ns[k].children.len() ==> child_ok(
            ns,
            b,
            k,
            #[trigger] ns[k].children[j],
        )
    &&& forall|k: int, j: int, l: int|
        0 <= k < ns.len() && 0 <= j < l < ns[k].children.len() ==> #[trigger] ns[k].children[j]
            < #[trigger] ns[k].children[l]
}

/// A block of nodes starting at `b` is one subtree whose root has parent `p`.
spec fn subtree_shaped(ns: Seq<NodeModel>, b: nat, p: Option<nat>) -> bool {
    &&& ns.len() > 0
    &&& ns[0].parent == p
    &&& block_consistent(ns, b)
    &&& forall|k: int| 0 < k < ns.len() ==> #[trigger] inner_parent_ok(ns, b, k)
}

/// Node `k` of a forest block starting at `b` either is one of the roots, under `p`, or has a
/// parent inside the block that lists it.
spec fn forest_parent_ok<T>(ns: Seq<NodeModel>, cs: Seq<TreeModel<T>>, b: nat, p: nat, k: int) -> bool {
    ||| ns[k].parent == Some(p) && child_offsets(cs, b).contains((b + k) as nat)
    ||| inner_parent_ok(ns, b, k)
}

/// A block of nodes starting at `b` is the forest `cs` with all roots under `p`.
spec fn forest_shaped<T>(ns: Seq<NodeModel>, cs: Seq<TreeModel<T>>, b: nat, p: nat) -> bool {
    &&& ns.len() == forest_size(cs)
    &&& block_consistent(ns, b)
    &&& forall|j: int|
        0 <= j < cs.len() ==> ns[forest_size(#[trigger] cs.take(j)) as int].parent == Some(p)
    &&& forall|k: int| 0 <= k < ns.len() ==> #[trigger] forest_parent_ok(ns, cs, b, p, k)
}

/// Each tree has at least one node; the trees of a forest follow one another.
proof fn lemma_offsets<T>(cs: Seq<TreeModel<T>>, j: int)
    requires
        0 <= j < cs.len(),
    ensures
        model_size(cs[j]) >= 1,
        forest_size(cs.take(j + 1)) == forest_size(cs.take(j)) + model_size(cs[j]),
        forest_size(cs.take(j)) + model_size(cs[j]) <= forest_size(cs),
{
    assert(cs.take(j + 1).drop_last() =~= cs.take(j));
    lemma_forest_size_prefix(cs, j + 1, cs.len() as int);
    assert(cs.take(cs.len() as int) =~= cs);
}

/// Roots of later trees of a forest come later.
proof fn lemma_offsets_increase<T>(cs: Seq<TreeModel<T>>, j: int, l: int)
    requires
        0 <= j < l <= cs.len(),
    ensures
        forest_size(cs.take(j)) < forest_size(cs.take(l)),
{
    lemma_offsets(cs, j);
    lemma_forest_size_prefix(cs, j + 1, l);
}

/// A tree flattened in preorder from `b` on is one subtree whose root has parent `p`.
proof fn lemma_subtree_shaped<T>(m: TreeModel<T>, b: nat, p: Option<nat>)
    ensures
        subtree_shaped(model_nodes(m, b, p), b, p),
    decreases m,
{
    let cs = m.children;
    let f = forest_nodes(cs, b + 1, b);
    let ns = model_nodes(m, b, p);
    let offs = child_offsets(cs, b + 1);
    lemma_forest_shaped(cs, b + 1, b);
    lemma_forest_nodes_len(cs, b + 1, b);
    assert(ns.len() == f.len() + 1);
    assert forall|k: int| 0 < k < ns.len() implies #[trigger] ns[k] == f[k - 1] by {}
    assert forall|k: int| 0 <= k < ns.len() implies #[trigger] ns[k].id == b + k by {
        if k > 0 {
            assert(ns[k] == f[k - 1]);
        }
    }
    assert forall|k: int, j: int| 0 <= k < ns.len() && 0 <= j < ns[k].children.len() implies child_ok(
        ns,
        b,
        k,
        #[trigger] ns[k].children[j],
    ) by {
        if k == 0 {
            lemma_offsets(cs, j);
            let o = forest_size(cs.take(j));
            assert(ns[k].children[j] == b + 1 + o);
            assert(ns[1 + o as int] == f[o as int]);
        } else {
            assert(ns[k] == f[k - 1]);
            let c = f[k - 1].children[j];
            assert(child_ok(f, b + 1, k - 1, c));
            assert(ns[c - b] == f[c - b - 1]);
        }
    }
    assert forall|k: int, j: int, l: int|
        0 <= k < ns.len() && 0 <= j < l < ns[k].children.len() implies #[trigger] ns[k].children[j]
        < #[trigger] ns[k].children[l] by {
        if k == 0 {
            lemma_offsets_increase(cs, j, l);
        } else {
            assert(ns[k] == f[k - 1]);
            assert(f[k - 1].children[j] < f[k - 1].children[l]);
        }
    }
    assert forall|k: int| 0 < k < ns.len() implies #[trigger] inner_parent_ok(ns, b, k) by {
        assert(ns[k] == f[k - 1]);
        assert(forest_parent_ok(f, cs, b + 1, b, k - 1));
        if f[k - 1].parent == Some(b) && offs.contains((b + k) as nat) {
            assert(ns[0].children == offs);
        } else {
            assert(inner_parent_ok(f, b + 1, k - 1));
            let q = f[k - 1].parent->0;
            assert(ns[q - b] == f[q - b - 1]);
        }
    }
}

/// A forest flattened in preorder from `b` on is a forest block with all roots under `p`.
proof fn lemma_forest_shaped<T>(cs: Seq<TreeModel<T>>, b: nat, p: nat)
    ensures
        forest_shaped(forest_nodes(cs, b, p), cs, b, p),
    decreases cs,
{
    lemma_forest_nodes_len(cs, b, p);
    if cs.len() > 0 {
        let n = cs.len();
        let cp = cs.drop_last();
        let last = cs.last();
        let sp = forest_size(cp);
        let fp = forest_nodes(cp, b, p);
        let t = model_nodes(last, b + sp, Some(p));
        let ns = forest_nodes(cs, b, p);
        lemma_forest_shaped(cp, b, p);
        lemma_subtree_shaped(last, b + sp, Some(p));
        lemma_forest_nodes_len(cp, b, p);
        lemma_model_nodes_len(last, b + sp, Some(p));
        assert(ns == fp + t);
        assert(cs.take(n - 1) =~= cp);
        assert forall|k: int| 0 <= k < sp implies #[trigger] ns[k] == fp[k] by {}
        assert forall|k: int| sp <= k < ns.len() implies #[trigger] ns[k] == t[k - sp] by {}
        assert forall|k: int| 0 <= k < ns.len() implies #[trigger] ns[k].id == b + k by {
            if k < sp {
                assert(ns[k] == fp[k]);
            } else {
                assert(ns[k] == t[k - sp]);
            }
        }
        assert forall|k: int, j: int| 0 <= k < ns.len() && 0 <= j < ns[k].children.len() implies child_ok(
            ns,
            b,
            k,
            #[trigger] ns[k].children[j],
        ) by {
            if k < sp {
                assert(ns[k] == fp[k]);
                let c = fp[k].children[j];
                assert(child_ok(fp, b, k, c));
                assert(ns[c - b] == fp[c - b]);
            } else {
                assert(ns[k] == t[k - sp]);
                let c = t[k - sp].children[j];
                assert(child_ok(t, b + sp, k - sp, c));
                assert(ns[c - b] == t[c - b - sp]);
            }
        }
        assert forall|k: int, j: int, l: int|
            0 <= k < ns.len() && 0 <= j < l < ns[k].children.len() implies #[trigger] ns[k].children[j]
            < #[trigger] ns[k].children[l] by {
            if k < sp {
                assert(ns[k] == fp[k]);
                assert(fp[k].children[j] < fp[k].children[l]);
            } else {
                assert(ns[k] == t[k - sp]);
                assert(t[k - sp].children[j] < t[k - sp].children[l]);
            }
        }
        assert forall|j: int| 0 <= j < cs.len() implies ns[forest_size(
            #[trigger] cs.take(j),
        ) as int].parent == Some(p) by {
            if j < n - 1 {
                assert(cs.take(j) =~= cp.take(j));
                lemma_offsets(cp, j);
                assert(forest_size(cp.take(j)) < sp);
                assert(ns[forest_size(cp.take(j)) as int] == fp[forest_size(cp.take(j)) as int]);
            } else {
                assert(ns[sp as int] == t[0]);
            }
        }
        let offs = child_offsets(cs, b);
        let offs_p = child_offsets(cp, b);
        assert forall|k: int| 0 <= k < ns.len() implies #[trigger] forest_parent_ok(ns, cs, b, p, k) by {
            if k < sp {
                assert(ns[k] == fp[k]);
                assert(forest_parent_ok(fp, cp, b, p, k));
                if fp[k].parent == Some(p) && offs_p.contains((b + k) as nat) {
                    let w = choose|w: int| 0 <= w < offs_p.len() && offs_p[w] == (b + k) as nat;
                    assert(cs.take(w) =~= cp.take(w));
                    assert(offs[w] == offs_p[w]);
                    assert(offs.contains((b + k) as nat));
                } else {
                    assert(inner_parent_ok(fp, b, k));
                    let q = fp[k].parent->0;
                    assert(ns[q - b] == fp[q - b]);
                }
            } else if k == sp {
                assert(ns[k] == t[0]);
                assert(offs[n - 1] == b + sp);
                assert(offs.contains((b + k) as nat));
            } else {
                assert(ns[k] == t[k - sp]);
                assert(inner_parent_ok(t, b + sp, k - sp));
                let q = t[k - sp].parent->0;
                assert(ns[q - b] == t[q - b - sp]);
            }
        }
    }
}

} // verus!


verus! {

/// The sizes of the subtrees of a tree, one per node, in preorder.
pub open spec fn model_sizes<T>(m: TreeModel<T>) -> Seq<nat>
    decreases m,
{
    seq![model_size(m)] + forest_sizes(m.children)
}

/// The sizes of the subtrees of a forest, one per node, in preorder.
pub open spec fn forest_sizes<T>(cs: Seq<TreeModel<T>>) -> Seq<nat>
    decreases cs,
{
    if cs.len() == 0 {
        seq![]
    } else {
        forest_sizes(cs.drop_last()) + model_sizes(cs.last())
    }
}

/// Node `k` of a block of nodes whose ids start at `b` owns the ids `b + k .. b + k + sz[k]`:
/// a leaf owns its own id only; otherwise its first child is `b + k + 1`, each later child
/// comes right after the range of the one before, every child's range lies inside `k`'s, and
/// the last child's range ends where `k`'s does.
pub open spec fn node_spans(ns: Seq<NodeModel>, sz: Seq<nat>, b: nat, k: int) -> bool {
    let cs = ns[k].children;
    &&& 1 <= sz[k]
    &&& k + sz[k] <= ns.len()
    &&& cs.len() == 0 ==> sz[k] == 1
    &&& cs.len() > 0 ==> cs[0] == b + k + 1 && cs.last() + sz[cs.last() - b] == b + k + sz[k]
    &&& forall|j: int|
        0 <= j < cs.len() ==> {
            &&& b + k < #[trigger] cs[j] < b + k + sz[k]
            &&& cs[j] - b + sz[cs[j] - b] <= k + sz[k]
        }
    &&& forall|j: int| 0 < j < cs.len() ==> #[trigger] cs[j] == cs[j - 1] + sz[cs[j - 1] - b]
}

/// Every node of a block whose ids start at `b` owns a contiguous range of ids, as
/// [`node_spans`] says, with `sz` giving the length of each range.
pub open spec fn spans_contiguous(ns: Seq<NodeModel>, sz: Seq<nat>, b: nat) -> bool {
    &&& sz.len() == ns.len()
    &&& forall|k: int| 0 <= k < ns.len() ==> #[trigger] node_spans(ns, sz, b, k)
}

/// A block followed by another: the nodes of the first keep their ranges.
proof fn lemma_spans_prefix(a: Seq<NodeModel>, sa: Seq<nat>, c: Seq<NodeModel>, sc: Seq<nat>, b: nat)
    requires
        spans_contiguous(a, sa, b),
        sc.len() == c.len(),
    ensures
        forall|k: int| 0 <= k < a.len() ==> #[trigger] node_spans(a + c, sa + sc, b, k),
{
    let ns = a + c;
    let sz = sa + sc;
    assert forall|k: int| 0 <= k < a.len() implies #[trigger] node_spans(ns, sz, b, k) by {
        assert(node_spans(a, sa, b, k));
        assert(ns[k] == a[k]);
        let cs = a[k].children;
        assert forall|j: int| 0 <= j < cs.len() implies {
            &&& b + k < #[trigger] cs[j] < b + k + sz[k]
            &&& cs[j] - b + sz[cs[j] - b] <= k + sz[k]
        } by {
            assert(sz[cs[j] - b] == sa[cs[j] - b]);
        }
        assert forall|j: int| 0 < j < cs.len() implies #[trigger] cs[j] == cs[j - 1] + sz[cs[j
            - 1] - b] by {
            assert(b + k < cs[j - 1] < b + k + sa[k]);
            assert(sz[cs[j - 1] - b] == sa[cs[j - 1] - b]);
        }
        if cs.len() > 0 {
            assert(b + k < cs[cs.len() - 1] < b + k + sa[k]);
            assert(sz[cs.last() - b] == sa[cs.last() - b]);
        }
    }
}

/// A block preceded by another: the nodes of the second keep their ranges, shifted.
proof fn lemma_spans_suffix(a: Seq<NodeModel>, sa: Seq<nat>, c: Seq<NodeModel>, sc: Seq<nat>, b: nat)
    requires
        spans_contiguous(c, sc, b + a.len()),
        sa.len() == a.len(),
    ensures
        forall|k: int| a.len() <= k < a.len() + c.len() ==> #[trigger] node_spans(a + c, sa + sc, b, k),
{
    let ns = a + c;
    let sz = sa + sc;
    let n = a.len() as int;
    let bc = (b + a.len()) as nat;
    assert forall|k: int| n <= k < n + c.len() implies #[trigger] node_spans(ns, sz, b, k) by {
        let k2 = k - n;
        assert(node_spans(c, sc, bc, k2));
        assert(ns[k] == c[k2]);
        assert(sz[k] == sc[k2]);
        let cs = c[k2].children;
        assert forall|j: int| 0 <= j < cs.len() implies {
            &&& b + k < #[trigger] cs[j] < b + k + sz[k]
            &&& cs[j] - b + sz[cs[j] - b] <= k + sz[k]
        } by {
            assert(bc + k2 < cs[j] < bc + k2 + sc[k2]);
            assert(sz[cs[j] - b] == sc[cs[j] - bc]);
        }
        assert forall|j: int| 0 < j < cs.len() implies #[trigger] cs[j] == cs[j - 1] + sz[cs[j
            - 1] - b] by {
            assert(bc + k2 < cs[j - 1] < bc + k2 + sc[k2]);
            assert(sz[cs[j - 1] - b] == sc[cs[j - 1] - bc]);
        }
        if cs.len() > 0 {
            assert(bc + k2 < cs[cs.len() - 1] < bc + k2 + sc[k2]);
            assert(sz[cs.last() - b] == sc[cs.last() - bc]);
        }
    }
}

/// A tree flattened in preorder from `b` on: every node owns a contiguous range of ids, and
/// the root's range is the whole block.
proof fn lemma_subtree_spans<T>(m: TreeModel<T>, b: nat, p: Option<nat>)
    ensures
        spans_contiguous(model_nodes(m, b, p), model_sizes(m), b),
        model_sizes(m).len() == model_size(m),
        model_sizes(m)[0] == model_size(m),
    decreases m,
{
    let cs = m.children;
    let f = forest_nodes(cs, b + 1, b);
    let fs = forest_sizes(cs);
    let root = NodeModel { id: b, parent: p, children: child_offsets(cs, b + 1) };
    let ns = model_nodes(m, b, p);
    let sz = model_sizes(m);
    lemma_forest_spans(cs, b + 1, b);
    lemma_forest_nodes_len(cs, b + 1, b);
    assert(ns == seq![root] + f);
    assert(sz == seq![model_size(m)] + fs);
    lemma_spans_suffix(seq![root], seq![model_size(m)], f, fs, b);
    let rc = root.children;
    assert(ns[0] == root);
    assert forall|j: int| 0 <= j < rc.len() implies {
        &&& b + 0 < #[trigger] rc[j] < b + 0 + sz[0]
        &&& rc[j] - b + sz[rc[j] - b] <= 0 + sz[0]
    } by {
        lemma_offsets(cs, j);
        assert(sz[rc[j] - b] == fs[forest_size(cs.take(j)) as int]);
    }
    assert forall|j: int| 0 < j < rc.len() implies #[trigger] rc[j] == rc[j - 1] + sz[rc[j - 1]
        - b] by {
        lemma_offsets(cs, j - 1);
        assert(cs.take(j - 1 + 1) == cs.take(j));
        assert(sz[rc[j - 1] - b] == fs[forest_size(cs.take(j - 1)) as int]);
    }
    if rc.len() > 0 {
        let l = rc.len() - 1;
        lemma_offsets(cs, l);
        assert(cs.take(l + 1) =~= cs);
        assert(sz[rc.last() - b] == fs[forest_size(cs.take(l)) as int]);
        assert(cs.take(0) =~= Seq::<TreeModel<T>>::empty());
    }
    assert(node_spans(ns, sz, b, 0));
}

/// A forest flattened in preorder from `b` on: every node owns a contiguous range of ids, and
/// each root's range is as long as its tree.
proof fn lemma_forest_spans<T>(cs: Seq<TreeModel<T>>, b: nat, p: nat)
    ensures
        spans_contiguous(forest_nodes(cs, b, p), forest_sizes(cs), b),
        forest_sizes(cs).len() == forest_size(cs),
        forall|j: int|
            0 <= j < cs.len() ==> forest_sizes(cs)[forest_size(#[trigger] cs.take(j)) as int]
                == model_size(cs[j]),
    decreases cs,
{
    lemma_forest_nodes_len(cs, b, p);
    if cs.len() > 0 {
        let n = cs.len();
        let cp = cs.drop_last();
        let last = cs.last();
        let sp = forest_size(cp);
        let fp = forest_nodes(cp, b, p);
        let t = model_nodes(last, b + sp, Some(p));
        lemma_forest_spans(cp, b, p);
        lemma_subtree_spans(last, b + sp, Some(p));
        lemma_forest_nodes_len(cp, b, p);
        lemma_model_nodes_len(last, b + sp, Some(p));
        let ns = forest_nodes(cs, b, p);
        let sz = forest_sizes(cs);
        assert(ns == fp + t);
        assert(sz == forest_sizes(cp) + model_sizes(last));
        lemma_spans_prefix(fp, forest_sizes(cp), t, model_sizes(last), b);
        lemma_spans_suffix(fp, forest_sizes(cp), t, model_sizes(last), b);
        assert forall|k: int| 0 <= k < ns.len() implies #[trigger] node_spans(ns, sz, b, k) by {
            if k < fp.len() {
            } else {
            }
        }
        assert forall|j: int| 0 <= j < cs.len() implies sz[forest_size(
            #[trigger] cs.take(j),
        ) as int] == model_size(cs[j]) by {
            if j < n - 1 {
                assert(cs.take(j) =~= cp.take(j));
                lemma_offsets(cp, j);
                assert(cp[j] == cs[j]);
            } else {
                assert(cs.take(j) =~= cp);
            }
        }
    }
}

/// After a tree is flattened in preorder (what [`TreeStructure::load_data`] builds), every
/// node's subtree occupies a contiguous range of ids: node `k`, whose subtree has `s` nodes,
/// owns the ids `k .. k + s`; its first child is `k + 1`, each later child starts right after
/// the subtree of the one before, and the last child's subtree ends where `k`'s does. The
/// root's range is the whole tree.
pub proof fn lemma_model_nodes_contiguous<T>(m: TreeModel<T>)
    ensures
        spans_contiguous(model_nodes(m, 0, None), model_sizes(m), 0),
        model_sizes(m).len() == model_size(m),
        model_sizes(m)[0] == model_size(m),
{
    lemma_subtree_spans(m, 0, None);
}

} // verus!

verus! {

/// Each output is what `f` returns on the input at the same position.
pub open spec fn produced_by<F: FnMut(V) -> D, V, D>(f: F, vals: Seq<V>, out: Seq<D>) -> bool {
    &&& vals.len() == out.len()
    &&& forall|i: int| 0 <= i < out.len() ==> call_ensures(f, (vals[i],), #[trigger] out[i])
}

impl TreeStructure {
    fn load_data_fn_inner<V, D, F: FnMut(V) -> D>(
        &mut self,
        t: Tree<V>,
        parent: Option<NodeId>,
        data_fn: &mut F,
        data: &mut Vec<D>,
    )
        requires
            t.wf(),
            old(self)@.len() + model_size(t@) <= usize::MAX,
            forall|x: V| call_requires(*old(data_fn), (x,)),
        ensures
            *final(data_fn) == *old(data_fn),
            node_models(final(self)@) == node_models(old(self)@) + model_nodes(
                t@,
                old(self)@.len() as nat,
                opt_index(parent),
            ),
            final(data)@.len() == old(data)@.len() + model_size(t@),
            final(data)@.take(old(data)@.len() as int) == old(data)@,
            produced_by::<F, V, D>(
                *old(data_fn),
                model_values(t@),
                final(data)@.skip(old(data)@.len() as int),
            ),
        decreases t,
    {
        let ghost f0 = *data_fn;
        let root_idx = self.nodes.len();
        let root_id = NodeId(root_idx);
        let ghost m = t@;
        let ghost t0 = t;
        let ghost cms = m.children;
        let ghost data0 = data@;
        proof {
            t.lemma_view_children();
            assert(tree_wf(t));
            lemma_forest_wf(t.children@);
            lemma_model_nodes_len(m, root_idx as nat, opt_index(parent));
        }
        let mut children = Vec::<NodeId>::with_capacity(t.children.len());
        let mut child_idx = root_idx + 1;
        let mut i: usize = 0;
        while i < t.children.len()
            invariant
                i <= t.children@.len(),
                children@.len() == i,
                cms == t@.children,
                cms.len() == t.children@.len(),
                forall|j: int| 0 <= j < cms.len() ==> #[trigger] cms[j] == t.children@[j]@,
                forall|j: int| 0 <= j < cms.len() ==> #[trigger] tree_wf(t.children@[j]),
                root_idx + model_size(m) <= usize::MAX,
                model_size(m) == 1 + forest_size(cms),
                child_idx == root_idx + 1 + forest_size(cms.take(i as int)),
                children@.map_values(|c: NodeId| c.index()) == child_offsets(
                    cms,
                    (root_idx + 1) as nat,
                ).take(i as int),
            decreases t.children@.len() - i,
        {
            proof {
                assert(cms.take(i + 1).drop_last() =~= cms.take(i as int));
                lemma_forest_size_prefix(cms, i as int + 1, cms.len() as int);
                assert(cms.take(cms.len() as int) =~= cms);
                assert(tree_wf(t.children@[i as int]));
            }
            let ghost prev = children@;
            children.push(NodeId(child_idx));
            proof {
                let offs = child_offsets(cms, (root_idx + 1) as nat);
                let mapped = children@.map_values(|c: NodeId| c.index());
                assert forall|j: int| 0 <= j <= i implies #[trigger] mapped[j] == offs.take(
                    i + 1,
                )[j] by {
                    if j < i {
                        assert(children@[j] == prev[j]);
                        assert(prev.map_values(|c: NodeId| c.index())[j] == offs.take(i as int)[j]);
                    }
                }
                assert(mapped =~= offs.take(i + 1));
            }
            child_idx = child_idx + t.children[i].num_nodes;
            i = i + 1;
        }
        let Tree { val, children: subtrees, num_nodes: _ } = t;
        let ghost v0 = val;
        let d = data_fn(val);
        data.push(d);
        let root_node = Node { id: root_id, parent, children };
        self.nodes.push(root_node);
        let ghost mid_nodes = node_models(self@);
        proof {
            assert(children@.map_values(|c: NodeId| c.index()) =~= child_offsets(
                cms,
                (root_idx + 1) as nat,
            ));
            assert(call_ensures(f0, (v0,), d));
            let out = data@.skip(data0.len() as int);
            assert(out =~= seq![d]);
            assert(cms.take(0) =~= Seq::<TreeModel<V>>::empty());
            let vals = seq![v0] + forest_values(cms.take(0));
            assert(vals =~= seq![v0]);
            assert(call_ensures(f0, (vals[0],), out[0]));
            assert(produced_by::<F, V, D>(f0, vals, out));
            assert(data@.take(data0.len() as int) =~= data0);
        }
        let ghost sub = subtrees@;
        for c in it: subtrees
            invariant
                sub == it.seq(),
                sub == t0.children@,
                t0 == t,
                root_id == NodeId(root_idx),
                *data_fn == f0,
                forall|x: V| call_requires(f0, (x,)),
                sub.len() == cms.len(),
                forall|j: int| 0 <= j < cms.len() ==> #[trigger] cms[j] == sub[j]@,
                forall|j: int| 0 <= j < cms.len() ==> #[trigger] tree_wf(sub[j]),
                root_idx + 1 + forest_size(cms) <= usize::MAX,
                node_models(self@) == mid_nodes + forest_nodes(
                    cms.take(it.index() as int),
                    (root_idx + 1) as nat,
                    root_idx as nat,
                ),
                self@.len() == root_idx + 1 + forest_size(cms.take(it.index() as int)),
                data@.len() == data0.len() + 1 + forest_size(cms.take(it.index() as int)),
                data@.take(data0.len() as int) == data0,
                produced_by::<F, V, D>(
                    f0,
                    seq![v0] + forest_values(cms.take(it.index() as int)),
                    data@.skip(data0.len() as int),
                ),
        {
            let ghost k = it.index();
            proof {
                assert(c == t0.children@[k as int]);
                assert(decreases_to!(t0 => c));
                lemma_forest_size_prefix(cms, k as int + 1, cms.len() as int);
                assert(cms.take(cms.len() as int) =~= cms);
                assert(cms.take(k + 1).drop_last() =~= cms.take(k as int));
                lemma_forest_nodes_len(cms.take(k as int), (root_idx + 1) as nat, root_idx as nat);
            }
            let ghost before_nodes = node_models(self@);
            let ghost before_data = data@;
            self.load_data_fn_inner(c, Some(root_id), data_fn, data);
            proof {
                let tk = cms.take(k + 1);
                assert(tk.drop_last() =~= cms.take(k as int));
                assert(tk.last() == c@);
                lemma_model_nodes_len(
                    c@,
                    (root_idx + 1 + forest_size(cms.take(k as int))) as nat,
                    Some(root_idx as nat),
                );
                assert(node_models(self@) =~= mid_nodes + forest_nodes(
                    tk,
                    (root_idx + 1) as nat,
                    root_idx as nat,
                ));
                assert(data@.take(data0.len() as int) =~= data0);
                let vals_old = seq![v0] + forest_values(cms.take(k as int));
                let vals_new = seq![v0] + forest_values(tk);
                assert(vals_new =~= vals_old + model_values(c@));
                lemma_forest_nodes_len(tk, (root_idx + 1) as nat, root_idx as nat);
                let out = data@.skip(data0.len() as int);
                let out_old = before_data.skip(data0.len() as int);
                let out_c = data@.skip(before_data.len() as int);
                assert(out =~= out_old + out_c);
                assert forall|j: int| 0 <= j < out.len() implies call_ensures(
                    f0,
                    (vals_new[j],),
                    #[trigger] out[j],
                ) by {
                    if j < out_old.len() {
                        assert(out[j] == out_old[j]);
                        assert(vals_new[j] == vals_old[j]);
                        assert(call_ensures(f0, (vals_old[j],), out_old[j]));
                    } else {
                        let jj = j - out_old.len();
                        assert(out[j] == out_c[jj]);
                        assert(vals_new[j] == model_values(c@)[jj]);
                        assert(call_ensures(f0, (model_values(c@)[jj],), out_c[jj]));
                    }
                }
            }
        }
        proof {
            assert(cms.take(cms.len() as int) =~= cms);
            assert(model_nodes(m, root_idx as nat, opt_index(parent)) =~= seq![
                NodeModel { id: root_idx as nat, parent: opt_index(parent), children: child_offsets(cms, (root_idx + 1) as nat) },
            ] + forest_nodes(cms, (root_idx + 1) as nat, root_idx as nat));
            assert(model_values(m) =~= seq![v0] + forest_values(cms));
        }
    }

    /// Replaces the contents by the nodes of `t` in preorder, and pairs each node with the
    /// result of `data_fn` on its value; `data_fn` is called once per node, in preorder.
    pub fn load_data_fn<'t, V, D, F: FnMut(V) -> D>(&'t mut self, t: Tree<V>, data_fn: F) -> (r:
        TreeData<'t, D>)
        requires
            t.wf(),
            forall|x: V| call_requires(data_fn, (x,)),
        ensures
            node_models(r.structure()@) == model_nodes(t@, 0, None),
            produced_by::<F, V, D>(data_fn, model_values(t@), r.values()),
            r.wf(),
            final(self)@ == r.structure()@,
    {
        let mut data_fn = data_fn;
        self.nodes.clear();
        proof {
            assert(tree_wf(t));
        }
        let mut data = Vec::<D>::with_capacity(t.len());
        self.load_data_fn_inner(t, None, &mut data_fn, &mut data);
        proof {
            assert(node_models(self@) =~= model_nodes(t@, 0, None));
            assert(data@.skip(0) =~= data@);
            lemma_model_nodes_shaped(t@);
            lemma_model_nodes_len(t@, 0, None);
        }
        TreeData { tree: self, data }
    }
}

} // verus!

verus! {

impl<'t, D> TreeData<'t, D> {
    /// The structure the values belong to.
    pub fn tree(&self) -> (r: &'t TreeStructure)
        ensures
            *r == self.structure(),
    {
        self.tree
    }

    /// A new value table over the same structure, holding the default value at every node.
    pub fn new_default<V: Default>(&self) -> (r: TreeData<'t, V>)
        ensures
            r.structure() == self.structure(),
            r.values().len() == self.structure()@.len(),
            forall|i: int|
                0 <= i < r.values().len() ==> call_ensures(V::default, (), #[trigger] r.values()[i]),
    {
        let n = self.tree.nodes.len();
        let mut data: Vec<V> = Vec::with_capacity(n);
        for i in 0..n
            invariant
                n == self.structure()@.len(),
                data@.len() == i,
                forall|j: int| 0 <= j < i ==> call_ensures(V::default, (), #[trigger] data@[j]),
        {
            data.push(V::default());
        }
        TreeData { tree: self.tree, data }
    }

    /// A new value table over the same structure, holding `derive_fn` of each node.
    pub fn derive_from_nodes<V, F: Fn(&Node) -> V>(&self, derive_fn: F) -> (r: TreeData<'t, V>)
        requires
            forall|i: int|
                0 <= i < self.structure()@.len() ==> call_requires(
                    derive_fn,
                    (&#[trigger] self.structure()@[i],),
                ),
        ensures
            r.structure() == self.structure(),
            r.values().len() == self.structure()@.len(),
            forall|i: int|
                0 <= i < r.values().len() ==> call_ensures(
                    derive_fn,
                    (&self.structure()@[i],),
                    #[trigger] r.values()[i],
                ),
    {
        let n = self.tree.nodes.len();
        let mut data: Vec<V> = Vec::with_capacity(n);
        for i in 0..n
            invariant
                n == self.structure()@.len(),
                data@.len() == i,
                forall|j: int|
                    0 <= j < self.structure()@.len() ==> call_requires(
                        derive_fn,
                        (&#[trigger] self.structure()@[j],),
                    ),
                forall|j: int|
                    0 <= j < i ==> call_ensures(
                        derive_fn,
                        (&self.structure()@[j],),
                        #[trigger] data@[j],
                    ),
        {
            data.push(derive_fn(&self.tree.nodes[i]));
        }
        TreeData { tree: self.tree, data }
    }

    /// A new value table over the same structure, holding `derive_fn` of the structure, each
    /// node and its value.
    pub fn derive<V, F: Fn(&TreeStructure, &Node, &D) -> V>(&self, derive_fn: F) -> (r: TreeData<
        't,
        V,
    >)
        requires
            self.wf(),
            forall|i: int|
                0 <= i < self.structure()@.len() ==> call_requires(
                    derive_fn,
                    (&self.structure(), &#[trigger] self.structure()@[i], &self.values()[i]),
                ),
        ensures
            r.structure() == self.structure(),
            r.values().len() == self.structure()@.len(),
            forall|i: int|
                0 <= i < r.values().len() ==> call_ensures(
                    derive_fn,
                    (&self.structure(), &self.structure()@[i], &self.values()[i]),
                    #[trigger] r.values()[i],
                ),
    {
        let n = self.tree.nodes.len();
        let mut data: Vec<V> = Vec::with_capacity(n);
        for i in 0..n
            invariant
                n == self.structure()@.len(),
                self.wf(),
                data@.len() == i,
                forall|j: int|
                    0 <= j < self.structure()@.len() ==> call_requires(
                        derive_fn,
                        (&self.structure(), &#[trigger] self.structure()@[j], &self.values()[j]),
                    ),
                forall|j: int|
                    0 <= j < i ==> call_ensures(
                        derive_fn,
                        (&self.structure(), &self.structure()@[j], &self.values()[j]),
                        #[trigger] data@[j],
                    ),
        {
            data.push(derive_fn(self.tree, &self.tree.nodes[i], &self.data[i]));
        }
        TreeData { tree: self.tree, data }
    }

    /// Consumes the table and maps each node and its value through `transform_fn`.
    pub fn transform<V, F: Fn(&Node, D) -> V>(self, transform_fn: F) -> (r: TreeData<'t, V>)
        requires
            self.wf(),
            forall|i: int|
                0 <= i < self.structure()@.len() ==> call_requires(
                    transform_fn,
                    (&#[trigger] self.structure()@[i], self.values()[i]),
                ),
        ensures
            r.structure() == self.structure(),
            r.values().len() == self.structure()@.len(),
            forall|i: int|
                0 <= i < r.values().len() ==> call_ensures(
                    transform_fn,
                    (&self.structure()@[i], self.values()[i]),
                    #[trigger] r.values()[i],
                ),
    {
        let ghost old_values = self.values();
        let ghost st = self.structure();
        let TreeData { tree, data } = self;
        let n = data.len();
        let mut out: Vec<V> = Vec::with_capacity(n);
        let mut i: usize = 0;
        for d in it: data
            invariant
                it.seq() == old_values,
                i == it.index(),
                old_values.len() <= usize::MAX,
                st == *tree,
                old_values.len() == st@.len(),
                out@.len() == i,
                forall|j: int|
                    0 <= j < st@.len() ==> call_requires(
                        transform_fn,
                        (&#[trigger] st@[j], old_values[j]),
                    ),
                forall|j: int|
                    0 <= j < i ==> call_ensures(
                        transform_fn,
                        (&st@[j], old_values[j]),
                        #[trigger] out@[j],
                    ),
        {
            out.push(transform_fn(&tree.nodes[i], d));
            i = i + 1;
        }
        TreeData { tree, data: out }
    }

    /// Whether there are no values, which is when the structure has no node.
    pub fn is_empty(&self) -> (r: bool)
        ensures
            r == (self.values().len() == 0),
    {
        self.data.is_empty()
    }

    /// The value of a node.
    pub fn get(&self, id: NodeId) -> (r: &D)
        requires
            id.index() < self.values().len(),
        ensures
            *r == self.values()[id.index() as int],
    {
        &self.data[id.0]
    }

    /// Mutable access to the value of a node; every other value stays as it was.
    pub fn get_mut(&mut self, id: NodeId) -> (r: &mut D)
        requires
            id.index() < old(self).values().len(),
        ensures
            *r == old(self).values()[id.index() as int],
            final(self).values() == old(self).values().update(id.index() as int, *final(r)),
            final(self).structure() == old(self).structure(),
    {
        &mut self.data[id.0]
    }

    /// The children of a node, in order.
    pub fn iter_children(&self, node_id: NodeId) -> (r: &'t [NodeId])
        requires
            node_id.index() < self.structure()@.len(),
        ensures
            r@ == self.structure()@[node_id.index() as int].children@,
    {
        self.tree.iter_children(node_id)
    }

    /// The first child of a node.
    pub fn first_child(&self, node_id: NodeId) -> (r: NodeId)
        requires
            node_id.index() < self.structure()@.len(),
            self.structure()@[node_id.index() as int].children@.len() > 0,
        ensures
            r == self.structure()@[node_id.index() as int].children@[0],
    {
        self.tree.first_child(node_id)
    }

    /// The last child of a node.
    pub fn last_child(&self, node_id: NodeId) -> (r: NodeId)
        requires
            node_id.index() < self.structure()@.len(),
            self.structure()@[node_id.index() as int].children@.len() > 0,
        ensures
            r == self.structure()@[node_id.index() as int].children@.last(),
    {
        self.tree.last_child(node_id)
    }

    /// The `i`-th child of a node.
    pub fn get_child(&self, node_id: NodeId, i: usize) -> (r: NodeId)
        requires
            node_id.index() < self.structure()@.len(),
            i < self.structure()@[node_id.index() as int].children@.len(),
        ensures
            r == self.structure()@[node_id.index() as int].children@[i as int],
    {
        self.tree.get_child(node_id, i)
    }

    /// How many children a node has.
    pub fn num_children(&self, node_id: NodeId) -> (r: usize)
        requires
            node_id.index() < self.structure()@.len(),
        ensures
            r == self.structure()@[node_id.index() as int].children@.len(),
    {
        self.tree.num_children(node_id)
    }

    /// Whether a node has at least one child.
    pub fn has_children(&self, node_id: NodeId) -> (r: bool)
        requires
            node_id.index() < self.structure()@.len(),
        ensures
            r == (self.structure()@[node_id.index() as int].children@.len() > 0),
    {
        self.tree.has_children(node_id)
    }

    /// The root, which is the first node in preorder, if there is any node.
    pub fn root(&self) -> (r: Option<NodeId>)
        ensures
            r is None <==> self.structure()@.len() == 0,
            r matches Some(id) ==> id == self.structure()@[0].id,
    {
        self.tree.root()
    }

    /// Each node paired with its value, in preorder.
    pub fn iter_preorder(&self) -> (r: Vec<(&Node, &D)>)
        requires
            self.wf(),
        ensures
            r@.len() == self.structure()@.len(),
            forall|i: int|
                0 <= i < r@.len() ==> *(#[trigger] r@[i]).0 == self.structure()@[i] && *r@[i].1
                    == self.values()[i],
    {
        let n = self.tree.nodes.len();
        let mut out: Vec<(&Node, &D)> = Vec::with_capacity(n);
        for i in 0..n
            invariant
                n == self.structure()@.len(),
                self.wf(),
                out@.len() == i,
                forall|j: int|
                    0 <= j < i ==> *(#[trigger] out@[j]).0 == self.structure()@[j] && *out@[j].1
                        == self.values()[j],
        {
            out.push((&self.tree.nodes[i], &self.data[i]));
        }
        out
    }

    /// The nodes in preorder beside mutable access to their values, position for position.
    pub fn iter_mut_preorder(&mut self) -> (r: (&'t [Node], &mut [D]))
        ensures
            r.0@ == old(self).structure()@,
            r.1@ == old(self).values(),
            final(self).values() == final(r.1)@,
            final(self).structure() == old(self).structure(),
    {
        (self.tree.nodes.as_slice(), self.data.as_mut_slice())
    }

    /// The nodes in preorder.
    pub fn iter_nodes_preorder(&self) -> (r: &'t [Node])
        ensures
            r@ == self.structure()@,
    {
        self.tree.iter_preorder()
    }
}

} // verus!

verus! {

/// A tree as it is read from JSON: the node's content and, optionally, its subtrees.
pub struct JsonTree<T> {
    pub content: T,
    pub children: Option<Vec<Tree<T>>>,
}

/// The subtrees a JSON tree stands for; a missing list means none.
pub open spec fn json_children<T>(children: Option<Vec<Tree<T>>>) -> Seq<Tree<T>> {
    match children {
        Some(v) => v@,
        None => Seq::empty(),
    }
}

impl<T> Tree<T> {
    /// The tree a JSON tree stands for: its content at the root over its subtrees, if any.
    pub fn from_json(value: JsonTree<T>) -> (r: Tree<T>)
        requires
            forall|i: int|
                0 <= i < json_children(value.children).len() ==> #[trigger] json_children(
                    value.children,
                )[i].wf(),
            1 + forest_size(json_children(value.children).map_values(|c: Tree<T>| c@))
                <= usize::MAX,
        ensures
            r.wf(),
            r@ == (TreeModel {
                val: value.content,
                children: json_children(value.children).map_values(|c: Tree<T>| c@),
            }),
    {
        let children = match value.children {
            Some(v) => v,
            None => Vec::new(),
        };
        Tree::new(value.content, children)
    }
}

} // verus!

verus! {

/// Trees whose sizes agree position by position make forests of the same size.
proof fn lemma_forest_size_pointwise<T>(a: Seq<TreeModel<T>>, b: Seq<TreeModel<T>>)
    requires
        a.len() == b.len(),
        forall|i: int| 0 <= i < a.len() ==> model_size(#[trigger] a[i]) == model_size(b[i]),
    ensures
        forest_size(a) == forest_size(b),
    decreases a.len(),
{
    if a.len() > 0 {
        lemma_forest_size_pointwise(a.drop_last(), b.drop_last());
    }
}

/// `b` has the shape of `a`, and each of its values is a clone of the value at the same place
/// in `a`.
pub open spec fn model_cloned<T: Clone>(a: TreeModel<T>, b: TreeModel<T>) -> bool
    decreases a,
{
    &&& cloned(a.val, b.val)
    &&& a.children.len() == b.children.len()
    &&& forall|i: int|
        0 <= i < a.children.len() ==> #[trigger] model_cloned(a.children[i], b.children[i])
}

impl<T: Clone> Clone for Tree<T> {
    /// A copy of the tree, each value cloned; the shape and the node counts stay.
    fn clone(&self) -> (r: Self)
        ensures
            tree_wf(*self) ==> tree_wf(r),
            self.wf() ==> r.wf(),
            model_size(r@) == model_size(self@),
            model_cloned(self@, r@),
        decreases self,
    {
        let mut children: Vec<Tree<T>> = Vec::with_capacity(self.children.len());
        let ghost cs = self.children@;
        proof {
            self.lemma_view_children();
            lemma_forest_wf(cs);
        }
        for i in 0..self.children.len()
            invariant
                cs == self.children@,
                children@.len() == i,
                forall|j: int| 0 <= j < i ==> model_size(#[trigger] children@[j]@) == model_size(cs[j]@),
                forall|j: int| 0 <= j < i ==> tree_wf(cs[j]) ==> tree_wf(#[trigger] children@[j]),
                forall|j: int| 0 <= j < i ==> model_cloned(cs[j]@, #[trigger] children@[j]@),
        {
            proof {
                assert(decreases_to!(self => self.children@[i as int]));
            }
            let c = self.children[i].clone();
            children.push(c);
        }
        let r = Tree { val: self.val.clone(), children, num_nodes: self.num_nodes };
        proof {
            r.lemma_view_children();
            lemma_forest_size_pointwise(r@.children, self@.children);
            if tree_wf(*self) {
                lemma_forest_wf(r.children@);
            }
            self.lemma_view_children();
            assert forall|i: int| 0 <= i < self@.children.len() implies #[trigger] model_cloned(
                self@.children[i],
                r@.children[i],
            ) by {
                assert(model_cloned(cs[i]@, children@[i]@));
            }
        }
        r
    }
}

} // verus!

verus! {

/// The values of a tree in postorder: each node after all of its children.
pub open spec fn model_postorder<T>(m: TreeModel<T>) -> Seq<T>
    decreases m,
{
    forest_postorder(m.children) + seq![m.val]
}

/// The values of a forest in postorder, tree after tree.
pub open spec fn forest_postorder<T>(cs: Seq<TreeModel<T>>) -> Seq<T>
    decreases cs,
{
    if cs.len() == 0 {
        seq![]
    } else {
        forest_postorder(cs.drop_last()) + model_postorder(cs.last())
    }
}

/// Reversing a concatenation reverses each part and swaps them.
proof fn lemma_reverse_concat<A>(a: Seq<A>, b: Seq<A>)
    ensures
        (a + b).reverse() == b.reverse() + a.reverse(),
{
    assert((a + b).reverse() =~= b.reverse() + a.reverse());
}

/// The preorder values of a forest are those of its first tree, then those of the rest.
proof fn lemma_forest_values_first<T>(cs: Seq<TreeModel<T>>)
    requires
        cs.len() > 0,
    ensures
        forest_values(cs) == model_values(cs[0]) + forest_values(cs.drop_first()),
    decreases cs.len(),
{
    if cs.len() > 1 {
        lemma_forest_values_first(cs.drop_last());
        assert(cs.drop_last().drop_first() =~= cs.drop_first().drop_last());
        assert(cs.drop_first().last() == cs.last());
        assert(forest_values(cs) =~= model_values(cs[0]) + forest_values(cs.drop_first()));
    } else {
        assert(cs.drop_last() =~= Seq::<TreeModel<T>>::empty());
        assert(cs.drop_first() =~= Seq::<TreeModel<T>>::empty());
        assert(forest_values(cs) =~= model_values(cs[0]) + forest_values(cs.drop_first()));
    }
}

/// Mirroring reverses the children of every node, at every depth: the mirrored tree, read in
/// postorder, lists the values of the tree in reverse preorder.
pub proof fn lemma_mirror_postorder<T>(m: TreeModel<T>)
    ensures
        model_postorder(mirror_model(m)) == model_values(m).reverse(),
    decreases m,
{
    let cs = m.children;
    let rs = mirror_model(m).children;
    lemma_mirror_forest_postorder(cs, rs);
    lemma_reverse_concat(seq![m.val], forest_values(cs));
    assert(seq![m.val].reverse() =~= seq![m.val]);
}

/// A forest of the mirrors of the trees of `cs`, in reverse order, lists in postorder the
/// values of `cs` in reverse preorder.
proof fn lemma_mirror_forest_postorder<T>(cs: Seq<TreeModel<T>>, rs: Seq<TreeModel<T>>)
    requires
        rs.len() == cs.len(),
        forall|i: int| 0 <= i < rs.len() ==> #[trigger] rs[i] == mirror_model(cs[cs.len() - 1 - i]),
    ensures
        forest_postorder(rs) == forest_values(cs).reverse(),
    decreases cs,
{
    let n = cs.len();
    if n == 0 {
        assert(forest_values(cs).reverse() =~= Seq::<T>::empty());
    } else {
        let df = cs.drop_first();
        let dl = rs.drop_last();
        assert forall|i: int| 0 <= i < dl.len() implies #[trigger] dl[i] == mirror_model(
            df[df.len() - 1 - i],
        ) by {
            assert(dl[i] == rs[i]);
            assert(df[n - 2 - i] == cs[n - 1 - i]);
        }
        assert(decreases_to!(cs => df));
        lemma_mirror_forest_postorder(df, dl);
        assert(rs.last() == mirror_model(cs[0]));
        lemma_mirror_postorder(cs[0]);
        lemma_forest_values_first(cs);
        lemma_reverse_concat(model_values(cs[0]), forest_values(df));
    }
}

} // verus!
