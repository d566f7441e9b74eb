use vstd::prelude::*;

verus! {

/// Nodes visited by a preorder walk that starts at `id`, descending at most
/// `fuel` levels. With `fuel` at least the number of nodes, a proper tree is
/// walked in full.
pub open spec fn preorder_from(children: Seq<Seq<usize>>, id: usize, fuel: nat) -> Seq<usize>
    decreases fuel, 0nat,
{
    if fuel == 0 {
        seq![]
    } else {
        seq![id] + preorder_list(children, children[id as int], (fuel - 1) as nat)
    }
}

/// The preorder walks of `ids`, one after the other.
pub open spec fn preorder_list(children: Seq<Seq<usize>>, ids: Seq<usize>, fuel: nat) -> Seq<usize>
    decreases fuel, ids.len(),
{
    if ids.len() == 0 {
        seq![]
    } else {
        preorder_list(children, ids.drop_last(), fuel) + preorder_from(children, ids.last(), fuel)
    }
}

/// Child lists with every id moved up by `offset`.
pub open spec fn shift_children(children: Seq<Seq<usize>>, offset: int) -> Seq<Seq<usize>> {
    children.map_values(|ids: Seq<usize>| ids.map_values(|c: usize| (c + offset) as usize))
}

/// Where a node id of a tree lands when that tree, without its root `root`,
/// is appended after `offset` nodes.
pub open spec fn skip_root_id(c: usize, root: usize, offset: int) -> usize {
    if c > root {
        (c + offset - 1) as usize
    } else {
        (c + offset) as usize
    }
}

pub open spec fn skip_root_ids(ids: Seq<usize>, root: usize, offset: int) -> Seq<usize> {
    ids.map_values(|c: usize| skip_root_id(c, root, offset))
}

proof fn lemma_preorder_from_bounded(children: Seq<Seq<usize>>, n: nat, id: usize, fuel: nat)
    requires
        children.len() == n,
        forall|i: int, j: int|
            0 <= i < children.len() && 0 <= j < children[i].len() ==> #[trigger] children[i][j]
                < n,
        id < n,
    ensures
        forall|k: int|
            0 <= k < preorder_from(children, id, fuel).len() ==> #[trigger] preorder_from(
                children,
                id,
                fuel,
            )[k] < n,
    decreases fuel, 0nat,
{
    if fuel > 0 {
        let ids = children[id as int];
        assert forall|j: int| 0 <= j < ids.len() implies #[trigger] ids[j] < n by {
            assert(children[id as int][j] < n);
        }
        lemma_preorder_list_bounded(children, n, ids, (fuel - 1) as nat);
        let a = seq![id];
        let b = preorder_list(children, ids, (fuel - 1) as nat);
        assert forall|k: int| 0 <= k < (a + b).len() implies #[trigger] (a + b)[k] < n by {
            if k > 0 {
                assert((a + b)[k] == b[k - 1]);
            }
        }
    }
}

proof fn lemma_preorder_list_bounded(
    children: Seq<Seq<usize>>,
    n: nat,
    ids: Seq<usize>,
    fuel: nat,
)
    requires
        children.len() == n,
        forall|i: int, j: int|
            0 <= i < children.len() && 0 <= j < children[i].len() ==> #[trigger] children[i][j]
                < n,
        forall|j: int| 0 <= j < ids.len() ==> #[trigger] ids[j] < n,
    ensures
        forall|k: int|
            0 <= k < preorder_list(children, ids, fuel).len() ==> #[trigger] preorder_list(
                children,
                ids,
                fuel,
            )[k] < n,
    decreases fuel, ids.len(),
{
    if ids.len() > 0 {
        let init = ids.drop_last();
        assert forall|j: int| 0 <= j < init.len() implies #[trigger] init[j] < n by {
            assert(init[j] == ids[j]);
        }
        lemma_preorder_list_bounded(children, n, init, fuel);
        lemma_preorder_from_bounded(children, n, ids.last(), fuel);
        let a = preorder_list(children, init, fuel);
        let b = preorder_from(children, ids.last(), fuel);
        assert forall|k: int| 0 <= k < (a + b).len() implies #[trigger] (a + b)[k] < n by {
            if k < a.len() {
                assert((a + b)[k] == a[k]);
            } else {
                assert((a + b)[k] == b[k - a.len()]);
            }
        }
    }
}

fn shift_ids(ids: &Vec<usize>, offset: usize) -> (r: Vec<usize>)
    requires
        forall|j: int| 0 <= j < ids@.len() ==> #[trigger] ids@[j] + offset <= usize::MAX,
    ensures
        r@ == ids@.map_values(|c: usize| (c + offset) as usize),
{
    let mut r: Vec<usize> = Vec::new();
    let mut j: usize = 0;
    while j < ids.len()
        invariant
            forall|j: int| 0 <= j < ids@.len() ==> #[trigger] ids@[j] + offset <= usize::MAX,
            0 <= j <= ids@.len(),
            r@ == ids@.take(j as int).map_values(|c: usize| (c + offset) as usize),
        decreases ids@.len() - j,
    {
        r.push(ids[j] + offset);
        j += 1;
        assert(r@ =~= ids@.take(j as int).map_values(|c: usize| (c + offset) as usize));
    }
    assert(ids@.take(j as int) =~= ids@);
    r
}

fn skip_root_vec(ids: &Vec<usize>, root: usize, offset: usize) -> (r: Vec<usize>)
    requires
        forall|j: int| 0 <= j < ids@.len() ==> #[trigger] ids@[j] + offset <= usize::MAX,
        offset > 0,
    ensures
        r@ == skip_root_ids(ids@, root, offset as int),
{
    let mut r: Vec<usize> = Vec::new();
    let mut j: usize = 0;
    while j < ids.len()
        invariant
            forall|j: int| 0 <= j < ids@.len() ==> #[trigger] ids@[j] + offset <= usize::MAX,
            offset > 0,
            0 <= j <= ids@.len(),
            r@ == skip_root_ids(ids@.take(j as int), root, offset as int),
        decreases ids@.len() - j,
    {
        let c = ids[j];
        if c > root {
            r.push(c + offset - 1);
        } else {
            r.push(c + offset);
        }
        j += 1;
        assert(r@ =~= skip_root_ids(ids@.take(j as int), root, offset as int));
    }
    assert(ids@.take(j as int) =~= ids@);
    r
}

/// Every id of the walk from a node names a node.
pub proof fn lemma_preorder_from_in_range<N>(t: &SimpleTree<N>, id: usize)
    requires
        t.wf(),
        id < t.spec_len(),
    ensures
        forall|k: int|
            0 <= k < preorder_from(t.spec_children(), id, t.spec_len()).len() ==> #[trigger] preorder_from(
                t.spec_children(),
                id,
                t.spec_len(),
            )[k] < t.spec_len(),
{
    lemma_preorder_from_bounded(t.spec_children(), t.spec_len(), id, t.spec_len());
}

/// A vector-based tree. Nodes are kept in the order in which they were added,
/// and each node has the ordered list of the ids of its children.
#[derive(Debug)]
pub struct SimpleTree<N> {
    root: usize,
    nodes: Vec<N>,
    node2children: Vec<Vec<usize>>,
}

impl<N> SimpleTree<N> {
    pub closed spec fn spec_root(&self) -> usize {
        self.root
    }

    pub closed spec fn spec_nodes(&self) -> Seq<N> {
        self.nodes@
    }

    pub closed spec fn spec_children(&self) -> Seq<Seq<usize>> {
        self.node2children@.map_values(|ids: Vec<usize>| ids@)
    }

    pub open spec fn spec_len(&self) -> nat {
        self.spec_nodes().len()
    }

    /// Every node has a child list, every child id names a node, and the root
    /// names a node (it is 0 in an empty tree).
    pub open spec fn wf(&self) -> bool {
        &&& self.spec_children().len() == self.spec_nodes().len()
        &&& forall|i: int, j: int|
            0 <= i < self.spec_children().len() && 0 <= j < self.spec_children()[i].len()
                ==> #[trigger] self.spec_children()[i][j] < self.spec_len()
        &&& (self.spec_len() > 0 ==> self.spec_root() < self.spec_len())
        &&& (self.spec_len() == 0 ==> self.spec_root() == 0)
    }

    /// No child list names the root.
    pub open spec fn root_is_unparented(&self) -> bool {
        forall|i: int, j: int|
            0 <= i < self.spec_children().len() && 0 <= j < self.spec_children()[i].len()
                ==> #[trigger] self.spec_children()[i][j] != self.spec_root()
    }

    /// The ids of the preorder walk from the root.
    pub open spec fn spec_preorder(&self) -> Seq<usize> {
        if self.spec_len() == 0 {
            seq![]
        } else {
            preorder_from(self.spec_children(), self.spec_root(), self.spec_len())
        }
    }

    proof fn lemma_children_view(&self)
        ensures
            self.spec_children().len() == self.node2children@.len(),
            forall|i: int|
                0 <= i < self.node2children@.len() ==> #[trigger] self.spec_children()[i]
                    == self.node2children@[i]@,
    {
    }

    /// Every id of the preorder walk names a node.
    pub proof fn lemma_preorder_in_range(&self)
        requires
            self.wf(),
        ensures
            forall|k: int|
                0 <= k < self.spec_preorder().len() ==> #[trigger] self.spec_preorder()[k]
                    < self.spec_len(),
    {
        if self.spec_len() > 0 {
            lemma_preorder_from_bounded(
                self.spec_children(),
                self.spec_len(),
                self.spec_root(),
                self.spec_len(),
            );
        }
    }

    pub fn empty() -> (r: SimpleTree<N>)
        ensures
            r.wf(),
            r.spec_root() == 0,
            r.spec_nodes() == Seq::<N>::empty(),
            r.spec_children() == Seq::<Seq<usize>>::empty(),
    {
        let r = SimpleTree { root: 0, nodes: Vec::new(), node2children: Vec::new() };
        assert(r.spec_children() =~= Seq::<Seq<usize>>::empty());
        r
    }

    pub fn new(node: N) -> (r: SimpleTree<N>)
        ensures
            r.wf(),
            r.root_is_unparented(),
            r.spec_root() == 0,
            r.spec_nodes() == seq![node],
            r.spec_children() == seq![Seq::<usize>::empty()],
    {
        let r = SimpleTree { root: 0, nodes: vec![node], node2children: vec![Vec::new()] };
        assert(r.spec_children() =~= seq![Seq::<usize>::empty()]);
        assert(r.spec_nodes() =~= seq![node]);
        r
    }

    pub fn is_empty(&self) -> (r: bool)
        ensures
            r == (self.spec_len() == 0),
    {
        self.nodes.len() == 0
    }

    pub fn get_root_id(&self) -> (r: usize)
        ensures
            r == self.spec_root(),
    {
        self.root
    }

    pub fn get_root(&self) -> (r: &N)
        requires
            self.wf(),
            self.spec_len() > 0,
        ensures
            *r == self.spec_nodes()[self.spec_root() as int],
    {
        &self.nodes[self.root]
    }

    pub fn get_root_mut(&mut self) -> (r: &mut N)
        requires
            old(self).wf(),
            old(self).spec_len() > 0,
        ensures
            *r == old(self).spec_nodes()[old(self).spec_root() as int],
            final(self).spec_nodes() == old(self).spec_nodes().update(
                old(self).spec_root() as int,
                *final(r),
            ),
            final(self).spec_children() == old(self).spec_children(),
            final(self).spec_root() == old(self).spec_root(),
    {
        let root = self.root;
        &mut self.nodes[root]
    }

    pub fn get_node(&self, uid: usize) -> (r: &N)
        requires
            uid < self.spec_len(),
        ensures
            *r == self.spec_nodes()[uid as int],
    {
        &self.nodes[uid]
    }

    pub fn get_node_mut(&mut self, uid: usize) -> (r: &mut N)
        requires
            uid < old(self).spec_len(),
        ensures
            *r == old(self).spec_nodes()[uid as int],
            final(self).spec_nodes() == old(self).spec_nodes().update(uid as int, *final(r)),
            final(self).spec_children() == old(self).spec_children(),
            final(self).spec_root() == old(self).spec_root(),
    {
        &mut self.nodes[uid]
    }

    /// Appends a node without a parent and returns its id.
    pub fn add_node(&mut self, node: N) -> (uid: usize)
        requires
            old(self).wf(),
            old(self).spec_len() < usize::MAX,
        ensures
            final(self).wf(),
            uid == old(self).spec_len(),
            final(self).spec_nodes() == old(self).spec_nodes().push(node),
            final(self).spec_children() == old(self).spec_children().push(Seq::<usize>::empty()),
            final(self).spec_root() == old(self).spec_root(),
    {
        proof {
            self.lemma_children_view();
        }
        let uid = self.nodes.len();
        self.nodes.push(node);
        self.node2children.push(Vec::new());
        proof {
            self.lemma_children_view();
            assert(self.spec_children() =~= old(self).spec_children().push(Seq::<usize>::empty()));
            assert forall|i: int, j: int|
                0 <= i < self.spec_children().len() && 0 <= j < self.spec_children()[i].len()
                    implies #[trigger] self.spec_children()[i][j] < self.spec_len() by {
                assert(i < old(self).spec_children().len());
                assert(self.spec_children()[i] == old(self).spec_children()[i]);
            }
        }
        uid
    }

    /// Records `child_id` as the last child of `parent_id`. When the child was
    /// the root, the parent becomes the root, so that a tree can be built from
    /// the bottom up.
    pub fn add_child(&mut self, parent_id: usize, child_id: usize)
        requires
            old(self).wf(),
            parent_id < old(self).spec_len(),
            child_id < old(self).spec_len(),
        ensures
            final(self).wf(),
            final(self).spec_nodes() == old(self).spec_nodes(),
            final(self).spec_children() == old(self).spec_children().update(
                parent_id as int,
                old(self).spec_children()[parent_id as int].push(child_id),
            ),
            final(self).spec_root() == (if child_id == old(self).spec_root() {
                parent_id
            } else {
                old(self).spec_root()
            }),
    {
        proof {
            self.lemma_children_view();
        }
        if child_id == self.root {
            self.root = parent_id;
        }
        self.node2children[parent_id].push(child_id);
        proof {
            self.lemma_children_view();
            assert(self.spec_children() =~= old(self).spec_children().update(
                parent_id as int,
                old(self).spec_children()[parent_id as int].push(child_id),
            ));
        }
    }

    pub fn get_child_ids(&self, uid: usize) -> (r: &[usize])
        requires
            uid < self.spec_children().len(),
        ensures
            r@ == self.spec_children()[uid as int],
    {
        proof {
            self.lemma_children_view();
        }
        self.node2children[uid].as_slice()
    }

    fn preorder_into(&self, id: usize, fuel: usize, out: &mut Vec<usize>)
        requires
            self.wf(),
            id < self.spec_len(),
        ensures
            final(out)@ == old(out)@ + preorder_from(self.spec_children(), id, fuel as nat),
        decreases fuel,
    {
        if fuel == 0 {
            assert(old(out)@ + preorder_from(self.spec_children(), id, fuel as nat) =~= old(out)@);
            return ;
        }
        proof {
            self.lemma_children_view();
        }
        out.push(id);
        let ids = &self.node2children[id];
        let ghost start = out@;
        let ghost children = self.spec_children();
        let mut k: usize = 0;
        while k < ids.len()
            invariant
                self.wf(),
                children == self.spec_children(),
                id < self.spec_len(),
                ids@ == children[id as int],
                0 <= k <= ids@.len(),
                fuel > 0,
                out@ == start + preorder_list(children, ids@.take(k as int), (fuel - 1) as nat),
            decreases ids@.len() - k,
        {
            let ghost before = out@;
            assert(ids@.take(k + 1).drop_last() =~= ids@.take(k as int));
            assert(children[id as int][k as int] < self.spec_len());
            self.preorder_into(ids[k], fuel - 1, out);
            k += 1;
            assert(out@ =~= start + preorder_list(children, ids@.take(k as int), (fuel - 1) as nat));
        }
        assert(ids@.take(k as int) =~= ids@);
        assert(final(out)@ =~= old(out)@ + preorder_from(children, id, fuel as nat));
    }

    /// The ids of the nodes in preorder, starting at the root.
    pub fn iter_id_preorder(&self) -> (r: Vec<usize>)
        requires
            self.wf(),
        ensures
            r@ == self.spec_preorder(),
    {
        let mut out: Vec<usize> = Vec::new();
        if self.nodes.len() > 0 {
            self.preorder_into(self.root, self.nodes.len(), &mut out);
            assert(out@ =~= self.spec_preorder());
        }
        out
    }

    /// The ids of the subtree of `id` in preorder, `id` first.
    pub fn iter_id_preorder_from(&self, id: usize) -> (r: Vec<usize>)
        requires
            self.wf(),
            id < self.spec_len(),
        ensures
            r@ == preorder_from(self.spec_children(), id, self.spec_len()),
    {
        let mut out: Vec<usize> = Vec::new();
        self.preorder_into(id, self.nodes.len(), &mut out);
        assert(out@ =~= preorder_from(self.spec_children(), id, self.spec_len()));
        out
    }

    /// The nodes in preorder, starting at the root.
    pub fn iter_node_preorder(&self) -> (r: Vec<&N>)
        requires
            self.wf(),
        ensures
            r@.len() == self.spec_preorder().len(),
            forall|i: int|
                0 <= i < r@.len() ==> *#[trigger] r@[i] == self.spec_nodes()[self.spec_preorder()[i] as int],
    {
        let ids = self.iter_id_preorder();
        let mut out: Vec<&N> = Vec::new();
        let mut k: usize = 0;
        while k < ids.len()
            invariant
                self.wf(),
                ids@ == self.spec_preorder(),
                0 <= k <= ids@.len(),
                out@.len() == k,
                forall|i: int| 0 <= i < k ==> *#[trigger] out@[i] == self.spec_nodes()[ids@[i] as int],
            decreases ids@.len() - k,
        {
            proof {
                self.lemma_preorder_in_range();
            }
            out.push(&self.nodes[ids[k]]);
            k += 1;
        }
        out
    }

    /// Appends all nodes of `subtree` after the nodes of this tree, moving
    /// its ids up by the former size, and makes its root the last child of
    /// `parent_id`.
    pub fn merge_subtree(&mut self, parent_id: usize, subtree: SimpleTree<N>)
        requires
            old(self).wf(),
            subtree.wf(),
            parent_id < old(self).spec_len(),
            subtree.spec_len() > 0,
            old(self).spec_len() + subtree.spec_len() <= usize::MAX,
        ensures
            final(self).wf(),
            final(self).spec_root() == old(self).spec_root(),
            final(self).spec_nodes() == old(self).spec_nodes() + subtree.spec_nodes(),
            final(self).spec_children() == (old(self).spec_children() + shift_children(
                subtree.spec_children(),
                old(self).spec_len() as int,
            )).update(
                parent_id as int,
                old(self).spec_children()[parent_id as int].push(
                    (subtree.spec_root() + old(self).spec_len()) as usize,
                ),
            ),
    {
        proof {
            self.lemma_children_view();
            subtree.lemma_children_view();
        }
        let offset = self.nodes.len();
        let ghost sub_children = subtree.spec_children();
        let ghost old_children = self.spec_children();
        let SimpleTree { root: sub_root, nodes: mut sub_nodes, node2children: sub_lists } = subtree;
        self.nodes.append(&mut sub_nodes);
        assert(old_children + shift_children(sub_children.take(0), offset as int) =~= old_children);
        let mut i: usize = 0;
        while i < sub_lists.len()
            invariant
                0 <= i <= sub_lists@.len(),
                sub_lists@.len() == sub_children.len(),
                forall|k: int| 0 <= k < sub_lists@.len() ==> #[trigger] sub_children[k] == sub_lists@[k]@,
                forall|a: int, b: int|
                    0 <= a < sub_children.len() && 0 <= b < sub_children[a].len()
                        ==> #[trigger] sub_children[a][b] < sub_children.len(),
                offset + sub_children.len() <= usize::MAX,
                self.nodes@ == old(self).spec_nodes() + subtree.spec_nodes(),
                self.root == old(self).root,
                self.spec_children() == old_children + shift_children(
                    sub_children.take(i as int),
                    offset as int,
                ),
            decreases sub_lists@.len() - i,
        {
            proof {
                self.lemma_children_view();
            }
            let ghost head_children = self.spec_children();
            assert forall|j: int| 0 <= j < sub_lists@[i as int]@.len() implies #[trigger] sub_lists@[i as int]@[j]
                + offset <= usize::MAX by {
                assert(sub_children[i as int][j] < sub_children.len());
            }
            let shifted = shift_ids(&sub_lists[i], offset);
            self.node2children.push(shifted);
            proof {
                self.lemma_children_view();
            }
            i += 1;
            proof {
                let lhs = self.spec_children();
                let rhs = old_children + shift_children(sub_children.take(i as int), offset as int);
                assert(lhs.len() == self.node2children@.len());
                assert(self.node2children@.len() == old_children.len() + i);
                assert(shift_children(sub_children.take(i as int), offset as int).len() == i);
                assert(lhs.len() == rhs.len());
                assert forall|k: int| 0 <= k < lhs.len() implies #[trigger] lhs[k] == rhs[k] by {
                    if k < lhs.len() - 1 {
                        assert(lhs[k] == head_children[k]);
                    }
                    if k >= old_children.len() {
                        assert(rhs[k] == sub_children[k - old_children.len()].map_values(
                            |c: usize| (c + offset) as usize,
                        ));
                    }
                }
            }
            assert(self.spec_children() =~= old_children + shift_children(
                sub_children.take(i as int),
                offset as int,
            ));
        }
        assert(sub_children.take(i as int) =~= sub_children);
        proof {
            self.lemma_children_view();
        }
        let ghost mid = self.spec_children();
        self.node2children[parent_id].push(sub_root + offset);
        proof {
            self.lemma_children_view();
            assert(mid[parent_id as int] == old_children[parent_id as int]);
            assert forall|k: int| 0 <= k < mid.len() implies #[trigger] self.spec_children()[k]
                == mid.update(parent_id as int, mid[parent_id as int].push((sub_root + offset) as usize))[k] by {
                if k != parent_id {
                    assert(self.spec_children()[k] == mid[k]);
                }
            }
            let want = (old_children + shift_children(sub_children, offset as int)).update(
                parent_id as int,
                old_children[parent_id as int].push((sub_root + offset) as usize),
            );
            assert(self.spec_children() =~= want);
            assert forall|a: int, b: int|
                0 <= a < self.spec_children().len() && 0 <= b < self.spec_children()[a].len()
                    implies #[trigger] self.spec_children()[a][b] < self.spec_len() by {
                if a == parent_id {
                    if b < old_children[a].len() {
                        assert(old_children[a][b] < old(self).spec_len());
                    }
                } else if a >= old_children.len() {
                    let k = a - old_children.len();
                    assert(self.spec_children()[a][b] == sub_children[k][b] + offset);
                    assert(sub_children[k][b] < sub_children.len());
                } else {
                    assert(old_children[a][b] < old(self).spec_len());
                }
            }
        }
    }

    /// Appends the lists `lists[from..to]`, each with its ids placed as
    /// `skip_root_id` says.
    fn push_skipped_lists(
        &mut self,
        lists: &Vec<Vec<usize>>,
        from: usize,
        to: usize,
        root: usize,
        offset: usize,
    )
        requires
            from <= to <= lists@.len(),
            offset > 0,
            forall|a: int, b: int|
                0 <= a < lists@.len() && 0 <= b < lists@[a]@.len() ==> #[trigger] lists@[a]@[b]
                    + offset <= usize::MAX,
        ensures
            final(self).spec_nodes() == old(self).spec_nodes(),
            final(self).spec_root() == old(self).spec_root(),
            final(self).spec_children() == old(self).spec_children() + lists@.subrange(
                from as int,
                to as int,
            ).map_values(|ids: Vec<usize>| skip_root_ids(ids@, root, offset as int)),
    {
        let mut i: usize = from;
        while i < to
            invariant
                from <= i <= to <= lists@.len(),
                offset > 0,
                forall|a: int, b: int|
                    0 <= a < lists@.len() && 0 <= b < lists@[a]@.len() ==> #[trigger] lists@[a]@[b]
                        + offset <= usize::MAX,
                self.spec_nodes() == old(self).spec_nodes(),
                self.spec_root() == old(self).spec_root(),
                self.spec_children() == old(self).spec_children() + lists@.subrange(
                    from as int,
                    i as int,
                ).map_values(|ids: Vec<usize>| skip_root_ids(ids@, root, offset as int)),
            decreases to - i,
        {
            proof {
                self.lemma_children_view();
            }
            let ghost head = self.spec_children();
            assert forall|j: int| 0 <= j < lists@[i as int]@.len() implies #[trigger] lists@[i as int]@[j]
                + offset <= usize::MAX by {}
            let mapped = skip_root_vec(&lists[i], root, offset);
            self.node2children.push(mapped);
            proof {
                self.lemma_children_view();
                let rhs = old(self).spec_children() + lists@.subrange(from as int, i + 1).map_values(
                    |ids: Vec<usize>| skip_root_ids(ids@, root, offset as int),
                );
                assert forall|k: int| 0 <= k < rhs.len() implies #[trigger] self.spec_children()[k]
                    == rhs[k] by {
                    if k < head.len() {
                        assert(self.spec_children()[k] == head[k]);
                    }
                }
                assert(self.spec_children() =~= rhs);
            }
            i += 1;
        }
    }

    /// Appends the nodes of `subtree` but its root after the nodes of this
    /// tree, and makes the children of that root the last children of
    /// `parent_id`: one level of nesting is flattened away. Ids of the subtree
    /// are placed as `skip_root_id` says.
    pub fn merge_subtree_no_root(&mut self, parent_id: usize, subtree: SimpleTree<N>)
        requires
            old(self).wf(),
            subtree.wf(),
            subtree.root_is_unparented(),
            parent_id < old(self).spec_len(),
            subtree.spec_len() > 0,
            old(self).spec_len() + subtree.spec_len() <= usize::MAX,
        ensures
            final(self).wf(),
            final(self).spec_root() == old(self).spec_root(),
            final(self).spec_nodes() == old(self).spec_nodes() + subtree.spec_nodes().remove(
                subtree.spec_root() as int,
            ),
            final(self).spec_children() == old(self).spec_children().update(
                parent_id as int,
                old(self).spec_children()[parent_id as int] + skip_root_ids(
                    subtree.spec_children()[subtree.spec_root() as int],
                    subtree.spec_root(),
                    old(self).spec_len() as int,
                ),
            ) + subtree.spec_children().remove(subtree.spec_root() as int).map_values(
                |ids: Seq<usize>| skip_root_ids(ids, subtree.spec_root(), old(self).spec_len() as int),
            ),
    {
        proof {
            self.lemma_children_view();
            subtree.lemma_children_view();
        }
        let offset = self.nodes.len();
        let ghost sub_children = subtree.spec_children();
        let ghost old_children = self.spec_children();
        let ghost sub_len = subtree.spec_len();
        let SimpleTree { root: sub_root, nodes: mut sub_nodes, node2children: sub_lists } = subtree;
        let mut tail = sub_nodes.split_off(sub_root);
        tail.remove(0);
        self.nodes.append(&mut sub_nodes);
        self.nodes.append(&mut tail);
        assert(self.spec_nodes() =~= old(self).spec_nodes() + subtree.spec_nodes().remove(
            sub_root as int,
        ));
        assert forall|a: int, b: int|
            0 <= a < sub_lists@.len() && 0 <= b < sub_lists@[a]@.len() implies #[trigger] sub_lists@[a]@[b]
                + offset <= usize::MAX by {
            assert(sub_children[a][b] < sub_len);
        }
        let mut top = skip_root_vec(&sub_lists[sub_root], sub_root, offset);
        proof {
            self.lemma_children_view();
        }
        let ghost before_top = self.spec_children();
        self.node2children[parent_id].append(&mut top);
        proof {
            self.lemma_children_view();
            let want = old_children.update(
                parent_id as int,
                old_children[parent_id as int] + skip_root_ids(
                    sub_children[sub_root as int],
                    sub_root,
                    offset as int,
                ),
            );
            assert forall|k: int| 0 <= k < want.len() implies #[trigger] self.spec_children()[k]
                == want[k] by {
                if k != parent_id {
                    assert(self.spec_children()[k] == before_top[k]);
                }
            }
            assert(self.spec_children() =~= want);
        }
        self.push_skipped_lists(&sub_lists, 0, sub_root, sub_root, offset);
        self.push_skipped_lists(&sub_lists, sub_root + 1, sub_lists.len(), sub_root, offset);
        proof {
            let f = |ids: Vec<usize>| skip_root_ids(ids@, sub_root, offset as int);
            let g = |ids: Seq<usize>| skip_root_ids(ids, sub_root, offset as int);
            let rest = sub_lists@.subrange(0, sub_root as int).map_values(f) + sub_lists@.subrange(
                sub_root + 1,
                sub_lists@.len() as int,
            ).map_values(f);
            let want_rest = sub_children.remove(sub_root as int).map_values(g);
            assert forall|k: int| 0 <= k < want_rest.len() implies #[trigger] rest[k]
                == want_rest[k] by {
                if k < sub_root {
                    assert(rest[k] == f(sub_lists@[k]));
                } else {
                    assert(rest[k] == f(sub_lists@[k + 1]));
                }
            }
            assert(rest =~= want_rest);
            let total = self.spec_children();
            assert forall|a: int, b: int|
                0 <= a < total.len() && 0 <= b < total[a].len() implies #[trigger] total[a][b]
                    < self.spec_len() by {
                if a < old_children.len() {
                    if a == parent_id && b >= old_children[a].len() {
                        let c = sub_children[sub_root as int][b - old_children[a].len()];
                        assert(c < sub_len && c != sub_root);
                    } else {
                        assert(old_children[a][b] < old(self).spec_len());
                    }
                } else {
                    let k = a - old_children.len();
                    let src = if k < sub_root { k } else { k + 1 };
                    assert(total[a] == g(sub_children[src]));
                    assert(sub_children[src][b] < sub_len && sub_children[src][b] != sub_root);
                }
            }
        }
    }

    /// A tree with the shape of this one that holds `nodes`.
    pub fn with_nodes<M>(&self, nodes: Vec<M>) -> (r: SimpleTree<M>)
        requires
            nodes@.len() == self.spec_len(),
        ensures
            r.spec_nodes() == nodes@,
            r.spec_children() == self.spec_children(),
            r.spec_root() == self.spec_root(),
    {
        proof {
            self.lemma_children_view();
        }
        let mut lists: Vec<Vec<usize>> = Vec::new();
        let mut i: usize = 0;
        while i < self.node2children.len()
            invariant
                0 <= i <= self.node2children@.len(),
                self.spec_children().len() == self.node2children@.len(),
                forall|k: int|
                    0 <= k < self.node2children@.len() ==> #[trigger] self.spec_children()[k]
                        == self.node2children@[k]@,
                lists@.len() == i,
                forall|k: int| 0 <= k < i ==> #[trigger] lists@[k]@ == self.spec_children()[k],
            decreases self.node2children@.len() - i,
        {
            let copy = shift_ids(&self.node2children[i], 0);
            assert(copy@ =~= self.spec_children()[i as int]);
            lists.push(copy);
            i += 1;
        }
        let r = SimpleTree { root: self.root, nodes, node2children: lists };
        assert(r.spec_children() =~= self.spec_children());
        r
    }

    /// Whether the tree is well formed, for callers that built it without
    /// proof.
    pub fn is_well_formed(&self) -> (r: bool)
        ensures
            r == self.wf(),
    {
        proof {
            self.lemma_children_view();
        }
        let n = self.nodes.len();
        if self.node2children.len() != n {
            return false;
        }
        if n == 0 {
            return self.root == 0;
        }
        if self.root >= n {
            return false;
        }
        let mut i: usize = 0;
        while i < n
            invariant
                n == self.spec_len(),
                self.spec_children().len() == n,
                self.node2children@.len() == n,
                forall|k: int| 0 <= k < n ==> #[trigger] self.spec_children()[k] == self.node2children@[k]@,
                0 <= i <= n,
                forall|a: int, b: int|
                    0 <= a < i && 0 <= b < self.spec_children()[a].len()
                        ==> #[trigger] self.spec_children()[a][b] < n,
            decreases n - i,
        {
            let ids = &self.node2children[i];
            let mut j: usize = 0;
            while j < ids.len()
                invariant
                    n == self.spec_len(),
                    self.spec_children().len() == n,
                    ids@ == self.spec_children()[i as int],
                    0 <= i < n,
                    0 <= j <= ids@.len(),
                    forall|b: int| 0 <= b < j ==> #[trigger] ids@[b] < n,
                decreases ids@.len() - j,
            {
                if ids[j] >= n {
                    return false;
                }
                j += 1;
            }
            i += 1;
        }
        true
    }

    /// All nodes, in the order in which they were added.
    pub fn iter(&self) -> (r: &[N])
        ensures
            r@ == self.spec_nodes(),
    {
        self.nodes.as_slice()
    }

    /// All nodes, in the order in which they were added, for update in place.
    pub fn iter_mut(&mut self) -> (r: &mut [N])
        ensures
            r@ == old(self).spec_nodes(),
            final(self).spec_nodes() == final(r)@,
            final(self).spec_children() == old(self).spec_children(),
            final(self).spec_root() == old(self).spec_root(),
    {
        self.nodes.as_mut_slice()
    }

    pub fn len(&self) -> (r: usize)
        ensures
            r == self.spec_len(),
    {
        self.nodes.len()
    }
}

} // verus!
