use vstd::prelude::*;

use crate::span_path::{ancestor_path_of, SpanPath};

verus! {

/// How many leading elements `a` and `b` share.
pub open spec fn common_prefix_len(a: Seq<Seq<char>>, b: Seq<Seq<char>>) -> nat
    decreases a.len(),
{
    if a.len() == 0 || b.len() == 0 || a[0] != b[0] {
        0
    } else {
        1 + common_prefix_len(a.drop_first(), b.drop_first())
    }
}

/// `common_prefix_len` is pinned down by its characteristic properties: it is
/// a bound below both lengths, the paths agree on everything before it, and
/// they differ right at it unless one path ends there.
pub proof fn lemma_common_prefix_len_unique(a: Seq<Seq<char>>, b: Seq<Seq<char>>, n: nat)
    requires
        n <= a.len(),
        n <= b.len(),
        forall|i: int| 0 <= i < n ==> a[i] == b[i],
        n < a.len() && n < b.len() ==> a[n as int] != b[n as int],
    ensures
        common_prefix_len(a, b) == n,
    decreases n,
{
    if n == 0 {
    } else {
        assert(a[0] == b[0]);
        lemma_common_prefix_len_unique(a.drop_first(), b.drop_first(), (n - 1) as nat);
    }
}

/// Whether `p` may follow `prev` in a depth-first ordering rooted at a path
/// of `root_len` elements: the shared prefix must not reach above the root,
/// and `p` must descend exactly one level below the shared prefix.
pub open spec fn df_step_ok(root_len: nat, prev: Seq<Seq<char>>, p: Seq<Seq<char>>) -> bool {
    common_prefix_len(prev, p) >= root_len && p.len() == common_prefix_len(prev, p) + 1
}

/// The error reported for a pair that `df_step_ok` rejects.
pub open spec fn df_step_error(root_len: nat, prev: Seq<Seq<char>>, p: Seq<Seq<char>>) -> SpanTreeError {
    let c = common_prefix_len(prev, p);
    if c < root_len {
        SpanTreeError::NotUnderRoot
    } else if p.len() > c + 1 {
        SpanTreeError::MissingIntermediateNode
    } else {
        SpanTreeError::DuplicatePath
    }
}

/// A non-empty path sequence is a valid depth-first ordering when every
/// element may follow its predecessor.
pub open spec fn depth_first_ok(d: Seq<Seq<Seq<char>>>) -> bool {
    d.len() > 0 && forall|i: int|
        1 <= i < d.len() ==> #[trigger] df_step_ok(d[0].len(), d[i - 1], d[i])
}

/// The first index at or after `i` whose element may not follow its
/// predecessor; `d.len()` when all remaining elements may.
pub open spec fn df_first_bad(d: Seq<Seq<Seq<char>>>, i: int) -> int
    decreases d.len() - i,
{
    if i >= d.len() || i < 1 {
        d.len() as int
    } else if !df_step_ok(d[0].len(), d[i - 1], d[i]) {
        i
    } else {
        df_first_bad(d, i + 1)
    }
}

proof fn lemma_df_first_bad_step(d: Seq<Seq<Seq<char>>>, i: int)
    requires
        1 <= i < d.len(),
        df_step_ok(d[0].len(), d[i - 1], d[i]),
    ensures
        df_first_bad(d, i) == df_first_bad(d, i + 1),
{
}

/// The paths agree on everything before their shared prefix length.
proof fn lemma_common_prefix_len_agrees(a: Seq<Seq<char>>, b: Seq<Seq<char>>)
    ensures
        common_prefix_len(a, b) <= a.len(),
        common_prefix_len(a, b) <= b.len(),
        forall|i: int| 0 <= i < common_prefix_len(a, b) ==> a[i] == b[i],
    decreases a.len(),
{
    if a.len() == 0 || b.len() == 0 || a[0] != b[0] {
    } else {
        lemma_common_prefix_len_agrees(a.drop_first(), b.drop_first());
        assert forall|i: int| 0 <= i < common_prefix_len(a, b) implies a[i] == b[i] by {
            if i > 0 {
                assert(a.drop_first()[i - 1] == b.drop_first()[i - 1]);
            }
        }
    }
}

/// In a valid depth-first ordering the first path is an ancestor of each
/// later one.
proof fn lemma_root_prefix_upto(d: Seq<Seq<Seq<char>>>, j: int)
    requires
        depth_first_ok(d),
        1 <= j < d.len(),
    ensures
        ancestor_path_of(d[0], d[j]),
    decreases j,
{
    let rl = d[0].len();
    assert(df_step_ok(rl, d[j - 1], d[j]));
    let c = common_prefix_len(d[j - 1], d[j]);
    lemma_common_prefix_len_agrees(d[j - 1], d[j]);
    if j == 1 {
        assert(forall|i: int| 0 <= i < rl ==> d[0][i] == #[trigger] d[1][i]);
        assert(d[0] =~= d[1].subrange(0, rl as int));
    } else {
        lemma_root_prefix_upto(d, j - 1);
        assert(forall|i: int|
            0 <= i < rl ==> #[trigger] d[0][i] == d[j - 1].subrange(0, rl as int)[i]);
        assert(forall|i: int| 0 <= i < rl ==> d[0][i] == #[trigger] d[j - 1][i]);
        assert(forall|i: int| 0 <= i < rl ==> d[0][i] == #[trigger] d[j][i]);
        assert(d[0] =~= d[j].subrange(0, rl as int));
    }
}

proof fn lemma_subtree_end_spans(d: Seq<Seq<Seq<char>>>, j: int)
    requires
        1 <= j <= d.len(),
        forall|k: int| 1 <= k < d.len() ==> ancestor_path_of(d[0], #[trigger] d[k]),
    ensures
        subtree_end(d, 0, j) == d.len(),
    decreases d.len() - j,
{
    if j < d.len() {
        lemma_subtree_end_spans(d, j + 1);
    }
}

/// The root node's subtree scan spans the whole tree: in a valid
/// depth-first ordering the first path is an ancestor of every later path,
/// so scanning forward from the root while paths remain its descendants
/// reaches every stored node. With the constructor's guarantee that the
/// tree stores exactly the input paths in input order, the depth-first
/// traversal from the root visits exactly the input, nothing more and
/// nothing less.
pub proof fn lemma_root_subtree_spans_tree(d: Seq<Seq<Seq<char>>>)
    requires
        depth_first_ok(d),
    ensures
        forall|j: int| 1 <= j < d.len() ==> ancestor_path_of(d[0], #[trigger] d[j]),
        subtree_end(d, 0, 1) == d.len(),
{
    assert forall|j: int| 1 <= j < d.len() implies ancestor_path_of(d[0], #[trigger] d[j]) by {
        lemma_root_prefix_upto(d, j);
    }
    lemma_subtree_end_spans(d, 1);
}

/// Holds when `b` lies exactly one level below `a`.
pub open spec fn child_path_of(a: Seq<Seq<char>>, b: Seq<Seq<char>>) -> bool {
    ancestor_path_of(a, b) && b.len() == a.len() + 1
}

/// The first index at or after `j` whose path is not a strict descendant of
/// the path at `i`; `d.len()` when all remaining paths are.
pub open spec fn subtree_end(d: Seq<Seq<Seq<char>>>, i: int, j: int) -> int
    decreases d.len() - j,
{
    if j >= d.len() {
        j
    } else if !ancestor_path_of(d[i], d[j]) {
        j
    } else {
        subtree_end(d, i, j + 1)
    }
}

/// How many paths in `d` at or after `j`, but before the end of the subtree
/// of the path at `i`, lie exactly one level below it.
pub open spec fn child_count_from(d: Seq<Seq<Seq<char>>>, i: int, j: int) -> nat
    decreases d.len() - j,
{
    if j >= d.len() || !ancestor_path_of(d[i], d[j]) {
        0
    } else {
        (if child_path_of(d[i], d[j]) {
            1nat
        } else {
            0nat
        }) + child_count_from(d, i, j + 1)
    }
}

/// Both paths and payloads, absent from the tree.
#[derive(Debug, Clone, Copy, PartialEq, Eq, Structural)]
pub enum SpanTreeError {
    /// The input held no paths at all; a tree needs at least a root.
    EmptyInput,
    /// A path was not a strict descendant of the first (root) path.
    NotUnderRoot,
    /// A path descended more than one level below the shared prefix, so its
    /// parent was skipped.
    MissingIntermediateNode,
    /// A path repeated the shared prefix exactly, duplicating a present node.
    DuplicatePath,
}

/// A generic tree over span paths, stored as two index-aligned vectors in
/// depth-first order. Parent and child relationships are recovered from the
/// paths by prefix comparison.
#[derive(Debug)]
pub struct SpanTree<Payload> {
    paths: Vec<SpanPath>,
    payloads: Vec<Payload>,
}

/// A borrowed view of one node of a [`SpanTree`].
pub struct SpanTreeNode<'a, Payload> {
    paths: &'a Vec<SpanPath>,
    payloads: &'a Vec<Payload>,
    index: usize,
}

impl<'a, Payload> Clone for SpanTreeNode<'a, Payload> {
    fn clone(&self) -> (r: Self)
        ensures
            r == *self,
    {
        proof {
            use_type_invariant(self);
        }
        SpanTreeNode { paths: self.paths, payloads: self.payloads, index: self.index }
    }
}

impl<'a, Payload> Copy for SpanTreeNode<'a, Payload> {}

impl<Payload> SpanTree<Payload> {
    #[verifier::type_invariant]
    spec fn wf(&self) -> bool {
        &&& self.paths@.len() == self.payloads@.len()
        &&& self.paths@.len() > 0 ==> depth_first_ok(self.paths.deep_view())
    }

    /// The node paths in depth-first order.
    pub closed spec fn paths_view(&self) -> Seq<Seq<Seq<char>>> {
        self.paths.deep_view()
    }

    /// The node payloads, aligned with `paths_view`.
    pub closed spec fn payloads_view(&self) -> Seq<Payload> {
        self.payloads@
    }

    /// The node at position `i` of this tree's depth-first order.
    pub closed spec fn node_at(&self, i: int) -> SpanTreeNode<'_, Payload> {
        SpanTreeNode { paths: &self.paths, payloads: &self.payloads, index: i as usize }
    }

    /// What `node_at` hands out: the node of this tree at that position.
    pub proof fn lemma_node_at(&self, i: int)
        requires
            0 <= i < self.paths_view().len(),
            i <= usize::MAX,
        ensures
            self.node_at(i).paths_view() == self.paths_view(),
            self.node_at(i).payloads_view() == self.payloads_view(),
            self.node_at(i).index_view() == i,
    {
    }

    /// Return an identical tree in which the payload associated with each
    /// node is transformed by the provided function, which may still
    /// navigate to the node's parent and root while mapping it.
    pub fn transform_payloads<Payload2, F: Fn(SpanTreeNode<'_, Payload>) -> Payload2>(
        &self,
        f: F,
    ) -> (r: SpanTree<Payload2>)
        requires
            forall|i: int|
                0 <= i < self.paths_view().len() ==> call_requires(f, (self.node_at(i),)),
        ensures
            r.paths_view() == self.paths_view(),
            r.payloads_view().len() == self.payloads_view().len(),
            forall|i: int|
                0 <= i < self.paths_view().len() ==> call_ensures(
                    f,
                    (self.node_at(i),),
                    #[trigger] r.payloads_view()[i],
                ),
    {
        proof {
            use_type_invariant(self);
        }
        let n = self.paths.len();
        let mut new_payloads: Vec<Payload2> = Vec::new();
        let mut i: usize = 0;
        while i < n
            invariant
                self.wf(),
                n == self.paths@.len(),
                i <= n,
                new_payloads@.len() == i,
                forall|k: int|
                    0 <= k < self.paths_view().len() ==> call_requires(f, (self.node_at(k),)),
                forall|k: int|
                    0 <= k < i ==> call_ensures(
                        f,
                        (self.node_at(k),),
                        #[trigger] new_payloads@[k],
                    ),
            decreases n - i,
        {
            let node = SpanTreeNode { paths: &self.paths, payloads: &self.payloads, index: i };
            proof {
                assert(node == self.node_at(i as int));
            }
            let out = f(node);
            new_payloads.push(out);
            i = i + 1;
        }
        let mut new_paths: Vec<SpanPath> = Vec::new();
        let mut j: usize = 0;
        while j < n
            invariant
                self.wf(),
                n == self.paths@.len(),
                j <= n,
                new_paths@.len() == j,
                forall|k: int| 0 <= k < j ==> (#[trigger] new_paths@[k])@ == self.paths@[k]@,
            decreases n - j,
        {
            new_paths.push(self.paths[j].clone());
            j = j + 1;
        }
        proof {
            assert(new_paths.deep_view() =~= self.paths.deep_view()) by {
                assert(forall|k: int|
                    0 <= k < n ==> #[trigger] new_paths.deep_view()[k] == new_paths@[k]@);
                assert(forall|k: int|
                    0 <= k < n ==> #[trigger] self.paths.deep_view()[k] == self.paths@[k]@);
            }
        }
        let r = SpanTree { paths: new_paths, payloads: new_payloads };
        r
    }

    /// The tree with no nodes at all.
    pub(crate) fn new_empty() -> (r: Self)
        ensures
            r.paths_view().len() == 0,
            r.payloads_view().len() == 0,
    {
        let r = Self { paths: Vec::new(), payloads: Vec::new() };
        proof {
            assert(r.paths.deep_view().len() == 0);
        }
        r
    }

    pub fn root(&self) -> (r: Option<SpanTreeNode<'_, Payload>>)
        ensures
            (r is Some) == (self.paths_view().len() > 0),
            r is Some ==> {
                &&& r->0.paths_view() == self.paths_view()
                &&& r->0.payloads_view() == self.payloads_view()
                &&& r->0.index_view() == 0
            },
    {
        proof {
            use_type_invariant(self);
        }
        if self.paths.len() > 0 {
            Some(SpanTreeNode { paths: &self.paths, payloads: &self.payloads, index: 0 })
        } else {
            None
        }
    }

    /// Validates a candidate depth-first ordering and builds the tree.
    ///
    /// Walking the candidates in order, each path must share with its
    /// predecessor a prefix no shorter than the root and descend exactly one
    /// level below that shared prefix. The first offending pair decides the
    /// error: a prefix above the root is `NotUnderRoot`, a descent of more
    /// than one level is `MissingIntermediateNode`, and no descent at all is
    /// `DuplicatePath`.
    pub fn try_from_depth_first_ordering(paths: Vec<SpanPath>, payloads: Vec<Payload>) -> (r: Result<
        Self,
        SpanTreeError,
    >)
        requires
            paths@.len() == payloads@.len(),
        ensures
            paths@.len() == 0 ==> r == Err::<Self, _>(SpanTreeError::EmptyInput),
            paths@.len() > 0 ==> {
                &&& (r is Ok) == depth_first_ok(paths.deep_view())
                &&& r is Ok ==> {
                    &&& r->Ok_0.paths_view() == paths.deep_view()
                    &&& r->Ok_0.payloads_view() == payloads@
                }
                &&& r is Err ==> r->Err_0 == df_step_error(
                    paths.deep_view()[0].len(),
                    paths.deep_view()[df_first_bad(paths.deep_view(), 1) - 1],
                    paths.deep_view()[df_first_bad(paths.deep_view(), 1)],
                )
            },
    {
        let ghost d = paths.deep_view();
        if paths.len() == 0 {
            return Err(SpanTreeError::EmptyInput);
        }
        let root_depth = paths[0].depth();
        let mut i: usize = 1;
        while i < paths.len()
            invariant
                1 <= i <= paths@.len(),
                d == paths.deep_view(),
                d.len() == paths@.len(),
                root_depth == d[0].len(),
                forall|j: int| 1 <= j < i ==> #[trigger] df_step_ok(d[0].len(), d[j - 1], d[j]),
                df_first_bad(d, 1) == df_first_bad(d, i as int),
            decreases paths@.len() - i,
        {
            let prev = &paths[i - 1];
            let p = &paths[i];
            let c = prev.common_ancestor(p).depth();
            proof {
                assert forall|k: int| 0 <= k < c implies prev@[k] == p@[k] by {
                    assert(prev@.subrange(0, c as int)[k] == p@.subrange(0, c as int)[k]);
                }
                lemma_common_prefix_len_unique(prev@, p@, c as nat);
                assert(prev@ == d[i - 1]);
                assert(p@ == d[i as int]);
            }
            if c < root_depth {
                proof {
                    assert(df_first_bad(d, i as int) == i);
                }
                return Err(SpanTreeError::NotUnderRoot);
            }
            let pd = p.depth();
            if pd - c > 1 {
                proof {
                    assert(df_first_bad(d, i as int) == i);
                }
                return Err(SpanTreeError::MissingIntermediateNode);
            } else if pd - c == 0 {
                proof {
                    assert(df_first_bad(d, i as int) == i);
                }
                return Err(SpanTreeError::DuplicatePath);
            }
            proof {
                assert(df_step_ok(d[0].len(), d[i - 1], d[i as int]));
                lemma_df_first_bad_step(d, i as int);
            }
            i = i + 1;
        }
        Ok(Self { paths, payloads })
    }
}

impl<'a, Payload> SpanTreeNode<'a, Payload> {
    #[verifier::type_invariant]
    spec fn wf(&self) -> bool {
        &&& self.paths@.len() == self.payloads@.len()
        &&& (self.index as int) < self.paths@.len()
        &&& depth_first_ok(self.paths.deep_view())
    }

    /// The paths of the tree this node belongs to.
    pub closed spec fn paths_view(&self) -> Seq<Seq<Seq<char>>> {
        self.paths.deep_view()
    }

    /// The payloads of the tree this node belongs to.
    pub closed spec fn payloads_view(&self) -> Seq<Payload> {
        self.payloads@
    }

    /// This node's position in the depth-first order.
    pub closed spec fn index_view(&self) -> int {
        self.index as int
    }

    /// This node's span path.
    pub open spec fn path_view(&self) -> Seq<Seq<char>> {
        self.paths_view()[self.index_view()]
    }

    pub fn payload(&self) -> (r: &'a Payload)
        ensures
            r == self.payloads_view()[self.index_view()],
    {
        proof {
            use_type_invariant(self);
        }
        &self.payloads[self.index]
    }

    pub fn path(&self) -> (r: SpanPath)
        ensures
            r@ == self.path_view(),
    {
        proof {
            use_type_invariant(self);
        }
        self.paths[self.index].clone()
    }

    pub fn index(&self) -> (r: usize)
        ensures
            r == self.index_view(),
    {
        self.index
    }

    /// The node holding this node's parent path, found among the nodes that
    /// precede this one in depth-first order; `None` only for the root.
    pub fn parent(&self) -> (r: Option<SpanTreeNode<'a, Payload>>)
        ensures
            match r {
                Some(par) => {
                    &&& par.paths_view() == self.paths_view()
                    &&& par.payloads_view() == self.payloads_view()
                    &&& 0 <= par.index_view() < self.index_view()
                    &&& self.path_view().len() > 0
                    &&& par.path_view() == self.path_view().drop_last()
                },
                None => forall|j: int|
                    0 <= j < self.index_view() ==> self.path_view().len() == 0
                        || self.paths_view()[j] != self.path_view().drop_last(),
            },
    {
        proof {
            use_type_invariant(self);
        }
        let path = self.path();
        let parent_path = match path.parent() {
            Some(p) => p,
            None => {
                return None;
            },
        };
        let mut j: usize = 0;
        while j < self.index
            invariant
                self.wf(),
                j <= self.index_view(),
                parent_path@ == self.path_view().drop_last(),
                self.path_view().len() > 0,
                forall|m: int| 0 <= m < j ==> self.paths_view()[m] != self.path_view().drop_last(),
            decreases self.index_view() - j,
        {
            if self.paths[j] == parent_path {
                return Some(SpanTreeNode { paths: self.paths, payloads: self.payloads, index: j });
            }
            j = j + 1;
        }
        None
    }

    /// The immediate children of this node: the nodes whose paths lie exactly
    /// one level below this node's path, scanning forward from this node
    /// while the paths remain its descendants.
    pub fn visit_children(&self) -> (r: Vec<SpanTreeNode<'a, Payload>>)
        ensures
            ({
                let d = self.paths_view();
                let i = self.index_view();
                let end = subtree_end(d, i, i + 1);
                &&& forall|k: int|
                    0 <= k < r@.len() ==> {
                        &&& (#[trigger] r@[k]).paths_view() == d
                        &&& r@[k].payloads_view() == self.payloads_view()
                        &&& i < r@[k].index_view() < end
                        &&& child_path_of(self.path_view(), d[r@[k].index_view()])
                    }
                &&& forall|k1: int, k2: int|
                    0 <= k1 < k2 < r@.len() ==> r@[k1].index_view() < r@[k2].index_view()
                &&& forall|j: int|
                    i < j < end && child_path_of(self.path_view(), d[j]) ==> exists|k: int|
                        0 <= k < r@.len() && (#[trigger] r@[k]).index_view() == j
                &&& r@.len() == child_count_from(d, i, i + 1)
            }),
    {
        proof {
            use_type_invariant(self);
        }
        let ghost d = self.paths_view();
        let ghost i = self.index_view();
        let path = self.path();
        let len = self.paths.len();
        let mut r: Vec<SpanTreeNode<'a, Payload>> = Vec::new();
        let mut j: usize = self.index + 1;
        while j < len && path.is_ancestor_of(&self.paths[j])
            invariant
                self.wf(),
                d == self.paths_view(),
                i == self.index_view(),
                path@ == self.path_view(),
                len == d.len(),
                i < j <= d.len(),
                subtree_end(d, i, i + 1) == subtree_end(d, i, j as int),
                child_count_from(d, i, i + 1) == r@.len() + child_count_from(d, i, j as int),
                forall|m: int| i < m < j ==> ancestor_path_of(d[i], d[m]),
                forall|k: int|
                    0 <= k < r@.len() ==> {
                        &&& (#[trigger] r@[k]).paths_view() == d
                        &&& r@[k].payloads_view() == self.payloads_view()
                        &&& i < r@[k].index_view() < j
                        &&& child_path_of(self.path_view(), d[r@[k].index_view()])
                    },
                forall|k1: int, k2: int|
                    0 <= k1 < k2 < r@.len() ==> r@[k1].index_view() < r@[k2].index_view(),
                forall|m: int|
                    i < m < j && child_path_of(self.path_view(), d[m]) ==> exists|k: int|
                        0 <= k < r@.len() && (#[trigger] r@[k]).index_view() == m,
            decreases d.len() - j,
        {
            let ghost r_old = r@;
            if path.is_parent_of(&self.paths[j]) {
                r.push(SpanTreeNode { paths: self.paths, payloads: self.payloads, index: j });
            }
            proof {
                assert forall|m: int|
                    i < m < j + 1 && child_path_of(self.path_view(), d[m]) implies exists|k: int|
                    0 <= k < r@.len() && (#[trigger] r@[k]).index_view() == m by {
                    if m < j {
                        let k = choose|k: int|
                            0 <= k < r_old.len() && (#[trigger] r_old[k]).index_view() == m;
                        assert(r@[k].index_view() == m);
                    } else {
                        assert(r@[r@.len() - 1].index_view() == m);
                    }
                }
            }
            j = j + 1;
        }
        proof {
            assert(subtree_end(d, i, j as int) == j);
            assert(child_count_from(d, i, j as int) == 0);
        }
        r
    }

    /// How many immediate children this node has.
    pub fn count_children(&self) -> (r: usize)
        ensures
            r == child_count_from(self.paths_view(), self.index_view(), self.index_view() + 1),
    {
        self.visit_children().len()
    }

    /// The root node of this node's tree.
    pub fn root(&self) -> (r: SpanTreeNode<'a, Payload>)
        ensures
            r.paths_view() == self.paths_view(),
            r.payloads_view() == self.payloads_view(),
            r.index_view() == 0,
    {
        proof {
            use_type_invariant(self);
        }
        SpanTreeNode { paths: self.paths, payloads: self.payloads, index: 0 }
    }
}

} // verus!
