use vstd::prelude::*;

verus! {

/// Holds when `a` is a strict prefix of `b`: the two paths agree on every
/// element of `a`, and `b` has at least one more element.
pub open spec fn ancestor_path_of(a: Seq<Seq<char>>, b: Seq<Seq<char>>) -> bool {
    a.len() < b.len() && a == b.subrange(0, a.len() as int)
}

/// An ordered list of span names identifying a position in the span call
/// hierarchy. The empty list denotes the synthetic root. Elements compare by
/// exact string equality.
#[derive(Debug)]
pub struct SpanPath {
    span_names: Vec<String>,
}

impl View for SpanPath {
    type V = Seq<Seq<char>>;

    closed spec fn view(&self) -> Seq<Seq<char>> {
        self.span_names.deep_view()
    }
}

impl DeepView for SpanPath {
    type V = Seq<Seq<char>>;

    open spec fn deep_view(&self) -> Seq<Seq<char>> {
        self.view()
    }
}

impl Clone for SpanPath {
    fn clone(&self) -> (r: Self)
        ensures
            r@ == self@,
    {
        let names = clone_names_prefix(&self.span_names, self.span_names.len());
        proof {
            assert(names.deep_view() =~= self@);
        }
        SpanPath { span_names: names }
    }
}

impl PartialEq for SpanPath {
    fn eq(&self, other: &Self) -> (r: bool) {
        let n = common_prefix_count(&self.span_names, &other.span_names);
        let r = n == self.span_names.len() && n == other.span_names.len();
        proof {
            if r {
                assert(self@ =~= other@);
            } else {
                if self@ == other@ {
                    assert(self@.len() == other@.len());
                    assert(false);
                }
            }
        }
        r
    }
}

impl Eq for SpanPath {}

impl vstd::std_specs::cmp::PartialEqSpecImpl for SpanPath {
    open spec fn obeys_eq_spec() -> bool {
        true
    }

    open spec fn eq_spec(&self, other: &Self) -> bool {
        self@ == other@
    }
}

/// Returns how many leading elements `a` and `b` share.
fn common_prefix_count(a: &Vec<String>, b: &Vec<String>) -> (n: usize)
    ensures
        n <= a.deep_view().len(),
        n <= b.deep_view().len(),
        forall|i: int| 0 <= i < n ==> a.deep_view()[i] == b.deep_view()[i],
        n < a.deep_view().len() && n < b.deep_view().len() ==> a.deep_view()[n as int]
            != b.deep_view()[n as int],
{
    let mut n: usize = 0;
    while n < a.len() && n < b.len() && a[n] == b[n]
        invariant
            n <= a.len(),
            n <= b.len(),
            forall|i: int| 0 <= i < n ==> a.deep_view()[i] == b.deep_view()[i],
        decreases a.len() - n,
    {
        n = n + 1;
    }
    n
}

/// Returns a new vector holding clones of the first `n` elements of `v`.
fn clone_names_prefix(v: &Vec<String>, n: usize) -> (r: Vec<String>)
    requires
        n <= v.len(),
    ensures
        r.deep_view() == v.deep_view().subrange(0, n as int),
{
    let mut r: Vec<String> = Vec::new();
    let mut i: usize = 0;
    while i < n
        invariant
            i <= n,
            n <= v.len(),
            r@ =~= v@.subrange(0, i as int),
        decreases n - i,
    {
        r.push(v[i].clone());
        i = i + 1;
        proof {
            assert(r@ =~= v@.subrange(0, i as int));
        }
    }
    proof {
        assert forall|j: int| 0 <= j < n implies r.deep_view()[j] == v.deep_view().subrange(
            0,
            n as int,
        )[j] by {
            assert(r@[j] == v@[j]);
        }
        assert(r.deep_view() =~= v.deep_view().subrange(0, n as int));
    }
    r
}

impl SpanPath {
    pub fn new(span_names: Vec<String>) -> (r: Self)
        ensures
            r@ == span_names.deep_view(),
    {
        Self { span_names }
    }

    /// The name of the innermost span, absent only for the root.
    pub fn span_name(&self) -> (r: Option<&str>)
        ensures
            (r is Some) == (self@.len() > 0),
            r is Some ==> r->0@ == self@.last(),
    {
        let len = self.span_names.len();
        if len > 0 {
            Some(self.span_names[len - 1].as_str())
        } else {
            None
        }
    }

    pub fn span_names(&self) -> (r: &Vec<String>)
        ensures
            r.deep_view() == self@,
    {
        &self.span_names
    }

    /// The number of span names that make up this span path.
    pub fn depth(&self) -> (r: usize)
        ensures
            r == self@.len(),
    {
        self.span_names.len()
    }

    /// The path with the last element removed; `None` for the root.
    pub fn parent(&self) -> (r: Option<SpanPath>)
        ensures
            (r is Some) == (self@.len() > 0),
            r is Some ==> r->0@ == self@.drop_last(),
    {
        let len = self.span_names.len();
        if len > 0 {
            let names = clone_names_prefix(&self.span_names, len - 1);
            proof {
                assert(names.deep_view() =~= self@.drop_last());
            }
            Some(SpanPath { span_names: names })
        } else {
            None
        }
    }

    /// True iff `other` lies exactly one level below this path.
    pub fn is_parent_of(&self, other: &SpanPath) -> (r: bool)
        ensures
            r == (ancestor_path_of(self@, other@) && self@.len() + 1 == other@.len()),
    {
        let n = common_prefix_count(&self.span_names, &other.span_names);
        let r = n == self.span_names.len() && other.span_names.len() - n == 1;
        proof {
            if r {
                assert(self@ =~= other@.subrange(0, self@.len() as int));
            } else if ancestor_path_of(self@, other@) && self@.len() + 1 == other@.len() {
                assert(forall|i: int|
                    0 <= i < self@.len() ==> self@[i] == #[trigger] other@[i]) by {
                    assert(forall|i: int|
                        0 <= i < self@.len() ==> self@[i] == #[trigger] other@.subrange(
                            0,
                            self@.len() as int,
                        )[i]);
                }
                assert(false);
            }
        }
        r
    }

    /// Determines if this path is an ancestor of another path.
    ///
    /// True iff this path is a strict prefix of `other`: the root is an
    /// ancestor of every other path, and no path is an ancestor of itself.
    pub fn is_ancestor_of(&self, other: &SpanPath) -> (r: bool)
        ensures
            r == ancestor_path_of(self@, other@),
    {
        let n = common_prefix_count(&self.span_names, &other.span_names);
        let r = n == self.span_names.len() && self.span_names.len() < other.span_names.len();
        proof {
            if r {
                assert(self@ =~= other@.subrange(0, self@.len() as int));
            } else if ancestor_path_of(self@, other@) {
                assert(forall|i: int|
                    0 <= i < self@.len() ==> self@[i] == #[trigger] other@[i]) by {
                    assert(forall|i: int|
                        0 <= i < self@.len() ==> self@[i] == #[trigger] other@.subrange(
                            0,
                            self@.len() as int,
                        )[i]);
                }
                assert(false);
            }
        }
        r
    }

    /// Determines the longest shared prefix of this path and another path.
    ///
    /// A path counts as an ancestor of itself here, so the result equals the
    /// shorter path whenever one path is a prefix of the other.
    pub fn common_ancestor(&self, other: &SpanPath) -> (r: SpanPath)
        ensures
            r@.len() <= self@.len() && r@ == self@.subrange(0, r@.len() as int),
            r@.len() <= other@.len() && r@ == other@.subrange(0, r@.len() as int),
            r@.len() == self@.len() || r@.len() == other@.len() || self@[r@.len() as int]
                != other@[r@.len() as int],
    {
        let n = common_prefix_count(&self.span_names, &other.span_names);
        let names = clone_names_prefix(&self.span_names, n);
        proof {
            assert(names.deep_view() =~= self@.subrange(0, n as int));
            assert(names.deep_view() =~= other@.subrange(0, n as int));
        }
        SpanPath { span_names: names }
    }

    /// Appends a span name in place.
    pub fn push_span_name(&mut self, span_name: String)
        ensures
            final(self)@ == old(self)@.push(span_name@),
    {
        let ghost old_view = self@;
        let ghost name_view = span_name@;
        self.span_names.push(span_name);
        proof {
            assert(self@ =~= old_view.push(name_view));
        }
    }
}

/// No path is an ancestor of itself: `is_ancestor_of` is irreflexive.
pub proof fn lemma_ancestor_of_irreflexive(p: Seq<Seq<char>>)
    ensures
        !ancestor_path_of(p, p),
{
}

/// Ancestry is transitive: an ancestor of an ancestor is an ancestor.
pub proof fn lemma_ancestor_of_transitive(a: Seq<Seq<char>>, b: Seq<Seq<char>>, c: Seq<Seq<char>>)
    requires
        ancestor_path_of(a, b),
        ancestor_path_of(b, c),
    ensures
        ancestor_path_of(a, c),
{
    assert(a =~= c.subrange(0, a.len() as int)) by {
        assert(forall|i: int| 0 <= i < a.len() ==> a[i] == #[trigger] b[i]) by {
            assert(forall|i: int|
                0 <= i < a.len() ==> a[i] == #[trigger] b.subrange(0, a.len() as int)[i]);
        }
        assert(forall|i: int| 0 <= i < b.len() ==> b[i] == #[trigger] c[i]) by {
            assert(forall|i: int|
                0 <= i < b.len() ==> b[i] == #[trigger] c.subrange(0, b.len() as int)[i]);
        }
    }
}

/// Every non-root path's parent is an ancestor of that path.
pub proof fn lemma_parent_is_ancestor(p: Seq<Seq<char>>)
    requires
        p.len() > 0,
    ensures
        ancestor_path_of(p.drop_last(), p),
{
    assert(p.drop_last() =~= p.subrange(0, p.len() - 1));
}

} // verus!
