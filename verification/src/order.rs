use vstd::prelude::*;

use crate::span_tree::{common_prefix_len, depth_first_ok, df_step_ok, lemma_common_prefix_len_unique};

verus! {

/// Whether `a` is a prefix of `b`, itself included.
pub open spec fn prefix_of(a: Seq<Seq<char>>, b: Seq<Seq<char>>) -> bool {
    a.len() <= b.len() && a == b.subrange(0, a.len() as int)
}

/// Lexicographic order on span names, by character value; a strict prefix
/// comes first.
pub open spec fn str_lt(a: Seq<char>, b: Seq<char>) -> bool
    decreases a.len(),
{
    if b.len() == 0 {
        false
    } else if a.len() == 0 {
        true
    } else if a[0] != b[0] {
        (a[0] as int) < (b[0] as int)
    } else {
        str_lt(a.drop_first(), b.drop_first())
    }
}

/// Lexicographic order on span paths, element-wise by `str_lt`; a strict
/// prefix comes first.
pub open spec fn path_lt(a: Seq<Seq<char>>, b: Seq<Seq<char>>) -> bool
    decreases a.len(),
{
    if b.len() == 0 {
        false
    } else if a.len() == 0 {
        true
    } else if a[0] != b[0] {
        str_lt(a[0], b[0])
    } else {
        path_lt(a.drop_first(), b.drop_first())
    }
}

/// Two names are ordered one way, the other way, or equal.
pub proof fn lemma_str_lt_connected(a: Seq<char>, b: Seq<char>)
    ensures
        str_lt(a, b) || str_lt(b, a) || a == b,
        !(str_lt(a, b) && str_lt(b, a)),
    decreases a.len(),
{
    if a.len() == 0 || b.len() == 0 {
        if a.len() == 0 && b.len() == 0 {
            assert(a =~= b);
        }
    } else if a[0] != b[0] {
        assert((a[0] as int) != (b[0] as int));
    } else {
        lemma_str_lt_connected(a.drop_first(), b.drop_first());
        if a.drop_first() == b.drop_first() {
            assert forall|j: int| 0 <= j < a.len() implies a[j] == b[j] by {
                if j > 0 {
                    assert(a.drop_first()[j - 1] == b.drop_first()[j - 1]);
                }
            }
            assert(a =~= b);
        }
    }
}

/// `str_lt` is transitive.
pub proof fn lemma_str_lt_trans(a: Seq<char>, b: Seq<char>, c: Seq<char>)
    requires
        str_lt(a, b),
        str_lt(b, c),
    ensures
        str_lt(a, c),
    decreases a.len(),
{
    if a.len() == 0 {
    } else {
        if a[0] == b[0] {
            if b[0] == c[0] {
                lemma_str_lt_trans(a.drop_first(), b.drop_first(), c.drop_first());
            }
        } else {
            if b[0] == c[0] {
            } else if a[0] == c[0] {
                assert((a[0] as u32) < (b[0] as u32));
                assert((b[0] as u32) < (c[0] as u32));
            }
        }
    }
}

/// Two paths are ordered one way, the other way, or equal.
pub proof fn lemma_path_lt_connected(a: Seq<Seq<char>>, b: Seq<Seq<char>>)
    ensures
        path_lt(a, b) || path_lt(b, a) || a == b,
        !(path_lt(a, b) && path_lt(b, a)),
    decreases a.len(),
{
    if a.len() == 0 || b.len() == 0 {
        if a.len() == 0 && b.len() == 0 {
            assert(a =~= b);
        }
    } else if a[0] != b[0] {
        lemma_str_lt_connected(a[0], b[0]);
    } else {
        lemma_path_lt_connected(a.drop_first(), b.drop_first());
        if a.drop_first() == b.drop_first() {
            assert forall|j: int| 0 <= j < a.len() implies a[j] == b[j] by {
                if j > 0 {
                    assert(a.drop_first()[j - 1] == b.drop_first()[j - 1]);
                }
            }
            assert(a =~= b);
        }
    }
}

/// `path_lt` is transitive.
pub proof fn lemma_path_lt_trans(a: Seq<Seq<char>>, b: Seq<Seq<char>>, c: Seq<Seq<char>>)
    requires
        path_lt(a, b),
        path_lt(b, c),
    ensures
        path_lt(a, c),
    decreases a.len(),
{
    if a.len() == 0 {
        if c.len() == 0 {
            assert(b.len() == 0);
        }
    } else {
        assert(b.len() > 0);
        assert(c.len() > 0);
        if a[0] == b[0] {
            if b[0] == c[0] {
                lemma_path_lt_trans(a.drop_first(), b.drop_first(), c.drop_first());
            }
        } else {
            if b[0] == c[0] {
            } else if a[0] == c[0] {
                lemma_str_lt_connected(a[0], b[0]);
                lemma_str_lt_trans(a[0], b[0], c[0]);
            } else {
                lemma_str_lt_trans(a[0], b[0], c[0]);
            }
        }
    }
}

/// A prefix of a path comes no later than the path itself.
pub proof fn lemma_prefix_le(q: Seq<Seq<char>>, p: Seq<Seq<char>>)
    requires
        prefix_of(q, p),
    ensures
        q == p || path_lt(q, p),
    decreases q.len(),
{
    if q.len() == 0 {
        if p.len() == 0 {
            assert(q =~= p);
        }
    } else {
        assert(q[0] == p.subrange(0, q.len() as int)[0]);
        assert(q.drop_first() =~= p.drop_first().subrange(0, q.len() - 1)) by {
            assert(forall|j: int|
                0 <= j < q.len() - 1 ==> #[trigger] q.drop_first()[j] == q[j + 1]);
            assert(forall|j: int|
                0 <= j < q.len() ==> q[j] == #[trigger] p.subrange(0, q.len() as int)[j]);
            assert(forall|j: int|
                0 <= j < q.len() - 1 ==> #[trigger] p.drop_first().subrange(0, q.len() - 1)[j]
                    == p[j + 1]);
        }
        lemma_prefix_le(q.drop_first(), p.drop_first());
        if q.drop_first() == p.drop_first() {
            if q.len() == p.len() {
                assert(q =~= p);
            } else {
                assert(path_lt(q.drop_first(), p.drop_first()));
            }
        }
    }
}

/// Everything that lies between a path and a strict extension of it, in the
/// lexicographic order, has that path as a prefix.
pub proof fn lemma_between_prefix(q: Seq<Seq<char>>, x: Seq<Seq<char>>, p: Seq<Seq<char>>)
    requires
        prefix_of(q, p),
        !path_lt(x, q),
        path_lt(x, p),
    ensures
        prefix_of(q, x),
    decreases q.len(),
{
    if q.len() == 0 {
        assert(q =~= x.subrange(0, 0));
    } else {
        assert(p.len() > 0);
        assert(q[0] == p.subrange(0, q.len() as int)[0]);
        assert(q[0] == p[0]);
        if x.len() == 0 {
            assert(path_lt(x, q));
            assert(false);
        }
        if x[0] != q[0] {
            lemma_str_lt_connected(x[0], q[0]);
            if str_lt(x[0], q[0]) {
                assert(path_lt(x, q));
                assert(false);
            } else {
                assert(str_lt(q[0], x[0]));
                assert(x[0] != p[0]);
                assert(path_lt(x, p) == str_lt(x[0], p[0]));
                lemma_str_lt_connected(x[0], p[0]);
                assert(false);
            }
        }
        assert(q.drop_first() =~= p.drop_first().subrange(0, q.len() - 1)) by {
            assert(forall|j: int|
                0 <= j < q.len() - 1 ==> q.drop_first()[j] == #[trigger] q.subrange(
                    0,
                    q.len() as int,
                )[j + 1]);
        }
        lemma_between_prefix(q.drop_first(), x.drop_first(), p.drop_first());
        assert(q =~= x.subrange(0, q.len() as int)) by {
            assert(forall|j: int|
                0 <= j < q.len() - 1 ==> q.drop_first()[j] == #[trigger] x.drop_first().subrange(
                    0,
                    q.len() - 1,
                )[j]);
            assert(forall|j: int| 1 <= j < q.len() ==> q[j] == q.drop_first()[j - 1]);
            assert(forall|j: int|
                1 <= j < q.len() ==> x.drop_first().subrange(0, q.len() - 1)[j - 1] == x[j]);
        }
    }
}

/// Every path is a prefix of itself.
pub proof fn lemma_prefix_refl(a: Seq<Seq<char>>)
    ensures
        prefix_of(a, a),
{
    assert(a =~= a.subrange(0, a.len() as int));
}

/// Of two prefixes of one path, the shorter is a prefix of the longer.
pub proof fn lemma_prefix_nested(a: Seq<Seq<char>>, b: Seq<Seq<char>>, c: Seq<Seq<char>>)
    requires
        prefix_of(a, c),
        prefix_of(b, c),
        a.len() <= b.len(),
    ensures
        prefix_of(a, b),
{
    assert(a =~= b.subrange(0, a.len() as int)) by {
        assert(forall|i: int|
            0 <= i < a.len() ==> #[trigger] a[i] == c.subrange(0, a.len() as int)[i]);
        assert(forall|i: int|
            0 <= i < b.len() ==> #[trigger] b[i] == c.subrange(0, b.len() as int)[i]);
    }
}

/// A prefix of a prefix is a prefix.
pub proof fn lemma_prefix_trans(a: Seq<Seq<char>>, b: Seq<Seq<char>>, c: Seq<Seq<char>>)
    requires
        prefix_of(a, b),
        prefix_of(b, c),
    ensures
        prefix_of(a, c),
{
    assert(a =~= c.subrange(0, a.len() as int)) by {
        assert(forall|i: int|
            0 <= i < a.len() ==> #[trigger] a[i] == b.subrange(0, a.len() as int)[i]);
        assert(forall|i: int|
            0 <= i < b.len() ==> #[trigger] b[i] == c.subrange(0, b.len() as int)[i]);
    }
}

/// The position of `p` in `d`, where `p` occurs in `d`.
pub open spec fn path_index_of(d: Seq<Seq<Seq<char>>>, p: Seq<Seq<char>>) -> int {
    choose|i: int| 0 <= i < d.len() && d[i] == p
}

/// Whether `p` occurs in `d`: the chosen position really holds it.
pub open spec fn contains_path(d: Seq<Seq<Seq<char>>>, p: Seq<Seq<char>>) -> bool {
    let i = path_index_of(d, p);
    0 <= i < d.len() && d[i] == p
}

/// A strictly sorted sequence of paths that descends from its first element
/// and holds every parent is a valid depth-first ordering: each path shares
/// all but its last element with its predecessor's prefix chain.
pub proof fn lemma_sorted_closed_df_ok(d: Seq<Seq<Seq<char>>>)
    requires
        d.len() > 0,
        forall|i: int, j: int| 0 <= i < j < d.len() ==> path_lt(#[trigger] d[i], #[trigger] d[j]),
        forall|i: int| 0 <= i < d.len() ==> prefix_of(d[0], #[trigger] d[i]),
        forall|i: int|
            1 <= i < d.len() ==> #[trigger] contains_path(d, d[i].drop_last()),
    ensures
        depth_first_ok(d),
{
    assert forall|i: int| 1 <= i < d.len() implies #[trigger] df_step_ok(
        d[0].len(),
        d[i - 1],
        d[i],
    ) by {
        let p = d[i];
        let prev = d[i - 1];
        // The root is a strict prefix of p, so p has a parent inside the set.
        assert(prefix_of(d[0], p));
        lemma_prefix_le(d[0], p);
        lemma_path_lt_connected(d[0], p);
        if d[0] == p {
            assert(path_lt(d[0], d[i as int]));
            assert(false);
        }
        assert(p.len() > d[0].len()) by {
            if p.len() == d[0].len() {
                assert(d[0] =~= p);
            }
        }
        let q = p.drop_last();
        assert(contains_path(d, d[i].drop_last()));
        let j = path_index_of(d, q);
        assert(0 <= j < d.len() && d[j] == q);
        assert(prefix_of(q, p)) by {
            assert(q =~= p.subrange(0, p.len() - 1));
        }
        lemma_prefix_le(q, p);
        assert(q != p);
        assert(path_lt(q, p));
        // q appears before p, so q comes no later than prev.
        assert(j < i) by {
            if j >= i {
                if j > i {
                    assert(path_lt(d[i as int], d[j]));
                    lemma_path_lt_connected(q, p);
                }
            }
        }
        assert(!path_lt(prev, q)) by {
            if j < i - 1 {
                assert(path_lt(d[j], d[i - 1]));
                lemma_path_lt_connected(prev, q);
                if path_lt(prev, q) {
                    lemma_path_lt_trans(q, prev, q);
                    lemma_path_lt_connected(q, q);
                }
            } else {
                assert(d[j] == prev);
                lemma_path_lt_connected(prev, q);
            }
        }
        assert(path_lt(prev, p)) by {
            assert(path_lt(d[i - 1], d[i as int]));
        }
        lemma_between_prefix(q, prev, p);
        // prev and p agree on the first p.len() - 1 elements and cannot agree
        // at p.len() - 1 itself.
        assert(forall|k: int| 0 <= k < q.len() ==> prev[k] == #[trigger] q[k]) by {
            assert(forall|k: int|
                0 <= k < q.len() ==> #[trigger] prev.subrange(0, q.len() as int)[k] == q[k]);
        }
        assert(forall|k: int| 0 <= k < q.len() ==> p[k] == #[trigger] q[k]) by {
            assert(forall|k: int|
                0 <= k < q.len() ==> #[trigger] p.subrange(0, q.len() as int)[k] == q[k]);
        }
        assert forall|k: int| 0 <= k < q.len() implies prev[k] == #[trigger] p[k] by {
            assert(prev[k] == q[k]);
            assert(p[k] == q[k]);
        }
        if prev.len() > q.len() && prev[q.len() as int] == p[q.len() as int] {
            assert(prefix_of(p, prev)) by {
                assert(p =~= prev.subrange(0, p.len() as int));
            }
            lemma_prefix_le(p, prev);
            lemma_path_lt_connected(prev, p);
            assert(false);
        }
        lemma_common_prefix_len_unique(prev, p, q.len());
        assert(common_prefix_len(prev, p) == p.len() - 1);
        assert(p.len() - 1 >= d[0].len());
    }
}

} // verus!
