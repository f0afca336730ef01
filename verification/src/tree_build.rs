use vstd::prelude::*;

use crate::order::{
    lemma_path_lt_connected, lemma_path_lt_trans, lemma_prefix_nested, lemma_prefix_refl,
    lemma_prefix_trans, path_lt, prefix_of, str_lt,
};
use crate::span_path::SpanPath;
use vstd::multiset::Multiset;
use crate::timing::DirectStats;

verus! {

/// `str_lt` reduced to the first differing character.
proof fn lemma_str_lt_by_diff(a: Seq<char>, b: Seq<char>, c: nat)
    requires
        c <= a.len(),
        c <= b.len(),
        forall|i: int| 0 <= i < c ==> a[i] == b[i],
        c < a.len() && c < b.len() ==> a[c as int] != b[c as int],
    ensures
        str_lt(a, b) == (if c == a.len() {
            a.len() < b.len()
        } else if c == b.len() {
            false
        } else {
            (a[c as int] as int) < (b[c as int] as int)
        }),
    decreases c,
{
    if c == 0 {
    } else {
        assert(a[0] == b[0]);
        lemma_str_lt_by_diff(a.drop_first(), b.drop_first(), (c - 1) as nat);
        assert(forall|i: int| 0 <= i < c - 1 ==> a.drop_first()[i] == #[trigger] a[i + 1]);
        assert(forall|i: int| 0 <= i < c - 1 ==> b.drop_first()[i] == #[trigger] b[i + 1]);
    }
}

/// `path_lt` reduced to the first differing element.
proof fn lemma_path_lt_by_diff(a: Seq<Seq<char>>, b: Seq<Seq<char>>, c: nat)
    requires
        c <= a.len(),
        c <= b.len(),
        forall|i: int| 0 <= i < c ==> a[i] == b[i],
        c < a.len() && c < b.len() ==> a[c as int] != b[c as int],
    ensures
        path_lt(a, b) == (if c == a.len() {
            a.len() < b.len()
        } else if c == b.len() {
            false
        } else {
            str_lt(a[c as int], b[c as int])
        }),
    decreases c,
{
    if c == 0 {
    } else {
        assert(a[0] == b[0]);
        lemma_path_lt_by_diff(a.drop_first(), b.drop_first(), (c - 1) as nat);
        assert(forall|i: int| 0 <= i < c - 1 ==> a.drop_first()[i] == #[trigger] a[i + 1]);
        assert(forall|i: int| 0 <= i < c - 1 ==> b.drop_first()[i] == #[trigger] b[i + 1]);
    }
}

/// Compares two span names lexicographically by character value.
fn str_lt_exec(a: &str, b: &str) -> (r: bool)
    ensures
        r == str_lt(a@, b@),
{
    let an = a.unicode_len();
    let bn = b.unicode_len();
    let mut c: usize = 0;
    while c < an && c < bn && a.get_char(c) == b.get_char(c)
        invariant
            an == a@.len(),
            bn == b@.len(),
            c <= an,
            c <= bn,
            forall|i: int| 0 <= i < c ==> a@[i] == b@[i],
        decreases an - c,
    {
        c = c + 1;
    }
    proof {
        lemma_str_lt_by_diff(a@, b@, c as nat);
    }
    if c == an {
        an < bn
    } else if c == bn {
        false
    } else {
        (a.get_char(c) as u32) < (b.get_char(c) as u32)
    }
}

/// Compares two span paths lexicographically; a strict prefix comes first.
pub(crate) fn path_lt_exec(a: &SpanPath, b: &SpanPath) -> (r: bool)
    ensures
        r == path_lt(a@, b@),
{
    let common = a.common_ancestor(b);
    let c = common.depth();
    proof {
        assert forall|i: int| 0 <= i < c implies a@[i] == b@[i] by {
            assert(common@[i] == a@.subrange(0, c as int)[i]);
            assert(common@[i] == b@.subrange(0, c as int)[i]);
            assert(a@.subrange(0, c as int)[i] == a@[i]);
            assert(b@.subrange(0, c as int)[i] == b@[i]);
        }
        lemma_path_lt_by_diff(a@, b@, c as nat);
    }
    let ad = a.depth();
    let bd = b.depth();
    if c == ad {
        ad < bd
    } else if c == bd {
        false
    } else {
        let a_names = a.span_names();
        let b_names = b.span_names();
        proof {
            assert(a_names.deep_view()[c as int] == a@[c as int]);
            assert(b_names.deep_view()[c as int] == b@[c as int]);
        }
        str_lt_exec(a_names[c].as_str(), b_names[c].as_str())
    }
}

/// The position of the pair keyed `p`, where one exists.
pub(crate) open spec fn key_index_of(
    s: Seq<(SpanPath, Option<DirectStats>)>,
    p: Seq<Seq<char>>,
) -> int {
    choose|i: int| 0 <= i < s.len() && (#[trigger] s[i]).0@ == p
}

/// Whether some pair carries the key `p`: the chosen position really does.
pub(crate) open spec fn has_key(s: Seq<(SpanPath, Option<DirectStats>)>, p: Seq<Seq<char>>) -> bool {
    let i = key_index_of(s, p);
    0 <= i < s.len() && s[i].0@ == p
}

/// The pairs with their path keys taken as mathematical values.
pub(crate) open spec fn pair_views(s: Seq<(SpanPath, Option<DirectStats>)>) -> Seq<
    (Seq<Seq<char>>, Option<DirectStats>),
> {
    s.map_values(|p: (SpanPath, Option<DirectStats>)| (p.0@, p.1))
}

/// Sorts key-value pairs by their path keys, which must be pairwise
/// distinct, into strictly increasing lexicographic order. The result holds
/// exactly the given pairs.
pub(crate) fn sort_pairs(input: Vec<(SpanPath, Option<DirectStats>)>) -> (out: Vec<
    (SpanPath, Option<DirectStats>),
>)
    requires
        forall|i: int, j: int|
            0 <= i < j < input@.len() ==> (#[trigger] input@[i]).0@ != (#[trigger] input@[j]).0@,
    ensures
        out@.len() == input@.len(),
        forall|i: int, j: int|
            0 <= i < j < out@.len() ==> path_lt((#[trigger] out@[i]).0@, (#[trigger] out@[j]).0@),
        pair_views(out@).to_multiset() == pair_views(input@).to_multiset(),
{
    broadcast use vstd::seq_lib::group_to_multiset_ensures;
    broadcast use vstd::multiset::group_multiset_axioms;

    let ghost input0 = input@;
    let mut work = input;
    let mut out: Vec<(SpanPath, Option<DirectStats>)> = Vec::new();
    while work.len() > 0
        invariant
            forall|i: int, j: int|
                0 <= i < j < work@.len() ==> (#[trigger] work@[i]).0@ != (#[trigger] work@[j]).0@,
            forall|i: int, j: int|
                0 <= i < j < out@.len() ==> path_lt(
                    (#[trigger] out@[i]).0@,
                    (#[trigger] out@[j]).0@,
                ),
            forall|i: int, j: int|
                0 <= i < out@.len() && 0 <= j < work@.len() ==> path_lt(
                    (#[trigger] out@[i]).0@,
                    (#[trigger] work@[j]).0@,
                ),
            pair_views(out@).to_multiset().add(pair_views(work@).to_multiset()) =~= pair_views(
                input0,
            ).to_multiset(),
        decreases work@.len(),
    {
        let n = work.len();
        let mut min: usize = 0;
        let mut k: usize = 1;
        proof {
            lemma_path_lt_connected(work@[0].0@, work@[0].0@);
        }
        while k < n
            invariant
                n == work@.len(),
                n > 0,
                k <= n,
                min < n,
                forall|j: int|
                    0 <= j < k ==> !path_lt((#[trigger] work@[j]).0@, work@[min as int].0@),
            decreases n - k,
        {
            let is_less = path_lt_exec(&work[k].0, &work[min].0);
            proof {
                if is_less {
                    assert forall|j: int|
                        0 <= j < k + 1 implies !path_lt(
                        (#[trigger] work@[j]).0@,
                        work@[k as int].0@,
                    ) by {
                        lemma_path_lt_connected(work@[j].0@, work@[k as int].0@);
                        if path_lt(work@[j].0@, work@[k as int].0@) {
                            lemma_path_lt_trans(
                                work@[j].0@,
                                work@[k as int].0@,
                                work@[min as int].0@,
                            );
                        }
                    }
                } else {
                    lemma_path_lt_connected(work@[k as int].0@, work@[min as int].0@);
                }
            }
            if is_less {
                min = k;
            }
            k = k + 1;
        }
        let ghost work_before = work@;
        let item = work.remove(min);
        proof {
            assert(pair_views(work@) =~= pair_views(work_before).remove(min as int));
            pair_views(work_before).to_multiset_ensures();
            assert(pair_views(work_before).remove(min as int).to_multiset() =~= pair_views(
                work_before,
            ).to_multiset().remove(pair_views(work_before)[min as int]));
            assert(pair_views(work@).to_multiset() =~= pair_views(
                work_before,
            ).to_multiset().remove(pair_views(work_before)[min as int]));
            assert forall|j: int|
                0 <= j < work@.len() implies path_lt(item.0@, (#[trigger] work@[j]).0@) by {
                let j0 = if j < min {
                    j
                } else {
                    j + 1
                };
                assert(work@[j] == work_before[j0]);
                assert(!path_lt(work_before[j0].0@, item.0@));
                lemma_path_lt_connected(item.0@, work_before[j0].0@);
                if item.0@ == work_before[j0].0@ {
                    if j0 < min {
                        assert(work_before[j0].0@ != work_before[min as int].0@);
                    } else {
                        assert(work_before[min as int].0@ != work_before[j0].0@);
                    }
                }
            }
        }
        let ghost out_before = out@;
        out.push(item);
        proof {
            assert(pair_views(out@) =~= pair_views(out_before).push((item.0@, item.1)));
            pair_views(out_before).to_multiset_ensures();
            assert(pair_views(out_before).push((item.0@, item.1)).to_multiset() =~= pair_views(
                out_before,
            ).to_multiset().insert((item.0@, item.1)));
            assert(pair_views(out@).to_multiset() =~= pair_views(out_before).to_multiset().insert(
                (item.0@, item.1),
            ));
            assert((item.0@, item.1) == pair_views(work_before)[min as int]);
            assert(pair_views(work_before).contains(pair_views(work_before)[min as int]));
            assert(pair_views(work_before).to_multiset().count(
                pair_views(work_before)[min as int],
            ) > 0);
            assert(pair_views(out@).to_multiset().add(pair_views(work@).to_multiset())
                =~= pair_views(input0).to_multiset());
        }
    }
    proof {
        assert(pair_views(work@) =~= Seq::<(Seq<Seq<char>>, Option<DirectStats>)>::empty());
        pair_views(work@).to_multiset_ensures();
        pair_views(out@).to_multiset_ensures();
        pair_views(input0).to_multiset_ensures();
        assert(pair_views(work@).to_multiset() =~= Multiset::<
            (Seq<Seq<char>>, Option<DirectStats>),
        >::empty()) by {
            if pair_views(work@).to_multiset().len() > 0 {
                assert(pair_views(work@).len() > 0);
            }
        }
        assert(pair_views(out@).to_multiset() =~= pair_views(input0).to_multiset());
        assert(out@.len() == pair_views(out@).to_multiset().len());
        assert(input0.len() == pair_views(input0).to_multiset().len());
    }
    out
}

/// Finds the position of a path among the keys of closure pairs.
pub(crate) fn find_key(v: &Vec<(SpanPath, Option<DirectStats>)>, path: &SpanPath) -> (r: Option<usize>)
    ensures
        match r {
            Some(i) => 0 <= i < v@.len() && v@[i as int].0@ == path@,
            None => forall|j: int| 0 <= j < v@.len() ==> (#[trigger] v@[j]).0@ != path@,
        },
{
    let n = v.len();
    let mut i: usize = 0;
    while i < n
        invariant
            n == v@.len(),
            i <= n,
            forall|j: int| 0 <= j < i ==> (#[trigger] v@[j]).0@ != path@,
        decreases n - i,
    {
        if &v[i].0 == path {
            return Some(i);
        }
        i = i + 1;
    }
    None
}

/// The longest path that is a prefix of every key; `None` only when there
/// are no keys.
pub(crate) fn common_root(pairs: &Vec<(SpanPath, DirectStats)>) -> (r: Option<SpanPath>)
    ensures
        (r is Some) == (pairs@.len() > 0),
        r is Some ==> {
            &&& forall|i: int|
                0 <= i < pairs@.len() ==> prefix_of(r->0@, (#[trigger] pairs@[i]).0@)
            &&& (exists|i: int|
                0 <= i < pairs@.len() && (#[trigger] pairs@[i]).0@.len() == r->0@.len()) || (
            exists|i1: int, i2: int|
                0 <= i1 < pairs@.len() && 0 <= i2 < pairs@.len() && (#[trigger] pairs@[i1]).0@.len()
                    > r->0@.len() && (#[trigger] pairs@[i2]).0@.len() > r->0@.len()
                    && pairs@[i1].0@[r->0@.len() as int] != pairs@[i2].0@[r->0@.len() as int])
        },
{
    if pairs.len() == 0 {
        return None;
    }
    let mut rt = pairs[0].0.clone();
    proof {
        lemma_prefix_refl(rt@);
    }
    let n = pairs.len();
    let mut i: usize = 1;
    while i < n
        invariant
            n == pairs@.len(),
            1 <= i <= n,
            forall|j: int| 0 <= j < i ==> prefix_of(rt@, (#[trigger] pairs@[j]).0@),
            (exists|j: int| 0 <= j < i && (#[trigger] pairs@[j]).0@.len() == rt@.len()) || (
            exists|j1: int, j2: int|
                0 <= j1 < i && 0 <= j2 < i && (#[trigger] pairs@[j1]).0@.len() > rt@.len() && (
                #[trigger] pairs@[j2]).0@.len() > rt@.len() && pairs@[j1].0@[rt@.len() as int]
                    != pairs@[j2].0@[rt@.len() as int]),
        decreases n - i,
    {
        let ghost rt_old = rt@;
        let next = rt.common_ancestor(&pairs[i].0);
        proof {
            let key = pairs@[i as int].0@;
            assert(prefix_of(next@, rt_old)) by {
                assert(next@ =~= rt_old.subrange(0, next@.len() as int));
            }
            assert(prefix_of(next@, key)) by {
                assert(next@ =~= key.subrange(0, next@.len() as int));
            }
            assert forall|j: int|
                0 <= j < i + 1 implies prefix_of(next@, (#[trigger] pairs@[j]).0@) by {
                if j < i {
                    lemma_prefix_trans(next@, rt_old, pairs@[j].0@);
                }
            }
            if next@.len() == rt_old.len() {
                assert(next@ =~= rt_old);
            } else if next@.len() == key.len() {
                assert(pairs@[i as int].0@.len() == next@.len());
            } else {
                // rt_old and the new key differ right after the shared prefix.
                let c = next@.len() as int;
                assert(rt_old[c] != key[c]);
                assert(prefix_of(rt_old, pairs@[0].0@));
                assert(pairs@[0].0@.len() >= rt_old.len());
                assert(pairs@[0].0@[c] == rt_old[c]) by {
                    assert(rt_old =~= pairs@[0].0@.subrange(0, rt_old.len() as int));
                    assert(pairs@[0].0@.subrange(0, rt_old.len() as int)[c] == pairs@[0].0@[c]);
                }
                assert(pairs@[0].0@.len() > next@.len());
                assert(pairs@[i as int].0@.len() > next@.len());
                assert(pairs@[0].0@[c] != pairs@[i as int].0@[c]);
            }
        }
        rt = next;
        i = i + 1;
    }
    Some(rt)
}

/// All prefixes, no shorter than the root, of the given keys, each carrying
/// its statistics where the prefix is itself a key and nothing otherwise.
pub(crate) fn closed_pairs(pairs: &Vec<(SpanPath, DirectStats)>, rt: &SpanPath) -> (out: Vec<
    (SpanPath, Option<DirectStats>),
>)
    requires
        pairs@.len() > 0,
        forall|i: int, j: int|
            0 <= i < j < pairs@.len() ==> (#[trigger] pairs@[i]).0@ != (#[trigger] pairs@[j]).0@,
        forall|i: int| 0 <= i < pairs@.len() ==> prefix_of(rt@, (#[trigger] pairs@[i]).0@),
    ensures
        forall|i: int, j: int|
            0 <= i < j < out@.len() ==> (#[trigger] out@[i]).0@ != (#[trigger] out@[j]).0@,
        forall|i: int|
            0 <= i < out@.len() ==> (exists|j: int|
                0 <= j < pairs@.len() && prefix_of(
                    (#[trigger] out@[i]).0@,
                    (#[trigger] pairs@[j]).0@,
                )) && out@[i].0@.len() >= rt@.len(),
        forall|j: int, len: int|
            0 <= j < pairs@.len() && rt@.len() <= len <= pairs@[j].0@.len() ==> exists|i: int|
                0 <= i < out@.len() && (#[trigger] out@[i]).0@ == (#[trigger] pairs@[j].0@.subrange(
                    0,
                    len,
                )),
        forall|j: int, len: int|
            0 <= j < pairs@.len() && rt@.len() <= len <= pairs@[j].0@.len() ==> #[trigger] has_key(
                out@,
                pairs@[j].0@.subrange(0, len),
            ),
        forall|i: int, j: int|
            0 <= i < out@.len() && 0 <= j < pairs@.len() && (#[trigger] out@[i]).0@ == (
            #[trigger] pairs@[j]).0@ ==> out@[i].1 == Some(pairs@[j].1),
        forall|i: int|
            0 <= i < out@.len() ==> ((#[trigger] out@[i]).1 is Some <==> exists|j: int|
                0 <= j < pairs@.len() && (#[trigger] pairs@[j]).0@ == out@[i].0@),
{
    let n = pairs.len();
    let mut out: Vec<(SpanPath, Option<DirectStats>)> = Vec::new();
    let mut j: usize = 0;
    while j < n
        invariant
            n == pairs@.len(),
            j <= n,
            out@.len() == j,
            forall|i: int|
                0 <= i < j ==> (#[trigger] out@[i]).0@ == pairs@[i].0@ && out@[i].1 == Some(
                    pairs@[i].1,
                ),
            forall|i: int, k: int|
                0 <= i < k < pairs@.len() ==> (#[trigger] pairs@[i]).0@ != (
                #[trigger] pairs@[k]).0@,
        decreases n - j,
    {
        out.push((pairs[j].0.clone(), Some(pairs[j].1)));
        j = j + 1;
    }
    let ghost orig_len = out@.len() as int;
    proof {
        assert forall|i: int|
            0 <= i < out@.len() implies (exists|k: int|
            0 <= k < pairs@.len() && prefix_of(
                (#[trigger] out@[i]).0@,
                (#[trigger] pairs@[k]).0@,
            )) && out@[i].0@.len() >= rt@.len() by {
            lemma_prefix_refl(out@[i].0@);
            assert(prefix_of(out@[i].0@, pairs@[i].0@));
        }
    }
    let mut j: usize = 0;
    while j < n
        invariant
            n == pairs@.len(),
            j <= n,
            orig_len == n,
            out@.len() >= orig_len,
            forall|i: int, j2: int|
                0 <= i < j2 < pairs@.len() ==> (#[trigger] pairs@[i]).0@ != (
                #[trigger] pairs@[j2]).0@,
            forall|i: int| 0 <= i < pairs@.len() ==> prefix_of(rt@, (#[trigger] pairs@[i]).0@),
            forall|i: int|
                0 <= i < orig_len ==> (#[trigger] out@[i]).0@ == pairs@[i].0@ && out@[i].1 == Some(
                    pairs@[i].1,
                ),
            forall|i: int| orig_len <= i < out@.len() ==> (#[trigger] out@[i]).1 is None,
            forall|i: int, k: int|
                0 <= i < k < out@.len() ==> (#[trigger] out@[i]).0@ != (#[trigger] out@[k]).0@,
            forall|i: int|
                0 <= i < out@.len() ==> (exists|k: int|
                    0 <= k < pairs@.len() && prefix_of(
                        (#[trigger] out@[i]).0@,
                        (#[trigger] pairs@[k]).0@,
                    )) && out@[i].0@.len() >= rt@.len(),
            forall|j2: int, len: int|
                0 <= j2 < j && rt@.len() <= len <= pairs@[j2].0@.len() ==> exists|i: int|
                    0 <= i < out@.len() && (#[trigger] out@[i]).0@ == (
                    #[trigger] pairs@[j2].0@.subrange(0, len)),
        decreases n - j,
    {
        let mut p = pairs[j].0.clone();
        proof {
            lemma_prefix_refl(p@);
            assert(p@ =~= pairs@[j as int].0@.subrange(0, p@.len() as int));
            assert(out@[j as int].0@ == pairs@[j as int].0@);
        }
        loop
            invariant_except_break
                n == pairs@.len(),
                j < n,
                orig_len == n,
                out@.len() >= orig_len,
                prefix_of(p@, pairs@[j as int].0@),
                p@.len() >= rt@.len(),
                forall|i: int, j2: int|
                    0 <= i < j2 < pairs@.len() ==> (#[trigger] pairs@[i]).0@ != (
                    #[trigger] pairs@[j2]).0@,
                forall|i: int| 0 <= i < pairs@.len() ==> prefix_of(rt@, (#[trigger] pairs@[i]).0@),
                forall|i: int|
                    0 <= i < orig_len ==> (#[trigger] out@[i]).0@ == pairs@[i].0@ && out@[i].1
                        == Some(pairs@[i].1),
                forall|i: int| orig_len <= i < out@.len() ==> (#[trigger] out@[i]).1 is None,
                forall|i: int, k: int|
                    0 <= i < k < out@.len() ==> (#[trigger] out@[i]).0@ != (#[trigger] out@[k]).0@,
                forall|i: int|
                    0 <= i < out@.len() ==> (exists|k: int|
                        0 <= k < pairs@.len() && prefix_of(
                            (#[trigger] out@[i]).0@,
                            (#[trigger] pairs@[k]).0@,
                        )) && out@[i].0@.len() >= rt@.len(),
                forall|j2: int, len: int|
                    0 <= j2 < j && rt@.len() <= len <= pairs@[j2].0@.len() ==> exists|i: int|
                        0 <= i < out@.len() && (#[trigger] out@[i]).0@ == (
                        #[trigger] pairs@[j2].0@.subrange(0, len)),
                forall|len: int|
                    p@.len() <= len <= pairs@[j as int].0@.len() ==> exists|i: int|
                        0 <= i < out@.len() && (#[trigger] out@[i]).0@ == (
                        #[trigger] pairs@[j as int].0@.subrange(0, len)),
            ensures
                forall|i: int, j2: int|
                    0 <= i < j2 < pairs@.len() ==> (#[trigger] pairs@[i]).0@ != (
                    #[trigger] pairs@[j2]).0@,
                out@.len() >= orig_len,
                forall|i: int|
                    0 <= i < orig_len ==> (#[trigger] out@[i]).0@ == pairs@[i].0@ && out@[i].1
                        == Some(pairs@[i].1),
                forall|i: int| orig_len <= i < out@.len() ==> (#[trigger] out@[i]).1 is None,
                forall|i: int, k: int|
                    0 <= i < k < out@.len() ==> (#[trigger] out@[i]).0@ != (#[trigger] out@[k]).0@,
                forall|i: int|
                    0 <= i < out@.len() ==> (exists|k: int|
                        0 <= k < pairs@.len() && prefix_of(
                            (#[trigger] out@[i]).0@,
                            (#[trigger] pairs@[k]).0@,
                        )) && out@[i].0@.len() >= rt@.len(),
                forall|j2: int, len: int|
                    0 <= j2 < j && rt@.len() <= len <= pairs@[j2].0@.len() ==> exists|i: int|
                        0 <= i < out@.len() && (#[trigger] out@[i]).0@ == (
                        #[trigger] pairs@[j2].0@.subrange(0, len)),
                forall|len: int|
                    rt@.len() <= len <= pairs@[j as int].0@.len() ==> exists|i: int|
                        0 <= i < out@.len() && (#[trigger] out@[i]).0@ == (
                        #[trigger] pairs@[j as int].0@.subrange(0, len)),
            decreases p@.len(),
        {
            let par = match p.parent() {
                Some(par) => par,
                None => {
                    proof {
                        assert(p@.len() == 0);
                        assert(rt@.len() == 0);
                    }
                    break ;
                },
            };
            if par.depth() < rt.depth() {
                proof {
                    assert(p@.len() == rt@.len());
                }
                break ;
            }
            proof {
                assert(prefix_of(par@, pairs@[j as int].0@)) by {
                    assert(par@ =~= p@.drop_last());
                    assert(par@ =~= pairs@[j as int].0@.subrange(0, par@.len() as int)) by {
                        assert(forall|x: int|
                            0 <= x < p@.len() ==> #[trigger] p@[x] == pairs@[j as int].0@.subrange(
                                0,
                                p@.len() as int,
                            )[x]);
                    }
                }
            }
            let ghost out_pre = out@;
            let ghost p_pre = p@;
            match find_key(&out, &par) {
                Some(found) => {
                    proof {
                        assert(out@[found as int].0@ == par@);
                    }
                },
                None => {
                    out.push((par.clone(), None));
                    proof {
                        assert(forall|i: int|
                            0 <= i < out_pre.len() ==> #[trigger] out@[i] == out_pre[i]);
                        assert(out@.last().0@ == par@);
                        assert forall|i: int|
                            0 <= i < out@.len() implies (exists|k: int|
                            0 <= k < pairs@.len() && prefix_of(
                                (#[trigger] out@[i]).0@,
                                (#[trigger] pairs@[k]).0@,
                            )) && out@[i].0@.len() >= rt@.len() by {
                            if i < out_pre.len() {
                                assert(out_pre[i] == out@[i]);
                            } else {
                                assert(out@[i].0@ == par@);
                                assert(prefix_of(par@, pairs@[j as int].0@));
                            }
                        }
                    }
                },
            }
            proof {
                assert(forall|i: int| 0 <= i < out_pre.len() ==> #[trigger] out@[i] == out_pre[i]);
                assert(exists|i: int| 0 <= i < out@.len() && (#[trigger] out@[i]).0@ == par@);
                assert forall|j2: int, len: int|
                    0 <= j2 < j && rt@.len() <= len <= pairs@[j2].0@.len() implies exists|i: int|
                    0 <= i < out@.len() && (#[trigger] out@[i]).0@ == (
                #[trigger] pairs@[j2].0@.subrange(0, len)) by {
                    let i0 = choose|i0: int|
                        0 <= i0 < out_pre.len() && (#[trigger] out_pre[i0]).0@
                            == pairs@[j2].0@.subrange(0, len);
                    assert(out@[i0].0@ == pairs@[j2].0@.subrange(0, len));
                }
                assert forall|len: int|
                    par@.len() <= len <= pairs@[j as int].0@.len() implies exists|i: int|
                    0 <= i < out@.len() && (#[trigger] out@[i]).0@ == (
                #[trigger] pairs@[j as int].0@.subrange(0, len)) by {
                    if len >= p_pre.len() {
                        let i0 = choose|i0: int|
                            0 <= i0 < out_pre.len() && (#[trigger] out_pre[i0]).0@
                                == pairs@[j as int].0@.subrange(0, len);
                        assert(out@[i0].0@ == pairs@[j as int].0@.subrange(0, len));
                    } else {
                        assert(len == par@.len());
                        let i0 = choose|i0: int|
                            0 <= i0 < out@.len() && (#[trigger] out@[i0]).0@ == par@;
                        assert(par@ == pairs@[j as int].0@.subrange(0, par@.len() as int));
                        assert(out@[i0].0@ == pairs@[j as int].0@.subrange(0, len));
                    }
                }
            }
            p = par;
        }
        j = j + 1;
    }
    proof {
        assert forall|i: int, k: int|
            0 <= i < out@.len() && 0 <= k < pairs@.len() && (#[trigger] out@[i]).0@ == (
        #[trigger] pairs@[k]).0@ implies out@[i].1 == Some(pairs@[k].1) by {
            if i < orig_len {
                if i != k {
                    assert(pairs@[i].0@ != pairs@[k].0@);
                }
            } else {
                assert(out@[k].0@ == pairs@[k].0@);
                assert(out@[k].0@ != out@[i].0@);
            }
        }
        assert forall|i: int|
            0 <= i < out@.len() implies ((#[trigger] out@[i]).1 is Some <==> exists|k: int|
            0 <= k < pairs@.len() && (#[trigger] pairs@[k]).0@ == out@[i].0@) by {
            if i < orig_len {
                assert(pairs@[i].0@ == out@[i].0@);
            } else {
                if exists|k: int| 0 <= k < pairs@.len() && (#[trigger] pairs@[k]).0@ == out@[i].0@ {
                    let k = choose|k: int|
                        0 <= k < pairs@.len() && (#[trigger] pairs@[k]).0@ == out@[i].0@;
                    assert(out@[k].0@ == pairs@[k].0@);
                    assert(out@[k].0@ != out@[i].0@);
                }
            }
        }
        assert forall|j2: int, len: int|
            0 <= j2 < pairs@.len() && rt@.len() <= len <= pairs@[j2].0@.len() implies #[trigger] has_key(
            out@,
            pairs@[j2].0@.subrange(0, len),
        ) by {
            let i0 = choose|i0: int|
                0 <= i0 < out@.len() && (#[trigger] out@[i0]).0@ == pairs@[j2].0@.subrange(
                    0,
                    len,
                );
            assert(0 <= i0 < out@.len() && out@[i0].0@ == pairs@[j2].0@.subrange(0, len));
        }
    }
    out
}

} // verus!
