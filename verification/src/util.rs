//! Small containers and helpers shared by the storage layers.

use vstd::prelude::*;

pub mod sparse_map;
pub mod sparse_set;
pub mod type_id_map;

use crate::component::ComponentId;
use crate::util::sparse_map::SparseMapKey;

verus! {

/// Keys ordered by their indexes, non-strictly.
pub open spec fn sorted_by_index<K: SparseMapKey>(s: Seq<K>) -> bool {
    forall|i: int, j: int|
        0 <= i < j < s.len() ==> #[trigger] s[i].spec_index() <= #[trigger] s[j].spec_index()
}

/// The indexes of a key sequence.
pub open spec fn index_seq<K: SparseMapKey>(s: Seq<K>) -> Seq<int> {
    s.map_values(|k: K| k.spec_index())
}

/// Sort keys by ascending index (stably, by insertion).
pub fn sort_by_index<K: SparseMapKey + Copy>(values: &mut Vec<K>)
    ensures
        sorted_by_index(final(values)@),
        final(values)@.to_multiset() == old(values)@.to_multiset(),
        final(values)@.len() == old(values)@.len(),
{
    let mut out: Vec<K> = Vec::new();
    let n = values.len();
    let mut i: usize = 0;
    proof {
        assert(Seq::<K>::empty().to_multiset() =~= old(values)@.take(0).to_multiset()) by {
            assert(Seq::<K>::empty() =~= old(values)@.take(0));
        }
    }
    while i < n
        invariant
            n == old(values)@.len(),
            i <= n,
            values@ == old(values)@,
            sorted_by_index(out@),
            out@.len() == i as int,
            out@.to_multiset() == old(values)@.take(i as int).to_multiset(),
        decreases n - i,
    {
        let x = values[i];
        let mut j: usize = out.len();
        while j > 0 && out[j - 1].index() > x.index()
            invariant
                j <= out@.len(),
                sorted_by_index(out@),
                forall|m: int|
                    j <= m < out@.len() ==> x.spec_index() < #[trigger] out@[m].spec_index(),
            decreases j,
        {
            j = j - 1;
        }
        proof {
            assert(old(values)@.take(i as int + 1) =~= old(values)@.take(i as int).push(
                old(values)@[i as int],
            ));
            vstd::seq_lib::to_multiset_build(old(values)@.take(i as int), old(values)@[i as int]);
            vstd::seq_lib::to_multiset_insert(out@, j as int, x);
        }
        let ghost out_before = out@;
        out.insert(j, x);
        proof {
            assert forall|a: int, b: int| 0 <= a < b < out@.len() implies #[trigger] out@[
                a
            ].spec_index() <= #[trigger] out@[b].spec_index() by {
                if a < j && b > j {
                    assert(out@[a] == out_before[a]);
                    assert(out@[b] == out_before[b - 1]);
                } else if b == j && a < j {
                    if j as int <= out_before.len() - 1 {
                    }
                    assert(out@[a] == out_before[a]);
                } else if a == j && b > j {
                    assert(out@[b] == out_before[b - 1]);
                }
            }
        }
        i = i + 1;
    }
    proof {
        assert(old(values)@.take(n as int) =~= old(values)@);
    }
    *values = out;
}

/// Whether some key repeats the index of the key just before it.
pub open spec fn has_adjacent_duplicate<K: SparseMapKey>(s: Seq<K>) -> bool {
    exists|i: int| 1 <= i < s.len() && #[trigger] s[i].spec_index() == s[i - 1].spec_index()
}

/// Keys ordered by their indexes, strictly: sorted and free of repeats.
pub open spec fn strictly_sorted_by_index<K: SparseMapKey>(s: Seq<K>) -> bool {
    forall|i: int, j: int|
        0 <= i < j < s.len() ==> #[trigger] s[i].spec_index() < #[trigger] s[j].spec_index()
}

/// In a sorted key sequence, a repeated index shows up as an adjacent pair.
pub proof fn lemma_sorted_distinct<K: SparseMapKey>(s: Seq<K>)
    requires
        sorted_by_index(s),
    ensures
        !has_adjacent_duplicate(s) <==> strictly_sorted_by_index(s),
{
    if !has_adjacent_duplicate(s) {
        assert forall|i: int, j: int| 0 <= i < j < s.len() implies #[trigger] s[i].spec_index()
            < #[trigger] s[j].spec_index() by {
            assert(s[i].spec_index() <= s[i + 1].spec_index());
            assert(s[i + 1].spec_index() <= s[j].spec_index());
            if s[i].spec_index() == s[j].spec_index() {
                assert(s[i + 1].spec_index() == s[i].spec_index());
                assert(has_adjacent_duplicate(s));
            }
        }
    }
    if strictly_sorted_by_index(s) {
        assert(!has_adjacent_duplicate(s)) by {
            if has_adjacent_duplicate(s) {
                let i = choose|i: int|
                    1 <= i < s.len() && #[trigger] s[i].spec_index() == s[i - 1].spec_index();
                assert(s[i - 1].spec_index() < s[i].spec_index());
            }
        }
    }
}

/// Two sequences with the same multiset agree on whether any value repeats.
pub proof fn lemma_multiset_distinct_transfer<A>(a: Seq<A>, b: Seq<A>)
    requires
        a.to_multiset() == b.to_multiset(),
        a.no_duplicates(),
    ensures
        b.no_duplicates(),
{
    a.lemma_multiset_has_no_duplicates();
    broadcast use vstd::seq_lib::group_to_multiset_ensures;

    b.lemma_multiset_has_no_duplicates_conv();
}

/// Sequences with equal multisets hold the same elements; carries membership
/// from one to the other.
pub proof fn lemma_contains_transfer<A>(a: Seq<A>, b: Seq<A>, x: A)
    requires
        a.to_multiset() == b.to_multiset(),
        a.contains(x),
    ensures
        b.contains(x),
{
    broadcast use vstd::seq_lib::group_to_multiset_ensures;

    assert(a.to_multiset().count(x) > 0);
}

/// An element of a sequence of in-range ids is in range.
pub proof fn lemma_range_member(s: Seq<ComponentId>, x: ComponentId, n: int)
    requires
        forall|m: int| 0 <= m < s.len() ==> 0 <= (#[trigger] s[m]).0 < n,
        s.contains(x),
    ensures
        0 <= x.0 < n,
{
    let j = choose|j: int| 0 <= j < s.len() && s[j] == x;
    assert(0 <= s[j].0 < n);
}

/// Rearranging a sequence of in-range ids keeps every element in range.
pub proof fn lemma_range_transfer(a: Seq<ComponentId>, b: Seq<ComponentId>, n: int)
    requires
        a.to_multiset() == b.to_multiset(),
        forall|m: int| 0 <= m < a.len() ==> 0 <= (#[trigger] a[m]).0 < n,
    ensures
        forall|m: int| 0 <= m < b.len() ==> 0 <= (#[trigger] b[m]).0 < n,
{
    assert forall|m: int| 0 <= m < b.len() implies 0 <= (#[trigger] b[m]).0 < n by {
        assert(b.contains(b[m]));
        lemma_contains_transfer(b, a, b[m]);
        lemma_range_member(a, b[m], n);
    }
}

/// The first occurrence of every run of equal-index keys, in order.
pub open spec fn adjacent_dedup<K: SparseMapKey>(s: Seq<K>) -> Seq<K>
    decreases s.len(),
{
    if s.len() == 0 {
        Seq::empty()
    } else if s.len() == 1 {
        s
    } else {
        let prefix = adjacent_dedup(s.drop_last());
        if s[s.len() - 1].spec_index() == s[s.len() - 2].spec_index() {
            prefix
        } else {
            prefix.push(s.last())
        }
    }
}

/// A value held at two positions occurs at least twice in the multiset.
pub proof fn lemma_count_two<A>(s: Seq<A>, i: int, j: int)
    requires
        0 <= i < j < s.len(),
        s[i] == s[j],
    ensures
        s.to_multiset().count(s[i]) >= 2,
{
    broadcast use vstd::seq_lib::group_to_multiset_ensures;

    let t = s.remove(i);
    assert(t[j - 1] == s[j]);
    assert(t.contains(s[i]));
    assert(t.to_multiset().count(s[i]) > 0);
    assert(t.to_multiset() == s.to_multiset().remove(s[i]));
}

/// Deduplicating a sorted key sequence keeps it sorted, makes it strict, and
/// leaves its last index in place.
pub proof fn lemma_adjacent_dedup_strict<K: SparseMapKey>(s: Seq<K>)
    requires
        sorted_by_index(s),
    ensures
        strictly_sorted_by_index(adjacent_dedup(s)),
        s.len() > 0 ==> adjacent_dedup(s).len() > 0 && adjacent_dedup(s).last().spec_index()
            == s.last().spec_index(),
    decreases s.len(),
{
    if s.len() > 1 {
        lemma_adjacent_dedup_strict(s.drop_last());
        let prefix = adjacent_dedup(s.drop_last());
        if s[s.len() - 1].spec_index() == s[s.len() - 2].spec_index() {
        } else {
            assert forall|i: int, j: int|
                0 <= i < j < prefix.push(s.last()).len() implies #[trigger] prefix.push(
                s.last(),
            )[i].spec_index() < #[trigger] prefix.push(s.last())[j].spec_index() by {
                if j == prefix.len() {
                    assert(prefix.push(s.last())[i] == prefix[i]);
                    if i < prefix.len() - 1 {
                        assert(prefix[i].spec_index() < prefix[prefix.len() - 1].spec_index());
                    }
                    assert(prefix.last().spec_index() == s.drop_last().last().spec_index());
                    assert(s[s.len() - 2].spec_index() < s[s.len() - 1].spec_index());
                }
            }
        }
    }
}

/// Each value occurs at most once in the deduplicated front of a sorted key
/// sequence.
pub proof fn lemma_adjacent_dedup_counts<K: SparseMapKey>(s: Seq<K>, x: K)
    requires
        sorted_by_index(s),
    ensures
        adjacent_dedup(s).to_multiset().count(x) <= 1,
{
    broadcast use vstd::seq_lib::group_to_multiset_ensures;

    lemma_adjacent_dedup_strict(s);
    let d = adjacent_dedup(s);
    assert(d.no_duplicates()) by {
        assert forall|i: int, j: int|
            0 <= i < d.len() && 0 <= j < d.len() && i != j implies d[i] != d[j] by {
            if i < j {
                assert(d[i].spec_index() < d[j].spec_index());
            } else {
                assert(d[j].spec_index() < d[i].spec_index());
            }
        }
    }
    d.lemma_multiset_has_no_duplicates();
    if d.to_multiset().count(x) > 1 {
        assert(d.to_multiset().contains(x));
    }
}

/// Move every key that repeats the index of its predecessor behind the rest:
/// afterwards the first `w` positions hold the first occurrence of each run,
/// in order, and the tail holds the displaced repeats.
///
/// Hands back `w`, the length of the deduplicated front.
pub fn partition_dedup<K: SparseMapKey + Copy>(values: &mut Vec<K>) -> (w: usize)
    ensures
        final(values)@.len() == old(values)@.len(),
        w <= final(values)@.len(),
        final(values)@.take(w as int) == adjacent_dedup(old(values)@),
        forall|m: int|
            0 <= m < final(values)@.len() ==> old(values)@.contains(#[trigger] final(values)@[m]),
        w as int == old(values)@.len() <==> !has_adjacent_duplicate(old(values)@),
        w as int == old(values)@.len() ==> final(values)@ == old(values)@,
        final(values)@.to_multiset() == old(values)@.to_multiset(),
{
    let n = values.len();
    if n == 0 {
        return 0;
    }
    let mut read: usize = 1;
    let mut write: usize = 1;
    while read < n
        invariant
            n == values@.len(),
            n == old(values)@.len(),
            n >= 1,
            1 <= write <= read <= n,
            forall|m: int| read <= m < n ==> #[trigger] values@[m] == old(values)@[m],
            values@.take(write as int) == adjacent_dedup(old(values)@.take(read as int)),
            values@[write - 1].spec_index() == old(values)@[read - 1].spec_index(),
            forall|m: int| 0 <= m < n ==> old(values)@.contains(#[trigger] values@[m]),
            write as int == read as int <==> !has_adjacent_duplicate(
                old(values)@.take(read as int),
            ),
            write as int == read as int ==> values@ == old(values)@,
            values@.to_multiset() == old(values)@.to_multiset(),
        decreases n - read,
    {
        proof {
            assert(old(values)@.take(read as int + 1).drop_last() =~= old(values)@.take(
                read as int,
            ));
            assert(old(values)@.take(read as int + 1)[read as int] == old(values)@[read as int]);
            assert(old(values)@.take(read as int + 1)[read as int - 1] == old(values)@[read as int
                - 1]);
            lemma_has_adjacent_duplicate_step(old(values)@, read as int);
        }
        let ghost vb = values@;
        let ghost dd = adjacent_dedup(old(values)@.take(read as int + 1));
        if values[read].index() != values[write - 1].index() {
            proof {
                assert(dd == adjacent_dedup(old(values)@.take(read as int)).push(
                    old(values)@[read as int],
                ));
            }
            if write != read {
                let a = values[write];
                let b = values[read];
                values[write] = b;
                values[read] = a;
                proof {
                    broadcast use vstd::seq_lib::group_to_multiset_ensures;

                    let t1 = vb.update(write as int, b);
                    assert(values@ == t1.update(read as int, a));
                    vstd::seq_lib::to_multiset_update(vb, write as int, b);
                    vstd::seq_lib::to_multiset_update(t1, read as int, a);
                    assert(t1[read as int] == b);
                    assert(vb.contains(a));
                    assert(vb.contains(b));
                    assert(values@.to_multiset() =~= vb.to_multiset());
                }
            }
            proof {
                assert forall|m: int| 0 <= m < write as int implies #[trigger] values@[m] == vb[
                    m
                ] by {}
                assert forall|m: int| 0 <= m < write as int implies vb[m] == vb.take(
                    write as int,
                )[m] by {}
                assert(values@[write as int] == old(values)@[read as int]);
                assert(values@.take(write as int + 1) =~= dd);
            }
            write = write + 1;
        } else {
            proof {
                assert(dd == adjacent_dedup(old(values)@.take(read as int)));
                assert(values@.take(write as int) == dd);
            }
        }
        read = read + 1;
    }
    proof {
        assert(old(values)@.take(n as int) =~= old(values)@);
    }
    write
}

proof fn lemma_has_adjacent_duplicate_step<K: SparseMapKey>(s: Seq<K>, r: int)
    requires
        1 <= r < s.len(),
    ensures
        has_adjacent_duplicate(s.take(r + 1)) <==> has_adjacent_duplicate(s.take(r)) || s[
            r
        ].spec_index() == s[r - 1].spec_index(),
{
    let t = s.take(r + 1);
    if has_adjacent_duplicate(s.take(r)) {
        let i = choose|i: int|
            1 <= i < s.take(r).len() && #[trigger] s.take(r)[i].spec_index() == s.take(r)[
                i - 1
            ].spec_index();
        assert(t[i].spec_index() == t[i - 1].spec_index());
    }
    if s[r].spec_index() == s[r - 1].spec_index() {
        assert(t[r].spec_index() == t[r - 1].spec_index());
    }
    if has_adjacent_duplicate(t) {
        let i = choose|i: int|
            1 <= i < t.len() && #[trigger] t[i].spec_index() == t[i - 1].spec_index();
        if i < r {
            assert(s.take(r)[i].spec_index() == s.take(r)[i - 1].spec_index());
        }
    }
}

} // verus!
