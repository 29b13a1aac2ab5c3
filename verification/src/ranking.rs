//! Ordering scored items by score, highest first, keeping the order of equal scores.
use vstd::prelude::*;

verus! {


/// `x` placed into `s` before the first item with a lower score.
pub open spec fn insert_by_score<T>(s: Seq<(i64, T)>, x: (i64, T)) -> Seq<(i64, T)>
    decreases s.len(),
{
    if s.len() == 0 {
        seq![x]
    } else if s[0].0 < x.0 {
        seq![x] + s
    } else {
        seq![s[0]] + insert_by_score(s.drop_first(), x)
    }
}

/// The items stably sorted by score, highest first (items of equal score keep their order).
pub open spec fn sort_by_score<T>(s: Seq<(i64, T)>) -> Seq<(i64, T)>
    decreases s.len(),
{
    if s.len() == 0 {
        s
    } else {
        insert_by_score(sort_by_score(s.drop_last()), s.last())
    }
}

proof fn lemma_insert_by_score_at<T>(s: Seq<(i64, T)>, x: (i64, T), j: int)
    requires
        0 <= j <= s.len(),
        forall|k: int| 0 <= k < j ==> !(#[trigger] s[k].0 < x.0),
        j < s.len() ==> s[j].0 < x.0,
    ensures
        insert_by_score(s, x) == s.insert(j, x),
    decreases j,
{
    if j == 0 {
        assert(insert_by_score(s, x) =~= s.insert(j, x));
    } else {
        let t = s.drop_first();
        assert forall|k: int| 0 <= k < j - 1 implies !(#[trigger] t[k].0 < x.0) by {
            assert(t[k] == s[k + 1]);
        }
        lemma_insert_by_score_at(t, x, j - 1);
        assert(!(s[0].0 < x.0));
        assert(insert_by_score(s, x) =~= s.insert(j, x));
    }
}

/// The first `k` items of `s`, or all of them when there are fewer.
pub open spec fn first_n<T>(s: Seq<T>, k: int) -> Seq<T> {
    if k < s.len() {
        s.take(k)
    } else {
        s
    }
}

proof fn lemma_insert_by_score_len<T>(s: Seq<(i64, T)>, x: (i64, T))
    ensures
        insert_by_score(s, x).len() == s.len() + 1,
    decreases s.len(),
{
    if s.len() > 0 && !(s[0].0 < x.0) {
        lemma_insert_by_score_len(s.drop_first(), x);
    }
}

/// Inserting and then keeping the first `k` items only depends on the first `k` items.
proof fn lemma_insert_by_score_first_n<T>(s: Seq<(i64, T)>, x: (i64, T), k: int)
    requires
        0 <= k,
    ensures
        first_n(insert_by_score(s, x), k) == first_n(insert_by_score(first_n(s, k), x), k),
    decreases s.len(),
{
    lemma_insert_by_score_len(s, x);
    if k >= s.len() {
    } else if k == 0 {
        assert(first_n(insert_by_score(s, x), k) =~= first_n(insert_by_score(first_n(s, k), x), k));
    } else {
        let t = s.take(k);
        lemma_insert_by_score_len(t, x);
        assert(t[0] == s[0]);
        assert(t.drop_first() =~= first_n(s.drop_first(), k - 1));
        if s[0].0 < x.0 {
            assert(first_n(insert_by_score(s, x), k) =~= first_n(insert_by_score(t, x), k));
        } else {
            lemma_insert_by_score_first_n(s.drop_first(), x, k - 1);
            let a = insert_by_score(s.drop_first(), x);
            let b = insert_by_score(t.drop_first(), x);
            lemma_insert_by_score_len(s.drop_first(), x);
            lemma_insert_by_score_len(t.drop_first(), x);
            assert(insert_by_score(s, x) == seq![s[0]] + a);
            assert(insert_by_score(t, x) == seq![s[0]] + b);
            assert(first_n(a, k - 1) == first_n(b, k - 1));
            assert((seq![s[0]] + a).take(k) =~= seq![s[0]] + a.take(k - 1));
            assert((seq![s[0]] + b).take(k) =~= seq![s[0]] + b.take(k - 1));
        }
    }
}

/// The first `k` items of `items` stably sorted by score, highest first.
pub fn top_by_score<T>(items: Vec<(i64, T)>, k: usize) -> (r: Vec<(i64, T)>)
    ensures
        r@ == first_n(sort_by_score(items@), k as int),
{
    let ghost all = items@;
    let mut out: Vec<(i64, T)> = Vec::new();
    assert(first_n(sort_by_score(all.take(0)), k as int) =~= out@);
    for x in it: items.into_iter()
        invariant
            it.seq() == all,
            out@ == first_n(sort_by_score(all.take(it.index() as int)), k as int),
            out@.len() <= k,
    {
        let ghost i = it.index() as int;
        let ghost prev = sort_by_score(all.take(i));
        assert(all.take(i + 1).drop_last() =~= all.take(i));
        assert(all.take(i + 1).last() == x);
        assert(sort_by_score(all.take(i + 1)) == insert_by_score(prev, x));
        proof {
            lemma_insert_by_score_first_n(prev, x, k as int);
            lemma_insert_by_score_len(out@, x);
        }
        let mut j: usize = 0;
        while j < out.len() && !(out[j].0 < x.0)
            invariant
                j <= out@.len(),
                forall|m: int| 0 <= m < j ==> !(#[trigger] out@[m].0 < x.0),
            decreases out@.len() - j,
        {
            j = j + 1;
        }
        proof {
            lemma_insert_by_score_at(out@, x, j as int);
        }
        let ghost inserted = out@.insert(j as int, x);
        if j < k {
            out.insert(j, x);
            if out.len() > k {
                out.truncate(k);
            }
            assert(out@ =~= first_n(inserted, k as int));
        } else {
            assert(first_n(inserted, k as int) =~= out@);
        }
    }
    assert(all.take(all.len() as int) =~= all);
    out
}

/// Sorting keeps the number of items.
pub proof fn lemma_sort_by_score_len<T>(s: Seq<(i64, T)>)
    ensures
        sort_by_score(s).len() == s.len(),
    decreases s.len(),
{
    if s.len() > 0 {
        lemma_sort_by_score_len(s.drop_last());
        lemma_insert_by_score_len(sort_by_score(s.drop_last()), s.last());
    }
}

pub proof fn lemma_insert_by_score_contains<T>(s: Seq<(i64, T)>, x: (i64, T), y: (i64, T))
    ensures
        insert_by_score(s, x).contains(y) <==> (s.contains(y) || y == x),
    decreases s.len(),
{
    let r = insert_by_score(s, x);
    if s.len() == 0 {
        assert(r[0] == x);
    } else if s[0].0 < x.0 {
        assert(r[0] == x);
        if s.contains(y) {
            let k = choose|k: int| 0 <= k < s.len() && s[k] == y;
            assert(r[k + 1] == y);
        }
        if r.contains(y) && y != x {
            let k = choose|k: int| 0 <= k < r.len() && r[k] == y;
            assert(s[k - 1] == y);
        }
    } else {
        let t = s.drop_first();
        lemma_insert_by_score_contains(t, x, y);
        let rt = insert_by_score(t, x);
        assert(r =~= seq![s[0]] + rt);
        if s.contains(y) {
            let k = choose|k: int| 0 <= k < s.len() && s[k] == y;
            if k == 0 {
                assert(r[0] == y);
            } else {
                assert(t[k - 1] == y);
                let k2 = choose|k2: int| 0 <= k2 < rt.len() && rt[k2] == y;
                assert(r[k2 + 1] == y);
            }
        }
        if y == x {
            let k2 = choose|k2: int| 0 <= k2 < rt.len() && rt[k2] == y;
            assert(r[k2 + 1] == y);
        }
        if r.contains(y) {
            let k = choose|k: int| 0 <= k < r.len() && r[k] == y;
            if k == 0 {
                assert(s[0] == y);
            } else {
                assert(rt[k - 1] == y);
                if t.contains(y) {
                    let k3 = choose|k3: int| 0 <= k3 < t.len() && t[k3] == y;
                    assert(s[k3 + 1] == y);
                }
            }
        }
    }
}

/// Sorting neither adds nor loses items: `y` is among the sorted items exactly when it
/// is among the items.
pub proof fn lemma_sort_by_score_contains<T>(s: Seq<(i64, T)>, y: (i64, T))
    ensures
        sort_by_score(s).contains(y) <==> s.contains(y),
    decreases s.len(),
{
    if s.len() > 0 {
        let p = s.drop_last();
        lemma_sort_by_score_contains(p, y);
        lemma_insert_by_score_contains(sort_by_score(p), s.last(), y);
        if s.contains(y) {
            let k = choose|k: int| 0 <= k < s.len() && s[k] == y;
            if k < s.len() - 1 {
                assert(p[k] == y);
            }
        }
        if p.contains(y) {
            let k = choose|k: int| 0 <= k < p.len() && p[k] == y;
            assert(s[k] == y);
        }
    }
}



// ---------------------------------------------------------------- laws

/// Scores never increase along `s`.
pub open spec fn ordered_by_score<T>(s: Seq<(i64, T)>) -> bool {
    forall|i: int, j: int| 0 <= i < j < s.len() ==> #[trigger] s[j].0 <= #[trigger] s[i].0
}

/// Where `insert_by_score` puts `x`: after every item whose score is not lower.
pub open spec fn insert_pos<T>(s: Seq<(i64, T)>, x: (i64, T)) -> int
    decreases s.len(),
{
    if s.len() == 0 || s[0].0 < x.0 {
        0
    } else {
        1 + insert_pos(s.drop_first(), x)
    }
}

pub proof fn lemma_insert_split<T>(s: Seq<(i64, T)>, x: (i64, T))
    ensures
        0 <= insert_pos(s, x) <= s.len(),
        insert_by_score(s, x) == s.take(insert_pos(s, x)) + seq![x] + s.skip(insert_pos(s, x)),
        forall|k: int| 0 <= k < insert_pos(s, x) ==> !(#[trigger] s[k].0 < x.0),
        insert_pos(s, x) < s.len() ==> s[insert_pos(s, x)].0 < x.0,
    decreases s.len(),
{
    if s.len() == 0 || s[0].0 < x.0 {
        assert(insert_by_score(s, x) =~= s.take(0) + seq![x] + s.skip(0));
    } else {
        let t = s.drop_first();
        lemma_insert_split(t, x);
        let p = insert_pos(t, x);
        assert forall|k: int| 0 <= k < p + 1 implies !(#[trigger] s[k].0 < x.0) by {
            if k > 0 {
                assert(s[k] == t[k - 1]);
            }
        }
        assert(insert_by_score(s, x) =~= s.take(p + 1) + seq![x] + s.skip(p + 1));
    }
}

proof fn lemma_insert_keeps_order<T>(s: Seq<(i64, T)>, x: (i64, T))
    requires
        ordered_by_score(s),
    ensures
        ordered_by_score(insert_by_score(s, x)),
{
    lemma_insert_split(s, x);
    let p = insert_pos(s, x);
    let r = insert_by_score(s, x);
    assert forall|i: int, j: int| 0 <= i < j < r.len() implies #[trigger] r[j].0 <= #[trigger] r[i].0 by {
        if j < p {
            assert(r[i] == s[i] && r[j] == s[j]);
        } else if j == p {
            assert(r[i] == s[i]);
        } else if i < p {
            assert(r[i] == s[i] && r[j] == s[j - 1]);
            assert(r[j].0 <= s[p].0);
        } else if i == p {
            assert(r[j] == s[j - 1]);
            assert(r[j].0 <= s[p].0);
        } else {
            assert(r[i] == s[i - 1] && r[j] == s[j - 1]);
        }
    }
}

/// Sorting orders the items by score, highest first.
pub proof fn sort_by_score_is_ordered<T>(s: Seq<(i64, T)>)
    ensures
        ordered_by_score(sort_by_score(s)),
        forall|i: int, j: int|
            0 <= i < j < sort_by_score(s).len() ==> #[trigger] sort_by_score(s)[j].0 <= #[trigger] sort_by_score(
                s,
            )[i].0,
    decreases s.len(),
{
    if s.len() > 0 {
        sort_by_score_is_ordered(s.drop_last());
        lemma_insert_keeps_order(sort_by_score(s.drop_last()), s.last());
    }
}

/// The first `k` items of a sequence, or all of them when it has no more than `k`.
pub proof fn first_n_is_prefix<T>(s: Seq<T>, k: int)
    requires
        0 <= k,
    ensures
        first_n(s, k).len() == if k < s.len() { k } else { s.len() as int },
        forall|i: int| 0 <= i < first_n(s, k).len() ==> #[trigger] first_n(s, k)[i] == s[i],
{
}

/// Sorting rearranges the items: it neither adds, drops nor duplicates any.
pub proof fn sort_by_score_is_permutation<T>(s: Seq<(i64, T)>)
    ensures
        sort_by_score(s).to_multiset() == s.to_multiset(),
    decreases s.len(),
{
    broadcast use vstd::seq_lib::group_to_multiset_ensures, vstd::seq_lib::lemma_multiset_commutative;

    if s.len() > 0 {
        let t = sort_by_score(s.drop_last());
        let x = s.last();
        sort_by_score_is_permutation(s.drop_last());
        lemma_insert_split(t, x);
        let p = insert_pos(t, x);
        assert(t =~= t.take(p) + t.skip(p));
        assert((t.take(p) + seq![x]) =~= t.take(p).push(x));
        assert(s =~= s.drop_last().push(x));
        assert(insert_by_score(t, x).to_multiset() =~= t.to_multiset().insert(x));
    }
}

/// Sorting keeps the order of items of equal score.
pub proof fn sort_by_score_is_stable<T>(s: Seq<(i64, T)>, score: i64)
    ensures
        sort_by_score(s).filter(|e: (i64, T)| e.0 == score) == s.filter(|e: (i64, T)| e.0 == score),
    decreases s.len(),
{
    broadcast use vstd::seq_lib::group_filter_ensures;

    let f = |e: (i64, T)| e.0 == score;
    if s.len() == 0 {
    } else {
        let t = sort_by_score(s.drop_last());
        let x = s.last();
        sort_by_score_is_stable(s.drop_last(), score);
        sort_by_score_is_ordered(s.drop_last());
        lemma_insert_split(t, x);
        let p = insert_pos(t, x);
        let a = t.take(p);
        let b = t.skip(p);
        Seq::filter_distributes_over_add(a + seq![x], b, f);
        Seq::filter_distributes_over_add(a, seq![x], f);
        Seq::filter_distributes_over_add(a, b, f);
        assert(t =~= a + b);
        reveal_with_fuel(Seq::<_>::filter, 2);
        assert(s.filter(f) == s.drop_last().filter(f) + seq![x].filter(f)) by {
            Seq::filter_distributes_over_add(s.drop_last(), seq![x], f);
            assert(s =~= s.drop_last() + seq![x]);
        }
        if x.0 == score {
            assert forall|k: int| 0 <= k < b.len() implies !f(#[trigger] b[k]) by {
                assert(b[k] == t[p + k]);
                assert(t[p + k].0 <= t[p].0);
            }
            assert(b.filter(f).len() == 0) by {
                if b.filter(f).len() > 0 {
                    b.lemma_filter_contains_rev(f, b.filter(f)[0]);
                    b.filter_lemma(f);
                }
            }
            assert(b.filter(f) =~= Seq::<(i64, T)>::empty());
        }
        assert(sort_by_score(s).filter(f) =~= s.filter(f));
    }
}

} // verus!
