//! The top-K selector and the ranker: both order `(id, score)` pairs by
//! score, highest first, and differ in how they break ties.
use vstd::prelude::*;
use crate::matrix::row_view;

verus! {

/// Whether `a` comes strictly ahead of `b`: by the higher score, and, where
/// `by_id` is set, among equal scores by the lower id.
pub open spec fn ahead(a: (int, int), b: (int, int), by_id: bool) -> bool {
    a.1 > b.1 || (by_id && a.1 == b.1 && a.0 < b.0)
}

/// The place at which `e` enters the ordered sequence `s`: behind every entry
/// that it does not come ahead of, so that of two entries that tie the
/// earlier one stays first.
pub open spec fn insert_pos(s: Seq<(int, int)>, e: (int, int), by_id: bool) -> int
    decreases s.len(),
{
    if s.len() == 0 {
        0
    } else if ahead(e, s.last(), by_id) {
        insert_pos(s.drop_last(), e, by_id)
    } else {
        s.len() as int
    }
}

/// The first `n` entries of `input` in order, best first, ties in the order
/// of `input`.
pub open spec fn ordered_upto(input: Seq<(int, int)>, n: int, by_id: bool) -> Seq<(int, int)>
    decreases n,
{
    if n <= 0 {
        Seq::empty()
    } else {
        let before = ordered_upto(input, n - 1, by_id);
        before.insert(insert_pos(before, input[n - 1], by_id), input[n - 1])
    }
}

/// All of `input` in order.
pub open spec fn ordered(input: Seq<(int, int)>, by_id: bool) -> Seq<(int, int)> {
    ordered_upto(input, input.len() as int, by_id)
}

/// The first `k` entries of `s`, or all of `s` where it has fewer.
pub open spec fn first_k(s: Seq<(int, int)>, k: int) -> Seq<(int, int)> {
    if s.len() <= k {
        s
    } else {
        s.take(k)
    }
}

/// The `k` best scores, best first, ties in the order of `scores`.
pub open spec fn top_k(scores: Seq<(int, int)>, k: int) -> Seq<(int, int)> {
    first_k(ordered(scores, false), k)
}

/// The predictions by score, highest first, ties by item ascending.
pub open spec fn ranked(predictions: Seq<(int, int)>) -> Seq<(int, int)> {
    ordered(predictions, true)
}

/// No entry comes ahead of one that stands before it.
pub open spec fn in_order(s: Seq<(int, int)>, by_id: bool) -> bool {
    forall|p: int, q: int| 0 <= p < q < s.len() ==> !ahead(#[trigger] s[q], #[trigger] s[p], by_id)
}

/// What `insert_pos` is: every entry from it on lies behind `e`, and the one
/// just before it does not.
pub proof fn lemma_insert_pos(s: Seq<(int, int)>, e: (int, int), by_id: bool)
    ensures
        0 <= insert_pos(s, e, by_id) <= s.len(),
        forall|q: int| insert_pos(s, e, by_id) <= q < s.len() ==> ahead(e, #[trigger] s[q], by_id),
        insert_pos(s, e, by_id) > 0 ==> !ahead(e, s[insert_pos(s, e, by_id) - 1], by_id),
    decreases s.len(),
{
    if s.len() > 0 && ahead(e, s.last(), by_id) {
        let init = s.drop_last();
        lemma_insert_pos(init, e, by_id);
        assert forall|q: int| insert_pos(s, e, by_id) <= q < s.len() implies ahead(
            e,
            #[trigger] s[q],
            by_id,
        ) by {
            if q < init.len() {
                assert(init[q] == s[q]);
            }
        }
        if insert_pos(s, e, by_id) > 0 {
            assert(init[insert_pos(s, e, by_id) - 1] == s[insert_pos(s, e, by_id) - 1]);
        }
    }
}

/// There is one such place.
pub proof fn lemma_insert_pos_unique(s: Seq<(int, int)>, e: (int, int), by_id: bool, pos: int)
    requires
        0 <= pos <= s.len(),
        forall|q: int| pos <= q < s.len() ==> ahead(e, #[trigger] s[q], by_id),
        pos > 0 ==> !ahead(e, s[pos - 1], by_id),
    ensures
        pos == insert_pos(s, e, by_id),
    decreases s.len(),
{
    if s.len() > 0 {
        if ahead(e, s.last(), by_id) {
            let init = s.drop_last();
            assert(s[s.len() - 1] == s.last());
            assert(pos < s.len());
            assert forall|q: int| pos <= q < init.len() implies ahead(e, #[trigger] init[q], by_id) by {
                assert(init[q] == s[q]);
            }
            if pos > 0 {
                assert(init[pos - 1] == s[pos - 1]);
            }
            lemma_insert_pos_unique(init, e, by_id, pos);
        } else {
            if pos < s.len() {
                assert(ahead(e, s[s.len() - 1], by_id));
            }
        }
    }
}

/// Entering an ordered sequence at `insert_pos` keeps it in order.
pub proof fn lemma_insert_in_order(s: Seq<(int, int)>, e: (int, int), by_id: bool)
    requires
        in_order(s, by_id),
    ensures
        in_order(s.insert(insert_pos(s, e, by_id), e), by_id),
{
    let pos = insert_pos(s, e, by_id);
    let r = s.insert(pos, e);
    lemma_insert_pos(s, e, by_id);
    assert forall|p: int, q: int| 0 <= p < q < r.len() implies !ahead(
        #[trigger] r[q],
        #[trigger] r[p],
        by_id,
    ) by {
        if q == pos {
            assert(r[p] == s[p]);
            if p < pos - 1 {
                assert(!ahead(s[pos - 1], s[p], by_id));
            }
        } else if p == pos {
            assert(r[q] == s[q - 1]);
            assert(ahead(e, s[q - 1], by_id));
        } else if q < pos {
            assert(r[p] == s[p] && r[q] == s[q]);
        } else if p < pos {
            assert(r[p] == s[p] && r[q] == s[q - 1]);
        } else {
            assert(r[p] == s[p - 1] && r[q] == s[q - 1]);
        }
    }
}

/// The ordered entries are in order, and as many as were taken.
pub proof fn lemma_ordered_upto(input: Seq<(int, int)>, n: int, by_id: bool)
    requires
        0 <= n <= input.len(),
    ensures
        in_order(ordered_upto(input, n, by_id), by_id),
        ordered_upto(input, n, by_id).len() == n,
        ordered_upto(input, n, by_id).to_multiset() == input.take(n).to_multiset(),
    decreases n,
{
    broadcast use vstd::seq_lib::group_to_multiset_ensures;

    if n > 0 {
        let before = ordered_upto(input, n - 1, by_id);
        let e = input[n - 1];
        let pos = insert_pos(before, e, by_id);
        lemma_ordered_upto(input, n - 1, by_id);
        lemma_insert_pos(before, e, by_id);
        lemma_insert_in_order(before, e, by_id);
        vstd::seq_lib::to_multiset_insert(before, pos, e);
        assert(input.take(n) =~= input.take(n - 1).push(e));
    } else {
        assert(input.take(0) =~= Seq::<(int, int)>::empty());
        assert(ordered_upto(input, n, by_id) =~= Seq::<(int, int)>::empty());
    }
}

/// What one more entry does to the first `k` of an ordered sequence: it
/// enters where there is room or where it beats the last, which then leaves.
pub open spec fn bounded_insert(t: Seq<(int, int)>, e: (int, int), k: int, by_id: bool) -> Seq<
    (int, int),
> {
    if t.len() < k {
        t.insert(insert_pos(t, e, by_id), e)
    } else if k > 0 && ahead(e, t.last(), by_id) {
        t.drop_last().insert(insert_pos(t.drop_last(), e, by_id), e)
    } else {
        t
    }
}

/// Cutting after the insertion gives what the bounded insertion gives on the
/// cut sequence.
pub proof fn lemma_first_k_insert(s: Seq<(int, int)>, e: (int, int), k: int, by_id: bool)
    requires
        in_order(s, by_id),
        0 <= k,
    ensures
        first_k(s.insert(insert_pos(s, e, by_id), e), k) == bounded_insert(
            first_k(s, k),
            e,
            k,
            by_id,
        ),
{
    let pos = insert_pos(s, e, by_id);
    let full = s.insert(pos, e);
    lemma_insert_pos(s, e, by_id);
    if s.len() < k {
    } else if k == 0 {
        assert(full.take(0) =~= s.take(0));
        assert(first_k(s, k) =~= s.take(0));
    } else {
        let t = first_k(s, k);
        assert(t =~= s.take(k));
        assert(t.last() == s[k - 1]);
        if ahead(e, t.last(), by_id) {
            if pos > k - 1 {
                if pos - 1 > k - 1 {
                    assert(!ahead(s[pos - 1], s[k - 1], by_id));
                }
                assert(false);
            }
            let short = t.drop_last();
            assert(short =~= s.take(k - 1));
            assert forall|q: int| pos <= q < short.len() implies ahead(e, #[trigger] short[q], by_id) by {
                assert(short[q] == s[q]);
            }
            if pos > 0 {
                assert(short[pos - 1] == s[pos - 1]);
            }
            lemma_insert_pos_unique(short, e, by_id, pos);
            assert(full.take(k) =~= short.insert(pos, e));
        } else {
            if pos <= k - 1 {
                assert(ahead(e, s[k - 1], by_id));
            }
            assert(full.take(k) =~= s.take(k));
        }
    }
}

/// Whether `a` comes strictly ahead of `b`.
fn is_ahead(a: (usize, i64), b: (usize, i64), by_id: bool) -> (r: bool)
    ensures
        r == ahead((a.0 as int, a.1 as int), (b.0 as int, b.1 as int), by_id),
{
    a.1 > b.1 || (by_id && a.1 == b.1 && a.0 < b.0)
}

/// Puts `e` into the ordered `acc` at its place.
fn insert_ordered(acc: &mut Vec<(usize, i64)>, e: (usize, i64), by_id: bool)
    ensures
        row_view(final(acc)@) == row_view(old(acc)@).insert(
            insert_pos(row_view(old(acc)@), (e.0 as int, e.1 as int), by_id),
            (e.0 as int, e.1 as int),
        ),
{
    let ghost s = row_view(acc@);
    let ghost ev = (e.0 as int, e.1 as int);
    let mut pos: usize = acc.len();
    while pos > 0 && is_ahead(e, acc[pos - 1], by_id)
        invariant
            pos <= acc@.len(),
            s == row_view(acc@),
            ev == (e.0 as int, e.1 as int),
            forall|q: int| pos <= q < s.len() ==> ahead(ev, #[trigger] s[q], by_id),
        decreases pos,
    {
        pos -= 1;
    }
    proof {
        if pos > 0 {
            assert(s[pos - 1] == (acc@[pos - 1].0 as int, acc@[pos - 1].1 as int));
        }
        lemma_insert_pos_unique(s, ev, by_id, pos as int);
    }
    acc.insert(pos, e);
    assert(row_view(acc@) =~= s.insert(pos as int, ev));
}

/// The first `k` of the entries in order, kept as a running selection of at
/// most `k` entries.
fn select(input: &Vec<(usize, i64)>, k: usize, by_id: bool) -> (chosen: Vec<(usize, i64)>)
    ensures
        row_view(chosen@) == first_k(ordered(row_view(input@), by_id), k as int),
{
    let ghost iv = row_view(input@);
    let mut acc: Vec<(usize, i64)> = Vec::new();
    let mut i: usize = 0;
    assert(row_view(acc@) =~= first_k(ordered_upto(iv, 0, by_id), k as int));
    while i < input.len()
        invariant
            i <= input@.len(),
            iv == row_view(input@),
            row_view(acc@) == first_k(ordered_upto(iv, i as int, by_id), k as int),
        decreases input@.len() - i,
    {
        let e = input[i];
        let ghost ev = (e.0 as int, e.1 as int);
        let ghost before = ordered_upto(iv, i as int, by_id);
        proof {
            assert(iv[i as int] == ev);
            lemma_ordered_upto(iv, i as int, by_id);
            lemma_first_k_insert(before, ev, k as int, by_id);
        }
        if acc.len() < k {
            insert_ordered(&mut acc, e, by_id);
        } else if k > 0 && is_ahead(e, acc[acc.len() - 1], by_id) {
            let ghost t = row_view(acc@);
            assert(t.last() == (acc@[acc@.len() - 1].0 as int, acc@[acc@.len() - 1].1 as int));
            acc.pop();
            assert(row_view(acc@) =~= t.drop_last());
            insert_ordered(&mut acc, e, by_id);
        } else {
            proof {
                if k > 0 {
                    let t = row_view(acc@);
                    assert(t.last() == (acc@[acc@.len() - 1].0 as int, acc@[acc@.len() - 1].1 as int));
                }
            }
        }
        i += 1;
    }
    acc
}

/// Of the first `n` scores those that are at least `floor`, in their order.
pub open spec fn at_least_upto(scores: Seq<(int, int)>, floor: int, n: int) -> Seq<(int, int)>
    decreases n,
{
    if n <= 0 {
        Seq::empty()
    } else if scores[n - 1].1 >= floor {
        at_least_upto(scores, floor, n - 1).push(scores[n - 1])
    } else {
        at_least_upto(scores, floor, n - 1)
    }
}

/// The scores that are at least the minimum similarity, in their order; all
/// of them where there is no minimum.
pub open spec fn at_least(scores: Seq<(int, int)>, minimum: Option<int>) -> Seq<(int, int)> {
    match minimum {
        Some(floor) => at_least_upto(scores, floor, scores.len() as int),
        None => scores,
    }
}

/// An optional score as the mathematical score it stands for.
pub open spec fn option_score(o: Option<i64>) -> Option<int> {
    match o {
        Some(s) => Some(s as int),
        None => None,
    }
}

/// Discards the scores below the minimum similarity; the others stay in
/// their order. Without a minimum every score stays.
pub fn discard_below(scores: &Vec<(usize, i64)>, minimum_similarity: Option<i64>) -> (kept: Vec<
    (usize, i64),
>)
    ensures
        row_view(kept@) == at_least(row_view(scores@), option_score(minimum_similarity)),
        kept@.len() <= scores@.len(),
        forall|p: int| 0 <= p < kept@.len() ==> scores@.contains(#[trigger] kept@[p]),
{
    let ghost sv = row_view(scores@);
    let mut kept: Vec<(usize, i64)> = Vec::new();
    let mut i: usize = 0;
    match minimum_similarity {
        Some(floor) => {
            assert(row_view(kept@) =~= at_least_upto(sv, floor as int, 0));
            while i < scores.len()
                invariant
                    i <= scores@.len(),
                    sv == row_view(scores@),
                    row_view(kept@) == at_least_upto(sv, floor as int, i as int),
                    kept@.len() <= i,
                    forall|p: int| 0 <= p < kept@.len() ==> scores@.contains(#[trigger] kept@[p]),
                decreases scores@.len() - i,
            {
                let entry = scores[i];
                assert(sv[i as int] == (entry.0 as int, entry.1 as int));
                if entry.1 >= floor {
                    let ghost before = row_view(kept@);
                    kept.push(entry);
                    assert(row_view(kept@) =~= before.push(sv[i as int]));
                }
                i += 1;
            }
        },
        None => {
            while i < scores.len()
                invariant
                    i <= scores@.len(),
                    kept@ == scores@.take(i as int),
                decreases scores@.len() - i,
            {
                kept.push(scores[i]);
                assert(kept@ =~= scores@.take(i + 1));
                i += 1;
            }
            assert(scores@.take(scores@.len() as int) =~= scores@);
        },
    }
    kept
}

/// The top-K selector. The `k` entries with the highest scores, highest
/// first; of equal scores the one produced earlier comes first. Where there
/// are fewer than `k` scores, all of them.
pub fn select_top_k(scores: &Vec<(usize, i64)>, k: usize) -> (neighbors: Vec<(usize, i64)>)
    ensures
        row_view(neighbors@) == top_k(row_view(scores@), k as int),
        neighbors@.len() <= k,
        neighbors@.len() <= scores@.len(),
        forall|p: int| 0 <= p < neighbors@.len() ==> scores@.contains(#[trigger] neighbors@[p]),
{
    let neighbors = select(scores, k, false);
    proof {
        let sv = row_view(scores@);
        let nv = row_view(neighbors@);
        lemma_ordered_upto(sv, scores@.len() as int, false);
        assert(nv.len() == neighbors@.len());
        assert(sv.len() == scores@.len());
        assert(sv.take(sv.len() as int) =~= sv);
        assert forall|p: int| 0 <= p < neighbors@.len() implies scores@.contains(
            #[trigger] neighbors@[p],
        ) by {
            broadcast use vstd::seq_lib::group_to_multiset_ensures;

            assert(nv[p] == ordered(sv, false)[p]);
            assert(ordered(sv, false).contains(nv[p]));
            assert(ordered(sv, false).to_multiset().count(nv[p]) > 0);
            assert(sv.to_multiset().count(nv[p]) > 0);
            assert(sv.contains(nv[p]));
            let x = choose|x: int| 0 <= x < sv.len() && sv[x] == nv[p];
            assert(sv[x] == (scores@[x].0 as int, scores@[x].1 as int));
            assert(nv[p] == (neighbors@[p].0 as int, neighbors@[p].1 as int));
            assert(scores@[x] == neighbors@[p]);
        }
    }
    neighbors
}

/// The ranker. The predictions by score, highest first; of equal scores the
/// lower item comes first.
pub fn rank(predictions: &Vec<(usize, i64)>) -> (ranking: Vec<(usize, i64)>)
    ensures
        row_view(ranking@) == ranked(row_view(predictions@)),
        ranking@.len() == predictions@.len(),
{
    let ranking = select(predictions, predictions.len(), true);
    proof {
        lemma_ordered_upto(row_view(predictions@), predictions@.len() as int, true);
        assert(row_view(ranking@).len() == ranking@.len());
        assert(row_view(predictions@).len() == predictions@.len());
    }
    ranking
}

/// The selection never holds more than `k` entries nor more than there are
/// scores; it is the head of all scores in order, which are the given scores
/// rearranged; and every score it holds is at least as high as every score
/// it leaves out.
pub proof fn lemma_top_k_best(scores: Seq<(int, int)>, k: int)
    requires
        0 <= k,
    ensures
        top_k(scores, k).len() == if k <= scores.len() {
            k
        } else {
            scores.len() as int
        },
        ordered(scores, false).to_multiset() == scores.to_multiset(),
        top_k(scores, k) == ordered(scores, false).take(top_k(scores, k).len() as int),
        forall|p: int, q: int|
            0 <= p < top_k(scores, k).len() <= q < scores.len() ==> (#[trigger] top_k(
                scores,
                k,
            )[p]).1 >= (#[trigger] ordered(scores, false)[q]).1,
{
    let all = ordered(scores, false);
    lemma_ordered_upto(scores, scores.len() as int, false);
    assert(scores.take(scores.len() as int) =~= scores);
    assert(all.take(all.len() as int) =~= all);
    assert forall|p: int, q: int| 0 <= p < top_k(scores, k).len() <= q < scores.len() implies (
    #[trigger] top_k(scores, k)[p]).1 >= (#[trigger] all[q]).1 by {
        assert(top_k(scores, k)[p] == all[p]);
        assert(!ahead(all[q], all[p], false));
    }
}

/// For each of the first `n` entries in order, its position in `input`.
pub open spec fn origins_upto(input: Seq<(int, int)>, n: int, by_id: bool) -> Seq<int>
    decreases n,
{
    if n <= 0 {
        Seq::empty()
    } else {
        origins_upto(input, n - 1, by_id).insert(
            insert_pos(ordered_upto(input, n - 1, by_id), input[n - 1], by_id),
            n - 1,
        )
    }
}

/// The ordering is stable. Each entry in order is the entry of `input` at its
/// origin, no origin occurs twice, and of two entries of which neither comes
/// ahead of the other the one that stands first in `input` stands first in
/// order.
pub proof fn lemma_ties_keep_order(input: Seq<(int, int)>, n: int, by_id: bool)
    requires
        0 <= n <= input.len(),
    ensures
        origins_upto(input, n, by_id).len() == n,
        ordered_upto(input, n, by_id).len() == n,
        forall|p: int|
            0 <= p < n ==> 0 <= #[trigger] origins_upto(input, n, by_id)[p] < n && ordered_upto(
                input,
                n,
                by_id,
            )[p] == input[origins_upto(input, n, by_id)[p]],
        forall|p: int, q: int|
            0 <= p < q < n ==> #[trigger] origins_upto(input, n, by_id)[p] != #[trigger] origins_upto(
                input,
                n,
                by_id,
            )[q],
        forall|p: int, q: int|
            0 <= p < q < n && !ahead(
                ordered_upto(input, n, by_id)[p],
                ordered_upto(input, n, by_id)[q],
                by_id,
            ) ==> #[trigger] origins_upto(input, n, by_id)[p] < #[trigger] origins_upto(
                input,
                n,
                by_id,
            )[q],
    decreases n,
{
    if n > 0 {
        let o = ordered_upto(input, n - 1, by_id);
        let g = origins_upto(input, n - 1, by_id);
        let e = input[n - 1];
        let pos = insert_pos(o, e, by_id);
        lemma_ties_keep_order(input, n - 1, by_id);
        lemma_insert_pos(o, e, by_id);
        let o2 = ordered_upto(input, n, by_id);
        let g2 = origins_upto(input, n, by_id);
        assert(o2 == o.insert(pos, e));
        assert(g2 == g.insert(pos, n - 1));
        assert forall|p: int| 0 <= p < n implies 0 <= #[trigger] g2[p] < n && o2[p] == input[g2[p]] by {
            if p < pos {
                assert(g2[p] == g[p] && o2[p] == o[p]);
            } else if p > pos {
                assert(g2[p] == g[p - 1] && o2[p] == o[p - 1]);
            }
        }
        assert forall|p: int, q: int| 0 <= p < q < n implies #[trigger] g2[p] != #[trigger] g2[q]
            && (!ahead(o2[p], o2[q], by_id) ==> g2[p] < g2[q]) by {
            if q == pos {
                assert(g2[p] == g[p]);
            } else if p == pos {
                assert(g2[q] == g[q - 1] && o2[q] == o[q - 1]);
                assert(ahead(e, o[q - 1], by_id));
            } else if q < pos {
                assert(g2[p] == g[p] && g2[q] == g[q] && o2[p] == o[p] && o2[q] == o[q]);
            } else if p < pos {
                assert(g2[p] == g[p] && g2[q] == g[q - 1] && o2[p] == o[p] && o2[q] == o[q - 1]);
            } else {
                assert(g2[p] == g[p - 1] && g2[q] == g[q - 1] && o2[p] == o[p - 1] && o2[q] == o[q
                    - 1]);
            }
        }
    }
}

/// Equal scores keep the order in which they were produced: of two chosen
/// entries with the same score, the one that stands first among the chosen
/// stood first among the scores.
pub proof fn lemma_top_k_keeps_order(scores: Seq<(int, int)>, k: int)
    requires
        0 <= k,
    ensures
        forall|p: int|
            0 <= p < top_k(scores, k).len() ==> 0 <= #[trigger] origins_upto(
                scores,
                scores.len() as int,
                false,
            )[p] < scores.len() && top_k(scores, k)[p] == scores[origins_upto(
                scores,
                scores.len() as int,
                false,
            )[p]],
        forall|p: int, q: int|
            0 <= p < q < top_k(scores, k).len() && top_k(scores, k)[p].1 == top_k(scores, k)[q].1
                ==> #[trigger] origins_upto(scores, scores.len() as int, false)[p]
                < #[trigger] origins_upto(scores, scores.len() as int, false)[q],
{
    let n = scores.len() as int;
    let all = ordered(scores, false);
    let g = origins_upto(scores, n, false);
    lemma_ties_keep_order(scores, n, false);
    assert forall|p: int| 0 <= p < top_k(scores, k).len() implies 0 <= #[trigger] g[p] < n && top_k(
        scores,
        k,
    )[p] == scores[g[p]] by {
        assert(top_k(scores, k)[p] == all[p]);
    }
    assert forall|p: int, q: int|
        0 <= p < q < top_k(scores, k).len() && top_k(scores, k)[p].1 == top_k(
            scores,
            k,
        )[q].1 implies #[trigger] g[p] < #[trigger] g[q] by {
        assert(top_k(scores, k)[p] == all[p] && top_k(scores, k)[q] == all[q]);
        assert(!ahead(all[p], all[q], false));
    }
}

/// Rearranging entries that name each id once leaves each id named once.
pub proof fn lemma_ranked_names_once(predictions: Seq<(int, int)>)
    requires
        forall|p: int, q: int|
            0 <= p < q < predictions.len() ==> (#[trigger] predictions[p]).0 != (
            #[trigger] predictions[q]).0,
    ensures
        forall|p: int, q: int|
            0 <= p < q < ranked(predictions).len() ==> (#[trigger] ranked(predictions)[p]).0 != (
            #[trigger] ranked(predictions)[q]).0,
{
    broadcast use vstd::seq_lib::group_to_multiset_ensures;

    let r = ranked(predictions);
    lemma_ordered_upto(predictions, predictions.len() as int, true);
    assert(predictions.take(predictions.len() as int) =~= predictions);
    assert(predictions.no_duplicates());
    predictions.lemma_multiset_has_no_duplicates();
    r.lemma_multiset_has_no_duplicates_conv();
    assert forall|p: int, q: int| 0 <= p < q < r.len() implies (#[trigger] r[p]).0 != (
    #[trigger] r[q]).0 by {
        assert(r[p] != r[q]);
        assert(r.contains(r[p]) && r.contains(r[q]));
        assert(r.to_multiset().count(r[p]) > 0 && r.to_multiset().count(r[q]) > 0);
        assert(predictions.contains(r[p]) && predictions.contains(r[q]));
        let x = choose|x: int| 0 <= x < predictions.len() && predictions[x] == r[p];
        let y = choose|y: int| 0 <= y < predictions.len() && predictions[y] == r[q];
        if x < y {
            assert(predictions[x].0 != predictions[y].0);
        } else if y < x {
            assert(predictions[y].0 != predictions[x].0);
        }
    }
}

/// The ranking holds the predictions rearranged, each score at least as high
/// as the next, and of two equal scores the lower item first.
pub proof fn lemma_ranked(predictions: Seq<(int, int)>)
    ensures
        ranked(predictions).to_multiset() == predictions.to_multiset(),
        forall|p: int, q: int|
            0 <= p < q < predictions.len() ==> (#[trigger] ranked(predictions)[p]).1 > (
            #[trigger] ranked(predictions)[q]).1 || (ranked(predictions)[p].1 == ranked(
                predictions,
            )[q].1 && ranked(predictions)[p].0 <= ranked(predictions)[q].0),
{
    lemma_ordered_upto(predictions, predictions.len() as int, true);
    assert(predictions.take(predictions.len() as int) =~= predictions);
    let r = ranked(predictions);
    assert forall|p: int, q: int| 0 <= p < q < predictions.len() implies (#[trigger] r[p]).1 > (
    #[trigger] r[q]).1 || (r[p].1 == r[q].1 && r[p].0 <= r[q].0) by {
        assert(!ahead(r[q], r[p], true));
    }
}

} // verus!
