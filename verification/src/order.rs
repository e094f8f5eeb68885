use vstd::prelude::*;
use vstd::relations::{antisymmetric, reflexive, sorted_by, strongly_connected, total_ordering, transitive};
use vstd::seq_lib::lemma_sorted_unique;

verus! {

/// Access entries `(region_id, instant)` are planned oldest first; equal
/// instants are broken by region id ascending, so the order is total over
/// the pairs.
pub open spec fn access_le(a: (u64, u64), b: (u64, u64)) -> bool {
    a.1 < b.1 || (a.1 == b.1 && a.0 <= b.0)
}

pub open spec fn access_order() -> spec_fn((u64, u64), (u64, u64)) -> bool {
    |a: (u64, u64), b: (u64, u64)| access_le(a, b)
}

/// Flush candidates `(rank, size, region_id)` are planned best first:
/// higher rank, then larger size, then region id ascending.
pub open spec fn cand_le(a: (u128, u64, u64), b: (u128, u64, u64)) -> bool {
    ||| a.0 > b.0
    ||| (a.0 == b.0 && a.1 > b.1)
    ||| (a.0 == b.0 && a.1 == b.1 && a.2 <= b.2)
}

pub open spec fn cand_order() -> spec_fn((u128, u64, u64), (u128, u64, u64)) -> bool {
    |a: (u128, u64, u64), b: (u128, u64, u64)| cand_le(a, b)
}

pub proof fn lemma_access_order_total()
    ensures
        total_ordering(access_order()),
{
    let r = access_order();
    assert forall|x: (u64, u64)| #[trigger] r(x, x) by {}
    assert(reflexive(r));
    assert forall|x: (u64, u64), y: (u64, u64)| #[trigger] r(x, y) && #[trigger] r(y, x) implies x == y by {}
    assert(antisymmetric(r));
    assert forall|x: (u64, u64), y: (u64, u64), z: (u64, u64)|
        #[trigger] r(x, y) && #[trigger] r(y, z) implies r(x, z) by {}
    assert(transitive(r));
    assert forall|x: (u64, u64), y: (u64, u64)| #[trigger] r(x, y) || #[trigger] r(y, x) by {}
    assert(strongly_connected(r));
}

pub proof fn lemma_cand_order_total()
    ensures
        total_ordering(cand_order()),
{
    let r = cand_order();
    assert forall|x: (u128, u64, u64)| #[trigger] r(x, x) by {}
    assert(reflexive(r));
    assert forall|x: (u128, u64, u64), y: (u128, u64, u64)| #[trigger] r(x, y) && #[trigger] r(y, x) implies x == y by {}
    assert(antisymmetric(r));
    assert forall|x: (u128, u64, u64), y: (u128, u64, u64), z: (u128, u64, u64)|
        #[trigger] r(x, y) && #[trigger] r(y, z) implies r(x, z) by {}
    assert(transitive(r));
    assert forall|x: (u128, u64, u64), y: (u128, u64, u64)| #[trigger] r(x, y) || #[trigger] r(y, x) by {}
    assert(strongly_connected(r));
}

/// Inserting an element anywhere in a sequence adds it to the multiset of
/// elements.
pub proof fn lemma_insert_to_multiset<A>(s: Seq<A>, i: int, x: A)
    requires
        0 <= i <= s.len(),
    ensures
        s.insert(i, x).to_multiset() == s.to_multiset().insert(x),
{
    broadcast use vstd::seq_lib::group_to_multiset_ensures;
    broadcast use vstd::multiset::group_multiset_axioms;

    let t = s.insert(i, x);
    s.insert_ensures(i, x);
    assert(t.remove(i) =~= s);
    assert(t[i] == x);
    assert(t.remove(i).to_multiset() =~= t.to_multiset().remove(x));
    assert(t.contains(x));
    assert(t.to_multiset().count(x) > 0);
    assert(t.to_multiset().remove(x).insert(x) =~= t.to_multiset());
    assert(s.to_multiset().insert(x) =~= t.to_multiset());
}

fn access_le_exec(a: (u64, u64), b: (u64, u64)) -> (r: bool)
    ensures
        r == access_le(a, b),
{
    a.1 < b.1 || (a.1 == b.1 && a.0 <= b.0)
}

fn cand_le_exec(a: (u128, u64, u64), b: (u128, u64, u64)) -> (r: bool)
    ensures
        r == cand_le(a, b),
{
    a.0 > b.0 || (a.0 == b.0 && a.1 > b.1) || (a.0 == b.0 && a.1 == b.1 && a.2 <= b.2)
}

fn insert_access(v: &mut Vec<(u64, u64)>, x: (u64, u64))
    requires
        sorted_by(old(v)@, access_order()),
    ensures
        sorted_by(final(v)@, access_order()),
        final(v)@.to_multiset() == old(v)@.to_multiset().insert(x),
{
    let n = v.len();
    let mut j: usize = 0;
    while j < n
        invariant
            n == v@.len(),
            v@ == old(v)@,
            j <= n,
            forall|k: int| 0 <= k < j ==> access_le(v@[k], x),
        ensures
            v@ == old(v)@,
            j <= n,
            forall|k: int| 0 <= k < j ==> access_le(v@[k], x),
            j < n ==> access_le(x, v@[j as int]),
        decreases n - j,
    {
        if !access_le_exec(v[j], x) {
            break;
        }
        j += 1;
    }
    let ghost pre = v@;
    proof {
        lemma_insert_to_multiset(pre, j as int, x);
    }
    v.insert(j, x);
    proof {
        pre.insert_ensures(j as int, x);
        assert forall|p: int, q: int| 0 <= p < q < v@.len() implies #[trigger] access_order()(
            v@[p],
            v@[q],
        ) by {
            let jj = j as int;
            if q < jj {
                assert(access_order()(pre[p], pre[q]));
            } else if p < jj && q == jj {
                assert(access_le(pre[p], x));
            } else if p < jj && q > jj {
                if p < q - 1 {
                    assert(access_order()(pre[p], pre[q - 1]));
                }
            } else if p == jj {
                assert(access_le(x, pre[jj]));
                if jj < q - 1 {
                    assert(access_order()(pre[jj], pre[q - 1]));
                }
            } else {
                assert(access_order()(pre[p - 1], pre[q - 1]));
            }
        }
    }
}

fn insert_cand(v: &mut Vec<(u128, u64, u64)>, x: (u128, u64, u64))
    requires
        sorted_by(old(v)@, cand_order()),
    ensures
        sorted_by(final(v)@, cand_order()),
        final(v)@.to_multiset() == old(v)@.to_multiset().insert(x),
{
    let n = v.len();
    let mut j: usize = 0;
    while j < n
        invariant
            n == v@.len(),
            v@ == old(v)@,
            j <= n,
            forall|k: int| 0 <= k < j ==> cand_le(v@[k], x),
        ensures
            v@ == old(v)@,
            j <= n,
            forall|k: int| 0 <= k < j ==> cand_le(v@[k], x),
            j < n ==> cand_le(x, v@[j as int]),
        decreases n - j,
    {
        if !cand_le_exec(v[j], x) {
            break;
        }
        j += 1;
    }
    let ghost pre = v@;
    proof {
        lemma_insert_to_multiset(pre, j as int, x);
    }
    v.insert(j, x);
    proof {
        pre.insert_ensures(j as int, x);
        assert forall|p: int, q: int| 0 <= p < q < v@.len() implies #[trigger] cand_order()(
            v@[p],
            v@[q],
        ) by {
            let jj = j as int;
            if q < jj {
                assert(cand_order()(pre[p], pre[q]));
            } else if p < jj && q == jj {
                assert(cand_le(pre[p], x));
            } else if p < jj && q > jj {
                if p < q - 1 {
                    assert(cand_order()(pre[p], pre[q - 1]));
                }
            } else if p == jj {
                assert(cand_le(x, pre[jj]));
                if jj < q - 1 {
                    assert(cand_order()(pre[jj], pre[q - 1]));
                }
            } else {
                assert(cand_order()(pre[p - 1], pre[q - 1]));
            }
        }
    }
}

/// Sorts access entries oldest first, ties by region id ascending. The
/// result is the canonical sorted form of the input.
pub fn sort_accesses(v: &Vec<(u64, u64)>) -> (r: Vec<(u64, u64)>)
    ensures
        r@ == v@.sort_by(access_order()),
{
    let mut out: Vec<(u64, u64)> = Vec::new();
    let n = v.len();
    proof {
        assert(v@.take(0) =~= out@);
    }
    for idx in 0..n
        invariant
            n == v@.len(),
            sorted_by(out@, access_order()),
            out@.to_multiset() == v@.take(idx as int).to_multiset(),
    {
        insert_access(&mut out, v[idx]);
        proof {
            broadcast use vstd::seq_lib::group_to_multiset_ensures;

            assert(v@.take(idx as int + 1) =~= v@.take(idx as int).push(v@[idx as int]));
            assert(v@.take(idx as int).push(v@[idx as int]).to_multiset() =~= v@.take(
                idx as int,
            ).to_multiset().insert(v@[idx as int]));
        }
    }
    proof {
        assert(v@.take(n as int) =~= v@);
        lemma_access_order_total();
        v@.lemma_sort_by_ensures(access_order());
        lemma_sorted_unique(out@, v@.sort_by(access_order()), access_order());
    }
    out
}

/// Sorts flush candidates best first: higher rank, then larger size, then
/// region id ascending. The result is the canonical sorted form of the
/// input.
pub fn sort_candidates(v: &Vec<(u128, u64, u64)>) -> (r: Vec<(u128, u64, u64)>)
    ensures
        r@ == v@.sort_by(cand_order()),
{
    let mut out: Vec<(u128, u64, u64)> = Vec::new();
    let n = v.len();
    proof {
        assert(v@.take(0) =~= out@);
    }
    for idx in 0..n
        invariant
            n == v@.len(),
            sorted_by(out@, cand_order()),
            out@.to_multiset() == v@.take(idx as int).to_multiset(),
    {
        insert_cand(&mut out, v[idx]);
        proof {
            broadcast use vstd::seq_lib::group_to_multiset_ensures;

            assert(v@.take(idx as int + 1) =~= v@.take(idx as int).push(v@[idx as int]));
            assert(v@.take(idx as int).push(v@[idx as int]).to_multiset() =~= v@.take(
                idx as int,
            ).to_multiset().insert(v@[idx as int]));
        }
    }
    proof {
        assert(v@.take(n as int) =~= v@);
        lemma_cand_order_total();
        v@.lemma_sort_by_ensures(cand_order());
        lemma_sorted_unique(out@, v@.sort_by(cand_order()), cand_order());
    }
    out
}

} // verus!
