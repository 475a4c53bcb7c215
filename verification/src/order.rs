//! Sorting of integer-keyed triples, and the stable order of a list of keys.

use vstd::prelude::*;

verus! {

/// A sort key `(key, first, second)`, compared lexicographically.
pub type Triple = (u64, usize, usize);

/// Lexicographic order on triples.
pub open spec fn lex_lt(a: Triple, b: Triple) -> bool {
    a.0 < b.0 || (a.0 == b.0 && (a.1 < b.1 || (a.1 == b.1 && a.2 < b.2)))
}

/// Each element precedes every later one.
pub open spec fn strictly_sorted(s: Seq<Triple>) -> bool {
    forall|a: int, b: int| 0 <= a < b < s.len() ==> lex_lt(#[trigger] s[a], #[trigger] s[b])
}

fn lex_less(a: &Triple, b: &Triple) -> (r: bool)
    ensures
        r == lex_lt(*a, *b),
{
    a.0 < b.0 || (a.0 == b.0 && (a.1 < b.1 || (a.1 == b.1 && a.2 < b.2)))
}

pub(crate) proof fn lemma_push_contains(s: Seq<Triple>, x: Triple)
    ensures
        forall|e: Triple| #[trigger] s.push(x).contains(e) <==> (s.contains(e) || e == x),
{
    assert forall|e: Triple| #[trigger] s.push(x).contains(e) <==> (s.contains(e) || e == x) by {
        if s.push(x).contains(e) {
            let k = choose|k: int| 0 <= k < s.push(x).len() && s.push(x)[k] == e;
            if k < s.len() {
                assert(s[k] == e);
            }
        }
        if s.contains(e) {
            let k = choose|k: int| 0 <= k < s.len() && s[k] == e;
            assert(s.push(x)[k] == e);
        }
        if e == x {
            assert(s.push(x)[s.len() as int] == x);
        }
    }
}

/// Merge two strictly sorted lists with no element in common.
fn merge_sorted(a: &Vec<Triple>, b: &Vec<Triple>) -> (out: Vec<Triple>)
    requires
        strictly_sorted(a@),
        strictly_sorted(b@),
        forall|e: Triple| a@.contains(e) ==> !b@.contains(e),
    ensures
        strictly_sorted(out@),
        forall|e: Triple| out@.contains(e) <==> (a@.contains(e) || b@.contains(e)),
{
    let mut out: Vec<Triple> = Vec::new();
    let mut i: usize = 0;
    let mut j: usize = 0;
    while i < a.len() || j < b.len()
        invariant
            strictly_sorted(a@),
            strictly_sorted(b@),
            forall|e: Triple| a@.contains(e) ==> !b@.contains(e),
            i <= a@.len(),
            j <= b@.len(),
            strictly_sorted(out@),
            forall|e: Triple|
                out@.contains(e) <==> (a@.take(i as int).contains(e) || b@.take(j as int).contains(e)),
            out@.len() > 0 && i < a@.len() ==> lex_lt(out@.last(), a@[i as int]),
            out@.len() > 0 && j < b@.len() ==> lex_lt(out@.last(), b@[j as int]),
        decreases a@.len() + b@.len() - i - j,
    {
        let ghost old_out = out@;
        let take_a = if i < a.len() && j < b.len() {
            lex_less(&a[i], &b[j])
        } else {
            i < a.len()
        };
        if take_a {
            let x = a[i];
            proof {
                if j < b@.len() && !lex_lt(x, b@[j as int]) {
                    assert(a@.contains(x));
                    assert(b@[j as int] == x);
                    assert(b@.contains(x));
                }
            }
            out.push(x);
            proof {
                assert(a@.take(i + 1) =~= a@.take(i as int).push(x));
                lemma_push_contains(old_out, x);
                lemma_push_contains(a@.take(i as int), x);
            }
            i = i + 1;
        } else {
            let x = b[j];
            proof {
                if i < a@.len() {
                    assert(x != a@[i as int]) by {
                        assert(a@.contains(a@[i as int]));
                        assert(b@.contains(x));
                    }
                }
            }
            out.push(x);
            proof {
                assert(b@.take(j + 1) =~= b@.take(j as int).push(x));
                lemma_push_contains(old_out, x);
                lemma_push_contains(b@.take(j as int), x);
            }
            j = j + 1;
        }
    }
    proof {
        assert(a@.take(a@.len() as int) =~= a@);
        assert(b@.take(b@.len() as int) =~= b@);
    }
    out
}

/// Sort `v[lo..hi]`, whose elements are pairwise distinct, strictly.
pub(crate) fn sort_triples(v: &Vec<Triple>, lo: usize, hi: usize) -> (out: Vec<Triple>)
    requires
        lo <= hi <= v@.len(),
        v@.no_duplicates(),
    ensures
        strictly_sorted(out@),
        forall|e: Triple| out@.contains(e) <==> v@.subrange(lo as int, hi as int).contains(e),
    decreases hi - lo,
{
    if hi - lo == 0 {
        let out: Vec<Triple> = Vec::new();
        proof {
            assert(v@.subrange(lo as int, hi as int) =~= Seq::<Triple>::empty());
        }
        out
    } else if hi - lo == 1 {
        let mut out: Vec<Triple> = Vec::new();
        out.push(v[lo]);
        proof {
            assert(v@.subrange(lo as int, hi as int) =~= seq![v@[lo as int]]);
            assert(out@ =~= seq![v@[lo as int]]);
        }
        out
    } else {
        let mid = lo + (hi - lo) / 2;
        let left = sort_triples(v, lo, mid);
        let right = sort_triples(v, mid, hi);
        proof {
            assert forall|e: Triple| left@.contains(e) implies !right@.contains(e) by {
                if right@.contains(e) {
                    let sl = v@.subrange(lo as int, mid as int);
                    let sr = v@.subrange(mid as int, hi as int);
                    let a = choose|a: int| 0 <= a < sl.len() && sl[a] == e;
                    let b = choose|b: int| 0 <= b < sr.len() && sr[b] == e;
                    assert(v@[lo + a] == v@[mid + b]);
                }
            }
        }
        let out = merge_sorted(&left, &right);
        proof {
            assert forall|e: Triple| out@.contains(e) <==> v@.subrange(lo as int, hi as int).contains(e) by {
                let s = v@.subrange(lo as int, hi as int);
                let sl = v@.subrange(lo as int, mid as int);
                let sr = v@.subrange(mid as int, hi as int);
                if s.contains(e) {
                    let k = choose|k: int| 0 <= k < s.len() && s[k] == e;
                    if k < mid - lo {
                        assert(sl[k] == e);
                    } else {
                        assert(sr[k - (mid - lo)] == e);
                    }
                }
                if sl.contains(e) {
                    let k = choose|k: int| 0 <= k < sl.len() && sl[k] == e;
                    assert(s[k] == e);
                }
                if sr.contains(e) {
                    let k = choose|k: int| 0 <= k < sr.len() && sr[k] == e;
                    assert(s[k + (mid - lo)] == e);
                }
            }
        }
        out
    }
}

/// Strictly sorted sequences with the same elements are equal.
pub proof fn lemma_sorted_unique(s1: Seq<Triple>, s2: Seq<Triple>)
    requires
        strictly_sorted(s1),
        strictly_sorted(s2),
        forall|e: Triple| s1.contains(e) <==> s2.contains(e),
    ensures
        s1 == s2,
    decreases s1.len(),
{
    if s1.len() == 0 {
        if s2.len() > 0 {
            assert(s2.contains(s2[0]));
        }
        assert(s1 =~= s2);
    } else {
        assert(s1.contains(s1[0]));
        let k = choose|k: int| 0 <= k < s2.len() && s2[k] == s1[0];
        assert(s2.contains(s2[0]));
        let m = choose|m: int| 0 <= m < s1.len() && s1[m] == s2[0];
        if k > 0 && m > 0 {
            assert(lex_lt(s2[0], s2[k]));
            assert(lex_lt(s1[0], s1[m]));
        } else if k > 0 {
            assert(lex_lt(s2[0], s2[k]));
        } else if m > 0 {
            assert(lex_lt(s1[0], s1[m]));
        }
        assert(s1[0] == s2[0]);
        let r1 = s1.drop_first();
        let r2 = s2.drop_first();
        assert forall|e: Triple| r1.contains(e) <==> r2.contains(e) by {
            if r1.contains(e) {
                let i = choose|i: int| 0 <= i < r1.len() && r1[i] == e;
                assert(s1[i + 1] == e);
                assert(s1.contains(e));
                let j = choose|j: int| 0 <= j < s2.len() && s2[j] == e;
                if j == 0 {
                    assert(lex_lt(s1[0], s1[i + 1]));
                }
                assert(r2[j - 1] == e);
            }
            if r2.contains(e) {
                let i = choose|i: int| 0 <= i < r2.len() && r2[i] == e;
                assert(s2[i + 1] == e);
                assert(s2.contains(e));
                let j = choose|j: int| 0 <= j < s1.len() && s1[j] == e;
                if j == 0 {
                    assert(lex_lt(s2[0], s2[i + 1]));
                }
                assert(r1[j - 1] == e);
            }
        }
        lemma_sorted_unique(r1, r2);
        assert(s1 =~= s2) by {
            assert forall|i: int| 0 <= i < s1.len() implies s1[i] == s2[i] by {
                if i > 0 {
                    assert(s1[i] == r1[i - 1]);
                    assert(s2[i] == r2[i - 1]);
                }
            }
        }
    }
}

/// The indices of `keys` ordered by ascending key, equal keys in index order:
/// the permutation that a stable sort by key applies.
pub fn stable_order(keys: &Vec<u64>) -> (order: Vec<usize>)
    ensures
        order@.len() == keys@.len(),
        order@.no_duplicates(),
        forall|k: int| 0 <= k < order@.len() ==> (#[trigger] order@[k]) < keys@.len(),
        forall|i: int| 0 <= i < keys@.len() ==> #[trigger] order@.contains(i as usize),
        forall|a: int, b: int|
            0 <= a < b < order@.len() ==> keys@[#[trigger] order@[a] as int] < keys@[
                #[trigger] order@[b] as int] || (keys@[order@[a] as int] == keys@[order@[b] as int]
                && order@[a] < order@[b]),
{
    let n = keys.len();
    let mut items: Vec<Triple> = Vec::new();
    let mut i: usize = 0;
    while i < n
        invariant
            n == keys@.len(),
            i <= n,
            items@.len() == i,
            forall|k: int| 0 <= k < i ==> #[trigger] items@[k] == (keys@[k], k as usize, 0usize),
        decreases n - i,
    {
        items.push((keys[i], i, 0));
        i = i + 1;
    }
    proof {
        assert(items@.no_duplicates()) by {
            assert forall|a: int, b: int|
                0 <= a < items@.len() && 0 <= b < items@.len() && a != b implies items@[a]
                != items@[b] by {
                assert(items@[a].1 != items@[b].1);
            }
        }
    }
    let sorted = sort_triples(&items, 0, n);
    let ghost s = sorted@;
    proof {
        assert(items@.subrange(0, n as int) =~= items@);
        assert forall|k: int| 0 <= k < s.len() implies (#[trigger] s[k]).1 < n && s[k] == (
            keys@[s[k].1 as int],
            s[k].1,
            0usize,
        ) by {
            assert(s.contains(s[k]));
            let m = choose|m: int| 0 <= m < items@.len() && items@[m] == s[k];
        }
        assert(s.no_duplicates()) by {
            assert forall|a: int, b: int| 0 <= a < s.len() && 0 <= b < s.len() && a != b implies s[a]
                != s[b] by {
                if a < b {
                    assert(lex_lt(s[a], s[b]));
                } else {
                    assert(lex_lt(s[b], s[a]));
                }
            }
        }
        assert(s.to_set() =~= items@.to_set()) by {
            assert forall|x: Triple| s.to_set().contains(x) <==> items@.to_set().contains(x) by {
                assert(s.contains(x) <==> items@.contains(x));
            }
        }
        s.unique_seq_to_set();
        items@.unique_seq_to_set();
    }
    let mut order: Vec<usize> = Vec::new();
    let mut k: usize = 0;
    while k < sorted.len()
        invariant
            sorted@ == s,
            s.len() == n,
            k <= n,
            order@.len() == k,
            forall|q: int| 0 <= q < k ==> #[trigger] order@[q] == s[q].1,
        decreases n - k,
    {
        order.push(sorted[k].1);
        k = k + 1;
    }
    proof {
        assert forall|i: int| 0 <= i < n implies #[trigger] order@.contains(i as usize) by {
            assert(items@[i] == (keys@[i], i as usize, 0usize));
            assert(items@.contains(items@[i]));
            assert(s.contains(items@[i]));
            let q = choose|q: int| 0 <= q < s.len() && s[q] == items@[i];
            assert(order@[q] == i as usize);
        }
        assert forall|a: int, b: int|
            0 <= a < order@.len() && 0 <= b < order@.len() && a != b implies order@[a]
            != order@[b] by {
            assert(s[a] == (keys@[s[a].1 as int], s[a].1, 0usize));
            assert(s[b] == (keys@[s[b].1 as int], s[b].1, 0usize));
            if a < b {
                assert(lex_lt(s[a], s[b]));
            } else {
                assert(lex_lt(s[b], s[a]));
            }
        }
        assert forall|a: int, b: int| 0 <= a < b < order@.len() implies keys@[
            #[trigger] order@[a] as int] < keys@[#[trigger] order@[b] as int] || (keys@[order@[a] as int]
            == keys@[order@[b] as int] && order@[a] < order@[b]) by {
            assert(s[a] == (keys@[s[a].1 as int], s[a].1, 0usize));
            assert(s[b] == (keys@[s[b].1 as int], s[b].1, 0usize));
            assert(lex_lt(s[a], s[b]));
        }
    }
    order
}

} // verus!
