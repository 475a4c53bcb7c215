//! Zero-dimensional persistence of a Vietoris-Rips filtration: the order in
//! which the pairwise edges enter the filtration, the edges that merge two
//! connected components, and the resulting Betti numbers.
//!
//! Distances are given as integer filtration keys that order the edges as the
//! distances do; a missing key stands for an infinite distance.

use vstd::prelude::*;

use crate::order::lemma_push_contains;
use crate::order::lemma_sorted_unique;
use crate::order::sort_triples;
use crate::order::strictly_sorted;
use crate::union_find::UnionFind;

verus! {

/// An edge `(key, i, j)` of the complete graph: filtration key and endpoints.
pub type Edge = (u64, usize, usize);

/// Key of the pair `(i, j)` in the row-major `n`-by-`n` key matrix; `None`
/// (an infinite distance) where the matrix has no entry for it.
pub open spec fn pair_key(keys: Seq<Option<u64>>, n: int, i: int, j: int) -> Option<u64> {
    if 0 <= i * n + j < keys.len() {
        keys[i * n + j]
    } else {
        None
    }
}

/// Number of columns `j` with `i < j < end` whose pair `(i, j)` has a key.
pub open spec fn finite_in_row(keys: Seq<Option<u64>>, n: int, i: int, end: int) -> nat
    decreases end - i,
{
    if end <= i + 1 {
        0
    } else {
        finite_in_row(keys, n, i, end - 1) + (if pair_key(keys, n, i, end - 1) is Some {
            1nat
        } else {
            0nat
        })
    }
}

/// Number of pairs `i < j < n` with `i < rows` that have a key.
pub open spec fn finite_in_rows(keys: Seq<Option<u64>>, n: int, rows: int) -> nat
    decreases rows,
{
    if rows <= 0 {
        0
    } else {
        finite_in_rows(keys, n, rows - 1) + finite_in_row(keys, n, rows - 1, n)
    }
}

/// `e` is a pair `i < j` of the `n` points at a finite distance, carrying its key.
pub open spec fn is_finite_edge(keys: Seq<Option<u64>>, n: int, e: Edge) -> bool {
    &&& (e.1 as int) < (e.2 as int)
    &&& (e.2 as int) < n
    &&& pair_key(keys, n, e.1 as int, e.2 as int) == Some(e.0)
}

/// `s` lists exactly the finite edges, in filtration order.
pub open spec fn is_filtration_order(keys: Seq<Option<u64>>, n: int, s: Seq<Edge>) -> bool {
    &&& strictly_sorted(s)
    &&& forall|e: Edge| #[trigger] s.contains(e) <==> is_finite_edge(keys, n, e)
}

/// The finite edges in the order in which they enter the filtration.
pub open spec fn filtration_order(keys: Seq<Option<u64>>, n: int) -> Seq<Edge> {
    choose|s: Seq<Edge>| is_filtration_order(keys, n, s)
}

/// The labelling `p` gives both endpoints of every edge of `s` the same label.
pub open spec fn respects(p: spec_fn(int) -> int, s: Seq<Edge>) -> bool {
    forall|k: int| 0 <= k < s.len() ==> p((#[trigger] s[k]).1 as int) == p(s[k].2 as int)
}

/// `x` and `y` lie in one connected component of the graph whose edges are `s`.
pub open spec fn connected(s: Seq<Edge>, x: int, y: int) -> bool {
    forall|p: spec_fn(int) -> int| #[trigger] respects(p, s) ==> p(x) == p(y)
}

/// The edges of `s` that join two components of the graph formed by the edges
/// before them: the spanning forest that Kruskal's algorithm builds.
pub open spec fn spanning_forest(s: Seq<Edge>) -> Seq<(usize, usize)>
    decreases s.len(),
{
    if s.len() == 0 {
        Seq::empty()
    } else {
        let e = s.last();
        spanning_forest(s.drop_last()) + if connected(s.drop_last(), e.1 as int, e.2 as int) {
            Seq::empty()
        } else {
            seq![(e.1, e.2)]
        }
    }
}

/// First Betti number (cycle rank) of a graph with `edges` edges on `n`
/// vertices forming `beta0` components: edges minus vertices plus components.
pub open spec fn cycle_rank(edges: int, n: int, beta0: int) -> int {
    edges - n + beta0
}

/// `x` is the smallest point of its connected component in the graph `s`.
pub open spec fn is_component_leader(s: Seq<Edge>, x: int) -> bool {
    forall|y: int| 0 <= y < x ==> !#[trigger] connected(s, y, x)
}

/// Number of connected components of the graph `s` that meet the points
/// `0..k`, each counted at its smallest point.
pub open spec fn component_count(s: Seq<Edge>, k: int) -> nat
    decreases k,
{
    if k <= 0 {
        0
    } else {
        component_count(s, k - 1) + (if is_component_leader(s, k - 1) { 1nat } else { 0nat })
    }
}

/// `v[x]` occurs in `v` for the first time at `x`.
spec fn first_occurrence(v: Seq<int>, x: int) -> bool {
    forall|y: int| 0 <= y < x ==> #[trigger] v[y] != v[x]
}

spec fn count_first(v: Seq<int>, k: int) -> nat
    decreases k,
{
    if k <= 0 {
        0
    } else {
        count_first(v, k - 1) + (if first_occurrence(v, k - 1) { 1nat } else { 0nat })
    }
}

/// The values `v[i]`, `i < k`.
spec fn values_below(v: Seq<int>, k: int) -> Set<int> {
    Set::new(|w: int| exists|i: int| 0 <= i < k && #[trigger] v[i] == w)
}

/// The fixed points `i < k` of `v`.
spec fn fixed_below(v: Seq<int>, k: int) -> Set<int> {
    Set::new(|i: int| 0 <= i < k && v[i] == i)
}

proof fn lemma_count_first_values(v: Seq<int>, k: int)
    requires
        0 <= k <= v.len(),
    ensures
        values_below(v, k).finite(),
        count_first(v, k) == values_below(v, k).len(),
    decreases k,
{
    if k == 0 {
        assert(values_below(v, 0) =~= Set::<int>::empty());
    } else {
        lemma_count_first_values(v, k - 1);
        let prev = values_below(v, k - 1);
        assert(values_below(v, k) =~= prev.insert(v[k - 1]));
        if first_occurrence(v, k - 1) {
            assert(!prev.contains(v[k - 1]));
        } else {
            let y = choose|y: int| 0 <= y < k - 1 && #[trigger] v[y] == v[k - 1];
            assert(prev.contains(v[k - 1]));
        }
    }
}

proof fn lemma_count_fixed_set(v: Seq<int>, k: int)
    requires
        0 <= k <= v.len(),
    ensures
        fixed_below(v, k).finite(),
        count_fixed(v, k) == fixed_below(v, k).len(),
    decreases k,
{
    if k == 0 {
        assert(fixed_below(v, 0) =~= Set::<int>::empty());
    } else {
        lemma_count_fixed_set(v, k - 1);
        let prev = fixed_below(v, k - 1);
        if v[k - 1] == k - 1 {
            assert(fixed_below(v, k) =~= prev.insert(k - 1));
            assert(!prev.contains(k - 1));
        } else {
            assert(fixed_below(v, k) =~= prev);
        }
    }
}

/// When `v` maps every index to a fixed point, it has as many fixed points as
/// distinct values.
proof fn lemma_fixed_eq_first(v: Seq<int>, n: int)
    requires
        0 <= n == v.len(),
        forall|x: int| 0 <= x < n ==> 0 <= #[trigger] v[x] < n && v[v[x]] == v[x],
    ensures
        count_fixed(v, n) == count_first(v, n),
{
    lemma_count_first_values(v, n);
    lemma_count_fixed_set(v, n);
    assert(fixed_below(v, n) =~= values_below(v, n)) by {
        assert forall|w: int| fixed_below(v, n).contains(w) implies values_below(v, n).contains(w) by {
            assert(v[w] == w);
        }
        assert forall|w: int| values_below(v, n).contains(w) implies fixed_below(v, n).contains(w) by {
            let i = choose|i: int| 0 <= i < n && #[trigger] v[i] == w;
            assert(v[v[i]] == v[i]);
        }
    }
}

proof fn lemma_component_count_first(s: Seq<Edge>, v: Seq<int>, k: int)
    requires
        0 <= k <= v.len(),
        forall|x: int, y: int|
            0 <= x < v.len() && 0 <= y < v.len() ==> (v[x] == v[y] <==> #[trigger] connected(s, x, y)),
    ensures
        component_count(s, k) == count_first(v, k),
    decreases k,
{
    if k > 0 {
        lemma_component_count_first(s, v, k - 1);
        let x = k - 1;
        assert(is_component_leader(s, x) == first_occurrence(v, x)) by {
            if is_component_leader(s, x) {
                assert forall|y: int| 0 <= y < x implies #[trigger] v[y] != v[x] by {
                    assert(!connected(s, y, x));
                }
            }
            if first_occurrence(v, x) {
                assert forall|y: int| 0 <= y < x implies !#[trigger] connected(s, y, x) by {
                    assert(v[y] != v[x]);
                }
            }
        }
    }
}

/// Number of fixed points `v[i] == i` among the first `k` entries.
spec fn count_fixed(v: Seq<int>, k: int) -> nat
    decreases k,
{
    if k <= 0 {
        0
    } else {
        count_fixed(v, k - 1) + (if v[k - 1] == k - 1 { 1nat } else { 0nat })
    }
}

proof fn lemma_count_fixed_identity(v: Seq<int>, k: int)
    requires
        0 <= k <= v.len(),
        forall|i: int| 0 <= i < k ==> v[i] == i,
    ensures
        count_fixed(v, k) == k,
    decreases k,
{
    if k > 0 {
        lemma_count_fixed_identity(v, k - 1);
    }
}

proof fn lemma_count_fixed_remove(v: Seq<int>, v2: Seq<int>, l: int, k: int)
    requires
        0 <= k <= v.len(),
        v2.len() == v.len(),
        forall|i: int| 0 <= i < k ==> (v2[i] == i) == (v[i] == i && i != l),
        v[l] == l,
    ensures
        count_fixed(v2, k) + (if 0 <= l < k { 1int } else { 0int }) == count_fixed(v, k),
    decreases k,
{
    if k > 0 {
        lemma_count_fixed_remove(v, v2, l, k - 1);
    }
}

proof fn lemma_respects_prefix(p: spec_fn(int) -> int, t: Seq<Edge>, e: Edge)
    requires
        respects(p, t.push(e)),
    ensures
        respects(p, t),
        p(e.1 as int) == p(e.2 as int),
{
    assert forall|k: int| 0 <= k < t.len() implies p((#[trigger] t[k]).1 as int) == p(
        t[k].2 as int,
    ) by {
        assert(t.push(e)[k] == t[k]);
    }
    assert(t.push(e)[t.len() as int] == e);
}

proof fn lemma_edge_connected(t: Seq<Edge>, k: int)
    requires
        0 <= k < t.len(),
    ensures
        connected(t, t[k].1 as int, t[k].2 as int),
{
    assert forall|p: spec_fn(int) -> int| #[trigger] respects(p, t) implies p(t[k].1 as int) == p(
        t[k].2 as int,
    ) by {
        assert(t[k] == t[k]);
    }
}

proof fn lemma_kruskal_start(n: int)
    ensures
        forall|x: int, y: int|
            0 <= x < n && 0 <= y < n ==> (x == y <==> #[trigger] connected(
                Seq::<Edge>::empty(),
                x,
                y,
            )),
{
    assert forall|x: int, y: int| 0 <= x < n && 0 <= y < n && #[trigger] connected(
        Seq::<Edge>::empty(),
        x,
        y,
    ) implies x == y by {
        let id = |z: int| z;
        assert(respects(id, Seq::<Edge>::empty()));
    }
}

/// One step of Kruskal's algorithm: the classes after handling edge `e` are
/// the components of the graph with `e` added.
proof fn lemma_kruskal_step(
    n: int,
    t: Seq<Edge>,
    e: Edge,
    v: Seq<int>,
    v2: Seq<int>,
    merged: bool,
)
    requires
        v.len() == n,
        v2.len() == n,
        0 <= e.1 < n,
        0 <= e.2 < n,
        forall|k: int| 0 <= k < t.len() ==> (#[trigger] t[k]).1 < n && t[k].2 < n,
        forall|x: int| 0 <= x < n ==> 0 <= #[trigger] v[x] < n && v[v[x]] == v[x],
        forall|x: int, y: int|
            0 <= x < n && 0 <= y < n ==> (v[x] == v[y] <==> #[trigger] connected(t, x, y)),
        merged == (v[e.1 as int] != v[e.2 as int]),
        v2[e.1 as int] == v[e.1 as int] || v2[e.1 as int] == v[e.2 as int],
        forall|y: int|
            0 <= y < n ==> #[trigger] v2[y] == (if v[y] == v[e.1 as int] || v[y] == v[e.2 as int] {
                v2[e.1 as int]
            } else {
                v[y]
            }),
    ensures
        forall|x: int, y: int|
            0 <= x < n && 0 <= y < n ==> (v2[x] == v2[y] <==> #[trigger] connected(t.push(e), x, y)),
        connected(t, e.1 as int, e.2 as int) == !merged,
        merged ==> count_fixed(v2, n) + 1 == count_fixed(v, n),
        !merged ==> v2 == v,
{
    let t2 = t.push(e);
    let a = e.1 as int;
    let b = e.2 as int;
    assert(connected(t, a, b) == !merged) by {
        if !connected(t, a, b) {
            assert(v[a] != v[b]);
        }
    }
    assert forall|x: int, y: int| 0 <= x < n && 0 <= y < n implies (v2[x] == v2[y] <==> #[trigger] connected(
        t2,
        x,
        y,
    )) by {
        if v2[x] == v2[y] {
            assert forall|p: spec_fn(int) -> int| #[trigger] respects(p, t2) implies p(x) == p(y) by {
                lemma_respects_prefix(p, t, e);
                if v[x] == v[y] {
                    assert(connected(t, x, y));
                } else {
                    if v[x] == v[a] {
                        assert(connected(t, x, a));
                    } else {
                        assert(connected(t, x, b));
                    }
                    if v[y] == v[a] {
                        assert(connected(t, y, a));
                    } else {
                        assert(connected(t, y, b));
                    }
                }
            }
        }
        if connected(t2, x, y) {
            let p = |z: int| v2[z];
            assert(respects(p, t2)) by {
                assert forall|k: int| 0 <= k < t2.len() implies p((#[trigger] t2[k]).1 as int) == p(
                    t2[k].2 as int,
                ) by {
                    if k < t.len() {
                        assert(t2[k] == t[k]);
                        lemma_edge_connected(t, k);
                        assert(connected(t, t[k].1 as int, t[k].2 as int));
                    } else {
                        assert(t2[k] == e);
                    }
                }
            }
        }
    }
    if merged {
        let winner = v2[a];
        let loser = if winner == v[a] {
            v[b]
        } else {
            v[a]
        };
        assert forall|i: int| 0 <= i < n implies (v2[i] == i) == (v[i] == i && i != loser) by {
            if v[i] == v[a] || v[i] == v[b] {
                if i == winner {
                    assert(v[i] == i);
                }
            }
        }
        lemma_count_fixed_remove(v, v2, loser, n);
    } else {
        assert(v2 =~= v);
    }
}

proof fn lemma_row_full(keys: Seq<Option<u64>>, n: int, i: int, end: int)
    requires
        0 <= i < n,
        i + 1 <= end <= n,
        forall|a: int, b: int| 0 <= a < b < n ==> #[trigger] pair_key(keys, n, a, b) is Some,
    ensures
        finite_in_row(keys, n, i, end) == end - i - 1,
    decreases end - i,
{
    if end > i + 1 {
        lemma_row_full(keys, n, i, end - 1);
        assert(pair_key(keys, n, i, end - 1) is Some);
    }
}

proof fn lemma_rows_full(keys: Seq<Option<u64>>, n: int, rows: int)
    requires
        0 <= rows <= n,
        forall|a: int, b: int| 0 <= a < b < n ==> #[trigger] pair_key(keys, n, a, b) is Some,
    ensures
        2 * finite_in_rows(keys, n, rows) == rows * (2 * n - rows - 1),
    decreases rows,
{
    if rows > 0 {
        lemma_rows_full(keys, n, rows - 1);
        lemma_row_full(keys, n, rows - 1, n);
        let f = finite_in_rows(keys, n, rows - 1) as int;
        assert(finite_in_rows(keys, n, rows) == f + (n - rows));
        assert(2 * f + 2 * (n - rows) == rows * (2 * n - rows - 1)) by (nonlinear_arith)
            requires
                2 * f == (rows - 1) * (2 * n - (rows - 1) - 1),
        ;
    } else {
        assert(rows * (2 * n - rows - 1) == 0) by (nonlinear_arith)
            requires
                rows == 0,
        ;
    }
}

/// The filtration order lists the finite edges by ascending key, equal keys
/// by ascending pair `(i, j)`; each entry is a pair `i < j < n` whose key in
/// the matrix is the entry's key.
pub proof fn law_filtration_order_by_key(keys: Seq<Option<u64>>, n: int, s: Seq<Edge>)
    requires
        is_filtration_order(keys, n, s),
    ensures
        forall|a: int, b: int|
            0 <= a < b < s.len() ==> (#[trigger] s[a]).0 < (#[trigger] s[b]).0 || (s[a].0 == s[b].0
                && (s[a].1 < s[b].1 || (s[a].1 == s[b].1 && s[a].2 < s[b].2))),
        forall|a: int|
            0 <= a < s.len() ==> {
                let e = #[trigger] s[a];
                &&& e.1 < e.2 < n
                &&& e.1 * n + e.2 < keys.len()
                &&& keys[e.1 * n + e.2] == Some(e.0)
            },
{
    assert forall|a: int| 0 <= a < s.len() implies {
        let e = #[trigger] s[a];
        &&& e.1 < e.2 < n
        &&& e.1 * n + e.2 < keys.len()
        &&& keys[e.1 * n + e.2] == Some(e.0)
    } by {
        assert(s.contains(s[a]));
        assert(is_finite_edge(keys, n, s[a]));
    }
}

/// When every pair of the `n` points is at a finite distance, the filtration
/// has `n(n-1)/2` edges and a single component, so its cycle rank is
/// `(n-1)(n-2)/2`.
pub proof fn law_complete_graph(keys: Seq<Option<u64>>, n: int)
    requires
        2 <= n <= usize::MAX,
        forall|i: int, j: int| 0 <= i < j < n ==> #[trigger] pair_key(keys, n, i, j) is Some,
        is_filtration_order(keys, n, filtration_order(keys, n)),
    ensures
        finite_in_rows(keys, n, n) == n * (n - 1) / 2,
        component_count(filtration_order(keys, n), n) == 1,
        finite_in_rows(keys, n, n) - n + component_count(filtration_order(keys, n), n) == (n - 1) * (
        n - 2) / 2,
{
    let s = filtration_order(keys, n);
    lemma_rows_full(keys, n, n);
    let f = finite_in_rows(keys, n, n) as int;
    assert(f == n * (n - 1) / 2 && f - n + 1 == (n - 1) * (n - 2) / 2) by (nonlinear_arith)
        requires
            2 * f == n * (2 * n - n - 1),
            n >= 2,
    ;
    lemma_single_component(keys, n, n);
}

proof fn lemma_single_component(keys: Seq<Option<u64>>, n: int, k: int)
    requires
        2 <= n <= usize::MAX,
        1 <= k <= n,
        forall|i: int, j: int| 0 <= i < j < n ==> #[trigger] pair_key(keys, n, i, j) is Some,
        is_filtration_order(keys, n, filtration_order(keys, n)),
    ensures
        component_count(filtration_order(keys, n), k) == 1,
    decreases k,
{
    let s = filtration_order(keys, n);
    if k == 1 {
        assert(component_count(s, 0) == 0);
        assert(is_component_leader(s, 0));
    } else {
        lemma_single_component(keys, n, k - 1);
        let x = k - 1;
        assert(pair_key(keys, n, 0, x) is Some);
        let e: Edge = (pair_key(keys, n, 0, x)->0, 0usize, x as usize);
        assert(e.2 as int == x);
        assert(e.1 as int == 0);
        assert(is_finite_edge(keys, n, e));
        assert(s.contains(e));
        let q = choose|q: int| 0 <= q < s.len() && s[q] == e;
        assert(connected(s, 0, x)) by {
            assert forall|p: spec_fn(int) -> int| #[trigger] respects(p, s) implies p(0) == p(x) by {
                assert(s[q] == e);
                assert(p(s[q].1 as int) == p(s[q].2 as int));
            }
        }
        assert(!is_component_leader(s, x));
    }
}

/// Component merges of a Vietoris-Rips filtration and the Betti numbers of
/// the edge complex.
pub struct ComponentMerges {
    /// The edges `(i, j)` at which two components merge, in filtration order.
    pub merges: Vec<(usize, usize)>,
    /// `[beta0, beta1]`: number of components, and the cycle rank of the
    /// graph of finite edges on the points.
    pub betti_numbers: Vec<usize>,
}

impl ComponentMerges {
    /// Run the filtration over the `n` points whose pairwise keys are the
    /// row-major `n`-by-`n` matrix `keys` (only entries `i < j` are read).
    pub fn from_edge_keys(keys: &Vec<Option<u64>>, n: usize) -> (r: ComponentMerges)
        requires
            n * n <= usize::MAX,
        ensures
            n <= 1 ==> r.merges@ == Seq::<(usize, usize)>::empty() && r.betti_numbers@ == seq![
                1usize,
            ],
            n >= 2 ==> is_filtration_order(keys@, n as int, filtration_order(keys@, n as int)),
            n >= 2 ==> r.merges@ == spanning_forest(filtration_order(keys@, n as int)),
            n >= 2 ==> r.merges@.len() <= n,
            n >= 2 ==> r.merges@.len() <= filtration_order(keys@, n as int).len(),
            n >= 2 ==> r.betti_numbers@[0] == component_count(
                filtration_order(keys@, n as int),
                n as int,
            ),
            n >= 2 ==> r.betti_numbers@ == seq![
                (n - r.merges@.len()) as usize,
                cycle_rank(
                    filtration_order(keys@, n as int).len() as int,
                    n as int,
                    n - r.merges@.len(),
                ) as usize,
            ],
            n >= 2 ==> r.betti_numbers@.len() == 2 && r.betti_numbers@[1] + r.merges@.len()
                == filtration_order(keys@, n as int).len() && r.betti_numbers@[0] + r.merges@.len()
                == n,
            n >= 2 ==> filtration_order(keys@, n as int).len() == finite_in_rows(
                keys@,
                n as int,
                n as int,
            ),
            n >= 2 ==> forall|a: int, b: int|
                #![trigger filtration_order(keys@, n as int)[a], filtration_order(keys@, n as int)[b]]
                0 <= a < b < filtration_order(keys@, n as int).len() ==> filtration_order(
                    keys@,
                    n as int,
                )[a].0 < filtration_order(keys@, n as int)[b].0 || (filtration_order(
                    keys@,
                    n as int,
                )[a].0 == filtration_order(keys@, n as int)[b].0 && (filtration_order(
                    keys@,
                    n as int,
                )[a].1 < filtration_order(keys@, n as int)[b].1 || (filtration_order(
                    keys@,
                    n as int,
                )[a].1 == filtration_order(keys@, n as int)[b].1 && filtration_order(
                    keys@,
                    n as int,
                )[a].2 < filtration_order(keys@, n as int)[b].2))),
            n >= 2 ==> forall|a: int|
                0 <= a < r.merges@.len() ==> {
                    let m = #[trigger] r.merges@[a];
                    &&& m.0 < m.1 < n
                    &&& m.0 * n + m.1 < keys@.len()
                    &&& keys@[m.0 * n + m.1] is Some
                },
            n >= 2 ==> forall|a: int, b: int|
                0 <= a < b < r.merges@.len() ==> keys@[(#[trigger] r.merges@[a]).0 * n + r.merges@[a].1]->0
                    <= keys@[(#[trigger] r.merges@[b]).0 * n + r.merges@[b].1]->0,
            n >= 2 ==> forall|a: int|
                0 <= a < filtration_order(keys@, n as int).len() ==> {
                    let e = #[trigger] filtration_order(keys@, n as int)[a];
                    &&& e.1 < e.2 < n
                    &&& e.1 * n + e.2 < keys@.len()
                    &&& keys@[e.1 * n + e.2] == Some(e.0)
                },
    {
        if n <= 1 {
            let merges: Vec<(usize, usize)> = Vec::new();
            let betti_numbers: Vec<usize> = vec![1];
            return ComponentMerges { merges, betti_numbers };
        }
        // Every pair at a finite distance, in pair order.

        let mut edges: Vec<Edge> = Vec::new();
        let mut i: usize = 0;
        while i < n
            invariant
                n * n <= usize::MAX,
                i <= n,
                forall|a: int, b: int|
                    0 <= a < b < edges@.len() ==> (#[trigger] edges@[a]).1 < (#[trigger] edges@[b]).1
                        || (edges@[a].1 == edges@[b].1 && edges@[a].2 < edges@[b].2),
                forall|a: int| 0 <= a < edges@.len() ==> (#[trigger] edges@[a]).1 < i,
                forall|e: Edge| #[trigger]
                    edges@.contains(e) <==> (is_finite_edge(keys@, n as int, e) && e.1 < i),
                edges@.len() == finite_in_rows(keys@, n as int, i as int),
            decreases n - i,
        {
            let mut j: usize = i + 1;
            proof {
                assert(finite_in_row(keys@, n as int, i as int, (i + 1) as int) == 0);
            }
            while j < n
                invariant
                    n * n <= usize::MAX,
                    i < n,
                    i + 1 <= j <= n,
                    forall|a: int, b: int|
                        0 <= a < b < edges@.len() ==> (#[trigger] edges@[a]).1 < (
                        #[trigger] edges@[b]).1 || (edges@[a].1 == edges@[b].1 && edges@[a].2
                            < edges@[b].2),
                    forall|a: int|
                        0 <= a < edges@.len() ==> (#[trigger] edges@[a]).1 < i || (edges@[a].1 == i
                            && edges@[a].2 < j),
                    forall|e: Edge| #[trigger]
                        edges@.contains(e) <==> (is_finite_edge(keys@, n as int, e) && (e.1 < i || (
                        e.1 == i && e.2 < j))),
                    edges@.len() == finite_in_rows(keys@, n as int, i as int) + finite_in_row(
                        keys@,
                        n as int,
                        i as int,
                        j as int,
                    ),
                decreases n - j,
            {
                proof {
                    assert(i * n + j < n * n) by (nonlinear_arith)
                        requires
                            i < n,
                            j < n,
                    ;
                }
                let idx = i * n + j;
                let ghost before = edges@;
                if idx < keys.len() {
                    match keys[idx] {
                        Some(k) => {
                            edges.push((k, i, j));
                            proof {
                                lemma_push_contains(before, (k, i, j));
                            }
                        },
                        None => {},
                    }
                }
                proof {
                    assert(finite_in_row(keys@, n as int, i as int, j + 1) == finite_in_row(
                        keys@,
                        n as int,
                        i as int,
                        j as int,
                    ) + (if pair_key(keys@, n as int, i as int, j as int) is Some {
                        1nat
                    } else {
                        0nat
                    }));
                    assert forall|e: Edge| #[trigger]
                        edges@.contains(e) <==> (is_finite_edge(keys@, n as int, e) && (e.1 < i || (
                        e.1 == i && e.2 < j + 1))) by {
                        if e.1 == i && e.2 == j {
                            if is_finite_edge(keys@, n as int, e) {
                                assert(pair_key(keys@, n as int, i as int, j as int) == Some(e.0));
                            }
                        }
                    }
                }
                j = j + 1;
            }
            proof {
                assert(finite_in_rows(keys@, n as int, i + 1) == finite_in_rows(keys@, n as int, i as int)
                    + finite_in_row(keys@, n as int, i as int, n as int));
            }
            i = i + 1;
        }
        proof {
            assert(edges@.no_duplicates()) by {
                assert forall|a: int, b: int| 0 <= a < edges@.len() && 0 <= b < edges@.len() && a != b implies edges@[a] != edges@[b] by {
                    if a < b {
                        assert(edges@[a].1 < edges@[b].1 || (edges@[a].1 == edges@[b].1 && edges@[a].2 < edges@[b].2));
                    } else {
                        assert(edges@[b].1 < edges@[a].1 || (edges@[b].1 == edges@[a].1 && edges@[b].2 < edges@[a].2));
                    }
                }
            }
        }
        let order = sort_triples(&edges, 0, edges.len());
        let ghost s = order@;
        proof {
            assert(edges@.subrange(0, edges@.len() as int) =~= edges@);
            assert(is_filtration_order(keys@, n as int, s));
            lemma_sorted_unique(s, filtration_order(keys@, n as int));
            assert forall|k: int| 0 <= k < s.len() implies (#[trigger] s[k]).1 < n && s[k].2 < n by {
                assert(s.contains(s[k]));
            }
            assert(s.no_duplicates()) by {
                assert forall|a: int, b: int| 0 <= a < s.len() && 0 <= b < s.len() && a != b implies s[a]
                    != s[b] by {
                    if a < b {
                        assert(crate::order::lex_lt(s[a], s[b]));
                    } else {
                        assert(crate::order::lex_lt(s[b], s[a]));
                    }
                }
            }
            assert(s.to_set() =~= edges@.to_set()) by {
                assert forall|x: Edge| s.to_set().contains(x) <==> edges@.to_set().contains(x) by {
                    assert(s.contains(x) <==> edges@.contains(x));
                }
            }
            s.unique_seq_to_set();
            edges@.unique_seq_to_set();
            assert(s.len() == finite_in_rows(keys@, n as int, n as int));
        }
        // Kruskal: merge components in filtration order.

        let mut uf = UnionFind::new(n);
        let mut merges: Vec<(usize, usize)> = Vec::new();
        let mut k: usize = 0;
        let ghost mut at: Seq<int> = Seq::empty();
        proof {
            lemma_kruskal_start(n as int);
            assert(s.take(0) =~= Seq::<Edge>::empty());
            lemma_count_fixed_identity(uf@, n as int);
            uf.lemma_representatives();
        }
        while k < order.len()
            invariant
                order@ == s,
                k <= s.len(),
                forall|q: int| 0 <= q < s.len() ==> (#[trigger] s[q]).1 < n && s[q].2 < n,
                uf.wf(),
                uf@.len() == n,
                forall|x: int, y: int|
                    0 <= x < n && 0 <= y < n ==> (uf@[x] == uf@[y] <==> #[trigger] connected(
                        s.take(k as int),
                        x,
                        y,
                    )),
                merges@ == spanning_forest(s.take(k as int)),
                merges@.len() <= k,
                merges@.len() + count_fixed(uf@, n as int) == n,
                at.len() == merges@.len(),
                forall|m: int|
                    0 <= m < at.len() ==> 0 <= #[trigger] at[m] < k && merges@[m] == (
                        s[at[m]].1,
                        s[at[m]].2,
                    ),
                forall|m1: int, m2: int| 0 <= m1 < m2 < at.len() ==> #[trigger] at[m1] < #[trigger] at[m2],
            decreases s.len() - k,
        {
            let e = order[k];
            let a = e.1;
            let b = e.2;
            let ghost v = uf@;
            proof {
                uf.lemma_representatives();
            }
            let ra = uf.find(a);
            let rb = uf.find(b);
            let merged = ra != rb;
            if merged {
                merges.push((a, b));
                uf.union(a, b);
                proof {
                    at = at.push(k as int);
                }
            }
            proof {
                let t = s.take(k as int);
                assert(s.take(k + 1) =~= t.push(e));
                assert forall|q: int| 0 <= q < t.len() implies (#[trigger] t[q]).1 < n && t[q].2 < n by {
                    assert(t[q] == s[q]);
                }
                lemma_kruskal_step(n as int, t, e, v, uf@, merged);
                assert(t.push(e).drop_last() =~= t);
            }
            k = k + 1;
        }
        proof {
            assert(s.take(s.len() as int) =~= s);
            uf.lemma_representatives();
            lemma_fixed_eq_first(uf@, n as int);
            lemma_component_count_first(s, uf@, n as int);
        }
        let beta0 = n - merges.len();
        // Finite edges outside the spanning forest close one cycle each.
        let beta1 = order.len() - merges.len();
        let betti_numbers: Vec<usize> = vec![beta0, beta1];
        proof {
            assert forall|a: int| 0 <= a < s.len() implies {
                let e = #[trigger] s[a];
                &&& e.1 < e.2 < n
                &&& e.1 * n + e.2 < keys@.len()
                &&& keys@[e.1 * n + e.2] == Some(e.0)
            } by {
                assert(s.contains(s[a]));
                assert(is_finite_edge(keys@, n as int, s[a]));
            }
            assert forall|a: int| 0 <= a < merges@.len() implies {
                let m = #[trigger] merges@[a];
                &&& m.0 < m.1 < n
                &&& m.0 * n + m.1 < keys@.len()
                &&& keys@[m.0 * n + m.1] is Some
            } by {
                let e = s[at[a]];
                assert(s.contains(e));
                assert(is_finite_edge(keys@, n as int, e));
            }
            assert forall|a: int, b: int| 0 <= a < b < merges@.len() implies keys@[(
            #[trigger] merges@[a]).0 * n + merges@[a].1]->0 <= keys@[(#[trigger] merges@[b]).0 * n
                + merges@[b].1]->0 by {
                let ea = s[at[a]];
                let eb = s[at[b]];
                assert(at[a] < at[b]);
                assert(crate::order::lex_lt(ea, eb));
                assert(s.contains(ea));
                assert(s.contains(eb));
                assert(is_finite_edge(keys@, n as int, ea));
                assert(is_finite_edge(keys@, n as int, eb));
            }
        }
        ComponentMerges { merges, betti_numbers }
    }
}

} // verus!
