//! Disjoint-set forest with union by rank and path compression.

use vstd::prelude::*;

use vstd::arithmetic::power2::lemma_pow2_strictly_increases;
use vstd::arithmetic::power2::lemma_pow2_unfold;
use vstd::arithmetic::power2::pow2;

verus! {

/// Number of self-parented entries (roots) among the first `k` entries.
pub open spec fn count_roots(parent: Seq<usize>, k: int) -> nat
    decreases k,
{
    if k <= 0 {
        0
    } else {
        count_roots(parent, k - 1) + (if parent[k - 1] as int == k - 1 { 1nat } else { 0nat })
    }
}

/// The parent links form a forest whose ranks strictly grow towards the roots.
pub open spec fn links_ok(parent: Seq<usize>, rank: Seq<usize>) -> bool {
    &&& rank.len() == parent.len()
    &&& forall|i: int| 0 <= i < parent.len() ==> (#[trigger] parent[i]) < parent.len()
    &&& forall|i: int|
        0 <= i < parent.len() && #[trigger] parent[i] != i ==> rank[i] < rank[parent[i] as int]
    &&& forall|i: int| 0 <= i < parent.len() ==> (#[trigger] rank[i]) <= parent.len()
}

/// The root reached from `x` by following parent links.
pub open spec fn root_of(parent: Seq<usize>, rank: Seq<usize>, x: int) -> int
    decreases rank.len() - rank[x],
{
    if 0 <= x < parent.len() && parent.len() == rank.len() && parent[x] != x && parent[x]
        < parent.len() && rank[x] < rank[parent[x] as int] && rank[parent[x] as int] <= rank.len() {
        root_of(parent, rank, parent[x] as int)
    } else {
        x
    }
}

proof fn lemma_root_props(parent: Seq<usize>, rank: Seq<usize>, x: int)
    requires
        links_ok(parent, rank),
        0 <= x < parent.len(),
    ensures
        0 <= root_of(parent, rank, x) < parent.len(),
        parent[root_of(parent, rank, x)] == root_of(parent, rank, x),
        root_of(parent, rank, root_of(parent, rank, x)) == root_of(parent, rank, x),
        rank[x] <= rank[root_of(parent, rank, x)],
        parent[x] != x ==> rank[x] < rank[root_of(parent, rank, x)],
        parent[x] != x ==> root_of(parent, rank, x) == root_of(parent, rank, parent[x] as int),
        parent[x] == x ==> root_of(parent, rank, x) == x,
    decreases rank.len() - rank[x],
{
    if parent[x] != x {
        lemma_root_props(parent, rank, parent[x] as int);
    }
}

proof fn lemma_count_pos(parent: Seq<usize>, k: int, r: int)
    requires
        0 <= r < k,
        parent[r] as int == r,
    ensures
        count_roots(parent, k) >= 1,
    decreases k,
{
    if r < k - 1 {
        lemma_count_pos(parent, k - 1, r);
    }
}

proof fn lemma_count_all(parent: Seq<usize>, k: int)
    requires
        0 <= k <= parent.len(),
        forall|i: int| 0 <= i < k ==> parent[i] as int == i,
    ensures
        count_roots(parent, k) == k,
    decreases k,
{
    if k > 0 {
        lemma_count_all(parent, k - 1);
    }
}

proof fn lemma_count_update_root(parent: Seq<usize>, k: int, x: int, v: usize)
    requires
        0 <= x < parent.len(),
        parent[x] as int == x,
        v as int != x,
        k <= parent.len(),
    ensures
        count_roots(parent.update(x, v), k) + (if 0 <= x < k { 1int } else { 0int }) == count_roots(
            parent,
            k,
        ),
    decreases k,
{
    if k > 0 {
        lemma_count_update_root(parent, k - 1, x, v);
    }
}

proof fn lemma_count_update_nonroot(parent: Seq<usize>, k: int, x: int, v: usize)
    requires
        0 <= x < parent.len(),
        parent[x] as int != x,
        v as int != x,
        k <= parent.len(),
    ensures
        count_roots(parent.update(x, v), k) == count_roots(parent, k),
    decreases k,
{
    if k > 0 {
        lemma_count_update_nonroot(parent, k - 1, x, v);
    }
}

proof fn lemma_compress(parent: Seq<usize>, rank: Seq<usize>, x: int, y: int)
    requires
        links_ok(parent, rank),
        0 <= x < parent.len(),
        parent[x] != x,
        0 <= y < parent.len(),
    ensures
        links_ok(parent.update(x, root_of(parent, rank, x) as usize), rank),
        root_of(parent.update(x, root_of(parent, rank, x) as usize), rank, y) == root_of(
            parent,
            rank,
            y,
        ),
    decreases rank.len() - rank[y],
{
    let r = root_of(parent, rank, x);
    let p2 = parent.update(x, r as usize);
    lemma_root_props(parent, rank, x);
    assert(links_ok(p2, rank)) by {
        assert forall|i: int| 0 <= i < p2.len() && #[trigger] p2[i] != i implies rank[i] < rank[p2[i] as int] by {
            if i != x {
                assert(p2[i] == parent[i]);
            }
        }
        assert forall|i: int| 0 <= i < p2.len() implies (#[trigger] p2[i]) < p2.len() by {
            if i != x {
                assert(p2[i] == parent[i]);
            }
        }
    }
    if y == x {
        assert(p2[r] == r);
        assert(root_of(p2, rank, r) == r);
        assert(root_of(p2, rank, x) == root_of(p2, rank, r));
    } else if parent[y] == y {
        assert(p2[y] == y);
    } else {
        assert(p2[y] == parent[y]);
        lemma_compress(parent, rank, x, parent[y] as int);
        lemma_root_props(parent, rank, y);
    }
}

proof fn lemma_rank_bump(parent: Seq<usize>, rank: Seq<usize>, ra: int, y: int)
    requires
        links_ok(parent, rank),
        0 <= ra < parent.len(),
        parent[ra] == ra,
        rank[ra] + 1 <= parent.len(),
        parent.len() <= usize::MAX,
        0 <= y < parent.len(),
    ensures
        links_ok(parent, rank.update(ra, (rank[ra] + 1) as usize)),
        root_of(parent, rank.update(ra, (rank[ra] + 1) as usize), y) == root_of(parent, rank, y),
    decreases rank.len() - rank[y],
{
    let r2 = rank.update(ra, (rank[ra] + 1) as usize);
    assert(links_ok(parent, r2)) by {
        assert forall|i: int| 0 <= i < parent.len() && #[trigger] parent[i] != i implies r2[i]
            < r2[parent[i] as int] by {
            assert(i != ra);
        }
        assert forall|i: int| 0 <= i < parent.len() implies (#[trigger] r2[i]) <= parent.len() by {
        }
    }
    if parent[y] != y {
        lemma_rank_bump(parent, rank, ra, parent[y] as int);
    }
}

proof fn lemma_link(parent: Seq<usize>, rank: Seq<usize>, ra: int, rb: int, y: int)
    requires
        links_ok(parent, rank),
        0 <= ra < parent.len(),
        0 <= rb < parent.len(),
        ra != rb,
        parent[ra] == ra,
        parent[rb] == rb,
        rank[rb] < rank[ra],
        0 <= y < parent.len(),
    ensures
        links_ok(parent.update(rb, ra as usize), rank),
        root_of(parent.update(rb, ra as usize), rank, y) == (if root_of(parent, rank, y) == rb {
            ra
        } else {
            root_of(parent, rank, y)
        }),
    decreases rank.len() - rank[y],
{
    let p2 = parent.update(rb, ra as usize);
    assert(links_ok(p2, rank)) by {
        assert forall|i: int| 0 <= i < p2.len() && #[trigger] p2[i] != i implies rank[i] < rank[p2[i] as int] by {
            if i != rb {
                assert(p2[i] == parent[i]);
            }
        }
        assert forall|i: int| 0 <= i < p2.len() implies (#[trigger] p2[i]) < p2.len() by {
            if i != rb {
                assert(p2[i] == parent[i]);
            }
        }
    }
    lemma_root_props(parent, rank, y);
    if y == rb {
        assert(p2[ra] == ra);
        assert(root_of(p2, rank, ra) == ra);
    } else if parent[y] == y {
        assert(p2[y] == y);
    } else {
        assert(p2[y] == parent[y]);
        lemma_link(parent, rank, ra, rb, parent[y] as int);
    }
}

/// `y` lies on the chain of parent links from `x` to its root (both ends included).
pub open spec fn on_path(parent: Seq<usize>, rank: Seq<usize>, x: int, y: int) -> bool
    decreases rank.len() - rank[x],
{
    y == x || (0 <= x < parent.len() && parent.len() == rank.len() && parent[x] != x && parent[x]
        < parent.len() && rank[x] < rank[parent[x] as int] && rank[parent[x] as int] <= rank.len()
        && on_path(parent, rank, parent[x] as int, y))
}

/// Number of parent links from `x` to its root.
pub open spec fn chain_len(parent: Seq<usize>, rank: Seq<usize>, x: int) -> nat
    decreases rank.len() - rank[x],
{
    if 0 <= x < parent.len() && parent.len() == rank.len() && parent[x] != x && parent[x]
        < parent.len() && rank[x] < rank[parent[x] as int] && rank[parent[x] as int] <= rank.len() {
        1 + chain_len(parent, rank, parent[x] as int)
    } else {
        0
    }
}

/// The parent links after every node on the path from `x` is re-pointed at
/// the root of `x`.
pub open spec fn compressed(parent: Seq<usize>, rank: Seq<usize>, x: int) -> Seq<usize> {
    Seq::new(
        parent.len(),
        |y: int|
            if on_path(parent, rank, x, y) {
                root_of(parent, rank, x) as usize
            } else {
                parent[y]
            },
    )
}

/// The root of every index.
pub open spec fn roots_view(parent: Seq<usize>, rank: Seq<usize>) -> Seq<int> {
    Seq::new(parent.len(), |i: int| root_of(parent, rank, i))
}

/// Number of indices `y < k` with `v[y] == r`.
pub open spec fn class_size(v: Seq<int>, r: int, k: int) -> nat
    decreases k,
{
    if k <= 0 {
        0
    } else {
        class_size(v, r, k - 1) + (if v[k - 1] == r { 1nat } else { 0nat })
    }
}

/// Union by rank: a root of rank `r` heads a class of at least `2^r` indices.
pub open spec fn sizes_ok(parent: Seq<usize>, rank: Seq<usize>) -> bool {
    forall|r: int|
        0 <= r < parent.len() && parent[r] == r ==> pow2(rank[r] as nat) <= #[trigger] class_size(
            roots_view(parent, rank),
            r,
            parent.len() as int,
        )
}

proof fn lemma_on_path(parent: Seq<usize>, rank: Seq<usize>, x: int, y: int)
    requires
        links_ok(parent, rank),
        0 <= x < parent.len(),
        on_path(parent, rank, x, y),
    ensures
        0 <= y < parent.len(),
        rank[x] <= rank[y],
        root_of(parent, rank, y) == root_of(parent, rank, x),
        parent[y] == y ==> y == root_of(parent, rank, x),
    decreases rank.len() - rank[x],
{
    lemma_root_props(parent, rank, x);
    if y != x {
        lemma_on_path(parent, rank, parent[x] as int, y);
    }
}

proof fn lemma_compressed_root(parent: Seq<usize>, rank: Seq<usize>, x: int)
    requires
        links_ok(parent, rank),
        0 <= x < parent.len(),
        parent[x] == x,
    ensures
        compressed(parent, rank, x) == parent,
{
    assert(compressed(parent, rank, x) =~= parent) by {
        assert forall|y: int| 0 <= y < parent.len() implies compressed(parent, rank, x)[y]
            == parent[y] by {
            if on_path(parent, rank, x, y) {
                assert(y == x);
            }
        }
    }
}

proof fn lemma_compressed_step(parent: Seq<usize>, rank: Seq<usize>, x: int)
    requires
        links_ok(parent, rank),
        0 <= x < parent.len(),
        parent[x] != x,
    ensures
        compressed(parent, rank, parent[x] as int)[x] == parent[x],
        compressed(parent, rank, parent[x] as int).update(x, root_of(parent, rank, x) as usize)
            == compressed(parent, rank, x),
{
    let p = parent[x] as int;
    lemma_root_props(parent, rank, x);
    if on_path(parent, rank, p, x) {
        lemma_on_path(parent, rank, p, x);
    }
    let c = compressed(parent, rank, p).update(x, root_of(parent, rank, x) as usize);
    assert(c =~= compressed(parent, rank, x)) by {
        assert forall|y: int| 0 <= y < parent.len() implies c[y] == compressed(parent, rank, x)[y] by {
            assert(on_path(parent, rank, x, y) == (y == x || on_path(parent, rank, p, y)));
        }
    }
}

proof fn lemma_chain_len(parent: Seq<usize>, rank: Seq<usize>, x: int)
    requires
        links_ok(parent, rank),
        0 <= x < parent.len(),
    ensures
        chain_len(parent, rank, x) + rank[x] <= rank[root_of(parent, rank, x)],
    decreases rank.len() - rank[x],
{
    lemma_root_props(parent, rank, x);
    if parent[x] != x {
        lemma_chain_len(parent, rank, parent[x] as int);
    }
}

proof fn lemma_class_size_le(v: Seq<int>, r: int, k: int)
    ensures
        class_size(v, r, k) <= if k < 0 { 0 } else { k },
    decreases k,
{
    if k > 0 {
        lemma_class_size_le(v, r, k - 1);
    }
}

proof fn lemma_class_size_pos(v: Seq<int>, r: int, k: int)
    requires
        0 <= r < k,
        v[r] == r,
    ensures
        class_size(v, r, k) >= 1,
    decreases k,
{
    if r < k - 1 {
        lemma_class_size_pos(v, r, k - 1);
    }
}

/// After linking the class of `rb` under `ra`, the class of `ra` holds both.
proof fn lemma_class_size_link(v: Seq<int>, v2: Seq<int>, ra: int, rb: int, r: int, k: int)
    requires
        0 <= k <= v.len(),
        v2.len() == v.len(),
        ra != rb,
        forall|y: int| 0 <= y < k ==> #[trigger] v2[y] == (if v[y] == rb { ra } else { v[y] }),
    ensures
        r == ra ==> class_size(v2, r, k) == class_size(v, ra, k) + class_size(v, rb, k),
        r != ra && r != rb ==> class_size(v2, r, k) == class_size(v, r, k),
    decreases k,
{
    if k > 0 {
        lemma_class_size_link(v, v2, ra, rb, r, k - 1);
        assert(v2[k - 1] == (if v[k - 1] == rb { ra } else { v[k - 1] }));
    }
}

/// Linking root `rb` under root `ra`, with `ra`'s rank possibly raised to
/// `new_rank`, keeps every class at least as large as its rank demands.
proof fn lemma_sizes_link(
    parent: Seq<usize>,
    rank: Seq<usize>,
    rank2: Seq<usize>,
    ra: int,
    rb: int,
)
    requires
        0 <= ra < parent.len(),
        0 <= rb < parent.len(),
        ra != rb,
        rank.len() == parent.len(),
        rank[ra] < usize::MAX,
        links_ok(parent, rank),
        links_ok(parent.update(rb, ra as usize), rank2),
        sizes_ok(parent, rank),
        parent[ra] == ra,
        parent[rb] == rb,
        rank2 == rank || (rank2 == rank.update(ra, (rank[ra] + 1) as usize) && rank[ra] == rank[rb]),
        forall|y: int|
            0 <= y < parent.len() ==> #[trigger] root_of(parent.update(rb, ra as usize), rank2, y)
                == (if root_of(parent, rank, y) == rb {
                ra
            } else {
                root_of(parent, rank, y)
            }),
    ensures
        sizes_ok(parent.update(rb, ra as usize), rank2),
{
    let p2 = parent.update(rb, ra as usize);
    let n = parent.len() as int;
    let v = roots_view(parent, rank);
    let v2 = roots_view(p2, rank2);
    assert forall|y: int| 0 <= y < n implies #[trigger] v2[y] == (if v[y] == rb {
        ra
    } else {
        v[y]
    }) by {
        assert(root_of(p2, rank2, y) == (if root_of(parent, rank, y) == rb {
            ra
        } else {
            root_of(parent, rank, y)
        }));
    }
    assert forall|r: int| 0 <= r < p2.len() && p2[r] == r implies pow2(rank2[r] as nat)
        <= #[trigger] class_size(roots_view(p2, rank2), r, n) by {
        assert(r != rb);
        assert(parent[r] == r);
        lemma_class_size_link(v, v2, ra, rb, r, n);
        assert(pow2(rank[r] as nat) <= class_size(v, r, n));
        assert(roots_view(p2, rank2) == v2);
        if r == ra {
            assert(pow2(rank[rb] as nat) <= class_size(v, rb, n));
            assert(class_size(v2, ra, n) == class_size(v, ra, n) + class_size(v, rb, n));
            if rank2 != rank {
                assert(rank2[ra] == rank[ra] + 1);
                lemma_pow2_unfold((rank[ra] + 1) as nat);
                assert(pow2(rank2[ra] as nat) == 2 * pow2(rank[ra] as nat));
            } else {
                assert(rank2[ra] == rank[ra]);
            }
        } else {
            assert(rank2[r] == rank[r]);
            assert(class_size(v2, r, n) == class_size(v, r, n));
        }
    }
}

/// The parent links left by `find(a)` followed by `find(b)`.
pub open spec fn links_after_finds(parent: Seq<usize>, rank: Seq<usize>, a: int, b: int) -> Seq<
    usize,
> {
    compressed(compressed(parent, rank, a), rank, b)
}

/// A disjoint-set forest over the indices `0..n`.
pub struct UnionFind {
    parent: Vec<usize>,
    rank: Vec<usize>,
}

impl View for UnionFind {
    /// The root (class representative) of each index.
    type V = Seq<int>;

    closed spec fn view(&self) -> Seq<int> {
        roots_view(self.parent@, self.rank@)
    }
}

impl UnionFind {
    /// The parent link of each index.
    pub closed spec fn parents(&self) -> Seq<usize> {
        self.parent@
    }

    /// The rank of each index.
    pub closed spec fn ranks(&self) -> Seq<usize> {
        self.rank@
    }

    /// The forest is well formed: ranks grow towards the roots, a root of
    /// rank `r` heads at least `2^r` indices, and no rank can overflow.
    pub closed spec fn wf(&self) -> bool {
        &&& links_ok(self.parent@, self.rank@)
        &&& forall|i: int|
            0 <= i < self.parent@.len() ==> #[trigger] self.rank@[i] + count_roots(
                self.parent@,
                self.parent@.len() as int,
            ) <= self.parent@.len()
        &&& sizes_ok(self.parent@, self.rank@)
    }

    /// The classes are the roots reached through the parent links, and a
    /// well-formed forest links by increasing rank with classes of at least
    /// `2^rank` indices.
    pub proof fn lemma_view(&self)
        ensures
            self@ == roots_view(self.parents(), self.ranks()),
            self.parents().len() == self@.len(),
            self.wf() ==> links_ok(self.parents(), self.ranks()) && sizes_ok(
                self.parents(),
                self.ranks(),
            ),
    {
    }

    /// Each index's representative is an index whose own representative is itself.
    pub proof fn lemma_representatives(&self)
        requires
            self.wf(),
        ensures
            forall|x: int|
                0 <= x < self@.len() ==> 0 <= #[trigger] self@[x] < self@.len() && self@[self@[x]]
                    == self@[x],
    {
        assert forall|x: int| 0 <= x < self@.len() implies 0 <= #[trigger] self@[x] < self@.len()
            && self@[self@[x]] == self@[x] by {
            lemma_root_props(self.parent@, self.rank@, x);
        }
    }

    /// Union by rank keeps every rank, and every chain of parent links, within
    /// `log2(n)`.
    pub proof fn lemma_rank_bound(&self)
        requires
            self.wf(),
        ensures
            forall|i: int|
                0 <= i < self@.len() ==> pow2(#[trigger] self.ranks()[i] as nat) <= self@.len() && pow2(
                    chain_len(self.parents(), self.ranks(), i),
                ) <= self@.len(),
    {
        let p = self.parent@;
        let rk = self.rank@;
        let n = p.len() as int;
        assert forall|i: int| 0 <= i < n implies pow2(#[trigger] rk[i] as nat) <= n && pow2(
            chain_len(p, rk, i),
        ) <= n by {
            let r = root_of(p, rk, i);
            lemma_root_props(p, rk, i);
            lemma_chain_len(p, rk, i);
            assert(pow2(rk[r] as nat) <= class_size(roots_view(p, rk), r, n));
            lemma_class_size_le(roots_view(p, rk), r, n);
            if rk[i] < rk[r] {
                lemma_pow2_strictly_increases(rk[i] as nat, rk[r] as nat);
            }
            if chain_len(p, rk, i) < rk[r] {
                lemma_pow2_strictly_increases(chain_len(p, rk, i), rk[r] as nat);
            }
        }
    }

    /// Every index starts in a class of its own, with rank 0.
    pub fn new(n: usize) -> (uf: Self)
        ensures
            uf.wf(),
            uf@ == Seq::new(n as nat, |i: int| i),
            uf.parents() == Seq::new(n as nat, |i: int| i as usize),
            uf.ranks() == Seq::new(n as nat, |i: int| 0usize),
    {
        let mut parent: Vec<usize> = Vec::new();
        let mut rank: Vec<usize> = Vec::new();
        let mut i: usize = 0;
        while i < n
            invariant
                i <= n,
                parent@.len() == i,
                rank@.len() == i,
                forall|j: int| 0 <= j < i ==> parent@[j] as int == j,
                forall|j: int| 0 <= j < i ==> rank@[j] == 0,
            decreases n - i,
        {
            parent.push(i);
            rank.push(0);
            i = i + 1;
        }
        proof {
            lemma_count_all(parent@, n as int);
            vstd::arithmetic::power2::lemma2_to64();
        }
        let uf = UnionFind { parent, rank };
        assert(uf@ =~= Seq::new(n as nat, |i: int| i));
        assert(uf.parents() =~= Seq::new(n as nat, |i: int| i as usize));
        assert(uf.ranks() =~= Seq::new(n as nat, |i: int| 0usize));
        assert forall|r: int| 0 <= r < n && uf.parent@[r] == r implies pow2(uf.rank@[r] as nat)
            <= #[trigger] class_size(roots_view(uf.parent@, uf.rank@), r, n as int) by {
            lemma_class_size_pos(uf@, r, n as int);
        }
        uf
    }

    /// Root of `x`, compressing the path walked on the way.
    fn find_rec(&mut self, x: usize) -> (r: usize)
        requires
            old(self).wf(),
            x < old(self).parent@.len(),
        ensures
            final(self).wf(),
            final(self).rank@ == old(self).rank@,
            final(self).parent@ == compressed(old(self).parent@, old(self).rank@, x as int),
            final(self)@ == old(self)@,
            r as int == root_of(old(self).parent@, old(self).rank@, x as int),
        decreases old(self).parent@.len() - old(self).rank@[x as int],
    {
        let ghost p0 = self.parent@;
        let ghost rk = self.rank@;
        let p = self.parent[x];
        if p != x {
            proof {
                lemma_root_props(p0, rk, x as int);
                lemma_compressed_step(p0, rk, x as int);
            }
            let r = self.find_rec(p);
            let ghost p1 = self.parent@;
            proof {
                assert(p1[x as int] == p);
                lemma_root_props(p1, rk, x as int);
                lemma_root_props(p1, rk, p as int);
                assert(self@[p as int] == root_of(p1, rk, p as int));
                assert(r as int == root_of(p1, rk, x as int));
                lemma_count_update_nonroot(p1, p1.len() as int, x as int, r);
                assert forall|y: int| 0 <= y < p1.len() implies root_of(p1.update(x as int, r), rk, y)
                    == root_of(p1, rk, y) by {
                    lemma_compress(p1, rk, x as int, y);
                }
                lemma_compress(p1, rk, x as int, 0);
            }
            self.parent.set(x, r);
            proof {
                let p2 = p1.update(x as int, r);
                assert(self.parent@ == p2);
                assert(roots_view(p2, rk) =~= roots_view(p1, rk));
                assert(self@ =~= old(self)@);
                assert forall|q: int| 0 <= q < p2.len() && p2[q] == q implies pow2(rk[q] as nat)
                    <= #[trigger] class_size(roots_view(p2, rk), q, p2.len() as int) by {
                    assert(q != x);
                    assert(p1[q] == q);
                    assert(pow2(rk[q] as nat) <= class_size(roots_view(p1, rk), q, p1.len() as int));
                }
            }
            r
        } else {
            proof {
                lemma_root_props(p0, rk, x as int);
                lemma_compressed_root(p0, rk, x as int);
            }
            x
        }
    }

    /// The representative of the class of `x`. The classes and ranks are
    /// unchanged; every index on the path from `x` is re-pointed at the root.
    pub fn find(&mut self, x: usize) -> (r: usize)
        requires
            old(self).wf(),
            x < old(self)@.len(),
        ensures
            final(self).wf(),
            final(self)@ == old(self)@,
            r as int == old(self)@[x as int],
            final(self).ranks() == old(self).ranks(),
            final(self).parents() == compressed(old(self).parents(), old(self).ranks(), x as int),
    {
        self.find_rec(x)
    }

    /// Merge the classes of `a` and `b` by rank; returns whether they were
    /// distinct. The root of lower rank is linked under the other; on equal
    /// ranks `b`'s root goes under `a`'s, whose rank grows by one.
    pub fn union(&mut self, a: usize, b: usize) -> (merged: bool)
        requires
            old(self).wf(),
            a < old(self)@.len(),
            b < old(self)@.len(),
        ensures
            final(self).wf(),
            final(self)@.len() == old(self)@.len(),
            merged == (old(self)@[a as int] != old(self)@[b as int]),
            final(self)@[a as int] == (if merged && old(self).ranks()[old(self)@[a as int]]
                < old(self).ranks()[old(self)@[b as int]] {
                old(self)@[b as int]
            } else {
                old(self)@[a as int]
            }),
            forall|y: int|
                0 <= y < old(self)@.len() ==> #[trigger] final(self)@[y] == (if old(self)@[y] == old(
                    self,
                )@[a as int] || old(self)@[y] == old(self)@[b as int] {
                    final(self)@[a as int]
                } else {
                    old(self)@[y]
                }),
            !merged ==> final(self).ranks() == old(self).ranks() && final(self).parents()
                == links_after_finds(old(self).parents(), old(self).ranks(), a as int, b as int),
            merged && old(self).ranks()[old(self)@[a as int]] < old(self).ranks()[old(
                self,
            )@[b as int]] ==> final(self).ranks() == old(self).ranks() && final(self).parents()
                == links_after_finds(old(self).parents(), old(self).ranks(), a as int, b as int).update(
                old(self)@[a as int],
                old(self)@[b as int] as usize,
            ),
            merged && old(self).ranks()[old(self)@[a as int]] > old(self).ranks()[old(
                self,
            )@[b as int]] ==> final(self).ranks() == old(self).ranks() && final(self).parents()
                == links_after_finds(old(self).parents(), old(self).ranks(), a as int, b as int).update(
                old(self)@[b as int],
                old(self)@[a as int] as usize,
            ),
            merged && old(self).ranks()[old(self)@[a as int]] == old(self).ranks()[old(
                self,
            )@[b as int]] ==> final(self).ranks() == old(self).ranks().update(
                old(self)@[a as int],
                (old(self).ranks()[old(self)@[a as int]] + 1) as usize,
            ) && final(self).parents() == links_after_finds(
                old(self).parents(),
                old(self).ranks(),
                a as int,
                b as int,
            ).update(old(self)@[b as int], old(self)@[a as int] as usize),
    {
        let ra = self.find(a);
        let rb = self.find(b);
        if ra == rb {
            return false;
        }
        let ghost p = self.parent@;
        let ghost rk = self.rank@;
        let ghost n = p.len() as int;
        proof {
            assert(p.len() == self.parent.len());
            assert(ra as int == self@[a as int]);
            assert(rb as int == self@[b as int]);
            assert(ra as int == root_of(p, rk, a as int));
            assert(rb as int == root_of(p, rk, b as int));
            lemma_root_props(p, rk, a as int);
            lemma_root_props(p, rk, b as int);
            lemma_count_update_root(p, n, rb as int, ra);
            lemma_count_pos(p.update(rb as int, ra), n, ra as int);
            assert(sizes_ok(p, rk));
        }
        if self.rank[ra] < self.rank[rb] {
            proof {
                lemma_count_update_root(p, n, ra as int, rb);
            }
            self.parent.set(ra, rb);
            proof {
                assert forall|y: int| 0 <= y < n implies #[trigger] root_of(
                    p.update(ra as int, rb),
                    rk,
                    y,
                ) == (if root_of(p, rk, y) == ra {
                    rb as int
                } else {
                    root_of(p, rk, y)
                }) by {
                    lemma_link(p, rk, rb as int, ra as int, y);
                }
                lemma_link(p, rk, rb as int, ra as int, 0);
                lemma_sizes_link(p, rk, rk, rb as int, ra as int);
                assert forall|y: int| 0 <= y < n implies #[trigger] self@[y] == (if old(self)@[y]
                    == ra || old(self)@[y] == rb {
                    rb as int
                } else {
                    old(self)@[y]
                }) by {
                    assert(self@[y] == root_of(p.update(ra as int, rb), rk, y));
                }
            }
        } else if self.rank[ra] > self.rank[rb] {
            self.parent.set(rb, ra);
            proof {
                assert forall|y: int| 0 <= y < n implies #[trigger] root_of(
                    p.update(rb as int, ra),
                    rk,
                    y,
                ) == (if root_of(p, rk, y) == rb {
                    ra as int
                } else {
                    root_of(p, rk, y)
                }) by {
                    lemma_link(p, rk, ra as int, rb as int, y);
                }
                lemma_link(p, rk, ra as int, rb as int, 0);
                lemma_sizes_link(p, rk, rk, ra as int, rb as int);
                assert forall|y: int| 0 <= y < n implies #[trigger] self@[y] == (if old(self)@[y]
                    == ra || old(self)@[y] == rb {
                    ra as int
                } else {
                    old(self)@[y]
                }) by {
                    assert(self@[y] == root_of(p.update(rb as int, ra), rk, y));
                }
            }
        } else {
            self.parent.set(rb, ra);
            proof {
                assert(rk[ra as int] + count_roots(p, n) <= n);
                assert(count_roots(p, n) >= 2);
            }
            let r = self.rank[ra] + 1;
            self.rank.set(ra, r);
            proof {
                let rk2 = rk.update(ra as int, r);
                assert(self.rank@ == rk2);
                lemma_rank_bump(p, rk, ra as int, 0);
                assert forall|y: int| 0 <= y < n implies #[trigger] root_of(
                    p.update(rb as int, ra),
                    rk2,
                    y,
                ) == (if root_of(p, rk, y) == rb {
                    ra as int
                } else {
                    root_of(p, rk, y)
                }) by {
                    lemma_rank_bump(p, rk, ra as int, y);
                    lemma_rank_bump(p, rk, ra as int, rb as int);
                    lemma_link(p, rk2, ra as int, rb as int, y);
                }
                lemma_link(p, rk2, ra as int, rb as int, 0);
                lemma_sizes_link(p, rk, rk2, ra as int, rb as int);
                assert forall|y: int| 0 <= y < n implies #[trigger] self@[y] == (if old(self)@[y]
                    == ra || old(self)@[y] == rb {
                    ra as int
                } else {
                    old(self)@[y]
                }) by {
                    assert(self@[y] == root_of(p.update(rb as int, ra), rk2, y));
                }
            }
        }
        true
    }
}

} // verus!
