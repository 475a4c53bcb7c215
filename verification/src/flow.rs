//! Module bookkeeping of an entropy-flow network: the sorted set of module
//! names that the flows mention, and the index of a module in that list.

use vstd::prelude::*;
use vstd::utf8::encode_utf8;
use vstd::utf8::encode_utf8_decode_utf8;

verus! {

/// Lexicographic order on byte strings (the order of `str` and `String`).
pub open spec fn bytes_lt(a: Seq<u8>, b: Seq<u8>) -> bool
    decreases a.len(),
{
    if a.len() == 0 {
        b.len() > 0
    } else if b.len() == 0 {
        false
    } else if a[0] != b[0] {
        a[0] < b[0]
    } else {
        bytes_lt(a.drop_first(), b.drop_first())
    }
}

/// The UTF-8 encoding of a name, by whose bytes names are ordered.
pub open spec fn name_bytes(s: String) -> Seq<u8> {
    encode_utf8(s@)
}

/// Some entry of `v` is the name `m`.
pub open spec fn names_contain(v: Seq<String>, m: Seq<char>) -> bool {
    exists|i: int| 0 <= i < v.len() && (#[trigger] v[i])@ == m
}

/// Names strictly increase along `v`.
pub open spec fn names_sorted(v: Seq<String>) -> bool {
    forall|a: int, b: int|
        0 <= a < b < v.len() ==> bytes_lt(name_bytes(#[trigger] v[a]), name_bytes(#[trigger] v[b]))
}

/// No name precedes itself.
pub proof fn lemma_bytes_lt_irreflexive(a: Seq<u8>)
    ensures
        !bytes_lt(a, a),
    decreases a.len(),
{
    if a.len() > 0 {
        lemma_bytes_lt_irreflexive(a.drop_first());
    }
}

/// The name order is transitive.
pub proof fn lemma_bytes_lt_transitive(a: Seq<u8>, b: Seq<u8>, c: Seq<u8>)
    requires
        bytes_lt(a, b),
        bytes_lt(b, c),
    ensures
        bytes_lt(a, c),
    decreases a.len(),
{
    if a.len() > 0 && b.len() > 0 && c.len() > 0 && a[0] == b[0] && b[0] == c[0] {
        lemma_bytes_lt_transitive(a.drop_first(), b.drop_first(), c.drop_first());
    }
}

/// Any two distinct names are ordered one way or the other.
pub proof fn lemma_bytes_lt_total(a: Seq<u8>, b: Seq<u8>)
    ensures
        a == b || bytes_lt(a, b) || bytes_lt(b, a),
    decreases a.len(),
{
    if a.len() > 0 && b.len() > 0 && a[0] == b[0] {
        lemma_bytes_lt_total(a.drop_first(), b.drop_first());
        if a.drop_first() == b.drop_first() {
            assert forall|i: int| 0 <= i < a.len() implies a[i] == b[i] by {
                if i > 0 {
                    assert(a[i] == a.drop_first()[i - 1]);
                    assert(b[i] == b.drop_first()[i - 1]);
                }
            }
            assert(a =~= b);
        }
    } else if a.len() == 0 && b.len() == 0 {
        assert(a =~= b);
    }
}

/// A byte string precedes another exactly when they differ, the other is not
/// a proper prefix of it, and at the first position where they differ its
/// byte is the smaller one.
pub proof fn law_bytes_lt_first_difference(a: Seq<u8>, b: Seq<u8>)
    ensures
        bytes_lt(a, b) <==> (a != b && !(b.len() < a.len() && a.take(b.len() as int) == b) && forall|
            k: int,
        |
            #![trigger a.take(k), b.take(k)]
            0 <= k < a.len() && k < b.len() && a.take(k) == b.take(k) && a[k] != b[k] ==> a[k]
                < b[k]),
    decreases a.len(),
{
    if a.len() == 0 {
        if b.len() == 0 {
            assert(a =~= b);
        }
    } else if b.len() == 0 {
        assert(a.take(0) =~= b);
    } else if a[0] != b[0] {
        assert(a.take(0) =~= b.take(0));
        if b.len() < a.len() && a.take(b.len() as int) == b {
            assert(a.take(b.len() as int)[0] == b[0]);
        }
        assert forall|k: int|
            #![trigger a.take(k), b.take(k)]
            0 <= k < a.len() && k < b.len() && a.take(k) == b.take(k) && a[k] != b[k] && a[0] < b[0]
                implies a[k] < b[k] by {
            if k > 0 {
                assert(a.take(k)[0] == b.take(k)[0]);
            }
        }
    } else {
        let a1 = a.drop_first();
        let b1 = b.drop_first();
        law_bytes_lt_first_difference(a1, b1);
        assert((a != b) == (a1 != b1)) by {
            if a1 == b1 {
                assert forall|i: int| 0 <= i < a.len() implies a[i] == b[i] by {
                    if i > 0 {
                        assert(a[i] == a1[i - 1]);
                        assert(b[i] == b1[i - 1]);
                    }
                }
                assert(a =~= b);
            }
        }
        assert((b.len() < a.len() && a.take(b.len() as int) == b) == (b1.len() < a1.len() && a1.take(
            b1.len() as int,
        ) == b1)) by {
            if b.len() < a.len() && a.take(b.len() as int) == b {
                assert(a1.take(b1.len() as int) =~= b1) by {
                    assert forall|i: int| 0 <= i < b1.len() implies a1.take(b1.len() as int)[i]
                        == b1[i] by {
                        assert(a.take(b.len() as int)[i + 1] == b[i + 1]);
                    }
                }
            }
            if b1.len() < a1.len() && a1.take(b1.len() as int) == b1 {
                assert(a.take(b.len() as int) =~= b) by {
                    assert forall|i: int| 0 <= i < b.len() implies a.take(b.len() as int)[i]
                        == b[i] by {
                        if i > 0 {
                            assert(a1.take(b1.len() as int)[i - 1] == b1[i - 1]);
                        }
                    }
                }
            }
        }
        let p = forall|k: int|
            #![trigger a.take(k), b.take(k)]
            0 <= k < a.len() && k < b.len() && a.take(k) == b.take(k) && a[k] != b[k] ==> a[k]
                < b[k];
        let p1 = forall|k: int|
            #![trigger a1.take(k), b1.take(k)]
            0 <= k < a1.len() && k < b1.len() && a1.take(k) == b1.take(k) && a1[k] != b1[k] ==> a1[k]
                < b1[k];
        assert(p == p1) by {
            if p {
                assert forall|k: int|
                    #![trigger a1.take(k), b1.take(k)]
                    0 <= k < a1.len() && k < b1.len() && a1.take(k) == b1.take(k) && a1[k] != b1[k]
                        implies a1[k] < b1[k] by {
                    let ta = a.take(k + 1);
                    let tb = b.take(k + 1);
                    assert(ta =~= tb) by {
                        assert forall|i: int| 0 <= i < k + 1 implies ta[i] == tb[i] by {
                            if i > 0 {
                                assert(a1.take(k)[i - 1] == b1.take(k)[i - 1]);
                            }
                        }
                    }
                    assert(a[k + 1] == a1[k]);
                    assert(b[k + 1] == b1[k]);
                }
            }
            if p1 {
                assert forall|k: int|
                    #![trigger a.take(k), b.take(k)]
                    0 <= k < a.len() && k < b.len() && a.take(k) == b.take(k) && a[k] != b[k]
                        implies a[k] < b[k] by {
                    if k > 0 {
                        let k1 = k - 1;
                        assert(a1.take(k1) =~= b1.take(k1)) by {
                            assert forall|i: int| 0 <= i < k1 implies a1.take(k1)[i] == b1.take(
                                k1,
                            )[i] by {
                                assert(a.take(k)[i + 1] == b.take(k)[i + 1]);
                            }
                        }
                        assert(a[k] == a1[k1]);
                        assert(b[k] == b1[k1]);
                    }
                }
            }
        }
    }
}

/// Names with the same bytes are the same name.
proof fn lemma_name_bytes_injective(x: String, y: String)
    requires
        name_bytes(x) == name_bytes(y),
    ensures
        x@ == y@,
{
    encode_utf8_decode_utf8(x@);
    encode_utf8_decode_utf8(y@);
}

fn bytes_less(a: &[u8], b: &[u8]) -> (r: bool)
    ensures
        r == bytes_lt(a@, b@),
{
    let mut i: usize = 0;
    proof {
        assert(a@.skip(0) =~= a@);
        assert(b@.skip(0) =~= b@);
    }
    while i < a.len() && i < b.len()
        invariant
            i <= a@.len(),
            i <= b@.len(),
            bytes_lt(a@, b@) == bytes_lt(a@.skip(i as int), b@.skip(i as int)),
        decreases a@.len() - i,
    {
        if a[i] != b[i] {
            return a[i] < b[i];
        }
        proof {
            assert(a@.skip(i + 1) =~= a@.skip(i as int).drop_first());
            assert(b@.skip(i + 1) =~= b@.skip(i as int).drop_first());
        }
        i = i + 1;
    }
    i < b.len()
}

fn name_less(a: &String, b: &String) -> (r: bool)
    ensures
        r == bytes_lt(name_bytes(*a), name_bytes(*b)),
{
    bytes_less(a.as_str().as_bytes(), b.as_str().as_bytes())
}

/// Names sorted by `bytes_lt` are sorted as `String` orders them: for each
/// earlier name, its UTF-8 bytes differ from a later name's, the later name's
/// bytes are not a proper prefix of its bytes, and at the first differing
/// position its byte is the smaller one.
pub proof fn lemma_sorted_names_bytes(modules: Seq<String>)
    requires
        names_sorted(modules),
    ensures
        forall|a: int, b: int|
            0 <= a < b < modules.len() ==> #[trigger] encode_utf8(modules[a]@) != #[trigger] encode_utf8(
                modules[b]@,
            ) && !(encode_utf8(modules[b]@).len() < encode_utf8(modules[a]@).len() && encode_utf8(
                modules[a]@,
            ).take(encode_utf8(modules[b]@).len() as int) == encode_utf8(modules[b]@)) && forall|k: int|
                #![trigger encode_utf8(modules[a]@).take(k), encode_utf8(modules[b]@).take(k)]
                0 <= k < encode_utf8(modules[a]@).len() && k < encode_utf8(modules[b]@).len() && encode_utf8(
                    modules[a]@,
                ).take(k) == encode_utf8(modules[b]@).take(k) && encode_utf8(modules[a]@)[k] != encode_utf8(
                    modules[b]@,
                )[k] ==> encode_utf8(modules[a]@)[k] < encode_utf8(modules[b]@)[k],
{
    assert forall|a: int, b: int| 0 <= a < b < modules.len() implies #[trigger] encode_utf8(
        modules[a]@,
    ) != #[trigger] encode_utf8(modules[b]@) && !(encode_utf8(modules[b]@).len() < encode_utf8(
        modules[a]@,
    ).len() && encode_utf8(modules[a]@).take(encode_utf8(modules[b]@).len() as int) == encode_utf8(
        modules[b]@,
    )) && forall|k: int|
        #![trigger encode_utf8(modules[a]@).take(k), encode_utf8(modules[b]@).take(k)]
        0 <= k < encode_utf8(modules[a]@).len() && k < encode_utf8(modules[b]@).len() && encode_utf8(
            modules[a]@,
        ).take(k) == encode_utf8(modules[b]@).take(k) && encode_utf8(modules[a]@)[k] != encode_utf8(
            modules[b]@,
        )[k] ==> encode_utf8(modules[a]@)[k] < encode_utf8(modules[b]@)[k] by {
        assert(bytes_lt(name_bytes(modules[a]), name_bytes(modules[b])));
        law_bytes_lt_first_difference(encode_utf8(modules[a]@), encode_utf8(modules[b]@));
    }
}

/// The distinct names of `names`, sorted by their bytes.
pub fn sorted_modules(names: &Vec<String>) -> (modules: Vec<String>)
    ensures
        names_sorted(modules@),
        forall|m: Seq<char>| names_contain(modules@, m) <==> names_contain(names@, m),
        forall|a: int, b: int|
            0 <= a < b < modules@.len() ==> #[trigger] encode_utf8(modules@[a]@) != #[trigger] encode_utf8(
                modules@[b]@,
            ) && !(encode_utf8(modules@[b]@).len() < encode_utf8(modules@[a]@).len() && encode_utf8(
                modules@[a]@,
            ).take(encode_utf8(modules@[b]@).len() as int) == encode_utf8(modules@[b]@)) && forall|k: int|
                #![trigger encode_utf8(modules@[a]@).take(k), encode_utf8(modules@[b]@).take(k)]
                0 <= k < encode_utf8(modules@[a]@).len() && k < encode_utf8(modules@[b]@).len() && encode_utf8(
                    modules@[a]@,
                ).take(k) == encode_utf8(modules@[b]@).take(k) && encode_utf8(modules@[a]@)[k] != encode_utf8(
                    modules@[b]@,
                )[k] ==> encode_utf8(modules@[a]@)[k] < encode_utf8(modules@[b]@)[k],
        forall|a: int, b: int|
            0 <= a < b < modules@.len() ==> (#[trigger] modules@[a])@ != (#[trigger] modules@[b])@,
{
    let mut modules: Vec<String> = Vec::new();
    let mut t: usize = 0;
    while t < names.len()
        invariant
            t <= names@.len(),
            names_sorted(modules@),
            forall|m: Seq<char>|
                #![trigger names_contain(modules@, m)]
                #![trigger names_contain(names@.take(t as int), m)]
                names_contain(modules@, m) <==> names_contain(names@.take(t as int), m),
        decreases names@.len() - t,
    {
        let x = &names[t];
        let mut lo: usize = 0;
        let mut hi: usize = modules.len();
        let mut found = false;
        while lo < hi && !found
            invariant
                lo <= hi <= modules@.len(),
                names_sorted(modules@),
                forall|k: int| 0 <= k < lo ==> bytes_lt(name_bytes(#[trigger] modules@[k]), name_bytes(*x)),
                forall|k: int| hi <= k < modules@.len() ==> bytes_lt(name_bytes(*x), name_bytes(#[trigger] modules@[k])),
                found ==> names_contain(modules@, x@),
            decreases hi - lo + (if found { 0int } else { 1int }),
        {
            let mid = lo + (hi - lo) / 2;
            if name_less(&modules[mid], x) {
                proof {
                    assert forall|k: int| 0 <= k < mid + 1 implies bytes_lt(name_bytes(#[trigger] modules@[k]), name_bytes(*x)) by {
                        if k < mid {
                            lemma_bytes_lt_transitive(name_bytes(modules@[k]), name_bytes(modules@[mid as int]), name_bytes(*x));
                        }
                    }
                }
                lo = mid + 1;
            } else if name_less(x, &modules[mid]) {
                proof {
                    assert forall|k: int| mid <= k < modules@.len() implies bytes_lt(name_bytes(*x), name_bytes(#[trigger] modules@[k])) by {
                        if k > mid {
                            lemma_bytes_lt_transitive(name_bytes(*x), name_bytes(modules@[mid as int]), name_bytes(modules@[k]));
                        }
                    }
                }
                hi = mid;
            } else {
                proof {
                    lemma_bytes_lt_total(name_bytes(modules@[mid as int]), name_bytes(*x));
                    lemma_name_bytes_injective(modules@[mid as int], *x);
                    assert(names_contain(modules@, x@));
                }
                found = true;
            }
        }
        proof {
            assert(names@.take(t + 1) =~= names@.take(t as int).push(*x));
        }
        if !found {
            let ghost old_modules = modules@;
            assert(forall|m: Seq<char>|
                #![trigger names_contain(old_modules, m)]
                #![trigger names_contain(names@.take(t as int), m)]
                names_contain(old_modules, m) <==> names_contain(names@.take(t as int), m));
            modules.insert(lo, x.clone());
            proof {
                assert(modules@ == old_modules.insert(lo as int, *x));
                assert forall|a: int, b: int| 0 <= a < b < modules@.len() implies bytes_lt(name_bytes(#[trigger] modules@[a]), name_bytes(#[trigger] modules@[b])) by {
                    if b < lo {
                        assert(modules@[a] == old_modules[a] && modules@[b] == old_modules[b]);
                    } else if b == lo {
                        assert(modules@[a] == old_modules[a]);
                    } else if a > lo {
                        assert(modules@[a] == old_modules[a - 1] && modules@[b] == old_modules[b - 1]);
                    } else if a == lo {
                        assert(modules@[b] == old_modules[b - 1]);
                    } else {
                        assert(modules@[a] == old_modules[a]);
                        assert(modules@[b] == old_modules[b - 1]);
                        lemma_bytes_lt_transitive(name_bytes(old_modules[a]), name_bytes(*x), name_bytes(old_modules[b - 1]));
                    }
                }
                assert forall|m: Seq<char>| names_contain(modules@, m) <==> names_contain(names@.take(t + 1), m) by {
                    let tk = names@.take(t + 1);
                    if names_contain(modules@, m) {
                        let i = choose|i: int| 0 <= i < modules@.len() && (#[trigger] modules@[i])@ == m;
                        if i < lo {
                            assert(old_modules[i]@ == m);
                            assert(names_contain(old_modules, m));
                        } else if i == lo {
                            assert(tk[t as int]@ == m);
                        } else {
                            assert(old_modules[i - 1]@ == m);
                            assert(names_contain(old_modules, m));
                        }
                        if names_contain(names@.take(t as int), m) {
                            let j = choose|j: int| 0 <= j < t && (#[trigger] names@.take(t as int)[j])@ == m;
                            assert(tk[j]@ == m);
                        }
                    }
                    if names_contain(tk, m) {
                        let j = choose|j: int| 0 <= j < tk.len() && (#[trigger] tk[j])@ == m;
                        if j < t {
                            assert(names@.take(t as int)[j]@ == m);
                            assert(names_contain(names@.take(t as int), m));
                            let i = choose|i: int| 0 <= i < old_modules.len() && (#[trigger] old_modules[i])@ == m;
                            if i < lo {
                                assert(modules@[i]@ == m);
                            } else {
                                assert(modules@[i + 1]@ == m);
                            }
                        } else {
                            assert(modules@[lo as int]@ == m);
                        }
                    }
                }
            }
        } else {
            proof {
                assert forall|m: Seq<char>| names_contain(modules@, m) <==> names_contain(names@.take(t + 1), m) by {
                    let tk = names@.take(t + 1);
                    if names_contain(names@.take(t as int), m) {
                        let j = choose|j: int| 0 <= j < t && (#[trigger] names@.take(t as int)[j])@ == m;
                        assert(tk[j]@ == m);
                    }
                    if names_contain(tk, m) {
                        let j = choose|j: int| 0 <= j < tk.len() && (#[trigger] tk[j])@ == m;
                        if j < t {
                            assert(names@.take(t as int)[j]@ == m);
                        }
                    }
                    if names_contain(modules@, m) && m != x@ {
                        assert(names_contain(names@.take(t as int), m));
                        let j = choose|j: int| 0 <= j < t && (#[trigger] names@.take(t as int)[j])@ == m;
                        assert(tk[j]@ == m);
                    }
                    if m == x@ {
                        assert(tk[t as int]@ == m);
                    }
                }
            }
        }
        t = t + 1;
    }
    proof {
        assert(names@.take(names@.len() as int) =~= names@);
        lemma_sorted_names_bytes(modules@);
        assert forall|a: int, b: int| 0 <= a < b < modules@.len() implies (#[trigger] modules@[a])@
            != (#[trigger] modules@[b])@ by {
            assert(bytes_lt(name_bytes(modules@[a]), name_bytes(modules@[b])));
            lemma_bytes_lt_irreflexive(name_bytes(modules@[a]));
        }
    }
    modules
}

/// Index of the last entry of `modules` that is the name `name`.
pub fn module_index(modules: &Vec<String>, name: &String) -> (r: Option<usize>)
    ensures
        r matches Some(i) ==> i < modules@.len() && modules@[i as int]@ == name@ && forall|k: int|
            i < k < modules@.len() ==> (#[trigger] modules@[k])@ != name@,
        r is None ==> forall|k: int| 0 <= k < modules@.len() ==> (#[trigger] modules@[k])@ != name@,
{
    let mut i: usize = modules.len();
    while i > 0
        invariant
            i <= modules@.len(),
            forall|k: int| i <= k < modules@.len() ==> (#[trigger] modules@[k])@ != name@,
        decreases i,
    {
        i = i - 1;
        if modules[i] == *name {
            return Some(i);
        }
    }
    None
}

/// The two `(source, sink)` pairs name the same directed edge.
pub open spec fn same_edge(p: (String, String), q: (String, String)) -> bool {
    p.0@ == q.0@ && p.1@ == q.1@
}

/// Group `g` of `edges` is the edge of some entry `q < k` of `pairs`, and that
/// entry is assigned to it.
pub open spec fn group_witnessed(
    pairs: Seq<(String, String)>,
    group: Seq<usize>,
    edges: Seq<(String, String)>,
    g: int,
    k: int,
) -> bool {
    exists|q: int| 0 <= q < k && group[q] == g && same_edge(edges[g], pairs[q])
}

/// Entry `k` is in group 0, or the group numbered just before its own occurs
/// earlier: groups are numbered in order of first occurrence.
pub open spec fn numbered_in_order(group: Seq<usize>, k: int) -> bool {
    group[k] == 0 || exists|q: int| 0 <= q < k && group[q] == group[k] - 1
}

/// Group the directed edges `pairs`: the distinct edges, in order of first
/// occurrence, and for each entry of `pairs` the index of its edge.
pub fn group_edges(pairs: &Vec<(String, String)>) -> (r: (Vec<(String, String)>, Vec<usize>))
    ensures
        r.1@.len() == pairs@.len(),
        forall|k: int|
            0 <= k < pairs@.len() ==> (#[trigger] r.1@[k]) < r.0@.len() && same_edge(
                r.0@[r.1@[k] as int],
                pairs@[k],
            ),
        forall|g: int|
            0 <= g < r.0@.len() ==> #[trigger] group_witnessed(
                pairs@,
                r.1@,
                r.0@,
                g,
                pairs@.len() as int,
            ),
        forall|a: int, b: int|
            0 <= a < b < r.0@.len() ==> !same_edge(#[trigger] r.0@[a], #[trigger] r.0@[b]),
        forall|k: int| 0 <= k < pairs@.len() ==> #[trigger] numbered_in_order(r.1@, k),
        forall|k: int|
            0 <= k < pairs@.len() ==> (#[trigger] r.1@[k]) < r.0@.len() && r.0@[r.1@[k] as int].0@
                == pairs@[k].0@ && r.0@[r.1@[k] as int].1@ == pairs@[k].1@,
        forall|k: int, l: int|
            0 <= k < pairs@.len() && 0 <= l < pairs@.len() ==> ((#[trigger] r.1@[k] == #[trigger] r.1@[l])
                <==> (pairs@[k].0@ == pairs@[l].0@ && pairs@[k].1@ == pairs@[l].1@)),
        forall|a: int, b: int|
            0 <= a < b < r.0@.len() ==> !((#[trigger] r.0@[a]).0@ == (#[trigger] r.0@[b]).0@ && r.0@[a].1@
                == r.0@[b].1@),
{
    let mut edges: Vec<(String, String)> = Vec::new();
    let mut group: Vec<usize> = Vec::new();
    let mut k: usize = 0;
    while k < pairs.len()
        invariant
            k <= pairs@.len(),
            group@.len() == k,
            forall|q: int|
                0 <= q < k ==> (#[trigger] group@[q]) < edges@.len() && same_edge(
                    edges@[group@[q] as int],
                    pairs@[q],
                ),
            forall|g: int|
                0 <= g < edges@.len() ==> #[trigger] group_witnessed(
                    pairs@,
                    group@,
                    edges@,
                    g,
                    k as int,
                ),
            forall|a: int, b: int|
                0 <= a < b < edges@.len() ==> !same_edge(#[trigger] edges@[a], #[trigger] edges@[b]),
            forall|q: int| 0 <= q < k ==> #[trigger] numbered_in_order(group@, q),
        decreases pairs@.len() - k,
    {
        let p = &pairs[k];
        let mut g: usize = 0;
        let mut found = false;
        while g < edges.len() && !found
            invariant
                g <= edges@.len(),
                found ==> g < edges@.len() && same_edge(edges@[g as int], *p),
                !found ==> forall|h: int| 0 <= h < g ==> !same_edge(#[trigger] edges@[h], *p),
            decreases edges@.len() - g + (if found { 0int } else { 1int }),
        {
            if edges[g].0 == p.0 && edges[g].1 == p.1 {
                found = true;
            } else {
                g = g + 1;
            }
        }
        let ghost old_edges = edges@;
        let ghost old_group = group@;
        if found {
            group.push(g);
            proof {
                assert forall|h: int| 0 <= h < edges@.len() implies #[trigger] group_witnessed(
                    pairs@,
                    group@,
                    edges@,
                    h,
                    k + 1,
                ) by {
                    assert(group_witnessed(pairs@, old_group, old_edges, h, k as int));
                    let q = choose|q: int|
                        0 <= q < k && old_group[q] == h && same_edge(old_edges[h], pairs@[q]);
                    assert(group@[q] == h);
                }
            }
        } else {
            let e = (p.0.clone(), p.1.clone());
            edges.push(e);
            group.push(edges.len() - 1);
            proof {
                assert forall|q: int| 0 <= q < k + 1 implies (#[trigger] group@[q]) < edges@.len()
                    && same_edge(edges@[group@[q] as int], pairs@[q]) by {
                    if q < k {
                        assert(group@[q] == old_group[q]);
                        assert(edges@[old_group[q] as int] == old_edges[old_group[q] as int]);
                    }
                }
                assert forall|h: int| 0 <= h < edges@.len() implies #[trigger] group_witnessed(
                    pairs@,
                    group@,
                    edges@,
                    h,
                    k + 1,
                ) by {
                    if h < old_edges.len() {
                        assert(group_witnessed(pairs@, old_group, old_edges, h, k as int));
                        let q = choose|q: int|
                            0 <= q < k && old_group[q] == h && same_edge(old_edges[h], pairs@[q]);
                        assert(group@[q] == h);
                        assert(edges@[h] == old_edges[h]);
                    } else {
                        assert(group@[k as int] == h);
                    }
                }
                assert forall|a: int, b: int| 0 <= a < b < edges@.len() implies !same_edge(
                    #[trigger] edges@[a],
                    #[trigger] edges@[b],
                ) by {
                    if b < old_edges.len() {
                        assert(edges@[a] == old_edges[a]);
                        assert(edges@[b] == old_edges[b]);
                    } else {
                        assert(edges@[a] == old_edges[a]);
                        assert(!same_edge(old_edges[a], *p));
                    }
                }
            }
        }
        proof {
            assert forall|q: int| 0 <= q < k + 1 implies #[trigger] numbered_in_order(group@, q) by {
                if q < k {
                    assert(group@[q] == old_group[q]);
                    assert(numbered_in_order(old_group, q));
                    if old_group[q] != 0 {
                        let w = choose|w: int| 0 <= w < q && old_group[w] == old_group[q] - 1;
                        assert(group@[w] == old_group[w]);
                    }
                } else if group@[q] != 0 {
                    let g = group@[q] as int;
                    if found {
                        assert(group_witnessed(pairs@, old_group, old_edges, g, k as int));
                        let q0 = choose|q0: int|
                            0 <= q0 < k && old_group[q0] == g && same_edge(old_edges[g], pairs@[q0]);
                        assert(numbered_in_order(old_group, q0));
                        let w = choose|w: int| 0 <= w < q0 && old_group[w] == old_group[q0] - 1;
                        assert(group@[w] == old_group[w]);
                    } else {
                        assert(g == old_edges.len());
                        assert(group_witnessed(pairs@, old_group, old_edges, g - 1, k as int));
                        let w = choose|w: int|
                            0 <= w < k && old_group[w] == g - 1 && same_edge(old_edges[g - 1], pairs@[w]);
                        assert(group@[w] == old_group[w]);
                    }
                }
            }
        }
        k = k + 1;
    }
    proof {
        assert forall|q: int, l: int| 0 <= q < pairs@.len() && 0 <= l < pairs@.len() implies ((
        #[trigger] group@[q] == #[trigger] group@[l]) <==> (pairs@[q].0@ == pairs@[l].0@ && pairs@[q].1@
            == pairs@[l].1@)) by {
            let gq = group@[q] as int;
            let gl = group@[l] as int;
            assert(same_edge(edges@[gq], pairs@[q]));
            assert(same_edge(edges@[gl], pairs@[l]));
            if gq < gl {
                assert(!same_edge(edges@[gq], edges@[gl]));
            } else if gl < gq {
                assert(!same_edge(edges@[gl], edges@[gq]));
            }
        }
        assert forall|a: int, b: int| 0 <= a < b < edges@.len() implies !((#[trigger] edges@[a]).0@
            == (#[trigger] edges@[b]).0@ && edges@[a].1@ == edges@[b].1@) by {
            assert(!same_edge(edges@[a], edges@[b]));
        }
    }
    (edges, group)
}

} // verus!
