//! The dependency-closure resolver: given the requested package names, the
//! deduplicated, deterministically ordered set of local packages reachable
//! from them through local-only dependency edges. Externally-sourced
//! dependencies are ignored entirely. The computation walks the graph with
//! an explicit worklist and a visited set, so even a malformed cyclic graph
//! cannot make it recurse without bound.
use vstd::prelude::*;

use crate::graph::{
    key_eq, key_lt, lemma_key_trans, lemma_key_trichotomy, lemma_resolves_to_unique,
    make_descriptor, name_matches, resolve_package, resolves_to, spec_descriptor, LocalCrate,
    LocalCrateV, PackageGraph,
};

verus! {

/// A requested or transitively-referenced package name that the graph
/// snapshot cannot resolve. Fatal: the closure computation aborts.
#[derive(Debug)]
pub struct LookupError {
    pub name: String,
}

/// The dependency entry `d` of the package at index `i`.
pub open spec fn dep_at(g: PackageGraph, i: int, d: int) -> crate::graph::DepRef {
    g.packages@[i].deps@[d]
}

/// There is a local dependency edge from package `i` to package `j`: some
/// dependency of `i` is flagged local and resolves to `j`.
pub open spec fn local_dep_edge(g: PackageGraph, i: int, j: int) -> bool {
    &&& 0 <= i < g.packages@.len()
    &&& exists|d: int|
        0 <= d < g.packages@[i].deps@.len() && (#[trigger] dep_at(g, i, d)).is_local
            && resolves_to(g, dep_at(g, i, d).name@, j)
}

/// There is a chain of at most `k` local dependency edges from `i` to `j`.
#[verifier::opaque]
pub open spec fn reachable_k(g: PackageGraph, i: int, j: int, k: nat) -> bool
    decreases k,
{
    i == j || (k > 0 && exists|m: int|
        #[trigger] local_dep_edge(g, i, m) && reachable_k(g, m, j, (k - 1) as nat))
}

/// `j` is reachable from `i` through local dependency edges alone.
#[verifier::opaque]
pub open spec fn locally_reachable(g: PackageGraph, i: int, j: int) -> bool {
    exists|k: nat| reachable_k(g, i, j, k)
}

/// `j` is a member of the closure: some requested root resolves to a package
/// from which `j` is reachable through an all-local path.
#[verifier::opaque]
pub open spec fn in_closure(g: PackageGraph, roots: Seq<Seq<char>>, j: int) -> bool {
    exists|r: int, i: int|
        0 <= r < roots.len() && #[trigger] resolves_to(g, roots[r], i) && locally_reachable(
            g,
            i,
            j,
        )
}

/// The views of a sequence of requested names.
pub open spec fn names_view(names: Seq<String>) -> Seq<Seq<char>> {
    Seq::new(names.len(), |i: int| names[i]@)
}

/// The views of a sequence of descriptors.
pub open spec fn crates_view(s: Seq<LocalCrate>) -> Seq<LocalCrateV> {
    Seq::new(s.len(), |i: int| s[i]@)
}

/// No package of the snapshot answers to `n`, by either name form: `n`
/// cannot be resolved.
pub open spec fn unresolvable(g: PackageGraph, n: Seq<char>) -> bool {
    forall|j: int| 0 <= j < g.packages@.len() ==> !name_matches(#[trigger] g.packages@[j], n)
}

/// `n` cannot be resolved, and the closure computation had to resolve it:
/// it is a requested name, or the name of a local dependency of a closure
/// member.
pub open spec fn lookup_failure(g: PackageGraph, roots: Seq<Seq<char>>, n: Seq<char>) -> bool {
    &&& forall|j: int| 0 <= j < g.packages@.len() ==> !name_matches(g.packages@[j], n)
    &&& ((exists|r: int| 0 <= r < roots.len() && roots[r] == n) || (exists|j: int, d: int|
        #[trigger] in_closure(g, roots, j) && 0 <= d < g.packages@[j].deps@.len() && (
        #[trigger] dep_at(g, j, d)).is_local && dep_at(g, j, d).name@ == n))
}

/// `c` is the descriptor of closure member `j`, and no earlier closure
/// member shares its identity key: `j` is the canonical representative of
/// that key.
#[verifier::opaque]
pub open spec fn first_repr_at(g: PackageGraph, roots: Seq<Seq<char>>, c: LocalCrateV, j: int) -> bool {
    &&& in_closure(g, roots, j)
    &&& c == spec_descriptor(g, j)
    &&& forall|j2: int|
        0 <= j2 < j && #[trigger] in_closure(g, roots, j2) ==> !key_eq(spec_descriptor(g, j2), c)
}

/// Some member of `v` carries the identity key of descriptor `d`.
#[verifier::opaque]
pub open spec fn contains_key_of(v: Seq<LocalCrateV>, d: LocalCrateV) -> bool {
    exists|c: LocalCrateV| v.contains(c) && key_eq(c, d)
}

/// Strictly ascending by the identity key `(name, root_path)`.
pub open spec fn sorted_strict(v: Seq<LocalCrateV>) -> bool {
    forall|p: int, q: int| 0 <= p < q < v.len() ==> key_lt(#[trigger] v[p], #[trigger] v[q])
}

/// What the resolver returns on success: a strictly key-sorted sequence
/// whose members are exactly the canonical representatives of the closure's
/// identity keys. This pins the result completely, which is what makes the
/// computation deterministic.
pub open spec fn closure_post(g: PackageGraph, roots: Seq<Seq<char>>, v: Seq<LocalCrateV>) -> bool {
    &&& sorted_strict(v)
    &&& repr_post(g, roots, v)
    &&& cover_post(g, roots, v)
}

/// Every member is the canonical representative of its key.
#[verifier::opaque]
pub open spec fn repr_post(g: PackageGraph, roots: Seq<Seq<char>>, v: Seq<LocalCrateV>) -> bool {
    forall|c: LocalCrateV| #[trigger] v.contains(c) ==> exists|j: int| first_repr_at(g, roots, c, j)
}

/// Every closure member's key is carried by some member of `v`.
#[verifier::opaque]
pub open spec fn cover_post(g: PackageGraph, roots: Seq<Seq<char>>, v: Seq<LocalCrateV>) -> bool {
    forall|j: int| #[trigger] in_closure(g, roots, j) ==> contains_key_of(v, spec_descriptor(g, j))
}

/// From membership, extract the canonical representative index of `c`.
proof fn lemma_member_repr(g: PackageGraph, roots: Seq<Seq<char>>, v: Seq<LocalCrateV>, c: LocalCrateV) -> (j: int)
    requires
        repr_post(g, roots, v),
        v.contains(c),
    ensures
        0 <= j < g.packages@.len(),
        in_closure(g, roots, j),
        c == spec_descriptor(g, j),
        forall|j2: int|
            0 <= j2 < j && #[trigger] in_closure(g, roots, j2) ==> !key_eq(spec_descriptor(g, j2), c),
{
    reveal(repr_post);
    reveal(first_repr_at);
    let j = choose|j: int| first_repr_at(g, roots, c, j);
    assert(0 <= j < g.packages@.len()) by {
        reveal(in_closure);
        reveal(locally_reachable);
        let (r, i0) = choose|r: int, i0: int|
            0 <= r < roots.len() && #[trigger] resolves_to(g, roots[r], i0) && locally_reachable(
                g,
                i0,
                j,
            );
        let k = choose|k: nat| reachable_k(g, i0, j, k);
        lemma_reach_in_range(g, i0, j, k);
    }
    j
}

/// From closure membership of `j`, extract the member carrying its key.
proof fn lemma_cover_witness(g: PackageGraph, roots: Seq<Seq<char>>, v: Seq<LocalCrateV>, j: int) -> (y: LocalCrateV)
    requires
        cover_post(g, roots, v),
        in_closure(g, roots, j),
    ensures
        v.contains(y),
        key_eq(y, spec_descriptor(g, j)),
{
    reveal(cover_post);
    reveal(contains_key_of);
    let y = choose|y: LocalCrateV| v.contains(y) && key_eq(y, spec_descriptor(g, j));
    y
}

/// How many entries of the visited set are on.
pub closed spec fn count_true(s: Seq<bool>) -> nat
    decreases s.len(),
{
    if s.len() == 0 {
        0
    } else {
        count_true(s.drop_last()) + (if s.last() {
            1nat
        } else {
            0nat
        })
    }
}

proof fn lemma_count_true_le(s: Seq<bool>)
    ensures
        count_true(s) <= s.len(),
    decreases s.len(),
{
    if s.len() > 0 {
        lemma_count_true_le(s.drop_last());
    }
}

proof fn lemma_count_true_update(s: Seq<bool>, i: int)
    requires
        0 <= i < s.len(),
        !s[i],
    ensures
        count_true(s.update(i, true)) == count_true(s) + 1,
    decreases s.len(),
{
    let t = s.update(i, true);
    if i == s.len() - 1 {
        assert(t.drop_last() =~= s.drop_last());
    } else {
        assert(t.drop_last() =~= s.drop_last().update(i, true));
        lemma_count_true_update(s.drop_last(), i);
    }
}

/// Reachability chains stay inside the snapshot.
proof fn lemma_reach_in_range(g: PackageGraph, i: int, j: int, k: nat)
    requires
        0 <= i < g.packages@.len(),
        reachable_k(g, i, j, k),
    ensures
        0 <= j < g.packages@.len(),
    decreases k,
{
    reveal(reachable_k);
    if i != j {
        let m = choose|m: int| #[trigger] local_dep_edge(g, i, m) && reachable_k(g, m, j, (k - 1) as nat);
        lemma_reach_in_range(g, m, j, (k - 1) as nat);
    }
}

/// A chain to `i` extends along an edge from `i` to `j`.
proof fn lemma_reach_step(g: PackageGraph, i0: int, i: int, j: int, k: nat)
    requires
        reachable_k(g, i0, i, k),
        local_dep_edge(g, i, j),
    ensures
        reachable_k(g, i0, j, (k + 1) as nat),
    decreases k,
{
    reveal(reachable_k);
    if i0 == i {
        assert(reachable_k(g, j, j, k));
    } else {
        let m = choose|m: int| #[trigger] local_dep_edge(g, i0, m) && reachable_k(g, m, i, (k - 1) as nat);
        lemma_reach_step(g, m, i, j, (k - 1) as nat);
    }
}

/// Closure membership extends along a local dependency edge.
proof fn lemma_closure_step(g: PackageGraph, roots: Seq<Seq<char>>, i: int, j: int)
    requires
        in_closure(g, roots, i),
        local_dep_edge(g, i, j),
    ensures
        in_closure(g, roots, j),
{
    reveal(in_closure);
    reveal(locally_reachable);
    let (r, i0) = choose|r: int, i0: int|
        0 <= r < roots.len() && #[trigger] resolves_to(g, roots[r], i0) && locally_reachable(g, i0, i);
    let k = choose|k: nat| reachable_k(g, i0, i, k);
    lemma_reach_step(g, i0, i, j, k);
    assert(locally_reachable(g, i0, j));
}

/// A visited set that holds the start of a chain and is closed under local
/// dependency edges holds the whole chain.
proof fn lemma_closed_visited(g: PackageGraph, vis: Seq<bool>, i: int, j: int, k: nat)
    requires
        vis.len() == g.packages@.len(),
        forall|a: int, b: int|
            0 <= a < vis.len() && vis[a] && #[trigger] local_dep_edge(g, a, b) ==> 0 <= b
                < vis.len() && vis[b],
        0 <= i < vis.len(),
        vis[i],
        reachable_k(g, i, j, k),
    ensures
        0 <= j < vis.len() && vis[j],
    decreases k,
{
    reveal(reachable_k);
    if i != j {
        let m = choose|m: int| #[trigger] local_dep_edge(g, i, m) && reachable_k(g, m, j, (k - 1) as nat);
        lemma_closed_visited(g, vis, m, j, (k - 1) as nat);
    }
}

/// `c` is the descriptor of the first visited index with its key.
pub open spec fn vfirst_at(g: PackageGraph, vis: Seq<bool>, c: LocalCrateV, j: int) -> bool {
    &&& 0 <= j < vis.len()
    &&& vis[j]
    &&& c == spec_descriptor(g, j)
    &&& forall|j2: int|
        0 <= j2 < j && #[trigger] vis[j2] ==> !key_eq(spec_descriptor(g, j2), c)
}

/// Whether `a` orders strictly below `b` by the identity key.
fn key_lt_exec(a: &LocalCrate, b: &LocalCrate) -> (r: bool)
    ensures
        r == key_lt(a@, b@),
{
    if crate::strings::str_lt(a.name.as_str(), b.name.as_str()) {
        true
    } else if crate::strings::str_eq(a.name.as_str(), b.name.as_str()) {
        crate::strings::str_lt(a.root_path.as_str(), b.root_path.as_str())
    } else {
        false
    }
}

/// Whether `a` and `b` share the identity key.
fn key_eq_exec(a: &LocalCrate, b: &LocalCrate) -> (r: bool)
    ensures
        r == key_eq(a@, b@),
{
    crate::strings::str_eq(a.name.as_str(), b.name.as_str()) && crate::strings::str_eq(
        a.root_path.as_str(),
        b.root_path.as_str(),
    )
}

/// Find where `c`'s key sits in a strictly key-sorted sequence: either the
/// position of the entry that already carries the key, or the position to
/// insert at.
fn find_key_pos(out: &Vec<LocalCrate>, c: &LocalCrate) -> (r: (usize, bool))
    requires
        sorted_strict(crates_view(out@)),
    ensures
        r.1 ==> (r.0 as int) < out@.len() && key_eq(crates_view(out@)[r.0 as int], c@),
        !r.1 ==> {
            &&& r.0 <= out@.len()
            &&& forall|t: int| 0 <= t < r.0 ==> key_lt(#[trigger] crates_view(out@)[t], c@)
            &&& (r.0 as int == out@.len() || key_lt(c@, crates_view(out@)[r.0 as int]))
        },
{
    let ghost v0 = crates_view(out@);
    let n = out.len();
    let mut idx: usize = 0;
    while idx < n
        invariant
            n == out@.len(),
            v0 == crates_view(out@),
            sorted_strict(v0),
            idx <= n,
            forall|t: int| 0 <= t < idx ==> key_lt(#[trigger] v0[t], c@),
        decreases n - idx,
    {
        proof {
            assert(v0[idx as int] == out@[idx as int]@);
        }
        if key_eq_exec(&out[idx], c) {
            return (idx, true);
        }
        if key_lt_exec(c, &out[idx]) {
            return (idx, false);
        }
        proof {
            lemma_key_trichotomy(v0[idx as int], c@);
        }
        idx = idx + 1;
    }
    (n, false)
}

/// Insert `c` into a strictly key-sorted sequence, keeping it sorted and
/// dropping `c` when its key is already present.
fn insert_sorted_dedup(out0: Vec<LocalCrate>, c: LocalCrate) -> (r: Vec<LocalCrate>)
    requires
        sorted_strict(crates_view(out0@)),
    ensures
        sorted_strict(crates_view(r@)),
        (exists|y: LocalCrateV| crates_view(out0@).contains(y) && key_eq(y, c@)) ==> r@ == out0@,
        !(exists|y: LocalCrateV| crates_view(out0@).contains(y) && key_eq(y, c@)) ==> forall|
            x: LocalCrateV,
        |
            crates_view(r@).contains(x) <==> crates_view(out0@).contains(x) || x == c@,
{
    let ghost v0 = crates_view(out0@);
    let pos = find_key_pos(&out0, &c);
    let idx = pos.0;
    if pos.1 {
        proof {
            assert(v0.contains(v0[idx as int]));
        }
        return out0;
    }
    // Everything before idx is strictly below c's key, and either idx is the
    // end or c's key is strictly below the entry at idx: no entry shares it.
    proof {
        assert forall|y: LocalCrateV| v0.contains(y) implies !key_eq(y, c@) by {
            let q = choose|q: int| 0 <= q < v0.len() && v0[q] == y;
            lemma_key_trichotomy(y, c@);
            if q < idx {
            } else if (idx as int) < v0.len() {
                if q == idx {
                } else {
                    lemma_key_trans(c@, v0[idx as int], v0[q]);
                }
            }
        }
    }
    let ghost cv = c@;
    let mut out = out0;
    out.insert(idx, c);
    proof {
        let v1 = crates_view(out@);
        assert(v1 =~= v0.insert(idx as int, cv)) by {
            assert forall|t: int| 0 <= t < v1.len() implies v1[t] == v0.insert(idx as int, cv)[t] by {
                assert(out@[t]@ == v1[t]);
            }
        }
        assert forall|p: int, q: int| 0 <= p < q < v1.len() implies key_lt(v1[p], v1[q]) by {
            if q < idx {
            } else if p < idx && q == idx {
                assert(v1[q] == cv);
            } else if p < idx && q > idx {
                assert(v1[q] == v0[q - 1]);
                if idx < q - 1 {
                    lemma_key_trans(v0[p], v0[idx as int], v0[q - 1]);
                }
            } else if p == idx {
                assert(v1[p] == cv);
                assert(v1[q] == v0[q - 1]);
                if idx < q - 1 {
                    lemma_key_trans(cv, v0[idx as int], v0[q - 1]);
                }
            } else {
                assert(v1[p] == v0[p - 1]);
                assert(v1[q] == v0[q - 1]);
            }
        }
        assert forall|x: LocalCrateV| v1.contains(x) <==> v0.contains(x) || x == cv by {
            if v1.contains(x) {
                let t = choose|t: int| 0 <= t < v1.len() && v1[t] == x;
                if t < idx {
                    assert(v0[t] == x);
                    assert(v0.contains(x));
                } else if t == idx {
                } else {
                    assert(v0[t - 1] == x);
                    assert(v0.contains(x));
                }
            }
            if v0.contains(x) {
                let t = choose|t: int| 0 <= t < v0.len() && v0[t] == x;
                if t < idx {
                    assert(v1[t] == x);
                } else {
                    assert(v1[t + 1] == x);
                }
                assert(v1.contains(x));
            }
            if x == cv {
                assert(v1[idx as int] == x);
                assert(v1.contains(x));
            }
        }
    }
    out
}

/// Appending to a sequence preserves and adds membership.
proof fn lemma_push_contains<T>(s: Seq<T>, x: T)
    ensures
        forall|y: T| #[trigger] s.push(x).contains(y) <==> s.contains(y) || y == x,
{
    assert forall|y: T| #[trigger] s.push(x).contains(y) <==> s.contains(y) || y == x by {
        if s.contains(y) {
            let t = choose|t: int| 0 <= t < s.len() && s[t] == y;
            assert(s.push(x)[t] == y);
        }
        assert(s.push(x)[s.len() as int] == x);
        if s.push(x).contains(y) && y != x {
            let t = choose|t: int| 0 <= t < s.push(x).len() && s.push(x)[t] == y;
            assert(s[t] == y);
        }
    }
}

/// Compute the closure: the deduplicated set of local packages reachable
/// from the requested names through local-only dependency edges, ordered
/// strictly by the identity key `(name, root_path)`. On failure, the
/// returned error carries exactly a name that the snapshot cannot resolve
/// and that the computation had to resolve; so whenever every requested and
/// reachable local dependency name resolves, the call succeeds, and whenever
/// a requested name resolves to nothing, the call fails.
pub fn find_crates_to_copy(g: &PackageGraph, names: &Vec<String>) -> (r: Result<
    Vec<LocalCrate>,
    LookupError,
>)
    ensures
        match r {
            Ok(v) => closure_post(*g, names_view(names@), crates_view(v@)) && (forall|r2: int|
                0 <= r2 < names@.len() ==> !(#[trigger] unresolvable(
                    *g,
                    names_view(names@)[r2],
                ))),
            Err(e) => lookup_failure(*g, names_view(names@), e.name@),
        },
{
    let ghost gv = *g;
    let ghost roots = names_view(names@);

    // Resolve every requested root.
    let n_names = names.len();
    let mut roots_idx: Vec<usize> = Vec::new();
    let mut t: usize = 0;
    while t < n_names
        invariant
            gv == *g,
            roots == names_view(names@),
            n_names == names@.len(),
            t <= n_names,
            roots_idx@.len() == t as int,
            forall|u: int|
                0 <= u < t ==> resolves_to(gv, roots[u], (#[trigger] roots_idx@[u]) as int),
        decreases n_names - t,
    {
        proof {
            assert(roots[t as int] == names@[t as int]@);
        }
        match resolve_package(g, names[t].as_str()) {
            Some(i) => {
                roots_idx.push(i);
                proof {
                    assert(roots_idx@[t as int] == i);
                }
            },
            None => {
                return Err(LookupError { name: names[t].clone() });
            },
        }
        t = t + 1;
    }

    // Walk the graph from the roots with an explicit worklist and a visited
    // set: no recursion, so a malformed cyclic graph cannot overflow.
    let n = g.packages.len();
    let mut vis: Vec<bool> = Vec::new();
    let mut z: usize = 0;
    while z < n
        invariant
            z <= n,
            vis@.len() == z as int,
            forall|j: int| 0 <= j < z ==> !(#[trigger] vis@[j]),
        decreases n - z,
    {
        vis.push(false);
        z = z + 1;
    }

    let n_roots = roots_idx.len();
    let mut work: Vec<usize> = Vec::new();
    let mut t2: usize = 0;
    while t2 < n_roots
        invariant
            n_roots == roots_idx@.len(),
            t2 <= n_roots,
            work@.len() == t2 as int,
            forall|u: int| 0 <= u < t2 ==> work@[u] == roots_idx@[u],
        decreases n_roots - t2,
    {
        work.push(roots_idx[t2]);
        t2 = t2 + 1;
    }

    proof {
        assert forall|u: int|
            0 <= u < work@.len() implies ((#[trigger] work@[u]) as int) < n && in_closure(
            gv,
            roots,
            work@[u] as int,
        ) by {
            assert(work@[u] == roots_idx@[u]);
            let i0 = roots_idx@[u] as int;
            assert(resolves_to(gv, roots[u], i0));
            reveal(reachable_k);
            reveal(locally_reachable);
            reveal(in_closure);
            assert(reachable_k(gv, i0, i0, 0));
            assert(locally_reachable(gv, i0, i0));
        }
        assert forall|u: int|
            0 <= u < roots_idx@.len() implies vis@[(#[trigger] roots_idx@[u]) as int]
            || work@.contains(roots_idx@[u]) by {
            assert(work@[u] == roots_idx@[u]);
            assert(work@.contains(work@[u]));
        }
        lemma_count_true_le(vis@);
    }

    while work.len() > 0
        invariant
            gv == *g,
            roots == names_view(names@),
            n == g.packages@.len(),
            vis@.len() == n as int,
            count_true(vis@) <= n as nat,
            n_roots == roots_idx@.len(),
            forall|u: int|
                0 <= u < n_roots ==> resolves_to(gv, roots[u], (#[trigger] roots_idx@[u]) as int),
            forall|t3: int|
                0 <= t3 < work@.len() ==> ((#[trigger] work@[t3]) as int) < n && in_closure(
                    gv,
                    roots,
                    work@[t3] as int,
                ),
            forall|j: int| 0 <= j < n && (#[trigger] vis@[j]) ==> in_closure(gv, roots, j),
            forall|u: int|
                0 <= u < n_roots ==> vis@[(#[trigger] roots_idx@[u]) as int] || work@.contains(
                    roots_idx@[u],
                ),
            forall|a: int, b: int|
                0 <= a < n && vis@[a] && #[trigger] local_dep_edge(gv, a, b) ==> vis@[b]
                    || work@.contains(b as usize),
        decreases n - count_true(vis@), work@.len(),
    {
        let ghost wpre = work@;
        let i = work.pop().unwrap();
        proof {
            assert(wpre[wpre.len() - 1] == i);
            assert(in_closure(gv, roots, i as int));
            assert((i as int) < n);
        }
        if !vis[i] {
            let ghost vpre = vis@;
            vis[i] = true;
            proof {
                lemma_count_true_update(vpre, i as int);
                lemma_count_true_le(vis@);
                assert forall|u: int|
                    0 <= u < n_roots implies vis@[(#[trigger] roots_idx@[u]) as int]
                    || work@.contains(roots_idx@[u]) by {
                    if !vis@[roots_idx@[u] as int] {
                        assert(roots_idx@[u] as int != i as int);
                        assert(!vpre[roots_idx@[u] as int]);
                        assert(wpre.contains(roots_idx@[u]));
                        let t3 = choose|t3: int| 0 <= t3 < wpre.len() && wpre[t3] == roots_idx@[u];
                        assert(t3 != wpre.len() - 1);
                        assert(work@[t3] == wpre[t3]);
                        assert(work@.contains(roots_idx@[u]));
                    }
                }
                assert forall|a: int, b: int|
                    0 <= a < n && vis@[a] && a != i as int && #[trigger] local_dep_edge(gv, a, b)
                        implies vis@[b] || work@.contains(b as usize) by {
                    assert(vpre[a]);
                    assert(0 <= b < n);
                    if !vis@[b] {
                        assert(!vpre[b]);
                        assert(wpre.contains(b as usize));
                        let t3 = choose|t3: int| 0 <= t3 < wpre.len() && wpre[t3] == b as usize;
                        assert(t3 != wpre.len() - 1);
                        assert(work@[t3] == wpre[t3]);
                        assert(work@.contains(b as usize));
                    }
                }
            }
            let nd = g.packages[i].deps.len();
            let mut d: usize = 0;
            while d < nd
                invariant
                    gv == *g,
                    roots == names_view(names@),
                    n == g.packages@.len(),
                    (i as int) < n,
                    nd == g.packages@[i as int].deps@.len(),
                    vis@.len() == n as int,
                    vis@[i as int],
                    in_closure(gv, roots, i as int),
                    count_true(vis@) <= n as nat,
                    d <= nd,
                    n_roots == roots_idx@.len(),
                    forall|u: int|
                        0 <= u < n_roots ==> resolves_to(
                            gv,
                            roots[u],
                            (#[trigger] roots_idx@[u]) as int,
                        ),
                    forall|t3: int|
                        0 <= t3 < work@.len() ==> ((#[trigger] work@[t3]) as int) < n
                            && in_closure(gv, roots, work@[t3] as int),
                    forall|j: int| 0 <= j < n && (#[trigger] vis@[j]) ==> in_closure(gv, roots, j),
                    forall|u: int|
                        0 <= u < n_roots ==> vis@[(#[trigger] roots_idx@[u]) as int]
                            || work@.contains(roots_idx@[u]),
                    forall|a: int, b: int|
                        0 <= a < n && vis@[a] && a != i as int && #[trigger] local_dep_edge(
                            gv,
                            a,
                            b,
                        ) ==> vis@[b] || work@.contains(b as usize),
                    forall|b: int|
                        #![trigger work@.contains(b as usize)]
                        (exists|d2: int|
                            0 <= d2 < d && (#[trigger] dep_at(gv, i as int, d2)).is_local
                                && resolves_to(gv, dep_at(gv, i as int, d2).name@, b))
                            ==> work@.contains(b as usize),
                decreases nd - d,
            {
                let dep = &g.packages[i].deps[d];
                if dep.is_local {
                    match resolve_package(g, dep.name.as_str()) {
                        Some(j) => {
                            proof {
                                assert(dep_at(gv, i as int, d as int).is_local);
                                assert(resolves_to(
                                    gv,
                                    dep_at(gv, i as int, d as int).name@,
                                    j as int,
                                ));
                                assert(local_dep_edge(gv, i as int, j as int));
                                lemma_closure_step(gv, roots, i as int, j as int);
                            }
                            let ghost wp = work@;
                            work.push(j);
                            proof {
                                lemma_push_contains(wp, j);
                                assert forall|b: int|
                                    #![trigger work@.contains(b as usize)]
                                    (exists|d2: int|
                                        0 <= d2 < d + 1 && (#[trigger] dep_at(
                                            gv,
                                            i as int,
                                            d2,
                                        )).is_local && resolves_to(
                                            gv,
                                            dep_at(gv, i as int, d2).name@,
                                            b,
                                        )) implies work@.contains(b as usize) by {
                                    let d2 = choose|d2: int|
                                        0 <= d2 < d + 1 && (#[trigger] dep_at(
                                            gv,
                                            i as int,
                                            d2,
                                        )).is_local && resolves_to(
                                            gv,
                                            dep_at(gv, i as int, d2).name@,
                                            b,
                                        );
                                    if d2 == d as int {
                                        lemma_resolves_to_unique(
                                            gv,
                                            dep_at(gv, i as int, d2).name@,
                                            b,
                                            j as int,
                                        );
                                        assert(work@.contains(j));
                                    } else {
                                        assert(wp.contains(b as usize));
                                    }
                                }
                            }
                        },
                        None => {
                            proof {
                                assert(dep_at(gv, i as int, d as int).is_local);
                                assert(dep_at(gv, i as int, d as int).name@ == dep.name@);
                            }
                            return Err(LookupError { name: dep.name.clone() });
                        },
                    }
                }
                d = d + 1;
            }
            proof {
                assert forall|a: int, b: int|
                    0 <= a < n && vis@[a] && #[trigger] local_dep_edge(gv, a, b) implies vis@[b]
                        || work@.contains(b as usize) by {
                    if a == i as int {
                        assert(work@.contains(b as usize));
                    }
                }
            }
        } else {
            proof {
                assert forall|u: int|
                    0 <= u < n_roots implies vis@[(#[trigger] roots_idx@[u]) as int]
                    || work@.contains(roots_idx@[u]) by {
                    if !vis@[roots_idx@[u] as int] {
                        assert(wpre.contains(roots_idx@[u]));
                        let t3 = choose|t3: int| 0 <= t3 < wpre.len() && wpre[t3] == roots_idx@[u];
                        assert(t3 != wpre.len() - 1);
                        assert(work@[t3] == wpre[t3]);
                        assert(work@.contains(roots_idx@[u]));
                    }
                }
                assert forall|a: int, b: int|
                    0 <= a < n && vis@[a] && #[trigger] local_dep_edge(gv, a, b) implies vis@[b]
                        || work@.contains(b as usize) by {
                    assert(0 <= b < n);
                    if !vis@[b] {
                        assert(wpre.contains(b as usize));
                        let t3 = choose|t3: int| 0 <= t3 < wpre.len() && wpre[t3] == b as usize;
                        assert(t3 != wpre.len() - 1);
                        assert(work@[t3] == wpre[t3]);
                        assert(work@.contains(b as usize));
                    }
                }
            }
        }
    }

    // The worklist is empty: the visited set is exactly the closure.
    proof {
        assert forall|j: int| #[trigger] in_closure(gv, roots, j) implies 0 <= j < n && vis@[j] by {
            reveal(in_closure);
            reveal(locally_reachable);
            let (r2, i0) = choose|r2: int, i0: int|
                0 <= r2 < roots.len() && #[trigger] resolves_to(gv, roots[r2], i0)
                    && locally_reachable(gv, i0, j);
            lemma_resolves_to_unique(gv, roots[r2], i0, roots_idx@[r2] as int);
            assert(vis@[i0]);
            let k = choose|k: nat| reachable_k(gv, i0, j, k);
            lemma_closed_visited(gv, vis@, i0, j, k);
        }
    }

    // Emit the descriptors of the visited packages in strict key order,
    // keeping only the first representative of each identity key.
    let mut out: Vec<LocalCrate> = Vec::new();
    let mut idx: usize = 0;
    while idx < n
        invariant
            gv == *g,
            roots == names_view(names@),
            n == g.packages@.len(),
            vis@.len() == n as int,
            idx <= n,
            roots_idx@.len() == roots.len(),
            forall|u: int|
                0 <= u < roots_idx@.len() ==> resolves_to(gv, roots[u], (#[trigger] roots_idx@[u]) as int),
            forall|j: int| 0 <= j < n && (#[trigger] vis@[j]) ==> in_closure(gv, roots, j),
            forall|j: int| #[trigger] in_closure(gv, roots, j) ==> 0 <= j < n && vis@[j],
            sorted_strict(crates_view(out@)),
            forall|c: LocalCrateV|
                #[trigger] crates_view(out@).contains(c) ==> exists|j: int|
                    vfirst_at(gv, vis@, c, j),
            forall|j: int|
                0 <= j < idx && (#[trigger] vis@[j]) ==> exists|c: LocalCrateV|
                    crates_view(out@).contains(c) && key_eq(c, spec_descriptor(gv, j)),
        decreases n - idx,
    {
        if vis[idx] {
            let c = make_descriptor(g, idx);
            let ghost outpre = crates_view(out@);
            let ghost cv = c@;
            out = insert_sorted_dedup(out, c);
            proof {
                if exists|y: LocalCrateV| outpre.contains(y) && key_eq(y, cv) {
                    let y = choose|y: LocalCrateV| outpre.contains(y) && key_eq(y, cv);
                    assert(crates_view(out@) == outpre);
                    assert(crates_view(out@).contains(y) && key_eq(
                        y,
                        spec_descriptor(gv, idx as int),
                    ));
                } else {
                    // The new descriptor is the first visited index with its
                    // key: an earlier one would already have a representative.
                    assert forall|j2: int|
                        0 <= j2 < idx as int && (#[trigger] vis@[j2]) implies !key_eq(
                        spec_descriptor(gv, j2),
                        cv,
                    ) by {
                        if key_eq(spec_descriptor(gv, j2), cv) {
                            let y2 = choose|y2: LocalCrateV|
                                outpre.contains(y2) && key_eq(y2, spec_descriptor(gv, j2));
                            assert(key_eq(y2, cv));
                        }
                    }
                    assert(vfirst_at(gv, vis@, cv, idx as int));
                    assert(crates_view(out@).contains(cv));
                }
            }
        }
        idx = idx + 1;
    }

    proof {
        let v = crates_view(out@);
        assert(repr_post(gv, roots, v)) by {
            reveal(repr_post);
            assert forall|c: LocalCrateV| #[trigger] v.contains(c) implies exists|j: int|
                first_repr_at(gv, roots, c, j) by {
                reveal(first_repr_at);
                let j = choose|j: int| vfirst_at(gv, vis@, c, j);
                assert(in_closure(gv, roots, j));
                assert forall|j2: int|
                    0 <= j2 < j && #[trigger] in_closure(gv, roots, j2) implies !key_eq(
                    spec_descriptor(gv, j2),
                    c,
                ) by {
                    assert(vis@[j2]);
                }
                assert(first_repr_at(gv, roots, c, j));
            }
        }
        assert(cover_post(gv, roots, v)) by {
            reveal(cover_post);
            assert forall|j: int| #[trigger] in_closure(gv, roots, j) implies contains_key_of(
                v,
                spec_descriptor(gv, j),
            ) by {
                reveal(contains_key_of);
                assert(vis@[j]);
            }
        }
        assert(closure_post(gv, roots, v));
        assert forall|r2: int|
            0 <= r2 < names@.len() implies !(#[trigger] unresolvable(
            *g,
            names_view(names@)[r2],
        )) by {
            assert(names_view(names@)[r2] == roots[r2]);
            assert(resolves_to(gv, roots[r2], roots_idx@[r2] as int));
            assert(name_matches(g.packages@[roots_idx@[r2] as int], names_view(names@)[r2]));
        }
    }
    Ok(out)
}

/// The closure of one requested name: what the resolver contributes for a
/// single root. Succeeds only when the name (and every reachable local
/// dependency name) resolves; a name that resolves to nothing is the fatal
/// lookup error, never an empty result.
pub fn get_local_dependencies_of_crate(g: &PackageGraph, krate: &str) -> (r: Result<
    Vec<LocalCrate>,
    LookupError,
>)
    ensures
        match r {
            Ok(v) => closure_post(*g, seq![krate@], crates_view(v@)) && !unresolvable(*g, krate@),
            Err(e) => lookup_failure(*g, seq![krate@], e.name@),
        },
{
    let mut names: Vec<String> = Vec::new();
    names.push(krate.to_owned());
    proof {
        assert(names_view(names@) =~= seq![krate@]);
    }
    let r = find_crates_to_copy(g, &names);
    proof {
        if r is Ok {
            assert(names_view(names@)[0] == krate@);
            assert(!unresolvable(*g, names_view(names@)[0]));
        }
    }
    r
}

/// No duplicates: no two members of a closure result share the identity key
/// `(name, root_path)`.
pub proof fn lemma_closure_no_duplicates(
    g: PackageGraph,
    roots: Seq<Seq<char>>,
    v: Seq<LocalCrateV>,
)
    requires
        closure_post(g, roots, v),
    ensures
        forall|p: int, q: int| 0 <= p < q < v.len() ==> !key_eq(#[trigger] v[p], #[trigger] v[q]),
{
    assert forall|p: int, q: int| 0 <= p < q < v.len() implies !key_eq(
        #[trigger] v[p],
        #[trigger] v[q],
    ) by {
        lemma_key_trichotomy(v[p], v[q]);
    }
}

/// Reflexivity: every explicitly requested package name appears in the
/// closure — the package it resolves to has a member carrying its key.
pub proof fn lemma_closure_reflexive(
    g: PackageGraph,
    roots: Seq<Seq<char>>,
    v: Seq<LocalCrateV>,
    r: int,
    i: int,
)
    requires
        closure_post(g, roots, v),
        0 <= r < roots.len(),
        resolves_to(g, roots[r], i),
    ensures
        exists|c: LocalCrateV| v.contains(c) && key_eq(c, spec_descriptor(g, i)),
{
    assert(in_closure(g, roots, i)) by {
        reveal(reachable_k);
        reveal(locally_reachable);
        reveal(in_closure);
        assert(reachable_k(g, i, i, 0));
        assert(locally_reachable(g, i, i));
    }
    let y = lemma_cover_witness(g, roots, v, i);
}

/// Local-only membership: every member of the closure is the descriptor of a
/// package reachable from a requested root through an all-local path; a
/// package reachable only across an externally-sourced edge has no such path
/// and so is excluded.
pub proof fn lemma_local_only_membership(
    g: PackageGraph,
    roots: Seq<Seq<char>>,
    v: Seq<LocalCrateV>,
    c: LocalCrateV,
)
    requires
        closure_post(g, roots, v),
        v.contains(c),
    ensures
        exists|j: int| #[trigger] in_closure(g, roots, j) && c == spec_descriptor(g, j),
{
    let j = lemma_member_repr(g, roots, v, c);
    assert(in_closure(g, roots, j) && c == spec_descriptor(g, j));
}

proof fn lemma_tail_contains(v1: Seq<LocalCrateV>, v2: Seq<LocalCrateV>, c: LocalCrateV)
    requires
        sorted_strict(v1),
        sorted_strict(v2),
        forall|x: LocalCrateV| v1.contains(x) <==> v2.contains(x),
        v1.len() > 0,
        v2.len() > 0,
        v1[0] == v2[0],
        v1.skip(1).contains(c),
    ensures
        v2.skip(1).contains(c),
{
    let t = choose|t: int| 0 <= t < v1.skip(1).len() && v1.skip(1)[t] == c;
    assert(v1[t + 1] == c);
    assert(v1.contains(c));
    assert(v2.contains(c));
    let q = choose|q: int| 0 <= q < v2.len() && v2[q] == c;
    if q == 0 {
        assert(key_lt(v1[0], v1[t + 1]));
        lemma_key_trichotomy(v1[0], v1[0]);
    } else {
        assert(v2.skip(1)[q - 1] == c);
        assert(v2.skip(1).contains(c));
    }
}

proof fn lemma_sorted_unique(v1: Seq<LocalCrateV>, v2: Seq<LocalCrateV>)
    requires
        sorted_strict(v1),
        sorted_strict(v2),
        forall|x: LocalCrateV| v1.contains(x) <==> v2.contains(x),
    ensures
        v1 == v2,
    decreases v1.len(),
{
    if v1.len() == 0 {
        if v2.len() > 0 {
            assert(v2.contains(v2[0]));
            assert(v1.contains(v2[0]));
        }
        assert(v1 =~= v2);
    } else {
        assert(v1.contains(v1[0]));
        assert(v2.contains(v1[0]));
        let q = choose|q: int| 0 <= q < v2.len() && v2[q] == v1[0];
        assert(v2.contains(v2[0]));
        assert(v1.contains(v2[0]));
        let p = choose|p: int| 0 <= p < v1.len() && v1[p] == v2[0];
        if q > 0 {
            assert(key_lt(v2[0], v1[0]));
            if p > 0 {
                assert(key_lt(v1[0], v2[0]));
                lemma_key_trans(v1[0], v2[0], v1[0]);
            }
            lemma_key_trichotomy(v1[0], v1[0]);
        }
        let t1 = v1.skip(1);
        let t2 = v2.skip(1);
        assert(sorted_strict(t1)) by {
            assert forall|a: int, b: int| 0 <= a < b < t1.len() implies key_lt(
                #[trigger] t1[a],
                #[trigger] t1[b],
            ) by {
                assert(t1[a] == v1[a + 1] && t1[b] == v1[b + 1]);
            }
        }
        assert(sorted_strict(t2)) by {
            assert forall|a: int, b: int| 0 <= a < b < t2.len() implies key_lt(
                #[trigger] t2[a],
                #[trigger] t2[b],
            ) by {
                assert(t2[a] == v2[a + 1] && t2[b] == v2[b + 1]);
            }
        }
        assert forall|x: LocalCrateV| t1.contains(x) <==> t2.contains(x) by {
            if t1.contains(x) {
                lemma_tail_contains(v1, v2, x);
            }
            if t2.contains(x) {
                lemma_tail_contains(v2, v1, x);
            }
        }
        lemma_sorted_unique(t1, t2);
        assert forall|t: int| 0 <= t < v1.len() implies v1[t] == v2[t] by {
            if t > 0 {
                assert(t1[t - 1] == t2[t - 1]);
            }
        }
        assert(v1.len() == v2.len());
        assert(v1 =~= v2);
    }
}


#[verifier::rlimit(100)]
proof fn lemma_post_member(
    g: PackageGraph,
    roots: Seq<Seq<char>>,
    v1: Seq<LocalCrateV>,
    v2: Seq<LocalCrateV>,
    c: LocalCrateV,
)
    requires
        closure_post(g, roots, v1),
        closure_post(g, roots, v2),
        v1.contains(c),
    ensures
        v2.contains(c),
{
    let j = lemma_member_repr(g, roots, v1, c);
    let y = lemma_cover_witness(g, roots, v2, j);
    let j2 = lemma_member_repr(g, roots, v2, y);
    if j2 < j {
        assert(!key_eq(spec_descriptor(g, j2), c));
        assert(key_eq(spec_descriptor(g, j2), y));
    } else if j < j2 {
        assert(!key_eq(spec_descriptor(g, j), y));
    }
    assert(j == j2);
    assert(y == c);
}


/// Determinism: the resolver's contract pins its result completely, so two
/// closure computations over the same graph snapshot and the same requested
/// names yield identical member sequences.
#[verifier::rlimit(100)]
pub proof fn lemma_closure_deterministic(
    g: PackageGraph,
    roots: Seq<Seq<char>>,
    v1: Seq<LocalCrateV>,
    v2: Seq<LocalCrateV>,
)
    requires
        closure_post(g, roots, v1),
        closure_post(g, roots, v2),
    ensures
        v1 == v2,
{
    assert forall|x: LocalCrateV| v1.contains(x) <==> v2.contains(x) by {
        if v1.contains(x) {
            lemma_post_member(g, roots, v1, v2, x);
        }
        if v2.contains(x) {
            lemma_post_member(g, roots, v2, v1, x);
        }
    }
    lemma_sorted_unique(v1, v2);
}


} // verus!
