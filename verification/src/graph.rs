//! The package-graph snapshot that the resolver works on, and the descriptor
//! of one extracted package. The graph is a read-only, in-memory view of the
//! source tree's package metadata: each package carries its name, its
//! manifest location, its primary source-entry-point location, and its
//! declared dependencies, each flagged local (path-based) or external
//! (registry-based).
use vstd::prelude::*;

use crate::paths::{parent_dir, spec_dir_part};
use crate::strings::{seq_char_lt, str_eq};

verus! {

/// One declared dependency: its name, and whether it resolves via a
/// filesystem path (local) rather than a registry.
pub struct DepRef {
    pub name: String,
    pub is_local: bool,
}

/// One package of the graph snapshot.
pub struct GraphPackage {
    pub name: String,
    pub manifest_path: String,
    pub src_path: String,
    pub deps: Vec<DepRef>,
}

/// A single snapshot of the package graph, read-only for the duration of
/// one pipeline run.
pub struct PackageGraph {
    pub packages: Vec<GraphPackage>,
}

/// A member of the closure: the borrowed facts about one local package that
/// the materialization steps need. Identity and ordering key:
/// `(name, root_path)`.
#[derive(Debug)]
pub struct LocalCrate {
    pub name: String,
    pub root_path: String,
    pub lib_path: String,
    pub toml_path: String,
}

/// The mathematical value of a `LocalCrate`: its four fields as character
/// sequences.
#[verifier::ext_equal]
pub struct LocalCrateV {
    pub name: Seq<char>,
    pub root_path: Seq<char>,
    pub lib_path: Seq<char>,
    pub toml_path: Seq<char>,
}

impl View for LocalCrate {
    type V = LocalCrateV;

    open spec fn view(&self) -> LocalCrateV {
        LocalCrateV {
            name: self.name@,
            root_path: self.root_path@,
            lib_path: self.lib_path@,
            toml_path: self.toml_path@,
        }
    }
}

/// Whether package `p` answers to the requested name `q`: by its primary
/// name or by the alternate "lib"-prefixed alias.
pub open spec fn name_matches(p: GraphPackage, q: Seq<char>) -> bool {
    p.name@ == q || "lib"@ + p.name@ == q
}

/// `q` resolves to the package at index `i`: the first match in the snapshot.
pub open spec fn resolves_to(g: PackageGraph, q: Seq<char>, i: int) -> bool {
    &&& 0 <= i < g.packages@.len()
    &&& name_matches(g.packages@[i], q)
    &&& forall|j: int| 0 <= j < i ==> !name_matches(g.packages@[j], q)
}

/// Resolution is a partial function: a name resolves to at most one index.
pub proof fn lemma_resolves_to_unique(g: PackageGraph, q: Seq<char>, i: int, j: int)
    requires
        resolves_to(g, q, i),
        resolves_to(g, q, j),
    ensures
        i == j,
{
    if i < j {
        assert(!name_matches(g.packages@[i], q));
    }
    if j < i {
        assert(!name_matches(g.packages@[j], q));
    }
}

/// Look a package up by primary name or "lib"-prefixed alias; `None` exactly
/// when no package of the snapshot matches either form.
pub fn resolve_package(g: &PackageGraph, q: &str) -> (r: Option<usize>)
    ensures
        match r {
            Some(i) => resolves_to(*g, q@, i as int),
            None => forall|j: int|
                0 <= j < g.packages@.len() ==> !name_matches(g.packages@[j], q@),
        },
{
    let n = g.packages.len();
    let mut i: usize = 0;
    while i < n
        invariant
            n == g.packages@.len(),
            i <= n,
            forall|j: int| 0 <= j < i ==> !name_matches(g.packages@[j], q@),
        decreases n - i,
    {
        let p = &g.packages[i];
        if str_eq(p.name.as_str(), q) {
            return Some(i);
        }
        let mut alias = "lib".to_owned();
        alias.append(p.name.as_str());
        if str_eq(alias.as_str(), q) {
            return Some(i);
        }
        proof {
            assert(!name_matches(g.packages@[i as int], q@));
        }
        i = i + 1;
    }
    None
}

/// The descriptor of the package at index `i`: its root directory is its
/// manifest's directory.
pub open spec fn spec_descriptor(g: PackageGraph, i: int) -> LocalCrateV {
    LocalCrateV {
        name: g.packages@[i].name@,
        root_path: spec_dir_part(g.packages@[i].manifest_path@),
        lib_path: g.packages@[i].src_path@,
        toml_path: g.packages@[i].manifest_path@,
    }
}

/// Build the descriptor of the package at index `i`.
pub fn make_descriptor(g: &PackageGraph, i: usize) -> (c: LocalCrate)
    requires
        i < g.packages@.len(),
    ensures
        c@ == spec_descriptor(*g, i as int),
{
    let p = &g.packages[i];
    LocalCrate {
        name: p.name.clone(),
        root_path: parent_dir(p.manifest_path.as_str()),
        lib_path: p.src_path.clone(),
        toml_path: p.manifest_path.clone(),
    }
}

/// Strict order on descriptors: lexicographic on the identity key
/// `(name, root_path)`.
pub open spec fn key_lt(a: LocalCrateV, b: LocalCrateV) -> bool {
    seq_char_lt(a.name, b.name) || (a.name == b.name && seq_char_lt(a.root_path, b.root_path))
}

/// Two descriptors share the identity key.
pub open spec fn key_eq(a: LocalCrateV, b: LocalCrateV) -> bool {
    a.name == b.name && a.root_path == b.root_path
}

/// The key order is a strict total order over keys.
pub proof fn lemma_key_trichotomy(a: LocalCrateV, b: LocalCrateV)
    ensures
        key_lt(a, b) || key_eq(a, b) || key_lt(b, a),
        key_lt(a, b) ==> !key_eq(a, b) && !key_lt(b, a),
        key_eq(a, b) ==> !key_lt(a, b),
{
    crate::strings::lemma_seq_char_lt_trichotomy(a.name, b.name);
    crate::strings::lemma_seq_char_lt_trichotomy(a.root_path, b.root_path);
}

/// The key order is transitive.
pub proof fn lemma_key_trans(a: LocalCrateV, b: LocalCrateV, c: LocalCrateV)
    requires
        key_lt(a, b),
        key_lt(b, c),
    ensures
        key_lt(a, c),
{
    if seq_char_lt(a.name, b.name) && seq_char_lt(b.name, c.name) {
        crate::strings::lemma_seq_char_lt_trans(a.name, b.name, c.name);
    } else if a.name == b.name && b.name == c.name {
        crate::strings::lemma_seq_char_lt_trans(a.root_path, b.root_path, c.root_path);
    }
}

} // verus!
