//! The manifest rewriter: the destination copy of a package's manifest is
//! read as a generic structured key-value document, its declared package
//! name is renamed under the namespace-prefix transform, every local
//! (path-based) dependency entry gets its import alias forced to the
//! transformed form, and everything else is carried through unchanged.
//! Parsing and serialization are toml's work, behind a trusted boundary;
//! the rewrite itself is verified against an exact document-level spec.
use vstd::prelude::*;

use crate::rename::{apply_namespace_prefix, spec_apply_prefix};
use crate::strings::str_eq;
use toml::Value;

verus! {

broadcast use vstd::std_specs::vec::group_vec_axioms;

/// The library's model of a structured manifest document. Float and
/// datetime leaves are carried as their canonical text: this tool never
/// reads them, only copies them through.
pub enum Doc {
    Text(String),
    Int(i64),
    Boolean(bool),
    FloatText(String),
    DatetimeText(String),
    Arr(Vec<Doc>),
    Tbl(Vec<(String, Doc)>),
}

/// The mathematical value of a document.
#[verifier::ext_equal]
pub enum DocV {
    Text(Seq<char>),
    Int(i64),
    Boolean(bool),
    FloatText(Seq<char>),
    DatetimeText(Seq<char>),
    Arr(Seq<DocV>),
    Tbl(Seq<(Seq<char>, DocV)>),
}

/// The view of a document: every string as a character sequence.
pub open spec fn doc_view(d: Doc) -> DocV
    decreases d,
{
    match d {
        Doc::Text(s) => DocV::Text(s@),
        Doc::Int(i) => DocV::Int(i),
        Doc::Boolean(b) => DocV::Boolean(b),
        Doc::FloatText(s) => DocV::FloatText(s@),
        Doc::DatetimeText(s) => DocV::DatetimeText(s@),
        Doc::Arr(items) => DocV::Arr(
            Seq::new(
                items@.len(),
                |i: int|
                    if 0 <= i < items@.len() {
                        doc_view(items@[i])
                    } else {
                        DocV::Int(0)
                    },
            ),
        ),
        Doc::Tbl(entries) => DocV::Tbl(
            Seq::new(
                entries@.len(),
                |i: int|
                    if 0 <= i < entries@.len() {
                        (entries@[i].0@, doc_view(entries@[i].1))
                    } else {
                        (Seq::empty(), DocV::Int(0))
                    },
            ),
        ),
    }
}

impl View for Doc {
    type V = DocV;

    open spec fn view(&self) -> DocV {
        doc_view(*self)
    }
}

/// The view of a table's entry list.
pub open spec fn tbl_view(entries: Seq<(String, Doc)>) -> Seq<(Seq<char>, DocV)> {
    Seq::new(entries.len(), |i: int| (entries[i].0@, doc_view(entries[i].1)))
}

/// Why a manifest cannot be rewritten. All are fatal to the run.
#[derive(Debug, PartialEq, Eq)]
pub enum ManifestError {
    /// The document text does not parse.
    Unparseable,
    /// The document's top level is not a table.
    NotATable,
    /// The document has no package table.
    NoPackageTable,
    /// The package entry is not a table.
    PackageNotTable,
    /// The package table has no name entry.
    NoPackageName,
    /// The package name is not a string.
    PackageNameNotText,
    /// The rewritten document cannot be serialized back to text.
    Unserializable,
}

/// The value under the first entry named `k`, if any.
pub open spec fn tblv_get(es: Seq<(Seq<char>, DocV)>, k: Seq<char>) -> Option<DocV>
    decreases es.len(),
{
    if es.len() == 0 {
        None
    } else if es[0].0 == k {
        Some(es[0].1)
    } else {
        tblv_get(es.skip(1), k)
    }
}

/// Write `val` under `k`: overwrite the first entry named `k` in place, or
/// append a new entry when none exists.
pub open spec fn tblv_set(es: Seq<(Seq<char>, DocV)>, k: Seq<char>, val: DocV) -> Seq<
    (Seq<char>, DocV),
>
    decreases es.len(),
{
    if es.len() == 0 {
        seq![(k, val)]
    } else if es[0].0 == k {
        seq![(es[0].0, val)] + es.skip(1)
    } else {
        seq![es[0]] + tblv_set(es.skip(1), k, val)
    }
}

proof fn lemma_tblv_get_first(es: Seq<(Seq<char>, DocV)>, k: Seq<char>, i: int)
    requires
        0 <= i < es.len(),
        es[i].0 == k,
        forall|j: int| 0 <= j < i ==> (#[trigger] es[j]).0 != k,
    ensures
        tblv_get(es, k) == Some(es[i].1),
    decreases i,
{
    if i > 0 {
        lemma_tblv_get_first(es.skip(1), k, i - 1);
    }
}

proof fn lemma_tblv_get_none(es: Seq<(Seq<char>, DocV)>, k: Seq<char>)
    requires
        forall|j: int| 0 <= j < es.len() ==> (#[trigger] es[j]).0 != k,
    ensures
        tblv_get(es, k) is None,
    decreases es.len(),
{
    if es.len() > 0 {
        lemma_tblv_get_none(es.skip(1), k);
    }
}

proof fn lemma_tblv_set_first(es: Seq<(Seq<char>, DocV)>, k: Seq<char>, val: DocV, i: int)
    requires
        0 <= i < es.len(),
        es[i].0 == k,
        forall|j: int| 0 <= j < i ==> (#[trigger] es[j]).0 != k,
    ensures
        tblv_set(es, k, val) =~= es.update(i, (es[i].0, val)),
    decreases i,
{
    if i == 0 {
        assert(tblv_set(es, k, val) =~= es.update(0, (es[0].0, val)));
    } else {
        lemma_tblv_set_first(es.skip(1), k, val, i - 1);
        assert(es.skip(1)[i - 1] == es[i]);
        assert(tblv_set(es, k, val) =~= es.update(i, (es[i].0, val)));
    }
}

proof fn lemma_tblv_set_none(es: Seq<(Seq<char>, DocV)>, k: Seq<char>, val: DocV)
    requires
        forall|j: int| 0 <= j < es.len() ==> (#[trigger] es[j]).0 != k,
    ensures
        tblv_set(es, k, val) =~= es.push((k, val)),
    decreases es.len(),
{
    if es.len() > 0 {
        lemma_tblv_set_none(es.skip(1), k, val);
    }
}

/// The rewrite of one dependency entry: a table with a `path` key (a local
/// dependency) gets its `package` alias forced to the transformed form of
/// its explicit alias, or of its key name when no alias is declared; every
/// other entry is untouched.
pub open spec fn spec_rewrite_dep(key: Seq<char>, v: DocV, oldp: Seq<char>, newp: Seq<char>) -> DocV {
    match v {
        DocV::Tbl(dt) => {
            if tblv_get(dt, "path"@) is Some {
                let base = match tblv_get(dt, "package"@) {
                    Some(DocV::Text(s)) => s,
                    _ => key,
                };
                DocV::Tbl(tblv_set(dt, "package"@, DocV::Text(spec_apply_prefix(base, oldp, newp))))
            } else {
                v
            }
        },
        _ => v,
    }
}

/// The rewrite of the top-level entry list's dependency table, when there is
/// one and it is a table; otherwise the list is unchanged.
pub open spec fn spec_rewrite_deps(
    es: Seq<(Seq<char>, DocV)>,
    oldp: Seq<char>,
    newp: Seq<char>,
) -> Seq<(Seq<char>, DocV)> {
    match tblv_get(es, "dependencies"@) {
        Some(DocV::Tbl(ds)) => tblv_set(
            es,
            "dependencies"@,
            DocV::Tbl(Seq::new(ds.len(), |i: int| (ds[i].0, spec_rewrite_dep(ds[i].0, ds[i].1, oldp, newp)))),
        ),
        _ => es,
    }
}

/// The whole manifest rewrite over the document model: rename the declared
/// package name under the namespace-prefix transform, rewrite every local
/// dependency's alias, and keep everything else exactly; each structurally
/// missing required field is the stated fatal error.
pub open spec fn spec_rewrite_doc(d: DocV, oldp: Seq<char>, newp: Seq<char>) -> Result<
    DocV,
    ManifestError,
> {
    match d {
        DocV::Tbl(es) => match tblv_get(es, "package"@) {
            Some(DocV::Tbl(pes)) => match tblv_get(pes, "name"@) {
                Some(DocV::Text(n)) => {
                    let pes2 = tblv_set(pes, "name"@, DocV::Text(spec_apply_prefix(n, oldp, newp)));
                    let es2 = tblv_set(es, "package"@, DocV::Tbl(pes2));
                    Ok(DocV::Tbl(spec_rewrite_deps(es2, oldp, newp)))
                },
                Some(_) => Err(ManifestError::PackageNameNotText),
                None => Err(ManifestError::NoPackageName),
            },
            Some(_) => Err(ManifestError::PackageNotTable),
            None => Err(ManifestError::NoPackageTable),
        },
        _ => Err(ManifestError::NotATable),
    }
}

/// The views of a table's entries are the entries' views.
proof fn lemma_tbl_view(entries: Vec<(String, Doc)>)
    ensures
        doc_view(Doc::Tbl(entries)) == DocV::Tbl(tbl_view(entries@)),
{
    let a = doc_view(Doc::Tbl(entries));
    assert(a matches DocV::Tbl(s) && s =~= tbl_view(entries@));
}

/// What toml's parser yields on a manifest text, carried into the document
/// model: a function of the text alone.
pub uninterp spec fn parsed_manifest(s: Seq<char>) -> Option<DocV>;

/// What toml's serializer yields on a document: a function of the document
/// alone — the printed text, or `None` for a document toml cannot print.
pub uninterp spec fn manifest_text_of(d: DocV) -> Option<Seq<char>>;

#[verifier::external_type_specification]
#[verifier::external_body]
pub struct ExTomlValue(toml::Value);

/// Carries toml's value tree into the document model, one arm per variant,
/// moving fields only; float and datetime leaves are kept as the canonical
/// text that toml itself prints for them. Part of the trusted parse
/// boundary: only `parse_manifest_text` calls it.
#[verifier::external_body]
fn value_to_doc(v: Value) -> Doc {
    match v {
        Value::String(s) => Doc::Text(s),
        Value::Integer(i) => Doc::Int(i),
        Value::Boolean(b) => Doc::Boolean(b),
        Value::Float(f) => Doc::FloatText(f.to_string()),
        Value::Datetime(d) => Doc::DatetimeText(d.to_string()),
        Value::Array(a) => Doc::Arr(a.into_iter().map(value_to_doc).collect()),
        Value::Table(t) => Doc::Tbl(t.into_iter().map(|(k, x)| (k, value_to_doc(x))).collect()),
    }
}

/// Carries the document model back into toml's value tree, one arm per
/// variant, moving fields only; float and datetime leaves are re-parsed from
/// their text. Part of the trusted serialize boundary: only
/// `serialize_manifest_doc` calls it.
#[verifier::external_body]
fn doc_to_value(d: Doc) -> Result<Value, ManifestError> {
    Ok(match d {
        Doc::Text(s) => Value::String(s),
        Doc::Int(i) => Value::Integer(i),
        Doc::Boolean(b) => Value::Boolean(b),
        Doc::FloatText(s) => Value::Float(s.parse().map_err(|_| ManifestError::Unserializable)?),
        Doc::DatetimeText(s) => Value::Datetime(s.parse().map_err(|_| ManifestError::Unserializable)?),
        Doc::Arr(a) => Value::Array(a.into_iter().map(doc_to_value).collect::<Result<_, _>>()?),
        Doc::Tbl(t) => Value::Table(t.into_iter().map(|(k, x)| Ok((k, doc_to_value(x)?))).collect::<Result<_, _>>()?),
    })
}

/// Relies on toml's parser (`str::parse::<toml::Value>`): deterministic in
/// the text alone; its result, carried into the document model, is named
/// `parsed_manifest`. `None` exactly when the text does not parse.
#[verifier::external_body]
fn parse_manifest_text(s: &str) -> (r: Option<Doc>)
    ensures
        match r {
            Some(d) => parsed_manifest(s@) == Some(d@),
            None => parsed_manifest(s@) is None,
        },
{
    match s.parse::<toml::Value>() {
        Ok(v) => Some(value_to_doc(v)),
        Err(_) => None,
    }
}

/// Relies on toml::to_string: deterministic in the value alone, succeeding
/// or failing as a function of the value alone; its outcome is named
/// `manifest_text_of`, tied on both branches. `Err` when toml cannot
/// serialize the value (or a float/datetime leaf no longer parses).
#[verifier::external_body]
fn serialize_manifest_doc(d: Doc) -> (r: Result<String, ManifestError>)
    ensures
        match r {
            Ok(t) => manifest_text_of(d@) == Some(t@),
            Err(e) => manifest_text_of(d@) is None && e == ManifestError::Unserializable,
        },
{
    let v = match doc_to_value(d) {
        Ok(v) => v,
        Err(e) => return Err(e),
    };
    match toml::to_string(&v) {
        Ok(t) => Ok(t),
        Err(_) => Err(ManifestError::Unserializable),
    }
}

/// The first entry of `entries` named `key`, if any.
fn tbl_get_index(entries: &Vec<(String, Doc)>, key: &str) -> (r: Option<usize>)
    ensures
        match r {
            Some(i) => (i as int) < entries@.len() && entries@[i as int].0@ == key@ && forall|
                j: int,
            | 0 <= j < i ==> (#[trigger] entries@[j]).0@ != key@,
            None => forall|j: int| 0 <= j < entries@.len() ==> (#[trigger] entries@[j]).0@ != key@,
        },
{
    let n = entries.len();
    let mut i: usize = 0;
    while i < n
        invariant
            n == entries@.len(),
            i <= n,
            forall|j: int| 0 <= j < i ==> (#[trigger] entries@[j]).0@ != key@,
        decreases n - i,
    {
        if str_eq(entries[i].0.as_str(), key) {
            return Some(i);
        }
        i = i + 1;
    }
    None
}

/// Removing an entry and re-inserting at the same place is an update.
proof fn lemma_remove_insert<T>(s: Seq<T>, i: int, x: T)
    requires
        0 <= i < s.len(),
    ensures
        s.remove(i).insert(i, x) =~= s.update(i, x),
{
}

/// Rewrite one dependency entry of the manifest: force the import alias of a
/// local (path-keyed) dependency to the namespace-transformed form; leave
/// every other entry untouched.
pub fn rewrite_dep(key: &str, v: Doc, old_prefix: &str, new_prefix: &str) -> (r: Doc)
    ensures
        r@ == spec_rewrite_dep(key@, v@, old_prefix@, new_prefix@),
{
    match v {
        Doc::Tbl(dt) => {
            let mut dt = dt;
            let ghost dt0 = dt@;
            let ghost dv = tbl_view(dt@);
            proof {
                lemma_tbl_view(dt);
            }
            let path_idx = tbl_get_index(&dt, "path");
            match path_idx {
                Some(pi) => {
                    proof {
                        lemma_tblv_get_first(dv, "path"@, pi as int);
                    }
                    let pkg_idx = tbl_get_index(&dt, "package");
                    let base: String = match pkg_idx {
                        Some(i) => {
                            proof {
                                lemma_tblv_get_first(dv, "package"@, i as int);
                            }
                            match &dt[i].1 {
                                Doc::Text(s) => s.clone(),
                                _ => key.to_owned(),
                            }
                        },
                        None => {
                            proof {
                                lemma_tblv_get_none(dv, "package"@);
                            }
                            key.to_owned()
                        },
                    };
                    let newname = apply_namespace_prefix(base.as_str(), old_prefix, new_prefix);
                    let ghost newv = DocV::Text(newname@);
                    match pkg_idx {
                        Some(i) => {
                            proof {
                                lemma_tblv_set_first(dv, "package"@, newv, i as int);
                            }
                            let (k2, _old) = dt.remove(i);
                            dt.insert(i, (k2, Doc::Text(newname)));
                            proof {
                                lemma_remove_insert(dt0, i as int, (dt0[i as int].0, Doc::Text(newname)));
                                assert(dt@ =~= dt0.update(i as int, (dt0[i as int].0, Doc::Text(newname))));
                                assert(tbl_view(dt@) =~= tblv_set(dv, "package"@, newv));
                            }
                        },
                        None => {
                            proof {
                                lemma_tblv_set_none(dv, "package"@, newv);
                            }
                            dt.push(("package".to_owned(), Doc::Text(newname)));
                            proof {
                                assert(dt@ =~= dt0.push((dt@[dt0.len() as int].0, Doc::Text(newname))));
                                assert(tbl_view(dt@) =~= tblv_set(dv, "package"@, newv));
                            }
                        },
                    }
                    proof {
                        lemma_tbl_view(dt);
                    }
                    Doc::Tbl(dt)
                },
                None => {
                    proof {
                        lemma_tblv_get_none(dv, "path"@);
                    }
                    Doc::Tbl(dt)
                },
            }
        },
        other => other,
    }
}

/// The whole rewrite over manifest text: parse, rewrite the document,
/// serialize. `Err` exactly on the spec's structural errors, plus
/// `Unserializable` when toml cannot print the rewritten document.
pub open spec fn spec_rewrite_manifest(t: Seq<char>, oldp: Seq<char>, newp: Seq<char>) -> Result<
    DocV,
    ManifestError,
> {
    match parsed_manifest(t) {
        Some(d) => spec_rewrite_doc(d, oldp, newp),
        None => Err(ManifestError::Unparseable),
    }
}

/// Rewrite a parsed manifest document: rename the declared package name
/// under the namespace-prefix transform and force every local dependency's
/// alias to its transformed form, leaving all other entries exactly as they
/// were. Errs exactly as the document-level spec says.
pub fn rewrite_doc(doc: Doc, old_prefix: &str, new_prefix: &str) -> (r: Result<Doc, ManifestError>)
    ensures
        match r {
            Ok(d) => spec_rewrite_doc(doc@, old_prefix@, new_prefix@) == Ok::<DocV, ManifestError>(
                d@,
            ),
            Err(e) => spec_rewrite_doc(doc@, old_prefix@, new_prefix@) == Err::<
                DocV,
                ManifestError,
            >(e),
        },
{
    let ghost op = old_prefix@;
    let ghost np = new_prefix@;
    let mut es = match doc {
        Doc::Tbl(es) => es,
        _ => {
            return Err(ManifestError::NotATable);
        },
    };
    let ghost es0 = es@;
    let ghost ev = tbl_view(es@);
    proof {
        lemma_tbl_view(es);
    }
    let pi = match tbl_get_index(&es, "package") {
        Some(i) => i,
        None => {
            proof {
                lemma_tblv_get_none(ev, "package"@);
            }
            return Err(ManifestError::NoPackageTable);
        },
    };
    proof {
        lemma_tblv_get_first(ev, "package"@, pi as int);
    }
    let (pkey, pval) = es.remove(pi);
    let mut pes = match pval {
        Doc::Tbl(pes) => pes,
        _ => {
            return Err(ManifestError::PackageNotTable);
        },
    };
    let ghost pes0 = pes@;
    let ghost pv = tbl_view(pes@);
    proof {
        lemma_tbl_view(pes);
        assert(ev[pi as int].1 == DocV::Tbl(pv));
    }
    let ni = match tbl_get_index(&pes, "name") {
        Some(i) => i,
        None => {
            proof {
                lemma_tblv_get_none(pv, "name"@);
            }
            return Err(ManifestError::NoPackageName);
        },
    };
    proof {
        lemma_tblv_get_first(pv, "name"@, ni as int);
    }
    let (nkey, nval) = pes.remove(ni);
    let name_s = match nval {
        Doc::Text(s) => s,
        _ => {
            return Err(ManifestError::PackageNameNotText);
        },
    };
    let newname = apply_namespace_prefix(name_s.as_str(), old_prefix, new_prefix);
    let ghost pv2 = tblv_set(pv, "name"@, DocV::Text(spec_apply_prefix(name_s@, op, np)));
    pes.insert(ni, (nkey, Doc::Text(newname)));
    proof {
        lemma_remove_insert(pes0, ni as int, (pes0[ni as int].0, Doc::Text(newname)));
        assert(pes@ =~= pes0.update(ni as int, (pes0[ni as int].0, Doc::Text(newname))));
        lemma_tblv_set_first(pv, "name"@, DocV::Text(newname@), ni as int);
        assert(tbl_view(pes@) =~= pv2);
        lemma_tbl_view(pes);
    }
    let ghost ev2 = tblv_set(ev, "package"@, DocV::Tbl(pv2));
    es.insert(pi, (pkey, Doc::Tbl(pes)));
    proof {
        lemma_remove_insert(es0, pi as int, (es0[pi as int].0, Doc::Tbl(pes)));
        assert(es@ =~= es0.update(pi as int, (es0[pi as int].0, Doc::Tbl(pes))));
        lemma_tblv_set_first(ev, "package"@, DocV::Tbl(pv2), pi as int);
        assert(tbl_view(es@) =~= ev2);
    }
    let ghost es1 = es@;
    match tbl_get_index(&es, "dependencies") {
        Some(di) => {
            proof {
                lemma_tblv_get_first(ev2, "dependencies"@, di as int);
            }
            let (dkey, dval) = es.remove(di);
            match dval {
                Doc::Tbl(ds) => {
                    let mut ds = ds;
                    let ghost ds0 = ds@;
                    let ghost dsv = tbl_view(ds@);
                    proof {
                        lemma_tbl_view(ds);
                        assert(ev2[di as int].1 == DocV::Tbl(dsv));
                    }
                    let nds = ds.len();
                    let mut t: usize = 0;
                    while t < nds
                        invariant
                            op == old_prefix@,
                            np == new_prefix@,
                            nds == ds0.len(),
                            ds@.len() == ds0.len(),
                            t <= nds,
                            forall|j: int| t <= j < nds ==> ds@[j] == ds0[j],
                            forall|j: int|
                                0 <= j < t ==> (#[trigger] ds@[j]).0 == ds0[j].0 && doc_view(
                                    ds@[j].1,
                                ) == spec_rewrite_dep(ds0[j].0@, doc_view(ds0[j].1), op, np),
                        decreases nds - t,
                    {
                        let ghost dpre = ds@;
                        let (k, v) = ds.remove(t);
                        let v2 = rewrite_dep(k.as_str(), v, old_prefix, new_prefix);
                        ds.insert(t, (k, v2));
                        proof {
                            lemma_remove_insert(dpre, t as int, (dpre[t as int].0, ds@[t as int].1));
                            assert(ds@ =~= dpre.update(t as int, (dpre[t as int].0, ds@[t as int].1)));
                        }
                        t = t + 1;
                    }
                    let ghost dsv2 = Seq::new(
                        dsv.len(),
                        |i: int| (dsv[i].0, spec_rewrite_dep(dsv[i].0, dsv[i].1, op, np)),
                    );
                    proof {
                        assert(tbl_view(ds@) =~= dsv2);
                        lemma_tbl_view(ds);
                    }
                    es.insert(di, (dkey, Doc::Tbl(ds)));
                    proof {
                        lemma_remove_insert(es1, di as int, (es1[di as int].0, Doc::Tbl(ds)));
                        assert(es@ =~= es1.update(di as int, (es1[di as int].0, Doc::Tbl(ds))));
                        lemma_tblv_set_first(ev2, "dependencies"@, DocV::Tbl(dsv2), di as int);
                        assert(tbl_view(es@) =~= tblv_set(ev2, "dependencies"@, DocV::Tbl(dsv2)));
                        assert(tbl_view(es@) =~= spec_rewrite_deps(ev2, op, np));
                        lemma_tbl_view(es);
                    }
                    Ok(Doc::Tbl(es))
                },
                other => {
                    es.insert(di, (dkey, other));
                    proof {
                        lemma_remove_insert(es1, di as int, (es1[di as int].0, es1[di as int].1));
                        assert(es@ =~= es1);
                        assert(tbl_view(es@) =~= spec_rewrite_deps(ev2, op, np));
                        lemma_tbl_view(es);
                    }
                    Ok(Doc::Tbl(es))
                },
            }
        },
        None => {
            proof {
                lemma_tblv_get_none(ev2, "dependencies"@);
                assert(tbl_view(es@) =~= spec_rewrite_deps(ev2, op, np));
                lemma_tbl_view(es);
            }
            Ok(Doc::Tbl(es))
        },
    }
}

/// Rewrite one destination manifest's text in full: parse it, apply the
/// package self-rename and the local dependency alias rewrite, and serialize
/// the result, which replaces the destination manifest's prior content.
/// Succeeds exactly when the text parses, the document has the required
/// fields, and toml can print the rewritten document; each failure is the
/// stated error.
pub fn rewrite_manifest(text: &str, old_prefix: &str, new_prefix: &str) -> (r: Result<
    String,
    ManifestError,
>)
    ensures
        match r {
            Ok(s) => spec_rewrite_manifest(text@, old_prefix@, new_prefix@) matches Ok(dv)
                && manifest_text_of(dv) == Some(s@),
            Err(e) => spec_rewrite_manifest(text@, old_prefix@, new_prefix@) == Err::<
                DocV,
                ManifestError,
            >(e) || (e == ManifestError::Unserializable && (match spec_rewrite_manifest(
                text@,
                old_prefix@,
                new_prefix@,
            ) {
                Ok(dv) => manifest_text_of(dv) is None,
                Err(_) => false,
            })),
        },
        spec_rewrite_manifest(text@, old_prefix@, new_prefix@) matches Err(e2) ==> r == Err::<
            String,
            ManifestError,
        >(e2),
        (match spec_rewrite_manifest(text@, old_prefix@, new_prefix@) {
            Ok(dv) => manifest_text_of(dv) is Some,
            Err(_) => false,
        }) ==> r is Ok,
{
    let doc = match parse_manifest_text(text) {
        Some(d) => d,
        None => {
            return Err(ManifestError::Unparseable);
        },
    };
    let doc2 = match rewrite_doc(doc, old_prefix, new_prefix) {
        Ok(d) => d,
        Err(e) => {
            return Err(e);
        },
    };
    serialize_manifest_doc(doc2)
}

} // verus!
