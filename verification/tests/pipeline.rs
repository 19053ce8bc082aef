use crate_extract::closure::{find_crates_to_copy, get_local_dependencies_of_crate};
use crate_extract::graph::{DepRef, GraphPackage, LocalCrate, PackageGraph};
use crate_extract::inject::{add_rustc_private_feature, needs_rustc_private_feature, rustc_private_allow_list};
use crate_extract::manifest::{rewrite_manifest, ManifestError};
use crate_extract::paths::{file_name, parent_dir, reroot_path};
use crate_extract::rename::{add_rustfmt_prefix, apply_namespace_prefix};
use crate_extract::workspace::workspace_descriptor;

fn pkg(name: &str, root: &str, deps: &[(&str, bool)]) -> GraphPackage {
    GraphPackage {
        name: name.to_owned(),
        manifest_path: format!("{}/Cargo.toml", root),
        src_path: format!("{}/src/lib.rs", root),
        deps: deps
            .iter()
            .map(|(n, l)| DepRef { name: (*n).to_owned(), is_local: *l })
            .collect(),
    }
}

fn names(v: &[LocalCrate]) -> Vec<String> {
    v.iter().map(|c| c.name.clone()).collect()
}

#[test]
fn scenario_local_and_registry_deps() {
    // Package A depends on B locally and on C from a registry; requesting A
    // yields {A, B} and the descriptor lists both, C is excluded.
    let g = PackageGraph {
        packages: vec![
            pkg("A", "/src/a", &[("B", true), ("C", false)]),
            pkg("B", "/src/b", &[]),
            pkg("C", "/src/c", &[]),
        ],
    };
    let v = find_crates_to_copy(&g, &vec!["A".to_owned()]).unwrap();
    assert_eq!(names(&v), vec!["A".to_owned(), "B".to_owned()]);
    let desc = workspace_descriptor(&v);
    assert_eq!(desc, "[workspace]\nmembers = [\n  \"a\",\n  \"b\",\n]\n");

    let a_manifest = "[package]\nname = \"A\"\n\n[dependencies]\nB = { path = \"../b\" }\nC = \"1.0\"\n";
    let out_a = rewrite_manifest(a_manifest, "host_", "tool_").unwrap();
    assert!(out_a.contains("name = \"tool_A\""));
    assert!(out_a.contains("package = \"tool_B\""));
    assert!(out_a.contains("C = \"1.0\""));

    let b_manifest = "[package]\nname = \"B\"\n";
    let out_b = rewrite_manifest(b_manifest, "host_", "tool_").unwrap();
    assert!(out_b.contains("name = \"tool_B\""));
}

#[test]
fn scenario_allow_listed_package_gains_directive() {
    let allow = rustc_private_allow_list();
    assert!(needs_rustc_private_feature(&allow, "rustc_session"));
    assert!(needs_rustc_private_feature(&allow, "rustc_data_structures"));
    assert!(!needs_rustc_private_feature(&allow, "rustfmt_core"));
    let content = "fn main() {}\n";
    let out = add_rustc_private_feature(content);
    assert_eq!(out, "#![feature(rustc_private)]\nfn main() {}\n");
    assert_eq!(out.lines().next().unwrap(), "#![feature(rustc_private)]");
}

#[test]
fn rename_transform_examples() {
    assert_eq!(apply_namespace_prefix("host_foo", "host_", "tool_"), "tool_foo");
    assert_eq!(apply_namespace_prefix("bar", "host_", "tool_"), "tool_bar");
    // Applied at most once per leading-token match: the rest is untouched.
    assert_eq!(apply_namespace_prefix("host_host_x", "host_", "tool_"), "tool_host_x");
    assert_eq!(add_rustfmt_prefix("rustc_span"), "rustfmt_span");
    assert_eq!(add_rustfmt_prefix("config"), "rustfmt_config");
}

#[test]
fn closure_deduplicates_shared_dependency() {
    let g = PackageGraph {
        packages: vec![
            pkg("A", "/src/a", &[("D", true)]),
            pkg("B", "/src/b", &[("D", true)]),
            pkg("D", "/src/d", &[]),
        ],
    };
    let v = find_crates_to_copy(&g, &vec!["A".to_owned(), "B".to_owned()]).unwrap();
    assert_eq!(names(&v), vec!["A".to_owned(), "B".to_owned(), "D".to_owned()]);
    for i in 0..v.len() {
        for j in 0..v.len() {
            if i != j {
                assert!(v[i].name != v[j].name || v[i].root_path != v[j].root_path);
            }
        }
    }
}

#[test]
fn closure_is_deterministic() {
    let g = PackageGraph {
        packages: vec![
            pkg("Z", "/src/z", &[("M", true)]),
            pkg("M", "/src/m", &[("Q", true)]),
            pkg("Q", "/src/q", &[]),
        ],
    };
    let v1 = find_crates_to_copy(&g, &vec!["Z".to_owned()]).unwrap();
    let v2 = find_crates_to_copy(&g, &vec!["Z".to_owned()]).unwrap();
    assert_eq!(v1.len(), v2.len());
    for i in 0..v1.len() {
        assert_eq!(v1[i].name, v2[i].name);
        assert_eq!(v1[i].root_path, v2[i].root_path);
        assert_eq!(v1[i].lib_path, v2[i].lib_path);
        assert_eq!(v1[i].toml_path, v2[i].toml_path);
    }
}

#[test]
fn closure_transitive_and_local_only() {
    // E is reachable from A only across an external edge: excluded.
    let g = PackageGraph {
        packages: vec![
            pkg("A", "/src/a", &[("B", true), ("E", false)]),
            pkg("B", "/src/b", &[("C", true)]),
            pkg("C", "/src/c", &[]),
            pkg("E", "/src/e", &[("F", true)]),
            pkg("F", "/src/f", &[]),
        ],
    };
    let v = find_crates_to_copy(&g, &vec!["A".to_owned()]).unwrap();
    assert_eq!(names(&v), vec!["A".to_owned(), "B".to_owned(), "C".to_owned()]);
}

#[test]
fn resolve_by_lib_alias() {
    let g = PackageGraph { packages: vec![pkg("syntax", "/src/syntax", &[])] };
    let v = get_local_dependencies_of_crate(&g, "libsyntax").unwrap();
    assert_eq!(names(&v), vec!["syntax".to_owned()]);
    assert_eq!(v[0].root_path, "/src/syntax");
    assert_eq!(v[0].lib_path, "/src/syntax/src/lib.rs");
    assert_eq!(v[0].toml_path, "/src/syntax/Cargo.toml");
}

#[test]
fn missing_package_is_a_lookup_error() {
    let g = PackageGraph { packages: vec![pkg("A", "/src/a", &[("GONE", true)])] };
    let e = find_crates_to_copy(&g, &vec!["NOPE".to_owned()]).unwrap_err();
    assert_eq!(e.name, "NOPE");
    let e2 = find_crates_to_copy(&g, &vec!["A".to_owned()]).unwrap_err();
    assert_eq!(e2.name, "GONE");
}

#[test]
fn single_root_missing_name_fails() {
    let g = PackageGraph { packages: vec![pkg("A", "/src/a", &[])] };
    let e = get_local_dependencies_of_crate(&g, "ZZZ").unwrap_err();
    assert_eq!(e.name, "ZZZ");
}

#[test]
fn manifest_error_variants() {
    assert_eq!(rewrite_manifest("= not toml =", "host_", "tool_").unwrap_err(), ManifestError::Unparseable);
    assert_eq!(
        rewrite_manifest("[dependencies]\nx = \"1\"\n", "host_", "tool_").unwrap_err(),
        ManifestError::NoPackageTable
    );
    assert_eq!(
        rewrite_manifest("package = 3\n", "host_", "tool_").unwrap_err(),
        ManifestError::PackageNotTable
    );
    assert_eq!(
        rewrite_manifest("[package]\nversion = \"1\"\n", "host_", "tool_").unwrap_err(),
        ManifestError::NoPackageName
    );
    assert_eq!(
        rewrite_manifest("[package]\nname = 5\n", "host_", "tool_").unwrap_err(),
        ManifestError::PackageNameNotText
    );
}

#[test]
fn manifest_preserves_unrelated_fields() {
    let text = "[package]\nname = \"util\"\nversion = \"1.2.3\"\nratio = 3.5\n\n[features]\ndefault = []\n";
    let out = rewrite_manifest(text, "host_", "tool_").unwrap();
    assert!(out.contains("name = \"tool_util\""));
    assert!(out.contains("version = \"1.2.3\""));
    assert!(out.contains("ratio = 3.5"));
    assert!(out.contains("[features]"));
    assert!(out.contains("default = []"));
    assert_ne!(out, text);
}

#[test]
fn manifest_alias_override_is_transformed() {
    // An explicit alias override wins over the key name.
    let text = "[package]\nname = \"a\"\n\n[dependencies.b]\npath = \"../b\"\npackage = \"host_b\"\n";
    let out = rewrite_manifest(text, "host_", "tool_").unwrap();
    assert!(out.contains("package = \"tool_b\""));
    // A registry dependency keeps its entry untouched.
    let text2 = "[package]\nname = \"a\"\n\n[dependencies.c]\nversion = \"2\"\n";
    let out2 = rewrite_manifest(text2, "host_", "tool_").unwrap();
    assert!(out2.contains("version = \"2\""));
    assert!(!out2.contains("package = \"tool_c\""));
}

#[test]
fn path_helpers() {
    assert_eq!(parent_dir("/src/a/Cargo.toml"), "/src/a");
    assert_eq!(parent_dir("Cargo.toml"), "");
    assert_eq!(file_name("/src/a"), "a");
    assert_eq!(file_name("plain"), "plain");
    assert_eq!(
        reroot_path("/src/a/x/y.rs", "/src/a", "/out/a"),
        Some("/out/a/x/y.rs".to_owned())
    );
    assert_eq!(reroot_path("/src/a", "/src/a", "/out/a"), Some("/out/a".to_owned()));
    assert_eq!(reroot_path("/elsewhere/z", "/src/a", "/out/a"), None);
}

#[test]
fn descriptor_lists_each_member_once_in_order() {
    let g = PackageGraph {
        packages: vec![
            pkg("beta", "/src/beta", &[("alpha", true)]),
            pkg("alpha", "/src/alpha", &[]),
        ],
    };
    let v = find_crates_to_copy(&g, &vec!["beta".to_owned()]).unwrap();
    assert_eq!(names(&v), vec!["alpha".to_owned(), "beta".to_owned()]);
    let desc = workspace_descriptor(&v);
    assert_eq!(desc, "[workspace]\nmembers = [\n  \"alpha\",\n  \"beta\",\n]\n");
    assert_eq!(desc.matches("\"alpha\"").count(), 1);
    assert_eq!(desc.matches("\"beta\"").count(), 1);
}
