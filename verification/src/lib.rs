//! Extracts a chosen set of packages, together with every package they reach
//! through purely local (path-based) dependency edges, out of a large
//! multi-package source tree, so that they can be materialized as a
//! standalone workspace. Extracted packages are renamed under a private
//! namespace prefix, selected packages gain an internal-API directive in
//! their primary source file, and a workspace descriptor lists every member.
//!
//! The modules hold, in order of the pipeline: string primitives with exact
//! contracts (`strings`), the package-graph model (`graph`), the local
//! dependency-closure resolver (`closure`), path re-rooting for the
//! directory copier (`paths`), the feature injector (`inject`), the
//! namespace rename transform (`rename`), the manifest rewriter
//! (`manifest`), and the workspace-descriptor composer (`workspace`).
pub mod strings;
pub mod rename;
pub mod inject;
pub mod paths;
pub mod graph;
pub mod closure;
pub mod manifest;
pub mod workspace;
