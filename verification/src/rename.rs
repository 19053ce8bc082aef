//! The namespace-prefix transform: renaming an extracted package so that it
//! cannot collide with a same-named package published in a public registry.
//! If the name begins with the recognized existing namespace token, that
//! leading token is replaced (once); otherwise the target token is prepended.
use vstd::prelude::*;

use crate::strings::{spec_starts_with, str_starts_with};

verus! {

/// The namespace-prefix transform on character sequences: replace a leading
/// `old_prefix` by `new_prefix`, or prepend `new_prefix` when `old_prefix`
/// does not lead.
pub open spec fn spec_apply_prefix(name: Seq<char>, old_prefix: Seq<char>, new_prefix: Seq<char>) -> Seq<char> {
    if spec_starts_with(name, old_prefix) {
        new_prefix + name.skip(old_prefix.len() as int)
    } else {
        new_prefix + name
    }
}

/// The transform fires at most once: when the name is the old token followed
/// by a rest, the result is the new token followed by that same rest, and the
/// rest itself is never touched again.
pub proof fn lemma_prefix_applied_once(rest: Seq<char>, old_prefix: Seq<char>, new_prefix: Seq<char>)
    ensures
        spec_apply_prefix(old_prefix + rest, old_prefix, new_prefix) == new_prefix + rest,
{
    let name = old_prefix + rest;
    assert(name.take(old_prefix.len() as int) =~= old_prefix);
    assert(name.skip(old_prefix.len() as int) =~= rest);
}

/// Apply the namespace-prefix transform to a package name.
pub fn apply_namespace_prefix(name: &str, old_prefix: &str, new_prefix: &str) -> (r: String)
    ensures
        r@ == spec_apply_prefix(name@, old_prefix@, new_prefix@),
{
    let mut r = new_prefix.to_owned();
    if str_starts_with(name, old_prefix) {
        let k: usize = old_prefix.unicode_len();
        let n: usize = name.unicode_len();
        let suffix = name.substring_char(k, n);
        proof {
            assert(suffix@ =~= name@.skip(old_prefix@.len() as int));
        }
        r.append(suffix);
    } else {
        r.append(name);
    }
    r
}

/// The rename rule this tool is configured with.
pub open spec fn spec_add_rustfmt_prefix(name: Seq<char>) -> Seq<char> {
    spec_apply_prefix(name, "rustc_"@, "rustfmt_"@)
}

/// Rename a package under this tool's private namespace: a leading `rustc_`
/// token becomes `rustfmt_`, and any other name gains a `rustfmt_` prefix.
pub fn add_rustfmt_prefix(name: &str) -> (r: String)
    ensures
        r@ == spec_add_rustfmt_prefix(name@),
{
    apply_namespace_prefix(name, "rustc_", "rustfmt_")
}

} // verus!
