//! The feature injector: certain packages need access to internal/unstable
//! host-platform APIs, so the copy of their primary source file gains exactly
//! one feature-enabling directive line, prepended to the original content.
use vstd::prelude::*;

use crate::strings::str_eq;

verus! {

/// The feature-enabling directive line, with its trailing newline.
pub open spec fn spec_feature_directive() -> Seq<char> {
    "#![feature(rustc_private)]\n"@
}

/// Prepend the feature-enabling directive to an already-copied primary
/// source file's content; the original content follows unmodified.
pub fn add_rustc_private_feature(source_content: &str) -> (r: String)
    ensures
        r@ == spec_feature_directive() + source_content@,
{
    let directive: &str = "#![feature(rustc_private)]\n";
    let mut r = directive.to_owned();
    r.append(source_content);
    r
}

/// Whether `name` stands in the allow-list of packages whose primary source
/// file gets the directive.
pub open spec fn spec_in_allow_list(allow_list: Seq<String>, name: Seq<char>) -> bool {
    exists|i: int| 0 <= i < allow_list.len() && allow_list[i]@ == name
}

/// Allow-list membership test. The list is explicit configuration handed in
/// by the caller, not a hidden global.
pub fn needs_rustc_private_feature(allow_list: &Vec<String>, name: &str) -> (r: bool)
    ensures
        r == spec_in_allow_list(allow_list@, name@),
{
    let mut i: usize = 0;
    while i < allow_list.len()
        invariant
            i <= allow_list@.len(),
            forall|j: int| 0 <= j < i ==> allow_list@[j]@ != name@,
        decreases allow_list@.len() - i,
    {
        if str_eq(allow_list[i].as_str(), name) {
            return true;
        }
        i = i + 1;
    }
    false
}

/// The allow-list this tool is configured with: the packages that reach into
/// internal host-platform APIs.
pub fn rustc_private_allow_list() -> (r: Vec<String>)
    ensures
        r@.len() == 2,
        r@[0]@ == "rustc_data_structures"@,
        r@[1]@ == "rustc_session"@,
{
    let mut v: Vec<String> = Vec::new();
    v.push("rustc_data_structures".to_owned());
    v.push("rustc_session".to_owned());
    v
}

} // verus!
