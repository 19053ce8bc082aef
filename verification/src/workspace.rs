//! The workspace composer's output artifact: the top-level descriptor that
//! lists, under a workspace/members structure, the destination directory
//! name of every closure member, quoted, one per line, in resolver order.
use vstd::prelude::*;

use crate::closure::crates_view;
use crate::graph::{LocalCrate, LocalCrateV};
use crate::paths::{file_name, spec_base_part};

verus! {

/// One member line of the descriptor: the quoted directory name.
pub open spec fn spec_member_line(name: Seq<char>) -> Seq<char> {
    "  \""@ + name + "\",\n"@
}

/// The member lines of the descriptor, in order, one per name.
pub open spec fn spec_members_text(names: Seq<Seq<char>>) -> Seq<char>
    decreases names.len(),
{
    if names.len() == 0 {
        Seq::empty()
    } else {
        spec_members_text(names.drop_last()) + spec_member_line(names.last())
    }
}

/// The whole workspace descriptor for the given member directory names.
pub open spec fn spec_workspace_descriptor(names: Seq<Seq<char>>) -> Seq<char> {
    "[workspace]\nmembers = [\n"@ + spec_members_text(names) + "]\n"@
}

/// The destination directory names of the closure members, in closure order:
/// each member is copied under its root directory's final path segment.
pub open spec fn member_names(v: Seq<LocalCrateV>) -> Seq<Seq<char>> {
    Seq::new(v.len(), |i: int| spec_base_part(v[i].root_path))
}

/// Emit the workspace descriptor for the closure members: exactly one quoted
/// member line per closure member, in the closure's deterministic order,
/// written once after all members are known.
pub fn workspace_descriptor(crates: &Vec<LocalCrate>) -> (r: String)
    ensures
        r@ == spec_workspace_descriptor(member_names(crates_view(crates@))),
{
    let ghost names = member_names(crates_view(crates@));
    let mut text = "[workspace]\nmembers = [\n".to_owned();
    let n = crates.len();
    let mut i: usize = 0;
    proof {
        assert(names.take(0) =~= Seq::<Seq<char>>::empty());
    }
    while i < n
        invariant
            n == crates@.len(),
            names == member_names(crates_view(crates@)),
            i <= n,
            text@ == "[workspace]\nmembers = [\n"@ + spec_members_text(names.take(i as int)),
        decreases n - i,
    {
        let dir = file_name(crates[i].root_path.as_str());
        text.append("  \"");
        text.append(dir.as_str());
        text.append("\",\n");
        proof {
            let t = names.take(i + 1);
            assert(t.drop_last() =~= names.take(i as int));
            assert(t.last() == spec_base_part(crates_view(crates@)[i as int].root_path));
            assert(crates_view(crates@)[i as int] == crates@[i as int]@);
            assert(text@ == "[workspace]\nmembers = [\n"@ + spec_members_text(names.take(i + 1)));
        }
        i = i + 1;
    }
    proof {
        assert(names.take(n as int) =~= names);
    }
    text.append("]\n");
    text
}

} // verus!
