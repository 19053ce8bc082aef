//! Textual path operations: the directory part and the final segment of a
//! slash-separated path, and the re-rooting of a source path under a
//! destination root, which is the computing half of the directory copier.
use vstd::prelude::*;

use crate::strings::{spec_starts_with, str_eq, str_starts_with};

verus! {

/// The index just after the last `'/'` in `s`, or `0` when `s` has none.
pub open spec fn after_last_slash(s: Seq<char>) -> int
    decreases s.len(),
{
    if s.len() == 0 {
        0
    } else if s[s.len() - 1] == '/' {
        s.len() as int
    } else {
        after_last_slash(s.take(s.len() - 1))
    }
}

pub proof fn lemma_after_last_slash_bounds(s: Seq<char>)
    ensures
        0 <= after_last_slash(s) <= s.len(),
    decreases s.len(),
{
    if s.len() > 0 && s[s.len() - 1] != '/' {
        lemma_after_last_slash_bounds(s.take(s.len() - 1));
    }
}

/// The directory part of a path: the text before the last `'/'`, empty when
/// there is none.
pub open spec fn spec_dir_part(s: Seq<char>) -> Seq<char> {
    if after_last_slash(s) == 0 {
        Seq::empty()
    } else {
        s.take(after_last_slash(s) - 1)
    }
}

/// The final segment of a path: the text after the last `'/'`, or the whole
/// text when there is none.
pub open spec fn spec_base_part(s: Seq<char>) -> Seq<char> {
    s.skip(after_last_slash(s))
}

/// Position just after the last `'/'` of `s`, or `0` when `s` has none.
pub fn last_slash_end(s: &str) -> (r: usize)
    ensures
        r == after_last_slash(s@),
{
    let n: usize = s.unicode_len();
    proof {
        assert(s@.take(n as int) =~= s@);
    }
    let mut i: usize = n;
    loop
        invariant
            i <= n,
            n == s@.len(),
            after_last_slash(s@) == after_last_slash(s@.take(i as int)),
        decreases i,
    {
        proof {
            assert(s@.take(i as int).len() == i);
        }
        if i == 0 {
            return 0;
        }
        let c = s.get_char(i - 1);
        proof {
            assert(s@.take(i as int)[i - 1] == s@[i - 1]);
        }
        if c == '/' {
            return i;
        }
        proof {
            assert(s@.take(i as int).take(i - 1) =~= s@.take(i - 1));
        }
        i = i - 1;
    }
}

/// The directory holding the file that `s` names (the manifest's parent, for
/// a manifest path): everything before the last `'/'`.
pub fn parent_dir(s: &str) -> (r: String)
    ensures
        r@ == spec_dir_part(s@),
{
    let k = last_slash_end(s);
    proof {
        lemma_after_last_slash_bounds(s@);
    }
    if k == 0 {
        let r = String::new();
        proof {
            assert(r@ =~= spec_dir_part(s@));
        }
        r
    } else {
        let sub = s.substring_char(0, k - 1);
        proof {
            assert(sub@ =~= spec_dir_part(s@));
        }
        sub.to_owned()
    }
}

/// The final path segment of `s`: a package's destination directory name is
/// this segment of its root directory.
pub fn file_name(s: &str) -> (r: String)
    ensures
        r@ == spec_base_part(s@),
{
    let k = last_slash_end(s);
    proof {
        lemma_after_last_slash_bounds(s@);
    }
    let n: usize = s.unicode_len();
    let sub = s.substring_char(k, n);
    proof {
        assert(sub@ =~= spec_base_part(s@));
    }
    sub.to_owned()
}

/// Re-rooting a walked entry: the path of `entry` relative to `from`,
/// re-joined under `to`. `None` when `entry` does not lie under `from`.
pub open spec fn spec_reroot(entry: Seq<char>, from: Seq<char>, to: Seq<char>) -> Option<Seq<char>> {
    if entry == from {
        Some(to)
    } else if spec_starts_with(entry, from + "/"@) {
        Some(to + "/"@ + entry.skip(from.len() as int + 1))
    } else {
        None
    }
}

/// Compute the destination path of one walked entry of a package's source
/// tree: its path relative to the source root, re-rooted under the
/// destination root. Returns `None` for an entry outside the source root.
pub fn reroot_path(entry: &str, from: &str, to: &str) -> (r: Option<String>)
    ensures
        match r {
            Some(p) => spec_reroot(entry@, from@, to@) == Some(p@),
            None => spec_reroot(entry@, from@, to@) is None,
        },
{
    if str_eq(entry, from) {
        return Some(to.to_owned());
    }
    let mut from_slash = from.to_owned();
    from_slash.append("/");
    if str_starts_with(entry, from_slash.as_str()) {
        let n: usize = entry.unicode_len();
        let k: usize = from_slash.as_str().unicode_len();
        proof {
            reveal_strlit("/");
        }
        let rel = entry.substring_char(k, n);
        let mut out = to.to_owned();
        out.append("/");
        out.append(rel);
        proof {
            assert(out@ =~= to@ + "/"@ + entry@.skip(from@.len() as int + 1));
        }
        Some(out)
    } else {
        None
    }
}

} // verus!
