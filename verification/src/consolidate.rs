//! The consolidator's naming rule: where a file goes in the flat output
//! tree and what it is called there.
//!
//! A file lands under a `left` or `right` subfolder exactly when its
//! immediate parent directory is named so, and its new name is the
//! grandparent path flattened with underscores, then an underscore, then
//! the original file name, so that many source directories can merge into
//! one tree without collisions.

use vstd::prelude::*;
use vstd::string::StringExecFns;
use crate::model::{FileName, name_chars, render_name};
use crate::text::{join_with, join_strings};

verus! {

/// The subfolder of the unified tree a file lands in.
#[derive(PartialEq, Eq, Structural, Clone, Copy, Debug)]
pub enum Subdir {
    Left,
    Right,
    Top,
}

/// The subfolder a parent directory maps to: `Left` or `Right` exactly when
/// its last component is named so.
pub open spec fn spec_subdir(dir: Seq<Seq<char>>) -> Subdir {
    if dir.last() == "left"@ {
        Subdir::Left
    } else if dir.last() == "right"@ {
        Subdir::Right
    } else {
        Subdir::Top
    }
}

/// The flattened name a consolidated file takes: the grandparent path
/// joined with underscores, an underscore, and the file's own name.
pub open spec fn flattened_chars(dir: Seq<Seq<char>>, f: crate::model::FileNameV) -> Seq<char> {
    join_with(dir.drop_last(), seq!['_']) + seq!['_'] + name_chars(f)
}

fn str_is(s: &String, lit: &str) -> (r: bool)
    ensures
        r == (s@ == lit@),
{
    let other = lit.to_owned();
    *s == other
}

/// Computes where a file moves during consolidation: the subfolder its
/// parent's name selects, and its flattened new name.
pub fn consolidation_target(dir: &Vec<String>, name: &FileName) -> (r: (Subdir, String))
    requires
        dir@.len() >= 1,
    ensures
        r.0 == spec_subdir(dir.deep_view()),
        r.1@ == flattened_chars(dir.deep_view(), name@),
{
    let last = &dir[dir.len() - 1];
    proof {
        assert(dir.deep_view().last() == dir@[dir@.len() - 1]@);
    }
    let sub = if str_is(last, "left") {
        Subdir::Left
    } else if str_is(last, "right") {
        Subdir::Right
    } else {
        Subdir::Top
    };
    let mut ancestor: Vec<String> = Vec::new();
    let mut i: usize = 0;
    while i < dir.len() - 1
        invariant
            dir@.len() >= 1,
            i <= dir@.len() - 1,
            ancestor@.len() == i,
            forall|k: int| 0 <= k < i ==> #[trigger] ancestor@[k]@ == dir@[k]@,
        decreases dir.len() - 1 - i,
    {
        ancestor.push(dir[i].clone());
        i = i + 1;
    }
    proof {
        assert forall|k: int|
            0 <= k < ancestor@.len() implies ancestor.deep_view()[k] == dir.deep_view().drop_last()[k]
        by {
            assert(ancestor.deep_view()[k] == ancestor@[k]@);
            assert(dir.deep_view()[k] == dir@[k]@);
        }
        assert(ancestor.deep_view() =~= dir.deep_view().drop_last());
    }
    let mut flat = join_strings(&ancestor, "_");
    flat.append("_");
    let rendered = render_name(name);
    flat.append(rendered.as_str());
    proof {
        reveal_strlit("_");
        assert("_"@ =~= seq!['_']);
        assert(flat@ =~= flattened_chars(dir.deep_view(), name@));
    }
    (sub, flat)
}

} // verus!
