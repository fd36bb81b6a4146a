//! The data model: filesystem entries as plain values, directory groups and
//! sibling sets, and the rendering of names and paths.
//!
//! A path is carried as its components (one `String` per directory level); a
//! file name is carried split into stem and extension, the way the final
//! rename needs it.

use vstd::prelude::*;
use vstd::string::StringExecFns;
use crate::text::{join_with, join_strings};

verus! {

/// A file name split into stem and extension: the name is `{stem}.{ext}`.
pub struct FileName {
    pub stem: String,
    pub ext: String,
}

/// Mathematical value of a [`FileName`].
#[verifier::ext_equal]
pub struct FileNameV {
    pub stem: Seq<char>,
    pub ext: Seq<char>,
}

impl View for FileName {
    type V = FileNameV;

    open spec fn view(&self) -> FileNameV {
        FileNameV { stem: self.stem@, ext: self.ext@ }
    }
}

impl Clone for FileName {
    fn clone(&self) -> (r: Self)
        ensures
            r@ == self@,
    {
        FileName { stem: self.stem.clone(), ext: self.ext.clone() }
    }
}

/// One enumerated filesystem entry: its depth below the scan root, whether
/// it is a file, the components of its parent directory, and its name.
pub struct Entry {
    pub depth: usize,
    pub is_file: bool,
    pub dir: Vec<String>,
    pub name: FileName,
}

/// Mathematical value of an [`Entry`].
#[verifier::ext_equal]
pub struct EntryV {
    pub depth: nat,
    pub is_file: bool,
    pub dir: Seq<Seq<char>>,
    pub name: FileNameV,
}

impl View for Entry {
    type V = EntryV;

    open spec fn view(&self) -> EntryV {
        EntryV {
            depth: self.depth as nat,
            is_file: self.is_file,
            dir: self.dir.deep_view(),
            name: self.name@,
        }
    }
}

/// The names of a sequence of files, as mathematical values.
pub open spec fn names_view(files: Seq<FileName>) -> Seq<FileNameV> {
    files.map_values(|f: FileName| f@)
}

/// The files located directly inside one directory.
pub struct DirGroup {
    pub dir: Vec<String>,
    pub files: Vec<FileName>,
}

/// Mathematical value of a [`DirGroup`].
#[verifier::ext_equal]
pub struct DirGroupV {
    pub dir: Seq<Seq<char>>,
    pub files: Seq<FileNameV>,
}

impl View for DirGroup {
    type V = DirGroupV;

    open spec fn view(&self) -> DirGroupV {
        DirGroupV { dir: self.dir.deep_view(), files: names_view(self.files@) }
    }
}

/// The groups of a sequence of directory groups, as mathematical values.
pub open spec fn groups_view(groups: Seq<DirGroup>) -> Seq<DirGroupV> {
    groups.map_values(|g: DirGroup| g@)
}

/// All directory groups sharing one grandparent directory; the unit of
/// independent work.
pub struct SiblingSet {
    pub grandparent: Vec<String>,
    pub dirs: Vec<DirGroup>,
}

/// The groups of a sibling set have pairwise distinct directories.
pub open spec fn distinct_dirs(groups: Seq<DirGroupV>) -> bool {
    forall|i: int, j: int|
        0 <= i < groups.len() && 0 <= j < groups.len() && i != j ==> groups[i].dir != groups[j].dir
}

/// The files of a directory group have pairwise distinct names, as a real
/// directory listing guarantees.
pub open spec fn distinct_names(files: Seq<FileNameV>) -> bool {
    forall|i: int, j: int| 0 <= i < j < files.len() ==> files[i] != files[j]
}

/// Whether two file names are the same name.
pub fn names_equal(a: &FileName, b: &FileName) -> (r: bool)
    ensures
        r == (a@ == b@),
{
    let r = a.stem == b.stem && a.ext == b.ext;
    proof {
        if a.stem@ == b.stem@ && a.ext@ == b.ext@ {
            assert(a@ == b@);
        }
    }
    r
}

/// Whether two directory paths are the same path.
pub fn dirs_equal(a: &Vec<String>, b: &Vec<String>) -> (r: bool)
    ensures
        r == (a.deep_view() == b.deep_view()),
{
    if a.len() != b.len() {
        proof {
            assert(a.deep_view().len() != b.deep_view().len());
        }
        return false;
    }
    let mut i: usize = 0;
    while i < a.len()
        invariant
            a.len() == b.len(),
            i <= a.len(),
            forall|k: int| 0 <= k < i ==> a.deep_view()[k] == b.deep_view()[k],
        decreases a.len() - i,
    {
        if !(a[i] == b[i]) {
            proof {
                assert(a.deep_view()[i as int] != b.deep_view()[i as int]);
            }
            return false;
        }
        i = i + 1;
    }
    proof {
        assert(a.deep_view() =~= b.deep_view());
    }
    true
}

/// Clones a directory path.
pub fn clone_dir(v: &Vec<String>) -> (r: Vec<String>)
    ensures
        r.deep_view() == v.deep_view(),
{
    let mut r: Vec<String> = Vec::new();
    let mut i: usize = 0;
    while i < v.len()
        invariant
            i <= v.len(),
            r@.len() == i,
            forall|k: int| 0 <= k < i ==> #[trigger] r@[k]@ == v@[k]@,
        decreases v.len() - i,
    {
        r.push(v[i].clone());
        i = i + 1;
    }
    proof {
        assert forall|k: int| 0 <= k < v@.len() implies r.deep_view()[k] == v.deep_view()[k] by {
            assert(r.deep_view()[k] == r@[k]@);
            assert(v.deep_view()[k] == v@[k]@);
        }
        assert(r.deep_view() =~= v.deep_view());
    }
    r
}

/// Whether `f`'s name occurs among the first `n` files of `v`.
pub fn contains_name_upto(v: &Vec<FileName>, f: &FileName, n: usize) -> (r: bool)
    requires
        n <= v.len(),
    ensures
        r == names_view(v@).take(n as int).contains(f@),
{
    let mut i: usize = 0;
    while i < n
        invariant
            i <= n <= v.len(),
            forall|k: int| 0 <= k < i ==> names_view(v@)[k] != f@,
        decreases n - i,
    {
        if names_equal(&v[i], f) {
            proof {
                assert(names_view(v@).take(n as int)[i as int] == f@);
            }
            return true;
        }
        i = i + 1;
    }
    proof {
        assert forall|k: int| 0 <= k < n implies names_view(v@).take(n as int)[k] != f@ by {
            assert(names_view(v@).take(n as int)[k] == names_view(v@)[k]);
        }
    }
    false
}

/// Whether `f`'s name occurs among the files of `v`.
pub fn contains_name(v: &Vec<FileName>, f: &FileName) -> (r: bool)
    ensures
        r == names_view(v@).contains(f@),
{
    let r = contains_name_upto(v, f, v.len());
    proof {
        assert(names_view(v@).take(v.len() as int) =~= names_view(v@));
    }
    r
}

/// The characters of the rendered file name `{stem}.{ext}`.
pub open spec fn name_chars(f: FileNameV) -> Seq<char> {
    f.stem + seq!['.'] + f.ext
}

/// Renders a file name as `{stem}.{ext}`.
pub fn render_name(f: &FileName) -> (r: String)
    ensures
        r@ == name_chars(f@),
{
    let mut r = f.stem.clone();
    r.append(".");
    r.append(f.ext.as_str());
    proof {
        reveal_strlit(".");
        assert(r@ =~= name_chars(f@));
    }
    r
}

/// The characters of the rendered path `{dir}/{stem}.{ext}`, directory
/// components joined with `/`.
pub open spec fn path_chars(dir: Seq<Seq<char>>, f: FileNameV) -> Seq<char> {
    join_with(dir, seq!['/']) + seq!['/'] + name_chars(f)
}

/// Renders the full path of a file inside a directory.
pub fn render_path(dir: &Vec<String>, f: &FileName) -> (r: String)
    ensures
        r@ == path_chars(dir.deep_view(), f@),
{
    let mut r = join_strings(dir, "/");
    r.append("/");
    let name = render_name(f);
    r.append(name.as_str());
    proof {
        reveal_strlit("/");
        assert("/"@ =~= seq!['/']);
        assert(r@ =~= path_chars(dir.deep_view(), f@));
    }
    r
}

} // verus!
