//! The depth grouper and the session grouper: entries partitioned by depth,
//! files grouped by parent directory, and parent groups regrouped by their
//! own parent into sibling sets.
//!
//! A file whose parent directory has no components has no grandparent; such
//! a group is skipped and handed back, so one bad entry cannot abort the
//! rest of the work.

use vstd::prelude::*;
use crate::model::{Entry, EntryV, DirGroup, DirGroupV, SiblingSet, FileName, FileNameV, names_view,
    groups_view, distinct_dirs, dirs_equal, clone_dir};

verus! {

/// The entries of a sequence, as mathematical values.
pub open spec fn entries_view(s: Seq<Entry>) -> Seq<EntryV> {
    s.map_values(|e: Entry| e@)
}

/// The entries of `s` whose depth is `d`, in order.
pub open spec fn at_depth(s: Seq<EntryV>, d: nat) -> Seq<EntryV>
    decreases s.len(),
{
    if s.len() == 0 {
        Seq::empty()
    } else {
        let rest = at_depth(s.drop_last(), d);
        if s.last().depth == d {
            rest.push(s.last())
        } else {
            rest
        }
    }
}

impl Clone for Entry {
    fn clone(&self) -> (r: Self)
        ensures
            r@ == self@,
    {
        let r = Entry {
            depth: self.depth,
            is_file: self.is_file,
            dir: clone_dir(&self.dir),
            name: self.name.clone(),
        };
        proof {
            assert(r@ =~~= self@);
        }
        r
    }
}

/// Partitions the enumerated entries by their depth below the scan root:
/// bucket `d` holds exactly the entries of depth `d`, in input order.
pub fn group_by_depth(entries: &Vec<Entry>) -> (r: Vec<Vec<Entry>>)
    requires
        forall|k: int| 0 <= k < entries@.len() ==> (#[trigger] entries@[k]).depth < usize::MAX,
    ensures
        forall|d: int|
            0 <= d < r@.len() ==> entries_view(#[trigger] r@[d]@) == at_depth(
                entries_view(entries@),
                d as nat,
            ),
        forall|k: int| 0 <= k < entries@.len() ==> (#[trigger] entries@[k]).depth < r@.len(),
        entries@.len() == 0 ==> r@.len() == 0,
{
    let ghost ev = entries_view(entries@);
    let mut buckets: usize = 0;
    let mut i: usize = 0;
    while i < entries.len()
        invariant
            i <= entries.len(),
            forall|k: int| 0 <= k < entries@.len() ==> (#[trigger] entries@[k]).depth < usize::MAX,
            forall|k: int| 0 <= k < i ==> (#[trigger] entries@[k]).depth < buckets,
            i == 0 ==> buckets == 0,
        decreases entries.len() - i,
    {
        if entries[i].depth + 1 > buckets {
            buckets = entries[i].depth + 1;
        }
        i = i + 1;
    }
    let mut r: Vec<Vec<Entry>> = Vec::new();
    let mut d: usize = 0;
    while d < buckets
        invariant
            ev == entries_view(entries@),
            d <= buckets,
            r@.len() == d,
            forall|b: int|
                0 <= b < d ==> entries_view(#[trigger] r@[b]@) == at_depth(ev, b as nat),
        decreases buckets - d,
    {
        let mut bucket: Vec<Entry> = Vec::new();
        let mut j: usize = 0;
        while j < entries.len()
            invariant
                ev == entries_view(entries@),
                ev.len() == entries.len(),
                j <= entries.len(),
                entries_view(bucket@) == at_depth(ev.take(j as int), d as nat),
            decreases entries.len() - j,
        {
            let ghost before = bucket@;
            proof {
                assert(ev.take(j + 1).drop_last() =~= ev.take(j as int));
                assert(ev.take(j + 1).last() == ev[j as int]);
                assert(ev[j as int] == entries@[j as int]@);
            }
            if entries[j].depth == d {
                bucket.push(entries[j].clone());
                proof {
                    assert forall|k: int|
                        0 <= k < bucket@.len() implies entries_view(bucket@)[k] == at_depth(
                        ev.take(j + 1),
                        d as nat,
                    )[k] by {
                        assert(entries_view(bucket@)[k] == bucket@[k]@);
                        if k < before.len() {
                            assert(bucket@[k] == before[k]);
                            assert(entries_view(before)[k] == before[k]@);
                        }
                    }
                    assert(entries_view(bucket@) =~= at_depth(ev.take(j + 1), d as nat));
                }
            } else {
                proof {
                    assert(entries_view(bucket@) =~= at_depth(ev.take(j + 1), d as nat));
                }
            }
            j = j + 1;
        }
        proof {
            assert(ev.take(entries@.len() as int) =~= ev);
        }
        r.push(bucket);
        d = d + 1;
    }
    r
}

/// The names of the file entries of `s` lying directly in `dir`, in order.
pub open spec fn files_of_dir(s: Seq<EntryV>, dir: Seq<Seq<char>>) -> Seq<FileNameV>
    decreases s.len(),
{
    if s.len() == 0 {
        Seq::empty()
    } else {
        let rest = files_of_dir(s.drop_last(), dir);
        if s.last().is_file && s.last().dir == dir {
            rest.push(s.last().name)
        } else {
            rest
        }
    }
}

proof fn lemma_files_of_dir_nonempty(s: Seq<EntryV>, dir: Seq<Seq<char>>, w: int)
    requires
        0 <= w < s.len(),
        s[w].is_file,
        s[w].dir == dir,
    ensures
        files_of_dir(s, dir).len() > 0,
    decreases s.len(),
{
    if w < s.len() - 1 {
        lemma_files_of_dir_nonempty(s.drop_last(), dir, w);
    }
}

fn dir_list_contains(dirs: &Vec<Vec<String>>, d: &Vec<String>) -> (r: bool)
    ensures
        r == exists|k: int|
            0 <= k < dirs@.len() && (#[trigger] dirs@[k]).deep_view() == d.deep_view(),
{
    let mut i: usize = 0;
    while i < dirs.len()
        invariant
            i <= dirs.len(),
            forall|k: int| 0 <= k < i ==> (#[trigger] dirs@[k]).deep_view() != d.deep_view(),
        decreases dirs.len() - i,
    {
        if dirs_equal(&dirs[i], d) {
            return true;
        }
        i = i + 1;
    }
    false
}

/// Some sibling set of `sets` carries the grandparent `gp`.
pub open spec fn set_for_gp(sets: Seq<SiblingSet>, gp: Seq<Seq<char>>) -> bool {
    exists|m: int| 0 <= m < sets.len() && (#[trigger] sets[m]@).grandparent == gp
}

/// Some entry of `s` is a file lying directly in `dir`.
pub open spec fn dir_has_file(s: Seq<EntryV>, dir: Seq<Seq<char>>) -> bool {
    exists|k: int| 0 <= k < s.len() && (#[trigger] s[k]).is_file && s[k].dir == dir
}

/// Groups the file entries by their immediate parent directory: one group
/// per distinct parent, holding exactly that directory's file names in
/// input order.  Directory entries are dropped.
pub fn group_files_by_parent(entries: &Vec<Entry>) -> (groups: Vec<DirGroup>)
    ensures
        distinct_dirs(groups_view(groups@)),
        forall|k: int|
            0 <= k < groups@.len() ==> {
                &&& (#[trigger] groups_view(groups@)[k]).files == files_of_dir(
                    entries_view(entries@),
                    groups_view(groups@)[k].dir,
                )
                &&& groups_view(groups@)[k].files.len() > 0
            },
        forall|k: int|
            0 <= k < entries@.len() && (#[trigger] entries@[k]).is_file ==> exists|m: int|
                0 <= m < groups@.len() && (#[trigger] groups_view(groups@)[m]).dir
                    == entries@[k]@.dir,
{
    let ghost ev = entries_view(entries@);
    let mut uniq: Vec<Vec<String>> = Vec::new();
    let mut i: usize = 0;
    while i < entries.len()
        invariant
            ev == entries_view(entries@),
            ev.len() == entries.len(),
            i <= entries.len(),
            forall|a: int, b: int|
                0 <= a < uniq@.len() && 0 <= b < uniq@.len() && a != b ==> (
                #[trigger] uniq@[a]).deep_view() != (#[trigger] uniq@[b]).deep_view(),
            forall|k: int|
                0 <= k < i && (#[trigger] entries@[k]).is_file ==> exists|m: int|
                    0 <= m < uniq@.len() && (#[trigger] uniq@[m]).deep_view() == entries@[k]@.dir,
            forall|m: int|
                0 <= m < uniq@.len() ==> dir_has_file(ev, (#[trigger] uniq@[m]).deep_view()),
        decreases entries.len() - i,
    {
        if entries[i].is_file {
            proof {
                assert(entries@[i as int]@ == ev[i as int]);
            }
            if !dir_list_contains(&uniq, &entries[i].dir) {
                let ghost uniq0 = uniq@;
                uniq.push(clone_dir(&entries[i].dir));
                proof {
                    assert forall|a: int, b: int|
                        0 <= a < uniq@.len() && 0 <= b < uniq@.len() && a != b implies (
                    #[trigger] uniq@[a]).deep_view() != (#[trigger] uniq@[b]).deep_view() by {
                        if a < uniq0.len() && b < uniq0.len() {
                            assert(uniq@[a] == uniq0[a] && uniq@[b] == uniq0[b]);
                        } else {
                            let prior: int = if a < uniq0.len() {
                                a
                            } else {
                                b
                            };
                            assert(uniq@[prior] == uniq0[prior]);
                        }
                    }
                    assert forall|k: int|
                        0 <= k < i + 1 && (#[trigger] entries@[k]).is_file implies exists|m: int|
                        0 <= m < uniq@.len() && (#[trigger] uniq@[m]).deep_view()
                            == entries@[k]@.dir by {
                        if k < i {
                            let m0 = choose|m: int|
                                0 <= m < uniq0.len() && (#[trigger] uniq0[m]).deep_view()
                                    == entries@[k]@.dir;
                            assert(uniq@[m0] == uniq0[m0]);
                            assert((uniq@[m0]).deep_view() == entries@[k]@.dir);
                        } else {
                            assert((uniq@[uniq0.len() as int]).deep_view() == entries@[k]@.dir);
                        }
                    }
                    assert forall|m: int| 0 <= m < uniq@.len() implies dir_has_file(
                        ev,
                        (#[trigger] uniq@[m]).deep_view(),
                    ) by {
                        if m < uniq0.len() {
                            assert(uniq@[m] == uniq0[m]);
                            assert(dir_has_file(ev, (uniq0[m]).deep_view()));
                        } else {
                            assert(ev[i as int].is_file && ev[i as int].dir == (
                            uniq@[m]).deep_view());
                        }
                    }
                }
            }
        }
        i = i + 1;
    }
    let mut groups: Vec<DirGroup> = Vec::new();
    let mut m: usize = 0;
    while m < uniq.len()
        invariant
            ev == entries_view(entries@),
            ev.len() == entries.len(),
            m <= uniq.len(),
            groups@.len() == m,
            forall|a: int, b: int|
                0 <= a < uniq@.len() && 0 <= b < uniq@.len() && a != b ==> (
                #[trigger] uniq@[a]).deep_view() != (#[trigger] uniq@[b]).deep_view(),
            forall|q: int|
                0 <= q < uniq@.len() ==> dir_has_file(ev, (#[trigger] uniq@[q]).deep_view()),
            forall|k: int|
                0 <= k < m ==> (#[trigger] groups_view(groups@)[k]).dir == uniq@[k].deep_view(),
            forall|k: int|
                0 <= k < m ==> {
                    &&& (#[trigger] groups_view(groups@)[k]).files == files_of_dir(
                        ev,
                        groups_view(groups@)[k].dir,
                    )
                    &&& groups_view(groups@)[k].files.len() > 0
                },
        decreases uniq.len() - m,
    {
        let ghost dv = uniq@[m as int].deep_view();
        let mut files: Vec<FileName> = Vec::new();
        let mut j: usize = 0;
        while j < entries.len()
            invariant
                ev == entries_view(entries@),
                ev.len() == entries.len(),
                j <= entries.len(),
                m < uniq.len(),
                dv == uniq@[m as int].deep_view(),
                names_view(files@) == files_of_dir(ev.take(j as int), dv),
            decreases entries.len() - j,
        {
            let ghost before = files@;
            proof {
                assert(ev.take(j + 1).drop_last() =~= ev.take(j as int));
                assert(ev.take(j + 1).last() == ev[j as int]);
                assert(ev[j as int] == entries@[j as int]@);
            }
            if entries[j].is_file && dirs_equal(&entries[j].dir, &uniq[m]) {
                files.push(entries[j].name.clone());
                proof {
                    assert forall|k: int|
                        0 <= k < files@.len() implies names_view(files@)[k] == files_of_dir(
                        ev.take(j + 1),
                        dv,
                    )[k] by {
                        assert(names_view(files@)[k] == files@[k]@);
                        if k < before.len() {
                            assert(files@[k] == before[k]);
                            assert(names_view(before)[k] == before[k]@);
                        }
                    }
                    assert(names_view(files@) =~= files_of_dir(ev.take(j + 1), dv));
                }
            } else {
                proof {
                    assert(names_view(files@) =~= files_of_dir(ev.take(j + 1), dv));
                }
            }
            j = j + 1;
        }
        proof {
            assert(ev.take(entries@.len() as int) =~= ev);
            assert(dir_has_file(ev, dv));
            let w = choose|k: int| 0 <= k < ev.len() && (#[trigger] ev[k]).is_file && ev[k].dir == dv;
            lemma_files_of_dir_nonempty(ev, dv, w);
        }
        let ghost groups0 = groups@;
        groups.push(DirGroup { dir: clone_dir(&uniq[m]), files });
        proof {
            assert forall|k: int|
                0 <= k < groups@.len() implies #[trigger] groups_view(groups@)[k] == groups@[k]@ by {}
            assert forall|k: int| 0 <= k < groups0.len() implies groups@[k]@ == groups_view(
                groups0,
            )[k] by {
                assert(groups@[k] == groups0[k]);
            }
            assert(groups@[m as int]@ =~~= DirGroupV { dir: dv, files: files_of_dir(ev, dv) });
            assert forall|k: int| 0 <= k < m + 1 implies (#[trigger] groups_view(groups@)[k]).dir
                == uniq@[k].deep_view() by {
                if k < m {
                    assert(groups_view(groups@)[k] == groups_view(groups0)[k]);
                } else {
                    assert(groups_view(groups@)[k] == groups@[m as int]@);
                }
            }
            assert forall|k: int| 0 <= k < m + 1 implies {
                &&& (#[trigger] groups_view(groups@)[k]).files == files_of_dir(
                    ev,
                    groups_view(groups@)[k].dir,
                )
                &&& groups_view(groups@)[k].files.len() > 0
            } by {
                if k < m {
                    assert(groups_view(groups@)[k] == groups_view(groups0)[k]);
                } else {
                    assert(groups_view(groups@)[k] == groups@[m as int]@);
                }
            }
        }
        m = m + 1;
    }
    proof {
        assert forall|k: int|
            0 <= k < entries@.len() && (#[trigger] entries@[k]).is_file implies exists|q: int|
            0 <= q < groups@.len() && (#[trigger] groups_view(groups@)[q]).dir == entries@[k]@.dir by {
            let m0 = choose|q: int|
                0 <= q < uniq@.len() && (#[trigger] uniq@[q]).deep_view() == entries@[k]@.dir;
            assert(groups_view(groups@)[m0].dir == entries@[k]@.dir);
        }
    }
    groups
}

/// Mathematical value of a [`SiblingSet`].
#[verifier::ext_equal]
pub struct SiblingSetV {
    pub grandparent: Seq<Seq<char>>,
    pub dirs: Seq<DirGroupV>,
}

impl View for SiblingSet {
    type V = SiblingSetV;

    open spec fn view(&self) -> SiblingSetV {
        SiblingSetV { grandparent: self.grandparent.deep_view(), dirs: groups_view(self.dirs@) }
    }
}

/// A group's parent directory has at least one component, so the group has
/// a grandparent.
pub open spec fn has_grandparent(g: DirGroupV) -> bool {
    g.dir.len() >= 1
}

/// The groups of `s` whose grandparent is `gp`, in order.
pub open spec fn groups_of_gp(s: Seq<DirGroupV>, gp: Seq<Seq<char>>) -> Seq<DirGroupV>
    decreases s.len(),
{
    if s.len() == 0 {
        Seq::empty()
    } else {
        let rest = groups_of_gp(s.drop_last(), gp);
        if has_grandparent(s.last()) && s.last().dir.drop_last() == gp {
            rest.push(s.last())
        } else {
            rest
        }
    }
}

proof fn lemma_groups_of_gp_sub(s: Seq<DirGroupV>, gp: Seq<Seq<char>>, k: int)
    requires
        0 <= k < groups_of_gp(s, gp).len(),
    ensures
        exists|w: int| 0 <= w < s.len() && #[trigger] s[w] == groups_of_gp(s, gp)[k],
    decreases s.len(),
{
    if s.len() > 0 {
        let rest = groups_of_gp(s.drop_last(), gp);
        if k < rest.len() {
            lemma_groups_of_gp_sub(s.drop_last(), gp, k);
            let w = choose|w: int| 0 <= w < s.drop_last().len() && #[trigger] s.drop_last()[w]
                == rest[k];
            assert(s[w] == groups_of_gp(s, gp)[k]);
        } else {
            assert(s[s.len() - 1] == groups_of_gp(s, gp)[k]);
        }
    }
}

/// With pairwise distinct directories in `s`, every selection by
/// grandparent keeps them pairwise distinct.
pub proof fn lemma_groups_of_gp_distinct(s: Seq<DirGroupV>, gp: Seq<Seq<char>>)
    requires
        distinct_dirs(s),
    ensures
        distinct_dirs(groups_of_gp(s, gp)),
    decreases s.len(),
{
    if s.len() > 0 {
        assert(distinct_dirs(s.drop_last())) by {
            assert forall|a: int, b: int|
                0 <= a < s.drop_last().len() && 0 <= b < s.drop_last().len() && a != b implies (
            s.drop_last()[a]).dir != (s.drop_last()[b]).dir by {
                assert(s.drop_last()[a] == s[a] && s.drop_last()[b] == s[b]);
            }
        }
        lemma_groups_of_gp_distinct(s.drop_last(), gp);
        let rest = groups_of_gp(s.drop_last(), gp);
        let r = groups_of_gp(s, gp);
        if has_grandparent(s.last()) && s.last().dir.drop_last() == gp {
            assert forall|a: int, b: int|
                0 <= a < r.len() && 0 <= b < r.len() && a != b implies r[a].dir != r[b].dir by {
                if a < rest.len() && b < rest.len() {
                } else {
                    let small: int = if a < rest.len() {
                        a
                    } else {
                        b
                    };
                    lemma_groups_of_gp_sub(s.drop_last(), gp, small);
                    let w = choose|w: int|
                        0 <= w < s.drop_last().len() && #[trigger] s.drop_last()[w] == rest[small];
                    assert(s[w] == rest[small]);
                    assert(s[w].dir != s[s.len() - 1].dir);
                }
            }
        }
    }
}

/// Regroups the parent groups by their own parent: one sibling set per
/// distinct grandparent, holding exactly its groups in input order; groups
/// whose directory has no components have no grandparent and are handed
/// back untouched.
pub fn group_by_grandparent(groups: &Vec<DirGroup>) -> (r: (Vec<SiblingSet>, Vec<DirGroup>))
    ensures
        forall|k: int|
            0 <= k < r.0@.len() ==> (#[trigger] r.0@[k]@).dirs == groups_of_gp(
                groups_view(groups@),
                r.0@[k]@.grandparent,
            ),
        forall|a: int, b: int|
            0 <= a < r.0@.len() && 0 <= b < r.0@.len() && a != b ==> (#[trigger] r.0@[a]@).grandparent
                != (#[trigger] r.0@[b]@).grandparent,
        forall|k: int|
            0 <= k < groups@.len() && has_grandparent(#[trigger] groups_view(groups@)[k])
                ==> set_for_gp(r.0@, groups_view(groups@)[k].dir.drop_last()),
        names_skipped(groups_view(groups@), groups_view(r.1@)),
{
    let ghost gv = groups_view(groups@);
    let mut gps: Vec<Vec<String>> = Vec::new();
    let mut skipped: Vec<DirGroup> = Vec::new();
    let mut i: usize = 0;
    while i < groups.len()
        invariant
            gv == groups_view(groups@),
            gv.len() == groups.len(),
            i <= groups.len(),
            forall|a: int, b: int|
                0 <= a < gps@.len() && 0 <= b < gps@.len() && a != b ==> (
                #[trigger] gps@[a]).deep_view() != (#[trigger] gps@[b]).deep_view(),
            forall|k: int|
                0 <= k < i && has_grandparent(#[trigger] gv[k]) ==> exists|m: int|
                    0 <= m < gps@.len() && (#[trigger] gps@[m]).deep_view() == gv[k].dir.drop_last(),
            groups_view(skipped@) == skipped_of(gv.take(i as int)),
        decreases groups.len() - i,
    {
        let ghost skipped0 = skipped@;
        proof {
            assert(gv.take(i + 1).drop_last() =~= gv.take(i as int));
            assert(gv.take(i + 1).last() == gv[i as int]);
            assert(gv[i as int] == groups@[i as int]@);
        }
        if groups[i].dir.len() == 0 {
            skipped.push(groups[i].clone_group());
            proof {
                assert forall|k: int|
                    0 <= k < skipped@.len() implies groups_view(skipped@)[k] == skipped_of(
                    gv.take(i + 1),
                )[k] by {
                    assert(groups_view(skipped@)[k] == skipped@[k]@);
                    if k < skipped0.len() {
                        assert(skipped@[k] == skipped0[k]);
                        assert(groups_view(skipped0)[k] == skipped0[k]@);
                    }
                }
                assert(groups_view(skipped@) =~= skipped_of(gv.take(i + 1)));
            }
        } else {
            let gp = parent_of(&groups[i].dir);
            let ghost gpd = gp.deep_view();
            if !dir_list_contains(&gps, &gp) {
                let ghost gps0 = gps@;
                gps.push(gp);
                proof {
                    assert forall|a: int, b: int|
                        0 <= a < gps@.len() && 0 <= b < gps@.len() && a != b implies (
                    #[trigger] gps@[a]).deep_view() != (#[trigger] gps@[b]).deep_view() by {
                        if a < gps0.len() && b < gps0.len() {
                            assert(gps@[a] == gps0[a] && gps@[b] == gps0[b]);
                        } else {
                            let prior: int = if a < gps0.len() {
                                a
                            } else {
                                b
                            };
                            assert(gps@[prior] == gps0[prior]);
                        }
                    }
                    assert forall|k: int|
                        0 <= k < i + 1 && has_grandparent(#[trigger] gv[k]) implies exists|m: int|
                        0 <= m < gps@.len() && (#[trigger] gps@[m]).deep_view()
                            == gv[k].dir.drop_last() by {
                        if k < i {
                            let m0 = choose|m: int|
                                0 <= m < gps0.len() && (#[trigger] gps0[m]).deep_view()
                                    == gv[k].dir.drop_last();
                            assert(gps@[m0] == gps0[m0]);
                            assert((gps@[m0]).deep_view() == gv[k].dir.drop_last());
                        } else {
                            assert((gps@[gps0.len() as int]).deep_view() == gv[k].dir.drop_last());
                        }
                    }
                }
            } else {
                proof {
                    assert forall|k: int|
                        0 <= k < i + 1 && has_grandparent(#[trigger] gv[k]) implies exists|m: int|
                        0 <= m < gps@.len() && (#[trigger] gps@[m]).deep_view()
                            == gv[k].dir.drop_last() by {
                        if k == i {
                            assert(exists|m: int|
                                0 <= m < gps@.len() && (#[trigger] gps@[m]).deep_view() == gpd);
                        }
                    }
                }
            }
            proof {
                assert(groups_view(skipped@) =~= skipped_of(gv.take(i + 1)));
            }
        }
        i = i + 1;
    }
    proof {
        assert(gv.take(groups@.len() as int) =~= gv);
    }
    let mut sets: Vec<SiblingSet> = Vec::new();
    let mut m: usize = 0;
    while m < gps.len()
        invariant
            gv == groups_view(groups@),
            gv.len() == groups.len(),
            m <= gps.len(),
            sets@.len() == m,
            forall|a: int, b: int|
                0 <= a < gps@.len() && 0 <= b < gps@.len() && a != b ==> (
                #[trigger] gps@[a]).deep_view() != (#[trigger] gps@[b]).deep_view(),
            forall|k: int|
                0 <= k < m ==> (#[trigger] sets@[k]@).grandparent == gps@[k].deep_view(),
            forall|k: int|
                0 <= k < m ==> (#[trigger] sets@[k]@).dirs == groups_of_gp(gv, sets@[k]@.grandparent),
        decreases gps.len() - m,
    {
        let ghost gpv = gps@[m as int].deep_view();
        let mut dirs: Vec<DirGroup> = Vec::new();
        let mut j: usize = 0;
        while j < groups.len()
            invariant
                gv == groups_view(groups@),
                gv.len() == groups.len(),
                j <= groups.len(),
                m < gps.len(),
                gpv == gps@[m as int].deep_view(),
                groups_view(dirs@) == groups_of_gp(gv.take(j as int), gpv),
            decreases groups.len() - j,
        {
            let ghost dirs0 = dirs@;
            proof {
                assert(gv.take(j + 1).drop_last() =~= gv.take(j as int));
                assert(gv.take(j + 1).last() == gv[j as int]);
                assert(gv[j as int] == groups@[j as int]@);
            }
            if groups[j].dir.len() > 0 {
                let gp = parent_of(&groups[j].dir);
                if dirs_equal(&gp, &gps[m]) {
                    dirs.push(groups[j].clone_group());
                    proof {
                        assert forall|k: int|
                            0 <= k < dirs@.len() implies groups_view(dirs@)[k] == groups_of_gp(
                            gv.take(j + 1),
                            gpv,
                        )[k] by {
                            assert(groups_view(dirs@)[k] == dirs@[k]@);
                            if k < dirs0.len() {
                                assert(dirs@[k] == dirs0[k]);
                                assert(groups_view(dirs0)[k] == dirs0[k]@);
                            }
                        }
                        assert(groups_view(dirs@) =~= groups_of_gp(gv.take(j + 1), gpv));
                    }
                } else {
                    proof {
                        assert(groups_view(dirs@) =~= groups_of_gp(gv.take(j + 1), gpv));
                    }
                }
            } else {
                proof {
                    assert(groups_view(dirs@) =~= groups_of_gp(gv.take(j + 1), gpv));
                }
            }
            j = j + 1;
        }
        proof {
            assert(gv.take(groups@.len() as int) =~= gv);
        }
        let ghost sets0 = sets@;
        sets.push(SiblingSet { grandparent: clone_dir(&gps[m]), dirs });
        proof {
            assert(sets@[m as int]@ =~~= SiblingSetV {
                grandparent: gpv,
                dirs: groups_of_gp(gv, gpv),
            });
            assert forall|k: int| 0 <= k < sets0.len() implies sets@[k]@ == sets0[k]@ by {
                assert(sets@[k] == sets0[k]);
            }
        }
        m = m + 1;
    }
    proof {
        assert forall|k: int|
            0 <= k < groups@.len() && has_grandparent(#[trigger] groups_view(groups@)[k]) implies
            set_for_gp(sets@, groups_view(groups@)[k].dir.drop_last()) by {
            let m0 = choose|mm: int|
                0 <= mm < gps@.len() && (#[trigger] gps@[mm]).deep_view() == gv[k].dir.drop_last();
            assert((sets@[m0]@).grandparent == gv[k].dir.drop_last());
            assert(set_for_gp(sets@, (sets@[m0]@).grandparent));
        }
    }
    (sets, skipped)
}

/// The groups of `s` without a grandparent, in order: the skipped residue.
pub open spec fn skipped_of(s: Seq<DirGroupV>) -> Seq<DirGroupV>
    decreases s.len(),
{
    if s.len() == 0 {
        Seq::empty()
    } else {
        let rest = skipped_of(s.drop_last());
        if !has_grandparent(s.last()) {
            rest.push(s.last())
        } else {
            rest
        }
    }
}

/// The skipped list holds exactly the groups without a grandparent.
pub open spec fn names_skipped(all: Seq<DirGroupV>, skipped: Seq<DirGroupV>) -> bool {
    skipped == skipped_of(all)
}

/// The parent of a directory path: the path without its last component.
pub fn parent_of(dir: &Vec<String>) -> (r: Vec<String>)
    requires
        dir@.len() >= 1,
    ensures
        r.deep_view() == dir.deep_view().drop_last(),
{
    let mut r: Vec<String> = Vec::new();
    let mut i: usize = 0;
    while i < dir.len() - 1
        invariant
            dir@.len() >= 1,
            i <= dir@.len() - 1,
            r@.len() == i,
            forall|k: int| 0 <= k < i ==> #[trigger] r@[k]@ == dir@[k]@,
        decreases dir.len() - 1 - i,
    {
        r.push(dir[i].clone());
        i = i + 1;
    }
    proof {
        assert forall|k: int|
            0 <= k < r@.len() implies r.deep_view()[k] == dir.deep_view().drop_last()[k] by {
            assert(r.deep_view()[k] == r@[k]@);
            assert(dir.deep_view()[k] == dir@[k]@);
        }
        assert(r.deep_view() =~= dir.deep_view().drop_last());
    }
    r
}

impl DirGroup {
    /// Clones a directory group.
    pub fn clone_group(&self) -> (r: DirGroup)
        ensures
            r@ == self@,
    {
        let mut files: Vec<FileName> = Vec::new();
        let mut i: usize = 0;
        while i < self.files.len()
            invariant
                i <= self.files.len(),
                files@.len() == i,
                forall|k: int| 0 <= k < i ==> #[trigger] files@[k]@ == self.files@[k]@,
            decreases self.files.len() - i,
        {
            files.push(self.files[i].clone());
            i = i + 1;
        }
        let r = DirGroup { dir: clone_dir(&self.dir), files };
        proof {
            assert forall|k: int|
                0 <= k < r@.files.len() implies r@.files[k] == self@.files[k] by {
                assert(r@.files[k] == r.files@[k]@);
                assert(self@.files[k] == self.files@[k]@);
            }
            assert(r@ =~~= self@);
        }
        r
    }
}

} // verus!
