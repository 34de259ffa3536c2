//! The decisions of a scan run: the default options, the thread count, how
//! the collected files are split by kind, which stages run, and which exact
//! duplicate groups are dropped because they lie inside a single archive.
use vstd::prelude::*;
use crate::model::{Group, GroupView, groups_view};
use crate::paths::{is_member_path, real_path, is_archive_member, real_path_of};
use crate::collector::{dotted_extension, image_extensions, video_extensions, archive_extensions};

verus! {

/// The kilobytes hashed at each end of a file before its full hash.
pub fn default_partial_hash_kb() -> (r: u64)
    ensures
        r == 64,
{
    64
}

/// The largest hash distance of images in one "exact" group.
pub fn default_phash_exact() -> (r: u32)
    ensures
        r == 0,
{
    0
}

/// The largest hash distance of images in one "similar" group.
pub fn default_phash_similar() -> (r: u32)
    ensures
        r == 10,
{
    10
}

/// The frames sampled from each video.
pub fn default_vhash_frames() -> (r: u32)
    ensures
        r == 10,
{
    10
}

/// The members two archives must share to be grouped.
pub fn default_min_overlap() -> (r: u32)
    ensures
        r == 2,
{
    2
}

/// The worker threads of a scan: the number asked for, else what the machine
/// offers, else 4.
pub fn effective_threads(requested: usize, available: Option<usize>) -> (r: usize)
    ensures
        r == if requested > 0 {
            requested
        } else {
            match available {
                Some(n) => n,
                None => 4,
            }
        },
{
    if requested > 0 {
        requested
    } else {
        match available {
            Some(n) => n,
            None => 4,
        }
    }
}

/// The collected files split by kind; every file is also a regular file.
pub struct FileClasses {
    pub regular: Vec<String>,
    pub image: Vec<String>,
    pub video: Vec<String>,
    pub archive: Vec<String>,
}

/// The kind a file is sorted into first: image, else video, else archive.
pub open spec fn file_kind(p: Seq<char>) -> int {
    if image_extensions().contains(dotted_extension(p)) {
        1
    } else if video_extensions().contains(dotted_extension(p)) {
        2
    } else if archive_extensions().contains(dotted_extension(p)) {
        3
    } else {
        0
    }
}

/// The paths of the given kind, in order.
pub open spec fn of_kind(paths: Seq<Seq<char>>, kind: int) -> Seq<Seq<char>>
    decreases paths.len(),
{
    if paths.len() == 0 {
        Seq::empty()
    } else if file_kind(paths.last()) == kind {
        of_kind(paths.drop_last(), kind).push(paths.last())
    } else {
        of_kind(paths.drop_last(), kind)
    }
}

pub open spec fn texts(v: Seq<String>) -> Seq<Seq<char>> {
    v.map_values(|s: String| s@)
}

/// Splits the collected files by kind, keeping their order: all of them are
/// regular files, and each is also an image, a video or an archive, or none.
pub fn classify_files(files: &Vec<String>) -> (r: FileClasses)
    ensures
        texts(r.regular@) == texts(files@),
        texts(r.image@) == of_kind(texts(files@), 1),
        texts(r.video@) == of_kind(texts(files@), 2),
        texts(r.archive@) == of_kind(texts(files@), 3),
{
    let mut c = FileClasses { regular: Vec::new(), image: Vec::new(), video: Vec::new(), archive: Vec::new() };
    let ghost all = texts(files@);
    let mut i: usize = 0;
    while i < files.len()
        invariant
            i <= files.len(),
            all == texts(files@),
            texts(c.regular@) == all.take(i as int),
            texts(c.image@) == of_kind(all.take(i as int), 1),
            texts(c.video@) == of_kind(all.take(i as int), 2),
            texts(c.archive@) == of_kind(all.take(i as int), 3),
        decreases files.len() - i,
    {
        let f = &files[i];
        let ghost t = all.take(i + 1);
        proof {
            assert(t.drop_last() =~= all.take(i as int));
            assert(t.last() == f@);
        }
        let ghost img0 = c.image@;
        let ghost vid0 = c.video@;
        let ghost arc0 = c.archive@;
        if crate::collector::is_image(f.as_str()) {
            c.image.push(f.clone());
        } else if crate::collector::is_video(f.as_str()) {
            c.video.push(f.clone());
        } else if crate::collector::is_archive(f.as_str()) {
            c.archive.push(f.clone());
        }
        let ghost reg0 = c.regular@;
        c.regular.push(f.clone());
        proof {
            assert(texts(c.regular@) =~= texts(reg0).push(f@));
            assert(texts(reg0).push(f@) =~= t);
            if c.image@ != img0 {
                assert(texts(c.image@) =~= texts(img0).push(f@));
            }
            if c.video@ != vid0 {
                assert(texts(c.video@) =~= texts(vid0).push(f@));
            }
            if c.archive@ != arc0 {
                assert(texts(c.archive@) =~= texts(arc0).push(f@));
            }
        }
        i = i + 1;
    }
    proof {
        assert(all.take(files.len() as int) =~= all);
    }
    c
}

/// The stages a scan runs after hashing: images, videos, archives — each
/// unless switched off or without files of its kind.
pub fn planned_stages(no_phash: bool, no_vhash: bool, no_archive: bool, classes: &FileClasses) -> (r: (bool, bool, bool))
    ensures
        r == (!no_phash && classes.image.len() > 0, !no_vhash && classes.video.len() > 0,
            !no_archive && classes.archive.len() > 0),
{
    (!no_phash && classes.image.len() > 0, !no_vhash && classes.video.len() > 0, !no_archive && classes.archive.len() > 0)
}

/// A group whose files all lie inside one and the same archive.
pub open spec fn zip_only(g: GroupView) -> bool {
    &&& g.files.len() > 0
    &&& forall|i: int| 0 <= i < g.files.len() ==> is_member_path(#[trigger] g.files[i].path)
    &&& forall|i: int| 0 <= i < g.files.len() ==> real_path(#[trigger] g.files[i].path) == real_path(g.files[0].path)
}

/// Whether every file of the group lies inside one and the same archive.
pub fn is_same_zip_only_group(group: &Group) -> (r: bool)
    ensures
        r == zip_only(group@),
{
    let n = group.files.len();
    if n == 0 {
        return false;
    }
    let mut i: usize = 0;
    while i < n
        invariant
            n == group.files.len(),
            i <= n,
            forall|j: int| 0 <= j < i ==> is_member_path(#[trigger] group@.files[j].path),
        decreases n - i,
    {
        assert(group@.files[i as int] == group.files@[i as int]@);
        if !is_archive_member(group.files[i].path.as_str()) {
            assert(!is_member_path(group@.files[i as int].path));
            return false;
        }
        i = i + 1;
    }
    let first = real_path_of(group.files[0].path.as_str());
    assert(group@.files[0] == group.files@[0]@);
    let mut k: usize = 0;
    while k < n
        invariant
            n == group.files.len(),
            n > 0,
            k <= n,
            first@ == real_path(group@.files[0].path),
            forall|j: int| 0 <= j < k ==> real_path(#[trigger] group@.files[j].path) == real_path(group@.files[0].path),
        decreases n - k,
    {
        assert(group@.files[k as int] == group.files@[k as int]@);
        if real_path_of(group.files[k].path.as_str()) != first {
            assert(real_path(group@.files[k as int].path) != real_path(group@.files[0].path));
            return false;
        }
        k = k + 1;
    }
    true
}

/// The groups not lying inside a single archive, in order.
pub open spec fn outside_single_archive(gs: Seq<GroupView>) -> Seq<GroupView>
    decreases gs.len(),
{
    if gs.len() == 0 {
        Seq::empty()
    } else if zip_only(gs.last()) {
        outside_single_archive(gs.drop_last())
    } else {
        outside_single_archive(gs.drop_last()).push(gs.last())
    }
}

/// Drops the duplicate groups that lie inside a single archive (copies of one
/// member within one file), keeping the others in order.
pub fn drop_zip_only_groups(groups: Vec<Group>) -> (r: Vec<Group>)
    ensures
        groups_view(r@) == outside_single_archive(groups_view(groups@)),
{
    let ghost all = groups_view(groups@);
    let mut rest = groups;
    let mut out: Vec<Group> = Vec::new();
    let ghost mut done: int = 0;
    proof {
        assert(all.take(0) =~= Seq::<GroupView>::empty());
        assert(groups_view(rest@) =~= all.skip(0));
    }
    while rest.len() > 0
        invariant
            0 <= done <= all.len(),
            groups_view(rest@) == all.skip(done),
            groups_view(out@) == outside_single_archive(all.take(done)),
        decreases rest.len(),
    {
        let ghost r0 = rest@;
        assert(groups_view(r0).len() == r0.len());
        let g = rest.remove(0);
        proof {
            assert(groups_view(r0)[0] == all[done]);
            assert(groups_view(rest@) =~= all.skip(done + 1)) by {
                assert forall|j: int| 0 <= j < rest@.len() implies groups_view(rest@)[j] == all.skip(done + 1)[j] by {
                    assert(rest@[j] == r0[j + 1]);
                    assert(groups_view(r0)[j + 1] == all.skip(done)[j + 1]);
                }
            }
            let t = all.take(done + 1);
            assert(t.drop_last() =~= all.take(done));
            assert(t.last() == g@);
        }
        if !is_same_zip_only_group(&g) {
            let ghost o0 = out@;
            out.push(g);
            assert(groups_view(out@) =~= groups_view(o0).push(g@));
        }
        proof { done = done + 1; }
    }
    proof {
        assert(all.take(done) =~= all);
    }
    out
}


/// No group left by `drop_zip_only_groups` lies inside a single archive, and
/// every group outside one is kept.
pub proof fn law_zip_only_dropped(gs: Seq<GroupView>)
    ensures
        forall|i: int| 0 <= i < outside_single_archive(gs).len() ==> !zip_only(#[trigger] outside_single_archive(gs)[i]),
        forall|i: int| 0 <= i < gs.len() && !zip_only(#[trigger] gs[i]) ==> outside_single_archive(gs).contains(gs[i]),
    decreases gs.len(),
{
    if gs.len() > 0 {
        law_zip_only_dropped(gs.drop_last());
        let r0 = outside_single_archive(gs.drop_last());
        let r = outside_single_archive(gs);
        if !zip_only(gs.last()) {
            assert forall|i: int| 0 <= i < r.len() implies !zip_only(#[trigger] r[i]) by {
                if i < r0.len() {
                    assert(r[i] == r0[i]);
                }
            }
            assert(r[r0.len() as int] == gs.last());
        }
        assert forall|i: int| 0 <= i < gs.len() && !zip_only(#[trigger] gs[i]) implies r.contains(gs[i]) by {
            if i < gs.len() - 1 {
                assert(gs.drop_last()[i] == gs[i]);
                let k = choose|k: int| 0 <= k < r0.len() && r0[k] == gs[i];
                assert(r[k] == r0[k]);
            } else {
                assert(r[r0.len() as int] == gs.last());
            }
        }
    }
}

} // verus!
