//! Exact duplicates: narrowing the files down to those that may be equal
//! (same size, same head, same tail) and grouping those whose full hash is
//! equal, with hard links grouped on their own.
use vstd::prelude::*;
use crate::text::{chars_of, string_of};
use crate::model::{FileEntry, FileEntryView, Group, GroupView, size_text, decimal, decimal_chars, fmt_size, by_savable,
    groups_view, files_view, sort_by_savable, opt_text};
use crate::grouping::{group_items, flatten_groups, is_key_grouping, key_views, map_groups, nested_view};
use crate::similarity::{members_size, texts};

verus! {

/// The size class a file joins: its size, when it is known and not below `min_bytes`.
pub open spec fn size_key(size: Option<u64>, min_bytes: int) -> Option<u64> {
    match size {
        Some(l) => if min_bytes > 0 && l < min_bytes { None } else { Some(l) },
        None => None,
    }
}

/// The size keys of all files.
pub open spec fn size_keys(sizes: Seq<Option<u64>>, min_bytes: int) -> Seq<Option<u64>> {
    Seq::new(sizes.len(), |i: int| size_key(sizes[i], min_bytes))
}

proof fn lemma_identity_map(groups: Seq<Seq<usize>>, ids: Seq<usize>, n: int)
    requires
        ids.len() == n,
        forall|p: int| 0 <= p < n ==> ids[p] == p,
        forall|g: int, m: int| 0 <= g < groups.len() && 0 <= m < groups[g].len() ==> (#[trigger] groups[g][m]) < n,
    ensures
        map_groups(groups, ids) == groups,
{
    assert forall|g: int| 0 <= g < groups.len() implies #[trigger] map_groups(groups, ids)[g] == groups[g] by {
        assert(map_groups(groups, ids)[g] =~= groups[g]);
    }
    assert(map_groups(groups, ids) =~= groups);
}

fn identity(n: usize) -> (r: Vec<usize>)
    ensures
        r.len() == n,
        forall|p: int| 0 <= p < n ==> r@[p] == p,
{
    let mut r: Vec<usize> = Vec::new();
    let mut i: usize = 0;
    while i < n
        invariant
            i <= n,
            r.len() == i,
            forall|p: int| 0 <= p < i ==> r@[p] == p,
        decreases n - i,
    {
        r.push(i);
        i = i + 1;
    }
    r
}

/// The files that share their size class with another file, class after class
/// (classes in the order of their first file, files in increasing order).
pub fn size_candidates(sizes: &Vec<Option<u64>>, min_size_kb: u64) -> (r: Vec<usize>)
    requires
        min_size_kb * 1024 <= u64::MAX,
    ensures
        exists|groups: Seq<Seq<usize>>| is_key_grouping(size_keys(sizes@, min_size_kb * 1024), groups)
            && r@ == groups.flatten(),
{
    let min_bytes = min_size_kb * 1024;
    let n = sizes.len();
    let mut keys: Vec<Option<u64>> = Vec::new();
    let mut i: usize = 0;
    while i < n
        invariant
            i <= n,
            n == sizes.len(),
            min_bytes == min_size_kb * 1024,
            keys.len() == i,
            forall|p: int| 0 <= p < i ==> keys@[p] == size_key(sizes@[p], min_bytes as int),
        decreases n - i,
    {
        let k = match sizes[i] {
            Some(l) => if min_bytes > 0 && l < min_bytes { None } else { Some(l) },
            None => None,
        };
        keys.push(k);
        i = i + 1;
    }
    let ids = identity(n);
    let groups = group_items(&ids, &keys);
    let r = flatten_groups(&groups);
    proof {
        assert(key_views(keys@) =~= size_keys(sizes@, min_bytes as int));
        let gs = choose|gs: Seq<Seq<usize>>| is_key_grouping(key_views(keys@), gs) && nested_view(groups@) == map_groups(gs, ids@);
        assert forall|g: int, m: int| 0 <= g < gs.len() && 0 <= m < gs[g].len() implies (#[trigger] gs[g][m]) < n by {
            assert(gs[g][m] < key_views(keys@).len());
        }
        lemma_identity_map(gs, ids@, n as int);
    }
    r
}

/// Whether the item at `p` has a key that another item has too.
pub open spec fn key_shared<V>(keys: Seq<Option<V>>, p: int) -> bool {
    keys[p] is Some && exists|q: int| 0 <= q < keys.len() && q != p && #[trigger] keys[q] == keys[p]
}

/// The first `n` items (paired by position with their keys) whose key no other
/// item shares, in order.
pub open spec fn unshared_items<V>(cands: Seq<usize>, keys: Seq<Option<V>>, n: int) -> Seq<usize>
    decreases n,
{
    if n <= 0 {
        Seq::empty()
    } else {
        let r = unshared_items(cands, keys, n - 1);
        if key_shared(keys, n - 1) { r } else { r.push(cands[n - 1]) }
    }
}

/// A member of a key group shares its key with another member.
proof fn lemma_member_shared<V>(kv: Seq<Option<V>>, gs: Seq<Seq<usize>>, g: int, m: int)
    requires
        is_key_grouping(kv, gs),
        0 <= g < gs.len(),
        0 <= m < gs[g].len(),
    ensures
        gs[g][m] < kv.len(),
        key_shared(kv, gs[g][m] as int),
{
    let p = gs[g][m] as int;
    let q = if m == 0 { gs[g][1] as int } else { gs[g][0] as int };
    assert(gs[g].len() >= 2);
    assert(gs[g][0] < gs[g][1]);
    if m > 0 {
        assert(gs[g][0] < gs[g][m]);
    }
    assert(q < kv.len() && q != p);
    assert(kv[q] == kv[p]);
}

/// The stages that narrow files down to exact duplicates. They run in this
/// order: by size (`size_candidates`), then by inode when asked
/// (`split_by_inode`), then by head and by tail when a partial length is set
/// (`shared_key_members`), then by full hash (`hash_groups`).
#[derive(Debug, Clone, Copy, PartialEq, Eq, Structural)]
pub struct DupPlan {
    pub by_inode: bool,
    pub by_head_and_tail: bool,
}

/// The plan: hard links are grouped apart when asked and the system has
/// inodes; heads and tails are compared when the partial length is not zero.
pub fn duplicate_plan(check_inode: bool, has_inodes: bool, partial_hash_kb: u64) -> (r: DupPlan)
    ensures
        r.by_inode == (check_inode && has_inodes),
        r.by_head_and_tail == (partial_hash_kb > 0),
{
    DupPlan { by_inode: check_inode && has_inodes, by_head_and_tail: partial_hash_kb > 0 }
}

/// The candidates grouped by hard link (same inode and size), and the
/// candidates in no such group of two or more (those whose inode could not be
/// read among them), in order: these are still compared by their contents.
pub fn split_by_inode(cands: &Vec<usize>, inodes: &Vec<Option<(u64, u64)>>) -> (r: (Vec<Vec<usize>>, Vec<usize>))
    requires
        inodes.len() == cands.len(),
    ensures
        exists|groups: Seq<Seq<usize>>| is_key_grouping(key_views(inodes@), groups)
            && nested_view(r.0@) == map_groups(groups, cands@),
        r.1@ == unshared_items(cands@, key_views(inodes@), cands.len() as int),
{
    let groups = group_items(cands, inodes);
    let n = cands.len();
    let ghost kv = key_views(inodes@);
    let pos = crate::grouping::group_by_key(inodes);
    let ghost gs = pos@.map_values(|g: Vec<usize>| g@);
    assert(is_key_grouping(kv, gs));
    let mut in_group: Vec<bool> = Vec::new();
    let mut i: usize = 0;
    while i < n
        invariant
            i <= n,
            in_group.len() == i,
            forall|p: int| 0 <= p < i ==> !in_group@[p],
        decreases n - i,
    {
        in_group.push(false);
        i = i + 1;
    }
    let mut g: usize = 0;
    while g < pos.len()
        invariant
            n == cands.len(),
            kv == key_views(inodes@),
            kv.len() == n,
            gs == pos@.map_values(|g: Vec<usize>| g@),
            is_key_grouping(kv, gs),
            in_group.len() == n,
            g <= pos.len(),
            forall|p: int| 0 <= p < n && #[trigger] in_group@[p] ==> key_shared(kv, p),
            forall|g2: int, m2: int| 0 <= g2 < g && 0 <= m2 < gs[g2].len() ==> in_group@[#[trigger] gs[g2][m2] as int],
        decreases pos.len() - g,
    {
        let members = &pos[g];
        assert(gs[g as int] == members@);
        let mut m: usize = 0;
        while m < members.len()
            invariant
                n == cands.len(),
                kv == key_views(inodes@),
                kv.len() == n,
                gs == pos@.map_values(|g: Vec<usize>| g@),
                is_key_grouping(kv, gs),
                g < pos.len(),
                gs[g as int] == members@,
                in_group.len() == n,
                m <= members.len(),
                forall|p: int| 0 <= p < n && #[trigger] in_group@[p] ==> key_shared(kv, p),
                forall|g2: int, m2: int| 0 <= g2 < g && 0 <= m2 < gs[g2].len() ==> in_group@[#[trigger] gs[g2][m2] as int],
                forall|m2: int| 0 <= m2 < m ==> in_group@[#[trigger] members@[m2] as int],
            decreases members.len() - m,
        {
            let p = members[m];
            proof {
                lemma_member_shared(kv, gs, g as int, m as int);
            }
            let ghost before = in_group@;
            in_group.set(p, true);
            proof {
                assert forall|g2: int, m2: int| 0 <= g2 < g && 0 <= m2 < gs[g2].len() implies in_group@[#[trigger] gs[g2][m2] as int] by {
                    assert(before[gs[g2][m2] as int]);
                }
            }
            m = m + 1;
        }
        g = g + 1;
    }
    proof {
        assert forall|p: int| 0 <= p < n && key_shared(kv, p) implies #[trigger] in_group@[p] by {
            let q = choose|q: int| 0 <= q < kv.len() && q != p && #[trigger] kv[q] == kv[p];
            let g2 = choose|g2: int| 0 <= g2 < gs.len() && gs[g2].contains(p as usize);
            let m2 = choose|m2: int| 0 <= m2 < gs[g2].len() && gs[g2][m2] == p as usize;
            assert(in_group@[gs[g2][m2] as int]);
        }
    }
    let mut rest: Vec<usize> = Vec::new();
    let mut i: usize = 0;
    while i < n
        invariant
            n == cands.len(),
            kv == key_views(inodes@),
            in_group.len() == n,
            i <= n,
            forall|p: int| 0 <= p < n ==> (#[trigger] in_group@[p] <==> key_shared(kv, p)),
            rest@ == unshared_items(cands@, kv, i as int),
        decreases n - i,
    {
        if !in_group[i] {
            rest.push(cands[i]);
        }
        i = i + 1;
    }
    (groups, rest)
}

/// The candidates whose key (a partial hash) is shared with another candidate,
/// key after key.
pub fn shared_key_members(cands: &Vec<usize>, keys: &Vec<Option<String>>) -> (r: Vec<usize>)
    requires
        keys.len() == cands.len(),
    ensures
        exists|groups: Seq<Seq<usize>>| is_key_grouping(key_views(keys@), groups)
            && r@ == map_groups(groups, cands@).flatten(),
{
    let groups = group_items(cands, keys);
    flatten_groups(&groups)
}

proof fn lemma_flatten_has(groups: Seq<Seq<usize>>, g: int, m: int)
    requires
        0 <= g < groups.len(),
        0 <= m < groups[g].len(),
    ensures
        groups.flatten().contains(groups[g][m]),
    decreases groups.len(),
{
    let f = groups.flatten();
    assert(f == groups[0] + groups.drop_first().flatten());
    if g == 0 {
        assert(f[m] == groups[0][m]);
    } else {
        assert(groups.drop_first()[g - 1] == groups[g]);
        lemma_flatten_has(groups.drop_first(), g - 1, m);
        let r = groups.drop_first().flatten();
        let k = choose|k: int| 0 <= k < r.len() && r[k] == groups[g][m];
        assert(f[groups[0].len() + k] == r[k]);
    }
}

/// Pruning by a partial key never loses a file of a full-hash group of two or
/// more, where any two candidates with the same full key have the same partial
/// key (as when both keys are functions of a file's content): the members that
/// `shared_key_members` keeps include every candidate whose full key another
/// candidate shares. So the head and tail stages only take out files that the
/// full hash would have left alone in their group.
pub proof fn law_pruning_keeps_full_hash_groups(
    cands: Seq<usize>,
    partial: Seq<Option<Seq<char>>>,
    full: Seq<Option<Seq<char>>>,
    groups: Seq<Seq<usize>>,
)
    requires
        cands.len() <= usize::MAX,
        partial.len() == cands.len(),
        full.len() == cands.len(),
        forall|i: int, j: int| 0 <= i < cands.len() && 0 <= j < cands.len() && i != j && full[i] is Some
            && #[trigger] full[i] == #[trigger] full[j] ==> partial[i] is Some && partial[i] == partial[j],
        is_key_grouping(partial, groups),
    ensures
        forall|i: int, j: int| 0 <= i < cands.len() && 0 <= j < cands.len() && i != j && full[i] is Some
            && #[trigger] full[i] == #[trigger] full[j] ==> map_groups(groups, cands).flatten().contains(cands[i]),
{
    assert forall|i: int, j: int| 0 <= i < cands.len() && 0 <= j < cands.len() && i != j && full[i] is Some
        && #[trigger] full[i] == #[trigger] full[j] implies map_groups(groups, cands).flatten().contains(cands[i]) by {
        assert(partial[i] is Some && partial[j] == partial[i]);
        let g = choose|g: int| 0 <= g < groups.len() && groups[g].contains(i as usize);
        let m = choose|m: int| 0 <= m < groups[g].len() && groups[g][m] == i as usize;
        let mg = map_groups(groups, cands);
        assert(mg[g] == groups[g].map_values(|p: usize| cands[p as int]));
        assert(mg[g][m] == cands[groups[g][m] as int]);
        lemma_flatten_has(mg, g, m);
    }
}

/// The candidates grouped by full hash, each group with its hash.
pub fn hash_groups(cands: &Vec<usize>, keys: &Vec<Option<String>>) -> (r: (Vec<Vec<usize>>, Vec<String>))
    requires
        keys.len() == cands.len(),
    ensures
        exists|groups: Seq<Seq<usize>>| is_key_grouping(key_views(keys@), groups)
            && nested_view(r.0@) == map_groups(groups, cands@)
            && r.1.len() == groups.len()
            && forall|g: int| 0 <= g < groups.len() ==> key_views(keys@)[groups[g][0] as int] == Some((#[trigger] r.1@[g])@),
{
    let groups = crate::grouping::group_by_key(keys);
    let ghost gs = groups@.map_values(|g: Vec<usize>| g@);
    let mut mapped: Vec<Vec<usize>> = Vec::new();
    let mut hashes: Vec<String> = Vec::new();
    let mut g: usize = 0;
    while g < groups.len()
        invariant
            keys.len() == cands.len(),
            gs == groups@.map_values(|g: Vec<usize>| g@),
            is_key_grouping(key_views(keys@), gs),
            g <= groups.len(),
            mapped.len() == g,
            hashes.len() == g,
            forall|h: int| 0 <= h < g ==> (#[trigger] mapped@[h])@ == gs[h].map_values(|p: usize| cands@[p as int]),
            forall|h: int| 0 <= h < g ==> key_views(keys@)[gs[h][0] as int] == Some((#[trigger] hashes@[h])@),
        decreases groups.len() - g,
    {
        let members = &groups[g];
        assert(gs[g as int] == members@);
        assert(members@.len() >= 2);
        let first = members[0];
        assert(first < keys.len());
        assert(key_views(keys@)[first as int] is Some);
        let h = match &keys[first] {
            Some(s) => s.clone(),
            None => String::new(),
        };
        let mut out: Vec<usize> = Vec::new();
        let mut m: usize = 0;
        while m < members.len()
            invariant
                keys.len() == cands.len(),
                gs[g as int] == members@,
                is_key_grouping(key_views(keys@), gs),
                0 <= g < gs.len(),
                m <= members.len(),
                out@ == members@.take(m as int).map_values(|p: usize| cands@[p as int]),
            decreases members.len() - m,
        {
            assert(gs[g as int][m as int] < key_views(keys@).len());
            out.push(cands[members[m]]);
            assert(members@.take(m + 1).map_values(|p: usize| cands@[p as int])
                =~= members@.take(m as int).map_values(|p: usize| cands@[p as int]).push(cands@[members@[m as int] as int]));
            m = m + 1;
        }
        assert(members@.take(members.len() as int) =~= members@);
        mapped.push(out);
        hashes.push(h);
        g = g + 1;
    }
    assert(nested_view(mapped@) =~= map_groups(gs, cands@));
    (mapped, hashes)
}

/// One file of a duplicate group.
pub open spec fn dup_file(path: Seq<char>, size: u64, hash: Seq<char>, created: Option<Seq<char>>, keep: bool) -> FileEntryView {
    FileEntryView {
        path,
        size,
        size_fmt: size_text(size as nat),
        keep,
        hash: Some(hash),
        phash: None,
        file_type: "file"@,
        created,
        frame_count: None,
        shared: None,
        total_files: None,
    }
}

/// A duplicate group: its files (the first one kept), their hash, and its id.
pub open spec fn dup_group(
    paths: Seq<Seq<char>>,
    sizes: Seq<u64>,
    created: Seq<Option<Seq<char>>>,
    members: Seq<usize>,
    hash: Seq<char>,
    id: Seq<char>,
) -> GroupView {
    let sav = members_size(sizes, members, 1);
    GroupView {
        id,
        files: Seq::new(members.len(), |m: int| dup_file(paths[members[m] as int], sizes[members[m] as int], hash,
            created[members[m] as int], m == 0)),
        savable: sav as u64,
        savable_fmt: size_text(sav as nat),
        category: None,
        shared: None,
    }
}

pub open spec fn opt_texts(v: Seq<Option<String>>) -> Seq<Option<Seq<char>>> {
    v.map_values(|s: Option<String>| opt_text(s))
}

/// The group of files with hash `hashes[i]`, numbered `i + 1`.
pub open spec fn hash_group_view(paths: Seq<Seq<char>>, sizes: Seq<u64>, created: Seq<Option<Seq<char>>>,
    members: Seq<usize>, hash: Seq<char>, i: nat) -> GroupView {
    dup_group(paths, sizes, created, members, hash, "r"@ + decimal(i + 1))
}

/// The group of hard links number `i + 1`, whose hash field is `inode-i`.
pub open spec fn inode_group_view(paths: Seq<Seq<char>>, sizes: Seq<u64>, created: Seq<Option<Seq<char>>>,
    members: Seq<usize>, i: nat) -> GroupView {
    dup_group(paths, sizes, created, members, "inode-"@ + decimal(i), "r-ino"@ + decimal(i + 1))
}

/// Every group lists files of the scan, and what it saves fits in a `u64`.
pub open spec fn groups_fit(groups: Seq<Seq<usize>>, n: int, sizes: Seq<u64>) -> bool {
    forall|g: int| 0 <= g < groups.len() ==> (#[trigger] groups[g]).len() >= 1
        && members_size(sizes, groups[g], 1) <= u64::MAX
        && forall|m: int| 0 <= m < groups[g].len() ==> #[trigger] groups[g][m] < n
}

fn prefixed(prefix: &str, n: u64) -> (r: String)
    ensures
        r@ == prefix@ + decimal(n as nat),
{
    let mut v = chars_of(prefix);
    let d = decimal_chars(n);
    let ghost v0 = v@;
    let mut k: usize = 0;
    while k < d.len()
        invariant
            k <= d.len(),
            v@ == v0 + d@.take(k as int),
        decreases d.len() - k,
    {
        v.push(d[k]);
        assert(v0 + d@.take(k as int).push(d@[k as int]) =~= v0 + d@.take(k + 1));
        k = k + 1;
    }
    assert(d@.take(d.len() as int) =~= d@);
    string_of(&v)
}

fn build_dup_group(
    paths: &Vec<String>,
    sizes: &Vec<u64>,
    created: &Vec<Option<String>>,
    members: &Vec<usize>,
    hash: &String,
    id: String,
) -> (r: Group)
    requires
        paths.len() == sizes.len(),
        created.len() == sizes.len(),
        members.len() >= 1,
        members_size(sizes@, members@, 1) <= u64::MAX,
        forall|m: int| 0 <= m < members.len() ==> #[trigger] members@[m] < sizes.len(),
    ensures
        r@ == dup_group(texts(paths@), sizes@, opt_texts(created@), members@, hash@, id@),
{
    let mut files: Vec<FileEntry> = Vec::new();
    let mut m: usize = 0;
    while m < members.len()
        invariant
            paths.len() == sizes.len(),
            created.len() == sizes.len(),
            m <= members.len(),
            forall|j: int| 0 <= j < members.len() ==> #[trigger] members@[j] < sizes.len(),
            files.len() == m,
            forall|j: int| 0 <= j < m ==> (#[trigger] files@[j])@ == dup_file(texts(paths@)[members@[j] as int],
                sizes@[members@[j] as int], hash@, opt_texts(created@)[members@[j] as int], j == 0),
        decreases members.len() - m,
    {
        let id = members[m];
        let c = match &created[id] {
            Some(s) => Some(s.clone()),
            None => None,
        };
        let entry = FileEntry {
            path: paths[id].clone(),
            size: sizes[id],
            size_fmt: fmt_size(sizes[id]),
            keep: m == 0,
            hash: Some(hash.clone()),
            phash: None,
            file_type: string_of(&chars_of("file")),
            created: c,
            frame_count: None,
            shared: None,
            total_files: None,
        };
        files.push(entry);
        m = m + 1;
    }
    let mut sav: u64 = 0;
    let mut k: usize = members.len();
    while k > 1
        invariant
            1 <= k <= members.len(),
            forall|j: int| 0 <= j < members.len() ==> #[trigger] members@[j] < sizes.len(),
            sav == members_size(sizes@, members@, k as int),
            members_size(sizes@, members@, 1) <= u64::MAX,
        decreases k,
    {
        k = k - 1;
        proof {
            crate::similarity::lemma_members_size_mono(sizes@, members@, 1, k as int);
        }
        sav = sav + sizes[members[k]];
    }
    let r = Group { id, files, savable: sav, savable_fmt: fmt_size(sav), category: None, shared: None };
    proof {
        let dg = dup_group(texts(paths@), sizes@, opt_texts(created@), members@, hash@, id@);
        assert(files_view(r.files@) =~= dg.files);
    }
    r
}

/// The duplicate groups of a scan: the groups of equal full hash (numbered in
/// order) and the groups of hard links, largest saving first, the first file of
/// each group kept.
pub fn duplicate_groups(
    paths: &Vec<String>,
    sizes: &Vec<u64>,
    created: &Vec<Option<String>>,
    hash_members: &Vec<Vec<usize>>,
    hashes: &Vec<String>,
    inode_members: &Vec<Vec<usize>>,
) -> (r: Vec<Group>)
    requires
        paths.len() == sizes.len(),
        created.len() == sizes.len(),
        hashes.len() == hash_members.len(),
        groups_fit(nested_view(hash_members@), sizes.len() as int, sizes@),
        groups_fit(nested_view(inode_members@), sizes.len() as int, sizes@),
        hash_members.len() < u64::MAX,
        inode_members.len() < u64::MAX,
    ensures
        groups_view(r@) == by_savable(
            Seq::new(hash_members.len() as nat, |i: int| hash_group_view(texts(paths@), sizes@, opt_texts(created@),
                hash_members@[i]@, hashes@[i]@, i as nat))
            + Seq::new(inode_members.len() as nat, |i: int| inode_group_view(texts(paths@), sizes@, opt_texts(created@),
                inode_members@[i]@, i as nat))),
{
    let ghost tp = texts(paths@);
    let ghost tc = opt_texts(created@);
    let mut out: Vec<Group> = Vec::new();
    let mut i: usize = 0;
    while i < hash_members.len()
        invariant
            paths.len() == sizes.len(),
            created.len() == sizes.len(),
            hashes.len() == hash_members.len(),
            groups_fit(nested_view(hash_members@), sizes.len() as int, sizes@),
            hash_members.len() < u64::MAX,
            tp == texts(paths@),
            tc == opt_texts(created@),
            i <= hash_members.len(),
            out.len() == i,
            forall|j: int| 0 <= j < i ==> (#[trigger] out@[j])@ == hash_group_view(tp, sizes@, tc, hash_members@[j]@, hashes@[j]@, j as nat),
        decreases hash_members.len() - i,
    {
        assert(nested_view(hash_members@)[i as int] == hash_members@[i as int]@);
        let id = prefixed("r", (i + 1) as u64);
        out.push(build_dup_group(paths, sizes, created, &hash_members[i], &hashes[i], id));
        i = i + 1;
    }
    let mut k: usize = 0;
    while k < inode_members.len()
        invariant
            paths.len() == sizes.len(),
            created.len() == sizes.len(),
            groups_fit(nested_view(inode_members@), sizes.len() as int, sizes@),
            inode_members.len() < u64::MAX,
            tp == texts(paths@),
            tc == opt_texts(created@),
            k <= inode_members.len(),
            out.len() == hash_members.len() + k,
            forall|j: int| 0 <= j < hash_members.len() ==> (#[trigger] out@[j])@ == hash_group_view(tp, sizes@, tc, hash_members@[j]@, hashes@[j]@, j as nat),
            forall|j: int| 0 <= j < k ==> (#[trigger] out@[hash_members.len() + j])@ == inode_group_view(tp, sizes@, tc, inode_members@[j]@, j as nat),
        decreases inode_members.len() - k,
    {
        assert(nested_view(inode_members@)[k as int] == inode_members@[k as int]@);
        let id = prefixed("r-ino", (k + 1) as u64);
        let h = prefixed("inode-", k as u64);
        out.push(build_dup_group(paths, sizes, created, &inode_members[k], &h, id));
        k = k + 1;
    }
    let r = sort_by_savable(out);
    proof {
        let hs = Seq::new(hash_members.len() as nat, |i: int| hash_group_view(tp, sizes@, tc, hash_members@[i]@, hashes@[i]@, i as nat));
        let is = Seq::new(inode_members.len() as nat, |i: int| inode_group_view(tp, sizes@, tc, inode_members@[i]@, i as nat));
        assert forall|j: int| 0 <= j < out.len() implies #[trigger] groups_view(out@)[j] == (hs + is)[j] by {
            if j >= hash_members.len() {
                let q = j - hash_members.len();
                assert(out@[hash_members.len() + q] == out@[j]);
            }
        }
        assert(groups_view(out@) =~= hs + is);
    }
    r
}

} // verus!
