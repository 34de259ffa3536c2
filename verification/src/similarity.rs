//! Similar images and videos: joining files whose hashes are close, and the
//! groups reported for each joined set.
use vstd::prelude::*;
use crate::text::{chars_of, string_of};
use crate::model::{FileEntry, FileEntryView, Group, GroupView, size_text, decimal, fmt_size, by_savable, files_view};
use crate::grouping::{linked, link_components, group_by_key, is_key_grouping, key_views, lemma_linked_sym};
use crate::phash::{BkTree, hamming, holds_hash, find_answer};
use crate::model::{sort_by_savable, groups_view};

verus! {

/// The hex digit of a nibble.
pub open spec fn hex_digit(d: u64) -> char {
    if d < 10 {
        ((48 + d) as u8) as char
    } else {
        ((87 + d) as u8) as char
    }
}

/// A hash as 16 lowercase hex digits, most significant first (`{:016x}`).
pub open spec fn hex16(h: u64) -> Seq<char> {
    Seq::new(16, |i: int| hex_digit((h >> ((60 - 4 * i) as u64)) & 0xf))
}

/// A 64-bit hash as 16 lowercase hex digits.
pub fn hash_hex(h: u64) -> (r: String)
    ensures
        r@ == hex16(h),
{
    let mut v: Vec<char> = Vec::new();
    let mut i: u64 = 0;
    while i < 16
        invariant
            i <= 16,
            v@.len() == i,
            forall|j: int| 0 <= j < i ==> v@[j] == #[trigger] hex16(h)[j],
        decreases 16 - i,
    {
        let sh: u64 = 60 - 4 * i;
        let d = (h >> sh) & 0xf;
        assert(d < 16) by (bit_vector)
            requires d == (h >> sh) & 0xf;
        assert(sh == (60 - 4 * (i as int)) as u64);
        let c = if d < 10 { ((48 + d) as u8) as char } else { ((87 + d) as u8) as char };
        v.push(c);
        i = i + 1;
    }
    assert(v@ =~= hex16(h));
    string_of(&v)
}

/// The sum of the sizes of `members`, from the `from`-th member on.
pub open spec fn members_size(sizes: Seq<u64>, members: Seq<usize>, from: int) -> int
    decreases members.len() - from,
{
    if from >= members.len() || from < 0 {
        0
    } else {
        sizes[members[from] as int] + members_size(sizes, members, from + 1)
    }
}

/// The sum of the first `k` sizes.
pub open spec fn prefix_size(sizes: Seq<u64>, k: int) -> int
    decreases k,
{
    if k <= 0 {
        0
    } else {
        prefix_size(sizes, k - 1) + sizes[k - 1]
    }
}

/// The sum of all sizes.
pub open spec fn total_size(sizes: Seq<u64>) -> int {
    prefix_size(sizes, sizes.len() as int)
}

proof fn lemma_prefix_mono(sizes: Seq<u64>, a: int, b: int)
    requires
        0 <= a <= b <= sizes.len(),
    ensures
        prefix_size(sizes, a) <= prefix_size(sizes, b),
    decreases b,
{
    if a < b {
        lemma_prefix_mono(sizes, a, b - 1);
    }
}

/// Any members listed in increasing order weigh no more than the sizes up to the last.
proof fn lemma_members_size(sizes: Seq<u64>, members: Seq<usize>, from: int)
    requires
        0 <= from < members.len(),
        forall|m: int| 0 <= m < members.len() ==> #[trigger] members[m] < sizes.len(),
        forall|m1: int, m2: int| 0 <= m1 < m2 < members.len() ==> #[trigger] members[m1] < #[trigger] members[m2],
    ensures
        members_size(sizes, members, from) + prefix_size(sizes, members[from] as int) <= total_size(sizes),
        members_size(sizes, members, from) >= 0,
    decreases members.len() - from,
{
    let x = members[from] as int;
    assert(prefix_size(sizes, x + 1) == prefix_size(sizes, x) + sizes[x]);
    lemma_prefix_mono(sizes, 0, x);
    if from + 1 < members.len() {
        lemma_members_size(sizes, members, from + 1);
        let y = members[from + 1] as int;
        assert(members[from] < members[from + 1]);
        lemma_prefix_mono(sizes, x + 1, y);
    } else {
        assert(members_size(sizes, members, from + 1) == 0);
        lemma_prefix_mono(sizes, x + 1, sizes.len() as int);
    }
}

pub proof fn lemma_members_size_mono(sizes: Seq<u64>, members: Seq<usize>, a: int, b: int)
    requires
        0 <= a <= b,
        forall|m: int| 0 <= m < members.len() ==> #[trigger] members[m] < sizes.len(),
    ensures
        0 <= members_size(sizes, members, b) <= members_size(sizes, members, a),
    decreases b - a,
{
    if a < b {
        lemma_members_size_mono(sizes, members, a + 1, b);
        if a < members.len() {
            assert(members_size(sizes, members, a) == sizes[members[a] as int] + members_size(sizes, members, a + 1));
        }
    } else {
        lemma_members_size_nonneg(sizes, members, b);
    }
}

proof fn lemma_members_size_nonneg(sizes: Seq<u64>, members: Seq<usize>, from: int)
    ensures
        0 <= members_size(sizes, members, from),
    decreases members.len() - from,
{
    if 0 <= from < members.len() {
        lemma_members_size_nonneg(sizes, members, from + 1);
    }
}

/// One file of a similarity group: a video shows its frame count, an image its hash.
pub open spec fn sim_file(video: bool, path: Seq<char>, size: u64, detail: Seq<char>, first: bool) -> FileEntryView {
    FileEntryView {
        path,
        size,
        size_fmt: size_text(size as nat),
        keep: first,
        hash: None,
        phash: if video { None } else { Some(detail) },
        file_type: "file"@,
        created: None,
        frame_count: if video { Some(detail) } else { None },
        shared: None,
        total_files: None,
    }
}

/// The group reported for the members of one joined set, as the `g`-th group found.
pub open spec fn sim_group(
    video: bool,
    paths: Seq<Seq<char>>,
    sizes: Seq<u64>,
    details: Seq<Seq<char>>,
    members: Seq<usize>,
    g: nat,
    far: bool,
) -> GroupView {
    let sav = members_size(sizes, members, 1);
    GroupView {
        id: (if video { "v"@ } else { "i"@ }) + decimal(g + 1),
        files: Seq::new(members.len(), |m: int| sim_file(video, paths[members[m] as int], sizes[members[m] as int],
            details[members[m] as int], m == 0)),
        savable: sav as u64,
        savable_fmt: size_text(sav as nat),
        category: Some(if far { "similar"@ } else { "exact"@ }),
        shared: None,
    }
}

/// `groups` gathers the indices `0..n` joined by `links`: each group holds every
/// index joined to its first one, in increasing order; only sets of two or more
/// indices form a group; groups come in the order of their first index.
pub open spec fn is_link_grouping(n: nat, links: Seq<(usize, usize, bool)>, groups: Seq<Seq<usize>>) -> bool {
    &&& forall|g: int| 0 <= g < groups.len() ==> (#[trigger] groups[g]).len() >= 2
    &&& forall|g: int, m: int| 0 <= g < groups.len() && 0 <= m < groups[g].len() ==>
            (#[trigger] groups[g][m]) < n && linked(links, groups[g][0] as int, groups[g][m] as int)
    &&& forall|g: int, m1: int, m2: int| 0 <= g < groups.len() && 0 <= m1 < m2 < groups[g].len()
            ==> #[trigger] groups[g][m1] < #[trigger] groups[g][m2]
    &&& forall|g: int, i: int| 0 <= g < groups.len() && 0 <= i < n
            && #[trigger] linked(links, (#[trigger] groups[g])[0] as int, i) ==> groups[g].contains(i as usize)
    &&& forall|g1: int, g2: int| 0 <= g1 < g2 < groups.len() ==> (#[trigger] groups[g1])[0] < (#[trigger] groups[g2])[0]
    &&& forall|i: int, j: int| 0 <= i < n && 0 <= j < n && i != j && #[trigger] linked(links, i, j)
            ==> exists|g: int| 0 <= g < groups.len() && groups[g].contains(i as usize)
}

/// The groups reported for files joined by `links` (see `sim_group`), largest
/// saving first. Each group's saving fits in 64 bits. A group is "similar"
/// exactly where a far link joins two of its files, "exact" where every link
/// inside it is near.
pub open spec fn is_similarity_result(
    video: bool,
    paths: Seq<Seq<char>>,
    sizes: Seq<u64>,
    details: Seq<Seq<char>>,
    links: Seq<(usize, usize, bool)>,
    r: Seq<GroupView>,
) -> bool {
    exists|groups: Seq<Seq<usize>>, fars: Seq<bool>| {
        &&& is_link_grouping(sizes.len(), links, groups)
        &&& fars.len() == groups.len()
        &&& forall|g: int| 0 <= g < groups.len() ==> members_size(sizes, #[trigger] groups[g], 1) <= u64::MAX
        &&& forall|g: int| 0 <= g < groups.len() ==> (#[trigger] fars[g] <==> exists|k: int| 0 <= k < links.len()
                && (#[trigger] links[k]).2 && groups[g].contains(links[k].0))
        &&& r == by_savable(Seq::new(groups.len(), |g: int| sim_group(video, paths, sizes, details, groups[g], g as nat, fars[g])))
    }
}

/// Some set of files that `links` join holds files after its first whose sizes
/// add up to more than 64 bits.
pub open spec fn saving_overflows(sizes: Seq<u64>, links: Seq<(usize, usize, bool)>) -> bool {
    exists|groups: Seq<Seq<usize>>| is_link_grouping(sizes.len(), links, groups)
        && exists|g: int| 0 <= g < groups.len() && members_size(sizes, #[trigger] groups[g], 1) > u64::MAX
}

pub open spec fn texts(v: Seq<String>) -> Seq<Seq<char>> {
    v.map_values(|s: String| s@)
}

fn build_sim_group(
    video: bool,
    paths: &Vec<String>,
    sizes: &Vec<u64>,
    details: &Vec<String>,
    members: &Vec<usize>,
    g: usize,
    far: bool,
) -> (r: Option<Group>)
    requires
        paths.len() == sizes.len(),
        details.len() == sizes.len(),
        g < usize::MAX,
        members.len() >= 1,
        forall|m: int| 0 <= m < members.len() ==> #[trigger] members@[m] < sizes.len(),
        forall|m1: int, m2: int| 0 <= m1 < m2 < members.len() ==> #[trigger] members@[m1] < #[trigger] members@[m2],
    ensures
        match r {
            Some(grp) => members_size(sizes@, members@, 1) <= u64::MAX
                && grp@ == sim_group(video, texts(paths@), sizes@, texts(details@), members@, g as nat, far),
            None => members_size(sizes@, members@, 1) > u64::MAX,
        },
{
    let mut files: Vec<FileEntry> = Vec::new();
    let mut m: usize = 0;
    while m < members.len()
        invariant
            paths.len() == sizes.len(),
            details.len() == sizes.len(),
            m <= members.len(),
            forall|j: int| 0 <= j < members.len() ==> #[trigger] members@[j] < sizes.len(),
            files.len() == m,
            forall|j: int| 0 <= j < m ==> (#[trigger] files@[j])@ == sim_file(video, texts(paths@)[members@[j] as int],
                sizes@[members@[j] as int], texts(details@)[members@[j] as int], j == 0),
        decreases members.len() - m,
    {
        let id = members[m];
        let detail = details[id].clone();
        let entry = FileEntry {
            path: paths[id].clone(),
            size: sizes[id],
            size_fmt: fmt_size(sizes[id]),
            keep: m == 0,
            hash: None,
            phash: if video { None } else { Some(detail.clone()) },
            file_type: string_of(&chars_of("file")),
            created: None,
            frame_count: if video { Some(detail) } else { None },
            shared: None,
            total_files: None,
        };
        files.push(entry);
        m = m + 1;
    }
    let mut sav: u64 = 0;
    let mut k: usize = members.len();
    while k > 1
        invariant
            1 <= k <= members.len(),
            forall|j: int| 0 <= j < members.len() ==> #[trigger] members@[j] < sizes.len(),
            sav == members_size(sizes@, members@, k as int),
        decreases k,
    {
        k = k - 1;
        proof {
            lemma_members_size_mono(sizes@, members@, 1, k as int);
        }
        match sav.checked_add(sizes[members[k]]) {
            Some(v) => sav = v,
            None => return None,
        }
    }
    let mut id: Vec<char> = Vec::new();
    id.push(if video { 'v' } else { 'i' });
    let num = crate::model::decimal_chars((g + 1) as u64);
    let mut j: usize = 0;
    while j < num.len()
        invariant
            j <= num.len(),
            id@ == seq![if video { 'v' } else { 'i' }] + num@.take(j as int),
        decreases num.len() - j,
    {
        id.push(num[j]);
        assert(seq![if video { 'v' } else { 'i' }] + num@.take(j as int).push(num@[j as int]) =~= seq![if video { 'v' } else { 'i' }] + num@.take(j + 1));
        j = j + 1;
    }
    let cat = if far { string_of(&chars_of("similar")) } else { string_of(&chars_of("exact")) };
    let r = Group {
        id: string_of(&id),
        files,
        savable: sav,
        savable_fmt: fmt_size(sav),
        category: Some(cat),
        shared: None,
    };
    proof {
        reveal_strlit("v");
        reveal_strlit("i");
        assert(num@.take(num.len() as int) =~= num@);
        let sg = sim_group(video, texts(paths@), sizes@, texts(details@), members@, g as nat, far);
        assert(files_view(r.files@) =~= sg.files);
        assert(r@.id == sg.id);
        assert(r@.savable == sg.savable);
        assert(r@.savable_fmt == sg.savable_fmt);
        assert(r@.category == sg.category);
    }
    Some(r)
}

/// Each file's representative marks whether a far link reaches it.
#[verifier::opaque]
pub open spec fn far_marks(links: Seq<(usize, usize, bool)>, roots: Seq<usize>, far: Seq<bool>, n: int) -> bool {
    forall|y: int| 0 <= y < n ==> (#[trigger] far[roots[y] as int] <==> exists|k: int| 0 <= k < links.len()
        && (#[trigger] links[k]).2 && linked(links, links[k].0 as int, y))
}

/// Grouping files by their representative groups them by `links`.
proof fn lemma_roots_grouping(n: nat, links: Seq<(usize, usize, bool)>, roots: Seq<usize>, kv: Seq<Option<usize>>, gs: Seq<Seq<usize>>)
    requires
        roots.len() == n,
        kv.len() == n,
        forall|x: int, y: int| 0 <= x < n && 0 <= y < n ==> (#[trigger] roots[x] == #[trigger] roots[y] <==> linked(links, x, y)),
        forall|i: int| 0 <= i < n ==> #[trigger] kv[i] == Some(roots[i]),
        is_key_grouping(kv, gs),
    ensures
        is_link_grouping(n, links, gs),
{
    assert forall|h: int, m: int| 0 <= h < gs.len() && 0 <= m < gs[h].len() implies
        (#[trigger] gs[h][m]) < n && linked(links, gs[h][0] as int, gs[h][m] as int) by {
        let a = gs[h][0] as int;
        let b = gs[h][m] as int;
        assert(kv[b] == kv[a]);
        assert(a < n && b < n);
        assert(roots[a] == roots[b]);
    }
    assert forall|h: int, i: int| 0 <= h < gs.len() && 0 <= i < n
        && #[trigger] linked(links, (#[trigger] gs[h])[0] as int, i) implies gs[h].contains(i as usize) by {
        let a = gs[h][0] as int;
        assert(a < n);
        assert(roots[a] == roots[i]);
        assert(kv[i] == kv[a]);
    }
    assert forall|i: int, j: int| 0 <= i < n && 0 <= j < n && i != j && #[trigger] linked(links, i, j)
        implies exists|h: int| 0 <= h < gs.len() && gs[h].contains(i as usize) by {
        assert(roots[i] == roots[j]);
        assert(kv[i] == kv[j] && kv[i] is Some);
    }
}

/// A far link reaches the first file of a group exactly when a far link has an
/// end in the group.
proof fn lemma_far_link_in_group(n: nat, links: Seq<(usize, usize, bool)>, groups: Seq<Seq<usize>>, g: int, far: bool)
    requires
        is_link_grouping(n, links, groups),
        0 <= g < groups.len(),
        forall|k: int| 0 <= k < links.len() ==> (#[trigger] links[k]).0 < n,
        far <==> exists|k: int| 0 <= k < links.len() && (#[trigger] links[k]).2 && linked(links, links[k].0 as int, groups[g][0] as int),
    ensures
        far <==> exists|k: int| 0 <= k < links.len() && (#[trigger] links[k]).2 && groups[g].contains(links[k].0),
{
    let x0 = groups[g][0] as int;
    if far {
        let k = choose|k: int| 0 <= k < links.len() && (#[trigger] links[k]).2 && linked(links, links[k].0 as int, x0);
        lemma_linked_sym(links, links[k].0 as int, x0);
        assert(groups[g].contains(links[k].0));
    }
    if exists|k: int| 0 <= k < links.len() && (#[trigger] links[k]).2 && groups[g].contains(links[k].0) {
        let k = choose|k: int| 0 <= k < links.len() && (#[trigger] links[k]).2 && groups[g].contains(links[k].0);
        let m = choose|m: int| 0 <= m < groups[g].len() && groups[g][m] == links[k].0;
        assert(linked(links, x0, groups[g][m] as int));
        lemma_linked_sym(links, x0, links[k].0 as int);
    }
}

/// The groups of the files `0..n` joined by `links`, as `sim_group` describes
/// them, largest saving first; `None` where a group's saving does not fit in 64
/// bits.
#[verifier::spinoff_prover]
#[verifier::rlimit(50)]
pub fn similarity_groups(
    video: bool,
    paths: &Vec<String>,
    sizes: &Vec<u64>,
    details: &Vec<String>,
    links: &Vec<(usize, usize, bool)>,
) -> (r: Option<Vec<Group>>)
    requires
        paths.len() == sizes.len(),
        details.len() == sizes.len(),
        forall|k: int| 0 <= k < links.len() ==> (#[trigger] links@[k]).0 < sizes.len() && links@[k].1 < sizes.len(),
    ensures
        match r {
            Some(v) => is_similarity_result(video, texts(paths@), sizes@, texts(details@), links@, groups_view(v@)),
            None => saving_overflows(sizes@, links@),
        },
{
    let n = sizes.len();
    let (roots, far) = link_components(n, links);
    let mut keys: Vec<Option<usize>> = Vec::new();
    let mut x: usize = 0;
    while x < n
        invariant
            x <= n,
            roots.len() == n,
            keys.len() == x,
            forall|y: int| 0 <= y < x ==> keys@[y] == Some(roots@[y]),
        decreases n - x,
    {
        keys.push(Some(roots[x]));
        x = x + 1;
    }
    let groups = group_by_key(&keys);
    let ghost gs = groups@.map_values(|g: Vec<usize>| g@);
    let ghost kv = key_views(keys@);
    proof {
        assert forall|i: int| 0 <= i < n implies #[trigger] kv[i] == Some(roots@[i]) by {}
        assert(is_key_grouping(kv, gs));
        lemma_roots_grouping(n as nat, links@, roots@, kv, gs);
        reveal(far_marks);
        assert(far_marks(links@, roots@, far@, n as int));
        assert(is_link_grouping(sizes.len() as nat, links@, gs));
    }
    let mut out: Vec<Group> = Vec::new();
    let ghost mut fars: Seq<bool> = Seq::empty();
    let mut g: usize = 0;
    while g < groups.len()
        invariant
            paths.len() == sizes.len(),
            details.len() == sizes.len(),
            n == sizes.len(),
            roots.len() == n,
            far.len() == n,
            forall|y: int| 0 <= y < n ==> (#[trigger] roots@[y]) < n,
            far_marks(links@, roots@, far@, n as int),
            forall|k: int| 0 <= k < links.len() ==> (#[trigger] links@[k]).0 < sizes.len(),
            gs == groups@.map_values(|g: Vec<usize>| g@),
            forall|i: int| 0 <= i < n ==> #[trigger] kv[i] == Some(roots@[i]),
            kv.len() == n,
            is_key_grouping(kv, gs),
            is_link_grouping(sizes.len() as nat, links@, gs),
            g <= groups.len(),
            out.len() == g,
            fars.len() == g,
            forall|h: int| 0 <= h < g ==> (#[trigger] fars[h] <==> exists|k: int| 0 <= k < links.len()
                && (#[trigger] links@[k]).2 && gs[h].contains(links@[k].0)),
            forall|h: int| 0 <= h < g ==> members_size(sizes@, #[trigger] gs[h], 1) <= u64::MAX,
            forall|h: int| 0 <= h < g ==> (#[trigger] out@[h])@ == sim_group(video, texts(paths@), sizes@, texts(details@), gs[h], h as nat, fars[h]),
        decreases groups.len() - g,
    {
        let members = &groups[g];
        assert(gs[g as int] == members@);
        assert(members@.len() >= 2);
        assert forall|m: int| 0 <= m < members.len() implies #[trigger] members@[m] < sizes.len() by {
            assert(gs[g as int][m] < kv.len());
        }
        assert forall|m1: int, m2: int| 0 <= m1 < m2 < members.len() implies #[trigger] members@[m1] < #[trigger] members@[m2] by {
            assert(gs[g as int][m1] < gs[g as int][m2]);
        }
        let f = far[roots[members[0]]];
        match build_sim_group(video, paths, sizes, details, members, g, f) {
            Some(grp) => out.push(grp),
            None => {
                proof {
                    assert(members_size(sizes@, gs[g as int], 1) > u64::MAX);
                }
                return None;
            },
        }
        proof {
            let x0 = gs[g as int][0] as int;
            assert(x0 < n);
            reveal(far_marks);
            assert(f <==> exists|k: int| 0 <= k < links.len() && (#[trigger] links@[k]).2 && linked(links@, links@[k].0 as int, x0));
            lemma_far_link_in_group(sizes.len() as nat, links@, gs, g as int, f);
            fars = fars.push(f);
        }
        g = g + 1;
    }
    let r = sort_by_savable(out);
    proof {
        let built = Seq::new(gs.len(), |h: int| sim_group(video, texts(paths@), sizes@, texts(details@), gs[h], h as nat, fars[h]));
        assert(groups_view(out@) =~= built);
    }
    Some(r)
}

/// `j` holds the first occurrence of its hash.
pub open spec fn first_with_hash(hs: Seq<u64>, j: int) -> bool {
    forall|k: int| 0 <= k < j ==> #[trigger] hs[k] != hs[j]
}

/// `links` joins each image `i` to each other image `j` that is the first to
/// hold its hash and lies within `similar` of `i`, and to nothing else; a link
/// is far when the distance is above `exact`.
pub open spec fn is_image_links(hs: Seq<u64>, exact: u32, similar: u32, links: Seq<(usize, usize, bool)>) -> bool {
    &&& forall|k: int| 0 <= k < links.len() ==> {
            let (i, j, far) = #[trigger] links[k];
            &&& i < hs.len() && j < hs.len() && i != j
            &&& first_with_hash(hs, j as int)
            &&& hamming(hs[i as int], hs[j as int]) <= similar
            &&& far == (hamming(hs[i as int], hs[j as int]) > exact)
        }
    &&& forall|i: int, j: int| 0 <= i < hs.len() && 0 <= j < hs.len() && i != j && first_with_hash(hs, j)
            && hamming(#[trigger] hs[i], #[trigger] hs[j]) <= similar
            ==> exists|k: int| 0 <= k < links.len() && (#[trigger] links[k]).0 == i && links[k].1 == j
}

/// The hex texts of hashes.
pub open spec fn hash_texts(hs: Seq<u64>) -> Seq<Seq<char>> {
    hs.map_values(|h: u64| hex16(h))
}

/// A BK-tree holding the first image of each hash, under its index.
fn build_hash_tree(hashes: &Vec<u64>) -> (tree: BkTree)
    ensures
        tree.wf(),
        forall|t: int| 0 <= t < tree@.len() ==> (#[trigger] tree@[t]).1 < hashes.len() && tree@[t].0 == hashes@[tree@[t].1 as int]
            && first_with_hash(hashes@, tree@[t].1 as int),
        forall|j: int| 0 <= j < hashes.len() && first_with_hash(hashes@, j) ==> exists|t: int| 0 <= t < tree@.len() && (#[trigger] tree@[t]).1 == j,
{
    let n = hashes.len();
    let ghost hs = hashes@;
    let mut tree = BkTree::new();
    let mut i: usize = 0;
    while i < n
        invariant
            n == hashes.len(),
            hs == hashes@,
            i <= n,
            tree.wf(),
            forall|t: int| 0 <= t < tree@.len() ==> (#[trigger] tree@[t]).1 < i && tree@[t].0 == hs[tree@[t].1 as int]
                && first_with_hash(hs, tree@[t].1 as int),
            forall|j: int| 0 <= j < i && first_with_hash(hs, j) ==> exists|t: int| 0 <= t < tree@.len() && (#[trigger] tree@[t]).1 == j,
            forall|j: int| #![trigger hs[j]] 0 <= j < i ==> exists|t: int| 0 <= t < tree@.len() && (#[trigger] tree@[t]).0 == hs[j],
        decreases n - i,
    {
        let ghost before = tree@;
        tree.insert(hashes[i], i);
        proof {
            if holds_hash(before, hs[i as int]) {
                let t = choose|t: int| 0 <= t < before.len() && (#[trigger] before[t]).0 == hs[i as int];
                assert(!first_with_hash(hs, i as int)) by {
                    assert(hs[before[t].1 as int] == hs[i as int]);
                }
                assert forall|j: int| 0 <= j < i + 1 && first_with_hash(hs, j) implies exists|t2: int| 0 <= t2 < tree@.len() && (#[trigger] tree@[t2]).1 == j by {
                    if j == i {
                        assert(false);
                    }
                }
                assert forall|j: int| #![trigger hs[j]] 0 <= j < i + 1 implies exists|t2: int| 0 <= t2 < tree@.len() && (#[trigger] tree@[t2]).0 == hs[j] by {
                    if j == i {
                        assert(tree@[t].0 == hs[j]);
                    }
                }
            } else {
                assert(first_with_hash(hs, i as int)) by {
                    assert forall|k: int| 0 <= k < i implies #[trigger] hs[k] != hs[i as int] by {
                        if hs[k] == hs[i as int] {
                            let t = choose|t: int| 0 <= t < before.len() && (#[trigger] before[t]).0 == hs[k];
                            assert(holds_hash(before, hs[i as int]));
                        }
                    }
                }
                let last = tree@.len() - 1;
                assert(tree@[last] == (hs[i as int], i));
                assert forall|t: int| 0 <= t < tree@.len() implies (#[trigger] tree@[t]).1 < i + 1 && tree@[t].0 == hs[tree@[t].1 as int]
                    && first_with_hash(hs, tree@[t].1 as int) by {
                    if t < last {
                        assert(tree@[t] == before[t]);
                    }
                }
                assert forall|j: int| 0 <= j < i + 1 && first_with_hash(hs, j) implies exists|t2: int| 0 <= t2 < tree@.len() && (#[trigger] tree@[t2]).1 == j by {
                    if j < i {
                        let t2 = choose|t2: int| 0 <= t2 < before.len() && (#[trigger] before[t2]).1 == j;
                        assert(tree@[t2] == before[t2]);
                    } else {
                        assert(tree@[last].1 == j);
                    }
                }
                assert forall|j: int| #![trigger hs[j]] 0 <= j < i + 1 implies exists|t2: int| 0 <= t2 < tree@.len() && (#[trigger] tree@[t2]).0 == hs[j] by {
                    if j < i {
                        let t2 = choose|t2: int| 0 <= t2 < before.len() && (#[trigger] before[t2]).0 == hs[j];
                        assert(tree@[t2] == before[t2]);
                    } else {
                        assert(tree@[last].0 == hs[j]);
                    }
                }
            }
        }
        i = i + 1;
    }
    tree
}

/// The groups of similar images: images are joined through a BK-tree of their
/// hashes (see `is_image_links`) and reported as `similarity_groups` describes;
/// `None` where a group's saving does not fit in 64 bits.
pub fn find_similar_images(
    paths: &Vec<String>,
    sizes: &Vec<u64>,
    hashes: &Vec<u64>,
    exact_threshold: u32,
    similar_threshold: u32,
) -> (r: Option<Vec<Group>>)
    requires
        paths.len() == sizes.len(),
        hashes.len() == sizes.len(),
        forall|a: int, j: int| 0 <= a < hashes.len() && 0 <= j < hashes.len()
            ==> hamming(#[trigger] hashes@[a], #[trigger] hashes@[j]) + similar_threshold <= u32::MAX,
    ensures
        exists|links: Seq<(usize, usize, bool)>| is_image_links(hashes@, exact_threshold, similar_threshold, links)
            && match r {
                Some(v) => is_similarity_result(false, texts(paths@), sizes@, hash_texts(hashes@), links, groups_view(v@)),
                None => saving_overflows(sizes@, links),
            },
{
    let n = hashes.len();
    let ghost hs = hashes@;
    let tree = build_hash_tree(hashes);
    let mut links: Vec<(usize, usize, bool)> = Vec::new();
    let mut i: usize = 0;
    while i < n
        invariant
            n == hashes.len(),
            hs == hashes@,
            i <= n,
            tree.wf(),
            forall|a: int, j: int| 0 <= a < n && 0 <= j < n ==> hamming(#[trigger] hs[a], #[trigger] hs[j]) + similar_threshold <= u32::MAX,
            forall|t: int| 0 <= t < tree@.len() ==> (#[trigger] tree@[t]).1 < n && tree@[t].0 == hs[tree@[t].1 as int]
                && first_with_hash(hs, tree@[t].1 as int),
            forall|j: int| 0 <= j < n && first_with_hash(hs, j) ==> exists|t: int| 0 <= t < tree@.len() && (#[trigger] tree@[t]).1 == j,
            forall|k: int| 0 <= k < links.len() ==> {
                let (a, j, far) = #[trigger] links@[k];
                &&& a < i && j < n && a != j
                &&& first_with_hash(hs, j as int)
                &&& hamming(hs[a as int], hs[j as int]) <= similar_threshold
                &&& far == (hamming(hs[a as int], hs[j as int]) > exact_threshold)
            },
            forall|a: int, j: int| 0 <= a < i && 0 <= j < n && a != j && first_with_hash(hs, j)
                && hamming(#[trigger] hs[a], #[trigger] hs[j]) <= similar_threshold
                ==> exists|k: int| 0 <= k < links.len() && (#[trigger] links@[k]).0 == a && links@[k].1 == j,
        decreases n - i,
    {
        proof {
            assert forall|t: int| 0 <= t < tree@.len() implies hamming(hs[i as int], (#[trigger] tree@[t]).0) + similar_threshold <= u32::MAX by {
                let j = tree@[t].1 as int;
                assert(tree@[t].0 == hs[j]);
            }
        }
        let found = tree.find(hashes[i], similar_threshold);
        let ghost entries = tree@;
        let ghost vis = choose|vis: Seq<int>| find_answer(entries, hs[i as int], similar_threshold, vis, found@);
        let ghost links0 = links@;
        let mut k: usize = 0;
        while k < found.len()
            invariant
                n == hashes.len(),
                hs == hashes@,
                i < n,
                entries == tree@,
                find_answer(entries, hs[i as int], similar_threshold, vis, found@),
                forall|t: int| 0 <= t < entries.len() ==> (#[trigger] entries[t]).1 < n && entries[t].0 == hs[entries[t].1 as int]
                    && first_with_hash(hs, entries[t].1 as int),
                k <= found.len(),
                links@.len() >= links0.len(),
                forall|m: int| 0 <= m < links0.len() ==> links@[m] == links0[m],
                forall|m: int| 0 <= m < links.len() ==> {
                    let (a, j, far) = #[trigger] links@[m];
                    &&& a <= i && j < n && a != j
                    &&& first_with_hash(hs, j as int)
                    &&& hamming(hs[a as int], hs[j as int]) <= similar_threshold
                    &&& far == (hamming(hs[a as int], hs[j as int]) > exact_threshold)
                },
                forall|m: int| 0 <= m < k && (#[trigger] found@[m]).0 != i ==> exists|q: int| 0 <= q < links.len()
                    && (#[trigger] links@[q]).0 == i && links@[q].1 == found@[m].0,
            decreases found.len() - k,
        {
            let (j, d) = found[k];
            proof {
                let t = vis[k as int];
                assert(0 <= t < entries.len());
                assert(found@[k as int] == (entries[t].1, hamming(hs[i as int], entries[t].0) as u32));
                crate::phash::lemma_hamming_bound(hs[i as int], entries[t].0);
            }
            if j != i {
                let ghost lp = links@;
                links.push((i, j, d > exact_threshold));
                proof {
                    let q = links@.len() - 1;
                    assert(links@[q].0 == i && links@[q].1 == found@[k as int].0);
                    assert forall|m: int| 0 <= m < k + 1 && (#[trigger] found@[m]).0 != i implies exists|q2: int| 0 <= q2 < links.len()
                        && (#[trigger] links@[q2]).0 == i && links@[q2].1 == found@[m].0 by {
                        if m < k {
                            let q2 = choose|q2: int| 0 <= q2 < lp.len() && (#[trigger] lp[q2]).0 == i && lp[q2].1 == found@[m].0;
                            assert(links@[q2] == lp[q2]);
                        } else {
                            assert(links@[q].0 == i);
                        }
                    }
                }
            }
            k = k + 1;
        }
        proof {
            assert forall|a: int, j: int| 0 <= a < i + 1 && 0 <= j < n && a != j && first_with_hash(hs, j)
                && hamming(#[trigger] hs[a], #[trigger] hs[j]) <= similar_threshold
                implies exists|q: int| 0 <= q < links.len() && (#[trigger] links@[q]).0 == a && links@[q].1 == j by {
                if a < i {
                    let q = choose|q: int| 0 <= q < links0.len() && (#[trigger] links0[q]).0 == a && links0[q].1 == j;
                    assert(links@[q] == links0[q]);
                } else {
                    let t = choose|t: int| 0 <= t < entries.len() && (#[trigger] entries[t]).1 == j;
                    assert(hamming(hs[i as int], entries[t].0) <= similar_threshold);
                    assert(vis.contains(t));
                    let m = choose|m: int| 0 <= m < vis.len() && vis[m] == t;
                    assert(found@[m].0 == j);
                }
            }
        }
        i = i + 1;
    }
    let mut details: Vec<String> = Vec::new();
    let mut x: usize = 0;
    while x < n
        invariant
            n == hashes.len(),
            x <= n,
            details.len() == x,
            forall|y: int| 0 <= y < x ==> (#[trigger] details@[y])@ == hex16(hashes@[y]),
        decreases n - x,
    {
        details.push(hash_hex(hashes[x]));
        x = x + 1;
    }
    proof {
        assert(texts(details@) =~= hash_texts(hashes@));
    }
    let r = similarity_groups(false, paths, sizes, &details, &links);
    proof {
        assert(is_image_links(hashes@, exact_threshold, similar_threshold, links@));
    }
    r
}

} // verus!
