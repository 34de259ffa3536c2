//! Archives that share members: the listing of an archive's members, the
//! number of member fingerprints two archives share, and the groups reported
//! for overlapping pairs.
use vstd::prelude::*;
use crate::text::{chars_of, string_of};
use crate::paths::extension;
use crate::text::lower_text;
use crate::model::{FileEntry, FileEntryView, Group, GroupView, size_text, decimal, decimal_chars, fmt_size, by_savable,
    groups_view, files_view, sort_by_savable};

verus! {

/// The kinds of archive whose members can be listed.
#[derive(Debug, Clone, Copy, PartialEq, Eq)]
pub enum ArchiveKind {
    Zip,
    SevenZ,
}

/// Which archive reader a path calls for, by its lowercased extension.
pub open spec fn archive_kind_of(p: Seq<char>) -> Option<ArchiveKind> {
    match extension(p) {
        Some(e) => if lower_text(e) == "zip"@ {
            Some(ArchiveKind::Zip)
        } else if lower_text(e) == "7z"@ {
            Some(ArchiveKind::SevenZ)
        } else {
            None
        },
        None => None,
    }
}

/// Which archive reader `path` calls for: zip, 7z, or none.
pub fn extract_entries(path: &str) -> (r: Option<ArchiveKind>)
    ensures
        r == archive_kind_of(path@),
{
    match crate::paths::lowercase_extension(path) {
        None => None,
        Some(e) => {
            let ec = chars_of(e.as_str());
            if crate::text::chars_eq(&ec, &chars_of("zip")) {
                Some(ArchiveKind::Zip)
            } else if crate::text::chars_eq(&ec, &chars_of("7z")) {
                Some(ArchiveKind::SevenZ)
            } else {
                None
            }
        },
    }
}

/// The members of an archive, by name, each with the fingerprint of its content.
pub struct ArchiveListing {
    names: Vec<String>,
    prints: Vec<u64>,
}

impl View for ArchiveListing {
    type V = Seq<(Seq<char>, u64)>;

    closed spec fn view(&self) -> Seq<(Seq<char>, u64)> {
        Seq::new(self.names.len() as nat, |k: int| (self.names@[k]@, self.prints@[k]))
    }
}

/// Where `name` stands among the members, or -1.
pub open spec fn member_index(m: Seq<(Seq<char>, u64)>, name: Seq<char>) -> int
    decreases m.len(),
{
    if m.len() == 0 {
        -1
    } else if m.last().0 == name {
        m.len() - 1
    } else {
        member_index(m.drop_last(), name)
    }
}

impl ArchiveListing {
    /// Member names are all different.
    pub closed spec fn wf(&self) -> bool {
        &&& self.names.len() == self.prints.len()
        &&& forall|i: int, j: int| 0 <= i < j < self.names.len() ==> (#[trigger] self.names@[i])@ != (#[trigger] self.names@[j])@
    }

    /// A listing with no member.
    pub fn new() -> (r: Self)
        ensures
            r.wf(),
            r@ == Seq::<(Seq<char>, u64)>::empty(),
    {
        let r = ArchiveListing { names: Vec::new(), prints: Vec::new() };
        assert(r@ =~= Seq::<(Seq<char>, u64)>::empty());
        r
    }

    /// Records member `name` with `print`; a member of the same name is replaced.
    pub fn insert(&mut self, name: String, print: u64)
        requires
            old(self).wf(),
        ensures
            final(self).wf(),
            member_index(old(self)@, name@) >= 0 ==> final(self)@ == old(self)@.update(member_index(old(self)@, name@), (name@, print)),
            member_index(old(self)@, name@) < 0 ==> final(self)@ == old(self)@.push((name@, print)),
    {
        let ghost m = self@;
        let mut k = self.names.len();
        assert(m.take(k as int) =~= m);
        while k > 0
            invariant
                self.wf(),
                self.names@ == old(self).names@,
                self.prints@ == old(self).prints@,
                m == old(self)@,
                m == self@,
                k <= self.names.len(),
                member_index(m.take(k as int), name@) == member_index(m, name@),
            decreases k,
        {
            let same = self.names[k - 1] == name;
            assert(m.take(k as int).last() == m[k - 1]);
            assert(m.take(k as int).drop_last() =~= m.take(k - 1));
            if same {
                proof {
                    assert(m[k - 1].0 == name@);
                    assert(member_index(m, name@) == k - 1);
                }
                self.prints.set(k - 1, print);
                proof {
                    assert(self@ =~= m.update(k - 1, (name@, print)));
                }
                return;
            }
            k = k - 1;
        }
        assert(m.take(0) =~= Seq::<(Seq<char>, u64)>::empty());
        let ghost n0 = self.names@;
        self.names.push(name);
        self.prints.push(print);
        proof {
            assert forall|i: int| 0 <= i < m.len() implies (#[trigger] n0[i])@ != name@ by {
                lemma_member_index_absent(m, name@, i);
            }
            assert(self@ =~= m.push((name@, print)));
        }
    }

    /// The number of members.
    pub fn len(&self) -> (r: usize)
        ensures
            r == self@.len(),
    {
        self.names.len()
    }

    /// The fingerprints of the members, in the order of the members.
    pub fn fingerprints(&self) -> (r: Vec<u64>)
        requires
            self.wf(),
        ensures
            r@ == self@.map_values(|e: (Seq<char>, u64)| e.1),
    {
        let mut r: Vec<u64> = Vec::new();
        let mut i: usize = 0;
        while i < self.prints.len()
            invariant
                i <= self.prints.len(),
                r@ == self.prints@.take(i as int),
            decreases self.prints.len() - i,
        {
            r.push(self.prints[i]);
            assert(self.prints@.take(i as int).push(self.prints@[i as int]) =~= self.prints@.take(i + 1));
            i = i + 1;
        }
        assert(r@ =~= self@.map_values(|e: (Seq<char>, u64)| e.1));
        r
    }
}

proof fn lemma_member_index_absent(m: Seq<(Seq<char>, u64)>, name: Seq<char>, i: int)
    requires
        member_index(m, name) < 0,
        0 <= i < m.len(),
    ensures
        m[i].0 != name,
    decreases m.len(),
{
    if i < m.len() - 1 {
        assert(m.drop_last()[i] == m[i]);
        lemma_member_index_absent(m.drop_last(), name, i);
    }
}

/// How many of the first `k` fingerprints of `a` occur among those of `b`.
pub open spec fn shared_count(a: Seq<u64>, b: Seq<u64>, k: int) -> nat
    decreases k,
{
    if k <= 0 {
        0
    } else {
        shared_count(a, b, k - 1) + if b.contains(a[k - 1]) { 1nat } else { 0nat }
    }
}

/// How many members of `a` have a fingerprint that some member of `b` has.
pub fn shared_members(a: &Vec<u64>, b: &Vec<u64>) -> (r: usize)
    ensures
        r == shared_count(a@, b@, a.len() as int),
{
    let mut n: usize = 0;
    let mut i: usize = 0;
    while i < a.len()
        invariant
            i <= a.len(),
            n == shared_count(a@, b@, i as int),
            n <= i,
        decreases a.len() - i,
    {
        let mut found = false;
        let mut j: usize = 0;
        while j < b.len()
            invariant
                i < a.len(),
                j <= b.len(),
                found == exists|k: int| 0 <= k < j && b@[k] == a@[i as int],
            decreases b.len() - j,
        {
            if b[j] == a[i] {
                found = true;
            }
            j = j + 1;
        }
        if found {
            n = n + 1;
        }
        i = i + 1;
    }
    n
}

/// The number of members of `a` whose fingerprint some member of `b` has is
/// the length of `a` kept to those members.
pub proof fn law_shared_counts_members_found(a: Seq<u64>, b: Seq<u64>)
    ensures
        shared_count(a, b, a.len() as int) == a.filter(|x: u64| b.contains(x)).len(),
    decreases a.len(),
{
    if a.len() > 0 {
        let d = a.drop_last();
        law_shared_counts_members_found(d, b);
        lemma_shared_count_agree(a, d, b, d.len() as int);
        assert(a.last() == a[a.len() - 1]);
        let pred = |x: u64| b.contains(x);
        reveal(Seq::filter);
        assert(a.drop_last() == d);
        assert(a.filter(pred).len() == d.filter(pred).len() + (if pred(a.last()) { 1int } else { 0int }));
    }
}

/// The count of the first `k` members is the same for sequences that agree on them.
proof fn lemma_shared_count_agree(a: Seq<u64>, a2: Seq<u64>, b: Seq<u64>, k: int)
    requires
        0 <= k <= a.len(),
        k <= a2.len(),
        forall|p: int| 0 <= p < k ==> a[p] == a2[p],
    ensures
        shared_count(a, b, k) == shared_count(a2, b, k),
    decreases k,
{
    if k > 0 {
        lemma_shared_count_agree(a, a2, b, k - 1);
        assert(a[k - 1] == a2[k - 1]);
    }
}

/// Every member of an archive is shared with the archive itself.
pub proof fn law_shared_with_itself(a: Seq<u64>)
    ensures
        shared_count(a, a, a.len() as int) == a.len(),
{
    lemma_shared_with_superset(a, a, a.len() as int);
}

proof fn lemma_shared_with_superset(a: Seq<u64>, b: Seq<u64>, k: int)
    requires
        0 <= k <= a.len(),
        forall|p: int| 0 <= p < k ==> b.contains(#[trigger] a[p]),
    ensures
        shared_count(a, b, k) == k,
    decreases k,
{
    if k > 0 {
        lemma_shared_with_superset(a, b, k - 1);
        assert(b.contains(a[k - 1]));
    }
}

/// The count depends on `b` only through which fingerprints it holds: not on
/// their order, nor on how often each occurs.
pub proof fn law_shared_ignores_order(a: Seq<u64>, b: Seq<u64>, c: Seq<u64>)
    requires
        forall|x: u64| b.contains(x) <==> c.contains(x),
    ensures
        shared_count(a, b, a.len() as int) == shared_count(a, c, a.len() as int),
{
    lemma_shared_same_holdings(a, b, c, a.len() as int);
}

proof fn lemma_shared_same_holdings(a: Seq<u64>, b: Seq<u64>, c: Seq<u64>, k: int)
    requires
        forall|x: u64| b.contains(x) <==> c.contains(x),
    ensures
        shared_count(a, b, k) == shared_count(a, c, k),
    decreases k,
{
    if k > 0 {
        lemma_shared_same_holdings(a, b, c, k - 1);
        assert(b.contains(a[k - 1]) <==> c.contains(a[k - 1]));
    }
}

/// At most every member of `a` is shared, and a member of `a` shared with `b`
/// is counted: the count is at least the number of those at the given
/// positions, and exactly zero when nothing is shared.
pub proof fn law_shared_bounds(a: Seq<u64>, b: Seq<u64>)
    ensures
        shared_count(a, b, a.len() as int) <= a.len(),
        (forall|p: int| 0 <= p < a.len() ==> !b.contains(#[trigger] a[p])) ==> shared_count(a, b, a.len() as int) == 0,
        (exists|p: int| 0 <= p < a.len() && b.contains(#[trigger] a[p])) ==> shared_count(a, b, a.len() as int) > 0,
{
    lemma_shared_bounds(a, b, a.len() as int);
}

proof fn lemma_shared_bounds(a: Seq<u64>, b: Seq<u64>, k: int)
    requires
        0 <= k <= a.len(),
    ensures
        shared_count(a, b, k) <= k,
        (forall|p: int| 0 <= p < k ==> !b.contains(#[trigger] a[p])) ==> shared_count(a, b, k) == 0,
        (exists|p: int| 0 <= p < k && b.contains(#[trigger] a[p])) ==> shared_count(a, b, k) > 0,
    decreases k,
{
    if k > 0 {
        lemma_shared_bounds(a, b, k - 1);
        if exists|p: int| 0 <= p < k && b.contains(#[trigger] a[p]) {
            let p = choose|p: int| 0 <= p < k && b.contains(#[trigger] a[p]);
            if p < k - 1 {
                assert(exists|q: int| 0 <= q < k - 1 && b.contains(#[trigger] a[q]));
            }
        }
    }
}

/// One archive of an overlapping pair.
pub open spec fn archive_file(path: Seq<char>, size: u64, keep: bool, shared: u32, total: u32) -> FileEntryView {
    FileEntryView {
        path,
        size,
        size_fmt: size_text(size as nat),
        keep,
        hash: None,
        phash: None,
        file_type: "archive"@,
        created: None,
        frame_count: None,
        shared: Some(shared),
        total_files: Some(total),
    }
}

/// The group reported for archives `i` and `j`, numbered `num`.
pub open spec fn archive_group(
    paths: Seq<Seq<char>>,
    sizes: Seq<u64>,
    prints: Seq<Seq<u64>>,
    i: int,
    j: int,
    num: nat,
) -> GroupView {
    let shared = shared_count(prints[i], prints[j], prints[i].len() as int) as u32;
    let sav = if sizes[i] < sizes[j] { sizes[i] } else { sizes[j] };
    GroupView {
        id: "a"@ + decimal(num),
        files: seq![
            archive_file(paths[i], sizes[i], true, shared, prints[i].len() as u32),
            archive_file(paths[j], sizes[j], false, shared, prints[j].len() as u32),
        ],
        savable: sav,
        savable_fmt: size_text(sav as nat),
        category: None,
        shared: Some(shared),
    }
}

/// Archives `i` and `j` share at least `min_overlap` member fingerprints.
pub open spec fn overlapping(prints: Seq<Seq<u64>>, min_overlap: u32, i: int, j: int) -> bool {
    shared_count(prints[i], prints[j], prints[i].len() as int) as u32 >= min_overlap
}

/// Two archives overlap exactly when the members of the first whose
/// fingerprint the second has number at least `min_overlap` (as a 32-bit
/// count), and their group reports that number as shared.
pub proof fn law_overlap_by_members_found(
    paths: Seq<Seq<char>>,
    sizes: Seq<u64>,
    prints: Seq<Seq<u64>>,
    min_overlap: u32,
    i: int,
    j: int,
    num: nat,
)
    requires
        0 <= i < prints.len(),
        0 <= j < prints.len(),
    ensures
        overlapping(prints, min_overlap, i, j) <==> prints[i].filter(|x: u64| prints[j].contains(x)).len() as u32 >= min_overlap,
        archive_group(paths, sizes, prints, i, j, num).shared == Some(prints[i].filter(|x: u64| prints[j].contains(x)).len() as u32),
{
    law_shared_counts_members_found(prints[i], prints[j]);
}

/// The pair `p` comes before the pair `q` (by first archive, then second).
pub open spec fn pair_lt(p: (int, int), q: (int, int)) -> bool {
    p.0 < q.0 || (p.0 == q.0 && p.1 < q.1)
}

/// `pairs` lists, in order, every pair `i < j` of the `n` archives that overlap, and no other.
pub open spec fn is_overlap_list(n: int, prints: Seq<Seq<u64>>, min_overlap: u32, pairs: Seq<(int, int)>) -> bool {
    &&& forall|g: int| 0 <= g < pairs.len() ==> 0 <= (#[trigger] pairs[g]).0 < pairs[g].1 < n
            && overlapping(prints, min_overlap, pairs[g].0, pairs[g].1)
    &&& forall|g1: int, g2: int| 0 <= g1 < g2 < pairs.len() ==> pair_lt(#[trigger] pairs[g1], #[trigger] pairs[g2])
    &&& forall|i: int, j: int| 0 <= i < j < n && overlapping(prints, min_overlap, i, j)
            ==> exists|g: int| 0 <= g < pairs.len() && #[trigger] pairs[g] == (i, j)
}

pub open spec fn texts(v: Seq<String>) -> Seq<Seq<char>> {
    v.map_values(|s: String| s@)
}

pub open spec fn prints_view(v: Seq<Vec<u64>>) -> Seq<Seq<u64>> {
    v.map_values(|p: Vec<u64>| p@)
}

fn archive_entry(path: &String, size: u64, keep: bool, shared: u32, total: u32) -> (r: FileEntry)
    ensures
        r@ == archive_file(path@, size, keep, shared, total),
{
    FileEntry {
        path: path.clone(),
        size,
        size_fmt: fmt_size(size),
        keep,
        hash: None,
        phash: None,
        file_type: string_of(&chars_of("archive")),
        created: None,
        frame_count: None,
        shared: Some(shared),
        total_files: Some(total),
    }
}

/// The groups of archives that share at least `min_overlap` members: one group per
/// overlapping pair, numbered in pair order, largest saving first. Fewer than two
/// archives give no group.
pub fn find_archive_duplicates(
    paths: &Vec<String>,
    sizes: &Vec<u64>,
    prints: &Vec<Vec<u64>>,
    min_overlap: u32,
) -> (r: Vec<Group>)
    requires
        paths.len() == sizes.len(),
        prints.len() == sizes.len(),
        sizes.len() * sizes.len() < usize::MAX,
    ensures
        exists|pairs: Seq<(int, int)>| is_overlap_list(sizes.len() as int, prints_view(prints@), min_overlap, pairs)
            && groups_view(r@) == by_savable(Seq::new(pairs.len(), |g: int| archive_group(texts(paths@), sizes@,
                prints_view(prints@), pairs[g].0, pairs[g].1, (g + 1) as nat))),
{
    let n = sizes.len();
    let ghost pv = prints_view(prints@);
    let ghost tp = texts(paths@);
    let ghost mut pairs: Seq<(int, int)> = Seq::empty();
    let mut out: Vec<Group> = Vec::new();
    if n < 2 {
        proof {
            assert(is_overlap_list(n as int, pv, min_overlap, pairs));
            assert(groups_view(out@) =~= Seq::<GroupView>::empty());
            crate::sort::lemma_stable_sort_multiset(Seq::<GroupView>::empty(), crate::model::more_savable());
        }
        return out;
    }
    let mut i: usize = 0;
    while i < n
        invariant
            n == sizes.len(),
            paths.len() == n,
            prints.len() == n,
            pv == prints_view(prints@),
            tp == texts(paths@),
            i <= n,
            out.len() == pairs.len(),
            n * n < usize::MAX,
            out.len() <= i * n,
            forall|g: int| 0 <= g < pairs.len() ==> 0 <= (#[trigger] pairs[g]).0 < pairs[g].1 < n && pairs[g].0 < i
                && overlapping(pv, min_overlap, pairs[g].0, pairs[g].1),
            forall|g1: int, g2: int| 0 <= g1 < g2 < pairs.len() ==> pair_lt(#[trigger] pairs[g1], #[trigger] pairs[g2]),
            forall|a: int, b: int| 0 <= a < i && a < b < n && overlapping(pv, min_overlap, a, b)
                ==> exists|g: int| 0 <= g < pairs.len() && #[trigger] pairs[g] == (a, b),
            forall|g: int| 0 <= g < pairs.len() ==> (#[trigger] out@[g])@ == archive_group(tp, sizes@, pv, pairs[g].0, pairs[g].1, (g + 1) as nat),
        decreases n - i,
    {
        let mut j: usize = i + 1;
        let ghost pairs0 = pairs;
        while j < n
            invariant
                n == sizes.len(),
                paths.len() == n,
                prints.len() == n,
                pv == prints_view(prints@),
                tp == texts(paths@),
                i < n,
                i < j <= n,
                out.len() == pairs.len(),
                n * n < usize::MAX,
                out.len() <= i * n + (j - i - 1),
                pairs.len() >= pairs0.len(),
                forall|g: int| 0 <= g < pairs0.len() ==> pairs[g] == pairs0[g],
                forall|g: int| 0 <= g < pairs.len() ==> 0 <= (#[trigger] pairs[g]).0 < pairs[g].1 < n && pairs[g].0 <= i
                    && (pairs[g].0 == i ==> pairs[g].1 < j)
                    && overlapping(pv, min_overlap, pairs[g].0, pairs[g].1),
                forall|g1: int, g2: int| 0 <= g1 < g2 < pairs.len() ==> pair_lt(#[trigger] pairs[g1], #[trigger] pairs[g2]),
                forall|b: int| i < b < j && overlapping(pv, min_overlap, i as int, b)
                    ==> exists|g: int| 0 <= g < pairs.len() && #[trigger] pairs[g] == (i as int, b),
                forall|g: int| 0 <= g < pairs.len() ==> (#[trigger] out@[g])@ == archive_group(tp, sizes@, pv, pairs[g].0, pairs[g].1, (g + 1) as nat),
            decreases n - j,
        {
            assert(pv[i as int] == prints@[i as int]@ && pv[j as int] == prints@[j as int]@);
            let shared = shared_members(&prints[i], &prints[j]) as u32;
            if shared >= min_overlap {
                let size_a = sizes[i];
                let size_b = sizes[j];
                let savable = if size_a < size_b { size_a } else { size_b };
                let total_a = prints[i].len() as u32;
                let total_b = prints[j].len() as u32;
                let mut files: Vec<FileEntry> = Vec::new();
                files.push(archive_entry(&paths[i], size_a, true, shared, total_a));
                files.push(archive_entry(&paths[j], size_b, false, shared, total_b));
                assert(i * n + (j - i - 1) < n * n) by (nonlinear_arith)
                    requires i < j, j < n;
                let num = out.len() + 1;
                let mut id: Vec<char> = Vec::new();
                id.push('a');
                let digits = decimal_chars(num as u64);
                let mut k: usize = 0;
                while k < digits.len()
                    invariant
                        k <= digits.len(),
                        id@ == seq!['a'] + digits@.take(k as int),
                    decreases digits.len() - k,
                {
                    id.push(digits[k]);
                    assert(seq!['a'] + digits@.take(k as int).push(digits@[k as int]) =~= seq!['a'] + digits@.take(k + 1));
                    k = k + 1;
                }
                let group = Group {
                    id: string_of(&id),
                    files,
                    savable,
                    savable_fmt: fmt_size(savable),
                    category: None,
                    shared: Some(shared),
                };
                proof {
                    reveal_strlit("a");
                    assert(digits@.take(digits.len() as int) =~= digits@);
                    assert(tp[i as int] == paths@[i as int]@ && tp[j as int] == paths@[j as int]@);
                    let ag = archive_group(tp, sizes@, pv, i as int, j as int, num as nat);
                    assert(files_view(group.files@) =~= ag.files);
                    assert(group@.id == ag.id);
                    assert(group@.savable == ag.savable);
                    assert(group@.shared == ag.shared);
                    assert(group@.files == ag.files);
                    assert(group@ == ag);
                }
                let ghost pb = pairs;
                out.push(group);
                proof {
                    pairs = pairs.push((i as int, j as int));
                    assert forall|b: int| i < b < j + 1 && overlapping(pv, min_overlap, i as int, b)
                        implies exists|g: int| 0 <= g < pairs.len() && #[trigger] pairs[g] == (i as int, b) by {
                        if b < j {
                            let g = choose|g: int| 0 <= g < pb.len() && #[trigger] pb[g] == (i as int, b);
                            assert(pairs[g] == pb[g]);
                        } else {
                            assert(pairs[pairs.len() - 1] == (i as int, b));
                        }
                    }
                }
            }
            j = j + 1;
        }
        proof {
            assert(i * n + (n - i - 1) <= (i + 1) * n) by (nonlinear_arith)
                requires i < n;
            assert forall|a: int, b: int| 0 <= a < i + 1 && a < b < n && overlapping(pv, min_overlap, a, b)
                implies exists|g: int| 0 <= g < pairs.len() && #[trigger] pairs[g] == (a, b) by {
                if a < i {
                    let g = choose|g: int| 0 <= g < pairs0.len() && #[trigger] pairs0[g] == (a, b);
                    assert(pairs[g] == pairs0[g]);
                }
            }
        }
        i = i + 1;
    }
    let r = sort_by_savable(out);
    proof {
        let built = Seq::new(pairs.len(), |g: int| archive_group(tp, sizes@, pv, pairs[g].0, pairs[g].1, (g + 1) as nat));
        assert(groups_view(out@) =~= built);
        assert(is_overlap_list(n as int, pv, min_overlap, pairs));
    }
    r
}

/// What is done with an archive member when its archive is listed.
#[derive(Debug, Clone, Copy, PartialEq, Eq, Structural)]
pub enum MemberAction {
    /// A folder or an empty member: left out of the listing.
    Skip,
    /// Read whole and fingerprinted by its content.
    ReadContent,
    /// Fingerprinted by its size and name, unread.
    BySizeAndName,
}

/// The largest member read whole: 1 MiB.
pub const MEMBER_READ_LIMIT: u64 = 1048576;

/// What is done with a member: folders and empty members are skipped, members
/// of up to 1 MiB are read, larger ones are fingerprinted by size and name.
pub fn member_action(is_dir: bool, size: u64) -> (r: MemberAction)
    ensures
        r == (if is_dir || size == 0 {
            MemberAction::Skip
        } else if size <= MEMBER_READ_LIMIT {
            MemberAction::ReadContent
        } else {
            MemberAction::BySizeAndName
        }),
{
    if is_dir || size == 0 {
        MemberAction::Skip
    } else if size <= MEMBER_READ_LIMIT {
        MemberAction::ReadContent
    } else {
        MemberAction::BySizeAndName
    }
}

} // verus!
