//! What the image reader lists: which files it can open, which entries it
//! hides, and the order in which folders and images are shown.
use vstd::prelude::*;
use std::cmp::Ordering;
use crate::text::{chars_of, list_contains, lower_text, str_views, to_lowercase};
use crate::paths::{extension, file_name};
use crate::reader::{ExplorerNode, ImageEntry};
use crate::sort::{stable_sort, sorted_by, strict_order, lemma_stable_sort_sorted, lemma_ins_pos};

verus! {

/// The extensions of the images the reader opens.
pub open spec fn image_extensions() -> Seq<Seq<char>> {
    seq!["jpg"@, "jpeg"@, "png"@, "webp"@, "gif"@, "bmp"@, "tif"@, "tiff"@, "heic"@, "avif"@]
}

/// The extensions of the archives the reader opens.
pub open spec fn archive_extensions() -> Seq<Seq<char>> {
    seq!["zip"@, "cbz"@, "rar"@, "cbr"@]
}

/// The lowercased extension of a path, if it has one.
pub open spec fn lower_extension(p: Seq<char>) -> Option<Seq<char>> {
    match extension(p) {
        Some(e) => Some(lower_text(e)),
        None => None,
    }
}

/// Whether the path's lowercased extension is one of `exts`.
pub open spec fn has_extension_in(p: Seq<char>, exts: Seq<Seq<char>>) -> bool {
    match lower_extension(p) {
        Some(e) => exts.contains(e),
        None => false,
    }
}

/// Whether the entry is hidden: its file name starts with a dot.
pub open spec fn is_hidden(p: Seq<char>) -> bool {
    match file_name(p) {
        Some(n) => n.len() > 0 && n[0] == '.',
        None => false,
    }
}

/// The lowercased extension of `path`, or `None` where it has none.
pub fn extension_of(path: &str) -> (r: Option<String>)
    ensures
        match lower_extension(path@) {
            Some(e) => r matches Some(s) && s@ == e,
            None => r is None,
        },
{
    crate::paths::lowercase_extension(path)
}

fn image_list() -> (r: Vec<&'static str>)
    ensures
        str_views(r@) == image_extensions(),
{
    let r = vec!["jpg", "jpeg", "png", "webp", "gif", "bmp", "tif", "tiff", "heic", "avif"];
    assert(str_views(r@) =~= image_extensions());
    r
}

fn archive_list() -> (r: Vec<&'static str>)
    ensures
        str_views(r@) == archive_extensions(),
{
    let r = vec!["zip", "cbz", "rar", "cbr"];
    assert(str_views(r@) =~= archive_extensions());
    r
}

/// Whether the reader opens `path` as an image.
pub fn is_supported_image(path: &str) -> (r: bool)
    ensures
        r == has_extension_in(path@, image_extensions()),
{
    match extension_of(path) {
        Some(e) => list_contains(&image_list(), &chars_of(e.as_str())),
        None => false,
    }
}

/// Whether the reader opens `path` as an archive of images.
pub fn is_supported_archive(path: &str) -> (r: bool)
    ensures
        r == has_extension_in(path@, archive_extensions()),
{
    match extension_of(path) {
        Some(e) => list_contains(&archive_list(), &chars_of(e.as_str())),
        None => false,
    }
}

/// The reader opens a file as an image exactly when it has an extension that,
/// in lower case, is one of jpg, jpeg, png, webp, gif, bmp, tif, tiff, heic, avif.
pub proof fn law_reader_image_extensions(p: Seq<char>)
    ensures
        has_extension_in(p, image_extensions()) <==> (extension(p) matches Some(e) && seq!["jpg"@, "jpeg"@, "png"@,
            "webp"@, "gif"@, "bmp"@, "tif"@, "tiff"@, "heic"@, "avif"@].contains(lower_text(e))),
{
}

/// The reader opens a file as an archive of images exactly when it has an
/// extension that, in lower case, is one of zip, cbz, rar, cbr.
pub proof fn law_reader_archive_extensions(p: Seq<char>)
    ensures
        has_extension_in(p, archive_extensions()) <==> (extension(p) matches Some(e) && seq!["zip"@, "cbz"@, "rar"@,
            "cbr"@].contains(lower_text(e))),
{
}

/// Whether a listing leaves `path` out: its name starts with a dot.
pub fn should_ignore(path: &str) -> (r: bool)
    ensures
        r == is_hidden(path@),
{
    let p = chars_of(path);
    match crate::paths::file_name_bounds(&p) {
        Some((b, e)) => b < e && p[b] == '.',
        None => false,
    }
}

/// `a` comes strictly before `b` in character order.
pub open spec fn lex_less(a: Seq<char>, b: Seq<char>) -> bool
    decreases a.len(),
{
    if a.len() == 0 {
        b.len() > 0
    } else if b.len() == 0 {
        false
    } else if a[0] != b[0] {
        a[0] < b[0]
    } else {
        lex_less(a.drop_first(), b.drop_first())
    }
}

pub proof fn lemma_lex_irreflexive(a: Seq<char>)
    ensures
        !lex_less(a, a),
    decreases a.len(),
{
    if a.len() > 0 {
        lemma_lex_irreflexive(a.drop_first());
    }
}

pub proof fn lemma_lex_transitive(a: Seq<char>, b: Seq<char>, c: Seq<char>)
    requires
        lex_less(a, b),
        lex_less(b, c),
    ensures
        lex_less(a, c),
    decreases a.len(),
{
    if a.len() > 0 && b.len() > 0 && c.len() > 0 && a[0] == b[0] && b[0] == c[0] {
        lemma_lex_transitive(a.drop_first(), b.drop_first(), c.drop_first());
    }
}

pub proof fn lemma_lex_total(a: Seq<char>, b: Seq<char>)
    ensures
        lex_less(a, b) || lex_less(b, a) || a == b,
    decreases a.len(),
{
    if a.len() == 0 && b.len() == 0 {
        assert(a =~= b);
    } else if a.len() > 0 && b.len() > 0 && a[0] == b[0] {
        let da = a.drop_first();
        let db = b.drop_first();
        lemma_lex_total(da, db);
        if da =~= db {
            assert(a.len() == da.len() + 1);
            assert(b.len() == db.len() + 1);
            assert forall|k: int| 0 <= k < a.len() implies a[k] == b[k] by {
                if k > 0 {
                    assert(a[k] == da[k - 1]);
                    assert(b[k] == db[k - 1]);
                }
            }
            assert(a =~= b);
        }
    }
}

/// Character order: where `a` and `b` agree up to `i` and then `a` ends or
/// has the smaller character, `a` comes first and `b` does not.
pub proof fn law_char_order(a: Seq<char>, b: Seq<char>, i: int)
    requires
        0 <= i <= a.len(),
        i <= b.len(),
        a.take(i) == b.take(i),
        (i == a.len() && i < b.len()) || (i < a.len() && i < b.len() && a[i] < b[i]),
    ensures
        lex_less(a, b),
        !lex_less(b, a),
    decreases i,
{
    if i > 0 {
        assert(a[0] == a.take(i)[0] && b[0] == b.take(i)[0]);
        assert(a.drop_first().take(i - 1) =~= a.take(i).drop_first());
        assert(b.drop_first().take(i - 1) =~= b.take(i).drop_first());
        if i < a.len() {
            assert(a.drop_first()[i - 1] == a[i]);
        }
        if i < b.len() {
            assert(b.drop_first()[i - 1] == b[i]);
        }
        law_char_order(a.drop_first(), b.drop_first(), i - 1);
    }
}

/// Whether `a` comes before `b` in character order, as a loop over both.
pub fn chars_less(a: &Vec<char>, b: &Vec<char>) -> (r: bool)
    ensures
        r == lex_less(a@, b@),
{
    let mut i: usize = 0;
    assert(a@.skip(0) =~= a@);
    assert(b@.skip(0) =~= b@);
    while i < a.len() && i < b.len()
        invariant
            i <= a.len(),
            i <= b.len(),
            lex_less(a@, b@) == lex_less(a@.skip(i as int), b@.skip(i as int)),
        decreases a.len() - i,
    {
        if a[i] != b[i] {
            assert(a@.skip(i as int)[0] == a@[i as int]);
            assert(b@.skip(i as int)[0] == b@[i as int]);
            return a[i] < b[i];
        }
        assert(a@.skip(i as int).drop_first() =~= a@.skip(i + 1));
        assert(b@.skip(i as int).drop_first() =~= b@.skip(i + 1));
        i = i + 1;
    }
    proof {
        if i == a.len() {
            assert(a@.skip(i as int).len() == 0);
        } else {
            assert(b@.skip(i as int).len() == 0);
        }
    }
    i < b.len()
}

proof fn lemma_lex_asymmetric(a: Seq<char>, b: Seq<char>)
    requires
        lex_less(a, b),
    ensures
        !lex_less(b, a),
        a != b,
{
    if lex_less(b, a) {
        lemma_lex_transitive(a, b, a);
        lemma_lex_irreflexive(a);
    }
    if a == b {
        lemma_lex_irreflexive(a);
    }
}

/// Compares two names case-insensitively: by their lowercased characters.
pub fn natural_cmp(a: &str, b: &str) -> (r: Ordering)
    ensures
        (r == Ordering::Less) == lex_less(lower_text(a@), lower_text(b@)),
        (r == Ordering::Equal) == (lower_text(a@) == lower_text(b@)),
        (r == Ordering::Greater) == lex_less(lower_text(b@), lower_text(a@)),
{
    let la = chars_of(to_lowercase(a).as_str());
    let lb = chars_of(to_lowercase(b).as_str());
    proof {
        lemma_lex_total(la@, lb@);
        lemma_lex_irreflexive(la@);
        if lex_less(la@, lb@) {
            lemma_lex_asymmetric(la@, lb@);
        }
        if lex_less(lb@, la@) {
            lemma_lex_asymmetric(lb@, la@);
        }
    }
    if chars_less(&la, &lb) {
        Ordering::Less
    } else if crate::text::chars_eq(&la, &lb) {
        Ordering::Equal
    } else {
        Ordering::Greater
    }
}

/// Listing entries as the reader shows them: folders first, then by name,
/// compared case-insensitively.
pub ghost struct NodeView {
    pub path: Seq<char>,
    pub name: Seq<char>,
    pub is_directory: bool,
    pub is_supported_file: bool,
}

pub open spec fn node_view(n: ExplorerNode) -> NodeView {
    NodeView { path: n.path@, name: n.name@, is_directory: n.is_directory, is_supported_file: n.is_supported_file }
}

pub open spec fn node_views(v: Seq<ExplorerNode>) -> Seq<NodeView> {
    v.map_values(|n: ExplorerNode| node_view(n))
}

/// The explorer's order: a folder before a file, otherwise by lowercased name.
pub open spec fn node_before() -> spec_fn(NodeView, NodeView) -> bool {
    |a: NodeView, b: NodeView| (a.is_directory && !b.is_directory)
        || (a.is_directory == b.is_directory && lex_less(lower_text(a.name), lower_text(b.name)))
}

/// In the explorer a folder always comes before a file, whatever their names.
pub proof fn law_folders_first(a: NodeView, b: NodeView)
    requires
        a.is_directory,
        !b.is_directory,
    ensures
        (node_before())(a, b),
        !(node_before())(b, a),
{
}

/// The explorer's order is a strict order.
pub proof fn lemma_node_before_strict()
    ensures
        strict_order(node_before()),
{
    assert forall|a: NodeView| !#[trigger] (node_before())(a, a) by {
        lemma_lex_irreflexive(lower_text(a.name));
    }
    assert forall|a: NodeView, b: NodeView, c: NodeView|
        #[trigger] (node_before())(a, b) && #[trigger] (node_before())(b, c) implies (node_before())(a, c) by {
        if a.is_directory == b.is_directory && b.is_directory == c.is_directory {
            lemma_lex_transitive(lower_text(a.name), lower_text(b.name), lower_text(c.name));
        }
    }
}

/// The explorer's comparison: a folder before a file, otherwise by name.
pub fn sort_node(a: &ExplorerNode, b: &ExplorerNode) -> (r: Ordering)
    ensures
        (r == Ordering::Less) == (node_before())(node_view(*a), node_view(*b)),
        (r == Ordering::Greater) == (node_before())(node_view(*b), node_view(*a)),
{
    if a.is_directory && !b.is_directory {
        Ordering::Less
    } else if !a.is_directory && b.is_directory {
        Ordering::Greater
    } else {
        natural_cmp(a.name.as_str(), b.name.as_str())
    }
}

fn node_goes_before(a: &ExplorerNode, b: &ExplorerNode) -> (r: bool)
    ensures
        r == (node_before())(node_view(*a), node_view(*b)),
{
    match sort_node(a, b) {
        Ordering::Less => true,
        _ => false,
    }
}

/// What the reader learns of one directory entry.
#[derive(Debug, Clone)]
pub struct DirEntryInfo {
    pub path: String,
    pub name: String,
    pub is_directory: bool,
    pub is_file: bool,
}

pub open spec fn entry_shown(e: DirEntryInfo) -> bool {
    !is_hidden(e.path@) && (e.is_directory || has_extension_in(e.path@, image_extensions())
        || has_extension_in(e.path@, archive_extensions()))
}

/// The node shown for an entry.
pub open spec fn entry_node(e: DirEntryInfo) -> NodeView {
    NodeView {
        path: e.path@,
        name: e.name@,
        is_directory: e.is_directory,
        is_supported_file: has_extension_in(e.path@, image_extensions()) || has_extension_in(e.path@, archive_extensions()),
    }
}

/// The nodes of the entries shown, in the order of the entries.
pub open spec fn shown_nodes(entries: Seq<DirEntryInfo>) -> Seq<NodeView>
    decreases entries.len(),
{
    if entries.len() == 0 {
        Seq::empty()
    } else {
        let r = shown_nodes(entries.drop_last());
        if entry_shown(entries.last()) { r.push(entry_node(entries.last())) } else { r }
    }
}

/// The explorer's rows for the entries of one directory: hidden entries and
/// files the reader cannot open left out, folders first, then by name.
pub fn explorer_nodes(entries: &Vec<DirEntryInfo>) -> (r: Vec<ExplorerNode>)
    ensures
        node_views(r@) == stable_sort(shown_nodes(entries@), node_before()),
{
    let mut nodes: Vec<ExplorerNode> = Vec::new();
    let mut i: usize = 0;
    while i < entries.len()
        invariant
            i <= entries.len(),
            node_views(nodes@) == stable_sort(shown_nodes(entries@.take(i as int)), node_before()),
        decreases entries.len() - i,
    {
        let e = &entries[i];
        proof {
            assert(entries@.take(i + 1).drop_last() =~= entries@.take(i as int));
            assert(entries@.take(i + 1).last() == entries@[i as int]);
        }
        if !should_ignore(e.path.as_str()) {
            let supported = is_supported_image(e.path.as_str()) || is_supported_archive(e.path.as_str());
            if e.is_directory || supported {
                let node = ExplorerNode {
                    path: e.path.clone(),
                    name: e.name.clone(),
                    is_directory: e.is_directory,
                    is_supported_file: supported,
                };
                assert(node_view(node) == entry_node(*e));
                let mut p: usize = 0;
                let mut stop = false;
                while p < nodes.len() && !stop
                    invariant
                        p <= nodes.len(),
                        forall|j: int| 0 <= j < p ==> !(node_before())(node_view(node), #[trigger] node_views(nodes@)[j]),
                        stop ==> p < nodes.len() && (node_before())(node_view(node), node_views(nodes@)[p as int]),
                    decreases nodes.len() - p + (if stop { 0int } else { 1int }),
                {
                    assert(node_views(nodes@)[p as int] == node_view(nodes@[p as int]));
                    if node_goes_before(&node, &nodes[p]) {
                        stop = true;
                    } else {
                        p = p + 1;
                    }
                }
                proof {
                    if p < nodes.len() {
                        assert(node_views(nodes@)[p as int] == node_view(nodes@[p as int]));
                    }
                    lemma_ins_pos(node_views(nodes@), node_view(node), node_before(), p as int);
                }
                let ghost before = nodes@;
                nodes.insert(p, node);
                assert(node_views(nodes@) =~= node_views(before).insert(p as int, node_view(node)));
                proof {
                    let sn = shown_nodes(entries@.take(i + 1));
                    assert(sn == shown_nodes(entries@.take(i as int)).push(entry_node(entries@[i as int])));
                    assert(sn.drop_last() =~= shown_nodes(entries@.take(i as int)));
                    assert(sn.last() == node_view(node));
                }
            }
        }
        i = i + 1;
    }
    proof {
        assert(entries@.take(entries.len() as int) =~= entries@);
    }
    nodes
}

/// The explorer's rows are ordered: no row should come before an earlier one.
pub proof fn law_explorer_sorted(entries: Seq<DirEntryInfo>)
    ensures
        sorted_by(stable_sort(shown_nodes(entries), node_before()), node_before()),
{
    lemma_node_before_strict();
    lemma_stable_sort_sorted(shown_nodes(entries), node_before());
}

proof fn lemma_shown_nodes_come_from_entries(entries: Seq<DirEntryInfo>)
    ensures
        forall|i: int| #![trigger shown_nodes(entries)[i]] 0 <= i < shown_nodes(entries).len() ==> exists|k: int| 0 <= k < entries.len()
            && entry_shown(#[trigger] entries[k]) && entry_node(entries[k]) == shown_nodes(entries)[i],
    decreases entries.len(),
{
    if entries.len() > 0 {
        let d = entries.drop_last();
        lemma_shown_nodes_come_from_entries(d);
        let r = shown_nodes(entries);
        let rd = shown_nodes(d);
        let last = entries.last();
        if entry_shown(last) {
            assert(r == rd.push(entry_node(last)));
        } else {
            assert(r == rd);
        }
        assert forall|i: int| #![trigger r[i]] 0 <= i < r.len() implies exists|k: int| 0 <= k < entries.len()
            && entry_shown(#[trigger] entries[k]) && entry_node(entries[k]) == r[i] by {
            if i < rd.len() {
                assert(r[i] == rd[i]);
                let k = choose|k: int| 0 <= k < d.len() && entry_shown(#[trigger] d[k]) && entry_node(d[k]) == rd[i];
                assert(entries[k] == d[k]);
            } else {
                let k = entries.len() - 1;
                assert(entries[k] == last);
                assert(entry_shown(entries[k]) && entry_node(entries[k]) == r[i]);
            }
        }
    }
}

/// Every row the explorer shows comes from an entry that is shown: not
/// hidden, and a folder or a file the reader opens.
pub proof fn law_explorer_rows_are_shown_entries(entries: Seq<DirEntryInfo>)
    ensures
        forall|i: int| #![trigger stable_sort(shown_nodes(entries), node_before())[i]]
            0 <= i < stable_sort(shown_nodes(entries), node_before()).len() ==> exists|k: int|
            0 <= k < entries.len() && entry_shown(#[trigger] entries[k])
            && entry_node(entries[k]) == stable_sort(shown_nodes(entries), node_before())[i],
{
    broadcast use vstd::seq_lib::group_to_multiset_ensures;
    let shown = shown_nodes(entries);
    let sorted = stable_sort(shown, node_before());
    crate::sort::lemma_stable_sort_multiset(shown, node_before());
    lemma_shown_nodes_come_from_entries(entries);
    assert forall|i: int| #![trigger sorted[i]] 0 <= i < sorted.len() implies exists|k: int| 0 <= k < entries.len()
        && entry_shown(#[trigger] entries[k]) && entry_node(entries[k]) == sorted[i] by {
        assert(sorted.contains(sorted[i]));
        assert(sorted.to_multiset().count(sorted[i]) > 0);
        assert(shown.contains(sorted[i]));
        let j = choose|j: int| 0 <= j < shown.len() && shown[j] == sorted[i];
        assert(shown[j] == sorted[i]);
    }
}

/// How a directory scan treats an entry.
#[derive(Debug, Clone, Copy, PartialEq, Eq, Structural)]
pub enum EntryAction {
    /// Left out.
    Skip,
    /// A folder to look into (when scanning recursively).
    Descend,
    /// An image to list.
    Take,
}

pub open spec fn entry_action_spec(p: Seq<char>, is_directory: bool, is_file: bool) -> EntryAction {
    if is_hidden(p) {
        EntryAction::Skip
    } else if is_directory {
        EntryAction::Descend
    } else if is_file && has_extension_in(p, image_extensions()) {
        EntryAction::Take
    } else {
        EntryAction::Skip
    }
}

/// What a scan for images does with an entry: hidden ones are skipped,
/// folders are looked into, files the reader opens as images are taken.
pub fn entry_action(path: &str, is_directory: bool, is_file: bool) -> (r: EntryAction)
    ensures
        r == entry_action_spec(path@, is_directory, is_file),
{
    if should_ignore(path) {
        EntryAction::Skip
    } else if is_directory {
        EntryAction::Descend
    } else if is_file && is_supported_image(path) {
        EntryAction::Take
    } else {
        EntryAction::Skip
    }
}

} // verus!

verus! {

/// An image of a listing without its place: its path and its name.
pub open spec fn image_key(e: ImageEntry) -> (Seq<char>, Seq<char>) {
    (e.path@, e.name@)
}

pub open spec fn image_keys(v: Seq<ImageEntry>) -> Seq<(Seq<char>, Seq<char>)> {
    v.map_values(|e: ImageEntry| image_key(e))
}

/// Reading order: by lowercased name.
pub open spec fn name_before() -> spec_fn((Seq<char>, Seq<char>), (Seq<char>, Seq<char>)) -> bool {
    |a: (Seq<char>, Seq<char>), b: (Seq<char>, Seq<char>)| lex_less(lower_text(a.1), lower_text(b.1))
}

fn name_goes_before(a: &ImageEntry, b: &ImageEntry) -> (r: bool)
    ensures
        r == (name_before())(image_key(*a), image_key(*b)),
{
    match natural_cmp(a.name.as_str(), b.name.as_str()) {
        Ordering::Less => true,
        _ => false,
    }
}

/// The images found, in reading order (by name, compared case-insensitively,
/// equal names in the order found), each numbered by its place.
pub fn order_images(found: Vec<ImageEntry>) -> (r: Vec<ImageEntry>)
    ensures
        image_keys(r@) == stable_sort(image_keys(found@), name_before()),
        forall|k: int| 0 <= k < r.len() ==> (#[trigger] r@[k]).index == k,
{
    let ghost orig = image_keys(found@);
    let mut rest = found;
    let mut sorted: Vec<ImageEntry> = Vec::new();
    let ghost mut taken: int = 0;
    proof {
        assert(orig.take(0) =~= Seq::<(Seq<char>, Seq<char>)>::empty());
        assert(image_keys(rest@) =~= orig.skip(0));
    }
    while rest.len() > 0
        invariant
            0 <= taken <= orig.len(),
            image_keys(rest@) == orig.skip(taken),
            image_keys(sorted@) == stable_sort(orig.take(taken), name_before()),
        decreases rest.len(),
    {
        let ghost r0 = rest@;
        assert(image_keys(r0).len() == r0.len());
        let g = rest.remove(0);
        proof {
            assert(image_keys(r0)[0] == orig[taken]);
            assert(image_keys(rest@) =~= orig.skip(taken + 1)) by {
                assert forall|j: int| 0 <= j < rest@.len() implies image_keys(rest@)[j] == orig.skip(taken + 1)[j] by {
                    assert(rest@[j] == r0[j + 1]);
                    assert(image_keys(r0)[j + 1] == orig.skip(taken)[j + 1]);
                }
            }
        }
        let mut p: usize = 0;
        let mut stop = false;
        while p < sorted.len() && !stop
            invariant
                p <= sorted.len(),
                forall|j: int| 0 <= j < p ==> !(name_before())(image_key(g), #[trigger] image_keys(sorted@)[j]),
                stop ==> p < sorted.len() && (name_before())(image_key(g), image_keys(sorted@)[p as int]),
            decreases sorted.len() - p + (if stop { 0int } else { 1int }),
        {
            assert(image_keys(sorted@)[p as int] == image_key(sorted@[p as int]));
            if name_goes_before(&g, &sorted[p]) {
                stop = true;
            } else {
                p = p + 1;
            }
        }
        proof {
            lemma_ins_pos(image_keys(sorted@), image_key(g), name_before(), p as int);
            let t1 = orig.take(taken + 1);
            assert(t1.drop_last() =~= orig.take(taken));
            assert(t1.last() == image_key(g));
        }
        let ghost before = sorted@;
        sorted.insert(p, g);
        proof {
            assert(image_keys(sorted@) =~= image_keys(before).insert(p as int, image_key(g)));
            taken = taken + 1;
        }
    }
    proof {
        assert(orig.take(taken) =~= orig);
    }
    let ghost sv = image_keys(sorted@);
    let mut out: Vec<ImageEntry> = Vec::new();
    let ghost mut done: int = 0;
    while sorted.len() > 0
        invariant
            0 <= done <= sv.len(),
            out.len() == done,
            image_keys(sorted@) == sv.skip(done),
            image_keys(out@) == sv.take(done),
            forall|k: int| 0 <= k < out.len() ==> (#[trigger] out@[k]).index == k,
        decreases sorted.len(),
    {
        let ghost s0 = sorted@;
        assert(image_keys(s0).len() == s0.len());
        assert(done < sv.len());
        assert(image_keys(s0)[0] == sv[done]);
        let e = sorted.remove(0);
        let idx = out.len();
        out.push(ImageEntry { index: idx, path: e.path, name: e.name });
        proof {
            assert(image_keys(sorted@) =~= sv.skip(done + 1)) by {
                assert forall|j: int| 0 <= j < sorted@.len() implies image_keys(sorted@)[j] == sv.skip(done + 1)[j] by {
                    assert(sorted@[j] == s0[j + 1]);
                    assert(image_keys(s0)[j + 1] == sv.skip(done)[j + 1]);
                }
            }
            assert(image_keys(out@) =~= sv.take(done + 1));
            done = done + 1;
        }
    }
    proof {
        assert(sv.take(done) =~= sv);
    }
    out
}

/// The images are in reading order: no image should come before an earlier one.
pub proof fn law_images_sorted(found: Seq<ImageEntry>)
    ensures
        sorted_by(stable_sort(image_keys(found), name_before()), name_before()),
{
    assert forall|a: (Seq<char>, Seq<char>)| !#[trigger] (name_before())(a, a) by {
        lemma_lex_irreflexive(lower_text(a.1));
    }
    assert forall|a: (Seq<char>, Seq<char>), b: (Seq<char>, Seq<char>), c: (Seq<char>, Seq<char>)|
        #[trigger] (name_before())(a, b) && #[trigger] (name_before())(b, c) implies (name_before())(a, c) by {
        lemma_lex_transitive(lower_text(a.1), lower_text(b.1), lower_text(c.1));
    }
    lemma_stable_sort_sorted(image_keys(found), name_before());
}

} // verus!
