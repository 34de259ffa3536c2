//! A saved session's result tabs as CSV records: the rows written for each
//! tab, and the groups read back from the rows of a saved tab.
use vstd::prelude::*;
use crate::text::{chars_of, chars_eq, all_ascii, ascii_upper};
use crate::model::{decimal, decimal_chars, digit_char, size_text, fmt_size};
use crate::byte_range::{all_digits, digits_value, parsed_u64, parse_u64};

verus! {

/// One file of a group as the page sends it; a field is `None` where the page
/// sent none of its type.
#[derive(Debug, Clone)]
pub struct CsvFile {
    pub path: Option<String>,
    pub size: Option<u64>,
    pub file_type: Option<String>,
    pub hash: Option<String>,
    pub phash: Option<String>,
    pub created: Option<String>,
    pub keep: Option<bool>,
    pub shared: Option<u64>,
    pub frame_count: Option<String>,
}

/// One group as the page sends it.
#[derive(Debug, Clone)]
pub struct CsvGroup {
    pub id: Option<String>,
    pub category: Option<String>,
    pub files: Option<Vec<CsvFile>>,
}

pub open spec fn text_or(s: Option<String>, d: Seq<char>) -> Seq<char> {
    match s {
        Some(t) => t@,
        None => d,
    }
}

pub open spec fn keep_text(k: Option<bool>) -> Seq<char> {
    if k == Some(true) { "YES"@ } else { "NO"@ }
}

pub open spec fn num_or_zero(n: Option<u64>) -> Seq<char> {
    match n {
        Some(v) => decimal(v as nat),
        None => decimal(0),
    }
}

/// The kinds of tab that are written: duplicates, images, archives, videos.
pub open spec fn tab_kind(tab: Seq<char>) -> int {
    if tab == "regular"@ {
        1
    } else if tab == "image"@ {
        2
    } else if tab == "archive"@ {
        3
    } else if tab == "video"@ {
        4
    } else {
        0
    }
}

/// The header row of a tab.
pub open spec fn header(kind: int) -> Seq<Seq<char>> {
    if kind == 1 {
        seq!["group_id"@, "path"@, "size"@, "type"@, "hash"@, "created"@, "keep"@]
    } else if kind == 2 {
        seq!["category"@, "group_id"@, "path"@, "size_bytes"@, "type"@, "phash"@, "keep"@]
    } else if kind == 4 {
        seq!["category"@, "group_id"@, "path"@, "size"@, "type"@, "frame_count"@, "keep"@]
    } else {
        seq!["group_id"@, "path"@, "size"@, "shared_files"@, "keep"@]
    }
}

/// The row of one file.
pub open spec fn file_row(kind: int, gid: Seq<char>, cat: Seq<char>, f: CsvFile) -> Seq<Seq<char>> {
    if kind == 1 {
        seq![gid, text_or(f.path, Seq::empty()), num_or_zero(f.size), text_or(f.file_type, "file"@),
            text_or(f.hash, Seq::empty()), text_or(f.created, Seq::empty()), keep_text(f.keep)]
    } else if kind == 2 {
        seq![cat, gid, text_or(f.path, Seq::empty()), num_or_zero(f.size), text_or(f.file_type, "file"@),
            text_or(f.phash, Seq::empty()), keep_text(f.keep)]
    } else if kind == 4 {
        seq![cat, gid, text_or(f.path, Seq::empty()), num_or_zero(f.size), text_or(f.file_type, "file"@),
            text_or(f.frame_count, Seq::empty()), keep_text(f.keep)]
    } else {
        seq![gid, text_or(f.path, Seq::empty()), num_or_zero(f.size), num_or_zero(f.shared), keep_text(f.keep)]
    }
}

/// A row of empty fields, as wide as the tab's header.
pub open spec fn blank_row(kind: int) -> Seq<Seq<char>> {
    Seq::new(header(kind).len(), |i: int| Seq::<char>::empty())
}

/// The rows of a group's files, in order.
pub open spec fn file_rows(kind: int, gid: Seq<char>, cat: Seq<char>, fs: Seq<CsvFile>) -> Seq<Seq<Seq<char>>>
    decreases fs.len(),
{
    if fs.len() == 0 {
        Seq::empty()
    } else {
        file_rows(kind, gid, cat, fs.drop_last()).push(file_row(kind, gid, cat, fs.last()))
    }
}

/// The rows of a group: one per file, then a blank row; none when the group
/// has no file list.
pub open spec fn group_rows(kind: int, g: CsvGroup) -> Seq<Seq<Seq<char>>> {
    match g.files {
        Some(fs) => file_rows(kind, text_or(g.id, Seq::empty()), text_or(g.category, Seq::empty()), fs@).push(
            blank_row(kind)),
        None => Seq::empty(),
    }
}

/// The rows of the groups, group after group.
pub open spec fn groups_rows(kind: int, gs: Seq<CsvGroup>) -> Seq<Seq<Seq<char>>>
    decreases gs.len(),
{
    if gs.len() == 0 {
        Seq::empty()
    } else {
        groups_rows(kind, gs.drop_last()) + group_rows(kind, gs.last())
    }
}

/// The records of a tab: its header and its groups' rows; nothing for a tab
/// that is not written.
pub open spec fn tab_records(tab: Seq<char>, gs: Seq<CsvGroup>) -> Seq<Seq<Seq<char>>> {
    if tab_kind(tab) == 0 {
        Seq::empty()
    } else {
        seq![header(tab_kind(tab))] + groups_rows(tab_kind(tab), gs)
    }
}

pub open spec fn record_views(v: Seq<Vec<String>>) -> Seq<Seq<Seq<char>>> {
    v.map_values(|r: Vec<String>| r@.map_values(|s: String| s@))
}

fn strs(items: Vec<&str>) -> (r: Vec<String>)
    ensures
        r@.map_values(|s: String| s@) == items@.map_values(|s: &str| s@),
{
    let mut r: Vec<String> = Vec::new();
    let mut i: usize = 0;
    while i < items.len()
        invariant
            i <= items.len(),
            r@.map_values(|s: String| s@) == items@.take(i as int).map_values(|s: &str| s@),
        decreases items.len() - i,
    {
        r.push(items[i].to_string());
        assert(items@.take(i + 1).map_values(|s: &str| s@) =~= items@.take(i as int).map_values(|s: &str| s@).push(items@[i as int]@));
        assert(r@.map_values(|s: String| s@) =~= items@.take(i as int).map_values(|s: &str| s@).push(items@[i as int]@));
        i = i + 1;
    }
    assert(items@.take(items.len() as int) =~= items@);
    r
}

fn header_record(kind: u8) -> (r: Vec<String>)
    requires
        1 <= kind <= 4,
    ensures
        r@.map_values(|s: String| s@) == header(kind as int),
{
    if kind == 1 {
        let v: Vec<&str> = vec!["group_id", "path", "size", "type", "hash", "created", "keep"];
        let r = strs(v);
        assert(v@.map_values(|s: &str| s@) =~= header(1));
        r
    } else if kind == 2 {
        let v: Vec<&str> = vec!["category", "group_id", "path", "size_bytes", "type", "phash", "keep"];
        let r = strs(v);
        assert(v@.map_values(|s: &str| s@) =~= header(2));
        r
    } else if kind == 4 {
        let v: Vec<&str> = vec!["category", "group_id", "path", "size", "type", "frame_count", "keep"];
        let r = strs(v);
        assert(v@.map_values(|s: &str| s@) =~= header(4));
        r
    } else {
        let v: Vec<&str> = vec!["group_id", "path", "size", "shared_files", "keep"];
        let r = strs(v);
        assert(v@.map_values(|s: &str| s@) =~= header(3));
        r
    }
}

fn blank_record(kind: u8) -> (r: Vec<String>)
    requires
        1 <= kind <= 4,
    ensures
        r@.map_values(|s: String| s@) == blank_row(kind as int),
{
    let width: usize = if kind == 3 { 5 } else { 7 };
    let mut r: Vec<String> = Vec::new();
    let mut i: usize = 0;
    while i < width
        invariant
            i <= width,
            r.len() == i,
            forall|j: int| 0 <= j < i ==> r@[j]@ == Seq::<char>::empty(),
        decreases width - i,
    {
        r.push(String::new());
        i = i + 1;
    }
    assert(r@.map_values(|s: String| s@) =~= blank_row(kind as int));
    r
}

fn opt_text(s: &Option<String>, d: &str) -> (r: String)
    ensures
        r@ == text_or(*s, d@),
{
    match s {
        Some(t) => t.clone(),
        None => d.to_string(),
    }
}

fn opt_num(n: Option<u64>) -> (r: String)
    ensures
        r@ == num_or_zero(n),
{
    let d = match n {
        Some(v) => decimal_chars(v),
        None => decimal_chars(0),
    };
    crate::text::string_of(&d)
}

fn keep_string(k: Option<bool>) -> (r: String)
    ensures
        r@ == keep_text(k),
{
    match k {
        Some(true) => "YES".to_string(),
        _ => "NO".to_string(),
    }
}

fn row_of(kind: u8, gid: &String, cat: &String, f: &CsvFile) -> (r: Vec<String>)
    requires
        1 <= kind <= 4,
    ensures
        r@.map_values(|s: String| s@) == file_row(kind as int, gid@, cat@, *f),
{
    proof { reveal_strlit(""); }
    let ghost e = Seq::<char>::empty();
    assert(""@ =~= e);
    if kind == 1 {
        let r = vec![gid.clone(), opt_text(&f.path, ""), opt_num(f.size), opt_text(&f.file_type, "file"),
            opt_text(&f.hash, ""), opt_text(&f.created, ""), keep_string(f.keep)];
        assert(r@.map_values(|s: String| s@) =~= file_row(kind as int, gid@, cat@, *f));
        r
    } else if kind == 2 {
        let r = vec![cat.clone(), gid.clone(), opt_text(&f.path, ""), opt_num(f.size), opt_text(&f.file_type, "file"),
            opt_text(&f.phash, ""), keep_string(f.keep)];
        assert(r@.map_values(|s: String| s@) =~= file_row(kind as int, gid@, cat@, *f));
        r
    } else if kind == 4 {
        let r = vec![cat.clone(), gid.clone(), opt_text(&f.path, ""), opt_num(f.size), opt_text(&f.file_type, "file"),
            opt_text(&f.frame_count, ""), keep_string(f.keep)];
        assert(r@.map_values(|s: String| s@) =~= file_row(kind as int, gid@, cat@, *f));
        r
    } else {
        let r = vec![gid.clone(), opt_text(&f.path, ""), opt_num(f.size), opt_num(f.shared), keep_string(f.keep)];
        assert(r@.map_values(|s: String| s@) =~= file_row(kind as int, gid@, cat@, *f));
        r
    }
}

/// The CSV records of a result tab (`regular`, `image`, `archive` or `video`):
/// a header, then for each group with a file list one row per file and a blank
/// row. Any other tab has no record.
pub fn csv_records(tab: &str, groups: &Vec<CsvGroup>) -> (r: Vec<Vec<String>>)
    ensures
        record_views(r@) == tab_records(tab@, groups@),
{
    let t = chars_of(tab);
    let kind: u8 = if chars_eq(&t, &chars_of("regular")) {
        1
    } else if chars_eq(&t, &chars_of("image")) {
        2
    } else if chars_eq(&t, &chars_of("archive")) {
        3
    } else if chars_eq(&t, &chars_of("video")) {
        4
    } else {
        0
    };
    assert(kind as int == tab_kind(tab@));
    let mut out: Vec<Vec<String>> = Vec::new();
    if kind == 0 {
        assert(record_views(out@) =~= Seq::<Seq<Seq<char>>>::empty());
        return out;
    }
    out.push(header_record(kind));
    assert(record_views(out@) =~= seq![header(kind as int)] + groups_rows(kind as int, groups@.take(0)));
    let mut g: usize = 0;
    while g < groups.len()
        invariant
            1 <= kind <= 4,
            g <= groups.len(),
            record_views(out@) == seq![header(kind as int)] + groups_rows(kind as int, groups@.take(g as int)),
        decreases groups.len() - g,
    {
        let grp = &groups[g];
        let ghost o0 = record_views(out@);
        proof {
            assert(groups@.take(g + 1).drop_last() =~= groups@.take(g as int));
            assert(groups@.take(g + 1).last() == *grp);
        }
        match &grp.files {
            Some(fs) => {
                let gid = opt_text(&grp.id, "");
                let cat = opt_text(&grp.category, "");
                proof { reveal_strlit(""); }
                let mut k: usize = 0;
                while k < fs.len()
                    invariant
                        1 <= kind <= 4,
                        k <= fs.len(),
                        gid@ == text_or(grp.id, Seq::empty()),
                        cat@ == text_or(grp.category, Seq::empty()),
                        record_views(out@) == o0 + file_rows(kind as int, gid@, cat@, fs@.take(k as int)),
                    decreases fs.len() - k,
                {
                    let ghost o1 = record_views(out@);
                    out.push(row_of(kind, &gid, &cat, &fs[k]));
                    proof {
                        assert(fs@.take(k + 1).drop_last() =~= fs@.take(k as int));
                        assert(record_views(out@) =~= o1.push(file_row(kind as int, gid@, cat@, fs@[k as int])));
                    }
                    k = k + 1;
                }
                assert(fs@.take(fs.len() as int) =~= fs@);
                let ghost o2 = record_views(out@);
                out.push(blank_record(kind));
                assert(record_views(out@) =~= o2.push(blank_row(kind as int)));
            },
            None => {},
        }
        g = g + 1;
    }
    assert(groups@.take(groups.len() as int) =~= groups@);
    out
}

/// A file read back from a saved tab.
#[derive(Debug, Clone)]
pub struct LoadedFile {
    pub path: String,
    pub size: u64,
    pub size_fmt: String,
    pub keep: bool,
    pub file_type: String,
    pub hash: Option<String>,
    pub phash: Option<String>,
    pub created: Option<String>,
    pub shared: Option<u64>,
    pub frame_count: Option<String>,
}

/// A group read back from a saved tab.
#[derive(Debug, Clone)]
pub struct LoadedGroup {
    pub id: String,
    pub files: Vec<LoadedFile>,
    pub savable: u64,
    pub savable_fmt: String,
    pub category: String,
}

/// A record given as (name, value) pairs, as a map from each name to its value
/// (a later pair of the same name wins).
pub open spec fn record_map(s: Seq<(Seq<char>, Seq<char>)>) -> Map<Seq<char>, Seq<char>>
    decreases s.len(),
{
    if s.len() == 0 {
        Map::empty()
    } else {
        record_map(s.drop_last()).insert(s.last().0, s.last().1)
    }
}

/// The value of the field `key` of a record, if it has one.
pub open spec fn field(rec: Map<Seq<char>, Seq<char>>, key: Seq<char>) -> Option<Seq<char>> {
    if rec.dom().contains(key) {
        Some(rec[key])
    } else {
        None
    }
}

/// What `str::to_uppercase` returns for a string: a function of the string alone.
pub uninterp spec fn uppercase(s: Seq<char>) -> Seq<char>;

/// Calls `str::to_uppercase`; the result is the Unicode uppercase mapping of
/// `s`, which this contract names, and states for an all-ASCII string: `a`-`z`
/// become `A`-`Z` and every other character stays.
#[verifier::external_body]
fn to_uppercase(s: &str) -> (r: String)
    ensures
        r@ == uppercase(s@),
        all_ascii(s@) ==> r@ == ascii_upper(s@),
{
    s.to_uppercase()
}

/// Whether a keep mark reads as "keep": anything but `NO` once raised to
/// capitals (for all-ASCII text, `a`-`z` raised and every other character
/// kept; otherwise the Unicode mapping that `str::to_uppercase` gives).
pub open spec fn keep_of(k: Seq<char>) -> bool {
    if all_ascii(k) {
        ascii_upper(k) != "NO"@
    } else {
        uppercase(k) != "NO"@
    }
}

/// The size a record gives: its `size` field (or else `size_bytes`) read as a
/// number, 0 where missing or unreadable.
pub open spec fn record_size(rec: Map<Seq<char>, Seq<char>>) -> u64 {
    let f = if field(rec, "size"@) is Some { field(rec, "size"@) } else { field(rec, "size_bytes"@) };
    match f {
        Some(t) => match parsed_u64(t) {
            Some(v) => v,
            None => 0,
        },
        None => 0,
    }
}

/// The file a record describes.
pub open spec fn record_file(rec: Map<Seq<char>, Seq<char>>) -> LoadedFileView {
    LoadedFileView {
        path: match field(rec, "path"@) {
            Some(p) => p,
            None => Seq::empty(),
        },
        size: record_size(rec),
        keep: match field(rec, "keep"@) {
            Some(k) => keep_of(k),
            None => true,
        },
        file_type: match field(rec, "type"@) {
            Some(t) => t,
            None => "file"@,
        },
        hash: field(rec, "hash"@),
        phash: field(rec, "phash"@),
        created: field(rec, "created"@),
        shared: match field(rec, "shared_files"@) {
            Some(t) => parsed_u64(t),
            None => None,
        },
        frame_count: field(rec, "frame_count"@),
    }
}

/// A file read back, as values (its size text follows from its size).
pub ghost struct LoadedFileView {
    pub path: Seq<char>,
    pub size: u64,
    pub keep: bool,
    pub file_type: Seq<char>,
    pub hash: Option<Seq<char>>,
    pub phash: Option<Seq<char>>,
    pub created: Option<Seq<char>>,
    pub shared: Option<u64>,
    pub frame_count: Option<Seq<char>>,
}

pub open spec fn opt_view(s: Option<String>) -> Option<Seq<char>> {
    match s {
        Some(t) => Some(t@),
        None => None,
    }
}

pub open spec fn loaded_file_view(f: LoadedFile) -> LoadedFileView {
    LoadedFileView {
        path: f.path@,
        size: f.size,
        keep: f.keep,
        file_type: f.file_type@,
        hash: opt_view(f.hash),
        phash: opt_view(f.phash),
        created: opt_view(f.created),
        shared: f.shared,
        frame_count: opt_view(f.frame_count),
    }
}

/// The group id a record belongs to (empty where it has none).
pub open spec fn record_gid(rec: Map<Seq<char>, Seq<char>>) -> Seq<char> {
    match field(rec, "group_id"@) {
        Some(g) => g,
        None => Seq::empty(),
    }
}

pub open spec fn pair_views(rec: Seq<(String, String)>) -> Seq<(Seq<char>, Seq<char>)> {
    rec.map_values(|p: (String, String)| (p.0@, p.1@))
}

pub open spec fn records_view(recs: Seq<Vec<(String, String)>>) -> Seq<Map<Seq<char>, Seq<char>>> {
    recs.map_values(|r: Vec<(String, String)>| record_map(pair_views(r@)))
}

/// The ids of the groups, in the order they first appear among the records
/// with an id.
pub open spec fn group_order(recs: Seq<Map<Seq<char>, Seq<char>>>) -> Seq<Seq<char>>
    decreases recs.len(),
{
    if recs.len() == 0 {
        Seq::empty()
    } else {
        let r = group_order(recs.drop_last());
        let g = record_gid(recs.last());
        if g.len() == 0 || r.contains(g) { r } else { r.push(g) }
    }
}

/// The files of the records of group `gid`, in order.
pub open spec fn group_files(recs: Seq<Map<Seq<char>, Seq<char>>>, gid: Seq<char>) -> Seq<LoadedFileView>
    decreases recs.len(),
{
    if recs.len() == 0 {
        Seq::empty()
    } else if record_gid(recs.last()) == gid {
        group_files(recs.drop_last(), gid).push(record_file(recs.last()))
    } else {
        group_files(recs.drop_last(), gid)
    }
}

/// The category of group `gid`: that of its first record, empty where missing.
pub open spec fn group_category(recs: Seq<Map<Seq<char>, Seq<char>>>, gid: Seq<char>) -> Seq<char>
    decreases recs.len(),
{
    if recs.len() == 0 {
        Seq::empty()
    } else if group_order(recs.drop_last()).contains(gid) {
        group_category(recs.drop_last(), gid)
    } else if record_gid(recs.last()) == gid {
        match field(recs.last(), "category"@) {
            Some(c) => c,
            None => Seq::empty(),
        }
    } else {
        Seq::empty()
    }
}

/// The sizes of files after the first, added up.
pub open spec fn rest_size(fs: Seq<LoadedFileView>) -> int
    decreases fs.len(),
{
    if fs.len() <= 1 {
        0
    } else {
        rest_size(fs.drop_last()) + fs.last().size
    }
}

fn find_field<'a>(rec: &'a Vec<(String, String)>, key: &str) -> (r: Option<&'a String>)
    ensures
        match r {
            Some(v) => field(record_map(pair_views(rec@)), key@) == Some(v@),
            None => field(record_map(pair_views(rec@)), key@) is None,
        },
{
    let k = key.to_string();
    let ghost pv = pair_views(rec@);
    let mut i: usize = rec.len();
    assert(pv.take(i as int) =~= pv);
    while i > 0
        invariant
            i <= rec.len(),
            pv == pair_views(rec@),
            k@ == key@,
            field(record_map(pv), key@) == field(record_map(pv.take(i as int)), key@),
        decreases i,
    {
        proof {
            let t = pv.take(i as int);
            assert(t.last() == (rec@[i - 1].0@, rec@[i - 1].1@));
            assert(t.drop_last() =~= pv.take(i - 1));
        }
        if rec[i - 1].0 == k {
            return Some(&rec[i - 1].1);
        }
        i = i - 1;
    }
    None
}

fn parse_text(t: &String) -> (r: Option<u64>)
    ensures
        r == parsed_u64(t@),
{
    let c = chars_of(t.as_str());
    assert(c@.subrange(0, c.len() as int) =~= c@);
    parse_u64(&c, 0, c.len())
}

fn clone_opt(s: Option<&String>) -> (r: Option<String>)
    ensures
        match s {
            Some(t) => r == Some(*t),
            None => r is None,
        },
{
    match s {
        Some(t) => Some(t.clone()),
        None => None,
    }
}

fn file_of(rec: &Vec<(String, String)>) -> (r: LoadedFile)
    ensures
        loaded_file_view(r) == record_file(record_map(pair_views(rec@))),
        r.size_fmt@ == size_text(r.size as nat),
{
    let ghost pv = pair_views(rec@);
    proof { reveal_strlit(""); }
    let path = match find_field(rec, "path") {
        Some(p) => p.clone(),
        None => String::new(),
    };
    let size_field = match find_field(rec, "size") {
        Some(v) => Some(v),
        None => find_field(rec, "size_bytes"),
    };
    let size = match size_field {
        Some(t) => match parse_text(t) {
            Some(v) => v,
            None => 0,
        },
        None => 0,
    };
    let keep = match find_field(rec, "keep") {
        Some(k) => to_uppercase(k.as_str()) != "NO".to_string(),
        None => true,
    };
    let file_type = match find_field(rec, "type") {
        Some(t) => t.clone(),
        None => "file".to_string(),
    };
    let shared = match find_field(rec, "shared_files") {
        Some(t) => parse_text(t),
        None => None,
    };
    let r = LoadedFile {
        path,
        size,
        size_fmt: fmt_size(size),
        keep,
        file_type,
        hash: clone_opt(find_field(rec, "hash")),
        phash: clone_opt(find_field(rec, "phash")),
        created: clone_opt(find_field(rec, "created")),
        shared,
        frame_count: clone_opt(find_field(rec, "frame_count")),
    };
    assert(r.path@ == (match field(record_map(pv), "path"@) { Some(p) => p, None => Seq::<char>::empty() }));
    r
}

fn gid_of(rec: &Vec<(String, String)>) -> (r: String)
    ensures
        r@ == record_gid(record_map(pair_views(rec@))),
{
    match find_field(rec, "group_id") {
        Some(g) => g.clone(),
        None => String::new(),
    }
}

fn category_of(rec: &Vec<(String, String)>) -> (r: String)
    ensures
        r@ == (match field(record_map(pair_views(rec@)), "category"@) {
            Some(c) => c,
            None => Seq::<char>::empty(),
        }),
{
    match find_field(rec, "category") {
        Some(c) => c.clone(),
        None => String::new(),
    }
}

pub open spec fn texts(v: Seq<String>) -> Seq<Seq<char>> {
    v.map_values(|s: String| s@)
}

pub open spec fn file_views(v: Seq<LoadedFile>) -> Seq<LoadedFileView> {
    v.map_values(|f: LoadedFile| loaded_file_view(f))
}

/// Every saving of a group read back fits in 64 bits.
pub open spec fn savings_fit(recs: Seq<Map<Seq<char>, Seq<char>>>) -> bool {
    forall|k: int| 0 <= k < group_order(recs).len()
        ==> rest_size(group_files(recs, #[trigger] group_order(recs)[k])) <= u64::MAX
}

/// `r` is what the records `recs` of a saved tab read back as: the groups in
/// the order their ids first appear (records without a group id are passed
/// over), each with the files of its records, the category of its first
/// record, and the sizes of its files after the first added up as what it
/// saves; `None` where such a sum does not fit in 64 bits.
pub open spec fn loaded_groups_of(recs: Seq<Map<Seq<char>, Seq<char>>>, r: Option<Vec<LoadedGroup>>) -> bool {
    let order = group_order(recs);
    match r {
        None => !savings_fit(recs),
        Some(gs) => savings_fit(recs) && gs.len() == order.len() && forall|k: int| 0 <= k < gs.len() ==> {
            &&& (#[trigger] gs@[k]).id@ == order[k]
            &&& file_views(gs@[k].files@) == group_files(recs, order[k])
            &&& forall|m: int| 0 <= m < gs@[k].files.len() ==> (#[trigger] gs@[k].files@[m]).size_fmt@
                == size_text(gs@[k].files@[m].size as nat)
            &&& gs@[k].category@ == group_category(recs, order[k])
            &&& gs@[k].savable == rest_size(group_files(recs, order[k]))
            &&& gs@[k].savable_fmt@ == size_text(gs@[k].savable as nat)
        },
    }
}

/// The groups that the records of a saved tab read back as (see
/// `loaded_groups_of`).
pub fn groups_from_records(records: &Vec<Vec<(String, String)>>) -> (r: Option<Vec<LoadedGroup>>)
    ensures
        loaded_groups_of(records_view(records@), r),
{
    let ghost recs = records_view(records@);
    let mut ids: Vec<String> = Vec::new();
    let mut cats: Vec<String> = Vec::new();
    let mut files: Vec<Vec<LoadedFile>> = Vec::new();
    let mut i: usize = 0;
    while i < records.len()
        invariant
            i <= records.len(),
            recs == records_view(records@),
            ids.len() == cats.len(),
            ids.len() == files.len(),
            texts(ids@) == group_order(recs.take(i as int)),
            forall|k: int| 0 <= k < ids.len() ==> (#[trigger] ids@[k])@.len() > 0,
            forall|k: int| 0 <= k < ids.len() ==> (#[trigger] files@[k])@.len() > 0,
            forall|k1: int, k2: int| 0 <= k1 < ids.len() && 0 <= k2 < ids.len() && k1 != k2 ==> (#[trigger] ids@[k1])@ != (#[trigger] ids@[k2])@,
            forall|k: int| 0 <= k < ids.len() ==> (#[trigger] cats@[k])@ == group_category(recs.take(i as int), ids@[k]@),
            forall|k: int| 0 <= k < ids.len() ==> file_views((#[trigger] files@[k])@) == group_files(recs.take(i as int), ids@[k]@),
            forall|k: int, m: int| 0 <= k < ids.len() && 0 <= m < files@[k].len() ==> (#[trigger] files@[k]@[m]).size_fmt@
                == size_text(files@[k]@[m].size as nat),
        decreases records.len() - i,
    {
        let rec = &records[i];
        let ghost t = recs.take(i + 1);
        let ghost prev = recs.take(i as int);
        proof {
            assert(t.drop_last() =~= prev);
            assert(t.last() == record_map(pair_views(rec@)));
        }
        let gid = gid_of(rec);
        if gid == String::new() {
            proof {
                assert(gid@.len() == 0);
                assert forall|k: int| 0 <= k < ids.len() implies file_views((#[trigger] files@[k])@) == group_files(t, ids@[k]@) by {
                    assert(ids@[k]@ != gid@);
                }
                assert forall|k: int| 0 <= k < ids.len() implies (#[trigger] cats@[k])@ == group_category(t, ids@[k]@) by {
                    if k < group_order(prev).len() {
                        assert(group_order(prev)[k] == ids@[k]@);
                        assert(group_order(prev).contains(ids@[k]@));
                    }
                }
            }
            i = i + 1;
            continue;
        }
        assert(gid@.len() > 0) by {
            if gid@.len() == 0 {
                assert(gid@ =~= Seq::<char>::empty());
            }
        }
        let f = file_of(rec);
        let mut pos: usize = 0;
        while pos < ids.len() && ids[pos] != gid
            invariant
                pos <= ids.len(),
                forall|k: int| 0 <= k < pos ==> (#[trigger] ids@[k])@ != gid@,
            decreases ids.len() - pos,
        {
            pos = pos + 1;
        }
        proof {
            assert(texts(ids@).contains(gid@) == (pos < ids.len())) by {
                if pos < ids.len() {
                    assert(texts(ids@)[pos as int] == gid@);
                }
                if texts(ids@).contains(gid@) {
                    let k = choose|k: int| 0 <= k < texts(ids@).len() && texts(ids@)[k] == gid@;
                    assert(ids@[k]@ == gid@);
                }
            }
        }
        let ghost ids0 = ids@;
        let ghost cats0 = cats@;
        let ghost files0 = files@;
        let ghost fresh = pos == ids.len();
        if pos == ids.len() {
            let c = category_of(rec);
            ids.push(gid);
            cats.push(c);
            files.push(Vec::new());
            proof {
                assert(texts(ids@) =~= texts(ids0).push(ids@[pos as int]@));
                assert(!group_order(prev).contains(ids@[pos as int]@));
            }
        }
        let ghost files1 = files@;
        let mut inner = files.remove(pos);
        let ghost before_push = inner@;
        inner.push(f);
        let ghost inner_g = inner;
        files.insert(pos, inner);
        proof {
            assert(group_order(t) == (if gid@.len() == 0 || group_order(prev).contains(gid@) { group_order(prev) } else { group_order(prev).push(gid@) }));
            assert(group_order(prev).contains(gid@) == !fresh);
            if fresh {
                assert(texts(ids@) =~= group_order(prev).push(gid@));
            } else {
                assert(ids@ == ids0);
            }
            assert forall|k1: int, k2: int| 0 <= k1 < ids.len() && 0 <= k2 < ids.len() && k1 != k2 implies (#[trigger] ids@[k1])@ != (#[trigger] ids@[k2])@ by {
                if fresh && (k1 == pos || k2 == pos) {
                    let other = if k1 == pos { k2 } else { k1 };
                    assert(texts(ids0)[other] == ids@[other]@);
                }
            }
            assert(files@ =~= files1.update(pos as int, inner_g));
            assert(before_push == files1[pos as int]@);
            assert(inner_g@ == files1[pos as int]@.push(f));
            assert(texts(ids@) =~= group_order(t));
            assert forall|k: int| 0 <= k < ids.len() implies (#[trigger] cats@[k])@ == group_category(t, ids@[k]@) by {
                if k < ids0.len() {
                    assert(group_order(prev)[k] == ids@[k]@);
                    assert(group_order(prev).contains(ids@[k]@));
                    assert(cats@[k] == cats0[k]);
                }
            }
            assert forall|k: int| 0 <= k < ids.len() implies file_views((#[trigger] files@[k])@) == group_files(t, ids@[k]@) by {
                if k == pos {
                    if fresh {
                        lemma_files_of_unlisted(prev, gid@);
                        assert(file_views(files1[k]@) =~= group_files(prev, gid@));
                    } else {
                        assert(files1[k] == files0[k]);
                    }
                    assert(file_views(files@[k]@) =~= file_views(files1[k]@).push(loaded_file_view(f)));
                } else {
                    assert(files@[k] == files1[k]);
                    assert(ids@[k]@ != gid@);
                    if k < ids0.len() {
                        assert(files1[k] == files0[k]);
                    }
                }
            }
            assert forall|k: int, m: int| 0 <= k < ids.len() && 0 <= m < files@[k].len() implies (#[trigger] files@[k]@[m]).size_fmt@
                == size_text(files@[k]@[m].size as nat) by {
                if k == pos {
                    if m < files1[k].len() {
                        assert(files@[k]@[m] == files1[k]@[m]);
                    }
                } else {
                    assert(files@[k] == files1[k]);
                }
                if k < ids0.len() && k != pos {
                    assert(files1[k] == files0[k]);
                }
                if k < ids0.len() && k == pos && m < files1[k].len() {
                    assert(files1[k] == files0[k]);
                }
            }
            assert forall|k: int| 0 <= k < ids.len() implies (#[trigger] files@[k])@.len() > 0 by {
                if k != pos {
                    assert(files@[k] == files1[k]);
                    if k < ids0.len() {
                        assert(files1[k] == files0[k]);
                    }
                }
            }
        }
        i = i + 1;
    }
    proof {
        assert(recs.take(records.len() as int) =~= recs);
    }
    let mut out: Vec<LoadedGroup> = Vec::new();
    let mut rest = files;
    let mut g: usize = 0;
    while g < ids.len()
        invariant
            g <= ids.len(),
            recs == records_view(records@),
            ids.len() == cats.len(),
            rest.len() == ids.len() - g,
            out.len() == g,
            texts(ids@) == group_order(recs),
            forall|k: int| 0 <= k < ids.len() ==> (#[trigger] cats@[k])@ == group_category(recs, ids@[k]@),
            forall|k: int| 0 <= k < rest.len() ==> file_views((#[trigger] rest@[k])@) == group_files(recs, ids@[g + k]@),
            forall|k: int| 0 <= k < rest.len() ==> (#[trigger] rest@[k])@.len() > 0,
            forall|k: int, m: int| 0 <= k < rest.len() && 0 <= m < rest@[k].len() ==> (#[trigger] rest@[k]@[m]).size_fmt@
                == size_text(rest@[k]@[m].size as nat),
            forall|k: int| 0 <= k < g ==> rest_size(group_files(recs, #[trigger] ids@[k]@)) <= u64::MAX,
            forall|k: int| 0 <= k < g ==> {
                &&& (#[trigger] out@[k]).id@ == ids@[k]@
                &&& file_views(out@[k].files@) == group_files(recs, ids@[k]@)
                &&& forall|m: int| 0 <= m < out@[k].files.len() ==> (#[trigger] out@[k].files@[m]).size_fmt@
                    == size_text(out@[k].files@[m].size as nat)
                &&& out@[k].category@ == group_category(recs, ids@[k]@)
                &&& out@[k].savable == rest_size(group_files(recs, ids@[k]@))
                &&& out@[k].savable_fmt@ == size_text(out@[k].savable as nat)
            },
        decreases ids.len() - g,
    {
        let ghost r0 = rest@;
        let fs = rest.remove(0);
        proof {
            assert(file_views(fs@) == group_files(recs, ids@[g as int]@));
            assert forall|k: int| 0 <= k < rest.len() implies file_views((#[trigger] rest@[k])@) == group_files(recs, ids@[g + 1 + k]@) by {
                assert(rest@[k] == r0[k + 1]);
            }
            assert forall|k: int| 0 <= k < rest.len() implies (#[trigger] rest@[k])@.len() > 0 by {
                assert(rest@[k] == r0[k + 1]);
            }
            assert forall|k: int, m: int| 0 <= k < rest.len() && 0 <= m < rest@[k].len() implies (#[trigger] rest@[k]@[m]).size_fmt@
                == size_text(rest@[k]@[m].size as nat) by {
                assert(rest@[k] == r0[k + 1]);
            }
            assert(fs@.len() > 0);
            assert forall|m: int| 0 <= m < fs.len() implies (#[trigger] fs@[m]).size_fmt@ == size_text(fs@[m].size as nat) by {
                assert(fs == r0[0]);
            }
        }
        let mut sav: u64 = 0;
        let mut m: usize = 1;
        let ghost fv = file_views(fs@);
        assert(fv.take(1).len() == 1);
        while m < fs.len()
            invariant
                1 <= m <= fs.len(),
                recs == records_view(records@),
                g < ids.len(),
                texts(ids@) == group_order(recs),
                fv == group_files(recs, ids@[g as int]@),
                fv == file_views(fs@),
                sav == rest_size(fv.take(m as int)),
            decreases fs.len() - m,
        {
            proof {
                assert(fv.take(m + 1).drop_last() =~= fv.take(m as int));
                assert(fv.take(m + 1).last() == loaded_file_view(fs@[m as int]));
            }
            match sav.checked_add(fs[m].size) {
                Some(v) => sav = v,
                None => {
                    proof {
                        lemma_rest_size_grows(fv, (m + 1) as int);
                        assert(fv.take(fv.len() as int) =~= fv);
                        assert(texts(ids@)[g as int] == ids@[g as int]@);
                        assert(group_order(recs)[g as int] == ids@[g as int]@);
                    }
                    return None;
                },
            }
            m = m + 1;
        }
        assert(fv.take(fs.len() as int) =~= fv);
        let ghost fsv = fs@;
        let grp = LoadedGroup {
            id: ids[g].clone(),
            files: fs,
            savable: sav,
            savable_fmt: fmt_size(sav),
            category: cats[g].clone(),
        };
        let ghost o0 = out@;
        out.push(grp);
        proof {
            assert(out@[g as int].files@ == fsv);
            assert forall|k: int| 0 <= k <= g implies rest_size(group_files(recs, #[trigger] ids@[k]@)) <= u64::MAX by {
            }
            assert forall|k: int| 0 <= k < g implies (#[trigger] out@[k]) == o0[k] by {}
        }
        g = g + 1;
    }
    proof {
        assert forall|k: int| 0 <= k < group_order(recs).len()
            implies rest_size(group_files(recs, #[trigger] group_order(recs)[k])) <= u64::MAX by {
            assert(group_order(recs)[k] == ids@[k]@);
        }
    }
    Some(out)
}

proof fn lemma_files_of_unlisted(recs: Seq<Map<Seq<char>, Seq<char>>>, g: Seq<char>)
    requires
        g.len() > 0,
        !group_order(recs).contains(g),
    ensures
        group_files(recs, g).len() == 0,
    decreases recs.len(),
{
    if recs.len() > 0 {
        let prev = group_order(recs.drop_last());
        if prev.contains(g) {
            let k = choose|k: int| 0 <= k < prev.len() && prev[k] == g;
            let r = group_order(recs);
            if record_gid(recs.last()).len() == 0 || prev.contains(record_gid(recs.last())) {
                assert(r[k] == g);
            } else {
                assert(r[k] == g);
            }
        }
        if record_gid(recs.last()) == g {
            assert(group_order(recs) == prev.push(g));
            assert(group_order(recs)[prev.len() as int] == g);
        }
        lemma_files_of_unlisted(recs.drop_last(), g);
    }
}

proof fn lemma_rest_size_grows(fs: Seq<LoadedFileView>, k: int)
    requires
        1 <= k <= fs.len(),
    ensures
        rest_size(fs.take(k)) <= rest_size(fs),
    decreases fs.len() - k,
{
    if k < fs.len() {
        lemma_rest_size_grows(fs, k + 1);
        assert(fs.take(k + 1).drop_last() =~= fs.take(k));
    } else {
        assert(fs.take(k) =~= fs);
    }
}



/// The records that `csv::Reader` reads from `text` with its default options
/// (the first row as the header, each later row keyed by the header's names,
/// rows that do not read as such maps passed over): a function of the text alone.
pub uninterp spec fn csv_header_records(text: Seq<char>) -> Seq<Map<Seq<char>, Seq<char>>>;

/// The text that `csv::Writer` writes for `records`, one row each, with its
/// default options: a function of the records alone.
pub uninterp spec fn csv_text(records: Seq<Seq<Seq<char>>>) -> Seq<char>;

/// Calls `csv::Reader::deserialize` into string maps on a reader over `text`,
/// keeping the rows that read; each map is handed out as its (name, value)
/// pairs, in no stated order and with no name twice.
#[verifier::external_body]
fn read_header_records(text: &str) -> (r: Vec<Vec<(String, String)>>)
    ensures
        r.len() == csv_header_records(text@).len(),
        forall|k: int| 0 <= k < r.len() ==> record_map(pair_views((#[trigger] r@[k])@)) == csv_header_records(text@)[k],
        forall|k: int, i: int, j: int| 0 <= k < r.len() && 0 <= i < j < r@[k].len() ==> (#[trigger] r@[k]@[i]).0@
            != (#[trigger] r@[k]@[j]).0@,
{
    let mut rdr = csv::Reader::from_reader(text.as_bytes());
    rdr.deserialize::<std::collections::HashMap<String, String>>().flatten().map(|m| m.into_iter().collect()).collect()
}

/// Records that `csv::Reader` reads back as written: at least one, all of one
/// width of two or more fields (so no line is left empty), the first field not
/// starting with a byte-order mark (which the reader would strip).
pub open spec fn reads_back_as_written(v: Seq<Seq<Seq<char>>>) -> bool {
    &&& v.len() > 0
    &&& v[0].len() >= 2
    &&& forall|k: int| 0 <= k < v.len() ==> (#[trigger] v[k]).len() == v[0].len()
    &&& !(v[0][0].len() > 0 && v[0][0][0] == '\u{feff}')
}

/// Calls `csv::Writer::write_record` on a writer over a byte buffer for each
/// record in turn, and hands the buffer back as text. Such text, read by
/// `csv::Reader`, gives each record after the first keyed by the first (the
/// writer quotes every field that holds a delimiter, a quote or a line break,
/// and the reader undoes that quoting).
#[verifier::external_body]
fn write_csv(records: &Vec<Vec<String>>) -> (r: String)
    ensures
        r@ == csv_text(record_views(records@)),
        reads_back_as_written(record_views(records@)) ==> csv_header_records(r@) == Seq::new(
            (records.len() - 1) as nat,
            |k: int| as_record(record_views(records@)[0], record_views(records@)[k + 1]),
        ),
{
    let mut wtr = csv::Writer::from_writer(Vec::new());
    for record in records.iter() {
        wtr.write_record(record).ok();
    }
    String::from_utf8(wtr.into_inner().unwrap_or_default()).unwrap_or_default()
}

/// Every row written for the groups is as wide as the tab's header.
proof fn lemma_rows_width(kind: int, gs: Seq<CsvGroup>)
    requires
        1 <= kind <= 4,
    ensures
        forall|k: int| 0 <= k < groups_rows(kind, gs).len() ==> (#[trigger] groups_rows(kind, gs)[k]).len() == header(kind).len(),
    decreases gs.len(),
{
    if gs.len() > 0 {
        lemma_rows_width(kind, gs.drop_last());
        let g = gs.last();
        match g.files {
            Some(fs) => lemma_file_rows_width(kind, text_or(g.id, Seq::empty()), text_or(g.category, Seq::empty()), fs@),
            None => {},
        }
        let a = groups_rows(kind, gs.drop_last());
        let b = group_rows(kind, g);
        assert forall|k: int| 0 <= k < groups_rows(kind, gs).len() implies (#[trigger] groups_rows(kind, gs)[k]).len()
            == header(kind).len() by {
            if k >= a.len() {
                assert(groups_rows(kind, gs)[k] == b[k - a.len()]);
            }
        }
    }
}

proof fn lemma_file_rows_width(kind: int, gid: Seq<char>, cat: Seq<char>, fs: Seq<CsvFile>)
    requires
        1 <= kind <= 4,
    ensures
        forall|k: int| 0 <= k < file_rows(kind, gid, cat, fs).len() ==> (#[trigger] file_rows(kind, gid, cat, fs)[k]).len()
            == header(kind).len(),
        file_rows(kind, gid, cat, fs).len() == fs.len(),
    decreases fs.len(),
{
    if fs.len() > 0 {
        lemma_file_rows_width(kind, gid, cat, fs.drop_last());
    }
}

/// The CSV text of a result tab: the records `csv_records` gives, as
/// `csv::Writer` writes them. Read back by `csv::Reader`, the text of a
/// written tab gives the rows after the header, each keyed by the header.
pub fn groups_to_csv(tab: &str, groups: &Vec<CsvGroup>) -> (r: String)
    ensures
        r@ == csv_text(tab_records(tab@, groups@)),
        tab_kind(tab@) != 0 ==> csv_header_records(r@) == as_records(tab_kind(tab@), groups_rows(tab_kind(tab@), groups@)),
{
    let records = csv_records(tab, groups);
    let r = write_csv(&records);
    proof {
        let kind = tab_kind(tab@);
        if kind != 0 {
            let v = record_views(records@);
            let rows = groups_rows(kind, groups@);
            lemma_names();
            reveal_strlit("group_id");
            reveal_strlit("category");
            lemma_rows_width(kind, groups@);
            assert(v == seq![header(kind)] + rows);
            assert forall|k: int| 0 <= k < v.len() implies (#[trigger] v[k]).len() == v[0].len() by {
                if k > 0 {
                    assert(v[k] == rows[k - 1]);
                }
            }
            assert(v[0][0][0] != '\u{feff}');
            assert(reads_back_as_written(v));
            assert(Seq::new((records.len() - 1) as nat, |k: int| as_record(v[0], v[k + 1])) =~= as_records(kind, rows));
        }
    }
    r
}

/// The groups of a saved tab's CSV text: what the records that `csv::Reader`
/// reads from it read back as (see `loaded_groups_of`). Every tab is read the
/// same way.
pub fn csv_to_groups(_tab: &str, text: &str) -> (r: Option<Vec<LoadedGroup>>)
    ensures
        loaded_groups_of(csv_header_records(text@), r),
{
    let records = read_header_records(text);
    proof {
        assert(records_view(records@) =~= csv_header_records(text@));
    }
    groups_from_records(&records)
}

/// A written row read back under a header: each header name with its value.
pub open spec fn as_pairs(head: Seq<Seq<char>>, row: Seq<Seq<char>>) -> Seq<(Seq<char>, Seq<char>)> {
    Seq::new(head.len(), |i: int| (head[i], row[i]))
}

/// A written row read back as a record under a header.
pub open spec fn as_record(head: Seq<Seq<char>>, row: Seq<Seq<char>>) -> Map<Seq<char>, Seq<char>> {
    record_map(as_pairs(head, row))
}

/// Written rows read back as records under the tab's header.
pub open spec fn as_records(kind: int, rows: Seq<Seq<Seq<char>>>) -> Seq<Map<Seq<char>, Seq<char>>> {
    rows.map_values(|r: Seq<Seq<char>>| as_record(header(kind), r))
}

/// What a file written to a tab of kind `kind` is read back as.
pub open spec fn read_back_file(kind: int, f: CsvFile) -> LoadedFileView {
    LoadedFileView {
        path: text_or(f.path, Seq::empty()),
        size: match f.size {
            Some(v) => v,
            None => 0,
        },
        keep: f.keep == Some(true),
        file_type: if kind == 3 { "file"@ } else { text_or(f.file_type, "file"@) },
        hash: if kind == 1 { Some(text_or(f.hash, Seq::empty())) } else { None },
        phash: if kind == 2 { Some(text_or(f.phash, Seq::empty())) } else { None },
        created: if kind == 1 { Some(text_or(f.created, Seq::empty())) } else { None },
        shared: if kind == 3 {
            Some(
                match f.shared {
                    Some(v) => v,
                    None => 0,
                },
            )
        } else {
            None
        },
        frame_count: if kind == 4 { Some(text_or(f.frame_count, Seq::empty())) } else { None },
    }
}

pub open spec fn read_back_files(kind: int, fs: Seq<CsvFile>) -> Seq<LoadedFileView> {
    fs.map_values(|f: CsvFile| read_back_file(kind, f))
}

/// The category that the rows of a group carry: the group's own on the image
/// and video tabs, none on the others.
pub open spec fn written_category(kind: int, g: CsvGroup) -> Seq<char> {
    if kind == 2 || kind == 4 {
        text_or(g.category, Seq::empty())
    } else {
        Seq::empty()
    }
}

proof fn lemma_digit_char(d: nat)
    requires
        d < 10,
    ensures
        '0' <= digit_char(d) <= '9',
        digit_char(d) as nat - 48 == d,
        digit_char(d) != '+',
{
    assert(((48 + d) as u8) as nat == 48 + d);
}

pub proof fn lemma_decimal_digits(n: nat)
    ensures
        decimal(n).len() > 0,
        all_digits(decimal(n)),
        digits_value(decimal(n)) == n,
        decimal(n)[0] != '+',
    decreases n,
{
    if n < 10 {
        lemma_digit_char(n);
        assert(decimal(n).drop_last() =~= Seq::<char>::empty());
        assert(digits_value(Seq::<char>::empty()) == 0);
    } else {
        lemma_decimal_digits(n / 10);
        lemma_digit_char(n % 10);
        let d = decimal(n);
        assert(d.drop_last() =~= decimal(n / 10));
        assert(d[0] == decimal(n / 10)[0]);
        assert forall|i: int| 0 <= i < d.len() implies '0' <= #[trigger] d[i] <= '9' by {
            if i < d.len() - 1 {
                assert(d[i] == decimal(n / 10)[i]);
            }
        }
    }
}

/// A number written in decimal is read back as itself.
pub proof fn lemma_decimal_parses(n: u64)
    ensures
        parsed_u64(decimal(n as nat)) == Some(n),
{
    lemma_decimal_digits(n as nat);
}

proof fn lemma_field_at(rec: Seq<(Seq<char>, Seq<char>)>, key: Seq<char>, i: int)
    requires
        0 <= i < rec.len(),
        rec[i].0 == key,
        forall|j: int| i < j < rec.len() ==> (#[trigger] rec[j]).0 != key,
    ensures
        field(record_map(rec), key) == Some(rec[i].1),
    decreases rec.len(),
{
    assert(rec.last() == rec[rec.len() - 1]);
    if i < rec.len() - 1 {
        assert forall|j: int| i < j < rec.drop_last().len() implies (#[trigger] rec.drop_last()[j]).0 != key by {
            assert(rec.drop_last()[j] == rec[j]);
        }
        lemma_field_at(rec.drop_last(), key, i);
        assert(rec.drop_last()[i] == rec[i]);
    }
}

proof fn lemma_field_none(rec: Seq<(Seq<char>, Seq<char>)>, key: Seq<char>)
    requires
        forall|j: int| 0 <= j < rec.len() ==> (#[trigger] rec[j]).0 != key,
    ensures
        field(record_map(rec), key) is None,
    decreases rec.len(),
{
    if rec.len() > 0 {
        assert(rec.last() == rec[rec.len() - 1]);
        assert forall|j: int| 0 <= j < rec.drop_last().len() implies (#[trigger] rec.drop_last()[j]).0 != key by {
            assert(rec.drop_last()[j] == rec[j]);
        }
        lemma_field_none(rec.drop_last(), key);
    }
}

/// Under a header whose names differ, each name reads its own value and any
/// other name reads nothing.
proof fn lemma_fields(h: Seq<Seq<char>>, row: Seq<Seq<char>>)
    requires
        h.len() == row.len(),
        forall|i: int, j: int| 0 <= i < j < h.len() ==> h[i] != h[j],
    ensures
        forall|i: int| 0 <= i < h.len() ==> #[trigger] field(as_record(h, row), h[i]) == Some(row[i]),
        forall|n: Seq<char>| !h.contains(n) ==> #[trigger] field(as_record(h, row), n) is None,
{
    let p = as_pairs(h, row);
    assert forall|i: int| 0 <= i < h.len() implies #[trigger] field(as_record(h, row), h[i]) == Some(row[i]) by {
        assert forall|j: int| i < j < p.len() implies (#[trigger] p[j]).0 != h[i] by {
            assert(h[i] != h[j]);
        }
        lemma_field_at(p, h[i], i);
    }
    assert forall|n: Seq<char>| !h.contains(n) implies #[trigger] field(as_record(h, row), n) is None by {
        assert forall|j: int| 0 <= j < p.len() implies (#[trigger] p[j]).0 != n by {
            if p[j].0 == n {
                assert(h[j] == n);
            }
        }
        lemma_field_none(p, n);
    }
}

/// The names a record is read by, and those of every header, differ from each
/// other: by their length or by their first letter.
proof fn lemma_names()
    ensures
        forall|kind: int, i: int, j: int| 1 <= kind <= 4 && 0 <= i < j < header(kind).len()
            ==> #[trigger] header(kind)[i] != #[trigger] header(kind)[j],
        forall|kind: int| 1 <= kind <= 4 ==> (#[trigger] header(kind)).len() == (if kind == 3 { 5int } else { 7int }),
{
    reveal_strlit("group_id");
    reveal_strlit("path");
    reveal_strlit("size");
    reveal_strlit("type");
    reveal_strlit("hash");
    reveal_strlit("created");
    reveal_strlit("keep");
    reveal_strlit("size_bytes");
    reveal_strlit("phash");
    reveal_strlit("shared_files");
    reveal_strlit("category");
    reveal_strlit("frame_count");
    assert forall|kind: int, i: int, j: int| 1 <= kind <= 4 && 0 <= i < j < header(kind).len()
        implies #[trigger] header(kind)[i] != #[trigger] header(kind)[j] by {
        let h = header(kind);
        assert(h[i][0] != h[j][0] || h[i].len() != h[j].len());
    }
}

/// `n` is none of the header's names.
proof fn lemma_not_in_header(kind: int, n: Seq<char>)
    requires
        1 <= kind <= 4,
        n.len() > 0,
        forall|i: int| 0 <= i < header(kind).len() ==> (#[trigger] header(kind)[i]).len() != n.len()
            || header(kind)[i][0] != n[0],
    ensures
        !header(kind).contains(n),
{
    if header(kind).contains(n) {
        let i = choose|i: int| 0 <= i < header(kind).len() && header(kind)[i] == n;
        assert(header(kind)[i].len() != n.len() || header(kind)[i][0] != n[0]);
    }
}

/// The keep marks written read back as written: `YES` as keep, `NO` as not.
proof fn lemma_keep_text(k: Option<bool>)
    ensures
        keep_of(keep_text(k)) == (k == Some(true)),
{
    reveal_strlit("YES");
    reveal_strlit("NO");
    let t = keep_text(k);
    assert(all_ascii(t));
    assert(ascii_upper(t) =~= t);
    if k != Some(true) {
        assert(t == "NO"@);
    } else {
        assert(t.len() != "NO"@.len());
    }
}

/// A file's row, read back under its tab's header, gives its group id, the
/// file as `read_back_file` says, and the category the tab writes; a blank row
/// has no group id.
proof fn lemma_tab_record(kind: int, gid: Seq<char>, cat: Seq<char>, f: CsvFile)
    requires
        1 <= kind <= 4,
    ensures
        record_gid(as_record(header(kind), file_row(kind, gid, cat, f))) == gid,
        record_file(as_record(header(kind), file_row(kind, gid, cat, f))) == read_back_file(kind, f),
        field(as_record(header(kind), file_row(kind, gid, cat, f)), "category"@)
            == (if kind == 2 || kind == 4 { Some(cat) } else { None::<Seq<char>> }),
        record_gid(as_record(header(kind), blank_row(kind))) == Seq::<char>::empty(),
{
    reveal_strlit("group_id");
    reveal_strlit("path");
    reveal_strlit("size");
    reveal_strlit("type");
    reveal_strlit("hash");
    reveal_strlit("created");
    reveal_strlit("keep");
    reveal_strlit("size_bytes");
    reveal_strlit("phash");
    reveal_strlit("shared_files");
    reveal_strlit("category");
    reveal_strlit("frame_count");
    lemma_names();
    let h = header(kind);
    let row = file_row(kind, gid, cat, f);
    let brow = blank_row(kind);
    lemma_fields(h, row);
    lemma_fields(h, brow);
    let r = as_record(h, row);
    let b = as_record(h, brow);
    match f.size {
        Some(v) => lemma_decimal_parses(v),
        None => lemma_decimal_parses(0),
    }
    match f.shared {
        Some(v) => lemma_decimal_parses(v),
        None => lemma_decimal_parses(0),
    }
    if kind == 1 {
        assert(field(r, h[0]) == Some(row[0]) && field(b, h[0]) == Some(brow[0]));
        assert(field(r, h[1]) == Some(row[1]));
        assert(field(r, h[2]) == Some(row[2]));
        assert(field(r, h[3]) == Some(row[3]));
        assert(field(r, h[4]) == Some(row[4]));
        assert(field(r, h[5]) == Some(row[5]));
        assert(field(r, h[6]) == Some(row[6]));
        lemma_not_in_header(kind, "size_bytes"@);
        lemma_not_in_header(kind, "phash"@);
        lemma_not_in_header(kind, "shared_files"@);
        lemma_not_in_header(kind, "category"@);
        lemma_not_in_header(kind, "frame_count"@);
        assert(field(r, "size_bytes"@) is None);
        assert(field(r, "phash"@) is None);
        assert(field(r, "shared_files"@) is None);
        assert(field(r, "category"@) is None);
        assert(field(r, "frame_count"@) is None);
    } else if kind == 2 {
        assert(field(r, h[0]) == Some(row[0]));
        assert(field(r, h[1]) == Some(row[1]) && field(b, h[1]) == Some(brow[1]));
        assert(field(r, h[2]) == Some(row[2]));
        assert(field(r, h[3]) == Some(row[3]));
        assert(field(r, h[4]) == Some(row[4]));
        assert(field(r, h[5]) == Some(row[5]));
        assert(field(r, h[6]) == Some(row[6]));
        lemma_not_in_header(kind, "size"@);
        lemma_not_in_header(kind, "hash"@);
        lemma_not_in_header(kind, "created"@);
        lemma_not_in_header(kind, "shared_files"@);
        lemma_not_in_header(kind, "frame_count"@);
        assert(field(r, "size"@) is None);
        assert(field(r, "hash"@) is None);
        assert(field(r, "created"@) is None);
        assert(field(r, "shared_files"@) is None);
        assert(field(r, "frame_count"@) is None);
    } else if kind == 3 {
        assert(field(r, h[0]) == Some(row[0]) && field(b, h[0]) == Some(brow[0]));
        assert(field(r, h[1]) == Some(row[1]));
        assert(field(r, h[2]) == Some(row[2]));
        assert(field(r, h[3]) == Some(row[3]));
        assert(field(r, h[4]) == Some(row[4]));
        lemma_not_in_header(kind, "size_bytes"@);
        lemma_not_in_header(kind, "type"@);
        lemma_not_in_header(kind, "hash"@);
        lemma_not_in_header(kind, "phash"@);
        lemma_not_in_header(kind, "created"@);
        lemma_not_in_header(kind, "category"@);
        lemma_not_in_header(kind, "frame_count"@);
        assert(field(r, "size_bytes"@) is None);
        assert(field(r, "type"@) is None);
        assert(field(r, "hash"@) is None);
        assert(field(r, "phash"@) is None);
        assert(field(r, "created"@) is None);
        assert(field(r, "category"@) is None);
        assert(field(r, "frame_count"@) is None);
    } else {
        assert(field(r, h[0]) == Some(row[0]));
        assert(field(r, h[1]) == Some(row[1]) && field(b, h[1]) == Some(brow[1]));
        assert(field(r, h[2]) == Some(row[2]));
        assert(field(r, h[3]) == Some(row[3]));
        assert(field(r, h[4]) == Some(row[4]));
        assert(field(r, h[5]) == Some(row[5]));
        assert(field(r, h[6]) == Some(row[6]));
        lemma_not_in_header(kind, "size_bytes"@);
        lemma_not_in_header(kind, "hash"@);
        lemma_not_in_header(kind, "phash"@);
        lemma_not_in_header(kind, "created"@);
        lemma_not_in_header(kind, "shared_files"@);
        assert(field(r, "size_bytes"@) is None);
        assert(field(r, "hash"@) is None);
        assert(field(r, "phash"@) is None);
        assert(field(r, "created"@) is None);
        assert(field(r, "shared_files"@) is None);
    }
    lemma_keep_text(f.keep);
    assert(record_file(r) == read_back_file(kind, f));
}

/// The category a group is read back with, from a record of it.
pub open spec fn record_category(r: Map<Seq<char>, Seq<char>>) -> Seq<char> {
    match field(r, "category"@) {
        Some(c) => c,
        None => Seq::empty(),
    }
}

/// Appending a record: the group order, the groups' files and their categories
/// change as the record's group id says.
proof fn lemma_push_record(recs: Seq<Map<Seq<char>, Seq<char>>>, r: Map<Seq<char>, Seq<char>>)
    ensures
        group_order(recs.push(r)) == (if record_gid(r).len() == 0 || group_order(recs).contains(record_gid(r)) {
            group_order(recs)
        } else {
            group_order(recs).push(record_gid(r))
        }),
        forall|h: Seq<char>| #[trigger] group_files(recs.push(r), h) == (if record_gid(r) == h {
            group_files(recs, h).push(record_file(r))
        } else {
            group_files(recs, h)
        }),
        forall|h: Seq<char>| #[trigger] group_category(recs.push(r), h) == (if group_order(recs).contains(h) {
            group_category(recs, h)
        } else if record_gid(r) == h {
            record_category(r)
        } else {
            Seq::empty()
        }),
        forall|h: Seq<char>| group_order(recs).contains(h) ==> #[trigger] group_order(recs.push(r)).contains(h),
        record_gid(r).len() > 0 ==> group_order(recs.push(r)).contains(record_gid(r)),
{
    assert(recs.push(r).drop_last() =~= recs);
    let o = group_order(recs);
    assert forall|h: Seq<char>| o.contains(h) implies #[trigger] group_order(recs.push(r)).contains(h) by {
        let k = choose|k: int| 0 <= k < o.len() && o[k] == h;
        assert(group_order(recs.push(r))[k] == h);
    }
    if record_gid(r).len() > 0 && !o.contains(record_gid(r)) {
        assert(group_order(recs.push(r))[o.len() as int] == record_gid(r));
    }
}

/// The rows of a group's files, read back after earlier records: the group's
/// id joins the order (if new), its files are read back in order, and other
/// ids keep their files and categories.
proof fn lemma_file_rows_read_back(
    prev: Seq<Map<Seq<char>, Seq<char>>>,
    kind: int,
    id: Seq<char>,
    cat: Seq<char>,
    fs: Seq<CsvFile>,
)
    requires
        1 <= kind <= 4,
        id.len() > 0,
        fs.len() > 0,
    ensures
        ({
            let recs = prev + as_records(kind, file_rows(kind, id, cat, fs));
            &&& group_order(recs) == (if group_order(prev).contains(id) { group_order(prev) } else { group_order(prev).push(id) })
            &&& group_order(recs).contains(id)
            &&& group_files(recs, id) == group_files(prev, id) + read_back_files(kind, fs)
            &&& forall|h: Seq<char>| h != id ==> #[trigger] group_files(recs, h) == group_files(prev, h)
            &&& forall|h: Seq<char>| group_order(prev).contains(h) ==> #[trigger] group_category(recs, h) == group_category(prev, h)
            &&& !group_order(prev).contains(id) ==> group_category(recs, id)
                == (if kind == 2 || kind == 4 { cat } else { Seq::<char>::empty() })
        }),
    decreases fs.len(),
{
    let last = fs.last();
    lemma_tab_record(kind, id, cat, last);
    let r = as_record(header(kind), file_row(kind, id, cat, last));
    let d = fs.drop_last();
    if d.len() == 0 {
        assert(file_rows(kind, id, cat, d) =~= Seq::<Seq<Seq<char>>>::empty());
        assert(as_records(kind, file_rows(kind, id, cat, fs)) =~= seq![r]);
        assert(prev + seq![r] =~= prev.push(r));
        lemma_push_record(prev, r);
        assert(read_back_files(kind, fs) =~= seq![read_back_file(kind, last)]);
        assert(group_files(prev, id) + read_back_files(kind, fs) =~= group_files(prev, id).push(read_back_file(kind, last)));
    } else {
        lemma_file_rows_read_back(prev, kind, id, cat, d);
        let mid = prev + as_records(kind, file_rows(kind, id, cat, d));
        assert(as_records(kind, file_rows(kind, id, cat, fs)) =~= as_records(kind, file_rows(kind, id, cat, d)).push(r));
        assert(prev + as_records(kind, file_rows(kind, id, cat, fs)) =~= mid.push(r));
        lemma_push_record(mid, r);
        assert(read_back_files(kind, fs) =~= read_back_files(kind, d).push(read_back_file(kind, last)));
        assert(group_files(prev, id) + read_back_files(kind, fs) =~= (group_files(prev, id) + read_back_files(kind, d)).push(
            read_back_file(kind, last)));
        assert forall|h: Seq<char>| group_order(prev).contains(h) implies #[trigger] group_category(mid.push(r), h)
            == group_category(prev, h) by {
            let k = choose|k: int| 0 <= k < group_order(prev).len() && group_order(prev)[k] == h;
            assert(group_order(mid)[k] == h);
        }
    }
}

/// The rows of one group, read back after earlier records: as its file rows,
/// the blank row after them changing nothing.
proof fn lemma_group_rows_read_back(prev: Seq<Map<Seq<char>, Seq<char>>>, kind: int, g: CsvGroup, fs: Seq<CsvFile>)
    requires
        1 <= kind <= 4,
        g.id matches Some(id) && id@.len() > 0,
        g.files matches Some(v) && v@ == fs,
        fs.len() > 0,
    ensures
        ({
            let id = text_or(g.id, Seq::empty());
            let recs = prev + as_records(kind, group_rows(kind, g));
            &&& group_order(recs) == (if group_order(prev).contains(id) { group_order(prev) } else { group_order(prev).push(id) })
            &&& group_files(recs, id) == group_files(prev, id) + read_back_files(kind, fs)
            &&& forall|h: Seq<char>| h != id && h.len() > 0 ==> #[trigger] group_files(recs, h) == group_files(prev, h)
            &&& forall|h: Seq<char>| group_order(prev).contains(h) ==> #[trigger] group_category(recs, h) == group_category(prev, h)
            &&& !group_order(prev).contains(id) ==> group_category(recs, id) == written_category(kind, g)
        }),
{
    let id = text_or(g.id, Seq::empty());
    let cat = text_or(g.category, Seq::empty());
    lemma_file_rows_read_back(prev, kind, id, cat, fs);
    let fr = as_records(kind, file_rows(kind, id, cat, fs));
    let mid = prev + fr;
    let blank = as_record(header(kind), blank_row(kind));
    lemma_tab_record(kind, id, cat, fs[0]);
    lemma_push_record(mid, blank);
    assert(as_records(kind, group_rows(kind, g)) =~= fr.push(blank));
    assert(prev + as_records(kind, group_rows(kind, g)) =~= mid.push(blank));
    assert forall|h: Seq<char>| h != id && h.len() > 0 implies #[trigger] group_files(mid.push(blank), h) == group_files(prev, h) by {
        assert(record_gid(blank) != h);
    }
    assert forall|h: Seq<char>| group_order(prev).contains(h) implies #[trigger] group_category(mid.push(blank), h)
        == group_category(prev, h) by {
        let k = choose|k: int| 0 <= k < group_order(prev).len() && group_order(prev)[k] == h;
        assert(group_order(mid)[k] == h);
    }
}

/// The groups written to a tab: each with an id, no id twice, and files.
pub open spec fn well_identified(gs: Seq<CsvGroup>) -> bool {
    &&& forall|k: int| 0 <= k < gs.len() ==> ((#[trigger] gs[k]).id matches Some(id) && id@.len() > 0)
    &&& forall|k: int| 0 <= k < gs.len() ==> ((#[trigger] gs[k]).files matches Some(v) && v@.len() > 0)
    &&& forall|k1: int, k2: int| 0 <= k1 < k2 < gs.len() ==> text_or((#[trigger] gs[k1]).id, Seq::empty())
        != text_or((#[trigger] gs[k2]).id, Seq::empty())
}

pub open spec fn group_ids(gs: Seq<CsvGroup>) -> Seq<Seq<char>> {
    gs.map_values(|g: CsvGroup| text_or(g.id, Seq::empty()))
}

pub open spec fn group_file_list(g: CsvGroup) -> Seq<CsvFile> {
    match g.files {
        Some(v) => v@,
        None => Seq::empty(),
    }
}

/// Reading back, under the tab's header, the rows written for the groups of a
/// tab gives back its groups: the groups in order, each with its files in
/// order (their paths, sizes, types, and the hashes, creation times, perceptual
/// hashes, shared-member counts or frame counts that the tab writes) and, on the
/// image and video tabs, its category; each keep mark as written.
pub proof fn law_tab_reads_back(tab: Seq<char>, gs: Seq<CsvGroup>)
    requires
        tab_kind(tab) != 0,
        well_identified(gs),
    ensures
        group_order(as_records(tab_kind(tab), groups_rows(tab_kind(tab), gs))) == group_ids(gs),
        forall|k: int| 0 <= k < gs.len() ==> group_files(as_records(tab_kind(tab), groups_rows(tab_kind(tab), gs)),
            #[trigger] group_ids(gs)[k]) == read_back_files(tab_kind(tab), group_file_list(gs[k])),
        forall|k: int| 0 <= k < gs.len() ==> group_category(as_records(tab_kind(tab), groups_rows(tab_kind(tab), gs)),
            #[trigger] group_ids(gs)[k]) == written_category(tab_kind(tab), gs[k]),
    decreases gs.len(),
{
    let kind = tab_kind(tab);
    let recs = as_records(kind, groups_rows(kind, gs));
    if gs.len() == 0 {
        assert(recs =~= Seq::<Map<Seq<char>, Seq<char>>>::empty());
        assert(group_ids(gs) =~= Seq::<Seq<char>>::empty());
    } else {
        let d = gs.drop_last();
        let g = gs.last();
        assert(well_identified(d)) by {
            assert forall|k: int| 0 <= k < d.len() implies ((#[trigger] d[k]).id matches Some(id) && id@.len() > 0) by {
                assert(d[k] == gs[k]);
            }
            assert forall|k: int| 0 <= k < d.len() implies ((#[trigger] d[k]).files matches Some(v) && v@.len() > 0) by {
                assert(d[k] == gs[k]);
            }
            assert forall|k1: int, k2: int| 0 <= k1 < k2 < d.len() implies text_or((#[trigger] d[k1]).id, Seq::empty())
                != text_or((#[trigger] d[k2]).id, Seq::empty()) by {
                assert(d[k1] == gs[k1] && d[k2] == gs[k2]);
            }
        }
        law_tab_reads_back(tab, d);
        let prev = as_records(kind, groups_rows(kind, d));
        assert(gs[gs.len() - 1] == g);
        let fs = group_file_list(g);
        lemma_group_rows_read_back(prev, kind, g, fs);
        assert(groups_rows(kind, gs) == groups_rows(kind, d) + group_rows(kind, g));
        assert(recs =~= prev + as_records(kind, group_rows(kind, g)));
        let id = text_or(g.id, Seq::empty());
        assert(!group_order(prev).contains(id)) by {
            if group_order(prev).contains(id) {
                let k = choose|k: int| 0 <= k < group_order(prev).len() && group_order(prev)[k] == id;
                assert(group_ids(d)[k] == text_or(d[k].id, Seq::empty()));
                assert(d[k] == gs[k]);
            }
        }
        assert(group_ids(gs) =~= group_ids(d).push(id));
        assert forall|k: int| 0 <= k < gs.len() implies group_files(recs, #[trigger] group_ids(gs)[k])
            == read_back_files(kind, group_file_list(gs[k])) && group_category(recs, group_ids(gs)[k])
            == written_category(kind, gs[k]) by {
            if k < d.len() {
                assert(group_ids(gs)[k] == group_ids(d)[k]);
                assert(d[k] == gs[k]);
                assert(group_ids(d)[k] != id);
                assert(group_ids(d)[k].len() > 0);
                assert(group_order(prev)[k] == group_ids(d)[k]);
                assert(group_order(prev).contains(group_ids(d)[k]));
            } else {
                lemma_files_of_unlisted(prev, id);
                assert(group_files(prev, id) =~= Seq::<LoadedFileView>::empty());
                assert(Seq::<LoadedFileView>::empty() + read_back_files(kind, fs) =~= read_back_files(kind, fs));
            }
        }
    }
}

/// A saved tab loads back as it was saved: where `r` is what `csv_to_groups`
/// gives for the text that `groups_to_csv` gave for the groups `gs` of a
/// written tab (their contracts give this function's last requirement), `r`
/// holds the groups in order with their ids, their files read back as
/// `read_back_file` says, the category the tab writes, and the sizes of the
/// files after the first as the saving; it is `None` only where such a saving
/// does not fit in 64 bits.
pub proof fn law_saved_tab_loads_back(tab: Seq<char>, gs: Seq<CsvGroup>, r: Option<Vec<LoadedGroup>>)
    requires
        tab_kind(tab) != 0,
        well_identified(gs),
        loaded_groups_of(as_records(tab_kind(tab), groups_rows(tab_kind(tab), gs)), r),
    ensures
        match r {
            None => exists|k: int| 0 <= k < gs.len()
                && rest_size(read_back_files(tab_kind(tab), group_file_list(#[trigger] gs[k]))) > u64::MAX,
            Some(v) => v.len() == gs.len() && forall|k: int| 0 <= k < gs.len() ==> {
                &&& (#[trigger] v@[k]).id@ == group_ids(gs)[k]
                &&& file_views(v@[k].files@) == read_back_files(tab_kind(tab), group_file_list(gs[k]))
                &&& v@[k].category@ == written_category(tab_kind(tab), gs[k])
                &&& v@[k].savable == rest_size(read_back_files(tab_kind(tab), group_file_list(gs[k])))
            },
        },
{
    let kind = tab_kind(tab);
    let recs = as_records(kind, groups_rows(kind, gs));
    law_tab_reads_back(tab, gs);
    assert(group_order(recs).len() == gs.len());
    match r {
        None => {
            let k = choose|k: int| 0 <= k < group_order(recs).len()
                && rest_size(group_files(recs, #[trigger] group_order(recs)[k])) > u64::MAX;
            assert(group_order(recs)[k] == group_ids(gs)[k]);
        },
        Some(v) => {
            assert forall|k: int| 0 <= k < gs.len() implies {
                &&& (#[trigger] v@[k]).id@ == group_ids(gs)[k]
                &&& file_views(v@[k].files@) == read_back_files(kind, group_file_list(gs[k]))
                &&& v@[k].category@ == written_category(kind, gs[k])
                &&& v@[k].savable == rest_size(read_back_files(kind, group_file_list(gs[k])))
            } by {
                assert(group_order(recs)[k] == group_ids(gs)[k]);
            }
        },
    }
}

/// Every written tab starts with its header row, as saved sessions name their
/// columns: duplicates `group_id, path, size, type, hash, created, keep`;
/// images `category, group_id, path, size_bytes, type, phash, keep`; archives
/// `group_id, path, size, shared_files, keep`; videos `category, group_id,
/// path, size, type, frame_count, keep`; any other tab writes nothing.
pub proof fn law_tab_headers(gs: Seq<CsvGroup>)
    ensures
        tab_records("regular"@, gs)[0] == seq!["group_id"@, "path"@, "size"@, "type"@, "hash"@, "created"@, "keep"@],
        tab_records("image"@, gs)[0] == seq!["category"@, "group_id"@, "path"@, "size_bytes"@, "type"@, "phash"@,
            "keep"@],
        tab_records("archive"@, gs)[0] == seq!["group_id"@, "path"@, "size"@, "shared_files"@, "keep"@],
        tab_records("video"@, gs)[0] == seq!["category"@, "group_id"@, "path"@, "size"@, "type"@, "frame_count"@,
            "keep"@],
        tab_records("other"@, gs).len() == 0,
{
    reveal_strlit("regular");
    reveal_strlit("image");
    reveal_strlit("archive");
    reveal_strlit("video");
    reveal_strlit("other");
    assert(tab_kind("regular"@) == 1);
    assert("image"@.len() != "regular"@.len());
    assert("archive"@[0] != "regular"@[0] && "archive"@.len() != "image"@.len());
    assert("video"@.len() != "regular"@.len() && "video"@[0] != "image"@[0] && "video"@.len() != "archive"@.len());
    assert("other"@.len() != "regular"@.len() && "other"@[0] != "image"@[0] && "other"@.len() != "archive"@.len()
        && "other"@[0] != "video"@[0]);
    assert(tab_kind("image"@) == 2);
    assert(tab_kind("archive"@) == 3);
    assert(tab_kind("video"@) == 4);
    assert(tab_kind("other"@) == 0);
}

} // verus!
