//! The server's request and answer bodies, and the small decisions taken on
//! them: which path to reveal, which paths to delete, which videos to remux.
use vstd::prelude::*;
use crate::text::{chars_of, ascii_lower};
use crate::paths::{extension, is_member_path, real_path, is_archive_member, real_path_of};
use crate::similarity::{hex16, hash_hex};

verus! {

/// Loading a saved session from a file.
#[derive(Debug, Clone)]
pub struct LoadCsvRequest {
    pub path: String,
}

/// Deleting files.
#[derive(Debug, Clone)]
pub struct DeleteRequest {
    pub paths: Vec<String>,
}

/// Showing a file in the system's file manager.
#[derive(Debug, Clone)]
pub struct OpenFinderRequest {
    pub path: Option<String>,
}

/// Serving a file.
#[derive(Debug, Clone)]
pub struct FileQuery {
    pub path: String,
}

/// The answer to a scan request.
#[derive(Debug, Clone)]
pub struct ScanStartResponse {
    pub status: String,
}

/// Choosing a cache file: `"open"` or `"save"`.
#[derive(Debug, Clone)]
pub struct PickCacheFileRequest {
    pub mode: String,
}

impl ScanStartResponse {
    /// The answer to a scan that started.
    pub fn started() -> (r: ScanStartResponse)
        ensures
            r.status@ == "started"@,
    {
        ScanStartResponse { status: "started".to_string() }
    }
}

impl PickCacheFileRequest {
    /// Whether the file is chosen for saving.
    pub fn is_save(&self) -> (r: bool)
        ensures
            r == (self.mode@ == "save"@),
    {
        self.mode == "save".to_string()
    }
}

/// The file to reveal for a request: the file an archive member lies in, or
/// the path itself; `None` where no path (or an empty one) was given.
pub open spec fn finder_target_spec(path: Option<Seq<char>>) -> Option<Seq<char>> {
    match path {
        Some(p) => if p.len() == 0 { None } else { Some(real_path(p)) },
        None => None,
    }
}

impl OpenFinderRequest {
    /// The file to reveal, or `None` when the request names none.
    pub fn target(&self) -> (r: Option<String>)
        ensures
            match r {
                Some(s) => finder_target_spec(match self.path {
                    Some(p) => Some(p@),
                    None => None,
                }) == Some(s@),
                None => finder_target_spec(match self.path {
                    Some(p) => Some(p@),
                    None => None,
                }) is None,
            },
    {
        match &self.path {
            Some(p) => if chars_of(p.as_str()).len() == 0 {
                None
            } else {
                Some(real_path_of(p.as_str()))
            },
            None => None,
        }
    }
}

pub open spec fn texts(v: Seq<String>) -> Seq<Seq<char>> {
    v.map_values(|s: String| s@)
}

/// The paths of a request that can be deleted: those not inside an archive.
pub open spec fn deletable_paths(ps: Seq<Seq<char>>) -> Seq<Seq<char>>
    decreases ps.len(),
{
    if ps.len() == 0 {
        Seq::empty()
    } else if is_member_path(ps.last()) {
        deletable_paths(ps.drop_last())
    } else {
        deletable_paths(ps.drop_last()).push(ps.last())
    }
}

impl DeleteRequest {
    /// The paths to delete, in order; members of archives are passed over.
    pub fn targets(&self) -> (r: Vec<String>)
        ensures
            texts(r@) == deletable_paths(texts(self.paths@)),
    {
        let ghost all = texts(self.paths@);
        let mut out: Vec<String> = Vec::new();
        let mut i: usize = 0;
        while i < self.paths.len()
            invariant
                i <= self.paths.len(),
                all == texts(self.paths@),
                texts(out@) == deletable_paths(all.take(i as int)),
            decreases self.paths.len() - i,
        {
            let p = &self.paths[i];
            proof {
                let t = all.take(i + 1);
                assert(t.drop_last() =~= all.take(i as int));
                assert(t.last() == p@);
            }
            if !is_archive_member(p.as_str()) {
                let ghost o0 = out@;
                out.push(p.clone());
                assert(texts(out@) =~= texts(o0).push(p@));
            }
            i = i + 1;
        }
        assert(all.take(self.paths.len() as int) =~= all);
        out
    }
}


fn ascii_lowercase(s: &Vec<char>) -> (r: Vec<char>)
    ensures
        r@ == ascii_lower(s@),
{
    let mut r: Vec<char> = Vec::new();
    let mut i: usize = 0;
    while i < s.len()
        invariant
            i <= s.len(),
            r@ == ascii_lower(s@.take(i as int)),
        decreases s.len() - i,
    {
        let c = s[i];
        let l = if 'A' <= c && c <= 'Z' {
            lower_letter(c)
        } else {
            c
        };
        r.push(l);
        assert(ascii_lower(s@.take(i + 1)) =~= ascii_lower(s@.take(i as int)).push(l));
        i = i + 1;
    }
    assert(s@.take(s.len() as int) =~= s@);
    r
}

fn lower_letter(c: char) -> (r: char)
    requires
        'A' <= c <= 'Z',
    ensures
        r == ((c as u32) + 32) as char,
{
    let v: u32 = c as u32 + 32;
    let l: u8 = v as u8;
    assert(l as u32 == v);
    l as char
}

/// The video extensions a browser may not play directly.
pub open spec fn remux_extensions() -> Seq<Seq<char>> {
    seq!["mp4"@, "mkv"@, "avi"@, "mov"@, "wmv"@, "flv"@, "ts"@, "m2ts"@, "mpeg"@, "mpg"@]
}

/// Whether `path` is a video by its extension, lowered in ASCII.
pub fn is_video_ext(path: &str) -> (r: bool)
    ensures
        r == match extension(path@) {
            Some(e) => remux_extensions().contains(ascii_lower(e)),
            None => false,
        },
{
    let p = chars_of(path);
    match crate::paths::extension_bounds(&p) {
        Some((b, e)) => {
            let mut ext: Vec<char> = Vec::new();
            let mut i = b;
            while i < e
                invariant
                    b <= i <= e <= p.len(),
                    ext@ == p@.subrange(b as int, i as int),
                decreases e - i,
            {
                ext.push(p[i]);
                assert(p@.subrange(b as int, i as int).push(p@[i as int]) =~= p@.subrange(b as int, i + 1));
                i = i + 1;
            }
            let lower = ascii_lowercase(&ext);
            let list: Vec<&str> = vec!["mp4", "mkv", "avi", "mov", "wmv", "flv", "ts", "m2ts", "mpeg", "mpg"];
            assert(crate::text::str_views(list@) =~= remux_extensions());
            crate::text::list_contains(&list, &lower)
        },
        None => false,
    }
}

/// A path counts as a video for playback exactly when it has an extension
/// that, with its ASCII letters lowered, is one of mp4, mkv, avi, mov, wmv, flv,
/// ts, m2ts, mpeg, mpg.
pub proof fn law_video_ext_list(p: Seq<char>)
    ensures
        (match extension(p) {
            Some(e) => remux_extensions().contains(ascii_lower(e)),
            None => false,
        }) <==> (extension(p) matches Some(e) && seq!["mp4"@, "mkv"@, "avi"@, "mov"@, "wmv"@, "flv"@, "ts"@, "m2ts"@,
            "mpeg"@, "mpg"@].contains(ascii_lower(e))),
{
}

/// Whether `s` occurs in `t`.
pub open spec fn occurs_in(s: Seq<char>, t: Seq<char>) -> bool {
    exists|i: int| 0 <= i && i + s.len() <= t.len() && #[trigger] t.subrange(i, i + s.len()) == s
}

fn occurs(s: &Vec<char>, t: &Vec<char>) -> (r: bool)
    ensures
        r == occurs_in(s@, t@),
{
    if s.len() > t.len() {
        assert forall|i: int| 0 <= i && i + s@.len() <= t@.len() implies #[trigger] t@.subrange(i, i + s@.len()) != s@ by {}
        return false;
    }
    let mut i: usize = 0;
    while i <= t.len() - s.len()
        invariant
            s.len() <= t.len(),
            i <= t.len() - s.len() + 1,
            forall|k: int| 0 <= k < i ==> #[trigger] t@.subrange(k, k + s@.len()) != s@,
        decreases t.len() - i,
    {
        let mut j: usize = 0;
        let mut same = true;
        while j < s.len()
            invariant
                j <= s.len(),
                i + s.len() <= t.len(),
                same == forall|m: int| 0 <= m < j ==> t@[i + m] == s@[m],
            decreases s.len() - j,
        {
            if t[i + j] != s[j] {
                same = false;
            }
            j = j + 1;
        }
        if same {
            assert(t@.subrange(i as int, i + s@.len()) =~= s@);
            return true;
        }
        proof {
            let m = choose|m: int| 0 <= m < s.len() && t@[i + m] != s@[m];
            assert(t@.subrange(i as int, i + s@.len())[m] != s@[m]);
        }
        i = i + 1;
    }
    false
}

/// Whether a container format (as the media prober names it) needs
/// remuxing before a browser can play it: MPEG-TS, MPEG program streams, ASF.
pub fn needs_remux_format(format: &str) -> (r: bool)
    ensures
        r == (occurs_in("mpegts"@, format@) || format@ == "mpeg"@ || occurs_in("asf"@, format@)),
{
    let f = chars_of(format);
    occurs(&chars_of("mpegts"), &f) || crate::text::chars_eq(&f, &chars_of("mpeg")) || occurs(&chars_of("asf"), &f)
}

/// The file name of a remuxed copy: the source's hash in 16 hex digits, `.mp4`.
pub fn remux_file_name(hash: u64) -> (r: String)
    ensures
        r@ == hex16(hash) + ".mp4"@,
{
    let mut r = hash_hex(hash);
    r.append(".mp4");
    r
}

} // verus!
