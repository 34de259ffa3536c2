//! Path-name arithmetic on `/`-separated paths: the last component
//! (`Path::file_name`) and the extension (`Path::extension`), computed on the
//! characters of the path.
use vstd::prelude::*;
use crate::text::{chars_of, string_of, to_lowercase, lower_text};

verus! {

/// The index just past the last character before `end` that is not a `/`.
pub open spec fn strip_slashes(p: Seq<char>, end: int) -> int
    decreases end,
{
    if end > 0 && p[end - 1] == '/' {
        strip_slashes(p, end - 1)
    } else {
        end
    }
}

/// The start of the segment (run of non-`/` characters) that ends at `end`.
pub open spec fn segment_start(p: Seq<char>, end: int) -> int
    decreases end,
{
    if end > 0 && p[end - 1] != '/' {
        segment_start(p, end - 1)
    } else {
        end
    }
}

pub proof fn lemma_strip_slashes(p: Seq<char>, end: int)
    requires
        0 <= end <= p.len(),
    ensures
        0 <= strip_slashes(p, end) <= end,
        strip_slashes(p, end) > 0 ==> p[strip_slashes(p, end) - 1] != '/',
    decreases end,
{
    if end > 0 && p[end - 1] == '/' {
        lemma_strip_slashes(p, end - 1);
    }
}

pub proof fn lemma_segment_start(p: Seq<char>, end: int)
    requires
        0 <= end <= p.len(),
    ensures
        0 <= segment_start(p, end) <= end,
        end > 0 && p[end - 1] != '/' ==> segment_start(p, end) < end,
        segment_start(p, end) > 0 ==> p[segment_start(p, end) - 1] == '/',
        forall|i: int| segment_start(p, end) <= i < end ==> p[i] != '/',
    decreases end,
{
    if end > 0 && p[end - 1] != '/' {
        lemma_segment_start(p, end - 1);
    }
}

/// The last normal component of the path in `p[0..end]`: trailing `/` and `.`
/// components are passed over, and a final `..` (or no component at all) gives `None`.
pub open spec fn file_name_upto(p: Seq<char>, end: int) -> Option<Seq<char>>
    decreases end,
    when 0 <= end <= p.len()
{
    let e = strip_slashes(p, end);
    if e <= 0 {
        None
    } else {
        let b = segment_start(p, e);
        let seg = p.subrange(b, e);
        if seg == seq!['.'] {
            proof {
                lemma_strip_slashes(p, end);
                lemma_segment_start(p, e);
            }
            file_name_upto(p, b)
        } else if seg == seq!['.', '.'] {
            None
        } else {
            Some(seg)
        }
    }
}

/// The file name of a path, as `Path::file_name` gives it.
pub open spec fn file_name(p: Seq<char>) -> Option<Seq<char>> {
    file_name_upto(p, p.len() as int)
}

/// The index of the last `.` in `s[0..end]`, or -1.
pub open spec fn last_dot(s: Seq<char>, end: int) -> int
    decreases end,
{
    if end <= 0 {
        -1
    } else if s[end - 1] == '.' {
        end - 1
    } else {
        last_dot(s, end - 1)
    }
}

pub proof fn lemma_last_dot(s: Seq<char>, end: int)
    requires
        0 <= end <= s.len(),
    ensures
        -1 <= last_dot(s, end) < end,
        last_dot(s, end) >= 0 ==> s[last_dot(s, end)] == '.',
        forall|i: int| last_dot(s, end) < i < end ==> s[i] != '.',
    decreases end,
{
    if end > 0 && s[end - 1] != '.' {
        lemma_last_dot(s, end - 1);
    }
}

/// The extension of a file name: the text after its last `.`, unless there is
/// no `.` or the only text before the last `.` is empty.
pub open spec fn name_extension(name: Seq<char>) -> Option<Seq<char>> {
    let d = last_dot(name, name.len() as int);
    if d <= 0 {
        None
    } else {
        Some(name.subrange(d + 1, name.len() as int))
    }
}

/// A file name has an extension exactly when a `.` follows its first
/// character somewhere; the extension is then the text after the last `.`, which
/// holds no `.`, and a non-empty stem comes before that `.`.
pub proof fn law_name_extension(name: Seq<char>)
    ensures
        name_extension(name) is Some <==> exists|i: int| 0 < i < name.len() && #[trigger] name[i] == '.',
        name_extension(name) matches Some(e) ==> (exists|stem: Seq<char>| stem.len() > 0
            && name == stem + seq!['.'] + e) && !e.contains('.'),
{
    lemma_last_dot(name, name.len() as int);
    let d = last_dot(name, name.len() as int);
    if exists|i: int| 0 < i < name.len() && #[trigger] name[i] == '.' {
        let i = choose|i: int| 0 < i < name.len() && #[trigger] name[i] == '.';
        assert(d >= i);
    }
    if d > 0 {
        let e = name.subrange(d + 1, name.len() as int);
        let stem = name.subrange(0, d);
        assert(name == stem + seq!['.'] + e) by {
            assert(name =~= stem + seq!['.'] + e);
        }
        if e.contains('.') {
            let k = choose|k: int| 0 <= k < e.len() && e[k] == '.';
            assert(name[d + 1 + k] == '.');
        }
    }
}

/// The extension of a path, as `Path::extension` gives it.
pub open spec fn extension(p: Seq<char>) -> Option<Seq<char>> {
    match file_name(p) {
        Some(n) => name_extension(n),
        None => None,
    }
}

/// The extension of a path, or the empty text where it has none.
pub open spec fn extension_or_empty(p: Seq<char>) -> Seq<char> {
    match extension(p) {
        Some(e) => e,
        None => Seq::empty(),
    }
}

/// The file name of a path, or the empty text where it has none.
pub open spec fn file_name_or_empty(p: Seq<char>) -> Seq<char> {
    match file_name(p) {
        Some(n) => n,
        None => Seq::empty(),
    }
}

fn strip_slashes_exec(p: &Vec<char>, end: usize) -> (r: usize)
    requires
        end <= p.len(),
    ensures
        r == strip_slashes(p@, end as int),
{
    let mut e = end;
    while e > 0 && p[e - 1] == '/'
        invariant
            e <= end <= p.len(),
            strip_slashes(p@, e as int) == strip_slashes(p@, end as int),
        decreases e,
    {
        e = e - 1;
    }
    e
}

fn segment_start_exec(p: &Vec<char>, end: usize) -> (r: usize)
    requires
        end <= p.len(),
    ensures
        r == segment_start(p@, end as int),
{
    let mut b = end;
    while b > 0 && p[b - 1] != '/'
        invariant
            b <= end <= p.len(),
            segment_start(p@, b as int) == segment_start(p@, end as int),
        decreases b,
    {
        b = b - 1;
    }
    b
}

fn is_dot_segment(p: &Vec<char>, b: usize, e: usize, n: usize) -> (r: bool)
    requires
        b <= e <= p.len(),
        n == 1 || n == 2,
    ensures
        r == (p@.subrange(b as int, e as int) == Seq::new(n as nat, |i: int| '.')),
{
    if e - b != n {
        assert(p@.subrange(b as int, e as int).len() != Seq::new(n as nat, |i: int| '.').len());
        return false;
    }
    let ok = p[b] == '.' && (n == 1 || p[b + 1] == '.');
    if ok {
        assert(p@.subrange(b as int, e as int) =~= Seq::new(n as nat, |i: int| '.'));
    } else {
        assert(p@.subrange(b as int, e as int)[0] == p@[b as int]);
        if n == 2 {
            assert(p@.subrange(b as int, e as int)[1] == p@[b + 1]);
        }
    }
    ok
}

/// The bounds of the file name of `p` within `p`.
pub fn file_name_bounds(p: &Vec<char>) -> (r: Option<(usize, usize)>)
    ensures
        match r {
            Some((b, e)) => b <= e <= p.len() && file_name(p@) == Some(p@.subrange(b as int, e as int)),
            None => file_name(p@) is None,
        },
{
    let mut end = p.len();
    loop
        invariant
            end <= p.len(),
            file_name_upto(p@, end as int) == file_name(p@),
        decreases end,
    {
        let e = strip_slashes_exec(p, end);
        proof {
            lemma_strip_slashes(p@, end as int);
        }
        if e == 0 {
            return None;
        }
        let b = segment_start_exec(p, e);
        proof {
            lemma_segment_start(p@, e as int);
        }
        assert(seq!['.'] =~= Seq::new(1, |i: int| '.'));
        assert(seq!['.', '.'] =~= Seq::new(2, |i: int| '.'));
        if is_dot_segment(p, b, e, 1) {
            end = b;
        } else if is_dot_segment(p, b, e, 2) {
            return None;
        } else {
            return Some((b, e));
        }
    }
}

fn last_dot_exec(s: &Vec<char>, from: usize, end: usize) -> (r: Option<usize>)
    requires
        from <= end <= s.len(),
    ensures
        match r {
            Some(d) => from <= d < end && last_dot(s@.subrange(from as int, end as int), (end - from) as int) == d - from,
            None => last_dot(s@.subrange(from as int, end as int), (end - from) as int) == -1,
        },
{
    let ghost n = s@.subrange(from as int, end as int);
    let mut k = end;
    while k > from && s[k - 1] != '.'
        invariant
            from <= k <= end <= s.len(),
            n == s@.subrange(from as int, end as int),
            last_dot(n, (k - from) as int) == last_dot(n, (end - from) as int),
        decreases k,
    {
        assert(n[k - 1 - from] == s@[k - 1]);
        k = k - 1;
    }
    if k == from {
        None
    } else {
        assert(n[k - 1 - from] == s@[k - 1]);
        Some(k - 1)
    }
}

/// The bounds of the extension of `p` within `p`.
pub fn extension_bounds(p: &Vec<char>) -> (r: Option<(usize, usize)>)
    ensures
        match r {
            Some((b, e)) => b <= e <= p.len() && extension(p@) == Some(p@.subrange(b as int, e as int)),
            None => extension(p@) is None,
        },
{
    match file_name_bounds(p) {
        None => None,
        Some((b, e)) => {
            let ghost name = p@.subrange(b as int, e as int);
            match last_dot_exec(p, b, e) {
                None => None,
                Some(d) => {
                    if d == b {
                        None
                    } else {
                        assert(name.subrange(d + 1 - b, name.len() as int) =~= p@.subrange(d + 1, e as int));
                        Some((d + 1, e))
                    }
                }
            }
        }
    }
}

fn slice_chars(p: &Vec<char>, b: usize, e: usize) -> (r: Vec<char>)
    requires
        b <= e <= p.len(),
    ensures
        r@ == p@.subrange(b as int, e as int),
{
    let mut r: Vec<char> = Vec::new();
    let mut i = b;
    while i < e
        invariant
            b <= i <= e <= p.len(),
            r@ == p@.subrange(b as int, i as int),
        decreases e - i,
    {
        r.push(p[i]);
        assert(p@.subrange(b as int, i as int).push(p@[i as int]) =~= p@.subrange(b as int, i + 1));
        i = i + 1;
    }
    r
}

/// The file name of `path`, as characters; empty where the path has none.
pub fn file_name_chars(path: &str) -> (r: Vec<char>)
    ensures
        r@ == file_name_or_empty(path@),
{
    let p = chars_of(path);
    match file_name_bounds(&p) {
        Some((b, e)) => slice_chars(&p, b, e),
        None => Vec::new(),
    }
}

/// The extension of `path`, as characters; empty where the path has none.
pub fn extension_chars(path: &str) -> (r: Vec<char>)
    ensures
        r@ == extension_or_empty(path@),
{
    let p = chars_of(path);
    match extension_bounds(&p) {
        Some((b, e)) => slice_chars(&p, b, e),
        None => Vec::new(),
    }
}

/// The extension of `path` lowercased, or `None` where it has none.
pub fn lowercase_extension(path: &str) -> (r: Option<String>)
    ensures
        match extension(path@) {
            Some(e) => r matches Some(s) && s@ == lower_text(e),
            None => r is None,
        },
{
    let p = chars_of(path);
    match extension_bounds(&p) {
        Some((b, e)) => {
            let ext = string_of(&slice_chars(&p, b, e));
            Some(to_lowercase(ext.as_str()))
        },
        None => None,
    }
}

/// Whether `path` names an entry inside an archive (`archive::member`):
/// it holds `::` somewhere.
pub open spec fn is_member_path(p: Seq<char>) -> bool {
    first_double_colon(p, 0) < p.len()
}

/// The part of `p` before the first `::`, or `p` itself.
pub open spec fn first_double_colon(p: Seq<char>, from: int) -> int
    decreases p.len() - from,
{
    if from + 1 >= p.len() || from < 0 {
        p.len() as int
    } else if p[from] == ':' && p[from + 1] == ':' {
        from
    } else {
        first_double_colon(p, from + 1)
    }
}

/// The real file of a path: everything before the first `::`.
pub open spec fn real_path(p: Seq<char>) -> Seq<char> {
    p.take(first_double_colon(p, 0))
}

proof fn lemma_first_double_colon(p: Seq<char>, from: int)
    requires
        0 <= from <= p.len(),
    ensures
        from <= first_double_colon(p, from) <= p.len(),
        first_double_colon(p, from) < p.len() ==> first_double_colon(p, from) + 1 < p.len()
            && p[first_double_colon(p, from)] == ':' && p[first_double_colon(p, from) + 1] == ':',
    decreases p.len() - from,
{
    if from + 1 >= p.len() {
    } else if p[from] == ':' && p[from + 1] == ':' {
    } else {
        lemma_first_double_colon(p, from + 1);
    }
}

/// The index of the first `::` in `p`, or `p.len()`.
pub fn double_colon_index(p: &Vec<char>) -> (r: usize)
    ensures
        r == first_double_colon(p@, 0),
        r <= p.len(),
        r < p.len() <==> is_member_path(p@),
{
    proof {
        lemma_first_double_colon(p@, 0);
    }
    let mut i: usize = 0;
    while p.len() > 0 && i < p.len() - 1
        invariant
            i <= p.len(),
            first_double_colon(p@, i as int) == first_double_colon(p@, 0),
        decreases p.len() - i,
    {
        if p[i] == ':' && p[i + 1] == ':' {
            return i;
        }
        i = i + 1;
    }
    p.len()
}

/// Whether `path` points inside an archive (it holds `::`).
pub fn is_archive_member(path: &str) -> (r: bool)
    ensures
        r == is_member_path(path@),
{
    let p = chars_of(path);
    double_colon_index(&p) < p.len()
}

/// The file that `path` lives in: the text before its first `::`, or all of it.
pub fn real_path_of(path: &str) -> (r: String)
    ensures
        r@ == real_path(path@),
{
    let p = chars_of(path);
    let k = double_colon_index(&p);
    string_of(&slice_chars(&p, 0, k))
}

} // verus!
