//! The byte range a file request asks for (`Range: bytes=start-end`), and
//! the headers of the answer.
use vstd::prelude::*;
use crate::text::chars_of;
use crate::model::{decimal, decimal_chars};

verus! {

/// Whether every character is an ASCII digit.
pub open spec fn all_digits(d: Seq<char>) -> bool {
    forall|i: int| 0 <= i < d.len() ==> '0' <= #[trigger] d[i] <= '9'
}

/// The value of a string of decimal digits.
pub open spec fn digits_value(d: Seq<char>) -> nat
    decreases d.len(),
{
    if d.len() == 0 {
        0
    } else {
        digits_value(d.drop_last()) * 10 + ((d.last() as nat) - 48) as nat
    }
}

/// What parsing a `u64` from text gives: an optional `+`, then one or more
/// digits whose value fits in 64 bits.
pub open spec fn parsed_u64(s: Seq<char>) -> Option<u64> {
    let d = if s.len() > 0 && s[0] == '+' { s.skip(1) } else { s };
    if d.len() == 0 || !all_digits(d) || digits_value(d) > u64::MAX {
        None
    } else {
        Some(digits_value(d) as u64)
    }
}

proof fn lemma_digits_value_push(d: Seq<char>, c: char)
    requires
        '0' <= c <= '9',
    ensures
        digits_value(d.push(c)) == digits_value(d) * 10 + (c as nat - 48),
{
    assert(d.push(c).drop_last() =~= d);
}

/// Parses a `u64` from the characters `s[from..to]` as `str::parse` does.
pub fn parse_u64(s: &Vec<char>, from: usize, to: usize) -> (r: Option<u64>)
    requires
        from <= to <= s.len(),
    ensures
        r == parsed_u64(s@.subrange(from as int, to as int)),
{
    let ghost t = s@.subrange(from as int, to as int);
    let mut i = from;
    if i < to && s[i] == '+' {
        i = i + 1;
    }
    let ghost d = s@.subrange(i as int, to as int);
    proof {
        if from < to && s@[from as int] == '+' {
            assert(t.skip(1) =~= d);
        } else {
            assert(t =~= d);
        }
    }
    if i == to {
        return None;
    }
    let start = i;
    let mut v: u64 = 0;
    assert(s@.subrange(start as int, start as int) =~= Seq::<char>::empty());
    while i < to
        invariant
            start <= i <= to <= s.len(),
            start < to,
            t == s@.subrange(from as int, to as int),
            d == s@.subrange(start as int, to as int),
            parsed_u64(t) == (if !all_digits(d) || digits_value(d) > u64::MAX { None } else { Some(digits_value(d) as u64) }),
            all_digits(s@.subrange(start as int, i as int)),
            v == digits_value(s@.subrange(start as int, i as int)),
        decreases to - i,
    {
        let c = s[i];
        assert(d[i - start] == c);
        assert(d.take(i - start) =~= s@.subrange(start as int, i as int));
        if c < '0' || c > '9' {
            assert(!('0' <= d[i - start] <= '9'));
            return None;
        }
        let digit: u64 = (c as u32 - 48) as u64;
        proof {
            lemma_digits_value_push(s@.subrange(start as int, i as int), c);
            assert(s@.subrange(start as int, i as int).push(c) =~= s@.subrange(start as int, i + 1));
        }
        if v > 1844674407370955161 || (v == 1844674407370955161 && digit > 5) {
            proof {
                assert(d.take(i - start + 1) =~= s@.subrange(start as int, i + 1));
                assert(all_digits(d.take(i - start + 1)));
                lemma_prefix_too_big(d, (i - start) as int);
            }
            return None;
        }
        v = v * 10 + digit;
        i = i + 1;
    }
    assert(s@.subrange(start as int, to as int) =~= d);
    Some(v)
}

proof fn lemma_digits_value_mono(d: Seq<char>, k: int)
    requires
        0 <= k <= d.len(),
        all_digits(d),
    ensures
        digits_value(d.take(k)) <= digits_value(d),
        k < d.len() ==> digits_value(d.take(k + 1)) * 10 <= digits_value(d) * 10,
    decreases d.len() - k,
{
    if k < d.len() {
        lemma_digits_value_mono(d, k + 1);
        assert(d.take(k + 1).drop_last() =~= d.take(k));
    } else {
        assert(d.take(k) =~= d);
    }
}

proof fn lemma_digits_value_grows(d: Seq<char>, k: int)
    requires
        0 <= k < d.len(),
        all_digits(d),
    ensures
        digits_value(d.take(k + 1)) <= digits_value(d),
        digits_value(d.take(k + 1)) == digits_value(d.take(k)) * 10 + (d[k] as nat - 48),
{
    lemma_digits_value_mono(d, k + 1);
    assert(d.take(k + 1).drop_last() =~= d.take(k));
}

proof fn lemma_prefix_too_big(d: Seq<char>, k: int)
    requires
        0 <= k < d.len(),
        all_digits(d.take(k + 1)),
        digits_value(d.take(k)) * 10 + (d[k] as nat - 48) > u64::MAX,
    ensures
        !all_digits(d) || digits_value(d) > u64::MAX,
{
    if all_digits(d) {
        lemma_digits_value_grows(d, k);
    }
}

/// The range a `Range` header asks for in a file of `file_size` bytes:
/// `bytes=` then the first byte, a `-`, and the last byte; a missing or
/// unreadable last byte means the end of the file. `None` where the header
/// does not have that form or the first byte does not parse.
pub open spec fn requested_range(h: Seq<char>, file_size: u64) -> Option<(u64, u64)> {
    let last = if file_size == 0 { 0u64 } else { (file_size - 1) as u64 };
    if !(h.len() >= 6 && h.take(6) == "bytes="@) {
        None
    } else {
        let rest = h.skip(6);
        let dash = dash_index(rest);
        let first = rest.take(dash);
        match parsed_u64(first) {
            None => None,
            Some(start) => {
                let end = if dash >= rest.len() {
                    last
                } else {
                    let second = rest.skip(dash + 1);
                    if second.len() == 0 {
                        last
                    } else {
                        match parsed_u64(second) {
                            Some(e) => e,
                            None => last,
                        }
                    }
                };
                Some((start, end))
            },
        }
    }
}

/// Where the first `-` stands, or the length.
pub open spec fn dash_index(s: Seq<char>) -> int
    decreases s.len(),
{
    if s.len() == 0 {
        0
    } else if s[0] == '-' {
        0
    } else {
        1 + dash_index(s.drop_first())
    }
}

proof fn lemma_dash_index(s: Seq<char>, i: int)
    requires
        0 <= i <= s.len(),
        forall|j: int| 0 <= j < i ==> s[j] != '-',
        i < s.len() ==> s[i] == '-',
    ensures
        dash_index(s) == i,
    decreases s.len(),
{
    if s.len() > 0 && i > 0 {
        assert forall|j: int| 0 <= j < i - 1 implies s.drop_first()[j] != '-' by {
            assert(s.drop_first()[j] == s[j + 1]);
        }
        lemma_dash_index(s.drop_first(), i - 1);
    }
}

/// A request for the bytes `a` to `b`, both written in decimal, asks for
/// exactly those bytes; one for the bytes from `a` on, with no last byte,
/// asks for `a` to the file's last byte.
pub proof fn law_range_request_reads_back(a: u64, b: u64, file_size: u64)
    ensures
        requested_range("bytes="@ + decimal(a as nat) + "-"@ + decimal(b as nat), file_size) == Some((a, b)),
        requested_range("bytes="@ + decimal(a as nat) + "-"@, file_size) == Some(
            (a, if file_size == 0 { 0u64 } else { (file_size - 1) as u64 }),
        ),
{
    reveal_strlit("bytes=");
    reveal_strlit("-");
    let d1 = decimal(a as nat);
    let d2 = decimal(b as nat);
    crate::csv_tabs::lemma_decimal_digits(a as nat);
    crate::csv_tabs::lemma_decimal_digits(b as nat);
    crate::csv_tabs::lemma_decimal_parses(a);
    crate::csv_tabs::lemma_decimal_parses(b);
    let h = "bytes="@ + d1 + "-"@ + d2;
    assert(h.take(6) =~= "bytes="@);
    let rest = h.skip(6);
    assert(rest =~= d1 + "-"@ + d2);
    assert forall|j: int| 0 <= j < d1.len() implies rest[j] != '-' by {
        assert(rest[j] == d1[j]);
    }
    lemma_dash_index(rest, d1.len() as int);
    assert(rest.take(d1.len() as int) =~= d1);
    assert(rest.skip(d1.len() as int + 1) =~= d2);
    let h2 = "bytes="@ + d1 + "-"@;
    assert(h2.take(6) =~= "bytes="@);
    let rest2 = h2.skip(6);
    assert(rest2 =~= d1 + "-"@);
    assert forall|j: int| 0 <= j < d1.len() implies rest2[j] != '-' by {
        assert(rest2[j] == d1[j]);
    }
    lemma_dash_index(rest2, d1.len() as int);
    assert(rest2.take(d1.len() as int) =~= d1);
    assert(rest2.skip(d1.len() as int + 1).len() == 0);
}

/// Reads a `Range` header.
pub fn parse_range(header: &str, file_size: u64) -> (r: Option<(u64, u64)>)
    ensures
        r == requested_range(header@, file_size),
{
    let h = chars_of(header);
    let last: u64 = if file_size == 0 { 0 } else { file_size - 1 };
    let pre = chars_of("bytes=");
    proof { reveal_strlit("bytes="); }
    if h.len() < 6 {
        return None;
    }
    let mut k: usize = 0;
    while k < 6
        invariant
            k <= 6 <= h.len(),
            pre@ == "bytes="@,
            pre.len() == 6,
            h@ == header@,
            forall|j: int| 0 <= j < k ==> h@[j] == pre@[j],
        decreases 6 - k,
    {
        if h[k] != pre[k] {
            assert(h@.take(6)[k as int] != "bytes="@[k as int]);
            assert(h@.take(6) != "bytes="@);
            return None;
        }
        k = k + 1;
    }
    assert(h@.take(6) =~= "bytes="@);
    let ghost rest = h@.skip(6);
    let mut d: usize = 6;
    while d < h.len() && h[d] != '-'
        invariant
            6 <= d <= h.len(),
            rest == h@.skip(6),
            forall|j: int| 0 <= j < d - 6 ==> rest[j] != '-',
        decreases h.len() - d,
    {
        d = d + 1;
    }
    proof {
        lemma_dash_index(rest, d - 6);
        assert(rest.take(d - 6) =~= h@.subrange(6, d as int));
    }
    let start = match parse_u64(&h, 6, d) {
        Some(s) => s,
        None => return None,
    };
    let end = if d >= h.len() {
        last
    } else if d + 1 == h.len() {
        assert(rest.skip(d - 6 + 1).len() == 0);
        last
    } else {
        assert(rest.skip(d - 6 + 1) =~= h@.subrange(d + 1, h.len() as int));
        match parse_u64(&h, d + 1, h.len()) {
            Some(e) => e,
            None => last,
        }
    };
    Some((start, end))
}

/// The answer to a file request: the first and last byte sent, and whether
/// it is a partial answer.
pub open spec fn served_range(h: Option<Seq<char>>, file_size: u64) -> (u64, u64, bool) {
    let last = if file_size == 0 { 0u64 } else { (file_size - 1) as u64 };
    match h {
        Some(t) => match requested_range(t, file_size) {
            Some((s, e)) => (s, if e < last { e } else { last }, true),
            None => (0, last, false),
        },
        None => (0, last, false),
    }
}

/// The bytes to send for a request with the given `Range` header, if any: the
/// range asked for, its end cut to the file, or the whole file.
pub fn serve_range(header: Option<&str>, file_size: u64) -> (r: (u64, u64, bool))
    ensures
        r == served_range(
            match header {
                Some(t) => Some(t@),
                None => None,
            },
            file_size,
        ),
{
    let last: u64 = if file_size == 0 { 0 } else { file_size - 1 };
    let asked = match header {
        Some(t) => parse_range(t, file_size),
        None => None,
    };
    match asked {
        Some((s, e)) => (s, if e < last { e } else { last }, true),
        None => (0, last, false),
    }
}

/// The number of bytes from `start` to `end`, both included.
pub fn content_length(start: u64, end: u64) -> (r: u64)
    requires
        start <= end,
        end < u64::MAX,
    ensures
        r == end - start + 1,
{
    end - start + 1
}

/// The `Content-Range` header: `bytes start-end/size`.
pub fn content_range(start: u64, end: u64, file_size: u64) -> (r: String)
    ensures
        r@ == "bytes "@ + decimal(start as nat) + "-"@ + decimal(end as nat) + "/"@ + decimal(file_size as nat),
{
    let mut r = "bytes ".to_string();
    push_all(&mut r, &decimal_chars(start));
    r.append("-");
    push_all(&mut r, &decimal_chars(end));
    r.append("/");
    push_all(&mut r, &decimal_chars(file_size));
    r
}

fn push_all(s: &mut String, cs: &Vec<char>)
    ensures
        final(s)@ == old(s)@ + cs@,
{
    let ghost s0 = s@;
    let mut i: usize = 0;
    while i < cs.len()
        invariant
            i <= cs.len(),
            s@ == s0 + cs@.take(i as int),
        decreases cs.len() - i,
    {
        s.push(cs[i]);
        assert(s0 + cs@.take(i as int).push(cs@[i as int]) =~= s0 + cs@.take(i + 1));
        i = i + 1;
    }
    assert(cs@.take(cs.len() as int) =~= cs@);
}


/// The bytes served never run past the file's last byte, and a whole-file
/// answer starts at its first.
pub proof fn law_served_within_file(h: Option<Seq<char>>, file_size: u64)
    ensures
        served_range(h, file_size).1 <= (if file_size == 0 { 0 } else { file_size - 1 }),
        !served_range(h, file_size).2 ==> served_range(h, file_size).0 == 0,
{
}

} // verus!
