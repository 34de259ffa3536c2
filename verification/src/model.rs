//! The scan result model (files, groups, the four result tabs) and the
//! human-readable size text.
use vstd::prelude::*;
use crate::text::{chars_of, string_of};
use crate::sort::{stable_sort, ins_pos, lemma_ins_pos};

verus! {

/// One file of a duplicate or similarity group.
#[derive(Debug, Clone, Default)]
pub struct FileEntry {
    pub path: String,
    pub size: u64,
    pub size_fmt: String,
    pub keep: bool,
    pub hash: Option<String>,
    pub phash: Option<String>,
    pub file_type: String,
    pub created: Option<String>,
    pub frame_count: Option<String>,
    pub shared: Option<u32>,
    pub total_files: Option<u32>,
}

/// A group of duplicate or similar files.
#[derive(Debug, Clone, Default)]
pub struct Group {
    pub id: String,
    pub files: Vec<FileEntry>,
    pub savable: u64,
    pub savable_fmt: String,
    pub category: Option<String>,
    pub shared: Option<u32>,
}

/// The groups of a scan, one list per result tab.
#[derive(Debug, Clone, Default)]
pub struct ScanResult {
    pub regular: Vec<Group>,
    pub image: Vec<Group>,
    pub video: Vec<Group>,
    pub archive: Vec<Group>,
}

/// The view of an optional string.
pub open spec fn opt_text(s: Option<String>) -> Option<Seq<char>> {
    match s {
        Some(t) => Some(t@),
        None => None,
    }
}

/// What a file entry holds, with its texts as characters.
pub ghost struct FileEntryView {
    pub path: Seq<char>,
    pub size: u64,
    pub size_fmt: Seq<char>,
    pub keep: bool,
    pub hash: Option<Seq<char>>,
    pub phash: Option<Seq<char>>,
    pub file_type: Seq<char>,
    pub created: Option<Seq<char>>,
    pub frame_count: Option<Seq<char>>,
    pub shared: Option<u32>,
    pub total_files: Option<u32>,
}

impl View for FileEntry {
    type V = FileEntryView;

    open spec fn view(&self) -> FileEntryView {
        FileEntryView {
            path: self.path@,
            size: self.size,
            size_fmt: self.size_fmt@,
            keep: self.keep,
            hash: opt_text(self.hash),
            phash: opt_text(self.phash),
            file_type: self.file_type@,
            created: opt_text(self.created),
            frame_count: opt_text(self.frame_count),
            shared: self.shared,
            total_files: self.total_files,
        }
    }
}

/// What a group holds, with its texts as characters.
pub ghost struct GroupView {
    pub id: Seq<char>,
    pub files: Seq<FileEntryView>,
    pub savable: u64,
    pub savable_fmt: Seq<char>,
    pub category: Option<Seq<char>>,
    pub shared: Option<u32>,
}

/// The views of a list of file entries.
pub open spec fn files_view(files: Seq<FileEntry>) -> Seq<FileEntryView> {
    files.map_values(|f: FileEntry| f@)
}

impl View for Group {
    type V = GroupView;

    open spec fn view(&self) -> GroupView {
        GroupView {
            id: self.id@,
            files: files_view(self.files@),
            savable: self.savable,
            savable_fmt: self.savable_fmt@,
            category: opt_text(self.category),
            shared: self.shared,
        }
    }
}

/// The views of a list of groups.
pub open spec fn groups_view(groups: Seq<Group>) -> Seq<GroupView> {
    groups.map_values(|g: Group| g@)
}

/// The four result tabs, each a list of group views.
pub ghost struct ScanResultView {
    pub regular: Seq<GroupView>,
    pub image: Seq<GroupView>,
    pub video: Seq<GroupView>,
    pub archive: Seq<GroupView>,
}

impl View for ScanResult {
    type V = ScanResultView;

    open spec fn view(&self) -> ScanResultView {
        ScanResultView {
            regular: groups_view(self.regular@),
            image: groups_view(self.image@),
            video: groups_view(self.video@),
            archive: groups_view(self.archive@),
        }
    }
}

/// Groups with more to save come first.
pub open spec fn more_savable() -> spec_fn(GroupView, GroupView) -> bool {
    |a: GroupView, b: GroupView| a.savable > b.savable
}

/// The groups sorted by what they save, largest first, equal ones in their order.
pub open spec fn by_savable(groups: Seq<GroupView>) -> Seq<GroupView> {
    stable_sort(groups, more_savable())
}

/// The character of a decimal digit.
pub open spec fn digit_char(d: nat) -> char {
    ((48 + d) as u8) as char
}

/// The decimal text of a natural number.
pub open spec fn decimal(n: nat) -> Seq<char>
    decreases n,
{
    if n < 10 {
        seq![digit_char(n)]
    } else {
        decimal(n / 10).push(digit_char(n % 10))
    }
}

fn digit(d: u64) -> (c: char)
    requires
        d < 10,
    ensures
        c == digit_char(d as nat),
{
    ((48 + d) as u8) as char
}

/// The decimal digits of `n`.
pub fn decimal_chars(n: u64) -> (r: Vec<char>)
    ensures
        r@ == decimal(n as nat),
    decreases n,
{
    if n < 10 {
        let mut v: Vec<char> = Vec::new();
        v.push(digit(n));
        v
    } else {
        let mut v = decimal_chars(n / 10);
        v.push(digit(n % 10));
        v
    }
}

/// The decimal text of `n`.
pub fn decimal_string(n: u64) -> (r: String)
    ensures
        r@ == decimal(n as nat),
{
    string_of(&decimal_chars(n))
}

fn append_str(v: &mut Vec<char>, s: &str)
    ensures
        final(v)@ == old(v)@ + s@,
{
    let c = chars_of(s);
    let mut i: usize = 0;
    let ghost v0 = v@;
    while i < c.len()
        invariant
            i <= c.len(),
            c@ == s@,
            v@ == v0 + c@.take(i as int),
        decreases c.len() - i,
    {
        v.push(c[i]);
        assert(v0 + c@.take(i as int).push(c@[i as int]) =~= v0 + c@.take(i + 1));
        i = i + 1;
    }
    assert(c@.take(c.len() as int) =~= c@);
}

fn append_chars(v: &mut Vec<char>, c: &Vec<char>)
    ensures
        final(v)@ == old(v)@ + c@,
{
    let mut i: usize = 0;
    let ghost v0 = v@;
    while i < c.len()
        invariant
            i <= c.len(),
            v@ == v0 + c@.take(i as int),
        decreases c.len() - i,
    {
        v.push(c[i]);
        assert(v0 + c@.take(i as int).push(c@[i as int]) =~= v0 + c@.take(i + 1));
        i = i + 1;
    }
    assert(c@.take(c.len() as int) =~= c@);
}

/// The number of binary digits of `b`.
pub open spec fn bit_len(b: nat) -> nat
    decreases b,
{
    if b == 0 {
        0
    } else {
        1 + bit_len(b / 2)
    }
}

/// Two to the power `e`.
pub open spec fn p2(e: nat) -> nat
    decreases e,
{
    if e == 0 {
        1
    } else {
        2 * p2((e - 1) as nat)
    }
}

/// The value of `b as f64`: `b` itself while it has at most 53 binary digits,
/// else `b` rounded to 53 significant bits, ties to the even one.
pub open spec fn f64_value(b: nat) -> nat {
    if bit_len(b) <= 53 {
        b
    } else {
        let d = p2((bit_len(b) - 53) as nat);
        let m = b / d;
        let r = b % d;
        if 2 * r > d || (2 * r == d && m % 2 == 1) {
            (m + 1) * d
        } else {
            m * d
        }
    }
}

/// How many times a size is divided by 1024 before it is shown (at most 4, TB).
pub open spec fn unit_index(v: nat) -> nat {
    if v < 1024 {
        0
    } else if v < 1024 * 1024 {
        1
    } else if v < 1024 * 1024 * 1024 {
        2
    } else if v < 1024 * 1024 * 1024 * 1024 {
        3
    } else {
        4
    }
}

/// 1024 to the power `i`.
pub open spec fn unit_divisor(i: nat) -> nat
    decreases i,
{
    if i == 0 {
        1
    } else {
        1024 * unit_divisor((i - 1) as nat)
    }
}

/// The name of unit `i`.
pub open spec fn unit_name(i: nat) -> Seq<char> {
    if i == 0 {
        "B"@
    } else if i == 1 {
        "KB"@
    } else if i == 2 {
        "MB"@
    } else if i == 3 {
        "GB"@
    } else {
        "TB"@
    }
}

/// `v / d` in tenths, rounded to the nearest tenth, ties to the even tenth.
pub open spec fn tenths(v: nat, d: nat) -> nat {
    let q = (v * 10) / d;
    let r = (v * 10) % d;
    if 2 * r > d || (2 * r == d && q % 2 == 1) {
        q + 1
    } else {
        q
    }
}

/// The text `fmt_size` gives for `b` bytes: `0 B`; the exact count of bytes below
/// 1024; else the size in the largest unit up to TB, with one decimal.
pub open spec fn size_text(b: nat) -> Seq<char> {
    let v = f64_value(b);
    let i = unit_index(v);
    if b == 0 {
        "0 B"@
    } else if i == 0 {
        decimal(b) + " B"@
    } else {
        let t = tenths(v, unit_divisor(i));
        decimal(t / 10) + "."@ + seq![digit_char(t % 10)] + " "@ + unit_name(i)
    }
}

/// Sizes below 1 KB are shown as the exact count of bytes; whole kilobytes
/// below 1 MB as that count of KB with one decimal, `.0`.
pub proof fn law_size_text_bytes_and_kilobytes(b: nat, k: nat)
    ensures
        b < 1024 ==> size_text(b) == decimal(b) + " B"@,
        1 <= k < 1024 ==> size_text(k * 1024) == decimal(k) + ".0 KB"@,
{
    reveal_with_fuel(p2, 21);
    reveal_strlit("0 B");
    reveal_strlit(" B");
    reveal_strlit(".");
    reveal_strlit(" ");
    reveal_strlit("KB");
    reveal_strlit(".0 KB");
    if b < 1024 {
        lemma_bit_len_bound(b, 10);
        assert(f64_value(b) == b);
        if b == 0 {
            assert(decimal(0) == seq![digit_char(0)]);
            assert(digit_char(0) == '0');
            assert(size_text(b) =~= decimal(b) + " B"@);
        }
    }
    if 1 <= k < 1024 {
        let v = k * 1024;
        assert(1024 <= v < 1024 * 1024) by (nonlinear_arith) requires 1 <= k < 1024, v == k * 1024;
        lemma_bit_len_bound(v, 20);
        assert(f64_value(v) == v);
        assert(unit_index(v) == 1);
        assert(unit_divisor(1) == 1024) by {
            assert(unit_divisor(0) == 1);
        }
        assert((v * 10) / 1024 == k * 10 && (v * 10) % 1024 == 0) by (nonlinear_arith) requires v == k * 1024;
        let t = tenths(v, 1024);
        assert(t == k * 10);
        assert(t / 10 == k && t % 10 == 0) by (nonlinear_arith) requires t == k * 10;
        assert(digit_char(0) == '0');
        assert(size_text(v) =~= decimal(k) + ".0 KB"@);
    }
}

fn bit_len_exec(b: u64) -> (r: u64)
    ensures
        r == bit_len(b as nat),
        r <= 64,
{
    let mut x = b;
    let mut n: u64 = 0;
    proof {
        lemma_bit_len_u64(b as nat);
    }
    while x > 0
        invariant
            n + bit_len(x as nat) == bit_len(b as nat),
            bit_len(b as nat) <= 64,
        decreases x,
    {
        x = x / 2;
        n = n + 1;
    }
    n
}

proof fn lemma_bit_len_u64(b: nat)
    requires
        b <= u64::MAX,
    ensures
        bit_len(b) <= 64,
{
    lemma_p2_64();
    lemma_bit_len_bound(b, 64);
}

proof fn lemma_bit_len_bound(b: nat, k: nat)
    requires
        b < p2(k),
    ensures
        bit_len(b) <= k,
    decreases k,
{
    if k > 0 && b > 0 {
        lemma_bit_len_bound(b / 2, (k - 1) as nat);
    } else if k == 0 {
        assert(b == 0);
    }
}

proof fn lemma_p2_64()
    ensures
        p2(64) == 0x1_0000_0000_0000_0000nat,
        p2(53) == 0x20_0000_0000_0000nat,
{
    reveal_with_fuel(p2, 65);
}

proof fn lemma_p2_mono(a: nat, b: nat)
    requires
        a <= b,
    ensures
        p2(a) <= p2(b),
        p2(a) >= 1,
    decreases b,
{
    if a < b {
        lemma_p2_mono(a, (b - 1) as nat);
    } else if a > 0 {
        lemma_p2_mono((a - 1) as nat, (a - 1) as nat);
    }
}

proof fn lemma_bit_len_ge(b: nat)
    requires
        b > 0,
    ensures
        b >= p2((bit_len(b) - 1) as nat),
    decreases b,
{
    if b / 2 > 0 {
        lemma_bit_len_ge(b / 2);
        let k = bit_len(b / 2);
        assert(k >= 1);
        assert(p2(k) == 2 * p2((k - 1) as nat));
        assert(bit_len(b) == 1 + k);
    } else {
        assert(bit_len(b / 2) == 0);
        assert(bit_len(b) == 1);
        assert(p2(0) == 1);
    }
}

proof fn lemma_p2_add(a: nat, b: nat)
    ensures
        p2(a + b) == p2(a) * p2(b),
    decreases a,
{
    if a > 0 {
        lemma_p2_add((a - 1) as nat, b);
        assert(p2(a + b) == 2 * p2((a - 1 + b) as nat));
        assert(2 * (p2((a - 1) as nat) * p2(b)) == (2 * p2((a - 1) as nat)) * p2(b)) by (nonlinear_arith);
    } else {
        assert(p2(0) == 1);
        assert(a + b == b);
    }
}

/// `b as f64`, as an integer.
fn f64_value_exec(b: u64) -> (r: u128)
    ensures
        r == f64_value(b as nat),
        r <= 0x1_0000_0000_0000_0000,
        b > 0 ==> r > 0,
{
    let n = bit_len_exec(b);
    if n <= 53 {
        return b as u128;
    }
    let s = n - 53;
    let mut d: u128 = 1;
    let mut i: u64 = 0;
    proof {
        lemma_p2_mono(s as nat, 11);
        lemma_p2_64();
        reveal_with_fuel(p2, 12);
    }
    while i < s
        invariant
            i <= s,
            s <= 11,
            d == p2(i as nat),
            d <= p2(s as nat),
            p2(s as nat) <= 2048,
        decreases s - i,
    {
        proof {
            lemma_p2_mono((i + 1) as nat, s as nat);
        }
        d = d * 2;
        i = i + 1;
    }
    let bb = b as u128;
    let m = bb / d;
    let r = bb % d;
    proof {
        lemma_bit_len_ge(b as nat);
        lemma_p2_mono(52, (n - 1) as nat);
        assert(d >= 2) by {
            lemma_p2_mono(1, s as nat);
            reveal_with_fuel(p2, 2);
        }
        assert(m * d <= bb) by (nonlinear_arith) requires m == bb / d, d > 0;
        assert(m * d + r == bb) by (nonlinear_arith) requires m == bb / d, r == bb % d, d > 0;
        assert(bb < 0x1_0000_0000_0000_0000);
        assert((m + 1) * d <= bb + d) by (nonlinear_arith) requires m * d <= bb;
        assert(m >= 1) by (nonlinear_arith) requires m == bb / d, d > 0, bb >= d;
    }
    let v = if 2 * r > d || (2 * r == d && m % 2 == 1) { (m + 1) * d } else { m * d };
    proof {
        if 2 * r > d || (2 * r == d && m % 2 == 1) {
            // rounding up reaches at most the next multiple of `d` above `b`
            let kk = p2((64 - s) as nat);
            lemma_p2_add(s as nat, (64 - s) as nat);
            assert(d * kk == 0x1_0000_0000_0000_0000);
            assert(bb + d - r <= 0x1_0000_0000_0000_0000) by (nonlinear_arith)
                requires
                    m * d + r == bb,
                    bb < 0x1_0000_0000_0000_0000,
                    0 <= r < d,
                    d * kk == 0x1_0000_0000_0000_0000;
            assert((m + 1) * d == bb + d - r) by (nonlinear_arith) requires m * d + r == bb;
        }
        assert(m * d >= d) by (nonlinear_arith) requires m >= 1, d > 0;
    }
    v
}

fn unit_index_exec(v: u128) -> (r: u64)
    ensures
        r == unit_index(v as nat),
        r <= 4,
{
    if v < 1024 {
        0
    } else if v < 1024 * 1024 {
        1
    } else if v < 1024 * 1024 * 1024 {
        2
    } else if v < 1024 * 1024 * 1024 * 1024 {
        3
    } else {
        4
    }
}

fn unit_divisor_exec(i: u64) -> (r: u128)
    requires
        i <= 4,
    ensures
        r == unit_divisor(i as nat),
        r >= 1,
        r <= 1024 * 1024 * 1024 * 1024,
{
    reveal_with_fuel(unit_divisor, 5);
    if i == 0 {
        1
    } else if i == 1 {
        1024
    } else if i == 2 {
        1024 * 1024
    } else if i == 3 {
        1024 * 1024 * 1024
    } else {
        1024 * 1024 * 1024 * 1024
    }
}

fn unit_str(i: u64) -> (r: &'static str)
    ensures
        r@ == unit_name(i as nat),
{
    if i == 0 {
        "B"
    } else if i == 1 {
        "KB"
    } else if i == 2 {
        "MB"
    } else if i == 3 {
        "GB"
    } else {
        "TB"
    }
}

/// A file size as text: `0 B`, `512 B`, `1.5 KB`, ... up to TB, one decimal above bytes.
pub fn fmt_size(bytes: u64) -> (r: String)
    ensures
        r@ == size_text(bytes as nat),
{
    if bytes == 0 {
        return string_of(&chars_of("0 B"));
    }
    let v = f64_value_exec(bytes);
    let i = unit_index_exec(v);
    let mut out: Vec<char> = Vec::new();
    if i == 0 {
        proof {
            if bit_len(bytes as nat) > 53 {
                lemma_bit_len_ge(bytes as nat);
                lemma_p2_mono(10, (bit_len(bytes as nat) - 1) as nat);
                reveal_with_fuel(p2, 11);
            }
        }
        append_chars(&mut out, &decimal_chars(bytes));
        append_str(&mut out, " B");
        return string_of(&out);
    }
    let d = unit_divisor_exec(i);
    let tv = v * 10;
    let q = tv / d;
    let rm = tv % d;
    let t = if 2 * rm > d || (2 * rm == d && q % 2 == 1) { q + 1 } else { q };
    proof {
        assert(d >= 1024) by {
            reveal_with_fuel(unit_divisor, 5);
        }
        assert(q <= tv / 1024) by (nonlinear_arith) requires q == tv / d, d >= 1024;
        assert(t / 10 <= u64::MAX);
    }
    append_chars(&mut out, &decimal_chars((t / 10) as u64));
    append_str(&mut out, ".");
    out.push(digit((t % 10) as u64));
    append_str(&mut out, " ");
    append_str(&mut out, unit_str(i));
    proof {
        reveal_strlit(".");
        reveal_strlit(" ");
        assert(out@ =~= size_text(bytes as nat));
    }
    string_of(&out)
}

/// Sorts groups by what they save, largest first; groups that save the same
/// keep their order.
pub fn sort_by_savable(groups: Vec<Group>) -> (r: Vec<Group>)
    ensures
        groups_view(r@) == by_savable(groups_view(groups@)),
{
    let ghost orig = groups_view(groups@);
    let mut rest = groups;
    let mut out: Vec<Group> = Vec::new();
    let ghost mut taken: int = 0;
    proof {
        assert(orig.take(0) =~= Seq::<GroupView>::empty());
        assert(groups_view(rest@) =~= orig.skip(0));
    }
    while rest.len() > 0
        invariant
            0 <= taken <= orig.len(),
            groups_view(rest@) == orig.skip(taken),
            groups_view(out@) == stable_sort(orig.take(taken), more_savable()),
        decreases rest.len(),
    {
        let ghost r0 = rest@;
        assert(groups_view(r0).len() == r0.len());
        assert(taken < orig.len());
        let g = rest.remove(0);
        proof {
            assert(g == r0[0]);
            assert(groups_view(r0)[0] == orig[taken]);
            assert(g@ == orig[taken]);
            assert(groups_view(rest@) =~= orig.skip(taken + 1)) by {
                assert forall|j: int| 0 <= j < rest@.len() implies groups_view(rest@)[j] == orig.skip(taken + 1)[j] by {
                    assert(rest@[j] == r0[j + 1]);
                    assert(groups_view(r0)[j + 1] == orig.skip(taken)[j + 1]);
                }
            }
        }
        let mut p: usize = 0;
        while p < out.len() && !(g.savable > out[p].savable)
            invariant
                p <= out.len(),
                forall|j: int| 0 <= j < p ==> !(more_savable())(g@, #[trigger] groups_view(out@)[j]),
            decreases out.len() - p,
        {
            assert(groups_view(out@)[p as int] == out@[p as int]@);
            p = p + 1;
        }
        proof {
            if p < out.len() {
                assert(groups_view(out@)[p as int] == out@[p as int]@);
            }
            lemma_ins_pos(groups_view(out@), g@, more_savable(), p as int);
            let t1 = orig.take(taken + 1);
            assert(t1.drop_last() =~= orig.take(taken));
            assert(t1.last() == g@);
        }
        let ghost before = out@;
        out.insert(p, g);
        proof {
            assert(groups_view(out@) =~= groups_view(before).insert(p as int, g@));
            taken = taken + 1;
        }
    }
    proof {
        assert(orig.take(taken) =~= orig);
    }
    out
}

} // verus!
