//! Video similarity: which frames to sample, the gray image of a sampled
//! frame, and the frame-hash distance between two videos.
use vstd::prelude::*;
use crate::phash::{hamming, hamming_distance, lemma_hamming_bound};
use crate::model::{Group, decimal, decimal_string, groups_view};
use crate::similarity::{similarity_groups, is_similarity_result, texts, saving_overflows};

verus! {

/// The frame indices to sample: `n` positions spread evenly over the frames
/// between a tenth of the way in and a tenth before the end.
pub open spec fn sample_position(total: nat, n: nat, i: nat) -> nat {
    let margin = total / 10;
    let start = margin;
    let end = (total - margin) as nat;
    let span = if end - start > 1 { (end - start) as nat } else { 1nat };
    start + (i * span) / (if n > 1 { n } else { 1nat })
}

/// The sampled frames start a tenth of the way in, never go back, and stay
/// before the last tenth (or all sit at the start where the middle part is
/// shorter than two frames).
pub proof fn law_sample_positions_spread(total: nat, n: nat, i: nat, j: nat)
    requires
        i <= j < n,
    ensures
        sample_position(total, n, 0) == total / 10,
        sample_position(total, n, i) <= sample_position(total, n, j),
        total / 10 <= sample_position(total, n, i),
        sample_position(total, n, i) < total - total / 10 || sample_position(total, n, i) == total / 10,
{
    let m = total / 10;
    let end = (total - m) as nat;
    let span: int = if end - m > 1 { end - m } else { 1 };
    let d: int = if n > 1 { n as int } else { 1 };
    assert(0 <= m <= total) by (nonlinear_arith) requires m == total / 10, total >= 0;
    assert(0 * span / d == 0) by (nonlinear_arith) requires d > 0;
    vstd::arithmetic::mul::lemma_mul_inequality(i as int, j as int, span);
    vstd::arithmetic::div_mod::lemma_div_is_ordered(i * span, j * span, d);
    assert(i * span >= 0) by (nonlinear_arith) requires i >= 0, span > 0;
    assert((i * span) / d >= 0) by (nonlinear_arith) requires i * span >= 0, d > 0;
    assert(i < d);
    vstd::arithmetic::mul::lemma_mul_strict_inequality(i as int, d, span);
    assert(i * span < span * d) by (nonlinear_arith) requires i * span < d * span;
    vstd::arithmetic::div_mod::lemma_multiply_divide_lt(i * span, d, span);
    if end - m <= 1 {
        assert(span == 1);
        assert((i as int * 1) / d == 0) by (nonlinear_arith) requires 0 <= i < d;
    }
}

/// The frame indices to sample from a video of `total_frames` frames.
pub fn sample_positions(total_frames: u64, n_frames: u32) -> (r: Vec<u64>)
    requires
        total_frames * n_frames <= u64::MAX,
    ensures
        r.len() == n_frames,
        forall|i: int| 0 <= i < n_frames ==> r@[i] == sample_position(total_frames as nat, n_frames as nat, i as nat),
{
    let margin = total_frames / 10;
    let start = margin;
    let end = total_frames - margin;
    let span = if end - start > 1 { end - start } else { 1 };
    let count = if n_frames > 1 { n_frames as u64 } else { 1 };
    let mut r: Vec<u64> = Vec::new();
    let mut i: u64 = 0;
    while i < n_frames as u64
        invariant
            i <= n_frames,
            r.len() == i,
            span <= total_frames || span == 1,
            total_frames * n_frames <= u64::MAX,
            margin == total_frames / 10,
            start == margin,
            end == total_frames - margin,
            span == (if end - start > 1 { end - start } else { 1 }),
            count == (if n_frames > 1 { n_frames as u64 } else { 1 }),
            forall|j: int| 0 <= j < i ==> r@[j] == sample_position(total_frames as nat, n_frames as nat, j as nat),
        decreases n_frames - i,
    {
        assert(i * span <= u64::MAX) by (nonlinear_arith)
            requires
                i < n_frames,
                span <= total_frames || span == 1,
                total_frames * n_frames <= u64::MAX,
                n_frames <= u32::MAX;
        assert(((i * span) as int) / (count as int) <= (total_frames - start) as int) by (nonlinear_arith)
            requires
                i < n_frames,
                count == (if n_frames > 1 { n_frames as u64 } else { 1 }),
                span == (if end - start > 1 { end - start } else { 1 }),
                end == total_frames - start,
                start <= end;
        r.push(start + (i * span) / count);
        i = i + 1;
    }
    r
}

/// The gray level of each of the first `count` RGB pixels: the mean of the three channels.
pub fn gray_from_rgb(data: &[u8], count: usize) -> (r: Vec<u8>)
    requires
        data@.len() >= 3 * count,
    ensures
        r.len() == count,
        forall|i: int| 0 <= i < count ==> r@[i] == (data@[3 * i] + data@[3 * i + 1] + data@[3 * i + 2]) / 3,
{
    let mut r: Vec<u8> = Vec::new();
    let mut i: usize = 0;
    while i < count
        invariant
            data@.len() >= 3 * count,
            i <= count,
            r.len() == i,
            forall|j: int| 0 <= j < i ==> r@[j] == (data@[3 * j] + data@[3 * j + 1] + data@[3 * j + 2]) / 3,
        decreases count - i,
    {
        let len = data.len();
        assert(3 * i + 2 < len);
        let b0: usize = 3 * i;
        let p0 = data[b0] as u32;
        let p1 = data[b0 + 1] as u32;
        let p2 = data[b0 + 2] as u32;
        let s = p0 + p1 + p2;
        r.push((s / 3) as u8);
        i = i + 1;
    }
    r
}

/// What to do with a decoded frame.
#[derive(Debug, Clone, Copy, PartialEq, Eq)]
pub enum FrameStep {
    /// Every position has been sampled: stop decoding.
    Finished,
    /// Hash this frame.
    Sample,
    /// Pass over this frame.
    Skip,
}

/// Walks the decoded frames of a video and says which to sample.
pub struct FrameSampler {
    positions: Vec<u64>,
    frame_idx: u64,
    next: usize,
}

impl FrameSampler {
    /// The positions to sample.
    pub closed spec fn positions(&self) -> Seq<u64> {
        self.positions@
    }

    /// How many frames have been seen.
    pub closed spec fn seen(&self) -> u64 {
        self.frame_idx
    }

    /// How many positions have been sampled.
    pub closed spec fn sampled(&self) -> nat {
        self.next as nat
    }

    /// A sampler that has seen no frame yet.
    pub fn new(positions: Vec<u64>) -> (s: Self)
        ensures
            s.positions() == positions@,
            s.seen() == 0,
            s.sampled() == 0,
    {
        FrameSampler { positions, frame_idx: 0, next: 0 }
    }

    /// The number of frames seen so far.
    pub fn frames_seen(&self) -> (r: u64)
        ensures
            r == self.seen(),
    {
        self.frame_idx
    }

    /// The number of positions sampled so far.
    pub fn samples_taken(&self) -> (r: usize)
        ensures
            r == self.sampled(),
    {
        self.next
    }

    /// Decides on the next decoded frame: once every position is sampled, stop;
    /// else sample the frame if it is at or past the next position.
    pub fn on_frame(&mut self) -> (step: FrameStep)
        requires
            old(self).seen() < u64::MAX,
            old(self).sampled() <= old(self).positions().len(),
        ensures
            final(self).positions() == old(self).positions(),
            final(self).sampled() <= final(self).positions().len(),
            old(self).sampled() >= old(self).positions().len() ==> step == FrameStep::Finished && *final(self) == *old(self),
            old(self).sampled() < old(self).positions().len() ==> {
                &&& final(self).seen() == old(self).seen() + 1
                &&& if old(self).seen() >= old(self).positions()[old(self).sampled() as int] {
                    step == FrameStep::Sample && final(self).sampled() == old(self).sampled() + 1
                } else {
                    step == FrameStep::Skip && final(self).sampled() == old(self).sampled()
                }
            },
    {
        if self.next >= self.positions.len() {
            return FrameStep::Finished;
        }
        let target = self.positions[self.next];
        let step = if self.frame_idx >= target {
            self.next = self.next + 1;
            FrameStep::Sample
        } else {
            FrameStep::Skip
        };
        self.frame_idx = self.frame_idx + 1;
        step
    }
}

/// The smallest distance from `h` to any of the first `k` hashes of `b` (64 if none).
pub open spec fn min_dist(h: u64, b: Seq<u64>, k: int) -> nat
    decreases k,
{
    if k <= 0 {
        64
    } else {
        let rest = min_dist(h, b, k - 1);
        let d = hamming(h, b[k - 1]);
        if d < rest { d } else { rest }
    }
}

/// The sum, over the first `k` hashes of `a`, of their distance to the nearest hash of `b`.
pub open spec fn dist_sum(a: Seq<u64>, b: Seq<u64>, k: int) -> nat
    decreases k,
{
    if k <= 0 {
        0
    } else {
        dist_sum(a, b, k - 1) + min_dist(a[k - 1], b, b.len() as int)
    }
}

proof fn lemma_min_dist_bound(h: u64, b: Seq<u64>, k: int)
    ensures
        min_dist(h, b, k) <= 64,
    decreases k,
{
    if k > 0 {
        lemma_min_dist_bound(h, b, k - 1);
    }
}

/// The total, over the frame hashes of `a`, of the distance to the nearest frame
/// hash of `b`; `None` when either has no hash. (The mean of this over `a` is
/// the distance between the two videos.)
pub fn frame_distance_total(a: &Vec<u64>, b: &Vec<u64>) -> (r: Option<u64>)
    requires
        a.len() <= u64::MAX / 64,
    ensures
        a.len() == 0 || b.len() == 0 ==> r is None,
        a.len() > 0 && b.len() > 0 ==> r == Some(dist_sum(a@, b@, a.len() as int) as u64),
        r matches Some(t) ==> t <= 64 * a.len(),
{
    if a.len() == 0 || b.len() == 0 {
        return None;
    }
    let mut total: u64 = 0;
    let mut i: usize = 0;
    while i < a.len()
        invariant
            i <= a.len(),
            total == dist_sum(a@, b@, i as int),
            total <= 64 * i,
            a.len() <= u64::MAX / 64,
        decreases a.len() - i,
    {
        let mut best: u32 = 64;
        let mut j: usize = 0;
        while j < b.len()
            invariant
                i < a.len(),
                j <= b.len(),
                best == min_dist(a@[i as int], b@, j as int),
            decreases b.len() - j,
        {
            let d = hamming_distance(a[i], b[j]);
            if d < best {
                best = d;
            }
            j = j + 1;
        }
        proof {
            lemma_min_dist_bound(a@[i as int], b@, b.len() as int);
        }
        total = total + best as u64;
        i = i + 1;
    }
    Some(total)
}

/// The frame counts as text, one per video.
pub open spec fn count_texts(counts: Seq<u64>) -> Seq<Seq<char>> {
    counts.map_values(|c: u64| decimal(c as nat))
}

/// The groups of similar videos, from the links that the frame distances decided
/// (see `similarity_groups`); each file shows its number of frame hashes.
pub fn similar_video_groups(
    paths: &Vec<String>,
    sizes: &Vec<u64>,
    frame_counts: &Vec<u64>,
    links: &Vec<(usize, usize, bool)>,
) -> (r: Option<Vec<Group>>)
    requires
        paths.len() == sizes.len(),
        frame_counts.len() == sizes.len(),
        forall|k: int| 0 <= k < links.len() ==> (#[trigger] links@[k]).0 < sizes.len() && links@[k].1 < sizes.len(),
    ensures
        match r {
            Some(v) => is_similarity_result(true, texts(paths@), sizes@, count_texts(frame_counts@), links@, groups_view(v@)),
            None => saving_overflows(sizes@, links@),
        },
{
    let mut details: Vec<String> = Vec::new();
    let mut x: usize = 0;
    while x < frame_counts.len()
        invariant
            x <= frame_counts.len(),
            details.len() == x,
            forall|y: int| 0 <= y < x ==> (#[trigger] details@[y])@ == decimal(frame_counts@[y] as nat),
        decreases frame_counts.len() - x,
    {
        details.push(decimal_string(frame_counts[x]));
        x = x + 1;
    }
    assert(texts(details@) =~= count_texts(frame_counts@));
    similarity_groups(true, paths, sizes, &details, links)
}

} // verus!
