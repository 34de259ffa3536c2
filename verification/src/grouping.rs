//! Grouping: indices that share a key, and the connected components of a set
//! of links between indices (union-find).
use vstd::prelude::*;

verus! {

/// A key that can be compared for equality of its view.
pub trait GroupKey: View + Sized {
    fn same_key(&self, other: &Self) -> (r: bool)
        ensures
            r == (self@ == other@);
}

impl GroupKey for u64 {
    fn same_key(&self, other: &Self) -> (r: bool) {
        *self == *other
    }
}

impl GroupKey for usize {
    fn same_key(&self, other: &Self) -> (r: bool) {
        *self == *other
    }
}

impl GroupKey for (u64, u64) {
    fn same_key(&self, other: &Self) -> (r: bool) {
        self.0 == other.0 && self.1 == other.1
    }
}

impl GroupKey for String {
    fn same_key(&self, other: &Self) -> (r: bool) {
        *self == *other
    }
}

/// The views of optional keys.
pub open spec fn key_views<K: View>(keys: Seq<Option<K>>) -> Seq<Option<K::V>> {
    keys.map_values(|k: Option<K>| match k {
        Some(x) => Some(x@),
        None => None,
    })
}

/// `groups` gathers the indices of `keys` that share a present key: each group
/// holds every index with its key, in increasing order; only keys held by two or
/// more indices form a group; groups come in the order of their first index.
pub open spec fn is_key_grouping<V>(keys: Seq<Option<V>>, groups: Seq<Seq<usize>>) -> bool {
    &&& forall|g: int| 0 <= g < groups.len() ==> (#[trigger] groups[g]).len() >= 2
    &&& forall|g: int, m: int| 0 <= g < groups.len() && 0 <= m < groups[g].len() ==> {
            &&& (#[trigger] groups[g][m]) < keys.len()
            &&& keys[groups[g][m] as int] is Some
            &&& keys[groups[g][m] as int] == keys[groups[g][0] as int]
        }
    &&& forall|g: int, m1: int, m2: int| 0 <= g < groups.len() && 0 <= m1 < m2 < groups[g].len()
            ==> #[trigger] groups[g][m1] < #[trigger] groups[g][m2]
    &&& forall|g: int, i: int| 0 <= g < groups.len() && 0 <= i < keys.len()
            && #[trigger] keys[i] == keys[(#[trigger] groups[g])[0] as int] ==> groups[g].contains(i as usize)
    &&& forall|g1: int, g2: int| 0 <= g1 < g2 < groups.len() ==> (#[trigger] groups[g1])[0] < (#[trigger] groups[g2])[0]
    &&& forall|i: int, j: int| 0 <= i < keys.len() && 0 <= j < keys.len() && i != j
            && (#[trigger] keys[i]) is Some && #[trigger] keys[j] == keys[i]
            ==> exists|g: int| 0 <= g < groups.len() && groups[g].contains(i as usize)
}

/// Gathers the indices of `keys` that share a present key (see `is_key_grouping`).
pub fn group_by_key<K: GroupKey>(keys: &Vec<Option<K>>) -> (groups: Vec<Vec<usize>>)
    ensures
        is_key_grouping(key_views(keys@), groups@.map_values(|g: Vec<usize>| g@)),
{
    let ghost kv = key_views(keys@);
    let n = keys.len();
    let mut groups: Vec<Vec<usize>> = Vec::new();
    let mut i: usize = 0;
    while i < n
        invariant
            n == keys.len(),
            kv == key_views(keys@),
            kv.len() == n,
            i <= n,
            forall|g: int| 0 <= g < groups.len() ==> (#[trigger] groups@[g])@.len() >= 2,
            forall|g: int, m: int| 0 <= g < groups.len() && 0 <= m < groups@[g]@.len() ==> {
                &&& (#[trigger] groups@[g]@[m]) < n
                &&& kv[groups@[g]@[m] as int] is Some
                &&& kv[groups@[g]@[m] as int] == kv[groups@[g]@[0] as int]
            },
            forall|g: int, m1: int, m2: int| 0 <= g < groups.len() && 0 <= m1 < m2 < groups@[g]@.len()
                ==> #[trigger] groups@[g]@[m1] < #[trigger] groups@[g]@[m2],
            forall|g: int, j: int| 0 <= g < groups.len() && 0 <= j < n
                && #[trigger] kv[j] == kv[(#[trigger] groups@[g])@[0] as int] ==> groups@[g]@.contains(j as usize),
            forall|g1: int, g2: int| 0 <= g1 < g2 < groups.len() ==> (#[trigger] groups@[g1])@[0] < (#[trigger] groups@[g2])@[0],
            forall|g: int| 0 <= g < groups.len() ==> (#[trigger] groups@[g])@[0] < i,
            forall|g: int, j: int| 0 <= g < groups.len() && 0 <= j < (#[trigger] groups@[g])@[0] ==> #[trigger] kv[j] != kv[groups@[g]@[0] as int],
            forall|a: int, j: int| 0 <= a < i && 0 <= j < n && a != j && (#[trigger] kv[a]) is Some && #[trigger] kv[j] == kv[a]
                ==> exists|g: int| 0 <= g < groups.len() && groups@[g]@.contains(a as usize),
        decreases n - i,
    {
        assert(kv[i as int] == match keys@[i as int] { Some(x) => Some(x@), None => None::<K::V> });
        let ghost groups0 = groups@;
        match &keys[i] {
            None => {
                assert((kv[i as int] is Some && (exists|j: int| 0 <= j < n && j != i && #[trigger] kv[j] == kv[i as int])) ==> exists|g: int| 0 <= g < groups.len() && groups@[g]@.contains(i));
            },
            Some(key) => {
                // Is there an earlier index with the same key?
                let mut seen = false;
                let mut j: usize = 0;
                while j < i
                    invariant
                        n == keys.len(),
                        kv == key_views(keys@),
                        kv.len() == n,
                        i < n,
                        j <= i,
                        keys@[i as int] == Some(*key),
                        !seen ==> forall|a: int| 0 <= a < j ==> kv[a] != kv[i as int],
                        seen ==> exists|a: int| 0 <= a < i && kv[a] == kv[i as int],
                    decreases i - j,
                {
                    assert(kv[j as int] == match keys@[j as int] { Some(x) => Some(x@), None => None::<K::V> });
                    if let Some(other) = &keys[j] {
                        if other.same_key(key) {
                            seen = true;
                        }
                    }
                    j = j + 1;
                }
                if !seen {
                    let mut members: Vec<usize> = Vec::new();
                    members.push(i);
                    assert(members@[0] == i);
                    let mut j: usize = i + 1;
                    while j < n
                        invariant
                            n == keys.len(),
                            kv == key_views(keys@),
                            kv.len() == n,
                            i < j <= n,
                            keys@[i as int] == Some(*key),
                            members@.len() >= 1,
                            members@[0] == i,
                            forall|m: int| 0 <= m < members@.len() ==> i <= #[trigger] members@[m] < j && kv[members@[m] as int] == kv[i as int],
                            forall|m1: int, m2: int| 0 <= m1 < m2 < members@.len() ==> #[trigger] members@[m1] < #[trigger] members@[m2],
                            forall|b: int| i <= b < j && kv[b] == kv[i as int] ==> members@.contains(b as usize),
                        decreases n - j,
                    {
                        assert(kv[j as int] == match keys@[j as int] { Some(x) => Some(x@), None => None::<K::V> });
                        let ghost mold = members@;
                        if let Some(other) = &keys[j] {
                            if other.same_key(key) {
                                members.push(j);
                                assert(members@[members@.len() - 1] == j);
                            }
                        }
                        proof {
                            assert forall|b: int| i <= b < j + 1 && kv[b] == kv[i as int] implies members@.contains(b as usize) by {
                                if b < j {
                                    assert(mold.contains(b as usize));
                                    let m = choose|m: int| 0 <= m < mold.len() && mold[m] == b as usize;
                                    assert(members@[m] == b as usize);
                                } else {
                                    assert(members@[members@.len() - 1] == j);
                                }
                            }
                        }
                        j = j + 1;
                    }
                    if members.len() >= 2 {
                        let ghost ms = members@;
                        groups.push(members);
                        proof {
                            let gl = groups.len() - 1;
                            assert(groups@[gl as int]@ == ms);
                            assert forall|b: int| 0 <= b < n && #[trigger] kv[b] == kv[i as int] implies ms.contains(b as usize) by {
                                if b < i {
                                    assert(false);
                                }
                            }
                            assert(ms[0] == i);
                            assert(groups@[gl as int]@.contains(i));
                            assert((kv[i as int] is Some && (exists|j: int| 0 <= j < n && j != i && #[trigger] kv[j] == kv[i as int])) ==> exists|g: int| 0 <= g < groups.len() && groups@[g]@.contains(i));
                        }
                    } else {
                        proof {
                            assert forall|b: int| 0 <= b < n && b != i implies kv[b] != kv[i as int] by {
                                if b > i && kv[b] == kv[i as int] {
                                    assert(members@.contains(b as usize));
                                    let m = choose|m: int| 0 <= m < members@.len() && members@[m] == b as usize;
                                }
                            }
                            assert((kv[i as int] is Some && (exists|j: int| 0 <= j < n && j != i && #[trigger] kv[j] == kv[i as int])) ==> exists|g: int| 0 <= g < groups.len() && groups@[g]@.contains(i));
                        }
                    }
                } else {
                    proof {
                        let a = choose|a: int| 0 <= a < i && kv[a] == kv[i as int];
                        assert(kv[a] is Some);
                        let g = choose|g: int| 0 <= g < groups.len() && groups@[g]@.contains(a as usize);
                        let m = choose|m: int| 0 <= m < groups@[g]@.len() && groups@[g]@[m] == a as usize;
                        assert(kv[groups@[g]@[m] as int] == kv[groups@[g]@[0] as int]);
                        assert(groups@[g]@.contains(i));
                        assert((kv[i as int] is Some && (exists|j: int| 0 <= j < n && j != i && #[trigger] kv[j] == kv[i as int])) ==> exists|g: int| 0 <= g < groups.len() && groups@[g]@.contains(i));
                    }
                }
            },
        }
        proof {
            assert forall|a: int, j: int| 0 <= a < i + 1 && 0 <= j < n && a != j && (#[trigger] kv[a]) is Some && #[trigger] kv[j] == kv[a]
                implies exists|g: int| 0 <= g < groups.len() && groups@[g]@.contains(a as usize) by {
                if a == i {
                    assert(kv[j] == kv[i as int]);
                    assert((kv[i as int] is Some && (exists|j: int| 0 <= j < n && j != i && #[trigger] kv[j] == kv[i as int])) ==> exists|g: int| 0 <= g < groups.len() && groups@[g]@.contains(i));
                } else {
                    let g = choose|g: int| 0 <= g < groups0.len() && groups0[g]@.contains(a as usize);
                    assert(groups@[g] == groups0[g]);
                }
            }
        }
        i = i + 1;
    }
    proof {
        let gs = groups@.map_values(|g: Vec<usize>| g@);
        assert forall|g: int| 0 <= g < gs.len() implies #[trigger] gs[g] == groups@[g]@ by {}
        assert forall|i: int, j: int| 0 <= i < kv.len() && 0 <= j < kv.len() && i != j
            && (#[trigger] kv[i]) is Some && #[trigger] kv[j] == kv[i]
            implies exists|g: int| 0 <= g < gs.len() && gs[g].contains(i as usize) by {
            let g = choose|g: int| 0 <= g < groups.len() && groups@[g]@.contains(i as usize);
            assert(gs[g] == groups@[g]@);
        }
    }
    groups
}

/// The groups of positions mapped to the items at those positions.
pub open spec fn map_groups(groups: Seq<Seq<usize>>, items: Seq<usize>) -> Seq<Seq<usize>> {
    groups.map_values(|g: Seq<usize>| g.map_values(|p: usize| items[p as int]))
}

/// The views of nested vectors.
pub open spec fn nested_view(v: Seq<Vec<usize>>) -> Seq<Seq<usize>> {
    v.map_values(|g: Vec<usize>| g@)
}

/// Groups the items `cands` by the key at their position (see `is_key_grouping`).
pub fn group_items<K: GroupKey>(cands: &Vec<usize>, keys: &Vec<Option<K>>) -> (r: Vec<Vec<usize>>)
    requires
        keys.len() == cands.len(),
    ensures
        exists|groups: Seq<Seq<usize>>| is_key_grouping(key_views(keys@), groups)
            && nested_view(r@) == map_groups(groups, cands@),
{
    let groups = group_by_key(keys);
    let ghost gs = groups@.map_values(|g: Vec<usize>| g@);
    let mut out: Vec<Vec<usize>> = Vec::new();
    let mut g: usize = 0;
    while g < groups.len()
        invariant
            keys.len() == cands.len(),
            gs == groups@.map_values(|g: Vec<usize>| g@),
            is_key_grouping(key_views(keys@), gs),
            g <= groups.len(),
            out.len() == g,
            forall|h: int| 0 <= h < g ==> (#[trigger] out@[h])@ == gs[h].map_values(|p: usize| cands@[p as int]),
        decreases groups.len() - g,
    {
        let members = &groups[g];
        assert(gs[g as int] == members@);
        let mut mapped: Vec<usize> = Vec::new();
        let mut m: usize = 0;
        while m < members.len()
            invariant
                keys.len() == cands.len(),
                gs[g as int] == members@,
                is_key_grouping(key_views(keys@), gs),
                0 <= g < gs.len(),
                m <= members.len(),
                mapped@ == members@.take(m as int).map_values(|p: usize| cands@[p as int]),
            decreases members.len() - m,
        {
            assert(gs[g as int][m as int] < key_views(keys@).len());
            mapped.push(cands[members[m]]);
            assert(members@.take(m + 1).map_values(|p: usize| cands@[p as int])
                =~= members@.take(m as int).map_values(|p: usize| cands@[p as int]).push(cands@[members@[m as int] as int]));
            m = m + 1;
        }
        assert(members@.take(members.len() as int) =~= members@);
        out.push(mapped);
        g = g + 1;
    }
    assert(nested_view(out@) =~= map_groups(gs, cands@));
    out
}

/// All members of the groups, group after group.
pub fn flatten_groups(groups: &Vec<Vec<usize>>) -> (r: Vec<usize>)
    ensures
        r@ == nested_view(groups@).flatten(),
{
    let mut out: Vec<usize> = Vec::new();
    let mut g: usize = 0;
    while g < groups.len()
        invariant
            g <= groups.len(),
            out@ == nested_view(groups@).take(g as int).flatten(),
        decreases groups.len() - g,
    {
        let ghost before = out@;
        let mut m: usize = 0;
        while m < groups[g].len()
            invariant
                g < groups.len(),
                m <= groups[g as int].len(),
                out@ == before + groups[g as int]@.take(m as int),
            decreases groups[g as int].len() - m,
        {
            out.push(groups[g][m]);
            assert(before + groups[g as int]@.take(m as int).push(groups[g as int]@[m as int]) =~= before + groups[g as int]@.take(m + 1));
            m = m + 1;
        }
        proof {
            let nv = nested_view(groups@);
            assert(groups[g as int]@.take(groups[g as int]@.len() as int) =~= groups[g as int]@);
            assert(nv.take(g + 1).drop_last() =~= nv.take(g as int));
            assert(nv.take(g + 1).last() == groups[g as int]@);
            nv.take(g as int).lemma_flatten_push(groups[g as int]@);
            assert(nv.take(g as int).push(groups[g as int]@) =~= nv.take(g + 1));
        }
        g = g + 1;
    }
    assert(nested_view(groups@).take(groups.len() as int) =~= nested_view(groups@));
    out
}

/// Some link joins `x` and `y`, in either direction.
pub open spec fn adjacent(links: Seq<(usize, usize, bool)>, x: int, y: int) -> bool {
    exists|k: int| 0 <= k < links.len() && ((#[trigger] links[k]).0 == x && links[k].1 == y || links[k].0 == y && links[k].1 == x)
}

/// `w` is a walk along links.
pub open spec fn is_walk(links: Seq<(usize, usize, bool)>, w: Seq<int>) -> bool {
    &&& w.len() >= 1
    &&& forall|k: int| #![trigger w[k]] 0 <= k < w.len() - 1 ==> adjacent(links, w[k], w[k + 1])
}

/// `x` and `y` are joined by a chain of links.
pub open spec fn linked(links: Seq<(usize, usize, bool)>, x: int, y: int) -> bool {
    exists|w: Seq<int>| #[trigger] is_walk(links, w) && w[0] == x && w[w.len() - 1] == y
}

pub proof fn lemma_linked_refl(links: Seq<(usize, usize, bool)>, x: int)
    ensures
        linked(links, x, x),
{
    let w = seq![x];
    assert(is_walk(links, w));
}

pub proof fn lemma_linked_link(links: Seq<(usize, usize, bool)>, k: int)
    requires
        0 <= k < links.len(),
    ensures
        linked(links, links[k].0 as int, links[k].1 as int),
        linked(links, links[k].1 as int, links[k].0 as int),
{
    let a = links[k].0 as int;
    let b = links[k].1 as int;
    let w = seq![a, b];
    assert(adjacent(links, a, b));
    assert(is_walk(links, w));
    let w2 = seq![b, a];
    assert(adjacent(links, b, a));
    assert(is_walk(links, w2));
}

pub proof fn lemma_linked_trans(links: Seq<(usize, usize, bool)>, x: int, y: int, z: int)
    requires
        linked(links, x, y),
        linked(links, y, z),
    ensures
        linked(links, x, z),
{
    let w1 = choose|w: Seq<int>| #[trigger] is_walk(links, w) && w[0] == x && w[w.len() - 1] == y;
    let w2 = choose|w: Seq<int>| #[trigger] is_walk(links, w) && w[0] == y && w[w.len() - 1] == z;
    let w = w1 + w2.drop_first();
    assert forall|k: int| #![trigger w[k]] 0 <= k < w.len() - 1 implies adjacent(links, w[k], w[k + 1]) by {
        if k < w1.len() - 1 {
            assert(w[k] == w1[k] && w[k + 1] == w1[k + 1]);
        } else if k == w1.len() - 1 {
            assert(w[k] == w2[0] && w[k + 1] == w2[1]);
            assert(adjacent(links, w2[0], w2[1]));
        } else {
            let k2 = k - w1.len() + 1;
            assert(w[k] == w2[k2] && w[k + 1] == w2[k2 + 1]);
            assert(adjacent(links, w2[k2], w2[k2 + 1]));
        }
    }
    assert(is_walk(links, w));
    if w2.len() == 1 {
        assert(w =~= w1);
    }
}

pub proof fn lemma_linked_sym(links: Seq<(usize, usize, bool)>, x: int, y: int)
    requires
        linked(links, x, y),
    ensures
        linked(links, y, x),
{
    let w = choose|w: Seq<int>| #[trigger] is_walk(links, w) && w[0] == x && w[w.len() - 1] == y;
    let r = w.reverse();
    assert forall|k: int| #![trigger r[k]] 0 <= k < r.len() - 1 implies adjacent(links, r[k], r[k + 1]) by {
        let j = w.len() - 2 - k;
        assert(r[k] == w[j + 1] && r[k + 1] == w[j]);
        assert(adjacent(links, w[j], w[j + 1]));
        let kk = choose|kk: int| 0 <= kk < links.len() && ((#[trigger] links[kk]).0 == w[j] && links[kk].1 == w[j + 1] || links[kk].0 == w[j + 1] && links[kk].1 == w[j]);
        assert(links[kk] == links[kk]);
    }
    assert(is_walk(links, r));
}

proof fn lemma_linked_prefix(links: Seq<(usize, usize, bool)>, m: int, x: int, y: int)
    requires
        0 <= m <= links.len(),
        linked(links.take(m), x, y),
    ensures
        linked(links, x, y),
{
    let p = links.take(m);
    let w = choose|w: Seq<int>| #[trigger] is_walk(p, w) && w[0] == x && w[w.len() - 1] == y;
    assert forall|k: int| #![trigger w[k]] 0 <= k < w.len() - 1 implies adjacent(links, w[k], w[k + 1]) by {
        assert(adjacent(p, w[k], w[k + 1]));
        let kk = choose|kk: int| 0 <= kk < p.len() && ((#[trigger] p[kk]).0 == w[k] && p[kk].1 == w[k + 1] || p[kk].0 == w[k + 1] && p[kk].1 == w[k]);
        assert(links[kk] == p[kk]);
    }
    assert(is_walk(links, w));
}

proof fn lemma_walk_constant(links: Seq<(usize, usize, bool)>, root: Seq<int>, w: Seq<int>, k: int)
    requires
        is_walk(links, w),
        forall|j: int| 0 <= j < links.len() ==> root[(#[trigger] links[j]).0 as int] == root[links[j].1 as int],
        0 <= k < w.len(),
    ensures
        root[w[k]] == root[w[0]],
    decreases k,
{
    if k > 0 {
        lemma_walk_constant(links, root, w, k - 1);
        assert(adjacent(links, w[k - 1], w[k]));
        let kk = choose|kk: int| 0 <= kk < links.len() && ((#[trigger] links[kk]).0 == w[k - 1] && links[kk].1 == w[k] || links[kk].0 == w[k] && links[kk].1 == w[k - 1]);
        assert(root[links[kk].0 as int] == root[links[kk].1 as int]);
    }
}

/// A union-find forest with ghost class labels and depths.
struct Dsu {
    parent: Vec<usize>,
    root: Ghost<Seq<int>>,
    depth: Ghost<Seq<nat>>,
}

impl Dsu {
    spec fn wf(&self) -> bool {
        let n = self.parent.len();
        let p = self.parent@;
        let r = self.root@;
        let d = self.depth@;
        &&& r.len() == n
        &&& d.len() == n
        &&& forall|x: int| 0 <= x < n ==> (#[trigger] p[x]) < n
        &&& forall|x: int| 0 <= x < n ==> 0 <= #[trigger] r[x] < n
        &&& forall|x: int| 0 <= x < n && #[trigger] p[x] == x ==> r[x] == x && d[x] == 0
        &&& forall|x: int| 0 <= x < n && #[trigger] p[x] != x ==> d[x] == d[p[x] as int] + 1 && r[x] == r[p[x] as int]
        &&& forall|x: int| 0 <= x < n ==> p[(#[trigger] r[x])] == r[x]
    }

    fn new(n: usize) -> (s: Dsu)
        ensures
            s.wf(),
            s.parent.len() == n,
            forall|x: int| 0 <= x < n ==> #[trigger] s.root@[x] == x,
    {
        let mut parent: Vec<usize> = Vec::new();
        let mut i: usize = 0;
        while i < n
            invariant
                i <= n,
                parent.len() == i,
                forall|x: int| 0 <= x < i ==> parent@[x] == x,
            decreases n - i,
        {
            parent.push(i);
            i = i + 1;
        }
        Dsu { parent, root: Ghost(Seq::new(n as nat, |x: int| x)), depth: Ghost(Seq::new(n as nat, |x: int| 0nat)) }
    }

    fn find(&self, x: usize) -> (r: usize)
        requires
            self.wf(),
            x < self.parent.len(),
        ensures
            r == self.root@[x as int],
    {
        let mut cur = x;
        while self.parent[cur] != cur
            invariant
                self.wf(),
                cur < self.parent.len(),
                self.root@[cur as int] == self.root@[x as int],
            decreases self.depth@[cur as int],
        {
            cur = self.parent[cur];
        }
        cur
    }

    /// Makes root `b` the parent of root `a`.
    fn join(&mut self, a: usize, b: usize)
        requires
            old(self).wf(),
            a < old(self).parent.len(),
            b < old(self).parent.len(),
            old(self).root@[a as int] == a,
            old(self).root@[b as int] == b,
            a != b,
        ensures
            final(self).wf(),
            final(self).parent.len() == old(self).parent.len(),
            forall|x: int| 0 <= x < old(self).parent.len() ==> #[trigger] final(self).root@[x]
                == if old(self).root@[x] == a { b as int } else { old(self).root@[x] },
    {
        let n = self.parent.len();
        let ghost r0 = self.root@;
        let ghost d0 = self.depth@;
        let ghost p0 = self.parent@;
        self.parent.set(a, b);
        proof {
            self.root@ = Seq::new(n as nat, |x: int| if r0[x] == a { b as int } else { r0[x] });
            self.depth@ = Seq::new(n as nat, |x: int| if r0[x] == a { d0[x] + 1 } else { d0[x] });
            let p = self.parent@;
            assert(p0[a as int] == a);
            assert(p0[b as int] == b);
            assert forall|x: int| 0 <= x < n && #[trigger] p[x] != x implies
                self.depth@[x] == self.depth@[p[x] as int] + 1 && self.root@[x] == self.root@[p[x] as int] by {
                if x == a {
                } else {
                    assert(p[x] == p0[x]);
                    assert(p0[x] != x);
                }
            }
            assert forall|x: int| 0 <= x < n && #[trigger] p[x] == x implies self.root@[x] == x && self.depth@[x] == 0 by {
                assert(x != a);
                assert(p0[x] == x);
            }
            assert forall|x: int| 0 <= x < n implies p[(#[trigger] self.root@[x])] == self.root@[x] by {
                assert(0 <= r0[x] < n);
                if r0[x] != a {
                    assert(p0[r0[x]] == r0[x]);
                    assert(p[r0[x]] == p0[r0[x]]);
                } else {
                    assert(p[b as int] == b);
                }
            }
            assert forall|x: int| 0 <= x < n implies 0 <= #[trigger] self.root@[x] < n by {
                assert(0 <= r0[x] < n);
            }
            assert forall|x: int| 0 <= x < n implies (#[trigger] p[x]) < n by {
                if x != a {
                    assert(p[x] == p0[x]);
                }
            }
        }
    }
}

#[verifier::rlimit(60)]
/// Joins indices `0..n` along `links` and returns, for each index, the
/// representative of its class and, for each representative, whether some far
/// link lies in its class.
pub fn link_components(n: usize, links: &Vec<(usize, usize, bool)>) -> (r: (Vec<usize>, Vec<bool>))
    requires
        forall|k: int| 0 <= k < links.len() ==> (#[trigger] links@[k]).0 < n && links@[k].1 < n,
    ensures
        r.0.len() == n,
        r.1.len() == n,
        forall|x: int| 0 <= x < n ==> (#[trigger] r.0@[x]) < n,
        forall|x: int, y: int| 0 <= x < n && 0 <= y < n ==> (#[trigger] r.0@[x] == #[trigger] r.0@[y] <==> linked(links@, x, y)),
        forall|x: int| 0 <= x < n ==> (#[trigger] r.1@[r.0@[x] as int] <==> exists|k: int| 0 <= k < links.len()
            && (#[trigger] links@[k]).2 && linked(links@, links@[k].0 as int, x)),
{
    let mut dsu = Dsu::new(n);
    let mut k: usize = 0;
    proof {
        assert forall|x: int, y: int| 0 <= x < n && 0 <= y < n && #[trigger] dsu.root@[x] == #[trigger] dsu.root@[y]
            implies linked(links@.take(0), x, y) by {
            lemma_linked_refl(links@.take(0), x);
        }
    }
    while k < links.len()
        invariant
            dsu.wf(),
            dsu.parent.len() == n,
            k <= links.len(),
            forall|j: int| 0 <= j < links.len() ==> (#[trigger] links@[j]).0 < n && links@[j].1 < n,
            forall|j: int| 0 <= j < k ==> dsu.root@[(#[trigger] links@[j]).0 as int] == dsu.root@[links@[j].1 as int],
            forall|x: int, y: int| 0 <= x < n && 0 <= y < n && #[trigger] dsu.root@[x] == #[trigger] dsu.root@[y]
                ==> linked(links@.take(k as int), x, y),
        decreases links.len() - k,
    {
        let (a, b, far) = links[k];
        let ghost r0 = dsu.root@;
        let ghost lk = links@.take(k as int);
        let ghost lk1 = links@.take(k + 1);
        assert(lk1[k as int] == links@[k as int]);
        proof {
            lemma_linked_link(lk1, k as int);
            assert forall|x: int, y: int| 0 <= x < n && 0 <= y < n && linked(lk, x, y) implies linked(lk1, x, y) by {
                assert(lk1.take(k as int) == lk);
                lemma_linked_prefix(lk1, k as int, x, y);
            }
        }
        let pa = dsu.find(a);
        let pb = dsu.find(b);
        if pa != pb {
            dsu.join(pa, pb);
            proof {
                assert forall|x: int, y: int| 0 <= x < n && 0 <= y < n && #[trigger] dsu.root@[x] == #[trigger] dsu.root@[y]
                    implies linked(lk1, x, y) by {
                    if r0[x] == r0[y] {
                    } else if r0[x] == pa {
                        assert(r0[y] == pb);
                        lemma_linked_trans(lk1, x, a as int, b as int);
                        lemma_linked_sym(lk1, y, b as int);
                        assert(linked(lk, b as int, y));
                        lemma_linked_trans(lk1, x, b as int, y);
                    } else {
                        assert(r0[y] == pa && r0[x] == pb);
                        assert(linked(lk, x, b as int));
                        lemma_linked_trans(lk1, x, b as int, a as int);
                        assert(linked(lk, a as int, y));
                        lemma_linked_trans(lk1, x, a as int, y);
                    }
                }
            }
        } else {
            proof {
                assert forall|x: int, y: int| 0 <= x < n && 0 <= y < n && #[trigger] dsu.root@[x] == #[trigger] dsu.root@[y]
                    implies linked(lk1, x, y) by {
                }
            }
        }
        proof {
            assert forall|j: int| 0 <= j < k + 1 implies dsu.root@[(#[trigger] links@[j]).0 as int] == dsu.root@[links@[j].1 as int] by {
                if j < k {
                    assert(r0[links@[j].0 as int] == r0[links@[j].1 as int]);
                }
            }
        }
        k = k + 1;
    }
    let mut roots: Vec<usize> = Vec::new();
    let mut x: usize = 0;
    while x < n
        invariant
            dsu.wf(),
            dsu.parent.len() == n,
            x <= n,
            roots.len() == x,
            forall|y: int| 0 <= y < x ==> roots@[y] == dsu.root@[y],
        decreases n - x,
    {
        roots.push(dsu.find(x));
        x = x + 1;
    }
    proof {
        assert(links@.take(links.len() as int) == links@);
        assert forall|x: int, y: int| 0 <= x < n && 0 <= y < n implies (#[trigger] roots@[x] == #[trigger] roots@[y] <==> linked(links@, x, y)) by {
            if linked(links@, x, y) {
                let w = choose|w: Seq<int>| #[trigger] is_walk(links@, w) && w[0] == x && w[w.len() - 1] == y;
                lemma_walk_constant(links@, dsu.root@, w, w.len() - 1);
            }
        }
    }
    let mut far: Vec<bool> = Vec::new();
    let mut x: usize = 0;
    while x < n
        invariant
            x <= n,
            far.len() == x,
            forall|y: int| 0 <= y < x ==> !far@[y],
        decreases n - x,
    {
        far.push(false);
        x = x + 1;
    }
    let mut j: usize = 0;
    while j < links.len()
        invariant
            roots.len() == n,
            far.len() == n,
            j <= links.len(),
            forall|y: int| 0 <= y < n ==> (#[trigger] roots@[y]) < n,
            forall|i: int| 0 <= i < links.len() ==> (#[trigger] links@[i]).0 < n && links@[i].1 < n,
            forall|q: int| 0 <= q < n ==> (#[trigger] far@[q] <==> exists|i: int| 0 <= i < j && (#[trigger] links@[i]).2
                && roots@[links@[i].0 as int] == q),
        decreases links.len() - j,
    {
        let (a, _b, f) = links[j];
        let ghost far0 = far@;
        if f {
            let q = roots[a];
            far.set(q, true);
        }
        proof {
            assert forall|q: int| 0 <= q < n implies (#[trigger] far@[q] <==> exists|i: int| 0 <= i < j + 1
                && (#[trigger] links@[i]).2 && roots@[links@[i].0 as int] == q) by {
                if far0[q] {
                    let i = choose|i: int| 0 <= i < j && (#[trigger] links@[i]).2 && roots@[links@[i].0 as int] == q;
                    assert(links@[i].2);
                }
                if exists|i: int| 0 <= i < j + 1 && (#[trigger] links@[i]).2 && roots@[links@[i].0 as int] == q {
                    let i = choose|i: int| 0 <= i < j + 1 && (#[trigger] links@[i]).2 && roots@[links@[i].0 as int] == q;
                    if i < j {
                        assert(far0[q]);
                    }
                }
            }
        }
        j = j + 1;
    }
    proof {
        assert forall|x: int| 0 <= x < n implies (#[trigger] far@[roots@[x] as int] <==> exists|k: int| 0 <= k < links.len()
            && (#[trigger] links@[k]).2 && linked(links@, links@[k].0 as int, x)) by {
            let q = roots@[x] as int;
            if far@[q] {
                let i = choose|i: int| 0 <= i < links.len() && (#[trigger] links@[i]).2 && roots@[links@[i].0 as int] == q;
                assert(linked(links@, links@[i].0 as int, x));
            }
            if exists|k: int| 0 <= k < links.len() && (#[trigger] links@[k]).2 && linked(links@, links@[k].0 as int, x) {
                let k = choose|k: int| 0 <= k < links.len() && (#[trigger] links@[k]).2 && linked(links@, links@[k].0 as int, x);
                assert(roots@[links@[k].0 as int] == roots@[x]);
                assert(links@[k].2);
            }
        }
    }
    (roots, far)
}
} // verus!
