//! The meeting resolver: where travellers that start together from the queried
//! cities, at one road per unit of time, can all stand at the same moment.

use vstd::prelude::*;

use crate::forest::{
    ancestor, cities_in_tree, city_ok, forest_ok, lemma_ancestor, tree_size_of, CityView, Kingdom,
};

verus! {

/// Climbing from `a` and `b` in lockstep, `s` levels already done and at most
/// `fuel` more: the number of levels after which both stand on one city.
pub open spec fn meet_climb(f: Seq<CityView>, a: int, b: int, s: nat, fuel: nat) -> nat
    decreases fuel,
{
    if ancestor(f, a, s) == ancestor(f, b, s) || fuel == 0 {
        s
    } else {
        meet_climb(f, a, b, s + 1, (fuel - 1) as nat)
    }
}

/// For two cities of equal depth: the fewest levels to climb from both to a common ancestor.
pub open spec fn lockstep_climb(f: Seq<CityView>, a: int, b: int) -> nat {
    meet_climb(f, a, b, 0, f[a].depth)
}

/// `v` and the `n - 1` cities above it, from the bottom up.
pub open spec fn climb_seq(f: Seq<CityView>, v: int, n: nat) -> Seq<int> {
    Seq::new(n, |k: int| ancestor(f, v, k as nat))
}

/// Levels climbed from `a` and from `b` to their lowest common ancestor.
pub open spec fn climbs(f: Seq<CityView>, a: int, b: int) -> (nat, nat) {
    let da = f[a].depth;
    let db = f[b].depth;
    if da >= db {
        let s = lockstep_climb(f, ancestor(f, a, (da - db) as nat), b);
        (((da - db) + s) as nat, s)
    } else {
        let s = lockstep_climb(f, a, ancestor(f, b, (db - da) as nat));
        (s, ((db - da) + s) as nat)
    }
}

/// The cities on the shortest path from `a` to `b`, both included.
pub open spec fn path_between(f: Seq<CityView>, a: int, b: int) -> Seq<int> {
    let (ua, ub) = climbs(f, a, b);
    Seq::new(ua + 1, |i: int| ancestor(f, a, i as nat)) + Seq::new(
        ub,
        |j: int| ancestor(f, b, (ub - 1 - j) as nat),
    )
}

/// A meeting point: the city, the time at which the travellers reach it, and
/// the neighbours they come from, which no one may walk back to.
pub struct Meet {
    pub city: int,
    pub time: int,
    pub back: Seq<int>,
}

/// Travellers from `a` and `b`, of equal depth, meet where their climbs first join.
pub open spec fn meet_same_depth(f: Seq<CityView>, a: int, b: int) -> Meet {
    let s = lockstep_climb(f, a, b);
    Meet {
        city: ancestor(f, a, s),
        time: s as int,
        back: seq![ancestor(f, a, (s - 1) as nat), ancestor(f, b, (s - 1) as nat)],
    }
}

/// Travellers from `deep` and from a shallower city, at an even distance,
/// meet halfway, on the climb from `deep`.
pub open spec fn meet_two_depths(f: Seq<CityView>, deep: int, shallow: int) -> Meet {
    let diff = (f[deep].depth - f[shallow].depth) as nat;
    let t = diff / 2 + lockstep_climb(f, ancestor(f, deep, diff), shallow);
    Meet {
        city: ancestor(f, deep, t as nat),
        time: t as int,
        back: seq![ancestor(f, deep, (t - 1) as nat), ancestor(f, deep, (t + 1) as nat)],
    }
}

/// Where travellers from two distinct cities of one tree meet, or `None` when
/// the road distance between them is odd.
pub open spec fn pair_meet(f: Seq<CityView>, a: int, b: int) -> Option<Meet> {
    if f[a].depth == f[b].depth {
        Some(meet_same_depth(f, a, b))
    } else if (f[a].depth + f[b].depth) % 2 == 1 {
        None
    } else if f[a].depth > f[b].depth {
        Some(meet_two_depths(f, a, b))
    } else {
        Some(meet_two_depths(f, b, a))
    }
}

/// `dst` followed by the ids of `src` it lacks, in the order of `src`.
pub open spec fn union_ids(dst: Seq<int>, src: Seq<int>) -> Seq<int>
    decreases src.len(),
{
    if src.len() == 0 {
        dst
    } else {
        let d = union_ids(dst, src.drop_last());
        if d.contains(src.last()) {
            d
        } else {
            d.push(src.last())
        }
    }
}

/// Joins the meeting point `m` of the travellers seen so far with the meeting
/// point `c` of one more pair, or `None` when no city and time suit both.
///
/// On the path from `m.city` to `c.city` the joint point lies where the times
/// agree; none may walk back towards a city it came from.
pub open spec fn merge(f: Seq<CityView>, m: Meet, c: Meet) -> Option<Meet> {
    if m.city == c.city {
        if m.time != c.time {
            None
        } else {
            Some(Meet { back: union_ids(m.back, c.back), ..m })
        }
    } else {
        let p = path_between(f, m.city, c.city);
        let last = p.len() - 1;
        if m.time > last + c.time {
            None
        } else if (last + c.time - m.time) % 2 != 0 {
            None
        } else {
            let pos = (last + c.time - m.time) / 2;
            if pos > last {
                None
            } else if (pos > 0 && m.back.contains(p[1])) || (pos < last && c.back.contains(
                p[last - 1],
            )) {
                None
            } else {
                Some(
                    Meet {
                        city: p[pos],
                        time: m.time + pos,
                        back: if pos == 0 {
                            union_ids(m.back, seq![p[1]])
                        } else if pos == last {
                            union_ids(c.back, seq![p[last - 1]])
                        } else {
                            seq![p[pos - 1], p[pos + 1]]
                        },
                    },
                )
            }
        }
    }
}

/// `v` lies in the subtree rooted at `root`.
pub open spec fn in_subtree(f: Seq<CityView>, root: int, v: int) -> bool {
    f[v].depth >= f[root].depth && ancestor(f, v, (f[v].depth - f[root].depth) as nat) == root
}

/// `v` lies beyond the neighbour `e` of `m`, seen from `m`.
pub open spec fn behind(f: Seq<CityView>, m: int, e: int, v: int) -> bool {
    if in_subtree(f, m, e) {
        in_subtree(f, e, v)
    } else {
        !in_subtree(f, m, v)
    }
}

/// From the meeting point, the travellers can go on together to `v`: it is in
/// the same tree and behind none of the neighbours they came from.
pub open spec fn reachable(f: Seq<CityView>, m: Meet, v: int) -> bool {
    &&& f[v].tree == f[m.city].tree
    &&& forall|i: int| 0 <= i < m.back.len() ==> !behind(f, m.city, #[trigger] m.back[i], v)
}

/// Number of cities among the first `k` that are reachable from the meeting point.
pub open spec fn region_count(f: Seq<CityView>, m: Meet, k: int) -> nat
    decreases k,
{
    if k <= 0 {
        0
    } else {
        region_count(f, m, k - 1) + if reachable(f, m, k - 1) { 1nat } else { 0nat }
    }
}

/// The progress of a query after some pairs: `None` once the travellers are
/// known unable to meet, `Some(None)` while no pair of distinct cities has
/// been seen, and `Some(Some(m))` with the meeting point of all pairs so far.
pub open spec fn step(f: Seq<CityView>, st: Option<Option<Meet>>, a: int, b: int) -> Option<
    Option<Meet>,
> {
    match st {
        None => None,
        Some(cur) => if a == b {
            st
        } else {
            match pair_meet(f, a, b) {
                None => None,
                Some(c) => match cur {
                    None => Some(Some(c)),
                    Some(m) => match merge(f, m, c) {
                        None => None,
                        Some(x) => Some(Some(x)),
                    },
                },
            }
        },
    }
}

/// Progress after the pairs `(q[i], q[j'])` with `i < j' < j`, from `st`.
pub open spec fn row(f: Seq<CityView>, q: Seq<int>, i: int, j: int, st: Option<Option<Meet>>) -> Option<
    Option<Meet>,
>
    decreases j - i,
{
    if j <= i + 1 {
        st
    } else {
        step(f, row(f, q, i, j - 1, st), q[i], q[j - 1])
    }
}

/// Progress after every pair whose first city stands before position `i` of the query.
pub open spec fn rows(f: Seq<CityView>, q: Seq<int>, i: int) -> Option<Option<Meet>>
    decreases i,
{
    if i <= 0 {
        Some(None)
    } else {
        row(f, q, i - 1, q.len() as int, rows(f, q, i - 1))
    }
}

/// All the queried cities lie in the tree of the first one.
pub open spec fn same_tree(f: Seq<CityView>, q: Seq<int>) -> bool {
    forall|k: int| 0 <= k < q.len() ==> f[#[trigger] q[k]].tree == f[q[0]].tree
}

/// City ids of a query, counted from 1, as indices counted from 0.
pub open spec fn query_indices(query: Seq<usize>) -> Seq<int> {
    query.map_values(|x: usize| x as int - 1)
}

/// The answer to a query of city indices: the number of cities where all its
/// travellers can stand at the same moment. None when the cities lie in
/// different trees or cannot meet; the whole tree when all of them start from
/// one city; otherwise the cities reachable from the joint meeting point.
pub open spec fn answer(f: Seq<CityView>, q: Seq<int>) -> nat {
    if !same_tree(f, q) {
        0
    } else {
        match rows(f, q, q.len() as int) {
            None => 0,
            Some(None) => tree_size_of(f, f[q[0]].tree),
            Some(Some(m)) => region_count(f, m, f.len() as int),
        }
    }
}

/// A meeting point lies in tree `t`, and so do the cities it forbids; its time
/// and depth add up to the depth of a queried city, less than the number of cities.
pub open spec fn meet_ok(f: Seq<CityView>, m: Meet, t: nat) -> bool {
    &&& 0 <= m.city < f.len()
    &&& f[m.city].tree == t
    &&& 0 <= m.time
    &&& m.time + f[m.city].depth < f.len()
    &&& forall|i: int| 0 <= i < m.back.len() ==> 0 <= #[trigger] m.back[i] < f.len()
}

/// City ids as integers.
pub open spec fn ids(v: Seq<usize>) -> Seq<int> {
    v.map_values(|x: usize| x as int)
}

/// A meeting point as the resolver computes it.
struct MeetingPoint {
    city_id: usize,
    traveled_distance: usize,
    dont_go_back_to: Vec<usize>,
}

spec fn opt_view(o: Option<MeetingPoint>) -> Option<Meet> {
    match o {
        None => None,
        Some(m) => Some(m@),
    }
}

impl View for MeetingPoint {
    type V = Meet;

    closed spec fn view(&self) -> Meet {
        Meet {
            city: self.city_id as int,
            time: self.traveled_distance as int,
            back: ids(self.dont_go_back_to@),
        }
    }
}

proof fn lemma_union_ids(dst: Seq<int>, src: Seq<int>)
    ensures
        forall|i: int|
            0 <= i < union_ids(dst, src).len() ==> dst.contains(#[trigger] union_ids(dst, src)[i])
                || src.contains(union_ids(dst, src)[i]),
    decreases src.len(),
{
    if src.len() > 0 {
        let s1 = src.drop_last();
        lemma_union_ids(dst, s1);
        let u = union_ids(dst, s1);
        assert forall|i: int| 0 <= i < union_ids(dst, src).len() implies dst.contains(
            #[trigger] union_ids(dst, src)[i],
        ) || src.contains(union_ids(dst, src)[i]) by {
            if i < u.len() {
                if s1.contains(u[i]) {
                    let k = choose|k: int| 0 <= k < s1.len() && s1[k] == u[i];
                    assert(src[k] == u[i]);
                }
            } else {
                assert(src[src.len() - 1] == src.last());
            }
        }
    }
}

proof fn lemma_row_stays_none(
    f: Seq<CityView>,
    q: Seq<int>,
    i: int,
    j: int,
    j2: int,
    st: Option<Option<Meet>>,
)
    requires
        i + 1 <= j <= j2,
        row(f, q, i, j, st) is None,
    ensures
        row(f, q, i, j2, st) is None,
    decreases j2 - j,
{
    if j2 > j {
        lemma_row_stays_none(f, q, i, j, j2 - 1, st);
    }
}

proof fn lemma_row_of_none(f: Seq<CityView>, q: Seq<int>, i: int, j: int)
    ensures
        row(f, q, i, j, None) is None,
    decreases j - i,
{
    if j > i + 1 {
        lemma_row_of_none(f, q, i, j - 1);
    }
}

/// Once some pair of row `i` cannot meet, no later pair changes that.
proof fn lemma_rejection_final(f: Seq<CityView>, q: Seq<int>, i: int, j: int, k: int)
    requires
        0 <= i < q.len(),
        i + 1 <= j <= q.len(),
        row(f, q, i, j, rows(f, q, i)) is None,
        i < k <= q.len(),
    ensures
        rows(f, q, k) is None,
    decreases k - i,
{
    if k == i + 1 {
        lemma_row_stays_none(f, q, i, j, q.len() as int, rows(f, q, i));
    } else {
        lemma_rejection_final(f, q, i, j, k - 1);
        lemma_row_of_none(f, q, k - 1, q.len() as int);
    }
}

proof fn lemma_ids_push(v: Seq<usize>, x: usize)
    ensures
        ids(v.push(x)) == ids(v).push(x as int),
{
    assert(ids(v.push(x)) =~= ids(v).push(x as int));
}

proof fn lemma_ids_drop_last(v: Seq<usize>)
    requires
        v.len() > 0,
    ensures
        ids(v.drop_last()) == ids(v).drop_last(),
        ids(v).last() == v.last() as int,
{
    assert(ids(v.drop_last()) =~= ids(v).drop_last());
}

proof fn lemma_climb_seq_push(f: Seq<CityView>, v: int, n: nat)
    ensures
        climb_seq(f, v, n + 1) == climb_seq(f, v, n).push(ancestor(f, v, n)),
{
    assert(climb_seq(f, v, n + 1) =~= climb_seq(f, v, n).push(ancestor(f, v, n)));
}

proof fn lemma_ancestor_add(f: Seq<CityView>, v: int, k1: nat, k2: nat)
    ensures
        ancestor(f, ancestor(f, v, k1), k2) == ancestor(f, v, k1 + k2),
    decreases k2,
{
    if k2 > 0 {
        lemma_ancestor_add(f, v, k1, (k2 - 1) as nat);
    }
}

/// The path between two cities of one tree runs from one to the other through
/// cities of that tree.
proof fn lemma_path(f: Seq<CityView>, a: int, b: int)
    requires
        forest_ok(f),
        0 <= a < f.len(),
        0 <= b < f.len(),
        f[a].tree == f[b].tree,
    ensures
        climbs(f, a, b).0 <= f[a].depth,
        climbs(f, a, b).1 <= f[b].depth,
        path_between(f, a, b).len() == climbs(f, a, b).0 + climbs(f, a, b).1 + 1,
        path_between(f, a, b)[0] == a,
        path_between(f, a, b).last() == b,
        forall|i: int|
            0 <= i <= climbs(f, a, b).0 ==> f[#[trigger] path_between(f, a, b)[i]].depth == f[a].depth
                - i,
        forall|i: int|
            climbs(f, a, b).0 < i < path_between(f, a, b).len() ==> f[#[trigger] path_between(
                f,
                a,
                b,
            )[i]].depth == f[b].depth - (path_between(f, a, b).len() - 1 - i),
        forall|i: int|
            0 <= i < path_between(f, a, b).len() ==> 0 <= #[trigger] path_between(f, a, b)[i]
                < f.len() && f[path_between(f, a, b)[i]].tree == f[a].tree,
{
    let da = f[a].depth;
    let db = f[b].depth;
    let (ua, ub) = climbs(f, a, b);
    let p = path_between(f, a, b);
    if da >= db {
        let a1 = ancestor(f, a, (da - db) as nat);
        lemma_ancestor(f, a, (da - db) as nat);
        lemma_meet_climb_bound(f, a1, b, 0, db);
        lemma_lockstep_joins(f, a1, b, 0);
        lemma_ancestor_add(f, a, (da - db) as nat, ub);
    } else {
        let b1 = ancestor(f, b, (db - da) as nat);
        lemma_ancestor(f, b, (db - da) as nat);
        lemma_meet_climb_bound(f, a, b1, 0, da);
        lemma_lockstep_joins(f, a, b1, 0);
        lemma_ancestor_add(f, b, (db - da) as nat, ua);
    }
    assert forall|i: int| 0 <= i < p.len() implies 0 <= #[trigger] p[i] < f.len() && f[p[i]].tree
        == f[a].tree && (i <= ua ==> f[p[i]].depth == f[a].depth - i) && (i > ua ==> f[p[i]].depth
        == f[b].depth - (p.len() - 1 - i)) by {
        if i <= ua {
            lemma_ancestor(f, a, i as nat);
        } else {
            lemma_ancestor(f, b, (ub - 1 - (i - ua - 1)) as nat);
        }
    }
}

/// Two roots of one tree are one city.
proof fn lemma_one_root(f: Seq<CityView>, a: int, b: int)
    requires
        forest_ok(f),
        0 <= a < f.len(),
        0 <= b < f.len(),
        f[a].depth == 0,
        f[b].depth == 0,
        f[a].tree == f[b].tree,
    ensures
        a == b,
{
    assert(city_ok(f, a));
    assert(city_ok(f, b));
}

proof fn lemma_meet_climb_bound(f: Seq<CityView>, a: int, b: int, s: nat, fuel: nat)
    ensures
        s <= meet_climb(f, a, b, s, fuel) <= s + fuel,
    decreases fuel,
{
    if !(ancestor(f, a, s) == ancestor(f, b, s) || fuel == 0) {
        lemma_meet_climb_bound(f, a, b, s + 1, (fuel - 1) as nat);
    }
}

/// Two cities of equal depth in one tree do join, after `lockstep_climb` levels.
proof fn lemma_lockstep_joins(f: Seq<CityView>, a: int, b: int, s: nat)
    requires
        forest_ok(f),
        0 <= a < f.len(),
        0 <= b < f.len(),
        f[a].depth == f[b].depth,
        f[a].tree == f[b].tree,
        s <= f[a].depth,
    ensures
        ancestor(f, a, meet_climb(f, a, b, s, (f[a].depth - s) as nat)) == ancestor(
            f,
            b,
            meet_climb(f, a, b, s, (f[a].depth - s) as nat),
        ),
        meet_climb(f, a, b, s, (f[a].depth - s) as nat) <= f[a].depth,
    decreases f[a].depth - s,
{
    lemma_ancestor(f, a, s);
    lemma_ancestor(f, b, s);
    if ancestor(f, a, s) != ancestor(f, b, s) {
        if s == f[a].depth {
            lemma_one_root(f, ancestor(f, a, s), ancestor(f, b, s));
        } else {
            lemma_lockstep_joins(f, a, b, s + 1);
        }
    }
}

/// Whether `v` holds `x`.
fn contains_id(v: &Vec<usize>, x: usize) -> (r: bool)
    ensures
        r == ids(v@).contains(x as int),
{
    let mut k: usize = 0;
    while k < v.len()
        invariant
            k <= v@.len(),
            forall|i: int| 0 <= i < k ==> v@[i] != x,
        decreases v@.len() - k,
    {
        if v[k] == x {
            assert(ids(v@)[k as int] == x as int);
            return true;
        }
        k += 1;
    }
    assert forall|i: int| 0 <= i < ids(v@).len() implies ids(v@)[i] != x as int by {
        assert(v@[i] != x);
    }
    false
}

/// Appends to `vec_dst` the ids of `vec_src` it does not hold yet.
fn union_vec_ids(vec_dst: &mut Vec<usize>, vec_src: &Vec<usize>)
    ensures
        ids(final(vec_dst)@) == union_ids(ids(old(vec_dst)@), ids(vec_src@)),
{
    let ghost d0 = ids(vec_dst@);
    let ghost src = ids(vec_src@);
    let mut k: usize = 0;
    while k < vec_src.len()
        invariant
            k <= vec_src@.len(),
            src == ids(vec_src@),
            ids(vec_dst@) == union_ids(d0, src.take(k as int)),
        decreases vec_src@.len() - k,
    {
        let e = vec_src[k];
        proof {
            assert(src.take(k + 1).drop_last() =~= src.take(k as int));
            assert(src.take(k + 1).last() == e as int);
        }
        if !contains_id(vec_dst, e) {
            proof {
                lemma_ids_push(vec_dst@, e);
            }
            vec_dst.push(e);
        }
        k += 1;
    }
    assert(src.take(k as int) =~= src);
}

impl Kingdom {
    /// Answers a query: the number of cities where travellers setting off
    /// together from every queried city (ids counted from 1) can all arrive at
    /// the same moment. The kingdom itself is left as it was; only tree sizes
    /// may be kept for later queries.
    #[verifier::rlimit(40)]
    pub fn solve(&mut self, query: Vec<usize>) -> (r: usize)
        requires
            old(self).wf(),
            query@.len() >= 1,
            forall|k: int| 0 <= k < query@.len() ==> 1 <= #[trigger] query@[k] <= old(self)@.len(),
        ensures
            final(self).wf(),
            final(self)@ == old(self)@,
            old(self).sizes().submap_of(final(self).sizes()),
            r == answer(old(self)@, query_indices(query@)),
    {
        let ghost f = self@;
        let ghost q = query_indices(query@);
        let first = query[0] - 1;
        let first_tree_id = self.tree_at(first);
        if query.len() == 1 {
            assert(same_tree(f, q));
            assert(rows(f, q, 1) == row(f, q, 0, 1, rows(f, q, 0)));
            return self.tree_size(first_tree_id);
        }
        let mut k: usize = 1;
        while k < query.len()
            invariant
                self.wf(),
                f == self@,
                f == old(self)@,
                self.sizes() == old(self).sizes(),
                q == query_indices(query@),
                query@.len() >= 1,
                forall|k: int| 0 <= k < query@.len() ==> 1 <= #[trigger] query@[k] <= f.len(),
                first_tree_id == f[q[0]].tree,
                1 <= k <= query@.len(),
                forall|l: int| 0 <= l < k ==> f[#[trigger] q[l]].tree == first_tree_id,
            decreases query@.len() - k,
        {
            assert(q[k as int] == query@[k as int] - 1);
            if self.tree_at(query[k] - 1) != first_tree_id {
                assert(!same_tree(f, q));
                return 0;
            }
            k += 1;
        }
        assert(same_tree(f, q));
        let mut merged: Option<MeetingPoint> = None;
        let mut i: usize = 0;
        while i < query.len()
            invariant
                self.wf(),
                f == self@,
                f == old(self)@,
                self.sizes() == old(self).sizes(),
                same_tree(f, q),
                q == query_indices(query@),
                forall|k: int| 0 <= k < query@.len() ==> 1 <= #[trigger] query@[k] <= f.len(),
                forall|l: int| 0 <= l < q.len() ==> f[#[trigger] q[l]].tree == first_tree_id,
                i <= query@.len(),
                rows(f, q, i as int) == Some(opt_view(merged)),
                merged matches Some(m) ==> m.city_id < f.len() && meet_ok(
                    f,
                    m@,
                    first_tree_id as nat,
                ) && f[m.city_id as int].tree == first_tree_id,
            decreases query@.len() - i,
        {
            let id_i = query[i] - 1;
            let depth_i = self.depth_at(id_i);
            let ghost st_i = rows(f, q, i as int);
            let mut j: usize = i + 1;
            while j < query.len()
                invariant
                    self.wf(),
                    f == self@,
                    f == old(self)@,
                    self.sizes() == old(self).sizes(),
                    same_tree(f, q),
                    q == query_indices(query@),
                    forall|k: int| 0 <= k < query@.len() ==> 1 <= #[trigger] query@[k] <= f.len(),
                    forall|l: int| 0 <= l < q.len() ==> f[#[trigger] q[l]].tree == first_tree_id,
                    i < query@.len(),
                    id_i == q[i as int],
                    depth_i == f[id_i as int].depth,
                    st_i == rows(f, q, i as int),
                    i + 1 <= j <= query@.len(),
                    row(f, q, i as int, j as int, st_i) == Some(opt_view(merged)),
                    merged matches Some(m) ==> m.city_id < f.len() && meet_ok(
                        f,
                        m@,
                        first_tree_id as nat,
                    ) && f[m.city_id as int].tree == first_tree_id,
                decreases query@.len() - j,
            {
                let id_j = query[j] - 1;
                assert(id_j == q[j as int]);
                if id_i != id_j {
                    let depth_j = self.depth_at(id_j);
                    proof {
                        assert(city_ok(f, id_i as int));
                        assert(city_ok(f, id_j as int));
                    }
                    let current = if depth_i != depth_j {
                        if (depth_i + depth_j) % 2 == 1 {
                            proof {
                                lemma_rejection_final(f, q, i as int, j + 1, q.len() as int);
                            }
                            return 0;
                        }
                        if depth_i < depth_j {
                            self.find_meeting_point_from_two_depths(id_j, id_i, depth_j, depth_i)
                        } else {
                            self.find_meeting_point_from_two_depths(id_i, id_j, depth_i, depth_j)
                        }
                    } else {
                        self.find_meeting_point_from_one_depth(id_i, id_j)
                    };
                    assert(pair_meet(f, id_i as int, id_j as int) == Some(current@));
                    merged = match merged {
                        None => Some(current),
                        Some(m) => match self.merge_meeting_points(m, current) {
                            None => {
                                proof {
                                    lemma_rejection_final(f, q, i as int, j + 1, q.len() as int);
                                }
                                return 0;
                            },
                            Some(x) => Some(x),
                        },
                    };
                }
                j += 1;
            }
            i += 1;
        }
        match merged {
            None => self.tree_size(first_tree_id),
            Some(m) => self.count_reachable_cities(&m),
        }
    }

    /// The city `k` levels above `city_id`.
    fn climb(&self, city_id: usize, k: usize) -> (r: usize)
        requires
            self.wf(),
            city_id < self@.len(),
            k <= self@[city_id as int].depth,
        ensures
            r as int == ancestor(self@, city_id as int, k as nat),
    {
        let mut x = city_id;
        let mut i: usize = 0;
        while i < k
            invariant
                self.wf(),
                city_id < self@.len(),
                k <= self@[city_id as int].depth,
                i <= k,
                x as int == ancestor(self@, city_id as int, i as nat),
            decreases k - i,
        {
            proof {
                lemma_ancestor(self@, city_id as int, i as nat);
            }
            x = self.parent_id(x);
            i += 1;
        }
        x
    }

    /// Meeting point of two cities of one tree whose depths differ by an even
    /// number: halfway between them, on the climb from the deeper one.
    fn find_meeting_point_from_two_depths(
        &self,
        deepest_city_id: usize,
        shallowest_city_id: usize,
        deepest_city_depth: usize,
        shallowest_city_depth: usize,
    ) -> (r: MeetingPoint)
        requires
            self.wf(),
            deepest_city_id < self@.len(),
            shallowest_city_id < self@.len(),
            deepest_city_depth == self@[deepest_city_id as int].depth,
            shallowest_city_depth == self@[shallowest_city_id as int].depth,
            deepest_city_depth > shallowest_city_depth,
            (deepest_city_depth + shallowest_city_depth) % 2 == 0,
            self@[deepest_city_id as int].tree == self@[shallowest_city_id as int].tree,
        ensures
            r@ == meet_two_depths(self@, deepest_city_id as int, shallowest_city_id as int),
            1 <= r.traveled_distance,
            meet_ok(self@, r@, self@[deepest_city_id as int].tree),
    {
        let ghost f = self@;
        let ghost deep = deepest_city_id as int;
        let depth_diff = deepest_city_depth - shallowest_city_depth;
        let lifted = self.climb(deepest_city_id, depth_diff);
        proof {
            lemma_ancestor(f, deep, depth_diff as nat);
            assert(city_ok(f, deep));
        }
        let traveled_distance = if lifted != shallowest_city_id {
            let mp = self.find_meeting_point_from_one_depth(lifted, shallowest_city_id);
            depth_diff / 2 + mp.traveled_distance
        } else {
            depth_diff / 2
        };
        assert(traveled_distance == depth_diff / 2 + lockstep_climb(
            f,
            lifted as int,
            shallowest_city_id as int,
        ));
        let child_city_id = self.climb(deepest_city_id, traveled_distance - 1);
        proof {
            lemma_ancestor(f, deep, (traveled_distance - 1) as nat);
        }
        let city_id = self.parent_id(child_city_id);
        proof {
            lemma_ancestor(f, deep, traveled_distance as nat);
        }
        let beyond_city_id = self.parent_id(city_id);
        proof {
            lemma_ancestor(f, deep, (traveled_distance + 1) as nat);
        }
        let r = MeetingPoint {
            city_id,
            traveled_distance,
            dont_go_back_to: vec![child_city_id, beyond_city_id],
        };
        assert(r@.back =~= seq![child_city_id as int, beyond_city_id as int]);
        assert(r@.back[0] == child_city_id as int && r@.back[1] == beyond_city_id as int);
        r
    }

    /// The cities on the shortest path from `city_id_1` to `city_id_2`, both
    /// included: climb from the deeper one to the other's depth, then from both
    /// in lockstep to their lowest common ancestor.
    fn collect_cities_between(&self, city_id_1: usize, city_id_2: usize) -> (r: Vec<usize>)
        requires
            self.wf(),
            city_id_1 < self@.len(),
            city_id_2 < self@.len(),
            self@[city_id_1 as int].tree == self@[city_id_2 as int].tree,
        ensures
            ids(r@) == path_between(self@, city_id_1 as int, city_id_2 as int),
    {
        let ghost f = self@;
        let ghost a = city_id_1 as int;
        let ghost b = city_id_2 as int;
        let depth_1 = self.depth_at(city_id_1);
        let depth_2 = self.depth_at(city_id_2);
        let mut x = city_id_1;
        let mut y = city_id_2;
        let mut i: usize = 0;
        let mut j: usize = 0;
        let mut ret: Vec<usize> = vec![city_id_1];
        let mut ter: Vec<usize> = vec![city_id_2];
        proof {
            assert(ids(ret@) =~= climb_seq(f, a, 1));
            assert(ids(ter@) =~= climb_seq(f, b, 1));
        }
        while i + depth_2 < depth_1
            invariant
                self.wf(),
                f == self@,
                0 <= a < f.len(),
                0 <= b < f.len(),
                depth_1 == f[a].depth,
                depth_2 == f[b].depth,
                j == 0,
                y == city_id_2,
                i + depth_2 <= depth_1 || i == 0,
                x as int == ancestor(f, a, i as nat),
                ids(ret@) =~= climb_seq(f, a, (i + 1) as nat),
                ids(ter@) =~= climb_seq(f, b, 1),
            decreases depth_1 - i,
        {
            proof {
                lemma_ancestor(f, a, i as nat);
            }
            x = self.parent_id(x);
            proof {
                lemma_ids_push(ret@, x);
                lemma_climb_seq_push(f, a, (i + 1) as nat);
            }
            i += 1;
            ret.push(x);
        }
        while j + depth_1 < depth_2
            invariant
                self.wf(),
                f == self@,
                0 <= a < f.len(),
                0 <= b < f.len(),
                depth_1 == f[a].depth,
                depth_2 == f[b].depth,
                i == (if depth_1 >= depth_2 { depth_1 - depth_2 } else { 0 }),
                j + depth_1 <= depth_2 || j == 0,
                x as int == ancestor(f, a, i as nat),
                y as int == ancestor(f, b, j as nat),
                ids(ret@) =~= climb_seq(f, a, (i + 1) as nat),
                ids(ter@) =~= climb_seq(f, b, (j + 1) as nat),
            decreases depth_2 - j,
        {
            proof {
                lemma_ancestor(f, b, j as nat);
            }
            y = self.parent_id(y);
            proof {
                lemma_ids_push(ter@, y);
                lemma_climb_seq_push(f, b, (j + 1) as nat);
            }
            j += 1;
            ter.push(y);
        }
        let ghost i0 = i as nat;
        let ghost j0 = j as nat;
        let ghost a1 = x as int;
        let ghost b1 = y as int;
        proof {
            lemma_ancestor(f, a, i0);
            lemma_ancestor(f, b, j0);
            lemma_path(f, a, b);
        }
        let ghost d1 = f[a1].depth;
        proof {
            assert(city_ok(f, a));
            assert(city_ok(f, b));
        }
        while x != y
            invariant
                i0 + d1 == f[a].depth,
                j0 + d1 == f[b].depth,
                f[a].depth < f.len(),
                f[b].depth < f.len(),
                self.wf(),
                f == self@,
                0 <= a < f.len(),
                0 <= b < f.len(),
                0 <= a1 < f.len(),
                0 <= b1 < f.len(),
                a1 == ancestor(f, a, i0),
                b1 == ancestor(f, b, j0),
                d1 == f[a1].depth,
                f[a1].depth == f[b1].depth,
                f[a1].tree == f[b1].tree,
                i0 <= i,
                i - i0 == j - j0,
                i - i0 <= d1,
                d1 < f.len(),
                f.len() <= crate::forest::MAX_CITIES,
                x as int == ancestor(f, a1, (i - i0) as nat),
                y as int == ancestor(f, b1, (j - j0) as nat),
                x as int == ancestor(f, a, i as nat),
                y as int == ancestor(f, b, j as nat),
                meet_climb(f, a1, b1, (i - i0) as nat, (d1 - (i - i0)) as nat)
                    == lockstep_climb(f, a1, b1),
                ids(ret@) =~= climb_seq(f, a, (i + 1) as nat),
                ids(ter@) =~= climb_seq(f, b, (j + 1) as nat),
            decreases d1 - (i - i0),
        {
            proof {
                lemma_ancestor(f, a1, (i - i0) as nat);
                lemma_ancestor(f, b1, (j - j0) as nat);
                if i - i0 == d1 {
                    lemma_one_root(f, x as int, y as int);
                }
                lemma_ancestor_add(f, a, i0, (i - i0 + 1) as nat);
                lemma_ancestor_add(f, b, j0, (j - j0 + 1) as nat);
            }
            x = self.parent_id(x);
            y = self.parent_id(y);
            proof {
                lemma_ids_push(ret@, x);
                lemma_climb_seq_push(f, a, (i + 1) as nat);
                lemma_ids_push(ter@, y);
                lemma_climb_seq_push(f, b, (j + 1) as nat);
            }
            i += 1;
            ret.push(x);
            j += 1;
            ter.push(y);
        }
        let ghost ua = i as nat;
        let ghost ub = j as nat;
        assert(climbs(f, a, b) == (ua, ub));
        proof {
            lemma_ids_drop_last(ter@);
            lemma_climb_seq_push(f, b, ub);
        }
        ter.pop();
        while ter.len() > 0
            invariant
                ids(ret@) =~= climb_seq(f, a, (ua + 1) as nat) + Seq::new(
                    (ub - ter@.len()) as nat,
                    |k: int| ancestor(f, b, (ub - 1 - k) as nat),
                ),
                ids(ter@) =~= climb_seq(f, b, (ter@.len()) as nat),
                ter@.len() <= ub,
            decreases ter@.len(),
        {
            let ghost before = ter@;
            proof {
                lemma_ids_drop_last(ter@);
                lemma_climb_seq_push(f, b, (ter@.len() - 1) as nat);
                lemma_ids_push(ret@, ter@.last());
            }
            let c = ter.pop().unwrap();
            ret.push(c);
            assert(ids(ret@) =~= climb_seq(f, a, (ua + 1) as nat) + Seq::new(
                (ub - ter@.len()) as nat,
                |k: int| ancestor(f, b, (ub - 1 - k) as nat),
            ));
        }
        ret
    }

    /// Joins the meeting point of the travellers seen so far with that of one
    /// more pair, or `None` when they cannot all meet.
    fn merge_meeting_points(&self, merged: MeetingPoint, current: MeetingPoint) -> (r: Option<
        MeetingPoint,
    >)
        requires
            self.wf(),
            merged.city_id < self@.len(),
            meet_ok(self@, merged@, self@[merged.city_id as int].tree),
            meet_ok(self@, current@, self@[merged.city_id as int].tree),
        ensures
            r is None <==> merge(self@, merged@, current@) is None,
            r is Some ==> merge(self@, merged@, current@) == Some(r.unwrap()@) && meet_ok(
                self@,
                r.unwrap()@,
                self@[merged.city_id as int].tree,
            ),
    {
        let ghost f = self@;
        let ghost m = merged@;
        let ghost c = current@;
        let ghost t = f[m.city].tree;
        let MeetingPoint {
            city_id: merged_city_id,
            traveled_distance: merged_traveled,
            dont_go_back_to: mut merged_back,
        } = merged;
        let MeetingPoint {
            city_id: current_city_id,
            traveled_distance: current_traveled,
            dont_go_back_to: mut current_back,
        } = current;
        if merged_city_id == current_city_id {
            if merged_traveled != current_traveled {
                return None;
            }
            union_vec_ids(&mut merged_back, &current_back);
            let r = MeetingPoint {
                city_id: merged_city_id,
                traveled_distance: merged_traveled,
                dont_go_back_to: merged_back,
            };
            proof {
                lemma_union_ids(m.back, c.back);
            }
            return Some(r);
        }
        let path = self.collect_cities_between(merged_city_id, current_city_id);
        let ghost p = path_between(f, m.city, c.city);
        proof {
            lemma_path(f, m.city, c.city);
            assert(city_ok(f, m.city));
            assert(city_ok(f, c.city));
            assert(ids(path@)[0] == path@[0] as int);
            assert(ids(path@)[path@.len() - 1] == path@[path@.len() - 1] as int);
        }
        let last_index = path.len() - 1;
        if merged_traveled > last_index + current_traveled {
            return None;
        }
        let twice = last_index + current_traveled - merged_traveled;
        if twice % 2 != 0 {
            return None;
        }
        let pos = twice / 2;
        if pos > last_index {
            return None;
        }
        proof {
            assert(ids(path@)[1] == path@[1] as int);
            assert(ids(path@)[last_index - 1] == path@[last_index - 1] as int);
            assert(ids(path@)[pos as int] == path@[pos as int] as int);
        }
        if (pos > 0 && contains_id(&merged_back, path[1])) || (pos < last_index && contains_id(
            &current_back,
            path[last_index - 1],
        )) {
            return None;
        }
        let dont_go_back_to = if pos == 0 {
            let step = vec![path[1]];
            proof {
                assert(ids(step@) =~= seq![p[1]]);
                lemma_union_ids(m.back, seq![p[1]]);
            }
            union_vec_ids(&mut merged_back, &step);
            merged_back
        } else if pos == last_index {
            let step = vec![path[last_index - 1]];
            proof {
                assert(ids(step@) =~= seq![p[last_index - 1]]);
                lemma_union_ids(c.back, seq![p[last_index - 1]]);
            }
            union_vec_ids(&mut current_back, &step);
            current_back
        } else {
            proof {
                assert(ids(path@)[pos - 1] == path@[pos - 1] as int);
                assert(ids(path@)[pos + 1] == path@[pos + 1] as int);
            }
            let around = vec![path[pos - 1], path[pos + 1]];
            assert(ids(around@) =~= seq![p[pos - 1], p[pos + 1]]);
            around
        };
        let r = MeetingPoint {
            city_id: path[pos],
            traveled_distance: merged_traveled + pos,
            dont_go_back_to,
        };
        Some(r)
    }

    /// Whether `v` lies in the subtree rooted at `root`.
    fn is_in_subtree(&self, root: usize, v: usize) -> (r: bool)
        requires
            self.wf(),
            root < self@.len(),
            v < self@.len(),
        ensures
            r == in_subtree(self@, root as int, v as int),
    {
        let depth_root = self.depth_at(root);
        let depth_v = self.depth_at(v);
        if depth_v < depth_root {
            false
        } else {
            self.climb(v, depth_v - depth_root) == root
        }
    }

    /// Number of cities the travellers can reach together from the meeting
    /// point, never walking back towards a city they came from.
    fn count_reachable_cities(&self, mp: &MeetingPoint) -> (r: usize)
        requires
            self.wf(),
            mp.city_id < self@.len(),
            meet_ok(self@, mp@, self@[mp.city_id as int].tree),
        ensures
            r == region_count(self@, mp@, self@.len() as int),
    {
        let ghost f = self@;
        let ghost m = mp@;
        let n = self.number_of_cities();
        let tree_id = self.tree_at(mp.city_id);
        let mut count: usize = 0;
        let mut v: usize = 0;
        while v < n
            invariant
                self.wf(),
                f == self@,
                m == mp@,
                n == f.len(),
                mp.city_id < n,
                tree_id == f[m.city].tree,
                meet_ok(f, m, tree_id as nat),
                v <= n,
                count <= v,
                count == region_count(f, m, v as int),
            decreases n - v,
        {
            if self.tree_at(v) == tree_id {
                let mut open = true;
                let mut k: usize = 0;
                while k < mp.dont_go_back_to.len()
                    invariant
                        self.wf(),
                        f == self@,
                        m == mp@,
                        n == f.len(),
                        mp.city_id < n,
                        v < n,
                        meet_ok(f, m, tree_id as nat),
                        k <= mp.dont_go_back_to@.len(),
                        open == forall|i: int|
                            0 <= i < k ==> !behind(f, m.city, #[trigger] m.back[i], v as int),
                    decreases mp.dont_go_back_to@.len() - k,
                {
                    let e = mp.dont_go_back_to[k];
                    assert(m.back[k as int] == e as int);
                    let beyond = if self.is_in_subtree(mp.city_id, e) {
                        self.is_in_subtree(e, v)
                    } else {
                        !self.is_in_subtree(mp.city_id, v)
                    };
                    if beyond {
                        open = false;
                    }
                    k += 1;
                }
                if open {
                    count += 1;
                }
            }
            v += 1;
        }
        count
    }

    /// Meeting point of two distinct cities of equal depth in one tree: climb
    /// from both in lockstep until they stand on the same city.
    fn find_meeting_point_from_one_depth(&self, city_id_1: usize, city_id_2: usize) -> (r:
        MeetingPoint)
        requires
            self.wf(),
            city_id_1 < self@.len(),
            city_id_2 < self@.len(),
            city_id_1 != city_id_2,
            self@[city_id_1 as int].depth == self@[city_id_2 as int].depth,
            self@[city_id_1 as int].tree == self@[city_id_2 as int].tree,
        ensures
            r@ == meet_same_depth(self@, city_id_1 as int, city_id_2 as int),
            1 <= r.traveled_distance <= self@[city_id_1 as int].depth,
            meet_ok(self@, r@, self@[city_id_1 as int].tree),
    {
        let ghost f = self@;
        let ghost a = city_id_1 as int;
        let ghost b = city_id_2 as int;
        let ghost d = f[a].depth;
        let mut x = city_id_1;
        let mut y = city_id_2;
        let mut child_x = city_id_1;
        let mut child_y = city_id_2;
        let mut traveled_distance: usize = 0;
        proof {
            assert(city_ok(f, a));
        }
        while x != y
            invariant
                self.wf(),
                f == self@,
                d < f.len(),
                0 <= a < f.len(),
                0 <= b < f.len(),
                d == f[a].depth,
                f[a].depth == f[b].depth,
                f[a].tree == f[b].tree,
                traveled_distance <= d,
                x as int == ancestor(f, a, traveled_distance as nat),
                y as int == ancestor(f, b, traveled_distance as nat),
                traveled_distance > 0 ==> child_x as int == ancestor(
                    f,
                    a,
                    (traveled_distance - 1) as nat,
                ),
                traveled_distance > 0 ==> child_y as int == ancestor(
                    f,
                    b,
                    (traveled_distance - 1) as nat,
                ),
                traveled_distance == 0 ==> x != y,
                meet_climb(f, a, b, traveled_distance as nat, (d - traveled_distance) as nat)
                    == lockstep_climb(f, a, b),
            decreases d - traveled_distance,
        {
            proof {
                lemma_ancestor(f, a, traveled_distance as nat);
                lemma_ancestor(f, b, traveled_distance as nat);
                if traveled_distance == d {
                    lemma_one_root(f, x as int, y as int);
                }
            }
            child_x = x;
            child_y = y;
            x = self.parent_id(x);
            y = self.parent_id(y);
            traveled_distance += 1;
        }
        proof {
            lemma_ancestor(f, a, traveled_distance as nat);
            lemma_ancestor(f, a, (traveled_distance - 1) as nat);
            lemma_ancestor(f, b, (traveled_distance - 1) as nat);
        }
        let mut dont_go_back_to: Vec<usize> = Vec::new();
        dont_go_back_to.push(child_x);
        dont_go_back_to.push(child_y);
        let r = MeetingPoint { city_id: x, traveled_distance, dont_go_back_to };
        assert(r@.back =~= seq![child_x as int, child_y as int]);
        assert(r@.back[0] == child_x as int && r@.back[1] == child_y as int);
        r
    }
}

/// A query of a single city is answered by the number of cities of its tree,
/// and so by the same number whichever city of that tree it names.
pub proof fn lemma_single_city_query(f: Seq<CityView>, a: int, b: int)
    requires
        forest_ok(f),
        0 <= a < f.len(),
        0 <= b < f.len(),
        f[a].tree == f[b].tree,
    ensures
        answer(f, seq![a]) == tree_size_of(f, f[a].tree),
        answer(f, seq![a]) == answer(f, seq![b]),
{
    let qa = seq![a];
    let qb = seq![b];
    assert(same_tree(f, qa));
    assert(same_tree(f, qb));
    assert(rows(f, qa, 1) == row(f, qa, 0, 1, rows(f, qa, 0)));
    assert(rows(f, qb, 1) == row(f, qb, 0, 1, rows(f, qb, 0)));
}

/// Two queried cities whose depths add up to an odd number lie an odd number
/// of roads apart, so travellers from them never meet: the answer is 0.
pub proof fn lemma_odd_depth_sum(f: Seq<CityView>, q: Seq<int>, i: int, j: int)
    requires
        forest_ok(f),
        forall|k: int| 0 <= k < q.len() ==> 0 <= #[trigger] q[k] < f.len(),
        0 <= i < j < q.len(),
        (f[q[i]].depth + f[q[j]].depth) % 2 == 1,
    ensures
        answer(f, q) == 0,
{
    if same_tree(f, q) {
        assert(q[i] != q[j]);
        assert(row(f, q, i, j + 1, rows(f, q, i)) is None);
        lemma_rejection_final(f, q, i, j + 1, q.len() as int);
    }
}

/// When two queried cities lie in different trees, the answer is 0.
pub proof fn lemma_different_trees(f: Seq<CityView>, q: Seq<int>, k: int, l: int)
    requires
        0 <= k < q.len(),
        0 <= l < q.len(),
        f[q[k]].tree != f[q[l]].tree,
    ensures
        answer(f, q) == 0,
{
    if same_tree(f, q) {
        assert(f[q[k]].tree == f[q[0]].tree);
        assert(f[q[l]].tree == f[q[0]].tree);
    }
}

proof fn lemma_meet_climb_symmetric(f: Seq<CityView>, a: int, b: int, s: nat, fuel: nat)
    ensures
        meet_climb(f, a, b, s, fuel) == meet_climb(f, b, a, s, fuel),
    decreases fuel,
{
    if !(ancestor(f, a, s) == ancestor(f, b, s) || fuel == 0) {
        lemma_meet_climb_symmetric(f, a, b, s + 1, (fuel - 1) as nat);
    }
}

proof fn lemma_region_same(f: Seq<CityView>, m1: Meet, m2: Meet, k: int)
    requires
        forall|v: int| #[trigger] reachable(f, m1, v) == reachable(f, m2, v),
    ensures
        region_count(f, m1, k) == region_count(f, m2, k),
    decreases k,
{
    if k > 0 {
        lemma_region_same(f, m1, m2, k - 1);
        assert(reachable(f, m1, k - 1) == reachable(f, m2, k - 1));
    }
}

/// The answer to a query of two cities, read off their pairwise meeting point.
proof fn lemma_two_city_answer(f: Seq<CityView>, a: int, b: int)
    requires
        f[a].tree == f[b].tree,
    ensures
        answer(f, seq![a, b]) == if a == b {
            tree_size_of(f, f[a].tree)
        } else {
            match pair_meet(f, a, b) {
                None => 0,
                Some(m) => region_count(f, m, f.len() as int),
            }
        },
{
    let q = seq![a, b];
    assert(same_tree(f, q));
    assert(rows(f, q, 2) == row(f, q, 1, 2, rows(f, q, 1)));
    assert(rows(f, q, 1) == row(f, q, 0, 2, rows(f, q, 0)));
    assert(row(f, q, 0, 2, Some(None)) == step(f, row(f, q, 0, 1, Some(None)), a, b));
}

/// A query of two cities has the same answer whichever of them it names first.
pub proof fn lemma_two_cities_either_order(f: Seq<CityView>, a: int, b: int)
    requires
        forest_ok(f),
        0 <= a < f.len(),
        0 <= b < f.len(),
    ensures
        answer(f, seq![a, b]) == answer(f, seq![b, a]),
{
    if f[a].tree != f[b].tree {
        lemma_different_trees(f, seq![a, b], 0, 1);
        lemma_different_trees(f, seq![b, a], 0, 1);
    } else {
        lemma_two_city_answer(f, a, b);
        lemma_two_city_answer(f, b, a);
        if a != b && f[a].depth == f[b].depth {
            lemma_meet_climb_symmetric(f, a, b, 0, f[a].depth);
            lemma_lockstep_joins(f, a, b, 0);
            let m1 = meet_same_depth(f, a, b);
            let m2 = meet_same_depth(f, b, a);
            assert(m1.city == m2.city);
            assert forall|v: int| #[trigger] reachable(f, m1, v) == reachable(f, m2, v) by {
                assert(reachable(f, m1, v) == (f[v].tree == f[m1.city].tree && !behind(
                    f,
                    m1.city,
                    m1.back[0],
                    v,
                ) && !behind(f, m1.city, m1.back[1], v)));
                assert(reachable(f, m2, v) == (f[v].tree == f[m2.city].tree && !behind(
                    f,
                    m2.city,
                    m2.back[0],
                    v,
                ) && !behind(f, m2.city, m2.back[1], v)));
            }
            lemma_region_same(f, m1, m2, f.len() as int);
        }
    }
}

/// Road distance between two cities of one tree: the levels climbed from each
/// of them up to their lowest common ancestor.
pub open spec fn distance(f: Seq<CityView>, u: int, w: int) -> nat {
    climbs(f, u, w).0 + climbs(f, u, w).1
}

/// Number of cities among the first `k` that lie in the tree of `a` and are as
/// far from `a` as from `b`.
pub open spec fn equidistant_count(f: Seq<CityView>, a: int, b: int, k: int) -> nat
    decreases k,
{
    if k <= 0 {
        0
    } else {
        equidistant_count(f, a, b, k - 1) + if f[k - 1].tree == f[a].tree && distance(f, k - 1, a)
            == distance(f, k - 1, b) {
            1nat
        } else {
            0nat
        }
    }
}

proof fn lemma_meet_climb_first(f: Seq<CityView>, a: int, b: int, s: nat, fuel: nat, k: nat)
    requires
        s <= k < meet_climb(f, a, b, s, fuel),
    ensures
        ancestor(f, a, k) != ancestor(f, b, k),
    decreases fuel,
{
    if !(ancestor(f, a, s) == ancestor(f, b, s) || fuel == 0) && k > s {
        lemma_meet_climb_first(f, a, b, s + 1, (fuel - 1) as nat, k);
    }
}

/// The climbs from two cities of one tree end on one city, at one depth.
proof fn lemma_climbs_meet(f: Seq<CityView>, u: int, w: int)
    requires
        forest_ok(f),
        0 <= u < f.len(),
        0 <= w < f.len(),
        f[u].tree == f[w].tree,
    ensures
        climbs(f, u, w).0 <= f[u].depth,
        climbs(f, u, w).1 <= f[w].depth,
        ancestor(f, u, climbs(f, u, w).0) == ancestor(f, w, climbs(f, u, w).1),
        f[u].depth - climbs(f, u, w).0 == f[w].depth - climbs(f, u, w).1,
{
    let du = f[u].depth;
    let dw = f[w].depth;
    let (p, q) = climbs(f, u, w);
    if du >= dw {
        let u1 = ancestor(f, u, (du - dw) as nat);
        lemma_ancestor(f, u, (du - dw) as nat);
        lemma_meet_climb_bound(f, u1, w, 0, dw);
        lemma_lockstep_joins(f, u1, w, 0);
        lemma_ancestor_add(f, u, (du - dw) as nat, q);
    } else {
        let w1 = ancestor(f, w, (dw - du) as nat);
        lemma_ancestor(f, w, (dw - du) as nat);
        lemma_meet_climb_bound(f, u, w1, 0, du);
        lemma_lockstep_joins(f, u, w1, 0);
        lemma_ancestor_add(f, w, (dw - du) as nat, p);
    }
}

/// Any common ancestor of two cities lies at or above the end of their climbs.
proof fn lemma_climbs_lowest(f: Seq<CityView>, u: int, w: int, i: nat, j: nat)
    requires
        forest_ok(f),
        0 <= u < f.len(),
        0 <= w < f.len(),
        f[u].tree == f[w].tree,
        i <= f[u].depth,
        j <= f[w].depth,
        ancestor(f, u, i) == ancestor(f, w, j),
    ensures
        climbs(f, u, w).0 <= i,
        climbs(f, u, w).1 <= j,
{
    let du = f[u].depth;
    let dw = f[w].depth;
    lemma_ancestor(f, u, i);
    lemma_ancestor(f, w, j);
    if du >= dw {
        let u1 = ancestor(f, u, (du - dw) as nat);
        lemma_ancestor(f, u, (du - dw) as nat);
        lemma_ancestor_add(f, u, (du - dw) as nat, j);
        lemma_meet_climb_bound(f, u1, w, 0, dw);
        if j < lockstep_climb(f, u1, w) {
            lemma_meet_climb_first(f, u1, w, 0, dw, j);
        }
    } else {
        let w1 = ancestor(f, w, (dw - du) as nat);
        lemma_ancestor(f, w, (dw - du) as nat);
        lemma_ancestor_add(f, w, (dw - du) as nat, i);
        lemma_meet_climb_bound(f, u, w1, 0, du);
        if i < lockstep_climb(f, u, w1) {
            lemma_meet_climb_first(f, u, w1, 0, du, i);
        }
    }
}

/// The ancestor of `u` at depth `e` is the ancestor at depth `e` of any
/// ancestor `c` of `u` at least that deep.
proof fn lemma_ancestor_through(f: Seq<CityView>, u: int, i: nat, e: nat)
    requires
        forest_ok(f),
        0 <= u < f.len(),
        i <= f[u].depth,
        e <= f[u].depth - i,
    ensures
        ancestor(f, u, (f[u].depth - e) as nat) == ancestor(
            f,
            ancestor(f, u, i),
            (f[u].depth - i - e) as nat,
        ),
{
    lemma_ancestor_add(f, u, i, (f[u].depth - i - e) as nat);
}

/// For two cities `a`, `b` of equal depth, a city `v` of their tree can be
/// reached from their meeting point just when it is as far from `a` as from `b`.
proof fn lemma_same_depth_reachable(f: Seq<CityView>, a: int, b: int, v: int)
    requires
        forest_ok(f),
        0 <= a < f.len(),
        0 <= b < f.len(),
        0 <= v < f.len(),
        a != b,
        f[a].depth == f[b].depth,
        f[a].tree == f[b].tree,
        f[v].tree == f[a].tree,
    ensures
        reachable(f, meet_same_depth(f, a, b), v) == (distance(f, v, a) == distance(f, v, b)),
{
    let d = f[a].depth;
    let dv = f[v].depth;
    lemma_lockstep_joins(f, a, b, 0);
    if d == 0 {
        lemma_one_root(f, a, b);
    }
    lemma_meet_climb_bound(f, a, b, 1, (d - 1) as nat);
    let s = lockstep_climb(f, a, b);
    assert(s >= 1);
    let mt = meet_same_depth(f, a, b);
    let m = ancestor(f, a, s);
    let x = ancestor(f, a, (s - 1) as nat);
    let y = ancestor(f, b, (s - 1) as nat);
    lemma_meet_climb_first(f, a, b, 0, d, (s - 1) as nat);
    lemma_ancestor(f, a, s);
    lemma_ancestor(f, a, (s - 1) as nat);
    lemma_ancestor(f, b, (s - 1) as nat);
    lemma_ancestor_add(f, a, (s - 1) as nat, 1);
    lemma_ancestor_add(f, b, (s - 1) as nat, 1);
    assert(in_subtree(f, m, x));
    assert(in_subtree(f, m, y));
    assert(reachable(f, mt, v) == (!in_subtree(f, x, v) && !in_subtree(f, y, v))) by {
        assert(mt.back[0] == x && mt.back[1] == y);
    }
    let dx = (d - s + 1) as nat;
    lemma_climbs_meet(f, v, a);
    lemma_climbs_meet(f, v, b);
    let (p1, q1) = climbs(f, v, a);
    let (p2, q2) = climbs(f, v, b);
    if in_subtree(f, x, v) {
        lemma_climbs_lowest(f, v, a, (dv - dx) as nat, (s - 1) as nat);
        if p1 == p2 {
            lemma_ancestor_through(f, v, p2, dx);
            lemma_ancestor_through(f, b, q2, dx);
        }
    } else if in_subtree(f, y, v) {
        lemma_climbs_lowest(f, v, b, (dv - dx) as nat, (s - 1) as nat);
        if p1 == p2 {
            lemma_ancestor_through(f, v, p1, dx);
            lemma_ancestor_through(f, a, q1, dx);
        }
    } else {
        if dv - p1 >= dx {
            lemma_ancestor_through(f, v, p1, dx);
            lemma_ancestor_through(f, a, q1, dx);
        }
        lemma_ancestor_add(f, a, s, (q1 - s) as nat);
        lemma_ancestor_add(f, b, s, (q1 - s) as nat);
        lemma_climbs_lowest(f, v, b, p1, q1);
        if dv - p2 >= dx {
            lemma_ancestor_through(f, v, p2, dx);
            lemma_ancestor_through(f, b, q2, dx);
        }
        lemma_ancestor_add(f, b, s, (q2 - s) as nat);
        lemma_ancestor_add(f, a, s, (q2 - s) as nat);
        lemma_climbs_lowest(f, v, a, p2, q2);
    }
}

/// For a city `a` deeper than `b` by an even number of levels, a city `v` of
/// their tree can be reached from their meeting point just when it is as far
/// from `a` as from `b`.
proof fn lemma_two_depths_reachable(f: Seq<CityView>, a: int, b: int, v: int)
    requires
        forest_ok(f),
        0 <= a < f.len(),
        0 <= b < f.len(),
        0 <= v < f.len(),
        f[a].depth > f[b].depth,
        (f[a].depth + f[b].depth) % 2 == 0,
        f[a].tree == f[b].tree,
        f[v].tree == f[a].tree,
    ensures
        reachable(f, meet_two_depths(f, a, b), v) == (distance(f, v, a) == distance(f, v, b)),
{
    let da = f[a].depth;
    let db = f[b].depth;
    let dv = f[v].depth;
    let diff = (da - db) as nat;
    let a1 = ancestor(f, a, diff);
    lemma_ancestor(f, a, diff);
    let s = lockstep_climb(f, a1, b);
    lemma_lockstep_joins(f, a1, b, 0);
    lemma_meet_climb_bound(f, a1, b, 0, db);
    lemma_ancestor_add(f, a, diff, s);
    let lab = (db - s) as nat;
    let t = diff / 2 + s;
    assert(diff >= 2);
    assert(t + 1 <= diff + s);
    let mt = meet_two_depths(f, a, b);
    let m = ancestor(f, a, t as nat);
    let x = ancestor(f, a, (t - 1) as nat);
    let y = ancestor(f, a, (t + 1) as nat);
    let dm = (da - t) as nat;
    let dx = (dm + 1) as nat;
    lemma_ancestor(f, a, t as nat);
    lemma_ancestor(f, a, (t - 1) as nat);
    lemma_ancestor(f, a, (t + 1) as nat);
    lemma_ancestor_add(f, a, (t - 1) as nat, 1);
    assert(in_subtree(f, m, x));
    assert(!in_subtree(f, m, y));
    assert(reachable(f, mt, v) == (in_subtree(f, m, v) && !in_subtree(f, x, v))) by {
        assert(mt.back[0] == x && mt.back[1] == y);
    }
    lemma_climbs_meet(f, v, a);
    lemma_climbs_meet(f, v, b);
    let (p1, q1) = climbs(f, v, a);
    let (p2, q2) = climbs(f, v, b);
    let l1 = dv - p1;
    let l2 = dv - p2;
    // The common ancestor of `v` and `b` lies at least as deep as that of `v` and `a`,
    // or as that of `a` and `b`, whichever is shallower.
    if l1 >= lab {
        lemma_ancestor_add(f, v, p1, (l1 - lab) as nat);
        lemma_ancestor_add(f, a, q1, (l1 - lab) as nat);
        lemma_climbs_lowest(f, v, b, (dv - lab) as nat, s);
    } else {
        lemma_ancestor_add(f, a, (diff + s) as nat, (q1 - diff - s) as nat);
        lemma_ancestor_add(f, b, s, (q1 - diff - s) as nat);
        lemma_climbs_lowest(f, v, b, p1, (q1 - diff) as nat);
    }
    assert(l2 >= l1 || l2 >= lab);
    if in_subtree(f, x, v) || in_subtree(f, m, v) {
        let (r, dr, ir) = if in_subtree(f, x, v) {
            (x, dx, (t - 1) as nat)
        } else {
            (m, dm, t as nat)
        };
        lemma_climbs_lowest(f, v, a, (dv - dr) as nat, ir);
        if s > 0 && l2 > lab {
            let e = (lab + 1) as nat;
            lemma_ancestor_through(f, v, p2, e);
            lemma_ancestor_through(f, b, q2, e);
            lemma_ancestor_through(f, v, (dv - dr) as nat, e);
            lemma_ancestor_through(f, a, ir, e);
            lemma_ancestor_add(f, a, diff, (s - 1) as nat);
            lemma_meet_climb_first(f, a1, b, 0, db, (s - 1) as nat);
        }
        if !in_subtree(f, x, v) && l1 >= dx {
            lemma_ancestor_through(f, v, p1, dx);
            lemma_ancestor_through(f, a, q1, dx);
        }
    } else {
        if l1 >= dm {
            lemma_ancestor_through(f, v, p1, dm);
            lemma_ancestor_through(f, a, q1, dm);
        }
    }
}

/// Two cities an odd number of levels apart in depth are at distances of
/// different parity from any city of their tree.
proof fn lemma_odd_never_equidistant(f: Seq<CityView>, a: int, b: int, v: int)
    requires
        forest_ok(f),
        0 <= a < f.len(),
        0 <= b < f.len(),
        0 <= v < f.len(),
        (f[a].depth + f[b].depth) % 2 == 1,
        f[a].tree == f[b].tree,
        f[v].tree == f[a].tree,
    ensures
        distance(f, v, a) != distance(f, v, b),
{
    lemma_climbs_meet(f, v, a);
    lemma_climbs_meet(f, v, b);
}

/// Travellers from two distinct cities of one tree: a city of that tree can
/// be reached from their meeting point just when it is as far from one as
/// from the other, and no city is when they have no meeting point.
proof fn lemma_pair_reachable(f: Seq<CityView>, a: int, b: int, v: int)
    requires
        forest_ok(f),
        0 <= a < f.len(),
        0 <= b < f.len(),
        0 <= v < f.len(),
        a != b,
        f[a].tree == f[b].tree,
        f[v].tree == f[a].tree,
    ensures
        match pair_meet(f, a, b) {
            None => distance(f, v, a) != distance(f, v, b),
            Some(m) => reachable(f, m, v) == (distance(f, v, a) == distance(f, v, b)),
        },
{
    if f[a].depth == f[b].depth {
        lemma_same_depth_reachable(f, a, b, v);
    } else if (f[a].depth + f[b].depth) % 2 == 1 {
        lemma_odd_never_equidistant(f, a, b, v);
    } else if f[a].depth > f[b].depth {
        lemma_two_depths_reachable(f, a, b, v);
    } else {
        lemma_two_depths_reachable(f, b, a, v);
    }
}

/// The meeting point of two distinct cities of one tree lies in that tree.
proof fn lemma_pair_in_tree(f: Seq<CityView>, a: int, b: int)
    requires
        forest_ok(f),
        0 <= a < f.len(),
        0 <= b < f.len(),
        a != b,
        f[a].tree == f[b].tree,
    ensures
        pair_meet(f, a, b) matches Some(m) ==> f[m.city].tree == f[a].tree,
{
    let da = f[a].depth;
    let db = f[b].depth;
    if da == db {
        lemma_lockstep_joins(f, a, b, 0);
        lemma_ancestor(f, a, lockstep_climb(f, a, b));
    } else if (da + db) % 2 == 0 {
        let (deep, shallow) = if da > db {
            (a, b)
        } else {
            (b, a)
        };
        let diff = (f[deep].depth - f[shallow].depth) as nat;
        lemma_ancestor(f, deep, diff);
        lemma_meet_climb_bound(f, ancestor(f, deep, diff), shallow, 0, f[shallow].depth);
        lemma_ancestor(f, deep, (diff / 2 + lockstep_climb(f, ancestor(f, deep, diff), shallow)) as nat);
    }
}

proof fn lemma_pair_counts_equidistant(f: Seq<CityView>, a: int, b: int, k: int)
    requires
        forest_ok(f),
        0 <= a < f.len(),
        0 <= b < f.len(),
        f[a].tree == f[b].tree,
        k <= f.len(),
    ensures
        a == b ==> cities_in_tree(f, f[a].tree, k) == equidistant_count(f, a, b, k),
        a != b ==> match pair_meet(f, a, b) {
            None => equidistant_count(f, a, b, k) == 0,
            Some(m) => region_count(f, m, k) == equidistant_count(f, a, b, k),
        },
    decreases k,
{
    if k > 0 {
        lemma_pair_counts_equidistant(f, a, b, k - 1);
        if a != b {
            lemma_pair_in_tree(f, a, b);
            if f[k - 1].tree == f[a].tree {
                lemma_pair_reachable(f, a, b, k - 1);
            }
        }
    }
}

/// For two cities of one tree, named in either order and possibly the same,
/// the answer is the number of cities of that tree as far from one of them as
/// from the other.
pub proof fn lemma_two_cities_count_equidistant(f: Seq<CityView>, a: int, b: int)
    requires
        forest_ok(f),
        0 <= a < f.len(),
        0 <= b < f.len(),
        f[a].tree == f[b].tree,
    ensures
        answer(f, seq![a, b]) == equidistant_count(f, a, b, f.len() as int),
{
    lemma_two_city_answer(f, a, b);
    lemma_pair_counts_equidistant(f, a, b, f.len() as int);
}

} // verus!
