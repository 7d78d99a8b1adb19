//! The forest: an arena of cities, each placed in a rooted tree by its parent,
//! its depth and the id of its tree.

use std::collections::HashMap;
use vstd::prelude::*;

verus! {

broadcast use vstd::std_specs::hash::group_hash_axioms;

/// Largest number of cities a kingdom may hold, so that sums of depths fit in `usize`.
pub const MAX_CITIES: usize = usize::MAX / 8;

/// A road that starts from a city, to one of its immediate neighbours.
pub struct Road {
    destination: usize,
}

/// A node of the forest: the roads that start from it, the tree it belongs to,
/// and its distance to that tree's root.
///
/// A city that is not a root holds the road to its parent first.
pub struct City {
    tree_id: usize,
    depth: usize,
    roads: Vec<Road>,
}

/// What a city is in the model: its tree, its depth, its parent (itself for a
/// root) and the cities its roads lead to, in the order they were opened.
pub struct CityView {
    pub tree: nat,
    pub depth: nat,
    pub parent: int,
    pub roads: Seq<int>,
}

impl City {
    pub closed spec fn view_at(&self, index: int) -> CityView {
        CityView {
            tree: self.tree_id as nat,
            depth: self.depth as nat,
            parent: if self.depth == 0 { index } else { self.roads@[0].destination as int },
            roads: self.roads@.map_values(|r: Road| r.destination as int),
        }
    }
}

/// One city is well placed: a root is its own tree and parent; any other city
/// sits one level under a parent of the same tree, to which its first road
/// leads; and every road it has is matched by a road back.
pub open spec fn city_ok(f: Seq<CityView>, v: int) -> bool {
    let c = f[v];
    &&& c.depth < f.len()
    &&& c.depth == 0 ==> c.tree == v && c.parent == v
    &&& c.depth > 0 ==> {
        &&& 0 <= c.parent < f.len()
        &&& f[c.parent].depth + 1 == c.depth
        &&& f[c.parent].tree == c.tree
        &&& c.roads.len() > 0
        &&& c.roads[0] == c.parent
    }
    &&& forall|k: int|
        0 <= k < c.roads.len() ==> 0 <= #[trigger] c.roads[k] < f.len() && f[c.roads[k]].roads.contains(
            v,
        )
}

/// The city `k` levels above `v`.
pub open spec fn ancestor(f: Seq<CityView>, v: int, k: nat) -> int
    decreases k,
{
    if k == 0 {
        v
    } else {
        f[ancestor(f, v, (k - 1) as nat)].parent
    }
}

pub(crate) proof fn lemma_ancestor(f: Seq<CityView>, v: int, k: nat)
    requires
        forest_ok(f),
        0 <= v < f.len(),
        k <= f[v].depth,
    ensures
        0 <= ancestor(f, v, k) < f.len(),
        f[ancestor(f, v, k)].depth == f[v].depth - k,
        f[ancestor(f, v, k)].tree == f[v].tree,
    decreases k,
{
    if k > 0 {
        lemma_ancestor(f, v, (k - 1) as nat);
        assert(city_ok(f, ancestor(f, v, (k - 1) as nat)));
    }
}

/// The tree id of a city names the root of its tree: the city's ancestor at
/// its full depth, a city of depth 0 that is its own tree.
pub proof fn lemma_tree_id_is_root(f: Seq<CityView>, v: int)
    requires
        forest_ok(f),
        0 <= v < f.len(),
    ensures
        ancestor(f, v, f[v].depth) == f[v].tree,
        0 <= f[v].tree < f.len(),
        f[f[v].tree as int].depth == 0,
        f[f[v].tree as int].tree == f[v].tree,
{
    lemma_ancestor(f, v, f[v].depth);
    assert(city_ok(f, ancestor(f, v, f[v].depth)));
}

/// A city with no road lies outside the chain from any other city up to its
/// root, so that chain leaves room for it: the other city's depth is at most
/// the number of cities less two.
pub(crate) proof fn lemma_room_below(f: Seq<CityView>, other: int, lone: int)
    requires
        forest_ok(f),
        0 <= other < f.len(),
        0 <= lone < f.len(),
        other != lone,
        f[lone].roads.len() == 0,
    ensures
        f[other].depth + 1 < f.len(),
{
    let d = f[other].depth;
    let chain = Seq::new(d + 1, |k: int| ancestor(f, other, k as nat)).push(lone);
    assert forall|k: int| 0 <= k <= d implies 0 <= #[trigger] chain[k] < f.len() && f[chain[k]].depth
        == d - k && (d > 0 ==> f[chain[k]].roads.len() > 0) by {
        lemma_ancestor(f, other, k as nat);
        let c = chain[k];
        assert(city_ok(f, c));
        if d > 0 && k == d {
            let below = ancestor(f, other, (d - 1) as nat);
            lemma_ancestor(f, other, (d - 1) as nat);
            assert(city_ok(f, below));
            assert(f[below].roads[0] == c);
            assert(f[c].roads.contains(below));
        }
    }
    assert(chain.no_duplicates()) by {
        assert forall|i: int, j: int|
            0 <= i < chain.len() && 0 <= j < chain.len() && i != j implies chain[i] != chain[j] by {
            if i <= d && j <= d {
                assert(f[chain[i]].depth != f[chain[j]].depth);
            } else if i <= d {
                assert(chain[j] == lone);
                if d == 0 {
                    assert(chain[i] == other);
                }
            } else {
                assert(chain[i] == lone);
                if d == 0 {
                    assert(chain[j] == other);
                }
            }
        }
    }
    chain.unique_seq_to_set();
    vstd::set_lib::lemma_int_range(0, f.len() as int);
    assert(chain.to_set().subset_of(vstd::set_lib::set_int_range(0, f.len() as int))) by {
        assert forall|x: int| chain.to_set().contains(x) implies vstd::set_lib::set_int_range(
            0,
            f.len() as int,
        ).contains(x) by {
            let i = choose|i: int| 0 <= i < chain.len() && chain[i] == x;
            if i <= d {
                assert(0 <= chain[i] < f.len());
            }
        }
    }
    vstd::set_lib::lemma_len_subset(
        chain.to_set(),
        vstd::set_lib::set_int_range(0, f.len() as int),
    );
}

/// Every city of the model is well placed: the model is a forest of rooted trees.
pub open spec fn forest_ok(f: Seq<CityView>) -> bool {
    forall|v: int| 0 <= v < f.len() ==> #[trigger] city_ok(f, v)
}

/// Number of cities among the first `k` that belong to tree `t`.
pub open spec fn cities_in_tree(f: Seq<CityView>, t: nat, k: int) -> nat
    decreases k,
{
    if k <= 0 {
        0
    } else {
        cities_in_tree(f, t, k - 1) + if f[k - 1].tree == t { 1nat } else { 0nat }
    }
}

/// Number of cities of tree `t`.
pub open spec fn tree_size_of(f: Seq<CityView>, t: nat) -> nat {
    cities_in_tree(f, t, f.len() as int)
}

/// A kingdom: every city, indexed from 0, and the sizes of the trees counted so far.
pub struct Kingdom {
    cities: Vec<City>,
    trees_sizes: HashMap<usize, usize>,
}

impl View for Kingdom {
    type V = Seq<CityView>;

    closed spec fn view(&self) -> Seq<CityView> {
        Seq::new(self.cities@.len(), |i: int| self.cities@[i].view_at(i))
    }
}

impl Kingdom {
    /// The tree sizes counted so far, by tree id.
    pub closed spec fn sizes(&self) -> Map<usize, usize> {
        self.trees_sizes@
    }

    /// Every size kept in the cache is the true size of its tree.
    pub open spec fn sizes_ok(&self) -> bool {
        forall|t: usize| #[trigger]
            self.sizes().contains_key(t) ==> self.sizes()[t] == tree_size_of(self@, t as nat)
    }

    pub open spec fn wf(&self) -> bool {
        &&& forest_ok(self@)
        &&& self@.len() <= MAX_CITIES
        &&& self.sizes_ok()
    }

    /// Allocates `number_of_cities` cities, each alone in a tree of its own.
    pub fn new(number_of_cities: usize) -> (k: Kingdom)
        requires
            number_of_cities <= MAX_CITIES,
        ensures
            k.wf(),
            k.sizes() == Map::<usize, usize>::empty(),
            k@.len() == number_of_cities,
            forall|i: int|
                0 <= i < number_of_cities ==> #[trigger] k@[i] == (CityView {
                    tree: i as nat,
                    depth: 0,
                    parent: i,
                    roads: Seq::empty(),
                }),
    {
        let mut cities: Vec<City> = Vec::new();
        let mut tree_id: usize = 0;
        while tree_id < number_of_cities
            invariant
                tree_id <= number_of_cities,
                cities@.len() == tree_id,
                forall|i: int|
                    0 <= i < tree_id ==> #[trigger] cities@[i].view_at(i) == (CityView {
                        tree: i as nat,
                        depth: 0,
                        parent: i,
                        roads: Seq::empty(),
                    }),
            decreases number_of_cities - tree_id,
        {
            cities.push(City { tree_id, depth: 0, roads: Vec::new() });
            assert(cities@[tree_id as int].view_at(tree_id as int).roads =~= Seq::<int>::empty());
            tree_id += 1;
        }
        let k = Kingdom { cities, trees_sizes: HashMap::new() };
        assert forall|v: int| 0 <= v < k@.len() implies #[trigger] city_ok(k@, v) by {
            assert(k@[v] == k.cities@[v].view_at(v));
            assert(k@[v].roads =~= Seq::<int>::empty());
        }
        k
    }

    /// Number of cities, ids `1..=number_of_cities()`.
    pub fn number_of_cities(&self) -> (n: usize)
        ensures
            n == self@.len(),
    {
        self.cities.len()
    }

    /// Whether `link(city_id_left, city_id_right)` may hang the right city under the left one:
    /// both ids are in range and differ, and the right city has no road yet.
    pub open spec fn may_link(&self, city_id_left: usize, city_id_right: usize) -> bool {
        &&& 1 <= city_id_left <= self@.len()
        &&& 1 <= city_id_right <= self@.len()
        &&& city_id_left != city_id_right
        &&& self@[city_id_right - 1].roads.len() == 0
    }

    /// Tells whether `link` accepts these two ids.
    pub fn can_link(&self, city_id_left: usize, city_id_right: usize) -> (r: bool)
        ensures
            r == self.may_link(city_id_left, city_id_right),
    {
        let n = self.cities.len();
        if city_id_left < 1 || city_id_left > n || city_id_right < 1 || city_id_right > n
            || city_id_left == city_id_right {
            return false;
        }
        let right = &self.cities[city_id_right - 1];
        proof {
            assert(self@[city_id_right - 1] == right.view_at(city_id_right - 1));
        }
        right.roads.len() == 0
    }

    /// Opens the road between two cities: the right city, alone until now,
    /// joins the left city's tree as its child, one level deeper.
    pub fn link(&mut self, city_id_left: usize, city_id_right: usize)
        requires
            old(self).wf(),
            old(self).may_link(city_id_left, city_id_right),
        ensures
            final(self).wf(),
            final(self).sizes() == Map::<usize, usize>::empty(),
            final(self)@ == old(self)@.update(
                city_id_left - 1,
                (CityView {
                    roads: old(self)@[city_id_left - 1].roads.push(city_id_right - 1),
                    ..old(self)@[city_id_left - 1]
                }),
            ).update(
                city_id_right - 1,
                (CityView {
                    tree: old(self)@[city_id_left - 1].tree,
                    depth: old(self)@[city_id_left - 1].depth + 1,
                    parent: city_id_left - 1,
                    roads: seq![city_id_left - 1],
                }),
            ),
    {
        let ghost before = self@;
        let ghost old_cities = self.cities@;
        let left = city_id_left - 1;
        let right = city_id_right - 1;
        proof {
            assert(before[left as int] == self.cities@[left as int].view_at(left as int));
            assert(before[right as int] == self.cities@[right as int].view_at(right as int));
            lemma_room_below(before, left as int, right as int);
            assert(city_ok(before, left as int));
        }
        let tree_id = self.cities[left].tree_id;
        let depth = self.cities[left].depth;
        self.cities[left].roads.push(Road { destination: right });
        self.cities[right].roads.push(Road { destination: left });
        self.cities[right].tree_id = tree_id;
        self.cities[right].depth = depth + 1;
        self.trees_sizes = HashMap::new();
        let ghost after = before.update(
            left as int,
            (CityView { roads: before[left as int].roads.push(right as int), ..before[left as int] }),
        ).update(
            right as int,
            (CityView {
                tree: before[left as int].tree,
                depth: before[left as int].depth + 1,
                parent: left as int,
                roads: seq![left as int],
            }),
        );
        assert(self@ =~= after) by {
            assert forall|i: int| 0 <= i < after.len() implies #[trigger] self@[i] == after[i] by {
                assert(self@[i] == self.cities@[i].view_at(i));
                assert(before[i] == old_cities[i].view_at(i));
                if i == left {
                    assert(city_ok(before, i));
                    assert(self.cities@[i].roads@ == old_cities[i].roads@.push(
                        Road { destination: right },
                    ));
                    assert(self@[i].roads =~= after[i].roads);
                } else if i == right {
                    assert(self.cities@[i].roads@ =~= seq![Road { destination: left }]);
                    assert(self@[i].roads =~= after[i].roads);
                } else {
                    assert(self.cities@[i] == old_cities[i]);
                }
            }
        }
        assert forall|v: int| 0 <= v < after.len() implies #[trigger] city_ok(after, v) by {
            assert(city_ok(before, v));
            let r = after[v].roads;
            assert forall|k: int| 0 <= k < r.len() implies 0 <= #[trigger] r[k] < after.len()
                && after[r[k]].roads.contains(v) by {
                if v == right {
                    assert(r[k] == left);
                    assert(after[left as int].roads[before[left as int].roads.len() as int] == v);
                } else if v == left && k == before[v].roads.len() {
                    assert(after[right as int].roads[0] == v);
                } else {
                    let w = before[v].roads[k];
                    assert(r[k] == w);
                    assert(before[w].roads.contains(v));
                    if w == right {
                        assert(before[right as int].roads[0] == v);
                    }
                    let i = choose|i: int| 0 <= i < before[w].roads.len() && before[w].roads[i] == v;
                    if w == left {
                        assert(after[w].roads[i] == v);
                    } else {
                        assert(after[w].roads[i] == v);
                    }
                }
            }
            if v != right && after[v].depth > 0 {
                let p = before[v].parent;
                assert(before[v].roads[0] == p);
                assert(before[p].roads.contains(v));
                if p == right {
                    assert(before[right as int].roads[0] == v);
                }
            }
        }
    }

    pub(crate) fn depth_at(&self, i: usize) -> (r: usize)
        requires
            i < self@.len(),
        ensures
            r == self@[i as int].depth,
    {
        proof {
            assert(self@[i as int] == self.cities@[i as int].view_at(i as int));
        }
        self.cities[i].depth
    }

    pub(crate) fn tree_at(&self, i: usize) -> (r: usize)
        requires
            i < self@.len(),
        ensures
            r == self@[i as int].tree,
    {
        proof {
            assert(self@[i as int] == self.cities@[i as int].view_at(i as int));
        }
        self.cities[i].tree_id
    }

    /// The parent of a city that is not a root: the destination of its first road.
    pub(crate) fn parent_id(&self, i: usize) -> (r: usize)
        requires
            self.wf(),
            i < self@.len(),
            self@[i as int].depth > 0,
        ensures
            r == self@[i as int].parent,
    {
        proof {
            assert(self@[i as int] == self.cities@[i as int].view_at(i as int));
            assert(city_ok(self@, i as int));
        }
        self.cities[i].roads[0].destination
    }

    /// Number of cities of tree `tree_id`, counted once and then kept.
    pub(crate) fn tree_size(&mut self, tree_id: usize) -> (r: usize)
        requires
            old(self).wf(),
        ensures
            final(self).wf(),
            final(self)@ == old(self)@,
            r == tree_size_of(old(self)@, tree_id as nat),
            !old(self).sizes().contains_key(tree_id) ==> final(self).sizes() == old(
                self,
            ).sizes().insert(tree_id, r),
            old(self).sizes().contains_key(tree_id) ==> final(self).sizes() == old(self).sizes(),
    {
        match self.trees_sizes.get(&tree_id) {
            Some(size) => {
                assert(self.sizes().contains_key(tree_id));
                return *size;
            },
            None => {},
        }
        let n = self.cities.len();
        let mut count: usize = 0;
        let mut i: usize = 0;
        while i < n
            invariant
                n == self.cities@.len(),
                n == self@.len(),
                i <= n,
                count <= i,
                count == cities_in_tree(self@, tree_id as nat, i as int),
            decreases n - i,
        {
            proof {
                assert(self@[i as int] == self.cities@[i as int].view_at(i as int));
            }
            if self.cities[i].tree_id == tree_id {
                count += 1;
            }
            i += 1;
        }
        self.trees_sizes.insert(tree_id, count);
        assert forall|t: usize| #[trigger] self.sizes().contains_key(t) implies self.sizes()[t]
            == tree_size_of(self@, t as nat) by {
            if t != tree_id {
                assert(old(self).sizes().contains_key(t));
            }
        }
        count
    }
}

} // verus!
