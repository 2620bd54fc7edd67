//! A disjoint-set (union-find) container keyed by arbitrary hashable values.
//!
//! Keys are registered lazily and translated to dense identifiers; the
//! identifiers live in a forest with union by rank and path compression.
use std::collections::{HashMap, HashSet};
use std::hash::Hash;
use vstd::prelude::*;
use vstd::arithmetic::power2::{lemma2_to64, lemma_pow2_unfold, pow2};
use vstd::set_lib::{lemma_int_range, lemma_len_subset, lemma_set_disjoint_lens, set_int_range};
use vstd::std_specs::hash::obeys_key_model;

verus! {

broadcast use vstd::std_specs::hash::group_hash_axioms;

/// One forest record: the parent identifier and the merge-order rank.
#[derive(Clone, Copy)]
struct ParentPointer {
    parent: usize,
    rank: usize,
}

/// A disjoint set / union-find data structure suitable for incremental
/// tracking of connected components identified by their hash.
///
/// The abstract state is the set of registered keys, `keys()`, and the
/// equivalence relation `linked(a, b)` over them.
pub struct DisjointHashSet<K> {
    ids: HashMap<K, usize>,
    data: Vec<ParentPointer>,
    /// The root that each identifier resolves to.
    roots: Ghost<Seq<int>>,
    /// A measure that strictly grows along parent pointers.
    levels: Ghost<Seq<nat>>,
    /// A strict upper bound of every level.
    top: Ghost<nat>,
    /// How many unions merged two distinct groups; it bounds every rank.
    merges: Ghost<nat>,
}

impl<K: Eq + Hash> DisjointHashSet<K> {
    /// The forest invariant and the registry invariant.
    pub closed spec fn wf(&self) -> bool {
        let n = self.data@.len();
        &&& obeys_key_model::<K>()
        &&& self.roots@.len() == n
        &&& self.levels@.len() == n
        &&& forall|k: K| #[trigger] self.ids@.contains_key(k) ==> self.ids@[k] < n
        &&& forall|k1: K, k2: K|
            #[trigger] self.ids@.contains_key(k1) && #[trigger] self.ids@.contains_key(k2)
                && self.ids@[k1] == self.ids@[k2] ==> k1 == k2
        &&& forall|i: int| 0 <= i < n ==> #[trigger] self.node_ok(i)
        &&& self.root_set().finite()
        &&& self.merges@ + self.root_set().len() == n
    }

    spec fn root_set(&self) -> Set<int> {
        Set::new(|i: int| 0 <= i < self.data@.len() && self.parent_at(i) == i)
    }

    /// The parent identifier of the record `i`.
    pub closed spec fn parent_at(&self, i: int) -> int {
        self.data@[i].parent as int
    }

    /// The rank of the record `i`.
    pub closed spec fn rank_at(&self, i: int) -> nat {
        self.data@[i].rank as nat
    }

    /// The root that the record `i` resolves to.
    pub closed spec fn root_at(&self, i: int) -> int {
        self.roots@[i]
    }

    /// The identifier of a registered key.
    pub closed spec fn id_of(&self, k: K) -> nat {
        self.ids@[k] as nat
    }

    spec fn node_ok(&self, i: int) -> bool {
        let n = self.data@.len();
        let p = self.parent_at(i);
        let r = self.roots@[i];
        &&& 0 <= p < n
        &&& 0 <= r < n
        &&& self.parent_at(r) == r
        &&& self.roots@[p] == r
        &&& self.levels@[i] < self.top@
        &&& self.data@[i].rank <= self.merges@
        &&& p == i ==> r == i
        &&& p == i ==> pow2(self.rank_at(i)) <= self.members(i).len()
        &&& p != i ==> self.levels@[i] < self.levels@[p]
        &&& exists|k: K| #[trigger] self.ids@.contains_key(k) && self.ids@[k] == i
    }

    /// The keys registered so far.
    pub closed spec fn keys(&self) -> Set<K> {
        self.ids@.dom()
    }

    /// Both keys are registered and belong to the same group.
    pub closed spec fn linked(&self, a: K, b: K) -> bool {
        &&& self.ids@.contains_key(a)
        &&& self.ids@.contains_key(b)
        &&& self.roots@[self.ids@[a] as int] == self.roots@[self.ids@[b] as int]
    }

    /// The number of identifiers handed out so far.
    pub closed spec fn size(&self) -> nat {
        self.data@.len()
    }

    /// `x` is `a` itself or linked to it.
    pub open spec fn joined(&self, x: K, a: K) -> bool {
        x == a || self.linked(x, a)
    }

    /// `next` is this structure with `k` registered as a singleton group,
    /// unless it was already present.
    pub open spec fn insert_step(&self, next: Self, k: K) -> bool {
        &&& next.wf()
        &&& next.keys() == self.keys().insert(k)
        &&& forall|x: K, y: K|
            #[trigger] next.linked(x, y) <==> (self.linked(x, y) || (x == y && x == k))
    }

    /// `next` is this structure after the groups of `a` and `b` were merged,
    /// registering either key where it was absent.
    pub open spec fn link_step(&self, next: Self, a: K, b: K) -> bool {
        &&& next.wf()
        &&& next.keys() == self.keys().insert(a).insert(b)
        &&& forall|x: K, y: K|
            #[trigger] next.linked(x, y) <==> {
                ||| self.linked(x, y)
                ||| (x == y && (x == a || x == b))
                ||| (self.joined(x, a) && self.joined(y, b))
                ||| (self.joined(x, b) && self.joined(y, a))
            }
    }

    /// The record `i` is a fresh root of rank 0.
    pub open spec fn fresh_root(&self, i: int) -> bool {
        &&& self.parent_at(i) == i
        &&& self.rank_at(i) == 0
        &&& self.root_at(i) == i
    }

    /// `next` keeps every identifier and every record of this structure.
    pub open spec fn extends(&self, next: Self) -> bool {
        &&& self.size() <= next.size()
        &&& forall|k: K| self.keys().contains(k) ==> #[trigger] next.id_of(k) == self.id_of(k)
        &&& forall|i: int|
            0 <= i < self.size() ==> {
                &&& #[trigger] next.parent_at(i) == self.parent_at(i)
                &&& next.rank_at(i) == self.rank_at(i)
                &&& next.root_at(i) == self.root_at(i)
            }
    }

    /// `next` differs from this structure at most by path compression: the
    /// same keys, identifiers, roots and ranks, and a parent pointer may
    /// only have moved to its root.
    pub open spec fn compressed(&self, next: Self) -> bool {
        &&& next.wf()
        &&& next.keys() == self.keys()
        &&& next.size() == self.size()
        &&& forall|k: K| self.keys().contains(k) ==> #[trigger] next.id_of(k) == self.id_of(k)
        &&& forall|i: int|
            0 <= i < self.size() ==> {
                &&& #[trigger] next.root_at(i) == self.root_at(i)
                &&& next.rank_at(i) == self.rank_at(i)
                &&& (next.parent_at(i) == self.parent_at(i) || next.parent_at(i) == self.root_at(i))
            }
    }

    /// The root that `k` resolves to once registered: its root here, or the
    /// identifier that `next` gave it.
    pub open spec fn root_for(&self, next: Self, k: K) -> int {
        if self.keys().contains(k) {
            self.root_at(self.id_of(k) as int)
        } else {
            next.id_of(k) as int
        }
    }

    /// The rank of the record `i`, or 0 for a record not made yet.
    pub open spec fn rank_for(&self, i: int) -> nat {
        if i < self.size() {
            self.rank_at(i)
        } else {
            0
        }
    }

    /// `next` gave the absent keys among `a` and `b` the next identifiers,
    /// `a` first, and kept the identifier of every key present here.
    pub open spec fn registers(&self, next: Self, a: K, b: K) -> bool {
        let na: nat = if self.keys().contains(a) { 0 } else { 1 };
        let nb: nat = if self.keys().contains(b) || b == a { 0 } else { 1 };
        &&& next.size() == self.size() + na + nb
        &&& forall|k: K| self.keys().contains(k) ==> #[trigger] next.id_of(k) == self.id_of(k)
        &&& !self.keys().contains(a) ==> next.id_of(a) == self.size()
        &&& nb == 1 ==> next.id_of(b) == self.size() + na
    }

    /// The records of `next` after the union by rank of the roots of `a` and
    /// `b`: the root of smaller rank goes under the other, and on equal ranks
    /// the root of `a` goes under the root of `b`, whose rank grows by one.
    /// Any other parent pointer keeps its target or moved to its root, and a
    /// record made by the call is a root.
    pub open spec fn union_by_rank(&self, next: Self, a: K, b: K) -> bool {
        let ra = self.root_for(next, a);
        let rb = self.root_for(next, b);
        let ka = self.rank_for(ra);
        let kb = self.rank_for(rb);
        let child = if ka > kb { rb } else { ra };
        let root = if ka > kb { ra } else { rb };
        &&& ra != rb ==> next.parent_at(child) == root && next.parent_at(root) == root
        &&& forall|i: int|
            0 <= i < next.size() ==> #[trigger] next.rank_at(i) == if ra != rb && ka == kb && i
                == rb {
                kb + 1
            } else {
                self.rank_for(i)
            }
        &&& forall|i: int|
            #![trigger next.parent_at(i)]
            0 <= i < next.size() && !(ra != rb && i == child) ==> if i < self.size() {
                next.parent_at(i) == self.parent_at(i) || next.parent_at(i) == self.root_at(i)
            } else {
                next.parent_at(i) == i
            }
    }

    /// The identifiers that resolve to `r`: the group of the root `r`.
    pub open spec fn members(&self, r: int) -> Set<int> {
        Set::new(|i: int| 0 <= i < self.size() && self.root_at(i) == r)
    }

    proof fn lemma_members_finite(&self, r: int)
        ensures
            self.members(r).finite(),
            self.members(r).len() <= self.size(),
    {
        lemma_int_range(0, self.size() as int);
        lemma_len_subset(self.members(r), set_int_range(0, self.size() as int));
    }

    /// A root of rank `k` has at least 2^k identifiers in its group.
    pub proof fn lemma_rank_bound(s: Self, r: int)
        requires
            s.wf(),
            0 <= r < s.size(),
            s.parent_at(r) == r,
        ensures
            pow2(s.rank_at(r)) <= s.members(r).len(),
            s.members(r).len() <= s.size(),
    {
        assert(s.node_ok(r));
        s.lemma_members_finite(r);
    }

    /// The identifiers that are roots: one for each group.
    pub open spec fn group_roots(&self) -> Set<int> {
        Set::new(|i: int| 0 <= i < self.size() && self.root_at(i) == i)
    }

    /// `next` holds the same keys and the same groups as this structure.
    pub open spec fn same_groups(&self, next: Self) -> bool {
        &&& next.wf()
        &&& next.keys() == self.keys()
        &&& forall|x: K, y: K| #[trigger] next.linked(x, y) <==> self.linked(x, y)
    }

    /// Creates an empty `DisjointHashSet`.
    pub fn new() -> (r: Self)
        requires
            obeys_key_model::<K>(),
        ensures
            r.wf(),
            r.keys() == Set::<K>::empty(),
            r.size() == 0,
    {
        let r = DisjointHashSet {
            ids: HashMap::new(),
            data: Vec::new(),
            roots: Ghost(Seq::empty()),
            levels: Ghost(Seq::empty()),
            top: Ghost(0),
            merges: Ghost(0),
        };
        proof {
            assert(r.root_set() =~= Set::<int>::empty());
        }
        r
    }

    fn id(&self, value: &K) -> (r: Option<usize>)
        requires
            self.wf(),
        ensures
            r == (if self.ids@.contains_key(*value) {
                Some(self.ids@[*value])
            } else {
                None
            }),
    {
        match self.ids.get(value) {
            Some(i) => Some(*i),
            None => None,
        }
    }

    /// Check if the value has already been inserted.
    pub fn contains(&self, val: &K) -> (r: bool)
        requires
            self.wf(),
        ensures
            r == self.keys().contains(*val),
    {
        self.id(val).is_some()
    }

    fn insert_unchecked(&mut self, value: K) -> (r: usize)
        requires
            old(self).wf(),
            !old(self).keys().contains(value),
            old(self).size() < usize::MAX,
        ensures
            old(self).insert_step(*final(self), value),
            r == old(self).data@.len(),
            final(self).data@.len() == r + 1,
            final(self).ids@ == old(self).ids@.insert(value, r),
            final(self).roots@ == old(self).roots@.push(r as int),
            final(self).data@ == old(self).data@.push(ParentPointer { parent: r, rank: 0 }),
    {
        let id = self.data.len();
        self.ids.insert(value, id);
        self.data.push(ParentPointer { parent: id, rank: 0 });
        self.roots = Ghost(self.roots@.push(id as int));
        self.levels = Ghost(self.levels@.push(0));
        self.top = Ghost(self.top@ + 1);
        proof {
            assert forall|i: int| 0 <= i < self.data@.len() implies #[trigger] self.node_ok(i) by {
                if i < id {
                    assert(old(self).node_ok(i));
                    let k = choose|k: K| old(self).ids@.contains_key(k) && old(self).ids@[k] == i;
                    assert(self.ids@.contains_key(k) && self.ids@[k] == i);
                    assert(self.members(i) =~= old(self).members(i));
                } else {
                    assert(self.ids@.contains_key(value) && self.ids@[value] == i);
                    assert forall|j: int| 0 <= j < id implies #[trigger] self.roots@[j] != i by {
                        assert(old(self).node_ok(j));
                    }
                    assert(self.members(i) =~= Set::<int>::empty().insert(i));
                    lemma2_to64();
                }
            }
            assert forall|x: K| #[trigger] old(self).ids@.contains_key(x) implies self.roots@[
                self.ids@[x] as int] < id as int && x != value by {
                assert(old(self).node_ok(old(self).ids@[x] as int));
            }
            assert(self.keys() =~= old(self).keys().insert(value));
            assert(self.root_set() =~= old(self).root_set().insert(id as int));
        }
        id
    }

    fn get(&self, id: usize) -> (r: ParentPointer)
        requires
            id < self.data@.len(),
        ensures
            r == self.data@[id as int],
    {
        self.data[id]
    }

    /// Resolves the root of `id`, pointing `id` straight at it on the way back.
    fn find(&mut self, id: usize) -> (r: usize)
        requires
            old(self).wf(),
            id < old(self).data@.len(),
        ensures
            final(self).wf(),
            r as int == old(self).roots@[id as int],
            final(self).ids@ == old(self).ids@,
            final(self).roots@ == old(self).roots@,
            final(self).levels@ == old(self).levels@,
            final(self).top@ == old(self).top@,
            final(self).merges@ == old(self).merges@,
            final(self).root_set() == old(self).root_set(),
            final(self).data@.len() == old(self).data@.len(),
            forall|i: int|
                0 <= i < old(self).data@.len() ==> (#[trigger] final(self).data@[i]).rank
                    == old(self).data@[i].rank,
            old(self).levels@[id as int] <= old(self).levels@[r as int],
            old(self).compressed(*final(self)),
            final(self).parent_at(id as int) == r,
            old(self).parent_at(old(self).parent_at(id as int)) == old(self).parent_at(id as int)
                ==> final(self).data@ == old(self).data@,
        decreases old(self).top@ - old(self).levels@[id as int],
    {
        proof {
            assert(self.node_ok(id as int));
        }
        let node = self.get(id);
        if node.parent == id {
            id
        } else {
            proof {
                assert(self.node_ok(node.parent as int));
            }
            let root = self.find(node.parent);
            let ghost mid = *self;
            proof {
                assert(self.node_ok(root as int));
            }
            self.data.set(id, ParentPointer { parent: root, rank: node.rank });
            proof {
                assert forall|i: int| 0 <= i < self.data@.len() implies #[trigger] self.node_ok(
                    i,
                ) by {
                    assert(old(self).node_ok(i));
                    assert(mid.node_ok(i));
                    let k = choose|k: K| mid.ids@.contains_key(k) && mid.ids@[k] == i;
                    assert(self.ids@.contains_key(k) && self.ids@[k] == i);
                    assert(self.members(i) =~= mid.members(i));
                }
                assert(self.root_set() =~= old(self).root_set());
                assert(self.keys() =~= old(self).keys());
                assert forall|i: int| 0 <= i < old(self).size() implies (#[trigger] self.parent_at(i)
                    == old(self).parent_at(i) || self.parent_at(i) == old(self).root_at(i)) by {
                    assert(mid.root_at(i) == old(self).root_at(i));
                    if i != id {
                        assert(mid.parent_at(i) == self.parent_at(i));
                    } else {
                        assert(self.parent_at(i) == old(self).root_at(i));
                    }
                }
                if old(self).parent_at(node.parent as int) == node.parent {
                    assert(self.data@ =~= old(self).data@);
                }
            }
            root
        }
    }

    fn id_or_insert(&mut self, value: K) -> (r: usize)
        requires
            old(self).wf(),
            old(self).size() < usize::MAX,
        ensures
            old(self).insert_step(*final(self), value),
            final(self).ids@.contains_key(value),
            final(self).ids@[value] == r,
            r < final(self).data@.len(),
            forall|k: K| #[trigger]
                old(self).ids@.contains_key(k) ==> final(self).ids@.contains_key(k)
                    && final(self).ids@[k] == old(self).ids@[k],
            final(self).size() <= old(self).size() + 1,
            old(self).keys().contains(value) ==> *final(self) == *old(self),
            !old(self).keys().contains(value) ==> {
                &&& r == old(self).data@.len()
                &&& final(self).ids@ == old(self).ids@.insert(value, r)
                &&& final(self).data@ == old(self).data@.push(ParentPointer { parent: r, rank: 0 })
                &&& final(self).roots@ == old(self).roots@.push(r as int)
            },
    {
        match self.id(&value) {
            Some(id) => {
                proof {
                    assert(self.keys().insert(value) =~= self.keys());
                }
                id
            },
            None => self.insert_unchecked(value),
        }
    }

    /// Hangs the root `child` under the root `root`, which takes `root_rank`.
    fn attach(&mut self, child: usize, root: usize, root_rank: usize)
        requires
            old(self).wf(),
            child < old(self).data@.len(),
            root < old(self).data@.len(),
            child != root,
            old(self).roots@[child as int] == child,
            old(self).roots@[root as int] == root,
            root_rank <= old(self).merges@ + 1,
            root_rank == old(self).rank_at(root as int) || (root_rank == old(self).rank_at(
                root as int,
            ) + 1 && old(self).rank_at(child as int) == old(self).rank_at(root as int)),
        ensures
            final(self).wf(),
            final(self).data@ == old(self).data@.update(
                child as int,
                ParentPointer { parent: root, rank: old(self).data@[child as int].rank },
            ).update(root as int, ParentPointer { parent: root, rank: root_rank }),
            final(self).merges@ == old(self).merges@ + 1,
            final(self).ids@ == old(self).ids@,
            final(self).data@.len() == old(self).data@.len(),
            forall|i: int|
                0 <= i < old(self).roots@.len() ==> #[trigger] final(self).roots@[i] == if old(
                    self,
                ).roots@[i] == child {
                    root as int
                } else {
                    old(self).roots@[i]
                },
    {
        proof {
            assert(self.node_ok(child as int));
            assert(self.node_ok(root as int));
        }
        let ghost pre = *self;
        let ghost lv: nat = if pre.levels@[child as int] + 1 > pre.levels@[root as int] {
            (pre.levels@[child as int] + 1) as nat
        } else {
            pre.levels@[root as int]
        };
        let c = self.get(child);
        self.data.set(child, ParentPointer { parent: root, rank: c.rank });
        self.data.set(root, ParentPointer { parent: root, rank: root_rank });
        self.roots = Ghost(
            Seq::new(
                pre.roots@.len(),
                |i: int|
                    if pre.roots@[i] == child {
                        root as int
                    } else {
                        pre.roots@[i]
                    },
            ),
        );
        self.levels = Ghost(pre.levels@.update(root as int, lv));
        self.top = Ghost(if lv + 1 > pre.top@ { lv + 1 } else { pre.top@ });
        self.merges = Ghost(pre.merges@ + 1);
        proof {
            assert(self.root_set() =~= pre.root_set().remove(child as int));
            assert forall|i: int| 0 <= i < self.data@.len() implies #[trigger] self.node_ok(i) by {
                assert(pre.node_ok(i));
                assert(pre.node_ok(pre.parent_at(i)));
                let k = choose|k: K| pre.ids@.contains_key(k) && pre.ids@[k] == i;
                assert(self.ids@.contains_key(k) && self.ids@[k] == i);
                if i == root {
                    let mr = pre.members(root as int);
                    let mc = pre.members(child as int);
                    assert(self.members(i) =~= mr + mc);
                    pre.lemma_members_finite(root as int);
                    pre.lemma_members_finite(child as int);
                    assert(mr.disjoint(mc));
                    lemma_set_disjoint_lens(mr, mc);
                    if root_rank != pre.rank_at(root as int) {
                        lemma_pow2_unfold(root_rank as nat);
                    }
                } else if self.parent_at(i) == i {
                    assert(self.members(i) =~= pre.members(i));
                }
            }
        }
    }

    /// Checks if the two keys are members of the same set.
    /// This will not implicitly add values that were not already present.
    pub fn is_linked(&mut self, val1: &K, val2: &K) -> (r: bool)
        requires
            old(self).wf(),
        ensures
            r == old(self).linked(*val1, *val2),
            old(self).same_groups(*final(self)),
            old(self).compressed(*final(self)),
    {
        let id1 = self.id(val1);
        let id2 = self.id(val2);
        match (id1, id2) {
            (Some(a), Some(b)) => {
                let ra = self.find(a);
                let ghost mid = *self;
                let rb = self.find(b);
                proof {
                    assert(self.keys() =~= old(self).keys());
                    assert forall|i: int| 0 <= i < old(self).size() implies #[trigger] self.root_at(i)
                        == old(self).root_at(i) by {
                        assert(mid.root_at(i) == old(self).root_at(i));
                    }
                }
                ra == rb
            },
            _ => {
                proof {
                    assert(self.keys() =~= old(self).keys());
                }
                false
            },
        }
    }

    /// Link the respective sets of the two provided values. This will insert
    /// non-existent values in the process.
    pub fn link(&mut self, val1: K, val2: K)
        requires
            old(self).wf(),
            old(self).size() + 2 <= usize::MAX,
        ensures
            old(self).link_step(*final(self), val1, val2),
            final(self).linked(val1, val2),
            old(self).registers(*final(self), val1, val2),
            old(self).union_by_rank(*final(self), val1, val2),
    {
        let ghost a = val1;
        let ghost b = val2;
        let ghost s0 = *self;
        let id1 = self.id_or_insert(val1);
        let ghost s05 = *self;
        let id2 = self.id_or_insert(val2);
        let ghost s1 = *self;
        proof {
            assert(s1.ids@[a] == id1);
            assert(s1.node_ok(id1 as int));
            assert(s1.node_ok(id2 as int));
        }
        let root1 = self.find(id1);
        let root2 = self.find(id2);
        let ghost s2 = *self;
        if root1 != root2 {
            proof {
                assert(s2.node_ok(root1 as int));
                assert(s2.node_ok(root2 as int));
                assert(s1.node_ok(root1 as int));
                assert(s1.node_ok(root2 as int));
                assert(s2.roots@[root1 as int] == root1);
                assert(s2.roots@[root2 as int] == root2);
                let pair = Set::<int>::empty().insert(root1 as int).insert(root2 as int);
                assert(pair.subset_of(s2.root_set()));
                lemma_len_subset(pair, s2.root_set());
            }
            let rank1 = self.get(root1).rank;
            let rank2 = self.get(root2).rank;
            proof {
                assert(self.rank_at(root1 as int) == rank1);
            }
            if rank1 < rank2 {
                self.attach(root1, root2, rank2);
            } else if rank1 == rank2 {
                // On equal ranks the root of the second key survives.
                self.attach(root1, root2, rank2 + 1);
            } else {
                self.attach(root2, root1, rank1);
            }
        }
        proof {
            assert(self.keys() =~= s0.keys().insert(a).insert(b));
            assert forall|x: K, y: K| #[trigger]
                self.linked(x, y) <==> (s1.linked(x, y) || (s1.linked(x, a) && s1.linked(y, b))
                    || (s1.linked(x, b) && s1.linked(y, a))) by {
                if s1.ids@.contains_key(x) && s1.ids@.contains_key(y) {
                    assert(s1.node_ok(s1.ids@[x] as int));
                    assert(s1.node_ok(s1.ids@[y] as int));
                }
            }
            assert forall|x: K| #[trigger] s1.linked(x, a) <==> s0.joined(x, a) by {
                assert(s05.linked(x, a) == s0.joined(x, a));
            }
            assert forall|x: K| #[trigger] s1.linked(x, b) <==> s0.joined(x, b) by {
                assert(s05.linked(x, b) == (s0.linked(x, b) || (x == b && b == a)));
            }
            // The registered state adds fresh roots after the old records.
            assert forall|i: int| 0 <= i < s1.size() implies {
                &&& (#[trigger] s1.data@[i]).rank == s0.rank_for(i)
                &&& (i < s0.size() ==> s1.data@[i] == s0.data@[i] && s1.roots@[i] == s0.roots@[i])
                &&& (i >= s0.size() ==> s1.data@[i].parent == i && s1.roots@[i] == i)
            } by {
                if i < s05.size() {
                    assert(s05.data@[i] == s1.data@[i]);
                    assert(s05.roots@[i] == s1.roots@[i]);
                }
            }
            assert(s0.root_for(*self, a) == root1 as int) by {
                if s0.keys().contains(a) {
                    assert(s0.node_ok(s0.ids@[a] as int));
                }
            }
            assert(s0.root_for(*self, b) == root2 as int) by {
                if s0.keys().contains(b) {
                    assert(s0.node_ok(s0.ids@[b] as int));
                    assert(s05.ids@[b] == s0.ids@[b]);
                } else if b != a {
                    assert(s05.ids@[a] == id1);
                }
            }
            assert(s0.rank_for(root1 as int) == s2.data@[root1 as int].rank) by {
                assert(s1.data@[root1 as int].rank == s0.rank_for(root1 as int));
            }
            assert(s0.rank_for(root2 as int) == s2.data@[root2 as int].rank) by {
                assert(s1.data@[root2 as int].rank == s0.rank_for(root2 as int));
            }
            assert forall|i: int| 0 <= i < self.size() implies #[trigger] self.rank_at(i)
                == s0.rank_for(i) || (i == root2 && root1 != root2 && s2.data@[root1 as int].rank
                == s2.data@[root2 as int].rank) by {
                assert(s1.data@[i].rank == s0.rank_for(i));
                assert(s2.rank_at(i) == s1.rank_at(i));
            }
            assert forall|i: int| 0 <= i < self.size() && i != root1 && i != root2 implies (
            #[trigger] self.parent_at(i) == s2.parent_at(i)) by {}
            assert forall|i: int| 0 <= i < self.size() implies (s2.parent_at(i) == s1.parent_at(i)
                || #[trigger] s2.parent_at(i) == s1.root_at(i)) by {
                assert(s2.root_at(i) == s1.root_at(i));
            }
            assert(s1.node_ok(root1 as int));
            assert(s1.node_ok(root2 as int));
        }
    }

    /// Insert the value as a new disjoint set with a single member. Returns
    /// true if the value was not already present.
    pub fn insert(&mut self, val: K) -> (r: bool)
        requires
            old(self).wf(),
            old(self).size() < usize::MAX,
        ensures
            r == !old(self).keys().contains(val),
            old(self).insert_step(*final(self), val),
            final(self).size() == old(self).size() + if r { 1nat } else { 0nat },
            !r ==> *final(self) == *old(self),
            r ==> {
                &&& old(self).extends(*final(self))
                &&& final(self).id_of(val) == old(self).size()
                &&& final(self).fresh_root(old(self).size() as int)
            },
    {
        if self.contains(&val) {
            proof {
                assert(self.keys().insert(val) =~= self.keys());
            }
            false
        } else {
            self.insert_unchecked(val);
            true
        }
    }

    /// Inserting a key twice: the first call registers it, so the second
    /// finds it present and changes nothing.
    pub proof fn lemma_insert_twice(s0: Self, s1: Self, s2: Self, k: K)
        requires
            s0.wf(),
            s0.insert_step(s1, k),
            s1.insert_step(s2, k),
        ensures
            s1.keys().contains(k),
            s2.keys().contains(k),
            s2.keys() == s1.keys(),
    {
        assert(s1.keys().insert(k) =~= s1.keys());
    }

    /// Being linked is symmetric.
    pub proof fn lemma_linked_symmetric(s: Self, a: K, b: K)
        requires
            s.wf(),
        ensures
            s.linked(a, b) == s.linked(b, a),
    {
    }

    /// Every registered key is linked to itself.
    pub proof fn lemma_linked_reflexive(s: Self, k: K)
        requires
            s.wf(),
            s.keys().contains(k),
        ensures
            s.linked(k, k),
    {
    }

    /// Being linked is transitive.
    pub proof fn lemma_linked_transitive(s: Self, a: K, b: K, c: K)
        requires
            s.wf(),
            s.linked(a, b),
            s.linked(b, c),
        ensures
            s.linked(a, c),
    {
    }

    /// Linking `a` with `b` and then `b` with `c` links `a` with `c`.
    pub proof fn lemma_link_chain(s0: Self, s1: Self, s2: Self, a: K, b: K, c: K)
        requires
            s0.wf(),
            s0.link_step(s1, a, b),
            s1.link_step(s2, b, c),
        ensures
            s2.linked(a, c),
    {
        assert(s1.linked(a, b));
        assert(s2.linked(a, c));
    }

    /// A key that was never registered is linked to nothing, in either
    /// position.
    pub proof fn lemma_unknown_not_linked(s: Self, x: K, y: K)
        requires
            s.wf(),
            !s.keys().contains(x),
        ensures
            !s.linked(x, y),
            !s.linked(y, x),
    {
    }

    /// Linking two keys that are already linked changes no identifier, no
    /// rank and no group.
    pub proof fn lemma_relink_keeps_records(s0: Self, s1: Self, a: K, b: K)
        requires
            s0.wf(),
            s0.linked(a, b),
            s0.link_step(s1, a, b),
            s0.registers(s1, a, b),
            s0.union_by_rank(s1, a, b),
        ensures
            s1.size() == s0.size(),
            s1.keys() == s0.keys(),
            forall|k: K| s0.keys().contains(k) ==> #[trigger] s1.id_of(k) == s0.id_of(k),
            forall|i: int| 0 <= i < s0.size() ==> #[trigger] s1.rank_at(i) == s0.rank_at(i),
            forall|x: K, y: K| #[trigger] s1.linked(x, y) == s0.linked(x, y),
    {
        assert(s1.keys() =~= s0.keys());
        assert forall|x: K, y: K| #[trigger] s1.linked(x, y) == s0.linked(x, y) by {
            if s0.joined(x, a) && s0.joined(y, b) {
                assert(s0.linked(x, y));
            }
            if s0.joined(x, b) && s0.joined(y, a) {
                assert(s0.linked(x, y));
            }
        }
        assert forall|i: int| 0 <= i < s0.size() implies #[trigger] s1.rank_at(i) == s0.rank_at(i) by {
            assert(s1.rank_at(i) == s0.rank_for(i));
        }
    }

    /// Builds the structure from a sequence of edges, linking each pair in turn.
    pub fn from_iter(links: Vec<(K, K)>) -> (r: Self)
        requires
            obeys_key_model::<K>(),
            2 * links@.len() <= usize::MAX,
        ensures
            r.wf(),
            r.keys() == edge_keys(links@),
            forall|x: K, y: K| #[trigger] r.linked(x, y) == edge_linked(links@, x, y),
            r.size() <= 2 * links@.len(),
            r.size() == edge_order(links@).len(),
            forall|j: int|
                0 <= j < edge_order(links@).len() ==> r.id_of(#[trigger] edge_order(links@)[j])
                    == j,
    {
        let ghost edges = links@;
        let mut djhs = Self::new();
        for e in it: links.into_iter()
            invariant
                it.seq() == edges,
                2 * edges.len() <= usize::MAX,
                djhs.wf(),
                djhs.size() <= 2 * it.index(),
                djhs.keys() == edge_keys(edges.take(it.index() as int)),
                forall|x: K, y: K| #[trigger]
                    djhs.linked(x, y) == edge_linked(edges.take(it.index() as int), x, y),
                djhs.size() == edge_order(edges.take(it.index() as int)).len(),
                forall|j: int|
                    0 <= j < edge_order(edges.take(it.index() as int)).len() ==> {
                        let k = #[trigger] edge_order(edges.take(it.index() as int))[j];
                        djhs.keys().contains(k) && djhs.id_of(k) == j
                    },
                forall|k: K|
                    #[trigger] djhs.keys().contains(k) ==> edge_order(
                        edges.take(it.index() as int),
                    ).contains(k),
        {
            let ghost pre = djhs;
            let ghost i = it.index() as int;
            let (a, b) = e;
            djhs.link(a, b);
            proof {
                let t = edges.take(i + 1);
                assert(t.drop_last() =~= edges.take(i));
                assert(t.last() == (a, b));
                let o = edge_order(edges.take(i));
                let o1 = if o.contains(a) {
                    o
                } else {
                    o.push(a)
                };
                assert(pre.keys().contains(a) == o.contains(a)) by {
                    if o.contains(a) {
                        let j = choose|j: int| 0 <= j < o.len() && o[j] == a;
                    }
                }
                assert(o1.contains(a)) by {
                    if !o.contains(a) {
                        assert(o1[o.len() as int] == a);
                    }
                }
                assert forall|j: int| 0 <= j < o.len() implies #[trigger] o1[j] == o[j] by {}
                assert(pre.keys().contains(b) || b == a <==> o1.contains(b)) by {
                    if o.contains(b) {
                        let j = choose|j: int| 0 <= j < o.len() && o[j] == b;
                        assert(pre.keys().contains(o[j]));
                        assert(o1[j] == b);
                    }
                    if pre.keys().contains(b) {
                        assert(o.contains(b));
                    }
                    if o1.contains(b) && !o.contains(b) {
                        let j = choose|j: int| 0 <= j < o1.len() && o1[j] == b;
                        assert(j == o.len());
                    }
                }
                let o2 = edge_order(t);
                assert forall|j: int| 0 <= j < o1.len() implies #[trigger] o2[j] == o1[j] by {}
                assert(o2.contains(b)) by {
                    if !o1.contains(b) {
                        assert(o2[o1.len() as int] == b);
                    }
                }
                assert(o2.contains(a)) by {
                    let j = choose|j: int| 0 <= j < o1.len() && o1[j] == a;
                    assert(o2[j] == a);
                }
                assert forall|k: K| #[trigger] djhs.keys().contains(k) implies o2.contains(k) by {
                    if pre.keys().contains(k) {
                        assert(o.contains(k));
                        let j = choose|j: int| 0 <= j < o.len() && o[j] == k;
                        assert(o1[j] == k);
                        assert(o2[j] == k);
                    }
                }
                assert forall|j: int| 0 <= j < o2.len() implies {
                    let k = #[trigger] o2[j];
                    djhs.keys().contains(k) && djhs.id_of(k) == j
                } by {
                    if j < o.len() {
                        assert(o2[j] == o[j]);
                        assert(pre.keys().contains(o[j]));
                    }
                }
            }
        }
        proof {
            assert(edges.take(edges.len() as int) =~= edges);
        }
        djhs
    }

    /// Consumes the structure and returns one set of keys for each group.
    pub fn sets(self) -> (r: Vec<HashSet<K>>)
        requires
            self.wf(),
        ensures
            forall|i: int| 0 <= i < r@.len() ==> #[trigger] r@[i]@ != Set::<K>::empty(),
            r@.len() == self.group_roots().len(),
            forall|i: int, k: K|
                0 <= i < r@.len() && #[trigger] r@[i]@.contains(k) ==> self.keys().contains(k),
            forall|k: K|
                self.keys().contains(k) ==> exists|i: int|
                    0 <= i < r@.len() && #[trigger] r@[i]@.contains(k),
            forall|i: int, j: int, a: K, b: K|
                0 <= i < r@.len() && 0 <= j < r@.len() && #[trigger] r@[i]@.contains(a)
                    && #[trigger] r@[j]@.contains(b) ==> (i == j <==> self.linked(a, b)),
    {
        let ghost s0 = self;
        let ghost m = self.ids@;
        let ghost rt = self.roots@;
        let mut this = self;
        let n = this.data.len();
        let mut roots: Vec<usize> = Vec::new();
        let mut i: usize = 0;
        while i < n
            invariant
                this.wf(),
                this.data@.len() == n,
                this.ids@ == m,
                this.roots@ == rt,
                i <= n,
                roots@.len() == i,
                forall|j: int| 0 <= j < i ==> roots@[j] as int == rt[j],
            decreases n - i,
        {
            let r = this.find(i);
            roots.push(r);
            i = i + 1;
        }
        proof {
            assert forall|k: K| #[trigger] m.contains_key(k) implies m[k] < n && 0 <= rt[m[k] as int]
                < n by {
                assert(this.node_ok(m[k] as int));
            }
        }
        let mut group_of: Vec<Option<usize>> = Vec::new();
        let mut i: usize = 0;
        while i < n
            invariant
                i <= n,
                group_of@.len() == i,
                forall|j: int| 0 <= j < i ==> group_of@[j] is None,
            decreases n - i,
        {
            group_of.push(None);
            i = i + 1;
        }
        let ghost t = this;
        let mut pairs = entries(this.ids);
        let ghost all = pairs@;
        let mut groups: Vec<HashSet<K>> = Vec::new();
        let ghost mut grp_root: Seq<int> = Seq::empty();
        let ghost mut wit: Seq<K> = Seq::empty();
        while pairs.len() > 0
            invariant
                obeys_key_model::<K>(),
                rt.len() == n,
                forall|k: K| #[trigger] m.contains_key(k) ==> m[k] < n && 0 <= rt[m[k] as int] < n,
                forall|j: int|
                    0 <= j < all.len() ==> m.contains_key(#[trigger] all[j].0) && m[all[j].0]
                        == all[j].1,
                roots@.len() == n,
                forall|j: int| 0 <= j < n ==> roots@[j] as int == rt[j],
                pairs@.len() <= all.len(),
                forall|j: int| 0 <= j < pairs@.len() ==> #[trigger] pairs@[j] == all[j],
                group_of@.len() == n,
                grp_root.len() == groups@.len(),
                wit.len() == groups@.len(),
                forall|g: int|
                    0 <= g < groups@.len() ==> 0 <= #[trigger] grp_root[g] < n && group_of@[grp_root[g]]
                        == Some(g as usize) && groups@[g]@.contains(wit[g]),
                forall|q: int|
                    0 <= q < n && #[trigger] group_of@[q] is Some ==> group_of@[q]->0
                        < groups@.len() && grp_root[group_of@[q]->0 as int] == q,
                forall|g: int, k: K|
                    0 <= g < groups@.len() && #[trigger] groups@[g]@.contains(k) ==> m.contains_key(
                        k,
                    ) && rt[m[k] as int] == grp_root[g],
                forall|j: int|
                    pairs@.len() <= j < all.len() ==> {
                        &&& #[trigger] group_of@[rt[all[j].1 as int]] is Some
                        &&& groups@[group_of@[rt[all[j].1 as int]]->0 as int]@.contains(all[j].0)
                    },
            decreases pairs@.len(),
        {
            let (k, id) = pairs.pop().unwrap();
            let ghost jj = pairs@.len() as int;
            proof {
                assert(m.contains_key(all[jj].0));
            }
            let r = roots[id];
            let g = match group_of[r] {
                Some(g) => g,
                None => {
                    let g = groups.len();
                    groups.push(HashSet::new());
                    group_of.set(r, Some(g));
                    proof {
                        grp_root = grp_root.push(r as int);
                        wit = wit.push(k);
                    }
                    g
                },
            };
            groups[g].insert(k);
        }
        let total = groups.len();
        proof {
            assert forall|k: K| s0.keys().contains(k) implies exists|i: int|
                0 <= i < groups@.len() && #[trigger] groups@[i]@.contains(k) by {
                let j = choose|j: int| 0 <= j < all.len() && #[trigger] all[j].0 == k;
                let q = rt[all[j].1 as int];
                assert(group_of@[q] is Some);
            }
            assert forall|i: int| 0 <= i < groups@.len() implies #[trigger] groups@[i]@
                != Set::<K>::empty() by {
                assert(0 <= grp_root[i] < n);
                assert(groups@[i]@.contains(wit[i]));
                assert(!Set::<K>::empty().contains(wit[i]));
            }
            assert forall|i: int, j: int, a: K, b: K|
                0 <= i < groups@.len() && 0 <= j < groups@.len() && #[trigger] groups@[i]@.contains(
                    a,
                ) && #[trigger] groups@[j]@.contains(b) implies (i == j <==> s0.linked(a, b)) by {
                assert(0 <= grp_root[i] < n);
                assert(0 <= grp_root[j] < n);
                assert(rt[m[a] as int] == grp_root[i]);
                assert(rt[m[b] as int] == grp_root[j]);
                assert(m.contains_key(a) && m.contains_key(b));
                assert(s0.linked(a, b) == (rt[m[a] as int] == rt[m[b] as int]));
                if grp_root[i] == grp_root[j] {
                    assert(group_of@[grp_root[i]] == Some(i as usize));
                    assert(group_of@[grp_root[j]] == Some(j as usize));
                    assert(i < total && j < total);
                }
            }
            // One group for each root.
            assert(grp_root.no_duplicates()) by {
                assert forall|g1: int, g2: int|
                    0 <= g1 < grp_root.len() && 0 <= g2 < grp_root.len() && g1 != g2 implies
                    grp_root[g1] != grp_root[g2] by {
                    assert(0 <= grp_root[g1] < n);
                    assert(0 <= grp_root[g2] < n);
                    assert(g1 < total && g2 < total);
                }
            }
            assert(grp_root.to_set() =~= s0.group_roots()) by {
                assert forall|q: int| grp_root.to_set().contains(q) implies #[trigger]
                    s0.group_roots().contains(q) by {
                    let g = choose|g: int| 0 <= g < grp_root.len() && grp_root[g] == q;
                    assert(0 <= grp_root[g] < n);
                    assert(groups@[g]@.contains(wit[g]));
                    let ki = m[wit[g]] as int;
                    assert(t.node_ok(ki));
                    assert(t.node_ok(rt[ki]));
                }
                assert forall|q: int| #[trigger] s0.group_roots().contains(q) implies
                    grp_root.to_set().contains(q) by {
                    assert(t.node_ok(q));
                    let k = choose|k: K| t.ids@.contains_key(k) && t.ids@[k] == q;
                    let j = choose|j: int| 0 <= j < all.len() && #[trigger] all[j].0 == k;
                    assert(group_of@[rt[all[j].1 as int]] is Some);
                    let g = group_of@[q]->0 as int;
                    assert(grp_root[g] == q);
                }
            }
            grp_root.unique_seq_to_set();
        }
        groups
    }
}

/// The keys named by a sequence of edges.
pub open spec fn edge_keys<K>(edges: Seq<(K, K)>) -> Set<K>
    decreases edges.len(),
{
    if edges.len() == 0 {
        Set::empty()
    } else {
        edge_keys(edges.drop_last()).insert(edges.last().0).insert(edges.last().1)
    }
}

/// The keys named by a sequence of edges, each once, in the order in which
/// they first appear.
pub open spec fn edge_order<K>(edges: Seq<(K, K)>) -> Seq<K>
    decreases edges.len(),
{
    if edges.len() == 0 {
        Seq::empty()
    } else {
        let o = edge_order(edges.drop_last());
        let a = edges.last().0;
        let b = edges.last().1;
        let o1 = if o.contains(a) {
            o
        } else {
            o.push(a)
        };
        if o1.contains(b) {
            o1
        } else {
            o1.push(b)
        }
    }
}

/// `x` and `y` are in one group once every edge of the sequence was linked,
/// in order, starting from an empty structure.
pub open spec fn edge_linked<K>(edges: Seq<(K, K)>, x: K, y: K) -> bool
    decreases edges.len(),
{
    if edges.len() == 0 {
        false
    } else {
        let e = edges.drop_last();
        let a = edges.last().0;
        let b = edges.last().1;
        ||| edge_linked(e, x, y)
        ||| (x == y && (x == a || x == b))
        ||| ((x == a || edge_linked(e, x, a)) && (y == b || edge_linked(e, y, b)))
        ||| ((x == b || edge_linked(e, x, b)) && (y == a || edge_linked(e, y, a)))
    }
}

/// Relies on `HashMap::into_iter`, collected into a `Vec`: it moves every
/// key-value pair of the map out, in an unspecified order.
#[verifier::external_body]
fn entries<K: Eq + Hash>(m: HashMap<K, usize>) -> (r: Vec<(K, usize)>)
    requires
        obeys_key_model::<K>(),
    ensures
        forall|i: int|
            0 <= i < r@.len() ==> m@.contains_key(#[trigger] r@[i].0) && m@[r@[i].0] == r@[i].1,
        forall|k: K|
            m@.contains_key(k) ==> exists|i: int| 0 <= i < r@.len() && #[trigger] r@[i].0 == k,
{
    m.into_iter().collect()
}

} // verus!
