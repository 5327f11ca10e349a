//! The population of tree groups that the training of one class keeps:
//! which groups live, which trees they keep, and how many nodes they may
//! hold. Trees are opaque here; each comes with its node count and, once
//! scored, with an integer that orders it by score (higher is better).

use vstd::prelude::*;

use crate::order::{
    arrange, is_sorted_order, lemma_marked_positions, marked, marked_positions, retain_marked,
    sorted_order,
};
use crate::outcome::Class;

verus! {

/// `rand::seq::SliceRandom::choose` on the thread's generator: one element
/// of `v` drawn at random, or nothing when `v` is empty, as rand documents
/// it; which element comes is left open.
#[verifier::external_body]
fn choose_from<T>(v: &Vec<T>) -> (r: Option<&T>)
    ensures
        match r {
            None => v@.len() == 0,
            Some(x) => exists|i: int| 0 <= i < v@.len() && *x == v@[i],
        },
{
    rand::seq::SliceRandom::choose(v.as_slice(), &mut rand::thread_rng())
}

/// The name of a group, unique within one training.
#[derive(Clone, Copy, Debug, PartialEq, Eq, Structural, Hash)]
pub struct GroupId(pub u64);

/// A tree that has not been scored yet, with its node count.
pub struct Fresh<Tr> {
    pub tree: Tr,
    pub nodes: usize,
}

/// A scored tree: its node count, and an integer that orders trees by
/// score, higher meaning better.
pub struct Scored<Tr> {
    pub tree: Tr,
    pub score: u64,
    pub nodes: usize,
}

/// The sum of the node counts of `trees`.
pub open spec fn fresh_nodes<Tr>(trees: Seq<Fresh<Tr>>) -> int
    decreases trees.len(),
{
    if trees.len() == 0 {
        0
    } else {
        fresh_nodes(trees.drop_last()) + trees.last().nodes
    }
}

/// The sum of the node counts of `trees`.
pub open spec fn scored_nodes<Tr>(trees: Seq<Scored<Tr>>) -> int
    decreases trees.len(),
{
    if trees.len() == 0 {
        0
    } else {
        scored_nodes(trees.drop_last()) + trees.last().nodes
    }
}

/// The scores of `trees`, in order.
pub open spec fn scores<Tr>(trees: Seq<Scored<Tr>>) -> Seq<u64> {
    Seq::new(trees.len(), |i: int| trees[i].score)
}

/// A group of trees bred from one ancestor: fresh trees waiting to be
/// scored, and scored trees.
pub struct ClassGroup<Tr> {
    id: GroupId,
    fresh: Vec<Fresh<Tr>>,
    scored: Vec<Scored<Tr>>,
}

impl<Tr> ClassGroup<Tr> {
    pub closed spec fn id_view(&self) -> GroupId {
        self.id
    }

    pub closed spec fn fresh_view(&self) -> Seq<Fresh<Tr>> {
        self.fresh@
    }

    pub closed spec fn scored_view(&self) -> Seq<Scored<Tr>> {
        self.scored@
    }

    /// Whether `tree` is one of its scored trees.
    pub open spec fn has_scored(&self, tree: Scored<Tr>) -> bool {
        exists|j: int| 0 <= j < self.scored_view().len() && tree == self.scored_view()[j]
    }

    /// The nodes of all its trees.
    pub open spec fn total_nodes(&self) -> int {
        scored_nodes(self.scored_view()) + fresh_nodes(self.fresh_view())
    }

    /// A group named `id` whose trees are all fresh.
    pub fn create(id: GroupId, fresh: Vec<Fresh<Tr>>) -> (g: Self)
        ensures
            g.id_view() == id,
            g.fresh_view() == fresh@,
            g.scored_view().len() == 0,
    {
        ClassGroup { id, fresh, scored: Vec::new() }
    }

    /// Its name.
    pub fn id(&self) -> (id: GroupId)
        ensures
            id == self.id_view(),
    {
        self.id
    }

    /// Its fresh trees.
    pub fn fresh(&self) -> (f: &Vec<Fresh<Tr>>)
        ensures
            f@ == self.fresh_view(),
    {
        &self.fresh
    }

    /// Its scored trees.
    pub fn scored(&self) -> (s: &Vec<Scored<Tr>>)
        ensures
            s@ == self.scored_view(),
    {
        &self.scored
    }

    /// Adds a fresh tree.
    pub fn add_fresh(&mut self, tree: Fresh<Tr>)
        ensures
            final(self).id_view() == old(self).id_view(),
            final(self).fresh_view() == old(self).fresh_view().push(tree),
            final(self).scored_view() == old(self).scored_view(),
    {
        self.fresh.push(tree);
    }

    /// Hands out the fresh trees, leaving none.
    pub fn take_fresh(&mut self) -> (trees: Vec<Fresh<Tr>>)
        ensures
            trees@ == old(self).fresh_view(),
            final(self).id_view() == old(self).id_view(),
            final(self).fresh_view().len() == 0,
            final(self).scored_view() == old(self).scored_view(),
    {
        let mut trees: Vec<Fresh<Tr>> = Vec::new();
        std::mem::swap(&mut self.fresh, &mut trees);
        trees
    }

    /// Adds a scored tree.
    pub fn add_scored(&mut self, tree: Scored<Tr>)
        ensures
            final(self).id_view() == old(self).id_view(),
            final(self).fresh_view() == old(self).fresh_view(),
            final(self).scored_view() == old(self).scored_view().push(tree),
    {
        self.scored.push(tree);
    }

    /// The parents to breed from until the group holds `count` fresh trees:
    /// each one stands for three children, so there is one per three
    /// missing trees, rounded up; each is one of the scored trees, picked at
    /// random.
    pub fn breed(&self, count: usize) -> (parents: Vec<&Scored<Tr>>)
        requires
            self.fresh_view().len() < count ==> self.scored_view().len() > 0,
        ensures
            parents@.len() == (if self.fresh_view().len() >= count {
                0
            } else {
                (count - self.fresh_view().len() + 2) / 3
            }),
            forall|i: int| 0 <= i < parents@.len() ==> self.has_scored(*#[trigger] parents@[i]),
    {
        let mut parents: Vec<&Scored<Tr>> = Vec::new();
        let f = self.fresh.len();
        if f >= count {
            return parents;
        }
        let need = count - f;
        let mut left = need;
        while left > 0
            invariant
                self.scored_view().len() > 0,
                need == count - self.fresh_view().len(),
                left > 0 ==> left == need - 3 * parents@.len(),
                left == 0 ==> parents@.len() == (need + 2) / 3,
                forall|i: int| 0 <= i < parents@.len() ==> self.has_scored(*#[trigger] parents@[i]),
            decreases left,
        {
            let parent = match choose_from(&self.scored) {
                Some(t) => t,
                None => {
                    return parents;
                },
            };
            let ghost before = parents@;
            parents.push(parent);
            proof {
                let j = choose|j: int| 0 <= j < self.scored@.len() && *parent == self.scored@[j];
                assert forall|i: int| 0 <= i < parents@.len() implies self.has_scored(*#[trigger] parents@[i]) by {
                    if i < before.len() {
                        assert(parents@[i] == before[i]);
                    } else {
                        assert(*parents@[i] == self.scored_view()[j]);
                    }
                }
            }
            if left <= 3 {
                left = 0;
            } else {
                left = left - 3;
            }
        }
        parents
    }

    /// The first of its best scored trees, if it has any.
    pub fn best(&self) -> (b: Option<&Scored<Tr>>)
        ensures
            self.scored_view().len() == 0 ==> b is None,
            self.scored_view().len() > 0 ==> exists|i: int|
                0 <= i < self.scored_view().len() && b == Some(&self.scored_view()[i])
                    && (forall|j: int| 0 <= j < self.scored_view().len() ==> self.scored_view()[j].score
                    <= self.scored_view()[i].score) && (forall|j: int|
                    0 <= j < i ==> self.scored_view()[j].score < self.scored_view()[i].score),
    {
        if self.scored.len() == 0 {
            return None;
        }
        let mut best: usize = 0;
        let mut i: usize = 1;
        while i < self.scored.len()
            invariant
                0 <= best < i <= self.scored@.len(),
                forall|j: int| 0 <= j < i ==> self.scored@[j].score <= self.scored@[best as int].score,
                forall|j: int| 0 <= j < best ==> self.scored@[j].score < self.scored@[best as int].score,
            decreases self.scored@.len() - i,
        {
            if self.scored[i].score > self.scored[best].score {
                best = i;
            }
            i += 1;
        }
        Some(&self.scored[best])
    }

    /// Keeps the `length` best scored trees, best first.
    pub fn remove_weak_trees(&mut self, length: usize)
        ensures
            final(self).id_view() == old(self).id_view(),
            final(self).fresh_view() == old(self).fresh_view(),
            exists|order: Seq<usize>|
                is_sorted_order(scores(old(self).scored_view()), true, order)
                    && final(self).scored_view() == Seq::new(
                    (if length < old(self).scored_view().len() {
                        length as nat
                    } else {
                        old(self).scored_view().len()
                    }),
                    |k: int| old(self).scored_view()[order[k] as int],
                ),
    {
        let mut keys: Vec<u64> = Vec::new();
        let mut i: usize = 0;
        while i < self.scored.len()
            invariant
                i <= self.scored@.len(),
                keys@ == scores(self.scored@).take(i as int),
            decreases self.scored@.len() - i,
        {
            keys.push(self.scored[i].score);
            i += 1;
            assert(keys@ =~= scores(self.scored@).take(i as int));
        }
        assert(keys@ =~= scores(self.scored@));
        let order = sorted_order(&keys, true);
        let n = if length < order.len() { length } else { order.len() };
        let mut trees: Vec<Scored<Tr>> = Vec::new();
        std::mem::swap(&mut self.scored, &mut trees);
        self.scored = arrange(trees, &order, n);
        assert(is_sorted_order(scores(old(self).scored_view()), true, order@));
    }

    /// The nodes of all its trees.
    pub fn nodes_count(&self) -> (n: usize)
        requires
            self.total_nodes() <= usize::MAX,
        ensures
            n == self.total_nodes(),
    {
        proof {
            lemma_nodes_nonneg(self.scored@, self.fresh@);
        }
        let mut a: usize = 0;
        let mut i: usize = 0;
        while i < self.scored.len()
            invariant
                i <= self.scored@.len(),
                a == scored_nodes(self.scored@.take(i as int)),
                scored_nodes(self.scored@) + fresh_nodes(self.fresh@) <= usize::MAX,
                fresh_nodes(self.fresh@) >= 0,
            decreases self.scored@.len() - i,
        {
            assert(self.scored@.take(i + 1).drop_last() =~= self.scored@.take(i as int));
            proof {
                lemma_scored_prefix(self.scored@, i + 1);
            }
            a = a + self.scored[i].nodes;
            i += 1;
        }
        assert(self.scored@.take(i as int) =~= self.scored@);
        let mut b: usize = 0;
        let mut j: usize = 0;
        while j < self.fresh.len()
            invariant
                j <= self.fresh@.len(),
                b == fresh_nodes(self.fresh@.take(j as int)),
                a + fresh_nodes(self.fresh@) <= usize::MAX,
                a >= 0,
            decreases self.fresh@.len() - j,
        {
            assert(self.fresh@.take(j + 1).drop_last() =~= self.fresh@.take(j as int));
            proof {
                lemma_fresh_prefix(self.fresh@, j + 1);
            }
            b = b + self.fresh[j].nodes;
            j += 1;
        }
        assert(self.fresh@.take(j as int) =~= self.fresh@);
        a + b
    }
}

proof fn lemma_scored_prefix<Tr>(trees: Seq<Scored<Tr>>, k: int)
    requires
        0 <= k <= trees.len(),
    ensures
        0 <= scored_nodes(trees.take(k)) <= scored_nodes(trees),
    decreases trees.len(),
{
    if trees.len() > 0 {
        if k == trees.len() {
            assert(trees.take(k) =~= trees);
            lemma_scored_prefix(trees.drop_last(), k - 1);
            assert(trees.drop_last().take(k - 1) =~= trees.drop_last());
        } else {
            lemma_scored_prefix(trees.drop_last(), k);
            assert(trees.drop_last().take(k) =~= trees.take(k));
        }
    }
}

proof fn lemma_fresh_prefix<Tr>(trees: Seq<Fresh<Tr>>, k: int)
    requires
        0 <= k <= trees.len(),
    ensures
        0 <= fresh_nodes(trees.take(k)) <= fresh_nodes(trees),
    decreases trees.len(),
{
    if trees.len() > 0 {
        if k == trees.len() {
            assert(trees.take(k) =~= trees);
            lemma_fresh_prefix(trees.drop_last(), k - 1);
            assert(trees.drop_last().take(k - 1) =~= trees.drop_last());
        } else {
            lemma_fresh_prefix(trees.drop_last(), k);
            assert(trees.drop_last().take(k) =~= trees.take(k));
        }
    }
}

proof fn lemma_nodes_nonneg<Tr>(scored: Seq<Scored<Tr>>, fresh: Seq<Fresh<Tr>>)
    ensures
        scored_nodes(scored) >= 0,
        fresh_nodes(fresh) >= 0,
{
    lemma_scored_prefix(scored, 0);
    lemma_fresh_prefix(fresh, 0);
}

/// The position of the group named `id` in `groups`.
pub open spec fn position_of<Tr>(groups: Seq<ClassGroup<Tr>>, id: GroupId) -> int {
    choose|i: int| 0 <= i < groups.len() && groups[i].id_view() == id
}

/// Whether a group named `id` is among `groups`.
pub open spec fn has_group<Tr>(groups: Seq<ClassGroup<Tr>>, id: GroupId) -> bool {
    exists|i: int| 0 <= i < groups.len() && groups[i].id_view() == id
}

/// The node count of each group, as sort keys.
pub open spec fn size_keys<Tr>(groups: Seq<ClassGroup<Tr>>) -> Seq<u64> {
    Seq::new(groups.len(), |i: int| groups[i].total_nodes() as u64)
}

/// The node counts of all `groups`.
pub open spec fn all_nodes<Tr>(groups: Seq<ClassGroup<Tr>>) -> int
    decreases groups.len(),
{
    if groups.len() == 0 {
        0
    } else {
        all_nodes(groups.drop_last()) + groups.last().total_nodes()
    }
}

/// The nodes of the first `k` groups in `order`.
pub open spec fn prefix_nodes(sizes: Seq<u64>, order: Seq<usize>, k: int) -> int
    decreases k,
{
    if k <= 0 {
        0
    } else {
        prefix_nodes(sizes, order, k - 1) + sizes[order[k - 1] as int]
    }
}

/// `p` is the longest start of `order` whose groups fit under `limit`.
pub open spec fn longest_fitting(sizes: Seq<u64>, order: Seq<usize>, limit: int, p: int) -> bool {
    &&& 0 <= p <= order.len()
    &&& prefix_nodes(sizes, order, p) <= limit
    &&& p < order.len() ==> prefix_nodes(sizes, order, p + 1) > limit
}

/// Marks the positions named by the first `p` entries of `order`.
pub open spec fn prefix_marks(order: Seq<usize>, p: int, n: int) -> Seq<bool> {
    Seq::new(n as nat, |g: int| exists|j: int| 0 <= j < p && order[j] as int == g)
}

/// The groups that have a scored tree, in order.
pub open spec fn nonempty_groups<Tr>(groups: Seq<ClassGroup<Tr>>) -> Seq<ClassGroup<Tr>> {
    marked(
        groups,
        Seq::new(groups.len(), |i: int| groups[i].scored_view().len() > 0),
        groups.len() as int,
    )
}

/// The groups kept by `ranking` (best first): all of them while there are
/// no more than `size`, else those named by the first `size` names of it.
pub open spec fn ranked_groups<Tr>(groups: Seq<ClassGroup<Tr>>, ranking: Seq<GroupId>, size: int) -> Seq<
    ClassGroup<Tr>,
> {
    if groups.len() <= size {
        groups
    } else {
        Seq::new(
            (if size < ranking.len() { size } else { ranking.len() as int }) as nat,
            |k: int| groups[position_of(groups, ranking[k])],
        )
    }
}

/// The training of one class: groups of trees, named by numbers handed out
/// in turn, and the best tree seen so far.
pub struct ClassTraining<'o, T, Tr> {
    next_id: GroupId,
    objective: &'o T,
    size: usize,
    node_limit: usize,
    forbidden_cols: Vec<usize>,
    best_tree: Option<Scored<Tr>>,
    class: Class,
    groups: Vec<ClassGroup<Tr>>,
}

impl<'o, T, Tr> ClassTraining<'o, T, Tr> {
    pub closed spec fn next_id_view(&self) -> u64 {
        self.next_id.0
    }

    pub closed spec fn size_view(&self) -> usize {
        self.size
    }

    pub closed spec fn node_limit_view(&self) -> usize {
        self.node_limit
    }

    pub closed spec fn forbidden_cols_view(&self) -> Seq<usize> {
        self.forbidden_cols@
    }

    pub closed spec fn best_view(&self) -> Option<Scored<Tr>> {
        self.best_tree
    }

    pub closed spec fn class_view(&self) -> Class {
        self.class
    }

    pub closed spec fn objective_view(&self) -> &'o T {
        self.objective
    }

    pub closed spec fn groups_view(&self) -> Seq<ClassGroup<Tr>> {
        self.groups@
    }

    /// Group names are distinct, and all were handed out already.
    pub closed spec fn wf(&self) -> bool {
        &&& forall|i: int, j: int|
            0 <= i < self.groups@.len() && 0 <= j < self.groups@.len() && i != j
                ==> #[trigger] self.groups@[i].id != #[trigger] self.groups@[j].id
        &&& forall|i: int|
            0 <= i < self.groups@.len() ==> (#[trigger] self.groups@[i]).id.0 < self.next_id.0
    }

    /// What every step of a training keeps of an earlier state: the class
    /// trained for, and a best tree once there is one.
    pub open spec fn keeps_from(&self, earlier: &Self) -> bool {
        &&& self.class_view() == earlier.class_view()
        &&& earlier.best_view() is Some ==> self.best_view() is Some
    }

    /// Whether everything but the groups is as in `other`.
    pub open spec fn same_settings(&self, other: &Self) -> bool {
        &&& self.next_id_view() == other.next_id_view()
        &&& self.size_view() == other.size_view()
        &&& self.node_limit_view() == other.node_limit_view()
        &&& self.forbidden_cols_view() == other.forbidden_cols_view()
        &&& self.best_view() == other.best_view()
        &&& self.class_view() == other.class_view()
        &&& self.objective_view() == other.objective_view()
    }

    /// A training for `class` with no groups yet, keeping `size` trees per
    /// group and `size` groups, and at most five million nodes.
    pub fn new(size: usize, forbidden_cols: Vec<usize>, objective: &'o T, class: Class) -> (t: Self)
        ensures
            t.wf(),
            t.next_id_view() == 1,
            t.size_view() == size,
            t.node_limit_view() == 5_000_000,
            t.forbidden_cols_view() == forbidden_cols@,
            t.best_view() is None,
            t.class_view() == class,
            t.objective_view() == objective,
            t.groups_view().len() == 0,
    {
        ClassTraining {
            next_id: GroupId(1),
            size,
            forbidden_cols,
            groups: Vec::new(),
            node_limit: 5_000_000,
            best_tree: None,
            objective,
            class,
        }
    }

    /// The class trained for.
    pub fn class(&self) -> (c: &Class)
        ensures
            *c == self.class_view(),
    {
        &self.class
    }

    /// The best tree so far.
    pub fn best_tree(&self) -> (b: Option<&Scored<Tr>>)
        ensures
            match self.best_view() {
                Some(t) => b == Some(&t),
                None => b is None,
            },
    {
        match &self.best_tree {
            Some(t) => Some(t),
            None => None,
        }
    }

    /// Records `tree` as the best tree so far.
    pub fn set_best_tree(&mut self, tree: Scored<Tr>)
        ensures
            final(self).best_view() == Some(tree),
            final(self).keeps_from(old(self)),
            final(self).groups_view() == old(self).groups_view(),
            final(self).next_id_view() == old(self).next_id_view(),
            final(self).size_view() == old(self).size_view(),
            final(self).node_limit_view() == old(self).node_limit_view(),
            final(self).forbidden_cols_view() == old(self).forbidden_cols_view(),
            final(self).class_view() == old(self).class_view(),
            final(self).objective_view() == old(self).objective_view(),
    {
        self.best_tree = Some(tree);
    }

    /// What the trees are scored against.
    pub fn objective(&self) -> (o: &'o T)
        ensures
            o == self.objective_view(),
    {
        self.objective
    }

    /// How many trees a group keeps, and how many groups survive a generation.
    pub fn size(&self) -> (s: usize)
        ensures
            s == self.size_view(),
    {
        self.size
    }

    /// The columns that trees may not read.
    pub fn forbidden_cols(&self) -> (f: &Vec<usize>)
        ensures
            f@ == self.forbidden_cols_view(),
    {
        &self.forbidden_cols
    }

    /// The groups.
    pub fn groups(&self) -> (g: &Vec<ClassGroup<Tr>>)
        ensures
            g@ == self.groups_view(),
    {
        &self.groups
    }

    /// Whether `groups` may stand as the groups: their names are distinct
    /// and all were handed out already.
    pub open spec fn groups_fit(&self, groups: Seq<ClassGroup<Tr>>) -> bool {
        &&& forall|i: int, j: int|
            0 <= i < groups.len() && 0 <= j < groups.len() && i != j ==> #[trigger] groups[i].id_view()
                != #[trigger] groups[j].id_view()
        &&& forall|i: int| 0 <= i < groups.len() ==> (#[trigger] groups[i]).id_view().0 < self.next_id_view()
    }

    /// Hands out the groups to work on, leaving none.
    pub fn take_groups(&mut self) -> (g: Vec<ClassGroup<Tr>>)
        requires
            old(self).wf(),
        ensures
            g@ == old(self).groups_view(),
            old(self).groups_fit(g@),
            final(self).groups_view().len() == 0,
            final(self).wf(),
            final(self).same_settings(old(self)),
            final(self).keeps_from(old(self)),
    {
        let mut g: Vec<ClassGroup<Tr>> = Vec::new();
        std::mem::swap(&mut self.groups, &mut g);
        g
    }

    /// Whether `groups` may be put back as the groups.
    pub fn fits(&self, groups: &Vec<ClassGroup<Tr>>) -> (b: bool)
        ensures
            b == self.groups_fit(groups@),
    {
        let mut i: usize = 0;
        while i < groups.len()
            invariant
                i <= groups@.len(),
                forall|a: int, c: int|
                    0 <= a < i && 0 <= c < groups@.len() && a != c ==> #[trigger] groups@[a].id_view()
                        != #[trigger] groups@[c].id_view(),
                forall|a: int| 0 <= a < i ==> (#[trigger] groups@[a]).id_view().0 < self.next_id_view(),
            decreases groups@.len() - i,
        {
            if groups[i].id.0 >= self.next_id.0 {
                return false;
            }
            let mut j: usize = 0;
            while j < groups.len()
                invariant
                    i < groups@.len(),
                    j <= groups@.len(),
                    forall|c: int| 0 <= c < j && c != i ==> groups@[i as int].id_view() != #[trigger] groups@[c].id_view(),
                decreases groups@.len() - j,
            {
                if j != i && groups[j].id == groups[i].id {
                    return false;
                }
                j += 1;
            }
            proof {
                assert forall|a: int, c: int|
                    0 <= a < i + 1 && 0 <= c < groups@.len() && a != c implies #[trigger] groups@[a].id_view()
                        != #[trigger] groups@[c].id_view() by {
                    if a == i {
                        assert(groups@[i as int].id_view() != groups@[c].id_view());
                    }
                }
            }
            i += 1;
        }
        proof {
            assert forall|a: int, c: int|
                0 <= a < groups@.len() && 0 <= c < groups@.len() && a != c implies #[trigger] groups@[a].id_view()
                    != #[trigger] groups@[c].id_view() by {}
        }
        true
    }

    /// Puts `groups` back as the groups.
    pub fn put_groups(&mut self, groups: Vec<ClassGroup<Tr>>)
        requires
            old(self).groups_fit(groups@),
        ensures
            final(self).groups_view() == groups@,
            final(self).wf(),
            final(self).same_settings(old(self)),
            final(self).keeps_from(old(self)),
    {
        self.groups = groups;
        proof {
            assert forall|a: int, c: int|
                0 <= a < self.groups@.len() && 0 <= c < self.groups@.len() && a != c implies #[trigger] self.groups@[a].id
                    != #[trigger] self.groups@[c].id by {
                assert(groups@[a].id_view() != groups@[c].id_view());
            }
        }
    }

    /// The next group name to be handed out.
    pub fn next_id(&self) -> (id: u64)
        ensures
            id == self.next_id_view(),
    {
        self.next_id.0
    }

    /// Hands out, in turn, the names of the groups missing from twice `size`.
    pub fn fill_ids(&mut self) -> (ids: Vec<GroupId>)
        requires
            old(self).wf(),
            old(self).size_view() * 2 <= usize::MAX,
            old(self).groups_view().len() < old(self).size_view() * 2 ==> old(self).next_id_view()
                + (old(self).size_view() * 2 - old(self).groups_view().len()) <= u64::MAX,
        ensures
            ids@.len() == (if old(self).groups_view().len() < old(self).size_view() * 2 {
                old(self).size_view() * 2 - old(self).groups_view().len()
            } else {
                0
            }),
            forall|i: int| 0 <= i < ids@.len() ==> (#[trigger] ids@[i]).0 == old(self).next_id_view() + i,
            final(self).next_id_view() == old(self).next_id_view() + ids@.len(),
            final(self).groups_view() == old(self).groups_view(),
            final(self).size_view() == old(self).size_view(),
            final(self).node_limit_view() == old(self).node_limit_view(),
            final(self).forbidden_cols_view() == old(self).forbidden_cols_view(),
            final(self).best_view() == old(self).best_view(),
            final(self).class_view() == old(self).class_view(),
            final(self).objective_view() == old(self).objective_view(),
            final(self).keeps_from(old(self)),
            final(self).wf(),
    {
        let mut ids: Vec<GroupId> = Vec::new();
        let wanted = self.size * 2;
        if self.groups.len() >= wanted {
            return ids;
        }
        let missing = wanted - self.groups.len();
        let first = self.next_id.0;
        while ids.len() < missing
            invariant
                missing == old(self).size_view() * 2 - old(self).groups_view().len(),
                first == old(self).next_id_view(),
                first + missing <= u64::MAX,
                ids@.len() <= missing,
                forall|i: int| 0 <= i < ids@.len() ==> (#[trigger] ids@[i]).0 == first + i,
                self.next_id.0 == first + ids@.len(),
                self.groups@ == old(self).groups@,
                self.size == old(self).size,
                self.node_limit == old(self).node_limit,
                self.forbidden_cols@ == old(self).forbidden_cols@,
                self.best_tree == old(self).best_tree,
                self.class == old(self).class,
                self.objective == old(self).objective,
                old(self).wf(),
            decreases missing - ids@.len(),
        {
            ids.push(self.next_id);
            self.next_id = GroupId(self.next_id.0 + 1);
        }
        ids
    }

    /// Whether there are fewer than twice `size` groups.
    pub fn needs_groups(&self) -> (b: bool)
        requires
            self.size_view() * 2 <= usize::MAX,
        ensures
            b == (self.groups_view().len() < self.size_view() * 2),
    {
        self.groups.len() < self.size * 2
    }

    /// Hands out the next group name.
    pub fn take_group_id(&mut self) -> (id: GroupId)
        requires
            old(self).wf(),
            old(self).next_id_view() < u64::MAX,
        ensures
            final(self).wf(),
            id.0 == old(self).next_id_view(),
            final(self).next_id_view() == old(self).next_id_view() + 1,
            final(self).keeps_from(old(self)),
            final(self).groups_view() == old(self).groups_view(),
            final(self).size_view() == old(self).size_view(),
            final(self).node_limit_view() == old(self).node_limit_view(),
            final(self).forbidden_cols_view() == old(self).forbidden_cols_view(),
            final(self).best_view() == old(self).best_view(),
            final(self).class_view() == old(self).class_view(),
            final(self).objective_view() == old(self).objective_view(),
    {
        let id = self.next_id;
        self.next_id = GroupId(self.next_id.0 + 1);
        id
    }

    /// Adds `group`, in place of the group of the same name if there is one.
    #[verifier::loop_isolation(false)]
    pub fn insert_group(&mut self, group: ClassGroup<Tr>)
        requires
            old(self).wf(),
            group.id_view().0 < old(self).next_id_view(),
        ensures
            final(self).wf(),
            final(self).same_settings(old(self)),
            final(self).keeps_from(old(self)),
            has_group(old(self).groups_view(), group.id_view()) ==> final(self).groups_view()
                == old(self).groups_view().update(
                position_of(old(self).groups_view(), group.id_view()),
                group,
            ),
            !has_group(old(self).groups_view(), group.id_view()) ==> final(self).groups_view()
                == old(self).groups_view().push(group),
    {
        let ghost before = self.groups@;
        assert(self.wf());
        let mut i: usize = 0;
        while i < self.groups.len()
            invariant
                i <= self.groups@.len(),
                self.groups@ == before,
                *self == *old(self),
                self.wf(),
                forall|k: int| 0 <= k < i ==> self.groups@[k].id_view() != group.id_view(),
            decreases self.groups@.len() - i,
        {
            if self.groups[i].id == group.id {
                proof {
                    assert(self.groups@[i as int].id_view() == group.id_view());
                    assert(has_group(self.groups@, group.id_view()));
                    let p = position_of(self.groups@, group.id_view());
                    assert(p == i) by {
                        if p != i {
                            assert(self.groups@[p].id != self.groups@[i as int].id);
                        }
                    }
                }
                let mut g = group;
                self.groups.set_and_swap(i, &mut g);
                assert forall|a: int, b: int|
                    0 <= a < self.groups@.len() && 0 <= b < self.groups@.len() && a != b
                        implies #[trigger] self.groups@[a].id != #[trigger] self.groups@[b].id by {
                    assert(before[a].id != before[b].id);
                }
                return;
            }
            i += 1;
        }
        self.groups.push(group);
        assert forall|a: int, b: int|
            0 <= a < self.groups@.len() && 0 <= b < self.groups@.len() && a != b
                implies #[trigger] self.groups@[a].id != #[trigger] self.groups@[b].id by {
            if a < before.len() && b < before.len() {
                assert(before[a].id != before[b].id);
            }
        }
    }

    /// A scored tree picked at random: a random group, then a random scored
    /// tree of it; nothing when there are no groups or the group picked has
    /// no scored tree.
    pub fn choose_scored(&self) -> (t: Option<&Scored<Tr>>)
        ensures
            self.groups_view().len() == 0 ==> t is None,
            self.groups_view().len() > 0 && (forall|g: int|
                0 <= g < self.groups_view().len() ==> (#[trigger] self.groups_view()[g]).scored_view().len()
                    > 0) ==> t is Some,
            t matches Some(tree) ==> exists|g: int, i: int|
                0 <= g < self.groups_view().len() && 0 <= i
                    < self.groups_view()[g].scored_view().len() && *tree
                    == #[trigger] self.groups_view()[g].scored_view()[i],
    {
        let group = match choose_from(&self.groups) {
            Some(g) => g,
            None => {
                return None;
            },
        };
        let ghost g = choose|g: int| 0 <= g < self.groups@.len() && Some(group) == Some(&self.groups@[g]);
        assert(self.groups_view()[g] == *group);
        let tree = choose_from(&group.scored);
        match tree {
            Some(t) => {
                let ghost i = choose|i: int| 0 <= i < group.scored@.len() && Some(t) == Some(&group.scored@[i]);
                assert(self.groups_view()[g].scored_view()[i] == *t);
            },
            None => {},
        }
        tree
    }

    /// Drops the groups that have no scored tree.
    pub fn remove_empty_groups(&mut self)
        requires
            old(self).wf(),
        ensures
            final(self).wf(),
            final(self).same_settings(old(self)),
            final(self).keeps_from(old(self)),
            final(self).groups_view() == marked(
                old(self).groups_view(),
                Seq::new(
                    old(self).groups_view().len(),
                    |i: int| old(self).groups_view()[i].scored_view().len() > 0,
                ),
                old(self).groups_view().len() as int,
            ),
    {
        let mut keep: Vec<bool> = Vec::new();
        let mut i: usize = 0;
        while i < self.groups.len()
            invariant
                i <= self.groups@.len(),
                keep@ == Seq::new(i as nat, |k: int| self.groups@[k].scored_view().len() > 0),
            decreases self.groups@.len() - i,
        {
            keep.push(self.groups[i].scored.len() > 0);
            i += 1;
            assert(keep@ =~= Seq::new(i as nat, |k: int| self.groups@[k].scored_view().len() > 0));
        }
        let ghost before = self.groups@;
        retain_marked(&mut self.groups, &keep);
        proof {
            lemma_marked_positions(before, keep@, before.len() as int);
            let pos = marked_positions(keep@, before.len() as int);
            assert forall|i: int, j: int|
                0 <= i < self.groups@.len() && 0 <= j < self.groups@.len() && i != j
                    implies #[trigger] self.groups@[i].id != #[trigger] self.groups@[j].id by {
                assert(pos[i] != pos[j]);
                assert(self.groups@[i] == before[pos[i]]);
                assert(self.groups@[j] == before[pos[j]]);
            }
            assert forall|i: int| 0 <= i < self.groups@.len() implies (#[trigger] self.groups@[i]).id_view().0
                < self.next_id.0 by {
                assert(self.groups@[i] == before[pos[i]]);
            }
        }
    }

    /// Keeps the node count under the limit: when the groups hold more
    /// nodes than `node_limit`, orders them smallest first (equal sizes in
    /// their order) and keeps the longest start of that order that fits.
    pub fn keep_node_limit(&mut self)
        requires
            old(self).wf(),
            all_nodes(old(self).groups_view()) <= usize::MAX,
        ensures
            final(self).wf(),
            final(self).same_settings(old(self)),
            final(self).keeps_from(old(self)),
            all_nodes(old(self).groups_view()) <= old(self).node_limit_view()
                ==> final(self).groups_view() == old(self).groups_view(),
            all_nodes(old(self).groups_view()) > old(self).node_limit_view()
                ==> exists|order: Seq<usize>, p: int|
                #[trigger] is_sorted_order(size_keys(old(self).groups_view()), false, order)
                    && #[trigger] longest_fitting(
                    size_keys(old(self).groups_view()),
                    order,
                    old(self).node_limit_view() as int,
                    p,
                ) && final(self).groups_view() == marked(
                    old(self).groups_view(),
                    prefix_marks(order, p, old(self).groups_view().len() as int),
                    old(self).groups_view().len() as int,
                ),
    {
        let ghost before = self.groups@;
        let n = self.groups.len();
        let mut sizes: Vec<u64> = Vec::new();
        let mut sum: usize = 0;
        let mut i: usize = 0;
        while i < n
            invariant
                n == before.len(),
                self.groups@ == before,
                i <= n,
                all_nodes(before) <= usize::MAX,
                sizes@ == size_keys(before).take(i as int),
                sum == all_nodes(before.take(i as int)),
            decreases n - i,
        {
            proof {
                lemma_all_nodes_prefix(before, i as int);
            }
            let c = self.groups[i].nodes_count();
            sizes.push(c as u64);
            sum = sum + c;
            i += 1;
            assert(sizes@ =~= size_keys(before).take(i as int));
        }
        assert(before.take(n as int) =~= before);
        assert(sizes@ =~= size_keys(before));
        if sum <= self.node_limit {
            return;
        }
        let order = sorted_order(&sizes, false);
        let limit = self.node_limit as u64;
        let mut keep: Vec<bool> = Vec::new();
        let mut j: usize = 0;
        while j < n
            invariant
                j <= n,
                keep@ == Seq::new(j as nat, |k: int| false),
            decreases n - j,
        {
            keep.push(false);
            j += 1;
            assert(keep@ =~= Seq::new(j as nat, |k: int| false));
        }
        assert(keep@ =~= prefix_marks(order@, 0, n as int));
        let mut so_far: u64 = 0;
        let mut k: usize = 0;
        while k < n && sizes[order[k]] <= limit - so_far
            invariant
                n == before.len(),
                sizes@ == size_keys(before),
                is_sorted_order(sizes@, false, order@),
                limit == self.node_limit,
                k <= n,
                so_far <= limit,
                so_far as int == prefix_nodes(sizes@, order@, k as int),
                keep@ == prefix_marks(order@, k as int, n as int),
            decreases n - k,
        {
            let g = order[k];
            keep.set(g, true);
            so_far = so_far + sizes[g];
            proof {
                assert forall|x: int| 0 <= x < n implies keep@[x] == prefix_marks(order@, k + 1, n as int)[x] by {
                    if x == g {
                        assert(order@[k as int] as int == x);
                    } else if prefix_marks(order@, k + 1, n as int)[x] {
                        let w = choose|w: int| 0 <= w < k + 1 && order@[w] as int == x;
                        assert(w != k);
                    }
                }
                assert(keep@ =~= prefix_marks(order@, k + 1, n as int));
            }
            k += 1;
        }
        assert(longest_fitting(sizes@, order@, limit as int, k as int));
        retain_marked(&mut self.groups, &keep);
        proof {
            lemma_marked_positions(before, keep@, before.len() as int);
            let pos = marked_positions(keep@, before.len() as int);
            assert forall|a: int, b: int|
                0 <= a < self.groups@.len() && 0 <= b < self.groups@.len() && a != b
                    implies #[trigger] self.groups@[a].id != #[trigger] self.groups@[b].id by {
                assert(pos[a] != pos[b]);
                assert(self.groups@[a] == before[pos[a]]);
                assert(self.groups@[b] == before[pos[b]]);
            }
            assert forall|a: int| 0 <= a < self.groups@.len() implies (#[trigger] self.groups@[a]).id.0
                < self.next_id.0 by {
                assert(self.groups@[a] == before[pos[a]]);
            }
        }
    }

    /// Keeps only the first `size` groups named in `sorted_scores` (best
    /// first), in that order, taking their names off the front of it; does
    /// nothing while there are no more than `size` groups.
    pub fn remove_bad_groups(&mut self, sorted_scores: &mut Vec<GroupId>)
        requires
            old(self).wf(),
            old(self).groups_view().len() > old(self).size_view() ==> {
                &&& old(sorted_scores)@.no_duplicates()
                &&& forall|k: int|
                    0 <= k < old(sorted_scores)@.len() ==> has_group(
                        old(self).groups_view(),
                        #[trigger] old(sorted_scores)@[k],
                    )
            },
        ensures
            final(self).wf(),
            final(self).same_settings(old(self)),
            final(self).keeps_from(old(self)),
            old(self).groups_view().len() <= old(self).size_view() ==> final(self).groups_view()
                == old(self).groups_view() && final(sorted_scores)@ == old(sorted_scores)@,
            old(self).groups_view().len() > old(self).size_view() ==> ({
                let m = if old(self).size_view() < old(sorted_scores)@.len() {
                    old(self).size_view() as int
                } else {
                    old(sorted_scores)@.len() as int
                };
                &&& final(self).groups_view() == Seq::new(
                    m as nat,
                    |k: int|
                        old(self).groups_view()[position_of(
                            old(self).groups_view(),
                            old(sorted_scores)@[k],
                        )],
                )
                &&& final(sorted_scores)@ == old(sorted_scores)@.skip(m)
            }),
    {
        if self.groups.len() <= self.size {
            return;
        }
        let ghost before = self.groups@;
        let ghost names = sorted_scores@;
        let m = if self.size < sorted_scores.len() { self.size } else { sorted_scores.len() };
        let mut idx: Vec<usize> = Vec::new();
        let mut k: usize = 0;
        while k < m
            invariant
                self.wf(),
                self.groups@ == before,
                sorted_scores@ == names,
                names.no_duplicates(),
                forall|q: int| 0 <= q < names.len() ==> has_group(before, #[trigger] names[q]),
                k <= m <= names.len(),
                idx@.len() == k,
                forall|q: int| 0 <= q < k ==> #[trigger] idx@[q] as int == position_of(before, names[q]),
                forall|q: int| 0 <= q < k ==> #[trigger] idx@[q] < before.len(),
                forall|q: int| 0 <= q < k ==> before[#[trigger] idx@[q] as int].id == names[q],
            decreases m - k,
        {
            let want = sorted_scores[k];
            assert(has_group(before, names[k as int]));
            let mut j: usize = 0;
            while j < self.groups.len() && self.groups[j].id != want
                invariant
                    j <= before.len(),
                    self.groups@ == before,
                    want == names[k as int],
                    has_group(before, want),
                    forall|q: int| 0 <= q < j ==> before[q].id != want,
                decreases before.len() - j,
            {
                j += 1;
            }
            proof {
                if j == before.len() {
                    let w = choose|w: int| 0 <= w < before.len() && before[w].id_view() == want;
                    assert(before[w].id != want);
                }
                let p = position_of(before, want);
                assert(p == j) by {
                    if p != j {
                        assert(before[p].id != before[j as int].id);
                    }
                }
            }
            idx.push(j);
            k += 1;
        }
        proof {
            assert forall|a: int, b: int| 0 <= a < idx@.len() && 0 <= b < idx@.len() && a != b implies
                idx@[a] != idx@[b] by {
                assert(names[a] != names[b]);
            }
        }
        let mut groups: Vec<ClassGroup<Tr>> = Vec::new();
        std::mem::swap(&mut self.groups, &mut groups);
        self.groups = arrange(groups, &idx, m);
        let mut t: usize = 0;
        while t < m
            invariant
                t <= m <= names.len(),
                sorted_scores@ == names.skip(t as int),
            decreases m - t,
        {
            sorted_scores.remove(0);
            t += 1;
            assert(sorted_scores@ =~= names.skip(t as int));
        }
        assert(self.groups@ =~= Seq::new(m as nat, |q: int| before[position_of(before, names[q])]));
        proof {
            assert forall|a: int, b: int|
                0 <= a < self.groups@.len() && 0 <= b < self.groups@.len() && a != b
                    implies #[trigger] self.groups@[a].id != #[trigger] self.groups@[b].id by {
                assert(self.groups@[a].id == names[a]);
                assert(self.groups@[b].id == names[b]);
            }
            assert forall|a: int| 0 <= a < self.groups@.len() implies (#[trigger] self.groups@[a]).id.0
                < self.next_id.0 by {
                assert(self.groups@[a] == before[idx@[a] as int]);
            }
        }
    }

    /// Ends a generation: drops the groups without a scored tree, keeps the
    /// best `size` groups by `ranking` (taking their names off its front),
    /// and keeps the node limit.
    pub fn end_generation(&mut self, ranking: &mut Vec<GroupId>)
        requires
            old(self).wf(),
            nonempty_groups(old(self).groups_view()).len() > old(self).size_view() ==> {
                &&& old(ranking)@.no_duplicates()
                &&& forall|k: int|
                    0 <= k < old(ranking)@.len() ==> has_group(
                        nonempty_groups(old(self).groups_view()),
                        #[trigger] old(ranking)@[k],
                    )
            },
            all_nodes(
                ranked_groups(
                    nonempty_groups(old(self).groups_view()),
                    old(ranking)@,
                    old(self).size_view() as int,
                ),
            ) <= usize::MAX,
        ensures
            final(self).wf(),
            final(self).same_settings(old(self)),
            final(self).keeps_from(old(self)),
            ({
                let nonempty = nonempty_groups(old(self).groups_view());
                let size = old(self).size_view() as int;
                let best = ranked_groups(nonempty, old(ranking)@, size);
                let limit = old(self).node_limit_view() as int;
                &&& final(ranking)@ == (if nonempty.len() > size {
                    old(ranking)@.skip(if size < old(ranking)@.len() { size } else { old(ranking)@.len() as int })
                } else {
                    old(ranking)@
                })
                &&& all_nodes(best) <= limit ==> final(self).groups_view() == best
                &&& all_nodes(best) > limit ==> exists|order: Seq<usize>, p: int|
                    #[trigger] is_sorted_order(size_keys(best), false, order)
                        && #[trigger] longest_fitting(size_keys(best), order, limit, p)
                        && final(self).groups_view() == marked(
                        best,
                        prefix_marks(order, p, best.len() as int),
                        best.len() as int,
                    )
                &&& (forall|i: int|
                    0 <= i < old(self).groups_view().len() ==> (#[trigger] old(
                        self,
                    ).groups_view()[i]).fresh_view().len() == 0
                        && old(self).groups_view()[i].scored_view().len() <= size)
                    ==> generation_done(final(self).groups_view(), size, limit)
            }),
    {
        let ghost scored = self.groups@;
        let ghost names = ranking@;
        self.remove_empty_groups();
        let ghost nonempty = self.groups@;
        self.remove_bad_groups(ranking);
        let ghost best = self.groups@;
        assert(best == ranked_groups(nonempty, names, self.size as int));
        self.keep_node_limit();
        proof {
            let size = self.size as int;
            let limit = self.node_limit as int;
            if forall|i: int|
                0 <= i < scored.len() ==> (#[trigger] scored[i]).fresh_view().len() == 0
                    && scored[i].scored_view().len() <= size {
                if all_nodes(best) > limit {
                    let (order, p) = choose|order: Seq<usize>, p: int|
                        #[trigger] is_sorted_order(size_keys(best), false, order)
                            && #[trigger] longest_fitting(size_keys(best), order, limit, p)
                            && self.groups@ == marked(best, prefix_marks(order, p, best.len() as int), best.len() as int);
                    lemma_generation_done(scored, nonempty, names, best, order, p, self.groups@, size, limit);
                } else {
                    lemma_generation_done(scored, nonempty, names, best, Seq::empty(), 0, self.groups@, size, limit);
                }
            }
        }
    }
}

proof fn lemma_all_nodes_prefix<Tr>(groups: Seq<ClassGroup<Tr>>, k: int)
    requires
        0 <= k < groups.len(),
    ensures
        0 <= groups[k].total_nodes(),
        0 <= all_nodes(groups.take(k)),
        all_nodes(groups.take(k + 1)) == all_nodes(groups.take(k)) + groups[k].total_nodes(),
        all_nodes(groups.take(k + 1)) <= all_nodes(groups),
    decreases groups.len(),
{
    assert(groups.take(k + 1).drop_last() =~= groups.take(k));
    lemma_nodes_nonneg(groups[k].scored_view(), groups[k].fresh_view());
    if k + 1 < groups.len() {
        lemma_all_nodes_prefix(groups.drop_last(), k);
        assert(groups.drop_last().take(k) =~= groups.take(k));
        assert(groups.drop_last().take(k + 1) =~= groups.take(k + 1));
        let last = groups.len() - 1;
        lemma_nodes_nonneg(groups[last].scored_view(), groups[last].fresh_view());
        if k + 1 < groups.len() - 1 {
            lemma_all_nodes_prefix(groups.drop_last(), k + 1);
        } else {
            assert(groups.drop_last().take(k + 1) =~= groups.drop_last());
        }
    } else {
        assert(groups.take(k + 1) =~= groups);
        if k > 0 {
            lemma_all_nodes_prefix(groups.drop_last(), k - 1);
            assert(groups.drop_last().take(k) =~= groups.drop_last());
            assert(groups.drop_last().take(k - 1 + 1) =~= groups.take(k));
        }
    }
}

/// The scores of named groups.
pub open spec fn score_keys(scores: Seq<(GroupId, u64)>) -> Seq<u64> {
    Seq::new(scores.len(), |i: int| scores[i].1)
}

/// The names of the scored groups, best score first; equal scores keep
/// their order.
pub fn order_by_score(scores: &Vec<(GroupId, u64)>) -> (ids: Vec<GroupId>)
    ensures
        exists|order: Seq<usize>|
            #[trigger] is_sorted_order(score_keys(scores@), true, order)
                && ids@ == Seq::new(scores@.len(), |k: int| scores@[order[k] as int].0),
{
    let mut keys: Vec<u64> = Vec::new();
    let mut i: usize = 0;
    while i < scores.len()
        invariant
            i <= scores@.len(),
            keys@ == Seq::new(i as nat, |k: int| scores@[k].1),
        decreases scores@.len() - i,
    {
        keys.push(scores[i].1);
        i += 1;
        assert(keys@ =~= Seq::new(i as nat, |k: int| scores@[k].1));
    }
    let order = sorted_order(&keys, true);
    let mut ids: Vec<GroupId> = Vec::new();
    let mut k: usize = 0;
    while k < order.len()
        invariant
            k <= order@.len(),
            is_sorted_order(keys@, true, order@),
            keys@.len() == scores@.len(),
            ids@ == Seq::new(k as nat, |m: int| scores@[order@[m] as int].0),
        decreases order@.len() - k,
    {
        ids.push(scores[order[k]].0);
        k += 1;
        assert(ids@ =~= Seq::new(k as nat, |m: int| scores@[order@[m] as int].0));
    }
    assert(is_sorted_order(score_keys(scores@), true, order@));
    ids
}

/// The sum of `sizes` at the positions among the first `n` that `keep` marks.
pub open spec fn flagged_sum(sizes: Seq<u64>, keep: Seq<bool>, n: int) -> int
    decreases n,
{
    if n <= 0 {
        0
    } else {
        flagged_sum(sizes, keep, n - 1) + if keep[n - 1] {
            sizes[n - 1] as int
        } else {
            0
        }
    }
}

proof fn lemma_flagged_sum_update(sizes: Seq<u64>, keep: Seq<bool>, g: int, n: int)
    requires
        0 <= g < keep.len(),
        n <= keep.len(),
        !keep[g],
    ensures
        flagged_sum(sizes, keep.update(g, true), n) == flagged_sum(sizes, keep, n) + if g < n {
            sizes[g] as int
        } else {
            0
        },
    decreases n,
{
    if n > 0 {
        lemma_flagged_sum_update(sizes, keep, g, n - 1);
    }
}

proof fn lemma_prefix_sum(sizes: Seq<u64>, order: Seq<usize>, p: int)
    requires
        is_sorted_order(sizes, false, order),
        0 <= p <= order.len(),
    ensures
        flagged_sum(sizes, prefix_marks(order, p, sizes.len() as int), sizes.len() as int)
            == prefix_nodes(sizes, order, p),
    decreases p,
{
    let n = sizes.len() as int;
    if p == 0 {
        lemma_flagged_sum_zero(sizes, prefix_marks(order, 0, n), n);
    } else {
        lemma_prefix_sum(sizes, order, p - 1);
        let before = prefix_marks(order, p - 1, n);
        let g = order[p - 1] as int;
        assert(!before[g]) by {
            if before[g] {
                let w = choose|w: int| 0 <= w < p - 1 && order[w] as int == g;
                assert(order[w] != order[p - 1]);
            }
        }
        assert forall|x: int| 0 <= x < n implies before.update(g, true)[x] == prefix_marks(order, p, n)[x] by {
            if x == g {
                assert(order[p - 1] as int == x);
            } else if prefix_marks(order, p, n)[x] {
                let w = choose|w: int| 0 <= w < p && order[w] as int == x;
                assert(w != p - 1);
            }
        }
        assert(before.update(g, true) =~= prefix_marks(order, p, n));
        lemma_flagged_sum_update(sizes, before, g, n);
    }
}

proof fn lemma_flagged_sum_zero(sizes: Seq<u64>, keep: Seq<bool>, n: int)
    requires
        n <= keep.len(),
        forall|i: int| 0 <= i < keep.len() ==> !keep[i],
    ensures
        flagged_sum(sizes, keep, n) == 0,
    decreases n,
{
    if n > 0 {
        lemma_flagged_sum_zero(sizes, keep, n - 1);
    }
}

proof fn lemma_marked_nodes<Tr>(groups: Seq<ClassGroup<Tr>>, keep: Seq<bool>, n: int)
    requires
        0 <= n <= groups.len(),
        keep.len() == groups.len(),
        all_nodes(groups) <= usize::MAX,
    ensures
        all_nodes(marked(groups, keep, n)) == flagged_sum(size_keys(groups), keep, n),
    decreases n,
{
    if n > 0 {
        lemma_marked_nodes(groups, keep, n - 1);
        lemma_all_nodes_prefix(groups, n - 1);
        lemma_all_nodes_prefix(groups, 0);
        assert(groups[n - 1].total_nodes() <= all_nodes(groups)) by {
            lemma_all_nodes_bound(groups, n - 1);
        }
        let prev = marked(groups, keep, n - 1);
        if keep[n - 1] {
            assert(prev.push(groups[n - 1]).drop_last() =~= prev);
        }
    }
}

proof fn lemma_all_nodes_bound<Tr>(groups: Seq<ClassGroup<Tr>>, k: int)
    requires
        0 <= k < groups.len(),
    ensures
        0 <= groups[k].total_nodes() <= all_nodes(groups),
{
    lemma_all_nodes_prefix(groups, k);
}

/// After the node limit is kept, the groups left hold no more nodes than
/// the limit, and none of them is larger than a group that was dropped.
pub proof fn lemma_node_limit_kept<Tr>(groups: Seq<ClassGroup<Tr>>, order: Seq<usize>, limit: int, p: int)
    requires
        is_sorted_order(size_keys(groups), false, order),
        longest_fitting(size_keys(groups), order, limit, p),
        all_nodes(groups) <= usize::MAX,
    ensures
        all_nodes(marked(groups, prefix_marks(order, p, groups.len() as int), groups.len() as int))
            <= limit,
        forall|g: int, h: int|
            0 <= g < groups.len() && 0 <= h < groups.len() && prefix_marks(
                order,
                p,
                groups.len() as int,
            )[g] && !prefix_marks(order, p, groups.len() as int)[h] ==> #[trigger] size_keys(groups)[g]
                <= #[trigger] size_keys(groups)[h],
{
    let keys = size_keys(groups);
    let n = groups.len() as int;
    let keep = prefix_marks(order, p, n);
    lemma_prefix_sum(keys, order, p);
    lemma_marked_nodes(groups, keep, n);
    assert forall|g: int, h: int|
        0 <= g < n && 0 <= h < n && keep[g] && !keep[h] implies #[trigger] keys[g] <= #[trigger] keys[h] by {
        let w = choose|w: int| 0 <= w < p && order[w] as int == g;
        crate::order::lemma_order_covers(keys, false, order, h);
        let v = choose|v: int| 0 <= v < order.len() && order[v] as int == h;
        if v < p {
            assert(keep[h]);
        }
        assert(crate::order::precedes(keys, false, order[w] as int, order[v] as int));
    }
}

/// After empty groups are removed, every group left has a scored tree,
/// and every group that had one is left.
pub proof fn lemma_no_empty_groups<Tr>(groups: Seq<ClassGroup<Tr>>)
    ensures
        ({
            let keep = Seq::new(groups.len(), |i: int| groups[i].scored_view().len() > 0);
            let left = marked(groups, keep, groups.len() as int);
            &&& forall|i: int| 0 <= i < left.len() ==> (#[trigger] left[i]).scored_view().len() > 0
            &&& forall|j: int|
                0 <= j < groups.len() && (#[trigger] groups[j]).scored_view().len() > 0 ==> exists|i: int|
                    0 <= i < left.len() && left[i] == groups[j]
        }),
{
    let keep = Seq::new(groups.len(), |i: int| groups[i].scored_view().len() > 0);
    let n = groups.len() as int;
    lemma_marked_positions(groups, keep, n);
    lemma_marked_covers(groups, keep, n);
    let left = marked(groups, keep, n);
    let pos = marked_positions(keep, n);
    assert forall|i: int| 0 <= i < left.len() implies (#[trigger] left[i]).scored_view().len() > 0 by {
        assert(keep[pos[i]]);
        assert(left[i] == groups[pos[i]]);
    }
    assert forall|j: int|
        0 <= j < groups.len() && (#[trigger] groups[j]).scored_view().len() > 0 implies exists|i: int|
            0 <= i < left.len() && left[i] == groups[j] by {
        assert(keep[j]);
    }
}

proof fn lemma_marked_covers<X>(items: Seq<X>, keep: Seq<bool>, n: int)
    requires
        0 <= n <= items.len(),
        n <= keep.len(),
    ensures
        forall|j: int|
            0 <= j < n && #[trigger] keep[j] ==> exists|i: int|
                0 <= i < marked(items, keep, n).len() && marked(items, keep, n)[i] == items[j],
    decreases n,
{
    if n > 0 {
        lemma_marked_covers(items, keep, n - 1);
        let prev = marked(items, keep, n - 1);
        assert forall|j: int| 0 <= j < n && #[trigger] keep[j] implies exists|i: int|
            0 <= i < marked(items, keep, n).len() && marked(items, keep, n)[i] == items[j] by {
            if j < n - 1 {
                let i = choose|i: int| 0 <= i < prev.len() && prev[i] == items[j];
                assert(marked(items, keep, n)[i] == items[j]);
            } else {
                assert(marked(items, keep, n)[prev.len() as int] == items[j]);
            }
        }
    }
}

proof fn lemma_marked_len<X>(items: Seq<X>, keep: Seq<bool>, n: int)
    requires
        0 <= n,
    ensures
        marked(items, keep, n).len() <= n,
    decreases n,
{
    if n > 0 {
        lemma_marked_len(items, keep, n - 1);
    }
}

/// The groups a generation ends with: no more than `size` of them, each
/// with no fresh tree and from 1 to `size` scored trees, and no more nodes
/// in all than `limit`.
pub open spec fn generation_done<Tr>(groups: Seq<ClassGroup<Tr>>, size: int, limit: int) -> bool {
    &&& groups.len() <= size
    &&& forall|i: int|
        0 <= i < groups.len() ==> {
            &&& (#[trigger] groups[i]).fresh_view().len() == 0
            &&& 1 <= groups[i].scored_view().len() <= size
        }
    &&& all_nodes(groups) <= limit
}

/// A generation ends in order: once every group has scored its fresh trees
/// and kept at most `size` of them (`scored`), dropping the empty groups
/// (`nonempty`), keeping the best `size` groups by the ranking `sorted`
/// (`best`) and keeping the node limit (`kept`) leave no more than `size`
/// groups, each with 1 to `size` scored trees and no fresh ones, within
/// the node limit.
pub proof fn lemma_generation_done<Tr>(
    scored: Seq<ClassGroup<Tr>>,
    nonempty: Seq<ClassGroup<Tr>>,
    sorted: Seq<GroupId>,
    best: Seq<ClassGroup<Tr>>,
    order: Seq<usize>,
    p: int,
    kept: Seq<ClassGroup<Tr>>,
    size: int,
    limit: int,
)
    requires
        size >= 0,
        limit >= 0,
        forall|i: int|
            0 <= i < scored.len() ==> (#[trigger] scored[i]).fresh_view().len() == 0
                && scored[i].scored_view().len() <= size,
        nonempty == marked(
            scored,
            Seq::new(scored.len(), |i: int| scored[i].scored_view().len() > 0),
            scored.len() as int,
        ),
        nonempty.len() > size ==> forall|k: int|
            0 <= k < sorted.len() ==> has_group(nonempty, #[trigger] sorted[k]),
        nonempty.len() <= size ==> best == nonempty,
        nonempty.len() > size ==> best == Seq::new(
            (if size < sorted.len() { size } else { sorted.len() as int }) as nat,
            |k: int| nonempty[position_of(nonempty, sorted[k])],
        ),
        all_nodes(best) <= usize::MAX,
        all_nodes(best) <= limit ==> kept == best,
        all_nodes(best) > limit ==> {
            &&& is_sorted_order(size_keys(best), false, order)
            &&& longest_fitting(size_keys(best), order, limit, p)
            &&& kept == marked(best, prefix_marks(order, p, best.len() as int), best.len() as int)
        },
    ensures
        generation_done(kept, size, limit),
{
    let n0 = scored.len() as int;
    let flags = Seq::new(scored.len(), |i: int| scored[i].scored_view().len() > 0);
    lemma_marked_positions(scored, flags, n0);
    lemma_no_empty_groups(scored);
    assert forall|i: int| 0 <= i < nonempty.len() implies {
        &&& (#[trigger] nonempty[i]).fresh_view().len() == 0
        &&& 1 <= nonempty[i].scored_view().len() <= size
    } by {
        let pos = marked_positions(flags, n0);
        assert(nonempty[i] == scored[pos[i]]);
    }
    assert forall|i: int| 0 <= i < best.len() implies {
        &&& (#[trigger] best[i]).fresh_view().len() == 0
        &&& 1 <= best[i].scored_view().len() <= size
    } by {
        if nonempty.len() > size {
            let id = sorted[i];
            assert(has_group(nonempty, id));
            let q = position_of(nonempty, id);
            assert(best[i] == nonempty[q]);
        }
    }
    assert(best.len() <= size);
    if all_nodes(best) > limit {
        let n = best.len() as int;
        let marks = prefix_marks(order, p, n);
        lemma_node_limit_kept(best, order, limit, p);
        lemma_marked_positions(best, marks, n);
        lemma_marked_len(best, marks, n);
        assert forall|i: int| 0 <= i < kept.len() implies {
            &&& (#[trigger] kept[i]).fresh_view().len() == 0
            &&& 1 <= kept[i].scored_view().len() <= size
        } by {
            let pos = marked_positions(marks, n);
            assert(kept[i] == best[pos[i]]);
        }
    }
}

/// Through any run of training steps the class stays the one trained for,
/// and once there is a best tree there always is one.
pub proof fn lemma_training_history<'o, T, Tr>(states: Seq<ClassTraining<'o, T, Tr>>)
    requires
        forall|i: int| 0 <= i < states.len() - 1 ==> #[trigger] states[i + 1].keeps_from(&states[i]),
    ensures
        forall|i: int, j: int| 0 <= i <= j < states.len() ==> #[trigger] states[j].keeps_from(&states[i]),
    decreases states.len(),
{
    if states.len() > 1 {
        let shorter = states.drop_last();
        assert forall|i: int| 0 <= i < shorter.len() - 1 implies #[trigger] shorter[i + 1].keeps_from(&shorter[i]) by {
            assert(states[i + 1].keeps_from(&states[i]));
        }
        lemma_training_history(shorter);
        let last = states.len() - 1;
        assert forall|i: int, j: int| 0 <= i <= j < states.len() implies #[trigger] states[j].keeps_from(&states[i]) by {
            if j < last {
                assert(shorter[j].keeps_from(&shorter[i]));
            } else if i < last {
                assert(shorter[last - 1].keeps_from(&shorter[i]));
                let k = last - 1;
                assert(states[k + 1].keeps_from(&states[k]));
                assert(k + 1 == last);
            }
        }
    }
}

/// The node count of scored trees adds up: none for no trees, a tree's
/// own count for one, and the sum of the parts for two runs of trees.
pub proof fn lemma_scored_nodes_sum<Tr>(a: Seq<Scored<Tr>>, b: Seq<Scored<Tr>>, t: Scored<Tr>)
    ensures
        scored_nodes(Seq::<Scored<Tr>>::empty()) == 0,
        scored_nodes(seq![t]) == t.nodes,
        scored_nodes(a.push(t)) == scored_nodes(a) + t.nodes,
        scored_nodes(a + b) == scored_nodes(a) + scored_nodes(b),
    decreases b.len(),
{
    assert(seq![t].drop_last() =~= Seq::<Scored<Tr>>::empty());
    assert(a.push(t).drop_last() =~= a);
    if b.len() > 0 {
        lemma_scored_nodes_sum(a, b.drop_last(), t);
        assert((a + b).drop_last() =~= a + b.drop_last());
    } else {
        assert(a + b =~= a);
    }
}

/// The node count of fresh trees adds up: none for no trees, a tree's own
/// count for one, and the sum of the parts for two runs of trees.
pub proof fn lemma_fresh_nodes_sum<Tr>(a: Seq<Fresh<Tr>>, b: Seq<Fresh<Tr>>, t: Fresh<Tr>)
    ensures
        fresh_nodes(Seq::<Fresh<Tr>>::empty()) == 0,
        fresh_nodes(seq![t]) == t.nodes,
        fresh_nodes(a.push(t)) == fresh_nodes(a) + t.nodes,
        fresh_nodes(a + b) == fresh_nodes(a) + fresh_nodes(b),
    decreases b.len(),
{
    assert(seq![t].drop_last() =~= Seq::<Fresh<Tr>>::empty());
    assert(a.push(t).drop_last() =~= a);
    if b.len() > 0 {
        lemma_fresh_nodes_sum(a, b.drop_last(), t);
        assert((a + b).drop_last() =~= a + b.drop_last());
    } else {
        assert(a + b =~= a);
    }
}

/// The node count of groups adds up over runs of groups, a group counting
/// all of its scored and fresh trees.
pub proof fn lemma_all_nodes_sum<Tr>(a: Seq<ClassGroup<Tr>>, b: Seq<ClassGroup<Tr>>, g: ClassGroup<Tr>)
    ensures
        all_nodes(Seq::<ClassGroup<Tr>>::empty()) == 0,
        all_nodes(seq![g]) == g.total_nodes(),
        all_nodes(a.push(g)) == all_nodes(a) + g.total_nodes(),
        all_nodes(a + b) == all_nodes(a) + all_nodes(b),
    decreases b.len(),
{
    assert(seq![g].drop_last() =~= Seq::<ClassGroup<Tr>>::empty());
    assert(a.push(g).drop_last() =~= a);
    if b.len() > 0 {
        lemma_all_nodes_sum(a, b.drop_last(), g);
        assert((a + b).drop_last() =~= a + b.drop_last());
    } else {
        assert(a + b =~= a);
    }
}

/// Adding a scored tree of `m` nodes to a group raises its node count by
/// exactly `m`, and so does adding a fresh one.
pub proof fn lemma_group_nodes_grow<Tr>(before: ClassGroup<Tr>, after: ClassGroup<Tr>, s: Scored<Tr>, f: Fresh<Tr>)
    ensures
        after.scored_view() == before.scored_view().push(s) && after.fresh_view() == before.fresh_view()
            ==> after.total_nodes() == before.total_nodes() + s.nodes,
        after.fresh_view() == before.fresh_view().push(f) && after.scored_view() == before.scored_view()
            ==> after.total_nodes() == before.total_nodes() + f.nodes,
{
    lemma_scored_nodes_sum(before.scored_view(), Seq::empty(), s);
    lemma_fresh_nodes_sum(before.fresh_view(), Seq::empty(), f);
}

/// A stable order by keys puts greater keys first when descending and
/// smaller keys first when ascending.
pub proof fn lemma_sorted_order_keys(keys: Seq<u64>, descending: bool, order: Seq<usize>, i: int, j: int)
    requires
        is_sorted_order(keys, descending, order),
        0 <= i < j < order.len(),
    ensures
        descending ==> keys[order[i] as int] >= keys[order[j] as int],
        !descending ==> keys[order[i] as int] <= keys[order[j] as int],
{
    assert(crate::order::precedes(keys, descending, order[i] as int, order[j] as int));
}

} // verus!
