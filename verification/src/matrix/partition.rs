//! Random partitions of the nodes `0..n` into groups, and the moves of a
//! distribution between the whole node set and its groups.
use crate::maths::RngSeq;
use std::collections::HashMap;
use vstd::prelude::*;
use vstd::std_specs::iter::IteratorSpec;
use vstd::std_specs::hash::spec_hash_map_iter;

verus! {

broadcast use vstd::std_specs::hash::group_hash_axioms;

/// The seed of the generator that `Partition::new` draws groups from.
pub const PARTITION_SEED: u64 = 42;

/// One group of a partition: each node of the group, with its position in the group.
#[derive(Debug)]
pub struct GroupPartition {
    nodes: HashMap<u64, usize>,
}

impl View for GroupPartition {
    type V = Map<u64, usize>;

    closed spec fn view(&self) -> Map<u64, usize> {
        self.nodes@
    }
}

impl Clone for GroupPartition {
    fn clone(&self) -> (r: GroupPartition)
        ensures
            r@ == self@,
    {
        GroupPartition { nodes: self.nodes.clone() }
    }
}

impl GroupPartition {
    /// A group made of the given nodes and positions.
    pub fn new(nodes: HashMap<u64, usize>) -> (r: GroupPartition)
        ensures
            r@ == nodes@,
    {
        GroupPartition { nodes }
    }

    /// Whether `value` is a node of the group.
    pub fn contains(&self, value: u64) -> (r: bool)
        ensures
            r == self@.contains_key(value),
    {
        self.nodes.contains_key(&value)
    }

    /// The number of nodes in the group.
    pub fn len(&self) -> (r: usize)
        ensures
            r == self@.len(),
    {
        self.nodes.len()
    }

    /// The position of the node `value` in the group.
    pub fn index(&self, value: u64) -> (r: usize)
        requires
            self@.contains_key(value),
        ensures
            r == self@[value],
    {
        match self.nodes.get(&value) {
            Some(p) => *p,
            None => 0,
        }
    }

    /// The nodes of the group, each with its position.
    pub fn nodes(&self) -> (r: &HashMap<u64, usize>)
        ensures
            r@ == self@,
    {
        &self.nodes
    }
}

// ---------------------------------------------------------------------------
// The model of a partition: one map from node to position per group
// ---------------------------------------------------------------------------
/// The number of nodes over all groups.
pub open spec fn node_count(groups: Seq<Map<u64, usize>>) -> nat
    decreases groups.len(),
{
    if groups.len() == 0 {
        0
    } else {
        node_count(groups.drop_last()) + groups.last().len()
    }
}

/// Whether some node of `m` sits at position `p`.
pub open spec fn has_position(m: Map<u64, usize>, p: int) -> bool {
    exists|k: u64| #[trigger] m.contains_key(k) && m[k] == p
}

/// Whether some group holds node `k`.
pub open spec fn in_some_group(groups: Seq<Map<u64, usize>>, k: u64) -> bool {
    exists|g: int| 0 <= g < groups.len() && #[trigger] groups[g].contains_key(k)
}

/// Whether `groups` partitions the nodes `0..node_count(groups)`: each node is
/// in exactly one group, and the positions of a group's nodes are exactly
/// `0..` the group's size, each used once.
pub open spec fn is_partition(groups: Seq<Map<u64, usize>>) -> bool {
    let n = node_count(groups);
    &&& n <= u64::MAX
    &&& forall|g: int| 0 <= g < groups.len() ==> #[trigger] groups[g].dom().finite()
    &&& forall|g: int, k: u64|
        0 <= g < groups.len() && #[trigger] groups[g].contains_key(k) ==> k < n
    &&& forall|g1: int, g2: int, k: u64|
        0 <= g1 < groups.len() && 0 <= g2 < groups.len() && #[trigger] groups[g1].contains_key(k)
            && #[trigger] groups[g2].contains_key(k) ==> g1 == g2
    &&& forall|k: u64| k < n ==> #[trigger] in_some_group(groups, k)
    &&& forall|g: int, k: u64|
        0 <= g < groups.len() && #[trigger] groups[g].contains_key(k) ==> groups[g][k]
            < groups[g].len()
    &&& forall|g: int, k1: u64, k2: u64|
        0 <= g < groups.len() && #[trigger] groups[g].contains_key(k1) && #[trigger] groups[g].contains_key(k2)
            && groups[g][k1] == groups[g][k2] ==> k1 == k2
    &&& forall|g: int, p: int|
        0 <= g < groups.len() && 0 <= p < groups[g].len() ==> #[trigger] has_position(groups[g], p)
}

/// Whether, in each group, a node with a smaller number has a smaller position.
pub open spec fn positions_follow_node_order(groups: Seq<Map<u64, usize>>) -> bool {
    forall|g: int, k1: u64, k2: u64|
        0 <= g < groups.len() && #[trigger] groups[g].contains_key(k1) && #[trigger] groups[g].contains_key(k2)
            && k1 < k2 ==> groups[g][k1] < groups[g][k2]
}

/// The group that holds node `k`.
pub open spec fn owner(groups: Seq<Map<u64, usize>>, k: u64) -> int {
    choose|g: int| 0 <= g < groups.len() && #[trigger] groups[g].contains_key(k)
}

/// Whether nodes `a` and `b` are in the same group, or both in none.
pub open spec fn same_group(groups: Seq<Map<u64, usize>>, a: u64, b: u64) -> bool {
    if in_some_group(groups, a) {
        in_some_group(groups, b) && owner(groups, a) == owner(groups, b)
    } else {
        !in_some_group(groups, b)
    }
}

/// The node at position `p` of the group `m`.
pub open spec fn key_at(m: Map<u64, usize>, p: int) -> u64 {
    choose|k: u64| #[trigger] m.contains_key(k) && m[k] == p
}

/// The distribution over all nodes that puts together one distribution per
/// group: node `i` takes the value at its position in its group's distribution.
pub open spec fn fusion<T>(groups: Seq<Map<u64, usize>>, parts: Seq<Seq<T>>) -> Seq<T> {
    Seq::new(
        node_count(groups),
        |i: int| parts[owner(groups, i as u64)][groups[owner(groups, i as u64)][i as u64] as int],
    )
}

/// The distribution of each group, taken from a distribution over all nodes:
/// position `p` of group `g` takes the value of the node at that position.
pub open spec fn division<T>(groups: Seq<Map<u64, usize>>, whole: Seq<T>) -> Seq<Seq<T>> {
    Seq::new(
        groups.len(),
        |g: int| Seq::new(groups[g].len(), |p: int| whole[key_at(groups[g], p) as int]),
    )
}

pub proof fn lemma_node_count_prefix(groups: Seq<Map<u64, usize>>, i: int)
    requires
        0 <= i <= groups.len(),
    ensures
        node_count(groups.take(i)) <= node_count(groups),
    decreases groups.len(),
{
    if i < groups.len() {
        assert(groups.drop_last().take(i) == groups.take(i));
        lemma_node_count_prefix(groups.drop_last(), i);
    } else {
        assert(groups.take(i) == groups);
    }
}

pub proof fn lemma_node_count_update(groups: Seq<Map<u64, usize>>, g: int, m: Map<u64, usize>)
    requires
        0 <= g < groups.len(),
    ensures
        node_count(groups.update(g, m)) == node_count(groups) - groups[g].len() + m.len(),
    decreases groups.len(),
{
    if g < groups.len() - 1 {
        assert(groups.update(g, m).drop_last() == groups.drop_last().update(g, m));
        lemma_node_count_update(groups.drop_last(), g, m);
    } else {
        assert(groups.update(g, m).drop_last() == groups.drop_last());
    }
}

/// Adding node `i`, the next node, at the end of group `g` keeps a partition
/// whose positions follow node order.
proof fn lemma_insert_next(groups: Seq<Map<u64, usize>>, g: int, i: u64)
    requires
        is_partition(groups),
        positions_follow_node_order(groups),
        node_count(groups) == i,
        i < u64::MAX,
        0 <= g < groups.len(),
        groups[g].len() <= usize::MAX,
    ensures
        ({
            let new_groups = groups.update(g, groups[g].insert(i, groups[g].len() as usize));
            &&& is_partition(new_groups)
            &&& positions_follow_node_order(new_groups)
            &&& node_count(new_groups) == i + 1
        }),
{
    let old_m = groups[g];
    let len = old_m.len();
    let new_m = old_m.insert(i, len as usize);
    let new_groups = groups.update(g, new_m);
    assert(!old_m.contains_key(i));
    assert(old_m.dom().finite());
    assert(new_m.dom() == old_m.dom().insert(i));
    assert(new_m.len() == len + 1);
    lemma_node_count_update(groups, g, new_m);
    assert forall|h: int, k: u64|
        0 <= h < new_groups.len() && #[trigger] new_groups[h].contains_key(k) implies k < i + 1 by {
        if h == g && k == i {
        } else {
            assert(groups[h].contains_key(k));
        }
    }
    assert forall|k: u64| k < i + 1 implies #[trigger] in_some_group(new_groups, k) by {
        if k == i {
            assert(new_groups[g].contains_key(k));
        } else {
            assert(in_some_group(groups, k));
            let h = choose|h: int| 0 <= h < groups.len() && #[trigger] groups[h].contains_key(k);
            assert(new_groups[h].contains_key(k));
        }
    }
    assert forall|h: int, p: int|
        0 <= h < new_groups.len() && 0 <= p < new_groups[h].len() implies #[trigger] has_position(
        new_groups[h],
        p,
    ) by {
        if h == g {
            if p == len {
                assert(new_m.contains_key(i) && new_m[i] == p);
            } else {
                assert(has_position(old_m, p));
                let k = choose|k: u64| #[trigger] old_m.contains_key(k) && old_m[k] == p;
                assert(new_m.contains_key(k) && new_m[k] == p);
            }
        } else {
            assert(has_position(groups[h], p));
        }
    }
    assert forall|h1: int, h2: int, k: u64|
        0 <= h1 < new_groups.len() && 0 <= h2 < new_groups.len()
            && #[trigger] new_groups[h1].contains_key(k) && #[trigger] new_groups[h2].contains_key(
            k,
        ) implies h1 == h2 by {
        if k == i {
            if h1 != g {
                assert(groups[h1].contains_key(k));
            }
            if h2 != g {
                assert(groups[h2].contains_key(k));
            }
        } else {
            assert(groups[h1].contains_key(k));
            assert(groups[h2].contains_key(k));
        }
    }
    assert forall|h: int, k1: u64, k2: u64|
        0 <= h < new_groups.len() && #[trigger] new_groups[h].contains_key(k1)
            && #[trigger] new_groups[h].contains_key(k2) && new_groups[h][k1] == new_groups[h][k2]
        implies k1 == k2 by {
        if h == g {
            if k1 != i {
                assert(old_m.contains_key(k1));
            }
            if k2 != i {
                assert(old_m.contains_key(k2));
            }
        }
    }
    assert forall|h: int, k: u64|
        0 <= h < new_groups.len() && #[trigger] new_groups[h].contains_key(k) implies new_groups[h][k]
        < new_groups[h].len() by {
        if h == g && k != i {
            assert(old_m.contains_key(k));
        }
    }
    assert forall|h: int, k1: u64, k2: u64|
        0 <= h < new_groups.len() && #[trigger] new_groups[h].contains_key(k1)
            && #[trigger] new_groups[h].contains_key(k2) && k1 < k2 implies new_groups[h][k1]
        < new_groups[h][k2] by {
        if h == g {
            if k2 == i {
                assert(old_m.contains_key(k1));
            } else {
                assert(old_m.contains_key(k2));
                assert(old_m.contains_key(k1));
            }
        }
    }
    assert forall|h: int| 0 <= h < new_groups.len() implies #[trigger] new_groups[h].dom().finite() by {
        if h != g {
            assert(groups[h].dom().finite());
        }
    }
}

/// The groups that placing the nodes `0..draws.len()` in increasing order
/// gives, node `i` at the end of group `draws[i]`: each group maps its nodes
/// to their positions in it.
pub open spec fn drawn_groups(draws: Seq<usize>, group_count: nat) -> Seq<Map<u64, usize>>
    decreases draws.len(),
{
    if draws.len() == 0 {
        Seq::new(group_count, |g: int| Map::<u64, usize>::empty())
    } else {
        let before = drawn_groups(draws.drop_last(), group_count);
        let g = draws.last() as int;
        before.update(g, before[g].insert((draws.len() - 1) as u64, before[g].len() as usize))
    }
}

/// A partition of the nodes `0..n` into groups.
#[derive(Debug)]
pub struct Partition {
    groups: Vec<GroupPartition>,
}

impl View for Partition {
    type V = Seq<Map<u64, usize>>;

    closed spec fn view(&self) -> Seq<Map<u64, usize>> {
        self.groups@.map_values(|g: GroupPartition| g@)
    }
}

impl Partition {
    #[verifier::type_invariant]
    closed spec fn well_formed(self) -> bool {
        &&& is_partition(self@)
        &&& node_count(self@) <= usize::MAX
    }

    /// A random partition of the nodes `0..node_count` into `group_count` groups,
    /// drawn from a generator seeded with `PARTITION_SEED`: the groups that
    /// `from_draws` builds from one draw per node.
    pub fn new(node_count: u64, group_count: u64) -> (r: Partition)
        requires
            group_count > 0 || node_count == 0,
            group_count <= usize::MAX,
            node_count <= usize::MAX,
        ensures
            r@.len() == group_count,
            is_partition(r@),
            self::node_count(r@) == node_count,
            positions_follow_node_order(r@),
            exists|draws: Seq<usize>, h: Seq<u64>|
                draws.len() == node_count && #[trigger] draws_from(draws, h, group_count as nat)
                    && r@ == drawn_groups(draws, group_count as nat),
    {
        let mut rndseq = RngSeq::from(PARTITION_SEED);
        let mut draws: Vec<usize> = Vec::new();
        let mut i: u64 = 0;
        while i < node_count
            invariant
                i <= node_count,
                group_count > 0 || node_count == 0,
                group_count <= usize::MAX,
                draws@.len() == i,
                group_count > 1 ==> rndseq.history().len() == 2 * i,
                forall|k: int|
                    0 <= k < draws@.len() ==> #[trigger] draws@[k] < group_count && drawn_group(
                        rndseq.history(),
                        k,
                        group_count as nat,
                        draws@[k],
                    ),
            decreases node_count - i,
        {
            let ghost before = rndseq.history();
            let index = draw_group(&mut rndseq, group_count);
            proof {
                let h = rndseq.history();
                assert forall|k: int| 0 <= k < draws@.len() implies drawn_group(
                    h,
                    k,
                    group_count as nat,
                    draws@[k],
                ) == drawn_group(before, k, group_count as nat, draws@[k]) by {
                    if group_count > 1 {
                        assert(h[2 * k] == h.take(before.len() as int)[2 * k]);
                        assert(h[2 * k + 1] == h.take(before.len() as int)[2 * k + 1]);
                    }
                }
            }
            draws.push(index);
            i = i + 1;
        }
        let ghost h = rndseq.history();
        assert(draws_from(draws@, h, group_count as nat));
        Partition::from_draws(node_count, group_count, &draws)
    }

    /// The partition of the nodes `0..node_count` into `group_count` groups
    /// where node `i` goes to group `draws[i]`: nodes are placed in increasing
    /// order, each at the end of its group.
    pub fn from_draws(node_count: u64, group_count: u64, draws: &Vec<usize>) -> (r: Partition)
        requires
            group_count > 0 || node_count == 0,
            group_count <= usize::MAX,
            node_count <= usize::MAX,
            draws@.len() == node_count,
            forall|k: int| 0 <= k < draws@.len() ==> #[trigger] draws@[k] < group_count,
        ensures
            r@ == drawn_groups(draws@, group_count as nat),
            r@.len() == group_count,
            is_partition(r@),
            self::node_count(r@) == node_count,
            positions_follow_node_order(r@),
    {
        let mut groups: Vec<GroupPartition> = Vec::new();
        let mut j: u64 = 0;
        while j < group_count
            invariant
                j <= group_count,
                groups.len() == j,
                forall|g: int| 0 <= g < j ==> (#[trigger] groups@[g])@ == Map::<u64, usize>::empty(),
            decreases group_count - j,
        {
            groups.push(GroupPartition { nodes: HashMap::new() });
            j = j + 1;
        }
        let ghost v0 = groups@.map_values(|g: GroupPartition| g@);
        proof {
            assert forall|g: int| 0 <= g < v0.len() implies #[trigger] v0[g] == Map::<
                u64,
                usize,
            >::empty() by {
                assert(v0[g] == groups@[g]@);
            }
            lemma_node_count_zero(v0);
            assert(draws@.take(0) == Seq::<usize>::empty());
            assert(v0 =~= drawn_groups(draws@.take(0), group_count as nat));
        }
        let mut i: u64 = 0;
        while i < node_count
            invariant
                i <= node_count <= usize::MAX,
                draws@.len() == node_count,
                forall|k: int| 0 <= k < draws@.len() ==> #[trigger] draws@[k] < group_count,
                groups.len() == group_count,
                group_count > 0 || node_count == 0,
                is_partition(groups@.map_values(|g: GroupPartition| g@)),
                positions_follow_node_order(groups@.map_values(|g: GroupPartition| g@)),
                self::node_count(groups@.map_values(|g: GroupPartition| g@)) == i,
                groups@.map_values(|g: GroupPartition| g@) == drawn_groups(
                    draws@.take(i as int),
                    group_count as nat,
                ),
            decreases node_count - i,
        {
            let index = draws[i as usize];
            let ghost before = groups@.map_values(|g: GroupPartition| g@);
            let value = groups[index].nodes.len();
            proof {
                lemma_node_count_prefix(before, before.len() as int);
                lemma_group_le_count(before, index as int);
                lemma_insert_next(before, index as int, i);
                assert(draws@.take(i + 1).drop_last() == draws@.take(i as int));
                assert(draws@.take(i + 1).last() == index);
            }
            groups[index].nodes.insert(i, value);
            assert(groups@.map_values(|g: GroupPartition| g@) =~= before.update(
                index as int,
                before[index as int].insert(i, value),
            ));
            i = i + 1;
        }
        assert(draws@.take(node_count as int) == draws@);
        Partition { groups }
    }
}

impl Partition {
    /// The groups of the partition: each node in exactly one of them.
    pub fn groups(&self) -> (r: &Vec<GroupPartition>)
        ensures
            r@.map_values(|g: GroupPartition| g@) == self@,
            is_partition(self@),
    {
        proof {
            use_type_invariant(self);
        }
        &self.groups
    }

    /// The number of nodes over all groups.
    pub fn node_count(&self) -> (r: usize)
        ensures
            r == node_count(self@),
    {
        proof {
            use_type_invariant(self);
        }
        let ghost v = self@;
        let mut total: usize = 0;
        let mut g: usize = 0;
        while g < self.groups.len()
            invariant
                v == self@,
                v.len() == self.groups.len(),
                g <= self.groups.len(),
                total == node_count(v.take(g as int)),
                node_count(v) <= usize::MAX,
            decreases self.groups.len() - g,
        {
            proof {
                assert(v.take(g + 1).drop_last() == v.take(g as int));
                lemma_node_count_prefix(v, g + 1);
                assert(v[g as int] == self.groups@[g as int]@);
            }
            total = total + self.groups[g].len();
            g = g + 1;
        }
        assert(v.take(g as int) == v);
        total
    }

    /// The index of the group that holds the node `value`, if any group does:
    /// the first such group, and the only one.
    pub fn group_containing(&self, value: u64) -> (r: Option<usize>)
        ensures
            is_partition(self@),
            r is Some <==> (value as int) < node_count(self@),
            match r {
                Some(i) => i < self@.len() && self@[i as int].contains_key(value) && i == owner(
                    self@,
                    value,
                ) && forall|j: int| 0 <= j < i ==> !(#[trigger] self@[j]).contains_key(value),
                None => !in_some_group(self@, value),
            },
    {
        proof {
            use_type_invariant(self);
        }
        let mut i: usize = 0;
        while i < self.groups.len()
            invariant
                i <= self.groups.len(),
                self@.len() == self.groups.len(),
                is_partition(self@),
                forall|j: int| 0 <= j < i ==> !(#[trigger] self@[j]).contains_key(value),
            decreases self.groups.len() - i,
        {
            assert(self@[i as int] == self.groups@[i as int]@);
            if self.groups[i].contains(value) {
                proof {
                    let o = owner(self@, value);
                    assert(self@[o].contains_key(value));
                }
                return Some(i);
            }
            i = i + 1;
        }
        assert(!in_some_group(self@, value));
        None
    }

    /// Puts together one distribution per group into a distribution over all
    /// nodes: node `i` takes the value at its position in its group's distribution.
    pub fn fusion_stationary_distributions<T: Copy>(&self, stationary_distributions: &Vec<Vec<T>>) -> (r: Vec<T>)
        requires
            forall|g: int|
                0 <= g < self@.len() && (#[trigger] self@[g]).len() > 0 ==> g
                    < stationary_distributions@.len() && self@[g].len()
                    <= stationary_distributions@[g]@.len(),
        ensures
            r@ == fusion(self@, stationary_distributions@.map_values(|v: Vec<T>| v@)),
    {
        proof {
            use_type_invariant(self);
        }
        let ghost parts = stationary_distributions@.map_values(|v: Vec<T>| v@);
        let n = self.node_count();
        let mut result: Vec<T> = Vec::new();
        let mut i: usize = 0;
        while i < n
            invariant
                n == node_count(self@),
                i <= n,
                is_partition(self@),
                forall|g: int|
                    0 <= g < self@.len() && (#[trigger] self@[g]).len() > 0 ==> g
                        < stationary_distributions@.len() && self@[g].len()
                        <= stationary_distributions@[g]@.len(),
                parts == stationary_distributions@.map_values(|v: Vec<T>| v@),
                result@.len() == i,
                forall|j: int| 0 <= j < i ==> result@[j] == #[trigger] fusion(self@, parts)[j],
            decreases n - i,
        {
            let ghost k = i as u64;
            assert(in_some_group(self@, k));
            let g = match self.group_containing(i as u64) {
                Some(g) => g,
                None => 0,
            };
            assert(self@[g as int] == self.groups@[g as int]@);
            let p = self.groups[g].index(i as u64);
            assert(self@[g as int].len() > 0) by {
                assert(self@[g as int].dom().contains(k));
                vstd::set_lib::lemma_set_empty_equivalency_len(self@[g as int].dom());
            }
            result.push(stationary_distributions[g][p]);
            i = i + 1;
        }
        assert(result@ =~= fusion(self@, parts));
        result
    }

    /// The distribution of each group, taken from a distribution over all
    /// nodes: position `p` of a group takes the value of the node at that position.
    pub fn divide_stationary_distribution<T: Copy>(&self, stationary_distribution: &Vec<T>) -> (r: Vec<Vec<T>>)
        requires
            stationary_distribution@.len() >= node_count(self@),
        ensures
            r@.map_values(|v: Vec<T>| v@) == division(self@, stationary_distribution@),
    {
        proof {
            use_type_invariant(self);
        }
        let n = self.node_count();
        let ghost d = stationary_distribution@;
        let mut out: Vec<Vec<T>> = Vec::new();
        let mut g: usize = 0;
        while g < self.groups.len()
            invariant
                n == node_count(self@),
                is_partition(self@),
                self@.len() == self.groups.len(),
                g <= self.groups.len(),
                d == stationary_distribution@,
                d.len() >= n,
                out@.len() == g,
                forall|h: int| 0 <= h < g ==> (#[trigger] out@[h])@ == division(self@, d)[h],
            decreases self.groups.len() - g,
        {
            let ghost m = self@[g as int];
            assert(m == self.groups@[g as int]@);
            let len = self.groups[g].len();
            let mut inverse: Vec<u64> = Vec::new();
            let mut p: usize = 0;
            while p < len
                invariant
                    p <= len,
                    inverse@.len() == p,
                decreases len - p,
            {
                inverse.push(0);
                p = p + 1;
            }
            let mut i: usize = 0;
            while i < n
                invariant
                    n == node_count(self@),
                    is_partition(self@),
                    0 <= g < self@.len(),
                    m == self@[g as int],
                    m == self.groups@[g as int]@,
                    len == m.len(),
                    i <= n,
                    inverse@.len() == len,
                    forall|k: u64| k < i && #[trigger] m.contains_key(k) ==> inverse@[m[k] as int] == k,
                decreases n - i,
            {
                if self.groups[g].contains(i as u64) {
                    let p = self.groups[g].index(i as u64);
                    inverse.set(p, i as u64);
                    assert forall|k: u64| k < i + 1 && #[trigger] m.contains_key(k) implies inverse@[m[k] as int] == k by {
                        if k != i as u64 && m[k] == p {
                            assert(m[k] == m[i as u64]);
                        }
                    }
                }
                i = i + 1;
            }
            let mut row: Vec<T> = Vec::new();
            let mut q: usize = 0;
            while q < len
                invariant
                    n == node_count(self@),
                    is_partition(self@),
                    0 <= g < self@.len(),
                    m == self@[g as int],
                    len == m.len(),
                    inverse@.len() == len,
                    forall|k: u64| k < n && #[trigger] m.contains_key(k) ==> inverse@[m[k] as int] == k,
                    d == stationary_distribution@,
                    d.len() >= n,
                    q <= len,
                    row@.len() == q,
                    forall|j: int| 0 <= j < q ==> #[trigger] row@[j] == d[key_at(m, j) as int],
                decreases len - q,
            {
                proof {
                    assert(has_position(m, q as int));
                    let k = key_at(m, q as int);
                    assert(m.contains_key(k) && m[k] == q);
                    assert(k < n);
                    assert(inverse@[q as int] == k);
                }
                let node = inverse[q] as usize;
                row.push(stationary_distribution[node]);
                q = q + 1;
            }
            assert(row@ =~= division(self@, d)[g as int]);
            out.push(row);
            g = g + 1;
        }
        assert(out@.map_values(|v: Vec<T>| v@) =~= division(self@, d));
        out
    }
}

/// Whether the group `m` fits in a partition of `0..n`: its nodes are below
/// `n`, and its positions are exactly `0..` its size, each used once.
pub open spec fn group_fits(m: Map<u64, usize>, n: nat) -> bool {
    &&& forall|k: u64| #[trigger] m.contains_key(k) ==> k < n && m[k] < m.len()
    &&& forall|k1: u64, k2: u64|
        #[trigger] m.contains_key(k1) && #[trigger] m.contains_key(k2) && m[k1] == m[k2] ==> k1 == k2
    &&& forall|p: int| 0 <= p < m.len() ==> #[trigger] has_position(m, p)
}

/// Whether the group `m` fits in a partition of `0..n`.
fn check_group(m: &HashMap<u64, usize>, n: usize) -> (r: bool)
    ensures
        r == group_fits(m@, n as nat),
{
    let len = m.len();
    let mut seen: Vec<bool> = Vec::new();
    let mut p: usize = 0;
    while p < len
        invariant
            p <= len,
            seen@.len() == p,
            forall|q: int| 0 <= q < p ==> !(#[trigger] seen@[q]),
        decreases len - p,
    {
        seen.push(false);
        p = p + 1;
    }
    let _entries = m.iter();
    let ghost all = spec_hash_map_iter(m).remaining();
    assert(all.no_duplicates());
    let mut ok = true;
    let ghost mut done: int = 0;
    for (k, v) in it: m.iter()
        invariant
            it.seq() == all,
            done == it.index(),
            all == spec_hash_map_iter(m).remaining(),
            len == m@.len(),
            seen@.len() == len,
            all.no_duplicates(),
            ok ==> forall|j: int| #![trigger all[j]] 0 <= j < done ==> *all[j].0 < n && *all[j].1 < len,
            ok ==> forall|j1: int, j2: int|
                #![trigger all[j1], all[j2]]
                0 <= j1 < done && 0 <= j2 < done && j1 != j2 ==> *all[j1].1 != *all[j2].1,
            ok ==> forall|q: int|
                0 <= q < len ==> (#[trigger] seen@[q] <==> exists|j: int|
                    #![trigger all[j]]
                    0 <= j < done && *all[j].1 == q),
            !ok ==> !group_fits(m@, n as nat),
    {
        let ghost idx = it.index();
        assert(all[idx] == (k, v));
        if ok {
            if *k >= n as u64 || *v >= len {
                assert(m@.contains_key(*k) && m@[*k] == *v);
                ok = false;
            } else if seen[*v] {
                proof {
                    let j = choose|j: int| #![trigger all[j]] 0 <= j < idx && *all[j].1 == *v;
                    assert(all.no_duplicates());
                    assert(all[j] != all[idx]);
                    assert(*all[j].0 != *k);
                    assert(m@.contains_key(*all[j].0) && m@.contains_key(*k));
                }
                ok = false;
            } else {
                seen.set(*v, true);
                proof {
                    assert forall|q: int| 0 <= q < len implies (#[trigger] seen@[q] <==> exists|j: int|
                        #![trigger all[j]]
                        0 <= j < idx + 1 && *all[j].1 == q) by {
                        if q == *v {
                            assert(*all[idx].1 == q);
                        }
                    }
                }
            }
        }
        proof {
            done = done + 1;
        }
    }
    if !ok {
        return false;
    }
    assert(done == all.len());
    let mut q: usize = 0;
    while q < len
        invariant
            q <= len,
            len == m@.len(),
            seen@.len() == len,
            all == spec_hash_map_iter(m).remaining(),
            done == all.len(),
            forall|r: int| 0 <= r < q ==> #[trigger] seen@[r],
            forall|j: int| #![trigger all[j]] 0 <= j < done ==> *all[j].0 < n && *all[j].1 < len,
            forall|j1: int, j2: int|
                #![trigger all[j1], all[j2]]
                0 <= j1 < done && 0 <= j2 < done && j1 != j2 ==> *all[j1].1 != *all[j2].1,
            forall|r: int|
                0 <= r < len ==> (#[trigger] seen@[r] <==> exists|j: int|
                    #![trigger all[j]]
                    0 <= j < done && *all[j].1 == r),
        decreases len - q,
    {
        if !seen[q] {
            proof {
                if has_position(m@, q as int) {
                    let k = choose|k: u64| #[trigger] m@.contains_key(k) && m@[k] == q;
                    assert(all.contains((&k, &m@[k])));
                    let j = choose|j: int| 0 <= j < all.len() && all[j] == (&k, &m@[k]);
                    assert(*all[j].1 == q);
                }
            }
            return false;
        }
        q = q + 1;
    }
    proof {
        assert forall|k: u64| #[trigger] m@.contains_key(k) implies k < n && m@[k] < m@.len() by {
            assert(all.contains((&k, &m@[k])));
        }
        assert forall|k1: u64, k2: u64|
            #[trigger] m@.contains_key(k1) && #[trigger] m@.contains_key(k2) && m@[k1] == m@[k2]
            implies k1 == k2 by {
            assert(all.contains((&k1, &m@[k1])));
            assert(all.contains((&k2, &m@[k2])));
            let j1 = choose|j: int| 0 <= j < all.len() && all[j] == (&k1, &m@[k1]);
            let j2 = choose|j: int| 0 <= j < all.len() && all[j] == (&k2, &m@[k2]);
            if j1 != j2 {
                assert(*all[j1].1 != *all[j2].1);
            }
        }
        assert forall|p: int| 0 <= p < m@.len() implies #[trigger] has_position(m@, p) by {
            assert(seen@[p]);
            let j = choose|j: int| #![trigger all[j]] 0 <= j < all.len() && *all[j].1 == p;
            assert(m@.contains_key(*all[j].0));
        }
    }
    true
}

impl Partition {
    /// The partition made of the given groups, if they partition the nodes
    /// `0..n` (each node in exactly one group, each group's positions exactly
    /// `0..` its size), with `n`, their total size, fitting in a `usize`.
    pub fn from_groups(groups: Vec<GroupPartition>) -> (r: Option<Partition>)
        ensures
            r is Some <==> is_partition(groups@.map_values(|g: GroupPartition| g@)) && node_count(
                groups@.map_values(|g: GroupPartition| g@),
            ) <= usize::MAX,
            r matches Some(p) ==> p@ == groups@.map_values(|g: GroupPartition| g@),
    {
        let ghost v = groups@.map_values(|g: GroupPartition| g@);
        let mut n: usize = 0;
        let mut g: usize = 0;
        while g < groups.len()
            invariant
                v == groups@.map_values(|g: GroupPartition| g@),
                g <= groups.len(),
                n == node_count(v.take(g as int)),
            decreases groups.len() - g,
        {
            proof {
                assert(v.take(g + 1).drop_last() == v.take(g as int));
                assert(v[g as int] == groups@[g as int]@);
            }
            match n.checked_add(groups[g].len()) {
                Some(total) => {
                    n = total;
                },
                None => {
                    proof {
                        lemma_node_count_prefix(v, g + 1);
                    }
                    return None;
                },
            }
            g = g + 1;
        }
        assert(v.take(g as int) == v);
        let mut h: usize = 0;
        while h < groups.len()
            invariant
                v == groups@.map_values(|g: GroupPartition| g@),
                n == node_count(v),
                h <= groups.len(),
                forall|j: int| 0 <= j < h ==> #[trigger] group_fits(v[j], n as nat),
            decreases groups.len() - h,
        {
            assert(v[h as int] == groups@[h as int]@);
            if !check_group(&groups[h].nodes, n) {
                proof {
                    if is_partition(v) {
                        assert(group_fits(v[h as int], n as nat));
                    }
                }
                return None;
            }
            h = h + 1;
        }
        let mut i: usize = 0;
        while i < n
            invariant
                v == groups@.map_values(|g: GroupPartition| g@),
                n == node_count(v),
                i <= n,
                forall|j: int| 0 <= j < v.len() ==> #[trigger] group_fits(v[j], n as nat),
                forall|k: u64| k < i ==> #[trigger] in_some_group(v, k),
                forall|g1: int, g2: int, k: u64|
                    0 <= g1 < v.len() && 0 <= g2 < v.len() && k < i && #[trigger] v[g1].contains_key(k)
                        && #[trigger] v[g2].contains_key(k) ==> g1 == g2,
            decreases n - i,
        {
            let mut found: Option<usize> = None;
            let mut j: usize = 0;
            while j < groups.len()
                invariant
                    v == groups@.map_values(|g: GroupPartition| g@),
                    i < n,
                    j <= groups.len(),
                    match found {
                        None => forall|a: int| 0 <= a < j ==> !(#[trigger] v[a]).contains_key(i as u64),
                        Some(a) => a < j && v[a as int].contains_key(i as u64) && forall|b: int|
                            0 <= b < j && b != a ==> !(#[trigger] v[b]).contains_key(i as u64),
                    },
                decreases groups.len() - j,
            {
                assert(v[j as int] == groups@[j as int]@);
                if groups[j].contains(i as u64) {
                    match found {
                        Some(a) => {
                            proof {
                                assert(v[a as int].contains_key(i as u64));
                                assert(v[j as int].contains_key(i as u64));
                            }
                            return None;
                        },
                        None => {
                            found = Some(j);
                        },
                    }
                }
                j = j + 1;
            }
            if found.is_none() {
                proof {
                    assert(!in_some_group(v, i as u64));
                }
                return None;
            }
            i = i + 1;
        }
        proof {
            assert forall|a: int| 0 <= a < v.len() implies #[trigger] v[a].dom().finite() by {
                assert(v[a] == groups@[a]@);
                vstd::std_specs::hash::axiom_hashmap_view_finite_dom(groups@[a].nodes);
            }
            assert forall|a: int, k: u64| 0 <= a < v.len() && #[trigger] v[a].contains_key(k) implies k < n by {
                assert(group_fits(v[a], n as nat));
            }
            assert forall|a: int, k: u64|
                0 <= a < v.len() && #[trigger] v[a].contains_key(k) implies v[a][k] < v[a].len() by {
                assert(group_fits(v[a], n as nat));
            }
            assert forall|a: int, k1: u64, k2: u64|
                0 <= a < v.len() && #[trigger] v[a].contains_key(k1) && #[trigger] v[a].contains_key(k2)
                    && v[a][k1] == v[a][k2] implies k1 == k2 by {
                assert(group_fits(v[a], n as nat));
            }
            assert forall|a: int, p: int|
                0 <= a < v.len() && 0 <= p < v[a].len() implies #[trigger] has_position(v[a], p) by {
                assert(group_fits(v[a], n as nat));
            }
            assert forall|g1: int, g2: int, k: u64|
                0 <= g1 < v.len() && 0 <= g2 < v.len() && #[trigger] v[g1].contains_key(k)
                    && #[trigger] v[g2].contains_key(k) implies g1 == g2 by {
                assert(group_fits(v[g1], n as nat));
            }
        }
        Some(Partition { groups })
    }
}

/// Putting together the groups' parts of a distribution gives the
/// distribution back: `fusion(divide(d)) == d` for any distribution over the
/// partition's nodes.
pub proof fn law_fusion_after_division<T>(groups: Seq<Map<u64, usize>>, d: Seq<T>)
    requires
        is_partition(groups),
        d.len() == node_count(groups),
    ensures
        fusion(groups, division(groups, d)) == d,
{
    let parts = division(groups, d);
    assert forall|i: int| 0 <= i < d.len() implies #[trigger] fusion(groups, parts)[i] == d[i] by {
        let k = i as u64;
        assert(in_some_group(groups, k));
        let g = owner(groups, k);
        assert(0 <= g < groups.len() && groups[g].contains_key(k));
        let p = groups[g][k] as int;
        assert(has_position(groups[g], p));
        let k2 = key_at(groups[g], p);
        assert(groups[g].contains_key(k2) && groups[g][k2] == p);
        assert(k2 == k);
    }
    assert(fusion(groups, parts) =~= d);
}

/// Dividing the fusion of one distribution per group gives back each group's
/// distribution, when each has the size of its group.
pub proof fn law_division_after_fusion<T>(groups: Seq<Map<u64, usize>>, parts: Seq<Seq<T>>)
    requires
        is_partition(groups),
        parts.len() == groups.len(),
        forall|g: int| 0 <= g < groups.len() ==> (#[trigger] parts[g]).len() == groups[g].len(),
    ensures
        division(groups, fusion(groups, parts)) == parts,
{
    let whole = fusion(groups, parts);
    let back = division(groups, whole);
    assert forall|g: int| 0 <= g < groups.len() implies #[trigger] back[g] == parts[g] by {
        assert forall|p: int| 0 <= p < groups[g].len() implies #[trigger] back[g][p] == parts[g][p] by {
            assert(has_position(groups[g], p));
            let k = key_at(groups[g], p);
            assert(groups[g].contains_key(k) && groups[g][k] == p);
            assert(k < node_count(groups));
            assert(in_some_group(groups, k));
            let o = owner(groups, k);
            assert(0 <= o < groups.len() && groups[o].contains_key(k));
            assert(o == g);
            assert((k as int) as u64 == k);
        }
        assert(back[g] =~= parts[g]);
    }
    assert(back =~= parts);
}

proof fn lemma_node_count_zero(groups: Seq<Map<u64, usize>>)
    requires
        forall|g: int| 0 <= g < groups.len() ==> #[trigger] groups[g] == Map::<u64, usize>::empty(),
    ensures
        node_count(groups) == 0,
        is_partition(groups),
        positions_follow_node_order(groups),
    decreases groups.len(),
{
    if groups.len() > 0 {
        lemma_node_count_zero(groups.drop_last());
    }
    assert forall|g: int| 0 <= g < groups.len() implies #[trigger] groups[g].dom().finite() by {
        assert(groups[g].dom() =~= Set::<u64>::empty());
    }
    assert forall|g: int, p: int|
        0 <= g < groups.len() && 0 <= p < groups[g].len() implies #[trigger] has_position(
        groups[g],
        p,
    ) by {
        assert(groups[g].dom() =~= Set::<u64>::empty());
    }
}

proof fn lemma_group_le_count(groups: Seq<Map<u64, usize>>, g: int)
    requires
        0 <= g < groups.len(),
    ensures
        groups[g].len() <= node_count(groups),
    decreases groups.len(),
{
    if g < groups.len() - 1 {
        lemma_group_le_count(groups.drop_last(), g);
    }
}

impl Partition {
    /// Whether the arc between the nodes `col` and `row` stays when arcs are
    /// removed at random across groups: an arc within a group always stays;
    /// one between two groups stays only if it survived its draw
    /// (`survives_draw`).
    pub fn keeps_arc(&self, col: u64, row: u64, survives_draw: bool) -> (r: bool)
        ensures
            r == (same_group(self@, col, row) || survives_draw),
    {
        let a = self.group_containing(col);
        let b = self.group_containing(row);
        let same = match (a, b) {
            (Some(x), Some(y)) => x == y,
            (None, None) => true,
            _ => false,
        };
        same || survives_draw
    }
}

/// The group that two draws give for a node when there are `group_count`
/// groups: `k`, uniform in `0..group_count - 1`, plus the coin `coin` (0 or
/// 1). The first and the last group are reached half as often as the others,
/// as when a uniform draw in `[0, group_count - 1)` is rounded.
pub fn group_from_draws(group_count: u64, k: u64, coin: u64) -> (r: usize)
    requires
        1 < group_count <= usize::MAX,
        k < group_count - 1,
        coin < 2,
    ensures
        r == k + coin,
        r < group_count,
{
    (k + coin) as usize
}

/// Whether `g` is the group that the draws `h[2 * i]` and `h[2 * i + 1]` give
/// for node `i`, with `group_count` groups: `0` with a single group (no draw
/// made), else `k + coin` for the draw `k` below `group_count - 1` and the
/// draw `coin` below `2`.
pub open spec fn drawn_group(h: Seq<u64>, i: int, group_count: nat, g: usize) -> bool {
    if group_count <= 1 {
        g == 0
    } else {
        &&& h[2 * i] < group_count - 1
        &&& h[2 * i + 1] < 2
        &&& g == h[2 * i] + h[2 * i + 1]
    }
}

/// Whether `draws` are, node after node, the groups that the draws `h` give:
/// each below `group_count`, node `i` in the group of `h[2 * i]` and
/// `h[2 * i + 1]`.
pub open spec fn draws_from(draws: Seq<usize>, h: Seq<u64>, group_count: nat) -> bool {
    forall|k: int|
        0 <= k < draws.len() ==> #[trigger] draws[k] < group_count && drawn_group(
            h,
            k,
            group_count,
            draws[k],
        )
}

/// Every group can be drawn: with more than one group, each group `g` is
/// what some pair of draws, `k` below `group_count - 1` and a coin below `2`,
/// gives.
pub proof fn law_every_group_can_be_drawn(group_count: u64, g: usize)
    requires
        1 < group_count,
        g < group_count,
    ensures
        exists|h: Seq<u64>| #[trigger] drawn_group(h, 0, group_count as nat, g),
{
    if g < group_count - 1 {
        let h = seq![g as u64, 0u64];
        assert(drawn_group(h, 0, group_count as nat, g));
    } else {
        let h = seq![(g - 1) as u64, 1u64];
        assert(drawn_group(h, 0, group_count as nat, g));
    }
}

/// Draws the group of the next node: no draw where there is one group, else
/// the group that `group_from_draws` gives for the next two draws of `rng`.
fn draw_group(rng: &mut RngSeq, group_count: u64) -> (r: usize)
    requires
        group_count > 0,
        group_count <= usize::MAX,
    ensures
        r < group_count,
        group_count == 1 ==> r == 0 && final(rng).history() == old(rng).history(),
        group_count > 1 ==> {
            let h = final(rng).history();
            let n = old(rng).history().len() as int;
            &&& h.len() == n + 2
            &&& h.take(n) == old(rng).history()
            &&& h[n] < group_count - 1
            &&& h[n + 1] < 2
            &&& r == h[n] + h[n + 1]
        },
{
    if group_count == 1 {
        0
    } else {
        let ghost before = rng.history();
        let k = rng.next_below(group_count - 1);
        let coin = rng.next_below(2);
        assert(rng.history() == before.push(k).push(coin));
        assert(rng.history().take(before.len() as int) =~= before);
        group_from_draws(group_count, k, coin)
    }
}

} // verus!
