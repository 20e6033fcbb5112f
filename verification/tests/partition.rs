use ranking::matrix::partition::{group_from_draws, GroupPartition, Partition};
use std::collections::{HashMap, HashSet};

fn check_partition_of_100() {
    let partition = Partition::new(100, 4);
    assert_eq!(partition.groups().len(), 4);
    let mut values = HashSet::new();
    for group in partition.groups() {
        for value in group.nodes().iter() {
            if values.contains(&value) {
                panic!();
            }
            values.insert(value);
        }
    }
    assert_eq!(values.len(), 100);
}

#[test]
fn create_partition() {
    check_partition_of_100();
}

#[test]
fn partition_create_partition() {
    check_partition_of_100();
}

fn two_groups() -> Partition {
    let mut first_group = HashMap::new();
    first_group.insert(0, 0);
    first_group.insert(2, 1);
    let mut second_group = HashMap::new();
    second_group.insert(1, 0);
    second_group.insert(3, 1);
    Partition::from_groups(vec![
        GroupPartition::new(first_group),
        GroupPartition::new(second_group),
    ])
    .unwrap()
}

#[test]
fn fusion_distributions() {
    let distributions: Vec<Vec<f64>> = vec![vec![0.1, 0.3], vec![0.2, 0.4]];
    let partition = two_groups();
    assert_eq!(
        partition.fusion_stationary_distributions(&distributions),
        vec![0.1, 0.2, 0.3, 0.4]
    );
}

#[test]
fn divide_distributions() {
    let partition = Partition::new(4, 2);
    let distribution: Vec<f64> = vec![0.1, 0.3, 0.2, 0.4];
    assert_eq!(
        distribution,
        partition.fusion_stationary_distributions(
            &partition.divide_stationary_distribution(&distribution)
        )
    )
}

#[test]
fn divide_of_explicit_groups() {
    let partition = two_groups();
    let distribution: Vec<f64> = vec![0.1, 0.2, 0.3, 0.4];
    assert_eq!(
        partition.divide_stationary_distribution(&distribution),
        vec![vec![0.1, 0.3], vec![0.2, 0.4]]
    );
}

#[test]
fn division_after_fusion_gives_parts_back() {
    let partition = Partition::new(7, 3);
    let sizes: Vec<usize> = partition.groups().iter().map(|g| g.len()).collect();
    let parts: Vec<Vec<u32>> = sizes
        .iter()
        .enumerate()
        .map(|(g, n)| (0..*n).map(|p| (g * 100 + p) as u32).collect())
        .collect();
    let whole = partition.fusion_stationary_distributions(&parts);
    assert_eq!(whole.len(), 7);
    assert_eq!(partition.divide_stationary_distribution(&whole), parts);
}

#[test]
fn new_places_nodes_in_order() {
    let partition = Partition::new(50, 5);
    assert_eq!(partition.node_count(), 50);
    for group in partition.groups() {
        let mut members: Vec<(u64, usize)> = group.nodes().iter().map(|(k, v)| (*k, *v)).collect();
        members.sort();
        for (pos, (_, p)) in members.iter().enumerate() {
            assert_eq!(pos, *p);
        }
    }
    for node in 0..50u64 {
        let g = partition.group_containing(node).unwrap();
        assert!(partition.groups()[g].contains(node));
    }
    assert_eq!(partition.group_containing(50), None);
}

#[test]
fn single_group_holds_every_node() {
    let partition = Partition::new(6, 1);
    assert_eq!(partition.groups()[0].len(), 6);
    for node in 0..6u64 {
        assert_eq!(partition.groups()[0].index(node), node as usize);
    }
}

#[test]
fn group_accessors() {
    let mut nodes = HashMap::new();
    nodes.insert(5, 0);
    nodes.insert(9, 1);
    let group = GroupPartition::new(nodes);
    assert!(group.contains(5));
    assert!(!group.contains(6));
    assert_eq!(group.len(), 2);
    assert_eq!(group.index(9), 1);
    let copy = group.clone();
    assert_eq!(copy.index(5), 0);
}

#[test]
fn from_groups_rejects_non_partitions() {
    // a node outside 0..n
    let mut g = HashMap::new();
    g.insert(0, 0);
    g.insert(5, 1);
    assert!(Partition::from_groups(vec![GroupPartition::new(g)]).is_none());
    // a node in two groups
    let mut a = HashMap::new();
    a.insert(0, 0);
    let mut b = HashMap::new();
    b.insert(0, 0);
    assert!(Partition::from_groups(vec![GroupPartition::new(a), GroupPartition::new(b)]).is_none());
    // two nodes at one position
    let mut c = HashMap::new();
    c.insert(0, 0);
    c.insert(1, 0);
    assert!(Partition::from_groups(vec![GroupPartition::new(c)]).is_none());
    // a position past the group's size
    let mut d = HashMap::new();
    d.insert(0, 0);
    d.insert(1, 2);
    assert!(Partition::from_groups(vec![GroupPartition::new(d)]).is_none());
    // empty groups are fine
    assert!(Partition::from_groups(vec![GroupPartition::new(HashMap::new())]).is_some());
}

#[test]
fn draws_place_nodes_at_the_end_of_their_groups() {
    let partition = Partition::from_draws(5, 2, &vec![0, 1, 1, 0, 1]);
    let groups = partition.groups();
    assert_eq!(groups.len(), 2);
    let first: HashMap<u64, usize> = [(0, 0), (3, 1)].into_iter().collect();
    let second: HashMap<u64, usize> = [(1, 0), (2, 1), (4, 2)].into_iter().collect();
    assert_eq!(groups[0].nodes(), &first);
    assert_eq!(groups[1].nodes(), &second);
    assert_eq!(partition.group_containing(3), Some(0));
    assert_eq!(partition.group_containing(4), Some(1));
    assert_eq!(partition.group_containing(5), None);
}

#[test]
fn draws_may_leave_a_group_empty() {
    let partition = Partition::from_draws(3, 3, &vec![2, 2, 0]);
    assert_eq!(partition.groups()[1].len(), 0);
    assert_eq!(partition.groups()[2].index(1), 1);
}

#[test]
fn arcs_within_a_group_always_stay() {
    let partition = Partition::from_draws(4, 2, &vec![0, 0, 1, 1]);
    assert!(partition.keeps_arc(0, 1, false));
    assert!(partition.keeps_arc(3, 2, false));
}

#[test]
fn arcs_across_groups_stay_only_if_they_survive_the_draw() {
    let partition = Partition::from_draws(4, 2, &vec![0, 0, 1, 1]);
    assert!(!partition.keeps_arc(0, 2, false));
    assert!(partition.keeps_arc(0, 2, true));
    assert!(!partition.keeps_arc(0, 9, false));
    assert!(partition.keeps_arc(7, 9, false));
}

#[test]
fn no_node_and_no_group_give_an_empty_partition() {
    let partition = Partition::new(0, 0);
    assert_eq!(partition.groups().len(), 0);
    assert_eq!(partition.group_containing(0), None);
    assert_eq!(Partition::from_draws(0, 0, &vec![]).groups().len(), 0);
}

#[test]
fn two_draws_give_the_group() {
    assert_eq!(group_from_draws(4, 0, 0), 0);
    assert_eq!(group_from_draws(4, 2, 1), 3);
    assert_eq!(group_from_draws(4, 1, 1), 2);
    assert_eq!(group_from_draws(2, 0, 1), 1);
}

#[test]
fn one_group_takes_every_node() {
    let partition = Partition::new(10, 1);
    assert_eq!(partition.groups()[0].len(), 10);
}
