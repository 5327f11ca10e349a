use primeclue::outcome::Class;
use primeclue::training::{order_by_score, ClassGroup, ClassTraining, Fresh, GroupId, Scored};

fn scored(name: &str, score: u64, nodes: usize) -> Scored<String> {
    Scored { tree: name.to_string(), score, nodes }
}

fn fresh(name: &str, nodes: usize) -> Fresh<String> {
    Fresh { tree: name.to_string(), nodes }
}

fn group_with(id: u64, trees: Vec<Scored<String>>) -> ClassGroup<String> {
    let mut g = ClassGroup::create(GroupId(id), vec![]);
    for t in trees {
        g.add_scored(t);
    }
    g
}

fn names(g: &ClassGroup<String>) -> Vec<String> {
    g.scored().iter().map(|t| t.tree.clone()).collect()
}

fn ids<T>(t: &ClassTraining<'_, T, String>) -> Vec<u64> {
    t.groups().iter().map(|g| g.id().0).collect()
}

fn training_with(size: usize, groups: Vec<ClassGroup<String>>) -> ClassTraining<'static, (), String> {
    let mut t = ClassTraining::new(size, vec![], &(), Class::new(0));
    for g in groups {
        while t.take_group_id().0 < g.id().0 {}
        t.insert_group(g);
    }
    t
}

#[test]
fn new_training_has_no_groups() {
    let objective = 7u8;
    let t: ClassTraining<'_, u8, String> = ClassTraining::new(4, vec![2, 5], &objective, Class::new(3));
    assert_eq!(*t.class(), Class::new(3));
    assert_eq!(t.size(), 4);
    assert_eq!(t.forbidden_cols(), &vec![2, 5]);
    assert_eq!(*t.objective(), 7);
    assert!(t.best_tree().is_none());
    assert!(t.groups().is_empty());
    assert!(t.needs_groups());
}

#[test]
fn group_names_are_handed_out_in_turn() {
    let mut t: ClassTraining<'_, (), String> = ClassTraining::new(1, vec![], &(), Class::new(0));
    assert_eq!(t.take_group_id(), GroupId(1));
    assert_eq!(t.take_group_id(), GroupId(2));
    assert_eq!(t.take_group_id(), GroupId(3));
}

#[test]
fn filling_up_makes_twice_size_groups() {
    let mut t: ClassTraining<'_, (), String> = ClassTraining::new(3, vec![], &(), Class::new(0));
    while t.needs_groups() {
        let id = t.take_group_id();
        t.insert_group(ClassGroup::create(id, vec![fresh("t", 1)]));
    }
    assert_eq!(ids(&t), vec![1, 2, 3, 4, 5, 6]);
}

#[test]
fn inserting_a_known_name_replaces_the_group() {
    let mut t = training_with(2, vec![group_with(1, vec![scored("a", 1, 1)]), group_with(2, vec![])]);
    t.insert_group(group_with(1, vec![scored("b", 2, 1)]));
    assert_eq!(ids(&t), vec![1, 2]);
    assert_eq!(names(&t.groups()[0]), vec!["b"]);
}

#[test]
fn best_tree_is_recorded() {
    let mut t: ClassTraining<'_, (), String> = ClassTraining::new(1, vec![], &(), Class::new(0));
    t.set_best_tree(scored("best", 9, 4));
    assert_eq!(t.best_tree().unwrap().tree, "best");
}

#[test]
fn group_trees_and_node_count() {
    let mut g = ClassGroup::create(GroupId(5), vec![fresh("f1", 3), fresh("f2", 4)]);
    assert_eq!(g.id(), GroupId(5));
    g.add_scored(scored("s", 1, 10));
    g.add_fresh(fresh("f3", 1));
    assert_eq!(g.nodes_count(), 18);
    let taken = g.take_fresh();
    assert_eq!(taken.len(), 3);
    assert!(g.fresh().is_empty());
    assert_eq!(g.nodes_count(), 10);
}

#[test]
fn weak_trees_are_removed_best_first() {
    let mut g = group_with(1, vec![scored("a", 3, 1), scored("b", 9, 1), scored("c", 1, 1), scored("d", 9, 1), scored("e", 5, 1)]);
    g.remove_weak_trees(3);
    assert_eq!(names(&g), vec!["b", "d", "e"]);
    g.remove_weak_trees(10);
    assert_eq!(names(&g), vec!["b", "d", "e"]);
    g.remove_weak_trees(0);
    assert!(g.scored().is_empty());
}

#[test]
fn breeding_picks_one_parent_per_three_missing_trees() {
    let g = ClassGroup::create(GroupId(1), vec![fresh("f", 1)]);
    let mut g = g;
    g.add_scored(scored("only", 1, 1));
    let parents: Vec<&str> = g.breed(8).iter().map(|p| p.tree.as_str()).collect();
    assert_eq!(parents, vec!["only", "only", "only"]);
    assert!(g.breed(1).is_empty());
    assert_eq!(g.breed(4).len(), 1);
    assert_eq!(g.breed(5).len(), 2);
}

#[test]
fn breeding_parents_are_scored_trees() {
    let g = group_with(1, vec![scored("a", 1, 1), scored("b", 2, 1)]);
    let parents = g.breed(30);
    assert_eq!(parents.len(), 10);
    assert!(parents.iter().all(|p| p.tree == "a" || p.tree == "b"));
}

#[test]
fn empty_groups_are_removed() {
    let mut t = training_with(2, vec![group_with(1, vec![scored("a", 1, 1)]), group_with(2, vec![]), group_with(3, vec![scored("b", 1, 1)])]);
    t.remove_empty_groups();
    assert_eq!(ids(&t), vec![1, 3]);
}

#[test]
fn node_limit_keeps_the_smallest_groups_that_fit() {
    let mut t = training_with(2, vec![
        group_with(1, vec![scored("a", 1, 3_000_000)]),
        group_with(2, vec![scored("b", 1, 2_500_000)]),
        group_with(3, vec![scored("c", 1, 1_000_000)]),
    ]);
    t.keep_node_limit();
    assert_eq!(ids(&t), vec![2, 3]);
    let total: usize = t.groups().iter().map(|g| g.nodes_count()).sum();
    assert!(total <= 5_000_000);
}

#[test]
fn node_limit_skips_a_group_that_does_not_fit_but_later_ones_may_not_fit_either() {
    let mut t = training_with(2, vec![
        group_with(1, vec![scored("a", 1, 2_000_000)]),
        group_with(2, vec![scored("b", 1, 2_000_000)]),
        group_with(3, vec![scored("c", 1, 2_000_000)]),
    ]);
    t.keep_node_limit();
    assert_eq!(ids(&t), vec![1, 2]);
}

#[test]
fn node_limit_leaves_groups_that_fit() {
    let mut t = training_with(2, vec![group_with(1, vec![scored("a", 1, 5_000_000)]), group_with(2, vec![])]);
    t.keep_node_limit();
    assert_eq!(ids(&t), vec![1, 2]);
}

#[test]
fn bad_groups_are_removed_by_rank() {
    let mut t = training_with(2, vec![group_with(1, vec![]), group_with(2, vec![]), group_with(3, vec![])]);
    let mut sorted = vec![GroupId(3), GroupId(1), GroupId(2)];
    t.remove_bad_groups(&mut sorted);
    assert_eq!(ids(&t), vec![3, 1]);
    assert_eq!(sorted, vec![GroupId(2)]);
}

#[test]
fn bad_groups_are_kept_when_few() {
    let mut t = training_with(3, vec![group_with(1, vec![]), group_with(2, vec![])]);
    let mut sorted = vec![GroupId(2)];
    t.remove_bad_groups(&mut sorted);
    assert_eq!(ids(&t), vec![1, 2]);
    assert_eq!(sorted, vec![GroupId(2)]);
}

#[test]
fn only_ranked_groups_survive() {
    let mut t = training_with(2, vec![group_with(1, vec![]), group_with(2, vec![]), group_with(3, vec![])]);
    let mut sorted = vec![GroupId(2)];
    t.remove_bad_groups(&mut sorted);
    assert_eq!(ids(&t), vec![2]);
    assert!(sorted.is_empty());
}

#[test]
fn groups_ordered_by_score() {
    let order = order_by_score(&vec![(GroupId(1), 5), (GroupId(2), 9), (GroupId(3), 5), (GroupId(4), 0)]);
    assert_eq!(order, vec![GroupId(2), GroupId(1), GroupId(3), GroupId(4)]);
}

#[test]
fn choosing_a_scored_tree() {
    let t: ClassTraining<'_, (), String> = ClassTraining::new(1, vec![], &(), Class::new(0));
    assert!(t.choose_scored().is_none());
    let t = training_with(1, vec![group_with(1, vec![scored("x", 1, 1)])]);
    assert_eq!(t.choose_scored().unwrap().tree, "x");
    let t = training_with(1, vec![group_with(1, vec![])]);
    assert!(t.choose_scored().is_none());
}

#[test]
fn groups_can_be_worked_on_in_place() {
    let mut t = training_with(1, vec![group_with(1, vec![scored("a", 1, 1)]), group_with(2, vec![])]);
    let mut groups = t.take_groups();
    assert!(t.groups().is_empty());
    for g in groups.iter_mut() {
        g.add_fresh(fresh("n", 2));
    }
    assert!(t.fits(&groups));
    t.put_groups(groups);
    assert_eq!(ids(&t), vec![1, 2]);
    assert_eq!(t.groups()[0].fresh().len(), 1);
    let clash = vec![group_with(2, vec![]), group_with(2, vec![])];
    assert!(!t.fits(&clash));
    let unknown = vec![group_with(99, vec![])];
    assert!(!t.fits(&unknown));
}

#[test]
fn best_tree_of_a_group_is_the_first_highest() {
    let g = group_with(1, vec![scored("a", 3, 1), scored("b", 9, 1), scored("c", 9, 1)]);
    assert_eq!(g.best().unwrap().tree, "b");
    let empty = group_with(2, vec![]);
    assert!(empty.best().is_none());
}

#[test]
fn node_limit_drops_only_groups_as_large_as_those_kept() {
    let mut t = training_with(2, vec![
        group_with(1, vec![scored("a", 1, 4_000_000)]),
        group_with(2, vec![scored("b", 1, 1_500_000)]),
        group_with(3, vec![scored("c", 1, 1_500_000)]),
        group_with(4, vec![scored("d", 1, 1_000_000)]),
    ]);
    t.keep_node_limit();
    assert_eq!(ids(&t), vec![2, 3, 4]);
}

#[test]
fn a_generation_ends_with_few_full_groups_within_the_limit() {
    let mut t = training_with(2, vec![
        ClassGroup::create(GroupId(1), vec![fresh("a1", 2_000_000), fresh("a2", 1), fresh("a3", 1)]),
        ClassGroup::create(GroupId(2), vec![fresh("b1", 10)]),
        ClassGroup::create(GroupId(3), vec![fresh("c1", 3_500_000), fresh("c2", 5)]),
        ClassGroup::create(GroupId(4), vec![]),
    ]);
    let size = t.size();
    let mut groups = t.take_groups();
    for g in groups.iter_mut() {
        for (k, f) in g.take_fresh().into_iter().enumerate() {
            if f.tree != "b1" {
                g.add_scored(Scored { tree: f.tree, score: k as u64, nodes: f.nodes });
            }
        }
        g.remove_weak_trees(size);
    }
    t.put_groups(groups);
    t.remove_empty_groups();
    assert_eq!(ids(&t), vec![1, 3]);
    let mut ranking = vec![GroupId(3), GroupId(1)];
    t.remove_bad_groups(&mut ranking);
    t.keep_node_limit();
    assert!(t.groups().len() <= size);
    let total: usize = t.groups().iter().map(|g| g.nodes_count()).sum();
    assert!(total <= 5_000_000);
    for g in t.groups() {
        assert!(g.fresh().is_empty());
        assert!(!g.scored().is_empty() && g.scored().len() <= size);
    }
    assert_eq!(*t.class(), Class::new(0));
}

#[test]
fn class_and_best_tree_stay_through_steps() {
    let mut t = training_with(1, vec![group_with(1, vec![scored("a", 1, 1)]), group_with(2, vec![])]);
    t.set_best_tree(scored("best", 5, 1));
    t.remove_empty_groups();
    let mut ranking = vec![GroupId(1)];
    t.remove_bad_groups(&mut ranking);
    t.keep_node_limit();
    let id = t.take_group_id();
    t.insert_group(ClassGroup::create(id, vec![]));
    assert_eq!(*t.class(), Class::new(0));
    assert_eq!(t.best_tree().unwrap().tree, "best");
}

#[test]
fn missing_group_names_are_handed_out_at_once() {
    let mut t = training_with(3, vec![group_with(1, vec![]), group_with(2, vec![])]);
    assert_eq!(t.next_id(), 3);
    let ids: Vec<u64> = t.fill_ids().iter().map(|i| i.0).collect();
    assert_eq!(ids, vec![3, 4, 5, 6]);
    assert_eq!(t.next_id(), 7);
    assert!(t.fill_ids().len() == 4);
    for id in 7..11 {
        t.insert_group(group_with(id, vec![]));
    }
    assert!(t.fill_ids().is_empty());
}

#[test]
fn end_of_generation_keeps_the_best_full_groups() {
    let mut t = training_with(2, vec![
        group_with(1, vec![scored("a", 1, 10)]),
        group_with(2, vec![]),
        group_with(3, vec![scored("c", 1, 3_000_000)]),
        group_with(4, vec![scored("d", 1, 2_500_000)]),
    ]);
    let mut ranking = vec![GroupId(3), GroupId(4), GroupId(1)];
    t.end_generation(&mut ranking);
    assert_eq!(ranking, vec![GroupId(1)]);
    assert_eq!(ids(&t), vec![4]);
    let mut few = training_with(3, vec![group_with(1, vec![scored("a", 1, 1)]), group_with(2, vec![])]);
    let mut untouched = vec![GroupId(7), GroupId(7)];
    few.end_generation(&mut untouched);
    assert_eq!(ids(&few), vec![1]);
    assert_eq!(untouched, vec![GroupId(7), GroupId(7)]);
}
