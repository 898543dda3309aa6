use kndo_core::mounts::unit_mates;
use kndo_core::vocab::ProjectPath;
use kndo_core::mounts::{add_included_sight, assign_units, mount_parents, tree_root};

fn strings(items: &[&str]) -> Vec<String> {
    items.iter().map(|s| s.to_string()).collect()
}

#[test]
fn the_first_mount_in_file_order_wins_and_a_file_never_mounts_itself() {
    // 0 mounts 2 twice (cfg twins) and itself; 1 mounts 2 and 3; 3 mounts 1.
    let parents = mount_parents(&[vec![2, 0, 2], vec![2, 3], vec![], vec![1]]);
    assert_eq!(parents, vec![None, Some(3), Some(0), Some(1)]);
}

#[test]
fn nothing_mounted_means_no_parents() {
    assert_eq!(mount_parents(&[vec![], vec![]]), vec![None, None]);
    assert!(mount_parents(&[]).is_empty());
}

#[test]
fn the_tree_root_is_the_top_of_the_mount_chain() {
    // 3 -> 2 -> 0, and 1 stands alone.
    let parents = vec![None, None, Some(0), Some(2)];
    assert_eq!(tree_root(&parents, 3), 0);
    assert_eq!(tree_root(&parents, 2), 0);
    assert_eq!(tree_root(&parents, 1), 1);
    assert_eq!(tree_root(&parents, 0), 0);
}

#[test]
fn a_chain_that_closes_on_itself_stops_where_it_repeats() {
    // 0 -> 1 -> 2 -> 1: the walk from 0 visits 0, 1, 2, then 1 again.
    let parents = vec![Some(1), Some(2), Some(1)];
    assert_eq!(tree_root(&parents, 0), 1);
    assert_eq!(tree_root(&parents, 2), 2);
    let self_loop = vec![Some(0)];
    assert_eq!(tree_root(&self_loop, 0), 0);
}

#[test]
fn files_take_the_unit_their_tree_is_rooted_at() {
    let paths = strings(&["src/lib.rs", "src/main.rs", "src/a.rs", "src/b.rs", "build.rs"]);
    // a.rs is mounted by lib.rs, b.rs by main.rs; build.rs stands alone.
    let parents = vec![None, None, Some(0), Some(1), None];
    let unit_entries = vec![strings(&["src/lib.rs"]), strings(&["src/main.rs", "src/lib.rs"])];
    let mut units = vec![None, None, None, None, Some(7)];
    assign_units(&paths, &parents, &unit_entries, &mut units);
    assert_eq!(units, vec![Some(0), Some(1), Some(0), Some(1), Some(7)]);
}

#[test]
fn no_unit_entries_leave_every_unit_as_it_was() {
    let paths = strings(&["a", "b"]);
    let mut units = vec![Some(3), None];
    assign_units(&paths, &[None, Some(0)], &[], &mut units);
    assert_eq!(units, vec![Some(3), None]);
}

#[test]
fn an_include_adds_its_targets_to_the_sight_sorted_and_deduplicated() {
    let mut sees = vec![5, 1];
    add_included_sight(&mut sees, &[3, 2, 5, 2], 0);
    assert_eq!(sees, vec![1, 2, 3, 5]);
}

#[test]
fn including_only_oneself_leaves_the_sight_untouched() {
    let mut sees = vec![5, 1, 5];
    add_included_sight(&mut sees, &[4, 4], 4);
    assert_eq!(sees, vec![5, 1, 5]);
    add_included_sight(&mut sees, &[], 4);
    assert_eq!(sees, vec![5, 1, 5]);
}

#[test]
fn a_trees_root_is_its_own_root() {
    let parents = vec![Some(1), Some(2), Some(1), Some(0), None, Some(4)];
    for file in 0..parents.len() {
        let root = tree_root(&parents, file);
        assert_eq!(tree_root(&parents, root), root);
    }
}

#[test]
fn unit_mates_are_graph_ids_ascending_without_self_or_strangers() {
    let p = |s: &str| ProjectPath(s.to_string());
    let paths = vec![p("a.go"), p("b.go"), p("c.go"), p("d.go")];
    let mates = vec![p("d.go"), p("b.go"), p("outside.go"), p("d.go"), p("b.go")];
    assert_eq!(unit_mates(1, &mates, &paths), vec![3]);
    assert_eq!(unit_mates(0, &mates, &paths), vec![1, 3]);
    assert_eq!(unit_mates(0, &[], &paths), Vec::<u32>::new());
}
