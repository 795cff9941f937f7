use storytree::database::{
    count_directories, dive_to_count, dive_to_sort, is_well_formed, Branch, DirRecord, Tree,
};
use storytree::generator::{
    extend_space_indices, get_angle, push_shifted, DODECA_FACES, GROUND_TRIANGLES,
};
use storytree::listing::{ListingLayout, ListingSlot};
use storytree::paths::{get_parent_path, node_name_label};
use storytree::sorting::sort_by_count;
use storytree::spiral::{dive_extending_factor, param_extending_factor, places_child, vertex_iterations};
use storytree::treebuilder::{extend_ground_indices, EntryKind, GroundPlacement, GroundWalk};

fn record(path: &str, depth: usize, num_of_children: i32) -> DirRecord {
    DirRecord { path: path.to_string(), depth, num_of_children }
}

fn sample_walk() -> Vec<DirRecord> {
    vec![
        record("/", 0, 2),
        record("/a", 1, 2),
        record("/a/x", 2, 0),
        record("/a/y", 2, 1),
        record("/a/y/z", 3, 0),
        record("/b", 1, 0),
    ]
}

fn built(entries: &Vec<DirRecord>) -> Tree {
    let mut tree = Tree::new();
    tree.construct(entries);
    tree
}

#[test]
fn parent_path_cuts_at_last_slash() {
    assert_eq!(get_parent_path("/usr/include/glib"), "/usr/include");
    assert_eq!(get_parent_path("a/b/c"), "a/b");
}

#[test]
fn parent_path_of_top_level_is_root() {
    assert_eq!(get_parent_path("/usr"), "/");
}

#[test]
fn parent_path_of_root_is_root() {
    assert_eq!(get_parent_path("/"), "/");
}

#[test]
fn parent_path_without_slash_is_root() {
    assert_eq!(get_parent_path("relative"), "/");
    assert_eq!(get_parent_path(""), "/");
}

#[test]
fn parent_path_keeps_trailing_segments_and_unicode() {
    assert_eq!(get_parent_path("/äpfel/öl"), "/äpfel");
    assert_eq!(get_parent_path("/a/b/"), "/a/b");
}

#[test]
fn new_branch_is_empty() {
    let b = Branch::new();
    assert_eq!(b.name, "");
    assert_eq!(b.num_of_children, 0);
    assert_eq!(b.num_of_all_children, 0);
    assert!(b.children.is_empty());
    assert_eq!(b.parent, 0);
    assert_eq!(b.depth, 0);
}

#[test]
fn new_tree_is_empty() {
    let t = Tree::new();
    assert_eq!(t.path, "path");
    assert!(t.siblings.is_empty());
    assert!(t.branches.is_empty());
    assert_eq!(t.hash_map.len(), 0);
}

#[test]
fn construct_records_every_directory_in_walk_order() {
    let entries = sample_walk();
    let tree = built(&entries);
    assert_eq!(tree.branches.len(), 6);
    for (k, e) in entries.iter().enumerate() {
        assert_eq!(tree.branches[k].name, e.path);
        assert_eq!(tree.branches[k].depth, e.depth);
        assert_eq!(tree.branches[k].num_of_children, e.num_of_children);
        assert_eq!(tree.branches[k].num_of_all_children, 0);
    }
}

#[test]
fn construct_links_parents_and_children() {
    let tree = built(&sample_walk());
    let parents: Vec<usize> = tree.branches.iter().map(|b| b.parent).collect();
    assert_eq!(parents, vec![0, 0, 1, 1, 3, 0]);
    let children: Vec<Vec<usize>> = tree.branches.iter().map(|b| b.children.clone()).collect();
    assert_eq!(children, vec![vec![1, 5], vec![2, 3], vec![], vec![4], vec![], vec![]]);
    assert!(is_well_formed(&tree.branches));
}

#[test]
fn construct_indexes_paths() {
    let entries = sample_walk();
    let tree = built(&entries);
    for (k, e) in entries.iter().enumerate() {
        assert_eq!(tree.hash_map.get(e.path.as_str()), Some(&k));
        assert_eq!(tree.branches[k].name, e.path);
    }
    assert_eq!(tree.hash_map.get("/nowhere"), None);
    assert_eq!(tree.hash_map.len(), 6);
}

#[test]
fn construct_counts_directories_per_depth() {
    let tree = built(&sample_walk());
    assert_eq!(tree.siblings, vec![1, 2, 2, 1]);
}

#[test]
fn construct_leaves_orphans_unlinked() {
    let entries = vec![record("/", 0, 1), record("/lost/found", 2, 0), record("/a", 1, 0)];
    let tree = built(&entries);
    assert_eq!(tree.branches[1].parent, 0);
    assert_eq!(tree.branches[0].children, vec![2]);
    // a depth that skips a level opens the next slot, not the slot of its depth
    assert_eq!(tree.siblings, vec![1, 2]);
    assert!(is_well_formed(&tree.branches));
}

#[test]
fn construct_relative_walk_hangs_from_nothing() {
    let entries = vec![record("top", 0, 1), record("top/sub", 1, 0)];
    let tree = built(&entries);
    assert_eq!(tree.branches[1].parent, 0);
    assert_eq!(tree.branches[0].children, vec![1]);
}

#[test]
fn construct_repeated_root_makes_a_loop() {
    let entries = vec![record("/", 0, 1), record("/", 0, 1)];
    let tree = built(&entries);
    assert_eq!(tree.branches[1].parent, 1);
    assert_eq!(tree.branches[1].children, vec![1]);
    assert!(!is_well_formed(&tree.branches));
    assert_eq!(tree.hash_map.get("/"), Some(&1));
}

#[test]
fn construct_on_empty_walk_only_opens_depth_slot() {
    let tree = built(&Vec::new());
    assert!(tree.branches.is_empty());
    assert_eq!(tree.siblings, vec![0]);
}

#[test]
fn dive_to_count_counts_all_subfolders() {
    let mut tree = built(&sample_walk());
    let total = dive_to_count(0, &mut tree.branches);
    assert_eq!(total, 6);
    let counts: Vec<i32> = tree.branches.iter().map(|b| b.num_of_all_children).collect();
    assert_eq!(counts, vec![5, 3, 0, 1, 0, 0]);
}

#[test]
fn dive_to_count_on_subtree_and_outside() {
    let mut tree = built(&sample_walk());
    assert_eq!(dive_to_count(3, &mut tree.branches), 2);
    let counts: Vec<i32> = tree.branches.iter().map(|b| b.num_of_all_children).collect();
    assert_eq!(counts, vec![0, 0, 0, 1, 0, 0]);
    assert_eq!(dive_to_count(17, &mut tree.branches), 0);
}

#[test]
fn dive_to_count_adds_to_stored_counts() {
    let mut tree = built(&sample_walk());
    dive_to_count(0, &mut tree.branches);
    let total = dive_to_count(0, &mut tree.branches);
    // counts accumulate: leaves keep 0, /a/y: 1 + 1, /a: 3 + 1 + 3, root: 5 + 8 + 1
    assert_eq!(total, 15);
    let counts: Vec<i32> = tree.branches.iter().map(|b| b.num_of_all_children).collect();
    assert_eq!(counts, vec![14, 7, 0, 2, 0, 0]);
}

#[test]
fn dive_to_sort_orders_children_by_subtree_size() {
    let mut tree = built(&sample_walk());
    dive_to_count(0, &mut tree.branches);
    dive_to_sort(0, &mut tree.branches);
    let children: Vec<Vec<usize>> = tree.branches.iter().map(|b| b.children.clone()).collect();
    assert_eq!(children, vec![vec![5, 1], vec![2, 3], vec![], vec![4], vec![], vec![]]);
    assert!(is_well_formed(&tree.branches));
    let counts: Vec<i32> = tree.branches.iter().map(|b| b.num_of_all_children).collect();
    assert_eq!(counts, vec![5, 3, 0, 1, 0, 0]);
}

#[test]
fn dive_to_sort_keeps_order_of_equal_counts() {
    let entries = vec![
        record("/", 0, 3),
        record("/c", 1, 1),
        record("/c/d", 2, 0),
        record("/a", 1, 0),
        record("/b", 1, 0),
    ];
    let mut tree = built(&entries);
    dive_to_count(0, &mut tree.branches);
    dive_to_sort(0, &mut tree.branches);
    assert_eq!(tree.branches[0].children, vec![3, 4, 1]);
}

#[test]
fn sort_by_count_is_stable() {
    let mut v = vec![(7, 3), (1, 1), (9, 3), (4, -2), (5, 1)];
    sort_by_count(&mut v);
    assert_eq!(v, vec![(4, -2), (1, 1), (5, 1), (7, 3), (9, 3)]);
    let mut empty: Vec<(usize, i32)> = Vec::new();
    sort_by_count(&mut empty);
    assert!(empty.is_empty());
}

#[test]
fn is_well_formed_rejects_bad_links() {
    let mut tree = built(&sample_walk());
    assert!(is_well_formed(&tree.branches));
    tree.branches[0].children.push(1);
    assert!(!is_well_formed(&tree.branches));
    let mut tree = built(&sample_walk());
    tree.branches[2].parent = 0;
    assert!(!is_well_formed(&tree.branches));
    let mut tree = built(&sample_walk());
    tree.branches[4].children.push(2);
    assert!(!is_well_formed(&tree.branches));
    let mut tree = built(&sample_walk());
    tree.branches[5].children.push(9);
    assert!(!is_well_formed(&tree.branches));
}

#[test]
fn count_directories_leaves_out_the_directory_itself() {
    assert_eq!(count_directories(&vec![true, true, false, true]), 2);
    assert_eq!(count_directories(&vec![true]), 0);
    assert_eq!(count_directories(&vec![true, false, false]), 0);
    assert_eq!(count_directories(&Vec::new()), -1);
}

#[test]
fn get_angle_maps_letters_and_digits() {
    assert_eq!(get_angle('a'), 1);
    assert_eq!(get_angle('A'), 1);
    assert_eq!(get_angle('v'), 22);
    assert_eq!(get_angle('V'), 22);
    assert_eq!(get_angle('x'), 23);
    assert_eq!(get_angle('Z'), 25);
    assert_eq!(get_angle('0'), 26);
    assert_eq!(get_angle('9'), 35);
}

#[test]
fn get_angle_skips_w_and_other_characters() {
    assert_eq!(get_angle('w'), 0);
    assert_eq!(get_angle('W'), 0);
    assert_eq!(get_angle('/'), 0);
    assert_eq!(get_angle('-'), 0);
    assert_eq!(get_angle('ä'), 0);
}

#[test]
fn space_indices_of_first_node_are_the_dodecahedron() {
    let mut indices = Vec::new();
    extend_space_indices(&mut indices, 0);
    assert_eq!(indices.len(), 108);
    assert_eq!(indices, DODECA_FACES.to_vec());
    assert_eq!(&indices[0..6], &[0, 1, 2, 0, 2, 3]);
}

#[test]
fn space_indices_shift_by_twenty_per_node() {
    let mut indices = vec![99];
    extend_space_indices(&mut indices, 2);
    assert_eq!(indices.len(), 109);
    assert_eq!(indices[0], 99);
    for i in 0..108 {
        assert_eq!(indices[i + 1], DODECA_FACES[i] + 40);
    }
    assert_eq!(*indices.iter().max().unwrap(), 99);
    assert_eq!(*indices[1..].iter().max().unwrap(), 59);
    assert_eq!(*indices[1..].iter().min().unwrap(), 40);
}

#[test]
fn ground_indices_shift_by_twelve() {
    let mut indices = Vec::new();
    extend_ground_indices(&mut indices, 1);
    assert_eq!(indices, vec![12, 14, 13, 15, 16, 17, 18, 19, 20, 21, 23, 22]);
    let mut more = Vec::new();
    push_shifted(&mut more, &GROUND_TRIANGLES, 0);
    assert_eq!(more, GROUND_TRIANGLES.to_vec());
}

#[test]
fn ground_walk_places_directories_and_turns_on_files() {
    let mut w = GroundWalk::new();
    assert_eq!(
        w.step(EntryKind::Dir),
        Some(GroundPlacement { rot: 0, cnt_vert: 0, cnt: 0 })
    );
    assert_eq!(w.step(EntryKind::File), None);
    assert_eq!((w.rot, w.cnt_vert, w.cnt_old), (1, -1, 1));
    assert_eq!(w.step(EntryKind::File), None);
    assert_eq!((w.rot, w.cnt_vert, w.cnt_old), (1, 0, 1));
    assert_eq!(w.step(EntryKind::Symlink), None);
    assert_eq!(w.step(EntryKind::Other), None);
    assert_eq!(
        w.step(EntryKind::Dir),
        Some(GroundPlacement { rot: 1, cnt_vert: 0, cnt: 1 })
    );
    assert_eq!(w.cnt, 2);
    assert_eq!(w.step(EntryKind::File), None);
    assert_eq!((w.rot, w.cnt_vert, w.cnt_old), (2, -1, 2));
    assert_eq!(w.count_vertices, 12 * 7);
}

#[test]
fn ground_walk_files_before_any_directory_only_shift() {
    let mut w = GroundWalk::new();
    w.step(EntryKind::File);
    w.step(EntryKind::File);
    assert_eq!((w.rot, w.cnt_vert, w.cnt_old, w.cnt), (0, 2, 0, 0));
}

#[test]
fn node_name_label_keeps_last_segment() {
    assert_eq!(node_name_label("/usr/include/glib"), "/glib");
    assert_eq!(node_name_label("/"), "/");
    assert_eq!(node_name_label("/sys"), "/sys");
    assert_eq!(node_name_label("a/b/"), "/");
}

#[test]
fn listing_starts_with_heading_then_steps_down() {
    let mut l = ListingLayout::new();
    assert_eq!(l.next_slot(), ListingSlot { x: 50, y: 50, heading: true });
    assert_eq!(l.next_slot(), ListingSlot { x: 50, y: 90, heading: false });
    assert_eq!(l.next_slot(), ListingSlot { x: 50, y: 110, heading: false });
}

#[test]
fn listing_wraps_to_next_column_after_400() {
    let mut l = ListingLayout::new();
    let mut slots = Vec::new();
    for _ in 0..20 {
        slots.push(l.next_slot());
    }
    // heading at 50, then 90, 110, ..., 390 (16 lines), then the next column at 90
    assert_eq!(slots[16], ListingSlot { x: 50, y: 390, heading: false });
    assert_eq!(slots[17], ListingSlot { x: 100, y: 90, heading: false });
    assert_eq!(slots[18], ListingSlot { x: 100, y: 110, heading: false });
    assert!(slots.iter().skip(1).all(|s| !s.heading));
}

fn linked(children: Vec<Vec<usize>>) -> Vec<Branch> {
    children
        .into_iter()
        .map(|ch| Branch { children: ch, ..Branch::new() })
        .collect()
}

#[test]
fn dive_to_count_ignores_parent_fields() {
    let mut branches = linked(vec![vec![1, 2], vec![3], vec![], vec![]]);
    assert!(!is_well_formed(&branches));
    assert_eq!(dive_to_count(0, &mut branches), 4);
    let counts: Vec<i32> = branches.iter().map(|b| b.num_of_all_children).collect();
    assert_eq!(counts, vec![3, 1, 0, 0]);
}

#[test]
fn dive_to_count_skips_children_outside_the_table() {
    let mut branches = linked(vec![vec![7, 1], vec![], vec![0]]);
    assert_eq!(dive_to_count(0, &mut branches), 2);
    let counts: Vec<i32> = branches.iter().map(|b| b.num_of_all_children).collect();
    assert_eq!(counts, vec![1, 0, 0]);
}

#[test]
fn dive_to_count_on_a_chain_listed_backwards() {
    let mut branches = linked(vec![vec![], vec![0], vec![1]]);
    assert_eq!(dive_to_count(2, &mut branches), 3);
    let counts: Vec<i32> = branches.iter().map(|b| b.num_of_all_children).collect();
    assert_eq!(counts, vec![0, 1, 2]);
}

#[test]
fn dive_to_sort_ignores_parent_fields() {
    let mut branches = linked(vec![vec![1, 2], vec![3], vec![], vec![]]);
    dive_to_count(0, &mut branches);
    dive_to_sort(0, &mut branches);
    let children: Vec<Vec<usize>> = branches.iter().map(|b| b.children.clone()).collect();
    assert_eq!(children, vec![vec![2, 1], vec![3], vec![], vec![]]);
}

#[test]
fn dive_to_sort_twice_changes_nothing() {
    let mut tree = built(&sample_walk());
    dive_to_count(0, &mut tree.branches);
    dive_to_sort(0, &mut tree.branches);
    let once: Vec<Vec<usize>> = tree.branches.iter().map(|b| b.children.clone()).collect();
    dive_to_sort(0, &mut tree.branches);
    let twice: Vec<Vec<usize>> = tree.branches.iter().map(|b| b.children.clone()).collect();
    assert_eq!(once, twice);
}

#[test]
fn dive_to_sort_on_shared_subtree() {
    let mut branches = linked(vec![vec![1, 2], vec![3], vec![3], vec![5, 4], vec![6], vec![], vec![]]);
    branches[4].num_of_all_children = 1;
    branches[1].num_of_all_children = 4;
    branches[2].num_of_all_children = 2;
    dive_to_sort(0, &mut branches);
    let children: Vec<Vec<usize>> = branches.iter().map(|b| b.children.clone()).collect();
    assert_eq!(children, vec![vec![2, 1], vec![3], vec![3], vec![5, 4], vec![6], vec![], vec![]]);
}

#[test]
fn dive_to_sort_outside_the_table_changes_nothing() {
    let mut branches = linked(vec![vec![1], vec![]]);
    dive_to_sort(5, &mut branches);
    let children: Vec<Vec<usize>> = branches.iter().map(|b| b.children.clone()).collect();
    assert_eq!(children, vec![vec![1], vec![]]);
}

#[test]
fn next_slot_far_down_opens_a_new_column() {
    let mut l = ListingLayout { cnt_x: 50, cnt_y: 1000 };
    assert_eq!(l.next_slot(), ListingSlot { x: 50, y: 1000, heading: false });
    assert_eq!(l, ListingLayout { cnt_x: 100, cnt_y: 90 });
}

#[test]
fn spiral_steps_per_child() {
    assert_eq!(dive_extending_factor(0, 5), 40);
    assert_eq!(dive_extending_factor(3, 5), 6);
    assert_eq!(dive_extending_factor(3, 38), 39);
    assert_eq!(dive_extending_factor(3, 39), 40);
    assert_eq!(dive_extending_factor(3, 100), 40);
    assert_eq!(param_extending_factor(0), 1000);
    assert_eq!(param_extending_factor(2), 40);
}

#[test]
fn spiral_places_a_child_at_the_end_of_each_run() {
    assert_eq!(vertex_iterations(3, 40), 120);
    assert_eq!(vertex_iterations(0, 1000), 0);
    assert!(places_child(39, 40));
    assert!(!places_child(40, 40));
    assert!(places_child(79, 40));
    assert!(!places_child(0, 40));
    assert!(places_child(0, 1));
    let placed: Vec<i32> = (0..vertex_iterations(3, 6)).filter(|i| places_child(*i, 6)).collect();
    assert_eq!(placed, vec![5, 11, 17]);
}

#[test]
fn dive_to_count_adds_descendant_counts_plus_one() {
    let mut branches = linked(vec![vec![1, 2], vec![3], vec![], vec![]]);
    branches[1].num_of_all_children = 5;
    branches[2].num_of_all_children = 2;
    branches[3].num_of_all_children = 1;
    assert_eq!(dive_to_count(0, &mut branches), 12);
    let counts: Vec<i32> = branches.iter().map(|b| b.num_of_all_children).collect();
    assert_eq!(counts, vec![11, 7, 2, 1]);
}
