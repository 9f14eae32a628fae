use std::collections::{HashMap, HashSet};

use rutile::layout::split_tree::{RATIO_SCALE, RECT_UNIT};
use rutile::layout::{Direction, Orientation, SplitTree};

/// A ratio given as a fraction of the split's extent, in the tree's
/// fixed-point units.
fn ratio(fraction: f32) -> u32 {
    (fraction * RATIO_SCALE as f32).round() as u32
}

/// A rectangle coordinate as a fraction of the whole area.
fn frac(v: u64) -> f64 {
    v as f64 / RECT_UNIT as f64
}

fn collect_split_ids(tree: &SplitTree, out: &mut Vec<u64>) {
    if let SplitTree::Split {
        id, left, right, ..
    } = tree
    {
        out.push(*id);
        collect_split_ids(left, out);
        collect_split_ids(right, out);
    }
}

#[test]
fn remap_ids_produces_fresh_unique_ids_and_preserves_shape() {
    let mut tree = SplitTree::new_leaf(1);
    tree.split(1, Orientation::Horizontal, 2, 102);
    tree.split(1, Orientation::Vertical, 3, 103);

    let mut next: u64 = 1000;
    let (remapped, pane_map) = tree.remap_ids(&mut next);

    // Same shape (leaf order, orientation), just renumbered.
    assert_eq!(remapped.leaves().len(), 3);
    let old_leaves = tree.leaves();
    let new_leaves = remapped.leaves();
    assert_eq!(old_leaves.len(), new_leaves.len());
    for (old, new) in old_leaves.iter().zip(new_leaves.iter()) {
        assert_eq!(pane_map[old], *new);
    }

    // Every id handed out (leaves + internal split nodes) is unique and
    // came from the counter, not reused from the tree before renumbering.
    let mut all_new_ids: Vec<u64> = new_leaves.clone();
    collect_split_ids(&remapped, &mut all_new_ids);
    assert!(all_new_ids.iter().all(|id| *id >= 1000));
    let unique: HashSet<_> = all_new_ids.iter().collect();
    assert_eq!(unique.len(), all_new_ids.len());
}

/// The tree as a TOML value, in serde's externally tagged layout, with
/// the ratio as a fraction of the split's extent.
fn to_toml(tree: &SplitTree) -> toml::Value {
    let mut outer = toml::Table::new();
    match tree {
        SplitTree::Leaf(id) => {
            outer.insert("Leaf".to_string(), toml::Value::Integer(*id as i64));
        }
        SplitTree::Split {
            id,
            orientation,
            ratio,
            left,
            right,
        } => {
            let mut inner = toml::Table::new();
            inner.insert("id".to_string(), toml::Value::Integer(*id as i64));
            let name = match orientation {
                Orientation::Horizontal => "Horizontal",
                Orientation::Vertical => "Vertical",
            };
            inner.insert("orientation".to_string(), toml::Value::String(name.to_string()));
            inner.insert(
                "ratio".to_string(),
                toml::Value::Float(*ratio as f64 / RATIO_SCALE as f64),
            );
            inner.insert("left".to_string(), to_toml(left));
            inner.insert("right".to_string(), to_toml(right));
            outer.insert("Split".to_string(), toml::Value::Table(inner));
        }
    }
    toml::Value::Table(outer)
}

fn from_toml(value: &toml::Value) -> SplitTree {
    let outer = value.as_table().expect("a tree is a table");
    if let Some(id) = outer.get("Leaf") {
        return SplitTree::Leaf(id.as_integer().expect("a leaf id") as u64);
    }
    let inner = outer["Split"].as_table().expect("a split is a table");
    let orientation = match inner["orientation"].as_str() {
        Some("Horizontal") => Orientation::Horizontal,
        _ => Orientation::Vertical,
    };
    SplitTree::Split {
        id: inner["id"].as_integer().expect("a split id") as u64,
        orientation,
        ratio: ratio(inner["ratio"].as_float().expect("a ratio") as f32),
        left: Box::new(from_toml(&inner["left"])),
        right: Box::new(from_toml(&inner["right"])),
    }
}

/// The tree's shape, ids and ratios survive being written as TOML and read
/// back, through the `to_toml`/`from_toml` converters above (a stand-in for
/// the application's own serde records, which this crate cannot see).
#[test]
fn tree_round_trips_through_toml() {
    let mut tree = SplitTree::new_leaf(1);
    tree.split(1, Orientation::Horizontal, 2, 102);
    tree.set_ratio(102, ratio(0.3));

    let serialized = toml::to_string(&to_toml(&tree)).expect("SplitTree must serialize");
    let parsed: toml::Table = toml::from_str(&serialized).expect("must deserialize back");
    let deserialized = from_toml(&toml::Value::Table(parsed));

    assert_eq!(deserialized.leaves(), tree.leaves());
    let rects: HashMap<_, _> = deserialized.leaf_rects().into_iter().collect();
    let saved_rects: HashMap<_, _> = tree.leaf_rects().into_iter().collect();
    assert_eq!(rects[&1].w, saved_rects[&1].w);
}

#[test]
fn split_creates_two_leaves_with_correct_orientation() {
    let mut tree = SplitTree::new_leaf(1);
    assert!(tree.split(1, Orientation::Horizontal, 2, 102));

    match &tree {
        SplitTree::Split {
            orientation,
            left,
            right,
            ..
        } => {
            assert_eq!(*orientation, Orientation::Horizontal);
            assert!(matches!(**left, SplitTree::Leaf(1)));
            assert!(matches!(**right, SplitTree::Leaf(2)));
        }
        _ => panic!("expected a Split node"),
    }
}

#[test]
fn set_ratio_updates_the_targeted_split_only() {
    let mut tree = SplitTree::new_leaf(1);
    tree.split(1, Orientation::Horizontal, 2, 102);
    tree.split(1, Orientation::Vertical, 3, 103);

    assert!(tree.set_ratio(103, ratio(0.75)));
    assert!(!tree.set_ratio(999, ratio(0.3)));

    let rects: HashMap<_, _> = tree.leaf_rects().into_iter().collect();
    // The inner (103) split moved to 0.75; the outer (102) split, untouched,
    // stays at the default 0.5 — so leaf 1 (top of the inner split) now
    // occupies a taller slice of the left half than leaf 3.
    assert!(rects[&1].h > rects[&3].h);
}

#[test]
fn set_ratio_clamps_to_avoid_collapsing_a_pane() {
    let mut tree = SplitTree::new_leaf(1);
    tree.split(1, Orientation::Horizontal, 2, 102);

    tree.set_ratio(102, ratio(5.0));
    let rects: HashMap<_, _> = tree.leaf_rects().into_iter().collect();
    assert!(frac(rects[&2].w) > 0.0);
}

#[test]
fn split_on_unknown_target_is_noop() {
    let mut tree = SplitTree::new_leaf(1);
    assert!(!tree.split(99, Orientation::Horizontal, 2, 102));
    assert!(matches!(tree, SplitTree::Leaf(1)));
}

#[test]
fn close_collapses_to_sibling() {
    let mut tree = SplitTree::new_leaf(1);
    tree.split(1, Orientation::Horizontal, 2, 102);
    assert!(tree.close(2));
    assert!(matches!(tree, SplitTree::Leaf(1)));
}

#[test]
fn close_last_leaf_is_noop() {
    let mut tree = SplitTree::new_leaf(1);
    assert!(!tree.close(1));
    assert!(matches!(tree, SplitTree::Leaf(1)));
}

#[test]
fn leaves_respects_left_to_right_order() {
    let mut tree = SplitTree::new_leaf(1);
    tree.split(1, Orientation::Horizontal, 2, 102);
    tree.split(2, Orientation::Vertical, 3, 103);

    assert_eq!(tree.leaves(), vec![1, 2, 3]);
}

#[test]
fn nested_splits_produce_correct_shape() {
    let mut tree = SplitTree::new_leaf(1);
    tree.split(1, Orientation::Horizontal, 2, 102);
    tree.split(1, Orientation::Vertical, 3, 103);
    tree.split(2, Orientation::Vertical, 4, 104);

    // Leaves should be: (1 top, 3 bottom) on the left, (2 top, 4 bottom) on the right.
    assert_eq!(tree.leaves(), vec![1, 3, 2, 4]);
}

#[test]
fn leaf_rects_grid_2x2() {
    let mut tree = SplitTree::new_leaf(1);
    tree.split(1, Orientation::Horizontal, 2, 102);
    tree.split(1, Orientation::Vertical, 3, 103);
    tree.split(2, Orientation::Vertical, 4, 104);

    let rects: HashMap<_, _> = tree.leaf_rects().into_iter().collect();

    // 1 = top-left, 3 = bottom-left, 2 = top-right, 4 = bottom-right.
    assert!(frac(rects[&1].x) < 0.5 && frac(rects[&1].y) < 0.5);
    assert!(frac(rects[&3].x) < 0.5 && frac(rects[&3].y) >= 0.5);
    assert!(frac(rects[&2].x) >= 0.5 && frac(rects[&2].y) < 0.5);
    assert!(frac(rects[&4].x) >= 0.5 && frac(rects[&4].y) >= 0.5);
}

#[test]
fn neighbor_grid_2x2_directions() {
    let mut tree = SplitTree::new_leaf(1);
    tree.split(1, Orientation::Horizontal, 2, 102);
    tree.split(1, Orientation::Vertical, 3, 103);
    tree.split(2, Orientation::Vertical, 4, 104);

    // Layout: 1 (top-left), 2 (top-right), 3 (bottom-left), 4 (bottom-right).
    assert_eq!(tree.neighbor(1, Direction::Right), Some(2));
    assert_eq!(tree.neighbor(1, Direction::Down), Some(3));
    assert_eq!(tree.neighbor(4, Direction::Left), Some(3));
    assert_eq!(tree.neighbor(4, Direction::Up), Some(2));
    assert_eq!(tree.neighbor(1, Direction::Up), None);
    assert_eq!(tree.neighbor(1, Direction::Left), None);
}

#[test]
fn neighbor_column_of_three() {
    let mut tree = SplitTree::new_leaf(1);
    tree.split(1, Orientation::Vertical, 2, 102);
    tree.split(2, Orientation::Vertical, 3, 103);

    assert_eq!(tree.neighbor(1, Direction::Down), Some(2));
    assert_eq!(tree.neighbor(2, Direction::Down), Some(3));
    assert_eq!(tree.neighbor(3, Direction::Up), Some(2));
    assert_eq!(tree.neighbor(3, Direction::Down), None);
}

#[test]
fn find_resizable_ancestor_matches_nearest_matching_orientation() {
    let mut tree = SplitTree::new_leaf(1);
    tree.split(1, Orientation::Horizontal, 2, 102); // 1 | 2, horizontal split id 102
    tree.split(2, Orientation::Vertical, 3, 103); // 2 over 3, vertical split id 103

    // Resizing 1 horizontally hits split 102 directly; 1 is the left child.
    let (split_id, is_left, found_ratio) = tree
        .find_resizable_ancestor(1, Orientation::Horizontal)
        .unwrap();
    assert_eq!(split_id, 102);
    assert!(is_left);
    assert_eq!(found_ratio, ratio(0.5));

    // Resizing 1 vertically: no vertical ancestor exists at all.
    assert_eq!(tree.find_resizable_ancestor(1, Orientation::Vertical), None);

    // Resizing 3 vertically hits the nearer split 103, not the outer 102.
    let (split_id, is_left, _) = tree
        .find_resizable_ancestor(3, Orientation::Vertical)
        .unwrap();
    assert_eq!(split_id, 103);
    assert!(!is_left);

    // Resizing 3 horizontally falls through to the outer split 102, where 3
    // (via its parent 2) lives on the right.
    let (split_id, is_left, _) = tree
        .find_resizable_ancestor(3, Orientation::Horizontal)
        .unwrap();
    assert_eq!(split_id, 102);
    assert!(!is_left);
}

#[test]
fn closing_the_split_off_pane_restores_the_tree() {
    let mut tree = SplitTree::new_leaf(1);
    tree.split(1, Orientation::Horizontal, 2, 102);
    tree.set_ratio(102, ratio(0.3));
    let before = tree.deep_copy();
    tree.split(2, Orientation::Vertical, 3, 103);
    assert!(tree.close(3));
    assert_eq!(tree.leaves(), before.leaves());
    assert_eq!(tree.leaf_rects(), before.leaf_rects());
}

#[test]
fn close_keeps_the_other_panes_in_order() {
    let mut tree = SplitTree::new_leaf(1);
    tree.split(1, Orientation::Horizontal, 2, 102);
    tree.split(1, Orientation::Vertical, 3, 103);
    tree.split(2, Orientation::Vertical, 4, 104);
    assert!(tree.close(3));
    assert_eq!(tree.leaves(), vec![1, 2, 4]);
    assert!(!tree.close(3));
}

#[test]
fn split_keeps_panes_distinct_and_adds_the_new_one_after_its_target() {
    let mut tree = SplitTree::new_leaf(1);
    tree.split(1, Orientation::Horizontal, 2, 102);
    tree.split(1, Orientation::Vertical, 3, 103);
    assert_eq!(tree.leaves(), vec![1, 3, 2]);
}

#[test]
fn leaf_rects_of_an_even_split_are_exact_halves() {
    let mut tree = SplitTree::new_leaf(1);
    tree.split(1, Orientation::Horizontal, 2, 102);
    let rects = tree.leaf_rects();
    assert_eq!(rects.len(), 2);
    assert_eq!(rects[0].0, 1);
    assert_eq!((rects[0].1.x, rects[0].1.y, rects[0].1.w, rects[0].1.h), (0, 0, 500000, 1000000));
    assert_eq!(rects[1].0, 2);
    assert_eq!((rects[1].1.x, rects[1].1.y, rects[1].1.w, rects[1].1.h), (500000, 0, 500000, 1000000));
}

#[test]
fn set_ratio_clamps_low_ratios_too() {
    let mut tree = SplitTree::new_leaf(1);
    tree.split(1, Orientation::Vertical, 2, 102);
    tree.set_ratio(102, 0);
    let (_, _, stored) = tree.find_resizable_ancestor(1, Orientation::Vertical).unwrap();
    assert_eq!(stored, 500);
    tree.set_ratio(102, 9999);
    let (_, _, stored) = tree.find_resizable_ancestor(1, Orientation::Vertical).unwrap();
    assert_eq!(stored, 9500);
}

#[test]
fn neighbor_is_never_the_origin_and_unknown_origin_has_none() {
    let mut tree = SplitTree::new_leaf(1);
    tree.split(1, Orientation::Horizontal, 2, 102);
    assert_eq!(tree.neighbor(1, Direction::Right), Some(2));
    assert_eq!(tree.neighbor(2, Direction::Right), None);
    assert_eq!(tree.neighbor(7, Direction::Left), None);
}

#[test]
fn remap_ids_counts_every_node_in_pre_order() {
    let mut tree = SplitTree::new_leaf(1);
    tree.split(1, Orientation::Horizontal, 2, 102);
    let mut next: u64 = 50;
    let (remapped, pane_map) = tree.remap_ids(&mut next);
    assert_eq!(next, 53);
    match &remapped {
        SplitTree::Split { id, .. } => assert_eq!(*id, 50),
        _ => panic!("expected a Split node"),
    }
    assert_eq!(remapped.leaves(), vec![51, 52]);
    assert_eq!(pane_map[&1], 51);
    assert_eq!(pane_map[&2], 52);
}

#[test]
fn find_reports_only_leaves() {
    let mut tree = SplitTree::new_leaf(1);
    tree.split(1, Orientation::Horizontal, 2, 102);
    assert!(tree.find(2).is_some());
    assert!(tree.find(102).is_none());
    assert!(!tree.is_leaf_only());
}

fn ratio_of(tree: &SplitTree, split: u64) -> Option<u32> {
    match tree {
        SplitTree::Leaf(_) => None,
        SplitTree::Split {
            id,
            ratio,
            left,
            right,
            ..
        } => {
            if *id == split {
                Some(*ratio)
            } else {
                ratio_of(left, split).or_else(|| ratio_of(right, split))
            }
        }
    }
}

#[test]
fn a_set_ratio_reads_back_and_survives_later_splits() {
    let mut tree = SplitTree::new_leaf(1);
    tree.split(1, Orientation::Horizontal, 2, 102);
    tree.split(2, Orientation::Vertical, 3, 103);

    assert!(tree.set_ratio(103, 7000));
    assert_eq!(ratio_of(&tree, 103), Some(7000));
    assert_eq!(ratio_of(&tree, 102), Some(RATIO_SCALE / 2));

    tree.split(1, Orientation::Vertical, 4, 104);
    assert_eq!(ratio_of(&tree, 103), Some(7000));
    assert_eq!(ratio_of(&tree, 104), Some(RATIO_SCALE / 2));
}
