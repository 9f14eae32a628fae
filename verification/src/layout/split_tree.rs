//! The GTK-free model of one session's recursive split layout: a binary
//! tree whose leaves are panes and whose inner nodes split their area
//! horizontally or vertically at a ratio.
//!
//! Ratios and rectangles are fixed-point integers: a ratio is expressed in
//! units of `1 / RATIO_SCALE` of the parent's extent, and a rectangle's
//! coordinates in units of `1 / RECT_UNIT` of the whole area.
use std::collections::HashMap;

use vstd::prelude::*;

verus! {

pub type PaneId = u64;

pub type SplitId = u64;

/// Denominator of a split ratio: `ratio == RATIO_SCALE / 2` splits evenly.
pub const RATIO_SCALE: u32 = 10000;

/// The ratio a freshly created split starts with (an even split).
pub const DEFAULT_RATIO: u32 = 5000;

/// Smallest ratio `set_ratio` stores, so no pane collapses to nothing.
pub const MIN_RATIO: u32 = 500;

/// Largest ratio `set_ratio` stores.
pub const MAX_RATIO: u32 = 9500;

/// Side length of the whole area that `leaf_rects` divides.
pub const RECT_UNIT: u64 = 1000000;

#[derive(Debug, Clone, Copy, PartialEq, Eq, Hash, Structural)]
pub enum Orientation {
    Horizontal,
    Vertical,
}

#[derive(Debug, Clone, Copy, PartialEq, Eq, Hash, Structural)]
pub enum Direction {
    Up,
    Down,
    Left,
    Right,
}

/// An axis-aligned rectangle in units of `1 / RECT_UNIT` of the whole area.
#[derive(Debug, Clone, Copy, PartialEq, Eq, Structural)]
pub struct Rect {
    pub x: u64,
    pub y: u64,
    pub w: u64,
    pub h: u64,
}

#[derive(Debug)]
pub enum SplitTree {
    Leaf(PaneId),
    Split {
        id: SplitId,
        orientation: Orientation,
        ratio: u32,
        left: Box<SplitTree>,
        right: Box<SplitTree>,
    },
}

// ---------------------------------------------------------------------------
// Sequence helpers used to describe leaf orders.
// ---------------------------------------------------------------------------

/// `s` with `y` inserted right after the first occurrence of `x` (unchanged
/// when `x` does not occur).
pub open spec fn insert_after_first(s: Seq<u64>, x: u64, y: u64) -> Seq<u64>
    decreases s.len(),
{
    if s.len() == 0 {
        s
    } else if s[0] == x {
        seq![x, y] + s.drop_first()
    } else {
        seq![s[0]] + insert_after_first(s.drop_first(), x, y)
    }
}

/// `s` with the first occurrence of `x` removed (unchanged when absent).
pub open spec fn remove_first(s: Seq<u64>, x: u64) -> Seq<u64>
    decreases s.len(),
{
    if s.len() == 0 {
        s
    } else if s[0] == x {
        s.drop_first()
    } else {
        seq![s[0]] + remove_first(s.drop_first(), x)
    }
}

proof fn lemma_insert_after_first_concat(a: Seq<u64>, b: Seq<u64>, x: u64, y: u64)
    ensures
        insert_after_first(a + b, x, y) == if a.contains(x) {
            insert_after_first(a, x, y) + b
        } else {
            a + insert_after_first(b, x, y)
        },
    decreases a.len(),
{
    if a.len() == 0 {
        assert(a + b =~= b);
    } else {
        let ab = a + b;
        assert(ab.drop_first() =~= a.drop_first() + b);
        lemma_insert_after_first_concat(a.drop_first(), b, x, y);
        if a[0] == x {
            assert(a.contains(x));
            assert(insert_after_first(ab, x, y) =~= insert_after_first(a, x, y) + b);
        } else {
            assert(a.contains(x) <==> a.drop_first().contains(x)) by {
                if a.contains(x) {
                    let i = choose|i: int| 0 <= i < a.len() && a[i] == x;
                    assert(a.drop_first()[i - 1] == x);
                }
                if a.drop_first().contains(x) {
                    let i = choose|i: int|
                        0 <= i < a.drop_first().len() && a.drop_first()[i] == x;
                    assert(a[i + 1] == x);
                }
            }
            if a.contains(x) {
                assert(insert_after_first(ab, x, y) =~= insert_after_first(a, x, y) + b);
            } else {
                assert(insert_after_first(ab, x, y) =~= a + insert_after_first(b, x, y));
            }
        }
    }
}

proof fn lemma_remove_first_concat(a: Seq<u64>, b: Seq<u64>, x: u64)
    ensures
        remove_first(a + b, x) == if a.contains(x) {
            remove_first(a, x) + b
        } else {
            a + remove_first(b, x)
        },
    decreases a.len(),
{
    if a.len() == 0 {
        assert(a + b =~= b);
    } else {
        let ab = a + b;
        assert(ab.drop_first() =~= a.drop_first() + b);
        lemma_remove_first_concat(a.drop_first(), b, x);
        if a[0] == x {
            assert(a.contains(x));
            assert(remove_first(ab, x) =~= remove_first(a, x) + b);
        } else {
            assert(a.contains(x) <==> a.drop_first().contains(x)) by {
                if a.contains(x) {
                    let i = choose|i: int| 0 <= i < a.len() && a[i] == x;
                    assert(a.drop_first()[i - 1] == x);
                }
                if a.drop_first().contains(x) {
                    let i = choose|i: int|
                        0 <= i < a.drop_first().len() && a.drop_first()[i] == x;
                    assert(a[i + 1] == x);
                }
            }
            if a.contains(x) {
                assert(remove_first(ab, x) =~= remove_first(a, x) + b);
            } else {
                assert(remove_first(ab, x) =~= a + remove_first(b, x));
            }
        }
    }
}

proof fn lemma_remove_first_absent(s: Seq<u64>, x: u64)
    requires
        !s.contains(x),
    ensures
        remove_first(s, x) == s,
    decreases s.len(),
{
    if s.len() > 0 {
        assert(!s.drop_first().contains(x)) by {
            if s.drop_first().contains(x) {
                let i = choose|i: int| 0 <= i < s.drop_first().len() && s.drop_first()[i] == x;
                assert(s[i + 1] == x);
            }
        }
        lemma_remove_first_absent(s.drop_first(), x);
        assert(s[0] != x);
        assert(remove_first(s, x) =~= s);
    }
}

proof fn lemma_contains_concat(a: Seq<u64>, b: Seq<u64>, x: u64)
    ensures
        (a + b).contains(x) <==> a.contains(x) || b.contains(x),
{
    if (a + b).contains(x) {
        let i = choose|i: int| 0 <= i < (a + b).len() && (a + b)[i] == x;
        if i < a.len() {
            assert(a[i] == x);
        } else {
            assert(b[i - a.len()] == x);
        }
    }
    if a.contains(x) {
        let i = choose|i: int| 0 <= i < a.len() && a[i] == x;
        assert((a + b)[i] == x);
    }
    if b.contains(x) {
        let i = choose|i: int| 0 <= i < b.len() && b[i] == x;
        assert((a + b)[a.len() + i] == x);
    }
}

proof fn lemma_no_duplicates_concat(a: Seq<u64>, b: Seq<u64>)
    requires
        (a + b).no_duplicates(),
    ensures
        a.no_duplicates(),
        b.no_duplicates(),
        forall|x: u64| a.contains(x) ==> !b.contains(x),
{
    let ab = a + b;
    assert forall|i: int, j: int| 0 <= i < a.len() && 0 <= j < a.len() && i != j implies a[i]
        != a[j] by {
        assert(ab[i] == a[i] && ab[j] == a[j]);
    }
    assert forall|i: int, j: int| 0 <= i < b.len() && 0 <= j < b.len() && i != j implies b[i]
        != b[j] by {
        assert(ab[a.len() + i] == b[i] && ab[a.len() + j] == b[j]);
    }
    assert forall|x: u64| a.contains(x) implies !b.contains(x) by {
        let i = choose|i: int| 0 <= i < a.len() && a[i] == x;
        if b.contains(x) {
            let j = choose|j: int| 0 <= j < b.len() && b[j] == x;
            assert(ab[i] == ab[a.len() + j]);
        }
    }
}

// ---------------------------------------------------------------------------
// The mathematical model of a tree.
// ---------------------------------------------------------------------------

/// The ratio `set_ratio` stores for a requested `ratio`.
pub open spec fn clamped_ratio(ratio: u32) -> u32 {
    if ratio < MIN_RATIO {
        MIN_RATIO
    } else if ratio > MAX_RATIO {
        MAX_RATIO
    } else {
        ratio
    }
}

/// The whole area that `leaf_rects` divides among the leaves.
pub open spec fn unit_rect() -> Rect {
    Rect { x: 0, y: 0, w: RECT_UNIT, h: RECT_UNIT }
}

/// A rectangle lying inside the whole area.
pub open spec fn rect_inside_unit(r: Rect) -> bool {
    r.x + r.w <= RECT_UNIT && r.y + r.h <= RECT_UNIT
}

/// The part of `r` given to a split's first (left/top) child.
pub open spec fn first_part(r: Rect, orientation: Orientation, ratio: u32) -> Rect {
    match orientation {
        Orientation::Horizontal => Rect {
            x: r.x,
            y: r.y,
            w: (r.w * ratio / (RATIO_SCALE as int)) as u64,
            h: r.h,
        },
        Orientation::Vertical => Rect {
            x: r.x,
            y: r.y,
            w: r.w,
            h: (r.h * ratio / (RATIO_SCALE as int)) as u64,
        },
    }
}

/// The part of `r` given to a split's second (right/bottom) child.
pub open spec fn second_part(r: Rect, orientation: Orientation, ratio: u32) -> Rect {
    let f = first_part(r, orientation, ratio);
    match orientation {
        Orientation::Horizontal => Rect {
            x: (r.x + f.w) as u64,
            y: r.y,
            w: (r.w - f.w) as u64,
            h: r.h,
        },
        Orientation::Vertical => Rect {
            x: r.x,
            y: (r.y + f.h) as u64,
            w: r.w,
            h: (r.h - f.h) as u64,
        },
    }
}

impl SplitTree {
    pub open spec fn is_leaf(self) -> bool {
        self is Leaf
    }

    /// The panes of the tree, left-to-right / top-to-bottom.
    pub open spec fn leaf_ids(self) -> Seq<PaneId>
        decreases self,
    {
        match self {
            SplitTree::Leaf(id) => seq![id],
            SplitTree::Split { left, right, .. } => (*left).leaf_ids() + (*right).leaf_ids(),
        }
    }

    /// The ids of the split nodes, in pre-order.
    pub open spec fn split_ids(self) -> Seq<SplitId>
        decreases self,
    {
        match self {
            SplitTree::Leaf(_) => Seq::empty(),
            SplitTree::Split { id, left, right, .. } => seq![id] + (*left).split_ids() + (
            *right).split_ids(),
        }
    }

    /// Every id of the tree, split nodes and leaves, in pre-order.
    pub open spec fn all_ids(self) -> Seq<u64>
        decreases self,
    {
        match self {
            SplitTree::Leaf(id) => seq![id],
            SplitTree::Split { id, left, right, .. } => seq![id] + (*left).all_ids() + (
            *right).all_ids(),
        }
    }

    /// Number of nodes (leaves and splits).
    pub open spec fn node_count(self) -> nat
        decreases self,
    {
        match self {
            SplitTree::Leaf(_) => 1,
            SplitTree::Split { left, right, .. } => 1 + (*left).node_count() + (
            *right).node_count(),
        }
    }

    /// Every split ratio lies within `0 ..= RATIO_SCALE`.
    pub open spec fn ratios_in_range(self) -> bool
        decreases self,
    {
        match self {
            SplitTree::Leaf(_) => true,
            SplitTree::Split { ratio, left, right, .. } => ratio <= RATIO_SCALE && (
            *left).ratios_in_range() && (*right).ratios_in_range(),
        }
    }

    /// Same shape, orientations and ratios, whatever the ids.
    pub open spec fn same_shape(self, other: SplitTree) -> bool
        decreases self,
    {
        match (self, other) {
            (SplitTree::Leaf(_), SplitTree::Leaf(_)) => true,
            (
                SplitTree::Split { orientation: o1, ratio: r1, left: l1, right: rt1, .. },
                SplitTree::Split { orientation: o2, ratio: r2, left: l2, right: rt2, .. },
            ) => o1 == o2 && r1 == r2 && (*l1).same_shape(*l2) && (*rt1).same_shape(*rt2),
            _ => false,
        }
    }

    /// The tree after splitting the first leaf `target` (in leaf order), or
    /// `None` when there is no such leaf.
    pub open spec fn split_result(
        self,
        target: PaneId,
        orientation: Orientation,
        new_id: PaneId,
        split_id: SplitId,
    ) -> Option<SplitTree>
        decreases self,
    {
        match self {
            SplitTree::Leaf(id) => if id == target {
                Some(
                    SplitTree::Split {
                        id: split_id,
                        orientation,
                        ratio: DEFAULT_RATIO,
                        left: Box::new(SplitTree::Leaf(id)),
                        right: Box::new(SplitTree::Leaf(new_id)),
                    },
                )
            } else {
                None
            },
            SplitTree::Split { id, orientation: o, ratio, left, right } => match (
            *left).split_result(target, orientation, new_id, split_id) {
                Some(nl) => Some(
                    SplitTree::Split { id, orientation: o, ratio, left: Box::new(nl), right },
                ),
                None => match (*right).split_result(target, orientation, new_id, split_id) {
                    Some(nr) => Some(
                        SplitTree::Split { id, orientation: o, ratio, left, right: Box::new(nr) },
                    ),
                    None => None,
                },
            },
        }
    }

    /// The tree after removing the leaf `target` and letting its sibling take
    /// the place of their parent, or `None` when no split has `target` among
    /// its leaves. At each split, a direct child leaf is looked for before
    /// descending left, then right.
    pub open spec fn close_result(self, target: PaneId) -> Option<SplitTree>
        decreases self,
    {
        match self {
            SplitTree::Leaf(_) => None,
            SplitTree::Split { id, orientation, ratio, left, right } => if *left
                == SplitTree::Leaf(target) {
                Some(*right)
            } else if *right == SplitTree::Leaf(target) {
                Some(*left)
            } else {
                match (*left).close_result(target) {
                    Some(nl) => Some(
                        SplitTree::Split { id, orientation, ratio, left: Box::new(nl), right },
                    ),
                    None => match (*right).close_result(target) {
                        Some(nr) => Some(
                            SplitTree::Split { id, orientation, ratio, left, right: Box::new(nr) },
                        ),
                        None => None,
                    },
                }
            },
        }
    }

    /// The tree after giving the first split `target` (in pre-order) the
    /// ratio `ratio`, or `None` when no split has that id.
    pub open spec fn set_ratio_result(self, target: SplitId, ratio: u32) -> Option<SplitTree>
        decreases self,
    {
        match self {
            SplitTree::Leaf(_) => None,
            SplitTree::Split { id, orientation, ratio: r, left, right } => if id == target {
                Some(SplitTree::Split { id, orientation, ratio, left, right })
            } else {
                match (*left).set_ratio_result(target, ratio) {
                    Some(nl) => Some(
                        SplitTree::Split { id, orientation, ratio: r, left: Box::new(nl), right },
                    ),
                    None => match (*right).set_ratio_result(target, ratio) {
                        Some(nr) => Some(
                            SplitTree::Split {
                                id,
                                orientation,
                                ratio: r,
                                left,
                                right: Box::new(nr),
                            },
                        ),
                        None => None,
                    },
                }
            },
        }
    }

    /// Each leaf with its rectangle when the tree is laid out over `r`, in
    /// leaf order.
    pub open spec fn rects_within(self, r: Rect) -> Seq<(PaneId, Rect)>
        decreases self,
    {
        match self {
            SplitTree::Leaf(id) => seq![(id, r)],
            SplitTree::Split { orientation, ratio, left, right, .. } => (*left).rects_within(
                first_part(r, orientation, ratio),
            ) + (*right).rects_within(second_part(r, orientation, ratio)),
        }
    }

    /// The nearest split along the path to the first leaf `pane` whose
    /// orientation is `axis`: its id, whether `pane` lies on its first
    /// (left/top) side, and its ratio.
    pub open spec fn resizable_ancestor(self, pane: PaneId, axis: Orientation) -> Option<
        (SplitId, bool, u32),
    >
        decreases self,
    {
        match self {
            SplitTree::Leaf(_) => None,
            SplitTree::Split { id, orientation, ratio, left, right } => if (
            *left).leaf_ids().contains(pane) {
                match (*left).resizable_ancestor(pane, axis) {
                    Some(found) => Some(found),
                    None => if orientation == axis {
                        Some((id, true, ratio))
                    } else {
                        None
                    },
                }
            } else if (*right).leaf_ids().contains(pane) {
                match (*right).resizable_ancestor(pane, axis) {
                    Some(found) => Some(found),
                    None => if orientation == axis {
                        Some((id, false, ratio))
                    } else {
                        None
                    },
                }
            } else {
                None
            },
        }
    }

    /// The orientation of the first split `target` (in pre-order), if any.
    pub open spec fn orientation_of(self, target: SplitId) -> Option<Orientation>
        decreases self,
    {
        match self {
            SplitTree::Leaf(_) => None,
            SplitTree::Split { id, orientation, left, right, .. } => if id == target {
                Some(orientation)
            } else {
                match (*left).orientation_of(target) {
                    Some(o) => Some(o),
                    None => (*right).orientation_of(target),
                }
            },
        }
    }

    /// The ratio of the first split `target` (in pre-order), if any.
    pub open spec fn ratio_of(self, target: SplitId) -> Option<u32>
        decreases self,
    {
        match self {
            SplitTree::Leaf(_) => None,
            SplitTree::Split { id, ratio, left, right, .. } => if id == target {
                Some(ratio)
            } else {
                match (*left).ratio_of(target) {
                    Some(r) => Some(r),
                    None => (*right).ratio_of(target),
                }
            },
        }
    }

    /// The tree with every id replaced by a fresh one counted up from
    /// `start`, in pre-order.
    pub open spec fn renumbered(self, start: int) -> SplitTree
        decreases self,
    {
        match self {
            SplitTree::Leaf(_) => SplitTree::Leaf(start as u64),
            SplitTree::Split { orientation, ratio, left, right, .. } => SplitTree::Split {
                id: start as u64,
                orientation,
                ratio,
                left: Box::new((*left).renumbered(start + 1)),
                right: Box::new((*right).renumbered(start + 1 + (*left).node_count())),
            },
        }
    }
}


impl SplitTree {
    pub fn new_leaf(id: PaneId) -> (t: Self)
        ensures
            t == SplitTree::Leaf(id),
    {
        SplitTree::Leaf(id)
    }

    fn split_owned(
        node: SplitTree,
        target: PaneId,
        orientation: Orientation,
        new_id: PaneId,
        split_id: SplitId,
    ) -> (res: (SplitTree, bool))
        ensures
            res.1 == node.split_result(target, orientation, new_id, split_id) is Some,
            res.0 == match node.split_result(target, orientation, new_id, split_id) {
                Some(t) => t,
                None => node,
            },
        decreases node,
    {
        match node {
            SplitTree::Leaf(id) => {
                if id == target {
                    (
                        SplitTree::Split {
                            id: split_id,
                            orientation,
                            ratio: DEFAULT_RATIO,
                            left: Box::new(SplitTree::Leaf(id)),
                            right: Box::new(SplitTree::Leaf(new_id)),
                        },
                        true,
                    )
                } else {
                    (SplitTree::Leaf(id), false)
                }
            },
            SplitTree::Split { id, orientation: o, ratio, left, right } => {
                let (nl, found) = Self::split_owned(*left, target, orientation, new_id, split_id);
                if found {
                    (SplitTree::Split { id, orientation: o, ratio, left: Box::new(nl), right }, true)
                } else {
                    let (nr, found_right) = Self::split_owned(
                        *right,
                        target,
                        orientation,
                        new_id,
                        split_id,
                    );
                    (
                        SplitTree::Split {
                            id,
                            orientation: o,
                            ratio,
                            left: Box::new(nl),
                            right: Box::new(nr),
                        },
                        found_right,
                    )
                }
            },
        }
    }

    /// Splits the leaf identified by `target`, inserting `new_id` as the
    /// second child in the given orientation. `split_id` identifies the new
    /// `Split` node itself (distinct namespace from `PaneId`, allocated by
    /// the caller) so that `set_ratio` can later target it by id instead of
    /// by tree position, which would shift on every unrelated mutation.
    /// Returns true if `target` was found and split.
    pub fn split(
        &mut self,
        target: PaneId,
        orientation: Orientation,
        new_id: PaneId,
        split_id: SplitId,
    ) -> (found: bool)
        ensures
            found == old(self).split_result(target, orientation, new_id, split_id) is Some,
            *final(self) == match old(self).split_result(target, orientation, new_id, split_id) {
                Some(t) => t,
                None => *old(self),
            },
            found == old(self).leaf_ids().contains(target),
            final(self).leaf_ids() == insert_after_first(old(self).leaf_ids(), target, new_id),
    {
        proof {
            lemma_split_leaves(*old(self), target, orientation, new_id, split_id);
        }
        let mut node = SplitTree::Leaf(0);
        std::mem::swap(&mut node, self);
        let (result, found) = Self::split_owned(node, target, orientation, new_id, split_id);
        *self = result;
        found
    }

    fn set_ratio_owned(node: SplitTree, target: SplitId, ratio: u32) -> (res: (SplitTree, bool))
        ensures
            res.1 == node.set_ratio_result(target, ratio) is Some,
            res.0 == match node.set_ratio_result(target, ratio) {
                Some(t) => t,
                None => node,
            },
        decreases node,
    {
        match node {
            SplitTree::Leaf(id) => (SplitTree::Leaf(id), false),
            SplitTree::Split { id, orientation, ratio: r, left, right } => {
                if id == target {
                    (SplitTree::Split { id, orientation, ratio, left, right }, true)
                } else {
                    let (nl, found) = Self::set_ratio_owned(*left, target, ratio);
                    if found {
                        (
                            SplitTree::Split { id, orientation, ratio: r, left: Box::new(nl), right },
                            true,
                        )
                    } else {
                        let (nr, found_right) = Self::set_ratio_owned(*right, target, ratio);
                        (
                            SplitTree::Split {
                                id,
                                orientation,
                                ratio: r,
                                left: Box::new(nl),
                                right: Box::new(nr),
                            },
                            found_right,
                        )
                    }
                }
            },
        }
    }

    /// Finds the `Split` node with the given id and overwrites its ratio,
    /// clamped to a sane range so a drag to the very edge can't collapse a
    /// pane to zero size. Returns false if no such split exists.
    pub fn set_ratio(&mut self, target: SplitId, ratio: u32) -> (found: bool)
        ensures
            found == old(self).set_ratio_result(target, clamped_ratio(ratio)) is Some,
            *final(self) == match old(self).set_ratio_result(target, clamped_ratio(ratio)) {
                Some(t) => t,
                None => *old(self),
            },
            found == old(self).split_ids().contains(target),
            final(self).leaf_ids() == old(self).leaf_ids(),
            old(self).ratios_in_range() ==> final(self).ratios_in_range(),
    {
        let clamped = if ratio < MIN_RATIO {
            MIN_RATIO
        } else if ratio > MAX_RATIO {
            MAX_RATIO
        } else {
            ratio
        };
        proof {
            lemma_set_ratio_keeps_leaves(*old(self), target, clamped);
        }
        let mut node = SplitTree::Leaf(0);
        std::mem::swap(&mut node, self);
        let (result, found) = Self::set_ratio_owned(node, target, clamped);
        *self = result;
        found
    }

    fn close_owned(node: SplitTree, target: PaneId) -> (res: (SplitTree, bool))
        ensures
            res.1 == node.close_result(target) is Some,
            res.0 == match node.close_result(target) {
                Some(t) => t,
                None => node,
            },
        decreases node,
    {
        match node {
            SplitTree::Leaf(id) => (SplitTree::Leaf(id), false),
            SplitTree::Split { id, orientation, ratio, left, right } => {
                let left_is_target = match &*left {
                    SplitTree::Leaf(l) => *l == target,
                    _ => false,
                };
                let right_is_target = match &*right {
                    SplitTree::Leaf(r) => *r == target,
                    _ => false,
                };
                if left_is_target {
                    (*right, true)
                } else if right_is_target {
                    (*left, true)
                } else {
                    let (nl, found) = Self::close_owned(*left, target);
                    if found {
                        (SplitTree::Split { id, orientation, ratio, left: Box::new(nl), right }, true)
                    } else {
                        let (nr, found_right) = Self::close_owned(*right, target);
                        (
                            SplitTree::Split {
                                id,
                                orientation,
                                ratio,
                                left: Box::new(nl),
                                right: Box::new(nr),
                            },
                            found_right,
                        )
                    }
                }
            },
        }
    }

    /// Removes the leaf identified by `target`. The parent `Split` node is
    /// replaced by whichever child remains, which is exactly the
    /// "rebalance" the guideline describes. Returns false (no-op) if
    /// `target` is the only leaf in the tree, or if it wasn't found.
    pub fn close(&mut self, target: PaneId) -> (closed: bool)
        ensures
            old(self).is_leaf() ==> !closed && *final(self) == *old(self),
            !old(self).is_leaf() ==> closed == old(self).close_result(target) is Some,
            *final(self) == match old(self).close_result(target) {
                Some(t) => t,
                None => *old(self),
            },
            closed == (!old(self).is_leaf() && old(self).leaf_ids().contains(target)),
            !old(self).is_leaf() && old(self).leaf_ids().no_duplicates() ==> final(self).leaf_ids()
                == remove_first(
                old(self).leaf_ids(),
                target,
            ),
            old(self).ratios_in_range() ==> final(self).ratios_in_range(),
    {
        proof {
            lemma_close_leaves(*old(self), target);
            if old(self).leaf_ids().no_duplicates() && !old(self).leaf_ids().contains(target) {
                lemma_remove_first_absent(old(self).leaf_ids(), target);
            }
        }
        if self.is_leaf_only() {
            return false;
        }
        let mut node = SplitTree::Leaf(0);
        std::mem::swap(&mut node, self);
        let (result, closed) = Self::close_owned(node, target);
        *self = result;
        closed
    }

    /// An owned copy of the tree.
    pub fn deep_copy(&self) -> (t: SplitTree)
        ensures
            t == *self,
        decreases self,
    {
        match self {
            SplitTree::Leaf(id) => SplitTree::Leaf(*id),
            SplitTree::Split { id, orientation, ratio, left, right } => SplitTree::Split {
                id: *id,
                orientation: *orientation,
                ratio: *ratio,
                left: Box::new(left.deep_copy()),
                right: Box::new(right.deep_copy()),
            },
        }
    }

    pub fn is_leaf_only(&self) -> (b: bool)
        ensures
            b == self.is_leaf(),
    {
        match self {
            SplitTree::Leaf(_) => true,
            _ => false,
        }
    }
}


impl SplitTree {
    /// The leaf `id`, if the tree has one.
    pub fn find(&self, id: PaneId) -> (r: Option<&SplitTree>)
        ensures
            r is Some <==> self.leaf_ids().contains(id),
            r matches Some(t) ==> *t == SplitTree::Leaf(id),
        decreases self,
    {
        match self {
            SplitTree::Leaf(leaf_id) => {
                proof {
                    assert(self.leaf_ids() == seq![*leaf_id]);
                    if self.leaf_ids().contains(id) {
                        let i = choose|i: int| 0 <= i < 1 && self.leaf_ids()[i] == id;
                    }
                    if *leaf_id == id {
                        assert(self.leaf_ids()[0] == id);
                    }
                }
                if *leaf_id == id {
                    Some(self)
                } else {
                    None
                }
            },
            SplitTree::Split { left, right, .. } => {
                proof {
                    lemma_contains_concat(left.leaf_ids(), right.leaf_ids(), id);
                }
                match left.find(id) {
                    Some(t) => Some(t),
                    None => right.find(id),
                }
            },
        }
    }

    fn contains_leaf(&self, id: PaneId) -> (b: bool)
        ensures
            b == self.leaf_ids().contains(id),
    {
        self.find(id).is_some()
    }

    /// In-order traversal of leaves, left-to-right / top-to-bottom.
    pub fn leaves(&self) -> (v: Vec<PaneId>)
        ensures
            v@ == self.leaf_ids(),
    {
        let mut out = Vec::new();
        self.collect_leaves(&mut out);
        assert(out@ =~= self.leaf_ids());
        out
    }

    fn collect_leaves(&self, out: &mut Vec<PaneId>)
        ensures
            final(out)@ == old(out)@ + self.leaf_ids(),
        decreases self,
    {
        match self {
            SplitTree::Leaf(id) => {
                out.push(*id);
                assert(final(out)@ =~= old(out)@ + self.leaf_ids());
            },
            SplitTree::Split { left, right, .. } => {
                left.collect_leaves(out);
                right.collect_leaves(out);
                assert(final(out)@ =~= old(out)@ + self.leaf_ids());
            },
        }
    }

    /// Computes a normalized rectangle (over `unit_rect()`) for every leaf,
    /// purely from the tree shape (no GTK involved) — used to drive
    /// directional navigation.
    pub fn leaf_rects(&self) -> (v: Vec<(PaneId, Rect)>)
        requires
            self.ratios_in_range(),
        ensures
            v@ == self.rects_within(unit_rect()),
    {
        let mut out = Vec::new();
        self.collect_rects(Rect { x: 0, y: 0, w: RECT_UNIT, h: RECT_UNIT }, &mut out);
        assert(out@ =~= self.rects_within(unit_rect()));
        out
    }

    fn collect_rects(&self, rect: Rect, out: &mut Vec<(PaneId, Rect)>)
        requires
            self.ratios_in_range(),
            rect_inside_unit(rect),
        ensures
            final(out)@ == old(out)@ + self.rects_within(rect),
        decreases self,
    {
        match self {
            SplitTree::Leaf(id) => {
                out.push((*id, rect));
                assert(final(out)@ =~= old(out)@ + self.rects_within(rect));
            },
            SplitTree::Split { orientation, ratio, left, right, .. } => {
                let r64 = *ratio as u64;
                let scale = RATIO_SCALE as u64;
                match orientation {
                    Orientation::Horizontal => {
                        assert(rect.w * r64 <= RECT_UNIT * scale) by (nonlinear_arith)
                            requires
                                rect.w <= RECT_UNIT,
                                r64 <= scale,
                        ;
                        let left_w = rect.w * r64 / scale;
                        assert(left_w <= rect.w) by (nonlinear_arith)
                            requires
                                r64 <= scale,
                                scale > 0,
                                left_w == (rect.w * r64) / (scale as int),
                        ;
                        let first = Rect { x: rect.x, y: rect.y, w: left_w, h: rect.h };
                        let second = Rect {
                            x: rect.x + left_w,
                            y: rect.y,
                            w: rect.w - left_w,
                            h: rect.h,
                        };
                        assert(first == first_part(rect, *orientation, *ratio));
                        assert(second == second_part(rect, *orientation, *ratio));
                        left.collect_rects(first, out);
                        right.collect_rects(second, out);
                    },
                    Orientation::Vertical => {
                        assert(rect.h * r64 <= RECT_UNIT * scale) by (nonlinear_arith)
                            requires
                                rect.h <= RECT_UNIT,
                                r64 <= scale,
                        ;
                        let top_h = rect.h * r64 / scale;
                        assert(top_h <= rect.h) by (nonlinear_arith)
                            requires
                                r64 <= scale,
                                scale > 0,
                                top_h == (rect.h * r64) / (scale as int),
                        ;
                        let first = Rect { x: rect.x, y: rect.y, w: rect.w, h: top_h };
                        let second = Rect {
                            x: rect.x,
                            y: rect.y + top_h,
                            w: rect.w,
                            h: rect.h - top_h,
                        };
                        assert(first == first_part(rect, *orientation, *ratio));
                        assert(second == second_part(rect, *orientation, *ratio));
                        left.collect_rects(first, out);
                        right.collect_rects(second, out);
                    },
                }
                assert(final(out)@ =~= old(out)@ + self.rects_within(rect));
            },
        }
    }

    /// Finds the closest leaf to `from` in the given screen direction, based
    /// on the geometry computed by `leaf_rects`. Returns `None` if there is
    /// no leaf in that direction (e.g. already at the edge).
    pub fn neighbor(&self, from: PaneId, direction: Direction) -> (r: Option<PaneId>)
        requires
            self.ratios_in_range(),
        ensures
            is_neighbor_result(self.rects_within(unit_rect()), from, direction, r),
    {
        let rects = self.leaf_rects();
        proof {
            lemma_rects_inside(*self, unit_rect());
        }
        let ghost rs = rects@;
        let n = rects.len();
        let mut oi: usize = 0;
        while oi < n && rects[oi].0 != from
            invariant
                n == rs.len(),
                rects@ == rs,
                oi <= n,
                forall|k: int| 0 <= k < oi ==> rs[k].0 != from,
            decreases n - oi,
        {
            oi = oi + 1;
        }
        if oi == n {
            proof {
                lemma_origin_none(rs, from);
            }
            return None;
        }
        proof {
            lemma_origin_some(rs, from, oi as int);
        }
        let origin = rects[oi].1;
        let ghost o = origin;
        let mut best: Option<usize> = None;
        let mut best_dist: u64 = 0;
        let mut i: usize = 0;
        while i < n
            invariant
                n == rs.len(),
                rects@ == rs,
                i <= n,
                rect_inside_unit(o),
                origin == o,
                forall|k: int| 0 <= k < rs.len() ==> rect_inside_unit(#[trigger] rs[k].1),
                match best {
                    None => forall|k: int| 0 <= k < i ==> !is_candidate(rs, from, o, direction, k),
                    Some(b) => {
                        &&& b < i
                        &&& is_candidate(rs, from, o, direction, b as int)
                        &&& best_dist == distance(o, rs[b as int].1, direction)
                        &&& forall|k: int|
                            0 <= k < i && is_candidate(rs, from, o, direction, k) ==> best_dist
                                <= distance(o, rs[k].1, direction)
                        &&& forall|k: int|
                            0 <= k < b && is_candidate(rs, from, o, direction, k) ==> best_dist
                                < distance(o, rs[k].1, direction)
                    },
                },
            decreases n - i,
        {
            let (id, rect) = rects[i];
            if id != from {
                let cx = 2 * rect.x + rect.w;
                let cy = 2 * rect.y + rect.h;
                let ox = 2 * origin.x + origin.w;
                let oy = 2 * origin.y + origin.h;
                let in_direction = match direction {
                    Direction::Up => cy < oy,
                    Direction::Down => cy > oy,
                    Direction::Left => cx < ox,
                    Direction::Right => cx > ox,
                };
                if in_direction {
                    let dx = if cx >= ox {
                        cx - ox
                    } else {
                        ox - cx
                    };
                    let dy = if cy >= oy {
                        cy - oy
                    } else {
                        oy - cy
                    };
                    let dist = match direction {
                        Direction::Up | Direction::Down => 10 * dy + dx,
                        Direction::Left | Direction::Right => 10 * dx + dy,
                    };
                    assert(dist == distance(o, rs[i as int].1, direction));
                    match best {
                        None => {
                            best = Some(i);
                            best_dist = dist;
                        },
                        Some(_) => {
                            if dist < best_dist {
                                best = Some(i);
                                best_dist = dist;
                            }
                        },
                    }
                }
            }
            i = i + 1;
        }
        proof {
            lemma_best_is_neighbor(rs, from, direction, oi as int, best, best_dist);
        }
        match best {
            Some(b) => Some(rects[b].0),
            None => None,
        }
    }

    /// The nearest ancestor split of `pane` whose orientation is `axis` —
    /// the divider that moves when `pane` is resized along that axis — as
    /// `(split id, whether pane is on its left/top side, current ratio)`.
    /// `None` if `pane` isn't a leaf or no split on its path has that axis.
    pub fn find_resizable_ancestor(&self, pane: PaneId, axis: Orientation) -> (r: Option<
        (SplitId, bool, u32),
    >)
        ensures
            r == self.resizable_ancestor(pane, axis),
        decreases self,
    {
        match self {
            SplitTree::Leaf(_) => None,
            SplitTree::Split { id, orientation, ratio, left, right } => {
                if left.contains_leaf(pane) {
                    match left.find_resizable_ancestor(pane, axis) {
                        Some(found) => Some(found),
                        None => {
                            if *orientation == axis {
                                Some((*id, true, *ratio))
                            } else {
                                None
                            }
                        },
                    }
                } else if right.contains_leaf(pane) {
                    match right.find_resizable_ancestor(pane, axis) {
                        Some(found) => Some(found),
                        None => {
                            if *orientation == axis {
                                Some((*id, false, *ratio))
                            } else {
                                None
                            }
                        },
                    }
                } else {
                    None
                }
            },
        }
    }

    /// The number of nodes (leaves and splits), or `None` when it does not
    /// fit in a `u64`.
    pub fn checked_node_count(&self) -> (c: Option<u64>)
        ensures
            match c {
                Some(n) => n == self.node_count(),
                None => self.node_count() > u64::MAX,
            },
        decreases self,
    {
        match self {
            SplitTree::Leaf(_) => Some(1),
            SplitTree::Split { left, right, .. } => match (left.checked_node_count(), right.checked_node_count()) {
                (Some(l), Some(r)) => {
                    if l > u64::MAX - r || l + r == u64::MAX {
                        None
                    } else {
                        Some(1 + l + r)
                    }
                },
                _ => None,
            },
        }
    }

    /// Whether every split ratio lies within `0 ..= RATIO_SCALE`.
    pub fn ratios_valid(&self) -> (b: bool)
        ensures
            b == self.ratios_in_range(),
        decreases self,
    {
        match self {
            SplitTree::Leaf(_) => true,
            SplitTree::Split { ratio, left, right, .. } => *ratio <= RATIO_SCALE && left.ratios_valid()
                && right.ratios_valid(),
        }
    }

    /// Reassigns every `PaneId`/`SplitId` in this tree from the counter
    /// `next_id`, which hands out its current value and then advances by one
    /// (e.g. a process-local counter), in pre-order. A tree deserialized
    /// from a saved session was built by a *previous* process, so its ids
    /// can collide with ones already in use by this one — this produces an
    /// equivalent tree with fresh ids, plus the old-id -> new-id map for
    /// `PaneId`s specifically, since callers (`session::persist`) need it to
    /// look up per-pane metadata that was saved keyed by the old id.
    pub fn remap_ids(&self, next_id: &mut u64) -> (res: (SplitTree, HashMap<PaneId, PaneId>))
        requires
            *old(next_id) + self.node_count() <= u64::MAX,
        ensures
            res.0 == self.renumbered(*old(next_id) as int),
            *final(next_id) == *old(next_id) + self.node_count(),
            res.1@ == pairs_to_map(Map::empty(), self.leaf_ids(), res.0.leaf_ids()),
    {
        let mut pane_map: HashMap<PaneId, PaneId> = HashMap::new();
        let remapped = self.remap_ids_inner(next_id, &mut pane_map);
        (remapped, pane_map)
    }

    fn remap_ids_inner(&self, next_id: &mut u64, pane_map: &mut HashMap<PaneId, PaneId>) -> (r:
        SplitTree)
        requires
            *old(next_id) + self.node_count() <= u64::MAX,
        ensures
            r == self.renumbered(*old(next_id) as int),
            *final(next_id) == *old(next_id) + self.node_count(),
            final(pane_map)@ == pairs_to_map(old(pane_map)@, self.leaf_ids(), r.leaf_ids()),
        decreases self,
    {
        broadcast use vstd::std_specs::hash::group_hash_axioms;

        match self {
            SplitTree::Leaf(old_id) => {
                let new_id = *next_id;
                *next_id = *next_id + 1;
                pane_map.insert(*old_id, new_id);
                proof {
                    lemma_pairs_to_map_single(old(pane_map)@, *old_id, new_id);
                }
                SplitTree::Leaf(new_id)
            },
            SplitTree::Split { orientation, ratio, left, right, .. } => {
                let id = *next_id;
                *next_id = *next_id + 1;
                let new_left = left.remap_ids_inner(next_id, pane_map);
                let new_right = right.remap_ids_inner(next_id, pane_map);
                let r = SplitTree::Split {
                    id,
                    orientation: *orientation,
                    ratio: *ratio,
                    left: Box::new(new_left),
                    right: Box::new(new_right),
                };
                proof {
                    lemma_renumbered_leaf_count(**left, id as int + 1);
                    lemma_pairs_to_map_concat(
                        old(pane_map)@,
                        left.leaf_ids(),
                        right.leaf_ids(),
                        new_left.leaf_ids(),
                        new_right.leaf_ids(),
                    );
                }
                r
            },
        }
    }
}

// ---------------------------------------------------------------------------
// Navigation geometry.
// ---------------------------------------------------------------------------

/// Twice the horizontal coordinate of the rectangle's center.
pub open spec fn center_x2(r: Rect) -> int {
    2 * r.x + r.w
}

/// Twice the vertical coordinate of the rectangle's center.
pub open spec fn center_y2(r: Rect) -> int {
    2 * r.y + r.h
}

pub open spec fn abs_diff(a: int, b: int) -> int {
    if a >= b {
        a - b
    } else {
        b - a
    }
}

/// Whether the center of `c` lies strictly in `direction` from the center of `o`.
pub open spec fn in_direction(o: Rect, c: Rect, direction: Direction) -> bool {
    match direction {
        Direction::Up => center_y2(c) < center_y2(o),
        Direction::Down => center_y2(c) > center_y2(o),
        Direction::Left => center_x2(c) < center_x2(o),
        Direction::Right => center_x2(c) > center_x2(o),
    }
}

/// Distance between centers along `direction`, with the perpendicular
/// offset counting for a tenth (all scaled by twenty to stay integral).
pub open spec fn distance(o: Rect, c: Rect, direction: Direction) -> int {
    let dx = abs_diff(center_x2(c), center_x2(o));
    let dy = abs_diff(center_y2(c), center_y2(o));
    match direction {
        Direction::Up | Direction::Down => 10 * dy + dx,
        Direction::Left | Direction::Right => 10 * dx + dy,
    }
}

/// `i` is the position of the first rectangle of `from`.
pub open spec fn is_first_of(rects: Seq<(PaneId, Rect)>, from: PaneId, i: int) -> bool {
    0 <= i < rects.len() && rects[i].0 == from && forall|k: int| 0 <= k < i ==> rects[k].0 != from
}

/// The index of the first rectangle of `from`.
pub open spec fn origin_index(rects: Seq<(PaneId, Rect)>, from: PaneId) -> Option<int> {
    if exists|i: int| is_first_of(rects, from, i) {
        Some(choose|i: int| is_first_of(rects, from, i))
    } else {
        None
    }
}

pub open spec fn is_candidate(
    rects: Seq<(PaneId, Rect)>,
    from: PaneId,
    o: Rect,
    direction: Direction,
    k: int,
) -> bool {
    0 <= k < rects.len() && rects[k].0 != from && in_direction(o, rects[k].1, direction)
}

/// Whether the `j`-th leaf is a candidate no other candidate is closer than,
/// and every earlier candidate is farther away than.
pub open spec fn is_nearest(
    rects: Seq<(PaneId, Rect)>,
    from: PaneId,
    o: Rect,
    direction: Direction,
    j: int,
) -> bool {
    &&& is_candidate(rects, from, o, direction, j)
    &&& forall|k: int|
        is_candidate(rects, from, o, direction, k) ==> distance(o, rects[j].1, direction)
            <= distance(o, rects[k].1, direction)
    &&& forall|k: int|
        0 <= k < j && is_candidate(rects, from, o, direction, k) ==> distance(
            o,
            rects[j].1,
            direction,
        ) < distance(o, rects[k].1, direction)
}

/// Whether `r` is the neighbor of `from` in `direction`: `None` when `from`
/// has no rectangle or no leaf lies in that direction, otherwise the first
/// leaf (in leaf order) at the smallest distance among those that do.
pub open spec fn is_neighbor_result(
    rects: Seq<(PaneId, Rect)>,
    from: PaneId,
    direction: Direction,
    r: Option<PaneId>,
) -> bool {
    match origin_index(rects, from) {
        None => r is None,
        Some(oi) => match r {
            None => forall|j: int| !is_candidate(rects, from, rects[oi].1, direction, j),
            Some(id) => exists|j: int|
                is_nearest(rects, from, rects[oi].1, direction, j) && rects[j].0 == id,
        },
    }
}

proof fn lemma_origin_none(rects: Seq<(PaneId, Rect)>, from: PaneId)
    requires
        forall|k: int| 0 <= k < rects.len() ==> rects[k].0 != from,
    ensures
        origin_index(rects, from) is None,
        is_neighbor_result(rects, from, Direction::Up, None),
{
}

proof fn lemma_origin_some(rects: Seq<(PaneId, Rect)>, from: PaneId, oi: int)
    requires
        0 <= oi < rects.len(),
        rects[oi].0 == from,
        forall|k: int| 0 <= k < oi ==> rects[k].0 != from,
    ensures
        origin_index(rects, from) == Some(oi),
{
    assert(is_first_of(rects, from, oi));
    let c = choose|i: int| is_first_of(rects, from, i);
    if c < oi {
        assert(rects[c].0 != from);
    }
    if c > oi {
        assert(rects[oi].0 != from);
    }
}

proof fn lemma_best_is_neighbor(
    rects: Seq<(PaneId, Rect)>,
    from: PaneId,
    direction: Direction,
    oi: int,
    best: Option<usize>,
    best_dist: u64,
)
    requires
        origin_index(rects, from) == Some(oi),
        0 <= oi < rects.len(),
        match best {
            None => forall|k: int|
                0 <= k < rects.len() ==> !is_candidate(rects, from, rects[oi].1, direction, k),
            Some(b) => {
                &&& b < rects.len()
                &&& is_candidate(rects, from, rects[oi].1, direction, b as int)
                &&& best_dist == distance(rects[oi].1, rects[b as int].1, direction)
                &&& forall|k: int|
                    0 <= k < rects.len() && is_candidate(rects, from, rects[oi].1, direction, k)
                        ==> best_dist <= distance(rects[oi].1, rects[k].1, direction)
                &&& forall|k: int|
                    0 <= k < b && is_candidate(rects, from, rects[oi].1, direction, k) ==> best_dist
                        < distance(rects[oi].1, rects[k].1, direction)
            },
        },
    ensures
        is_neighbor_result(
            rects,
            from,
            direction,
            match best {
                Some(b) => Some(rects[b as int].0),
                None => None,
            },
        ),
{
    let o = rects[oi].1;
    match best {
        None => {
            assert forall|j: int| !is_candidate(rects, from, o, direction, j) by {
                if 0 <= j < rects.len() {
                    assert(!is_candidate(rects, from, rects[oi].1, direction, j));
                }
            }
            assert(is_neighbor_result(rects, from, direction, None));
        },
        Some(b) => {
            assert(is_nearest(rects, from, o, direction, b as int));
            let oi2 = origin_index(rects, from)->0;
            assert(oi2 == oi);
            assert(is_nearest(rects, from, rects[oi2].1, direction, b as int));
            assert(is_neighbor_result(rects, from, direction, Some(rects[b as int].0)));
        },
    }
}

proof fn lemma_rects_inside(t: SplitTree, r: Rect)
    requires
        t.ratios_in_range(),
        rect_inside_unit(r),
    ensures
        forall|k: int|
            0 <= k < t.rects_within(r).len() ==> rect_inside_unit(#[trigger] t.rects_within(r)[k].1),
    decreases t,
{
    match t {
        SplitTree::Leaf(_) => {},
        SplitTree::Split { orientation, ratio, left, right, .. } => {
            let f = first_part(r, orientation, ratio);
            let s = second_part(r, orientation, ratio);
            assert(r.w * ratio / (RATIO_SCALE as int) <= r.w) by (nonlinear_arith)
                requires
                    ratio <= RATIO_SCALE,
                    r.w >= 0,
            ;
            assert(r.h * ratio / (RATIO_SCALE as int) <= r.h) by (nonlinear_arith)
                requires
                    ratio <= RATIO_SCALE,
                    r.h >= 0,
            ;
            assert(r.w * ratio / (RATIO_SCALE as int) >= 0) by (nonlinear_arith)
                requires
                    ratio >= 0,
                    r.w >= 0,
            ;
            assert(r.h * ratio / (RATIO_SCALE as int) >= 0) by (nonlinear_arith)
                requires
                    ratio >= 0,
                    r.h >= 0,
            ;
            lemma_rects_inside(*left, f);
            lemma_rects_inside(*right, s);
            let a = (*left).rects_within(f);
            let b = (*right).rects_within(s);
            assert forall|k: int| 0 <= k < (a + b).len() implies rect_inside_unit(
                #[trigger] (a + b)[k].1,
            ) by {
                if k < a.len() {
                    assert((a + b)[k] == a[k]);
                } else {
                    assert((a + b)[k] == b[k - a.len()]);
                }
            }
        },
    }
}

// ---------------------------------------------------------------------------
// Renumbering.
// ---------------------------------------------------------------------------

/// `m` after inserting `olds[i] -> news[i]` for each `i` in order, so a later
/// duplicate old id overrides an earlier one.
pub open spec fn pairs_to_map(m: Map<u64, u64>, olds: Seq<u64>, news: Seq<u64>) -> Map<u64, u64>
    decreases olds.len(),
{
    if olds.len() == 0 || news.len() == 0 {
        m
    } else {
        pairs_to_map(m.insert(olds[0], news[0]), olds.drop_first(), news.drop_first())
    }
}

proof fn lemma_pairs_to_map_single(m: Map<u64, u64>, o: u64, n: u64)
    ensures
        pairs_to_map(m, seq![o], seq![n]) == m.insert(o, n),
{
    assert(seq![o].drop_first().len() == 0);
    assert(pairs_to_map(m.insert(o, n), seq![o].drop_first(), seq![n].drop_first()) == m.insert(
        o,
        n,
    ));
}

proof fn lemma_pairs_to_map_concat(
    m: Map<u64, u64>,
    o1: Seq<u64>,
    o2: Seq<u64>,
    n1: Seq<u64>,
    n2: Seq<u64>,
)
    requires
        o1.len() == n1.len(),
    ensures
        pairs_to_map(m, o1 + o2, n1 + n2) == pairs_to_map(pairs_to_map(m, o1, n1), o2, n2),
    decreases o1.len(),
{
    if o1.len() == 0 {
        assert(o1 + o2 =~= o2);
        assert(n1 + n2 =~= n2);
    } else {
        assert((o1 + o2).drop_first() =~= o1.drop_first() + o2);
        assert((n1 + n2).drop_first() =~= n1.drop_first() + n2);
        lemma_pairs_to_map_concat(
            m.insert(o1[0], n1[0]),
            o1.drop_first(),
            o2,
            n1.drop_first(),
            n2,
        );
    }
}

proof fn lemma_renumbered_leaf_count(t: SplitTree, start: int)
    ensures
        t.renumbered(start).leaf_ids().len() == t.leaf_ids().len(),
        t.renumbered(start).node_count() == t.node_count(),
    decreases t,
{
    match t {
        SplitTree::Leaf(_) => {},
        SplitTree::Split { left, right, .. } => {
            lemma_renumbered_leaf_count(*left, start + 1);
            lemma_renumbered_leaf_count(*right, start + 1 + (*left).node_count());
        },
    }
}

// ---------------------------------------------------------------------------
// Lemmas about the operations.
// ---------------------------------------------------------------------------

/// A tree always has at least one pane.
pub proof fn lemma_leaf_ids_nonempty(t: SplitTree)
    ensures
        t.leaf_ids().len() >= 1,
    decreases t,
{
    match t {
        SplitTree::Leaf(_) => {},
        SplitTree::Split { left, right, .. } => {
            lemma_leaf_ids_nonempty(*left);
        },
    }
}

proof fn lemma_split_leaves(
    t: SplitTree,
    target: PaneId,
    orientation: Orientation,
    new_id: PaneId,
    split_id: SplitId,
)
    ensures
        (t.split_result(target, orientation, new_id, split_id) is Some) == t.leaf_ids().contains(
            target,
        ),
        match t.split_result(target, orientation, new_id, split_id) {
            Some(n) => n.leaf_ids() == insert_after_first(t.leaf_ids(), target, new_id)
                && !n.is_leaf() && (t.ratios_in_range() ==> n.ratios_in_range()),
            None => insert_after_first(t.leaf_ids(), target, new_id) == t.leaf_ids(),
        },
    decreases t,
{
    match t {
        SplitTree::Leaf(id) => {
            assert(t.leaf_ids() == seq![id]);
            if id == target {
                assert(t.leaf_ids()[0] == target);
                assert(seq![id].drop_first() =~= Seq::<u64>::empty());
                assert(insert_after_first(seq![id], target, new_id) =~= seq![id, new_id]);
                let n = t.split_result(target, orientation, new_id, split_id).unwrap();
                assert(SplitTree::Leaf(id).leaf_ids() == seq![id]);
                assert(SplitTree::Leaf(new_id).leaf_ids() == seq![new_id]);
                assert(n.leaf_ids() =~= seq![id, new_id]);
                assert(SplitTree::Leaf(id).ratios_in_range());
                assert(SplitTree::Leaf(new_id).ratios_in_range());
            } else {
                assert(!t.leaf_ids().contains(target)) by {
                    if t.leaf_ids().contains(target) {
                        let i = choose|i: int| 0 <= i < 1 && t.leaf_ids()[i] == target;
                    }
                }
                assert(seq![id].drop_first() =~= Seq::<u64>::empty());
                assert(insert_after_first(seq![id].drop_first(), target, new_id)
                    =~= Seq::<u64>::empty());
                assert(insert_after_first(seq![id], target, new_id) =~= seq![id]);
            }
        },
        SplitTree::Split { id, orientation: o, ratio, left, right } => {
            lemma_split_leaves(*left, target, orientation, new_id, split_id);
            lemma_split_leaves(*right, target, orientation, new_id, split_id);
            lemma_contains_concat((*left).leaf_ids(), (*right).leaf_ids(), target);
            lemma_insert_after_first_concat(
                (*left).leaf_ids(),
                (*right).leaf_ids(),
                target,
                new_id,
            );
        },
    }
}

proof fn lemma_close_is_split_found(t: SplitTree, target: PaneId)
    ensures
        !t.is_leaf() ==> ((t.close_result(target) is Some) == t.leaf_ids().contains(target)),
        t.is_leaf() ==> t.close_result(target) is None,
        match t.close_result(target) {
            Some(n) => t.ratios_in_range() ==> n.ratios_in_range(),
            None => true,
        },
    decreases t,
{
    match t {
        SplitTree::Leaf(_) => {},
        SplitTree::Split { id, orientation, ratio, left, right } => {
            lemma_close_is_split_found(*left, target);
            lemma_close_is_split_found(*right, target);
            lemma_contains_concat((*left).leaf_ids(), (*right).leaf_ids(), target);
            if *left == SplitTree::Leaf(target) {
                assert((*left).leaf_ids()[0] == target);
            } else if *right == SplitTree::Leaf(target) {
                assert((*right).leaf_ids()[0] == target);
            } else {
                if let SplitTree::Leaf(l) = *left {
                    assert(!(*left).leaf_ids().contains(target)) by {
                        if (*left).leaf_ids().contains(target) {
                            let i = choose|i: int|
                                0 <= i < (*left).leaf_ids().len() && (*left).leaf_ids()[i]
                                    == target;
                            assert(l == target);
                        }
                    }
                }
                if let SplitTree::Leaf(r) = *right {
                    assert(!(*right).leaf_ids().contains(target)) by {
                        if (*right).leaf_ids().contains(target) {
                            let i = choose|i: int|
                                0 <= i < (*right).leaf_ids().len() && (*right).leaf_ids()[i]
                                    == target;
                            assert(r == target);
                        }
                    }
                }
            }
        },
    }
}

proof fn lemma_close_leaves(t: SplitTree, target: PaneId)
    ensures
        !t.is_leaf() ==> ((t.close_result(target) is Some) == t.leaf_ids().contains(target)),
        t.is_leaf() ==> t.close_result(target) is None,
        match t.close_result(target) {
            Some(n) => (t.leaf_ids().no_duplicates() ==> n.leaf_ids() == remove_first(
                t.leaf_ids(),
                target,
            )) && (t.ratios_in_range() ==> n.ratios_in_range()),
            None => true,
        },
    decreases t,
{
    lemma_close_is_split_found(t, target);
    match t {
        SplitTree::Leaf(_) => {},
        SplitTree::Split { id, orientation, ratio, left, right } => {
            let l = (*left).leaf_ids();
            let r = (*right).leaf_ids();
            lemma_close_leaves(*left, target);
            lemma_close_leaves(*right, target);
            lemma_contains_concat(l, r, target);
            lemma_remove_first_concat(l, r, target);
            if t.leaf_ids().no_duplicates() {
                lemma_no_duplicates_concat(l, r);
                if *left == SplitTree::Leaf(target) {
                    assert(l == seq![target]);
                    assert(l.contains(target)) by {
                        assert(l[0] == target);
                    }
                    assert(remove_first(l, target) =~= Seq::<u64>::empty());
                    assert(Seq::<u64>::empty() + r =~= r);
                } else if *right == SplitTree::Leaf(target) {
                    assert(r.contains(target)) by {
                        assert(r[0] == target);
                    }
                    assert(!l.contains(target));
                    assert(remove_first(r, target) =~= Seq::<u64>::empty()) by {
                        assert(r == seq![target]);
                    }
                    assert(l + Seq::<u64>::empty() =~= l);
                } else {
                    match (*left).close_result(target) {
                        Some(nl) => {
                            if (*left).is_leaf() {
                            } else {
                                assert(l.contains(target));
                            }
                        },
                        None => {
                            if !(*left).is_leaf() {
                                assert(!l.contains(target));
                            } else {
                                if let SplitTree::Leaf(lid) = *left {
                                    assert(!l.contains(target)) by {
                                        if l.contains(target) {
                                            let i = choose|i: int|
                                                0 <= i < l.len() && l[i] == target;
                                            assert(lid == target);
                                        }
                                    }
                                }
                            }
                        },
                    }
                }
            }
        },
    }
}

proof fn lemma_set_ratio_keeps_leaves(t: SplitTree, target: SplitId, ratio: u32)
    ensures
        (t.set_ratio_result(target, ratio) is Some) == t.split_ids().contains(target),
        match t.set_ratio_result(target, ratio) {
            Some(n) => n.leaf_ids() == t.leaf_ids() && (t.ratios_in_range() && ratio
                <= RATIO_SCALE ==> n.ratios_in_range()),
            None => true,
        },
    decreases t,
{
    match t {
        SplitTree::Leaf(_) => {},
        SplitTree::Split { id, orientation, ratio: r, left, right } => {
            lemma_set_ratio_keeps_leaves(*left, target, ratio);
            lemma_set_ratio_keeps_leaves(*right, target, ratio);
            lemma_contains_concat(seq![id], (*left).split_ids(), target);
            lemma_contains_concat(seq![id] + (*left).split_ids(), (*right).split_ids(), target);
            assert(seq![id].contains(target) <==> id == target) by {
                if seq![id].contains(target) {
                    let i = choose|i: int| 0 <= i < 1 && seq![id][i] == target;
                }
                if id == target {
                    assert(seq![id][0] == target);
                }
            }
        },
    }
}

// ---------------------------------------------------------------------------
// Laws of the split tree.
// ---------------------------------------------------------------------------

/// Splitting a pane and then closing the pane that the split created gives
/// back the tree exactly as it was, provided the new pane id was not already
/// a leaf.
pub proof fn law_close_undoes_split(
    t: SplitTree,
    target: PaneId,
    orientation: Orientation,
    new_id: PaneId,
    split_id: SplitId,
)
    requires
        t.leaf_ids().contains(target),
        !t.leaf_ids().contains(new_id),
    ensures
        t.split_result(target, orientation, new_id, split_id) matches Some(n) && !n.is_leaf()
            && n.close_result(new_id) == Some(t),
    decreases t,
{
    lemma_split_leaves(t, target, orientation, new_id, split_id);
    match t {
        SplitTree::Leaf(id) => {
            assert(t.leaf_ids()[0] == id);
            assert(id != new_id) by {
                assert(t.leaf_ids()[0] == id);
            }
        },
        SplitTree::Split { id, orientation: o, ratio, left, right } => {
            let l = (*left).leaf_ids();
            let r = (*right).leaf_ids();
            lemma_contains_concat(l, r, target);
            lemma_contains_concat(l, r, new_id);
            lemma_split_leaves(*left, target, orientation, new_id, split_id);
            lemma_split_leaves(*right, target, orientation, new_id, split_id);
            lemma_close_is_split_found(*left, new_id);
            lemma_close_is_split_found(*right, new_id);
            if let SplitTree::Leaf(lid) = *left {
                assert(l[0] == lid);
            }
            if let SplitTree::Leaf(rid) = *right {
                assert(r[0] == rid);
            }
            if l.contains(target) {
                law_close_undoes_split(*left, target, orientation, new_id, split_id);
            } else {
                law_close_undoes_split(*right, target, orientation, new_id, split_id);
            }
        },
    }
}

/// Closing a pane of a tree whose panes are all distinct removes exactly
/// that pane and keeps every other one, in the same order.
pub proof fn law_close_removes_only_target(t: SplitTree, target: PaneId)
    requires
        !t.is_leaf(),
        t.leaf_ids().no_duplicates(),
        t.leaf_ids().contains(target),
    ensures
        t.close_result(target) matches Some(n) && n.leaf_ids() == remove_first(
            t.leaf_ids(),
            target,
        ) && !n.leaf_ids().contains(target) && n.leaf_ids().len() + 1 == t.leaf_ids().len()
            && forall|x: PaneId| x != target ==> (n.leaf_ids().contains(x) <==> t.leaf_ids().contains(x)),
        t.close_result(target) matches Some(n) && n.leaf_ids().no_duplicates(),
{
    lemma_close_leaves(t, target);
    lemma_remove_first_distinct(t.leaf_ids(), target);
    lemma_remove_first_no_duplicates(t.leaf_ids(), target);
}

proof fn lemma_remove_first_no_duplicates(s: Seq<u64>, x: u64)
    requires
        s.no_duplicates(),
    ensures
        remove_first(s, x).no_duplicates(),
    decreases s.len(),
{
    if s.len() > 0 {
        let rest = s.drop_first();
        assert(rest.no_duplicates()) by {
            assert forall|i: int, j: int|
                0 <= i < rest.len() && 0 <= j < rest.len() && i != j implies rest[i] != rest[j] by {
                assert(s[i + 1] == rest[i] && s[j + 1] == rest[j]);
            }
        }
        if s[0] != x {
            lemma_remove_first_no_duplicates(rest, x);
            let t = remove_first(rest, x);
            assert(!rest.contains(s[0])) by {
                if rest.contains(s[0]) {
                    let i = choose|i: int| 0 <= i < rest.len() && rest[i] == s[0];
                    assert(s[i + 1] == s[0]);
                }
            }
            if rest.contains(x) {
                lemma_remove_first_distinct(rest, x);
            } else {
                lemma_remove_first_absent(rest, x);
            }
            assert(!t.contains(s[0]));
            let r = seq![s[0]] + t;
            assert(remove_first(s, x) == r);
            assert forall|i: int, j: int|
                0 <= i < r.len() && 0 <= j < r.len() && i != j implies r[i] != r[j] by {
                if i > 0 {
                    assert(r[i] == t[i - 1]);
                    assert(t.contains(t[i - 1]));
                }
                if j > 0 {
                    assert(r[j] == t[j - 1]);
                    assert(t.contains(t[j - 1]));
                }
            }
        }
    }
}

proof fn lemma_remove_first_distinct(s: Seq<u64>, x: u64)
    requires
        s.no_duplicates(),
        s.contains(x),
    ensures
        !remove_first(s, x).contains(x),
        remove_first(s, x).len() + 1 == s.len(),
        forall|y: u64| y != x ==> (remove_first(s, x).contains(y) <==> s.contains(y)),
    decreases s.len(),
{
    let rest = s.drop_first();
    assert(rest.no_duplicates()) by {
        assert forall|i: int, j: int| 0 <= i < rest.len() && 0 <= j < rest.len() && i != j implies rest[i]
            != rest[j] by {
            assert(s[i + 1] == rest[i] && s[j + 1] == rest[j]);
        }
    }
    assert forall|y: u64| rest.contains(y) || y == s[0] <==> s.contains(y) by {
        if s.contains(y) {
            let i = choose|i: int| 0 <= i < s.len() && s[i] == y;
            if i > 0 {
                assert(rest[i - 1] == y);
            }
        }
        if rest.contains(y) {
            let i = choose|i: int| 0 <= i < rest.len() && rest[i] == y;
            assert(s[i + 1] == y);
        }
        if y == s[0] {
            assert(s[0] == y);
        }
    }
    if s[0] == x {
        assert(!rest.contains(x)) by {
            if rest.contains(x) {
                let i = choose|i: int| 0 <= i < rest.len() && rest[i] == x;
                assert(s[i + 1] == s[0]);
            }
        }
    } else {
        assert(rest.contains(x));
        lemma_remove_first_distinct(rest, x);
        let r = remove_first(s, x);
        assert(r == seq![s[0]] + remove_first(rest, x));
        lemma_contains_concat(seq![s[0]], remove_first(rest, x), x);
        assert forall|y: u64| seq![s[0]].contains(y) <==> y == s[0] by {
            if seq![s[0]].contains(y) {
                let i = choose|i: int| 0 <= i < 1 && seq![s[0]][i] == y;
            }
            if y == s[0] {
                assert(seq![s[0]][0] == y);
            }
        }
        assert forall|y: u64| y != x implies (r.contains(y) <==> s.contains(y)) by {
            lemma_contains_concat(seq![s[0]], remove_first(rest, x), y);
        }
        assert(s[0] != x);
    }
}

/// Splitting a pane of a tree whose panes are all distinct, with a pane id
/// that is not in use yet, keeps the panes distinct: the panes afterwards
/// are exactly the old ones and the new one.
pub proof fn law_split_keeps_panes_distinct(
    t: SplitTree,
    target: PaneId,
    orientation: Orientation,
    new_id: PaneId,
    split_id: SplitId,
)
    requires
        t.leaf_ids().no_duplicates(),
        t.leaf_ids().contains(target),
        !t.leaf_ids().contains(new_id),
    ensures
        t.split_result(target, orientation, new_id, split_id) matches Some(n) && n.leaf_ids()
            == insert_after_first(t.leaf_ids(), target, new_id) && n.leaf_ids().no_duplicates()
            && forall|x: PaneId|
            n.leaf_ids().contains(x) <==> (t.leaf_ids().contains(x) || x == new_id),
{
    lemma_split_leaves(t, target, orientation, new_id, split_id);
    lemma_insert_after_first_fresh(t.leaf_ids(), target, new_id);
}

proof fn lemma_insert_after_first_fresh(s: Seq<u64>, x: u64, y: u64)
    requires
        s.no_duplicates(),
        s.contains(x),
        !s.contains(y),
    ensures
        insert_after_first(s, x, y).no_duplicates(),
        forall|z: u64| insert_after_first(s, x, y).contains(z) <==> (s.contains(z) || z == y),
    decreases s.len(),
{
    let rest = s.drop_first();
    assert(rest.no_duplicates()) by {
        assert forall|i: int, j: int|
            0 <= i < rest.len() && 0 <= j < rest.len() && i != j implies rest[i] != rest[j] by {
            assert(s[i + 1] == rest[i] && s[j + 1] == rest[j]);
        }
    }
    assert forall|z: u64| rest.contains(z) implies s.contains(z) by {
        let i = choose|i: int| 0 <= i < rest.len() && rest[i] == z;
        assert(s[i + 1] == z);
    }
    assert(!rest.contains(s[0])) by {
        if rest.contains(s[0]) {
            let i = choose|i: int| 0 <= i < rest.len() && rest[i] == s[0];
            assert(s[i + 1] == s[0]);
        }
    }
    assert(s[0] != y) by {
        assert(s[0] == s[0]);
    }
    if s[0] == x {
        let r = seq![x, y] + rest;
        assert(insert_after_first(s, x, y) == r);
        assert forall|i: int, j: int|
            0 <= i < r.len() && 0 <= j < r.len() && i != j implies r[i] != r[j] by {
            if i >= 2 {
                assert(r[i] == rest[i - 2]);
                assert(s.contains(rest[i - 2]));
            }
            if j >= 2 {
                assert(r[j] == rest[j - 2]);
                assert(s.contains(rest[j - 2]));
            }
        }
        assert forall|z: u64| r.contains(z) <==> (s.contains(z) || z == y) by {
            if r.contains(z) {
                let i = choose|i: int| 0 <= i < r.len() && r[i] == z;
                if i >= 2 {
                    assert(rest[i - 2] == z);
                }
            }
            if s.contains(z) {
                let i = choose|i: int| 0 <= i < s.len() && s[i] == z;
                if i == 0 {
                    assert(r[0] == z);
                } else {
                    assert(r[i + 1] == z);
                }
            }
            if z == y {
                assert(r[1] == y);
            }
        }
    } else {
        assert(rest.contains(x)) by {
            let i = choose|i: int| 0 <= i < s.len() && s[i] == x;
            assert(rest[i - 1] == x);
        }
        lemma_insert_after_first_fresh(rest, x, y);
        let t = insert_after_first(rest, x, y);
        let r = seq![s[0]] + t;
        assert(insert_after_first(s, x, y) == r);
        assert(!t.contains(s[0]));
        assert forall|i: int, j: int|
            0 <= i < r.len() && 0 <= j < r.len() && i != j implies r[i] != r[j] by {
            if i > 0 {
                assert(r[i] == t[i - 1]);
                assert(t.contains(t[i - 1]));
            }
            if j > 0 {
                assert(r[j] == t[j - 1]);
                assert(t.contains(t[j - 1]));
            }
        }
        assert forall|z: u64| r.contains(z) <==> (s.contains(z) || z == y) by {
            if r.contains(z) {
                let i = choose|i: int| 0 <= i < r.len() && r[i] == z;
                if i > 0 {
                    assert(t[i - 1] == z);
                    assert(t.contains(z));
                }
            }
            if s.contains(z) {
                let i = choose|i: int| 0 <= i < s.len() && s[i] == z;
                if i == 0 {
                    assert(r[0] == z);
                } else {
                    assert(rest[i - 1] == z);
                    assert(rest.contains(z));
                    assert(t.contains(z));
                    let k = choose|k: int| 0 <= k < t.len() && t[k] == z;
                    assert(r[k + 1] == z);
                }
            }
            if z == y {
                assert(t.contains(y));
                let k = choose|k: int| 0 <= k < t.len() && t[k] == y;
                assert(r[k + 1] == y);
            }
        }
    }
}

/// Splitting a pane keeps every ratio of the tree within range.
pub proof fn lemma_split_keeps_ratios(
    t: SplitTree,
    target: PaneId,
    orientation: Orientation,
    new_id: PaneId,
    split_id: SplitId,
)
    requires
        t.ratios_in_range(),
    ensures
        t.split_result(target, orientation, new_id, split_id) matches Some(n) ==> n.ratios_in_range(),
    decreases t,
{
    match t {
        SplitTree::Leaf(id) => {
            assert(SplitTree::Leaf(id).ratios_in_range());
            assert(SplitTree::Leaf(new_id).ratios_in_range());
        },
        SplitTree::Split { left, right, .. } => {
            lemma_split_keeps_ratios(*left, target, orientation, new_id, split_id);
            lemma_split_keeps_ratios(*right, target, orientation, new_id, split_id);
        },
    }
}

/// Splitting a pane leaves the ratio of every other split as it was: a
/// divider moved by the user is not reset by a later split.
pub proof fn law_split_keeps_other_ratios(
    t: SplitTree,
    target: PaneId,
    orientation: Orientation,
    new_id: PaneId,
    split_id: SplitId,
    s: SplitId,
)
    requires
        s != split_id,
    ensures
        t.split_result(target, orientation, new_id, split_id) matches Some(n) ==> n.ratio_of(s)
            == t.ratio_of(s),
    decreases t,
{
    match t {
        SplitTree::Leaf(id) => {
            assert(SplitTree::Leaf(id).ratio_of(s) is None);
            assert(SplitTree::Leaf(new_id).ratio_of(s) is None);
        },
        SplitTree::Split { left, right, .. } => {
            law_split_keeps_other_ratios(*left, target, orientation, new_id, split_id, s);
            law_split_keeps_other_ratios(*right, target, orientation, new_id, split_id, s);
        },
    }
}

/// A ratio given to an existing split is the ratio read back from it
/// afterwards, once clamped; every other split keeps its own.
pub proof fn law_set_ratio_reads_back(t: SplitTree, target: SplitId, ratio: u32, s: SplitId)
    requires
        t.split_ids().contains(target),
    ensures
        t.set_ratio_result(target, clamped_ratio(ratio)) matches Some(n) && n.ratio_of(target)
            == Some(clamped_ratio(ratio)) && (s != target ==> n.ratio_of(s) == t.ratio_of(s)),
    decreases t,
{
    lemma_set_ratio_found(t, target, clamped_ratio(ratio));
    match t {
        SplitTree::Leaf(_) => {},
        SplitTree::Split { id, left, right, .. } => {
            if id != target {
                let l = (*left).split_ids();
                let r = (*right).split_ids();
                assert(t.split_ids() == seq![id] + l + r);
                lemma_contains_concat(seq![id] + l, r, target);
                lemma_contains_concat(seq![id], l, target);
                assert(!seq![id].contains(target)) by {
                    if seq![id].contains(target) {
                        let i = choose|i: int| 0 <= i < 1 && seq![id][i] == target;
                    }
                }
                lemma_set_ratio_found(*left, target, clamped_ratio(ratio));
                lemma_set_ratio_found(*right, target, clamped_ratio(ratio));
                lemma_ratio_of_found(*left, target);
                if l.contains(target) {
                    law_set_ratio_reads_back(*left, target, ratio, s);
                    if s != target {
                        lemma_set_ratio_other(*right, target, clamped_ratio(ratio), s);
                    }
                } else {
                    law_set_ratio_reads_back(*right, target, ratio, s);
                    if s != target {
                        lemma_set_ratio_other(*left, target, clamped_ratio(ratio), s);
                    }
                }
            }
        },
    }
}

proof fn lemma_ratio_of_found(t: SplitTree, target: SplitId)
    ensures
        t.ratio_of(target) is Some <==> t.split_ids().contains(target),
    decreases t,
{
    match t {
        SplitTree::Leaf(_) => {},
        SplitTree::Split { id, left, right, .. } => {
            lemma_ratio_of_found(*left, target);
            lemma_ratio_of_found(*right, target);
            let l = (*left).split_ids();
            let r = (*right).split_ids();
            lemma_contains_concat(seq![id] + l, r, target);
            lemma_contains_concat(seq![id], l, target);
            if id == target {
                assert(seq![id][0] == target);
            } else {
                assert(!seq![id].contains(target)) by {
                    if seq![id].contains(target) {
                        let i = choose|i: int| 0 <= i < 1 && seq![id][i] == target;
                    }
                }
            }
        },
    }
}

proof fn lemma_set_ratio_found(t: SplitTree, target: SplitId, ratio: u32)
    ensures
        t.set_ratio_result(target, ratio) is Some <==> t.ratio_of(target) is Some,
    decreases t,
{
    match t {
        SplitTree::Leaf(_) => {},
        SplitTree::Split { left, right, .. } => {
            lemma_set_ratio_found(*left, target, ratio);
            lemma_set_ratio_found(*right, target, ratio);
        },
    }
}

proof fn lemma_set_ratio_other(t: SplitTree, target: SplitId, ratio: u32, s: SplitId)
    requires
        s != target,
    ensures
        t.set_ratio_result(target, ratio) matches Some(n) ==> n.ratio_of(s) == t.ratio_of(s),
    decreases t,
{
    match t {
        SplitTree::Leaf(_) => {},
        SplitTree::Split { left, right, .. } => {
            lemma_set_ratio_other(*left, target, ratio, s);
            lemma_set_ratio_other(*right, target, ratio, s);
        },
    }
}

/// `leaf_rects` lists the panes in leaf order, each exactly once per leaf,
/// and every rectangle lies inside the whole area.
pub proof fn law_rects_follow_leaf_order(t: SplitTree)
    requires
        t.ratios_in_range(),
    ensures
        t.rects_within(unit_rect()).len() == t.leaf_ids().len(),
        forall|k: int|
            0 <= k < t.leaf_ids().len() ==> (#[trigger] t.rects_within(unit_rect())[k]).0
                == t.leaf_ids()[k],
        forall|k: int|
            0 <= k < t.leaf_ids().len() ==> rect_inside_unit(
                #[trigger] t.rects_within(unit_rect())[k].1,
            ),
{
    lemma_rects_ids(t, unit_rect());
    lemma_rects_inside(t, unit_rect());
}

proof fn lemma_rects_ids(t: SplitTree, r: Rect)
    ensures
        t.rects_within(r).len() == t.leaf_ids().len(),
        forall|k: int|
            0 <= k < t.leaf_ids().len() ==> (#[trigger] t.rects_within(r)[k]).0 == t.leaf_ids()[k],
    decreases t,
{
    match t {
        SplitTree::Leaf(_) => {},
        SplitTree::Split { orientation, ratio, left, right, .. } => {
            let f = first_part(r, orientation, ratio);
            let s = second_part(r, orientation, ratio);
            lemma_rects_ids(*left, f);
            lemma_rects_ids(*right, s);
            let a = (*left).rects_within(f);
            let b = (*right).rects_within(s);
            let la = (*left).leaf_ids();
            let lb = (*right).leaf_ids();
            assert forall|k: int| 0 <= k < (la + lb).len() implies (#[trigger] (a + b)[k]).0 == (
            la + lb)[k] by {
                if k < a.len() {
                    assert((a + b)[k] == a[k]);
                } else {
                    assert((a + b)[k] == b[k - a.len()]);
                }
            }
        },
    }
}

/// The pane found in a direction is always another pane of the tree.
pub proof fn law_neighbor_is_another_leaf(
    t: SplitTree,
    from: PaneId,
    direction: Direction,
    r: Option<PaneId>,
)
    requires
        t.ratios_in_range(),
        is_neighbor_result(t.rects_within(unit_rect()), from, direction, r),
    ensures
        r matches Some(id) ==> id != from && t.leaf_ids().contains(id) && t.leaf_ids().contains(
            from,
        ),
{
    lemma_rects_ids(t, unit_rect());
    let rects = t.rects_within(unit_rect());
    if let Some(id) = r {
        let oi = origin_index(rects, from)->0;
        assert(is_first_of(rects, from, oi));
        let j = choose|j: int| is_nearest(rects, from, rects[oi].1, direction, j) && rects[j].0 == id;
        assert(t.leaf_ids()[j] == id);
        assert(t.leaf_ids()[oi] == from);
    }
}

/// The gap between two coordinates.
pub open spec fn gap(a: int, b: int) -> int {
    if a >= b {
        a - b
    } else {
        b - a
    }
}

/// Whether the center of `c` lies strictly ahead of the center of `o` when
/// moving towards `direction` (centers taken at twice their coordinates).
pub open spec fn lies_ahead(o: Rect, c: Rect, direction: Direction) -> bool {
    match direction {
        Direction::Up => 2 * c.y + c.h < 2 * o.y + o.h,
        Direction::Down => 2 * c.y + c.h > 2 * o.y + o.h,
        Direction::Left => 2 * c.x + c.w < 2 * o.x + o.w,
        Direction::Right => 2 * c.x + c.w > 2 * o.x + o.w,
    }
}

/// How far the center of `c` is from that of `o` along the axis of
/// `direction` (at twice the coordinates).
pub open spec fn offset_along(o: Rect, c: Rect, direction: Direction) -> int {
    match direction {
        Direction::Up | Direction::Down => gap(2 * c.y + c.h, 2 * o.y + o.h),
        Direction::Left | Direction::Right => gap(2 * c.x + c.w, 2 * o.x + o.w),
    }
}

/// How far the center of `c` is from that of `o` across the axis of
/// `direction` (at twice the coordinates).
pub open spec fn offset_across(o: Rect, c: Rect, direction: Direction) -> int {
    match direction {
        Direction::Up | Direction::Down => gap(2 * c.x + c.w, 2 * o.x + o.w),
        Direction::Left | Direction::Right => gap(2 * c.y + c.h, 2 * o.y + o.h),
    }
}

/// Moving from the pane `from` (whose first rectangle is the `i`-th) towards
/// `direction` lands on a pane whose center lies ahead of the origin's, and
/// on the nearest such pane when the offset along the direction counts ten
/// times the offset across it: a pane in the adjacent column or row wins
/// over one further away, however well the latter lines up. Among equally
/// near panes the first in leaf order wins, and there is no neighbor
/// exactly when no other pane lies ahead.
pub proof fn law_neighbor_is_nearest_ahead(
    rects: Seq<(PaneId, Rect)>,
    from: PaneId,
    direction: Direction,
    r: Option<PaneId>,
    i: int,
)
    requires
        is_neighbor_result(rects, from, direction, r),
        0 <= i < rects.len(),
        rects[i].0 == from,
        forall|m: int| 0 <= m < i ==> rects[m].0 != from,
    ensures
        r is None <==> forall|k: int|
            0 <= k < rects.len() && rects[k].0 != from ==> !lies_ahead(
                rects[i].1,
                #[trigger] rects[k].1,
                direction,
            ),
        r matches Some(id) ==> exists|j: int|
            {
                &&& 0 <= j < rects.len()
                &&& #[trigger] rects[j].0 == id
                &&& id != from
                &&& lies_ahead(rects[i].1, rects[j].1, direction)
                &&& forall|k: int|
                    0 <= k < rects.len() && rects[k].0 != from && lies_ahead(
                        rects[i].1,
                        #[trigger] rects[k].1,
                        direction,
                    ) ==> 10 * offset_along(rects[i].1, rects[j].1, direction) + offset_across(
                        rects[i].1,
                        rects[j].1,
                        direction,
                    ) <= 10 * offset_along(rects[i].1, rects[k].1, direction) + offset_across(
                        rects[i].1,
                        rects[k].1,
                        direction,
                    )
                &&& forall|k: int|
                    0 <= k < j && rects[k].0 != from && lies_ahead(
                        rects[i].1,
                        #[trigger] rects[k].1,
                        direction,
                    ) ==> 10 * offset_along(rects[i].1, rects[j].1, direction) + offset_across(
                        rects[i].1,
                        rects[j].1,
                        direction,
                    ) < 10 * offset_along(rects[i].1, rects[k].1, direction) + offset_across(
                        rects[i].1,
                        rects[k].1,
                        direction,
                    )
            },
{
    let o = rects[i].1;
    assert(is_first_of(rects, from, i));
    let oi = choose|m: int| is_first_of(rects, from, m);
    assert(oi == i) by {
        if oi < i {
            assert(rects[oi].0 != from);
        }
        if oi > i {
            assert(rects[i].0 != from);
        }
    }
    assert(origin_index(rects, from) == Some(i));
    assert forall|c: Rect| #[trigger] lies_ahead(o, c, direction) == in_direction(o, c, direction)
        && distance(o, c, direction) == 10 * offset_along(o, c, direction) + offset_across(
        o,
        c,
        direction,
    ) by {}
    match r {
        None => {
            assert forall|k: int|
                0 <= k < rects.len() && rects[k].0 != from implies !lies_ahead(
                o,
                #[trigger] rects[k].1,
                direction,
            ) by {
                let oi2 = origin_index(rects, from)->0;
                assert(oi2 == i);
                assert(!is_candidate(rects, from, rects[oi2].1, direction, k));
            }
        },
        Some(id) => {
            let j = choose|j: int| is_nearest(rects, from, o, direction, j) && rects[j].0 == id;
            assert(is_candidate(rects, from, o, direction, j));
            assert(lies_ahead(o, rects[j].1, direction));
            assert(!(forall|k: int|
                0 <= k < rects.len() && rects[k].0 != from ==> !lies_ahead(
                    o,
                    #[trigger] rects[k].1,
                    direction,
                )));
            assert forall|k: int|
                0 <= k < rects.len() && rects[k].0 != from && lies_ahead(
                    o,
                    #[trigger] rects[k].1,
                    direction,
                ) implies 10 * offset_along(o, rects[j].1, direction) + offset_across(
                o,
                rects[j].1,
                direction,
            ) <= 10 * offset_along(o, rects[k].1, direction) + offset_across(
                o,
                rects[k].1,
                direction,
            ) by {
                assert(is_candidate(rects, from, o, direction, k));
            }
            assert forall|k: int|
                0 <= k < j && rects[k].0 != from && lies_ahead(
                    o,
                    #[trigger] rects[k].1,
                    direction,
                ) implies 10 * offset_along(o, rects[j].1, direction) + offset_across(
                o,
                rects[j].1,
                direction,
            ) < 10 * offset_along(o, rects[k].1, direction) + offset_across(
                o,
                rects[k].1,
                direction,
            ) by {
                assert(is_candidate(rects, from, o, direction, k));
            }
        },
    }
}

/// Closing a pane that is a direct child of a split puts the other child of
/// that split, unchanged, in the split's place: its panes keep their
/// orientation, ratio and arrangement and fill the split's whole area.
pub proof fn law_close_promotes_the_sibling(
    id: SplitId,
    orientation: Orientation,
    ratio: u32,
    sibling: SplitTree,
    pane: PaneId,
)
    ensures
        (SplitTree::Split {
            id,
            orientation,
            ratio,
            left: Box::new(SplitTree::Leaf(pane)),
            right: Box::new(sibling),
        }).close_result(pane) == Some(sibling),
        (SplitTree::Split {
            id,
            orientation,
            ratio,
            left: Box::new(sibling),
            right: Box::new(SplitTree::Leaf(pane)),
        }).close_result(pane) == Some(sibling),
{
}

proof fn lemma_orientation_of_found(t: SplitTree, target: SplitId)
    ensures
        t.orientation_of(target) is Some <==> t.split_ids().contains(target),
    decreases t,
{
    match t {
        SplitTree::Leaf(_) => {},
        SplitTree::Split { id, left, right, .. } => {
            lemma_orientation_of_found(*left, target);
            lemma_orientation_of_found(*right, target);
            let l = (*left).split_ids();
            let r = (*right).split_ids();
            lemma_contains_concat(seq![id] + l, r, target);
            lemma_contains_concat(seq![id], l, target);
            if id == target {
                assert(seq![id][0] == target);
            } else {
                assert(!seq![id].contains(target)) by {
                    if seq![id].contains(target) {
                        let i = choose|i: int| 0 <= i < 1 && seq![id][i] == target;
                    }
                }
            }
        },
    }
}

proof fn lemma_close_split_ids_subset(t: SplitTree, target: PaneId, s: SplitId)
    requires
        t.close_result(target) is Some,
        t.close_result(target)->0.split_ids().contains(s),
    ensures
        t.split_ids().contains(s),
    decreases t,
{
    match t {
        SplitTree::Leaf(_) => {},
        SplitTree::Split { id, orientation, ratio, left, right } => {
            let l = (*left).split_ids();
            let r = (*right).split_ids();
            lemma_contains_concat(seq![id] + l, r, s);
            lemma_contains_concat(seq![id], l, s);
            let n = t.close_result(target)->0;
            if *left == SplitTree::Leaf(target) {
            } else if *right == SplitTree::Leaf(target) {
            } else {
                match (*left).close_result(target) {
                    Some(nl) => {
                        let nls = nl.split_ids();
                        assert(n.split_ids() == seq![id] + nls + r);
                        lemma_contains_concat(seq![id] + nls, r, s);
                        lemma_contains_concat(seq![id], nls, s);
                        if nls.contains(s) {
                            lemma_close_split_ids_subset(*left, target, s);
                        }
                    },
                    None => {
                        let nr = (*right).close_result(target)->0;
                        let nrs = nr.split_ids();
                        assert(n.split_ids() == seq![id] + l + nrs);
                        lemma_contains_concat(seq![id] + l, nrs, s);
                        lemma_contains_concat(seq![id], l, s);
                        if nrs.contains(s) {
                            lemma_close_split_ids_subset(*right, target, s);
                        }
                    },
                }
            }
        },
    }
}

/// Closing a pane of a tree whose split ids are distinct leaves every split
/// that remains as it was: the same orientation and the same ratio. Only
/// the split that held the closed pane goes away.
pub proof fn law_close_keeps_other_splits(t: SplitTree, target: PaneId, s: SplitId)
    requires
        t.split_ids().no_duplicates(),
        t.close_result(target) is Some,
        t.close_result(target)->0.split_ids().contains(s),
    ensures
        t.close_result(target)->0.orientation_of(s) == t.orientation_of(s),
        t.close_result(target)->0.ratio_of(s) == t.ratio_of(s),
    decreases t,
{
    match t {
        SplitTree::Leaf(_) => {},
        SplitTree::Split { id, orientation, ratio, left, right } => {
            let l = (*left).split_ids();
            let r = (*right).split_ids();
            let n = t.close_result(target)->0;
            lemma_no_duplicates_concat(seq![id] + l, r);
            lemma_no_duplicates_concat(seq![id], l);
            lemma_contains_concat(seq![id] + l, r, s);
            lemma_contains_concat(seq![id], l, s);
            lemma_orientation_of_found(*left, s);
            lemma_orientation_of_found(*right, s);
            lemma_ratio_of_found(*left, s);
            lemma_ratio_of_found(*right, s);
            assert(seq![id][0] == id);
            assert(seq![id].contains(id));
            if *left == SplitTree::Leaf(target) {
                assert(n == *right);
                assert(r.contains(s));
                assert((seq![id] + l).contains(id));
                assert(s != id);
                assert((*left).orientation_of(s) is None && (*left).ratio_of(s) is None);
            } else if *right == SplitTree::Leaf(target) {
                assert(n == *left);
                assert(l.contains(s));
                assert(s != id);
            } else {
                match (*left).close_result(target) {
                    Some(nl) => {
                        let nls = nl.split_ids();
                        assert(n == SplitTree::Split {
                            id,
                            orientation,
                            ratio,
                            left: Box::new(nl),
                            right,
                        });
                        assert(n.split_ids() == seq![id] + nls + r);
                        lemma_contains_concat(seq![id] + nls, r, s);
                        lemma_contains_concat(seq![id], nls, s);
                        lemma_orientation_of_found(nl, s);
                        lemma_ratio_of_found(nl, s);
                        if s != id {
                            if nls.contains(s) {
                                lemma_close_split_ids_subset(*left, target, s);
                                law_close_keeps_other_splits(*left, target, s);
                            } else {
                                assert(r.contains(s));
                                if l.contains(s) {
                                    assert((seq![id] + l).contains(s));
                                }
                            }
                        }
                    },
                    None => {
                        let nr = (*right).close_result(target)->0;
                        let nrs = nr.split_ids();
                        assert(n == SplitTree::Split {
                            id,
                            orientation,
                            ratio,
                            left,
                            right: Box::new(nr),
                        });
                        assert(n.split_ids() == seq![id] + l + nrs);
                        lemma_contains_concat(seq![id] + l, nrs, s);
                        lemma_contains_concat(seq![id], l, s);
                        if s != id && nrs.contains(s) && !l.contains(s) {
                            lemma_close_split_ids_subset(*right, target, s);
                            law_close_keeps_other_splits(*right, target, s);
                        }
                        if s != id && nrs.contains(s) && l.contains(s) {
                            lemma_close_split_ids_subset(*right, target, s);
                            assert((seq![id] + l).contains(s));
                        }
                    },
                }
            }
        },
    }
}

/// The splits on the way from the root down to the pane `pane`, outermost
/// first: each split's id, orientation, whether the pane lies on its start
/// (left/top) side, and its ratio. Empty when the tree has no such pane.
pub open spec fn path_to(t: SplitTree, pane: PaneId) -> Seq<(SplitId, Orientation, bool, u32)>
    decreases t,
{
    match t {
        SplitTree::Leaf(_) => Seq::empty(),
        SplitTree::Split { id, orientation, ratio, left, right } => if (*left).leaf_ids().contains(
            pane,
        ) {
            seq![(id, orientation, true, ratio)] + path_to(*left, pane)
        } else if (*right).leaf_ids().contains(pane) {
            seq![(id, orientation, false, ratio)] + path_to(*right, pane)
        } else {
            Seq::empty()
        },
    }
}

/// The last split of `path` with orientation `axis`, if any.
pub open spec fn deepest_on_axis(path: Seq<(SplitId, Orientation, bool, u32)>, axis: Orientation) -> Option<
    (SplitId, bool, u32),
>
    decreases path.len(),
{
    if path.len() == 0 {
        None
    } else if path.last().1 == axis {
        Some((path.last().0, path.last().2, path.last().3))
    } else {
        deepest_on_axis(path.drop_last(), axis)
    }
}

proof fn lemma_deepest_on_axis_prepend(
    e: (SplitId, Orientation, bool, u32),
    path: Seq<(SplitId, Orientation, bool, u32)>,
    axis: Orientation,
)
    ensures
        deepest_on_axis(seq![e] + path, axis) == match deepest_on_axis(path, axis) {
            Some(x) => Some(x),
            None => if e.1 == axis {
                Some((e.0, e.2, e.3))
            } else {
                None
            },
        },
    decreases path.len(),
{
    if path.len() == 0 {
        assert(seq![e] + path =~= seq![e]);
        assert(seq![e].drop_last().len() == 0);
    } else {
        assert((seq![e] + path).drop_last() =~= seq![e] + path.drop_last());
        assert((seq![e] + path).last() == path.last());
        lemma_deepest_on_axis_prepend(e, path.drop_last(), axis);
    }
}

/// Resizing a pane along an axis moves the nearest divider of that axis:
/// the split found is the deepest split with that orientation on the way
/// from the root down to the pane (with the side the pane is on and the
/// split's ratio), and there is none exactly when no split on that way has
/// that orientation.
pub proof fn law_resize_moves_the_nearest_divider(t: SplitTree, pane: PaneId, axis: Orientation)
    ensures
        t.resizable_ancestor(pane, axis) == deepest_on_axis(path_to(t, pane), axis),
    decreases t,
{
    match t {
        SplitTree::Leaf(_) => {},
        SplitTree::Split { id, orientation, ratio, left, right } => {
            law_resize_moves_the_nearest_divider(*left, pane, axis);
            law_resize_moves_the_nearest_divider(*right, pane, axis);
            if (*left).leaf_ids().contains(pane) {
                lemma_deepest_on_axis_prepend((id, orientation, true, ratio), path_to(*left, pane), axis);
            } else if (*right).leaf_ids().contains(pane) {
                lemma_deepest_on_axis_prepend(
                    (id, orientation, false, ratio),
                    path_to(*right, pane),
                    axis,
                );
            }
        },
    }
}

/// Renumbering hands out the ids `start, start + 1, ...` in pre-order, so
/// they are all fresh and distinct, and keeps the shape, orientations and
/// ratios of the tree.
pub proof fn law_renumbering_is_fresh(t: SplitTree, start: int)
    requires
        0 <= start,
        start + t.node_count() <= u64::MAX + 1,
    ensures
        t.renumbered(start).all_ids().len() == t.node_count(),
        forall|k: int|
            0 <= k < t.node_count() ==> #[trigger] t.renumbered(start).all_ids()[k] == start + k,
        t.renumbered(start).all_ids().no_duplicates(),
        t.same_shape(t.renumbered(start)),
        t.renumbered(start).leaf_ids().len() == t.leaf_ids().len(),
    decreases t,
{
    lemma_renumbered_leaf_count(t, start);
    match t {
        SplitTree::Leaf(_) => {
            assert(t.renumbered(start).all_ids()[0] == start);
        },
        SplitTree::Split { left, right, .. } => {
            let nl = (*left).node_count();
            law_renumbering_is_fresh(*left, start + 1);
            law_renumbering_is_fresh(*right, start + 1 + nl);
            let n = t.renumbered(start);
            let a = seq![start as u64];
            let b = (*left).renumbered(start + 1).all_ids();
            let c = (*right).renumbered(start + 1 + nl).all_ids();
            assert(n.all_ids() == a + b + c);
            assert forall|k: int| 0 <= k < t.node_count() implies #[trigger] n.all_ids()[k]
                == start + k by {
                if k == 0 {
                    assert((a + b + c)[0] == a[0]);
                } else if k < 1 + nl {
                    assert((a + b + c)[k] == b[k - 1]);
                } else {
                    assert((a + b + c)[k] == c[k - 1 - nl]);
                }
            }
            assert forall|i: int, j: int|
                0 <= i < n.all_ids().len() && 0 <= j < n.all_ids().len() && i != j implies n.all_ids()[i]
                != n.all_ids()[j] by {
                assert(n.all_ids()[i] == start + i);
                assert(n.all_ids()[j] == start + j);
            }
        },
    }
}

/// Renumbering from `start` gives panes that are distinct, in increasing
/// order, and all at least `start` and below `start` plus the node count;
/// the ratios are kept, so they stay within range.
pub proof fn law_renumbered_panes_are_fresh(t: SplitTree, start: int)
    requires
        0 <= start,
        start + t.node_count() <= u64::MAX + 1,
    ensures
        forall|i: int, j: int|
            0 <= i < j < t.renumbered(start).leaf_ids().len() ==> #[trigger] t.renumbered(
                start,
            ).leaf_ids()[i] < #[trigger] t.renumbered(start).leaf_ids()[j],
        forall|i: int|
            0 <= i < t.renumbered(start).leaf_ids().len() ==> start <= #[trigger] t.renumbered(
                start,
            ).leaf_ids()[i] < start + t.node_count(),
        t.renumbered(start).leaf_ids().no_duplicates(),
        forall|p: PaneId|
            #[trigger] t.renumbered(start).leaf_ids().contains(p) ==> start <= p < start
                + t.node_count(),
        t.ratios_in_range() ==> t.renumbered(start).ratios_in_range(),
    decreases t,
{
    let leaves = t.renumbered(start).leaf_ids();
    match t {
        SplitTree::Leaf(_) => {
            assert(leaves =~= seq![start as u64]);
        },
        SplitTree::Split { left, right, .. } => {
            let nl = (*left).node_count();
            law_renumbered_panes_are_fresh(*left, start + 1);
            law_renumbered_panes_are_fresh(*right, start + 1 + nl);
            let a = (*left).renumbered(start + 1).leaf_ids();
            let b = (*right).renumbered(start + 1 + nl).leaf_ids();
            assert(leaves == a + b);
            assert forall|i: int, j: int| 0 <= i < j < leaves.len() implies #[trigger] leaves[i]
                < #[trigger] leaves[j] by {
                if j < a.len() {
                    assert(leaves[i] == a[i] && leaves[j] == a[j]);
                } else if i >= a.len() {
                    assert(leaves[i] == b[i - a.len()] && leaves[j] == b[j - a.len()]);
                } else {
                    assert(leaves[i] == a[i] && leaves[j] == b[j - a.len()]);
                }
            }
            assert forall|i: int| 0 <= i < leaves.len() implies start <= #[trigger] leaves[i]
                < start + t.node_count() by {
                if i < a.len() {
                    assert(leaves[i] == a[i]);
                } else {
                    assert(leaves[i] == b[i - a.len()]);
                }
            }
        },
    }
    assert forall|i: int, j: int|
        0 <= i < leaves.len() && 0 <= j < leaves.len() && i != j implies leaves[i] != leaves[j] by {
        if i < j {
            assert(leaves[i] < leaves[j]);
        } else {
            assert(leaves[j] < leaves[i]);
        }
    }
    assert forall|p: PaneId| #[trigger] leaves.contains(p) implies start <= p < start
        + t.node_count() by {
        let i = choose|i: int| 0 <= i < leaves.len() && leaves[i] == p;
        assert(start <= leaves[i] < start + t.node_count());
    }
}

/// The pane map of `remap_ids` sends each old pane to the new pane at the
/// same position in leaf order, when the old panes are distinct.
pub proof fn law_pane_map_follows_leaf_order(olds: Seq<u64>, news: Seq<u64>)
    requires
        olds.len() == news.len(),
        olds.no_duplicates(),
    ensures
        pairs_to_map(Map::empty(), olds, news).dom() == olds.to_set(),
        forall|i: int|
            0 <= i < olds.len() ==> pairs_to_map(Map::empty(), olds, news)[#[trigger] olds[i]]
                == news[i],
{
    lemma_pairs_to_map_general(Map::empty(), olds, news);
    assert(pairs_to_map(Map::empty(), olds, news).dom() =~= olds.to_set());
}

proof fn lemma_pairs_to_map_general(m: Map<u64, u64>, olds: Seq<u64>, news: Seq<u64>)
    requires
        olds.len() == news.len(),
        olds.no_duplicates(),
    ensures
        forall|x: u64|
            #[trigger] pairs_to_map(m, olds, news).dom().contains(x) <==> m.dom().contains(x)
                || olds.contains(x),
        forall|i: int|
            0 <= i < olds.len() ==> pairs_to_map(m, olds, news)[#[trigger] olds[i]] == news[i],
        forall|x: u64|
            !olds.contains(x) && m.dom().contains(x) ==> #[trigger] pairs_to_map(m, olds, news)[x]
                == m[x],
    decreases olds.len(),
{
    if olds.len() > 0 {
        let ro = olds.drop_first();
        let rn = news.drop_first();
        assert(ro.no_duplicates()) by {
            assert forall|i: int, j: int| 0 <= i < ro.len() && 0 <= j < ro.len() && i != j implies ro[i]
                != ro[j] by {
                assert(olds[i + 1] == ro[i] && olds[j + 1] == ro[j]);
            }
        }
        let m2 = m.insert(olds[0], news[0]);
        lemma_pairs_to_map_general(m2, ro, rn);
        assert(pairs_to_map(m, olds, news) == pairs_to_map(m2, ro, rn));
        assert forall|x: u64| ro.contains(x) || x == olds[0] <==> olds.contains(x) by {
            if olds.contains(x) {
                let i = choose|i: int| 0 <= i < olds.len() && olds[i] == x;
                if i > 0 {
                    assert(ro[i - 1] == x);
                }
            }
            if ro.contains(x) {
                let i = choose|i: int| 0 <= i < ro.len() && ro[i] == x;
                assert(olds[i + 1] == x);
            }
        }
        assert(!ro.contains(olds[0])) by {
            if ro.contains(olds[0]) {
                let i = choose|i: int| 0 <= i < ro.len() && ro[i] == olds[0];
                assert(olds[i + 1] == olds[0]);
            }
        }
        assert forall|i: int| 0 <= i < olds.len() implies pairs_to_map(m, olds, news)[
        #[trigger] olds[i]] == news[i] by {
            if i > 0 {
                assert(ro[i - 1] == olds[i]);
                assert(rn[i - 1] == news[i]);
            } else {
                assert(m2.dom().contains(olds[0]));
            }
        }
        assert forall|x: u64|
            !olds.contains(x) && m.dom().contains(x) implies #[trigger] pairs_to_map(
            m,
            olds,
            news,
        )[x] == m[x] by {
            assert(x != olds[0]) by {
                if x == olds[0] {
                    assert(olds.contains(x)) by {
                        assert(olds[0] == x);
                    }
                }
            }
        }
    }
}

} // verus!
