//! The state of one session's panes, apart from their widgets: the split
//! tree, which pane has the keyboard focus, and which pane, if any, is
//! maximized (shown alone in place of the whole tree).
//!
//! Pane ids are handed out by the caller from one counter shared by all
//! sessions, so that they stay unique; a new pane's id must therefore not
//! be in use in this tree already.
use vstd::prelude::*;

use super::split_tree::{
    is_neighbor_result, law_close_removes_only_target, law_neighbor_is_another_leaf,
    law_split_keeps_panes_distinct, lemma_leaf_ids_nonempty, lemma_split_keeps_ratios, unit_rect,
    Direction, Orientation, PaneId, SplitId, SplitTree,
};

verus! {

/// How far one resize step moves a divider, in units of `1 / RATIO_SCALE`
/// of the split's extent.
pub const RESIZE_STEP: u32 = 500;

/// The axis along which a pane grows or shrinks when resized towards
/// `direction`.
pub open spec fn resize_axis(direction: Direction) -> Orientation {
    match direction {
        Direction::Left | Direction::Right => Orientation::Horizontal,
        Direction::Up | Direction::Down => Orientation::Vertical,
    }
}

/// Whether resizing towards `direction` moves a divider away from the
/// start (left/top) side of its split.
pub open spec fn grows_start_side(direction: Direction) -> bool {
    direction == Direction::Right || direction == Direction::Down
}

/// The tree after resizing the pane `pane` one step towards `direction`:
/// the nearest split on its path with the matching axis has its ratio
/// moved by `RESIZE_STEP` (and then clamped as `set_ratio` does). A pane on
/// the start (left/top) side grows towards Right/Down, which raises the
/// ratio; otherwise the ratio is lowered, so a pane on the end
/// (right/bottom) side grows towards Left/Up. Unchanged when there is no
/// such split.
pub open spec fn resized(t: SplitTree, pane: PaneId, direction: Direction) -> SplitTree {
    match t.resizable_ancestor(pane, resize_axis(direction)) {
        None => t,
        Some((split_id, on_start_side, ratio)) => {
            let raw = if grows_start_side(direction) && on_start_side {
                ratio.saturating_add(RESIZE_STEP)
            } else {
                ratio.saturating_sub(RESIZE_STEP)
            };
            match t.set_ratio_result(split_id, super::split_tree::clamped_ratio(raw)) {
                Some(n) => n,
                None => t,
            }
        },
    }
}

/// What `toggle_maximize` leaves maximized: `id`, unless it already was.
pub open spec fn toggled_maximized(current: Option<PaneId>, id: PaneId) -> Option<PaneId> {
    if current == Some(id) {
        None
    } else {
        Some(id)
    }
}

pub struct PaneView {
    tree: SplitTree,
    focused: PaneId,
    /// When set, only this pane is shown.
    maximized: Option<PaneId>,
}

impl PaneView {
    /// The panes are distinct, every ratio is in range, and the focused and
    /// the maximized pane are panes of the tree.
    #[verifier::type_invariant]
    pub open spec fn consistent(&self) -> bool {
        &&& self.tree().leaf_ids().no_duplicates()
        &&& self.tree().ratios_in_range()
        &&& self.tree().leaf_ids().contains(self.focus())
        &&& (self.maximized_pane() matches Some(m) ==> self.tree().leaf_ids().contains(m))
    }

    pub closed spec fn tree(&self) -> SplitTree {
        self.tree
    }

    pub closed spec fn focus(&self) -> PaneId {
        self.focused
    }

    pub closed spec fn maximized_pane(&self) -> Option<PaneId> {
        self.maximized
    }

    /// A session with the single pane `id`, focused.
    pub fn new(id: PaneId) -> (v: Self)
        ensures
            v.tree() == SplitTree::Leaf(id),
            v.focus() == id,
            v.maximized_pane() is None,
    {
        let tree = SplitTree::new_leaf(id);
        assert(tree.leaf_ids()[0] == id);
        PaneView { tree, focused: id, maximized: None }
    }

    /// A session laid out as `tree` (restored from a saved session, its ids
    /// already made fresh), focused on its first pane.
    pub fn from_tree(tree: SplitTree) -> (v: Self)
        requires
            tree.leaf_ids().no_duplicates(),
            tree.ratios_in_range(),
        ensures
            v.tree() == tree,
            v.focus() == tree.leaf_ids()[0],
            v.maximized_pane() is None,
    {
        let leaves = tree.leaves();
        proof {
            lemma_leaf_ids_nonempty(tree);
        }
        let focused = leaves[0];
        assert(tree.leaf_ids()[0] == focused);
        PaneView { tree, focused, maximized: None }
    }

    /// The pane that has the keyboard focus.
    pub fn focused(&self) -> (f: PaneId)
        ensures
            f == self.focus(),
            self.tree().leaf_ids().contains(f),
    {
        proof {
            use_type_invariant(self);
        }
        self.focused
    }

    /// The pane shown alone, if one is maximized.
    pub fn maximized(&self) -> (m: Option<PaneId>)
        ensures
            m == self.maximized_pane(),
            m matches Some(id) ==> self.tree().leaf_ids().contains(id),
    {
        proof {
            use_type_invariant(self);
        }
        self.maximized
    }

    /// The panes, left-to-right / top-to-bottom.
    pub fn pane_ids(&self) -> (v: Vec<PaneId>)
        ensures
            v@ == self.tree().leaf_ids(),
            v@.no_duplicates(),
            v@.contains(self.focus()),
    {
        proof {
            use_type_invariant(self);
        }
        self.tree.leaves()
    }

    /// A copy of the current split tree, ratios included.
    pub fn tree_snapshot(&self) -> (t: SplitTree)
        ensures
            t == self.tree(),
            t.leaf_ids().no_duplicates(),
            t.ratios_in_range(),
    {
        proof {
            use_type_invariant(self);
        }
        self.tree.deep_copy()
    }

    /// Moves the focus to `id`, e.g. the pane the user clicked. Returns
    /// `false`, changing nothing, when `id` is not a pane of this session.
    pub fn set_focused(&mut self, id: PaneId) -> (b: bool)
        ensures
            b == old(self).tree().leaf_ids().contains(id),
            final(self).tree() == old(self).tree(),
            final(self).maximized_pane() == old(self).maximized_pane(),
            final(self).focus() == (if b {
                id
            } else {
                old(self).focus()
            }),
    {
        proof {
            use_type_invariant(&*self);
        }
        if self.tree.find(id).is_none() {
            return false;
        }
        self.focused = id;
        true
    }

    /// Splits the focused pane, the new pane `new_id` taking the right or
    /// bottom half and the focus; any maximized pane is restored.
    pub fn split(&mut self, orientation: Orientation, new_id: PaneId, split_id: SplitId)
        requires
            !old(self).tree().leaf_ids().contains(new_id),
        ensures
            old(self).tree().split_result(old(self).focus(), orientation, new_id, split_id) == Some(
                final(self).tree(),
            ),
            final(self).focus() == new_id,
            final(self).maximized_pane() is None,
    {
        proof {
            use_type_invariant(&*self);
            law_split_keeps_panes_distinct(self.tree, self.focused, orientation, new_id, split_id);
            lemma_split_keeps_ratios(self.tree, self.focused, orientation, new_id, split_id);
        }
        let mut tree = self.tree.deep_copy();
        tree.split(self.focused, orientation, new_id, split_id);
        *self = PaneView { tree, focused: new_id, maximized: None };
    }

    /// Closes the focused pane and focuses the first remaining one; a
    /// maximized pane that was closed is no longer maximized. Returns the
    /// closed pane, or `None`, changing nothing, when it is the session's
    /// only pane (closing it means closing the session).
    pub fn close_focused(&mut self) -> (closed: Option<PaneId>)
        ensures
            old(self).tree().is_leaf() ==> closed is None && *final(self) == *old(self),
            !old(self).tree().is_leaf() ==> {
                &&& closed == Some(old(self).focus())
                &&& old(self).tree().close_result(old(self).focus()) == Some(final(self).tree())
                &&& final(self).focus() == final(self).tree().leaf_ids()[0]
                &&& final(self).maximized_pane() == (if old(self).maximized_pane() == Some(
                    old(self).focus(),
                ) {
                    None
                } else {
                    old(self).maximized_pane()
                })
            },
    {
        proof {
            use_type_invariant(&*self);
        }
        if self.tree.is_leaf_only() {
            return None;
        }
        let closed = self.focused;
        proof {
            law_close_removes_only_target(self.tree, closed);
        }
        let mut tree = self.tree.deep_copy();
        tree.close(closed);
        let leaves = tree.leaves();
        proof {
            lemma_leaf_ids_nonempty(tree);
        }
        let first = leaves[0];
        assert(tree.leaf_ids()[0] == first);
        let maximized = match self.maximized {
            Some(m) => if m == closed {
                None
            } else {
                Some(m)
            },
            None => None,
        };
        *self = PaneView { tree, focused: first, maximized };
        Some(closed)
    }

    /// Moves the focus to the nearest pane towards `direction`; no change
    /// when there is none.
    pub fn navigate(&mut self, direction: Direction)
        ensures
            final(self).tree() == old(self).tree(),
            final(self).maximized_pane() == old(self).maximized_pane(),
            exists|r: Option<PaneId>|
                #[trigger] is_neighbor_result(
                    old(self).tree().rects_within(unit_rect()),
                    old(self).focus(),
                    direction,
                    r,
                ) && final(self).focus() == match r {
                    Some(n) => n,
                    None => old(self).focus(),
                },
    {
        proof {
            use_type_invariant(&*self);
        }
        let r = self.tree.neighbor(self.focused, direction);
        proof {
            law_neighbor_is_another_leaf(self.tree, self.focused, direction, r);
        }
        if let Some(next) = r {
            self.focused = next;
        }
        assert(is_neighbor_result(
            old(self).tree().rects_within(unit_rect()),
            old(self).focus(),
            direction,
            r,
        ));
    }

    /// Grows or shrinks the focused pane one step towards `direction` by
    /// moving the nearest divider on that axis (see `resized`). Returns
    /// `false`, changing nothing, when no split on the focused pane's path
    /// has that axis.
    pub fn resize_focused(&mut self, direction: Direction) -> (b: bool)
        ensures
            b == old(self).tree().resizable_ancestor(old(self).focus(), resize_axis(direction)) is Some,
            final(self).tree() == resized(old(self).tree(), old(self).focus(), direction),
            final(self).tree().leaf_ids() == old(self).tree().leaf_ids(),
            final(self).focus() == old(self).focus(),
            final(self).maximized_pane() == old(self).maximized_pane(),
    {
        proof {
            use_type_invariant(&*self);
        }
        let axis = match direction {
            Direction::Left | Direction::Right => Orientation::Horizontal,
            Direction::Up | Direction::Down => Orientation::Vertical,
        };
        match self.tree.find_resizable_ancestor(self.focused, axis) {
            None => false,
            Some((split_id, on_start_side, ratio)) => {
                let grows = match direction {
                    Direction::Right | Direction::Down => true,
                    Direction::Left | Direction::Up => false,
                };
                let raw = if grows && on_start_side {
                    ratio.saturating_add(RESIZE_STEP)
                } else {
                    ratio.saturating_sub(RESIZE_STEP)
                };
                let mut tree = self.tree.deep_copy();
                tree.set_ratio(split_id, raw);
                *self = PaneView { tree, focused: self.focused, maximized: self.maximized };
                true
            },
        }
    }

    /// Moves the divider of split `split_id` to `ratio` (clamped as
    /// `SplitTree::set_ratio` does), e.g. after the user dragged it.
    /// Returns `false`, changing nothing, when there is no such split.
    pub fn set_ratio(&mut self, split_id: SplitId, ratio: u32) -> (found: bool)
        ensures
            found == old(self).tree().split_ids().contains(split_id),
            final(self).tree() == match old(self).tree().set_ratio_result(
                split_id,
                super::split_tree::clamped_ratio(ratio),
            ) {
                Some(t) => t,
                None => old(self).tree(),
            },
            final(self).tree().leaf_ids() == old(self).tree().leaf_ids(),
            final(self).focus() == old(self).focus(),
            final(self).maximized_pane() == old(self).maximized_pane(),
    {
        proof {
            use_type_invariant(&*self);
        }
        let mut tree = self.tree.deep_copy();
        let found = tree.set_ratio(split_id, ratio);
        *self = PaneView { tree, focused: self.focused, maximized: self.maximized };
        found
    }

    /// Whether `id` is one of the panes.
    pub fn contains_pane(&self, id: PaneId) -> (b: bool)
        ensures
            b == self.tree().leaf_ids().contains(id),
    {
        self.tree.find(id).is_some()
    }

    /// Whether the session has a single pane.
    pub fn is_leaf_only(&self) -> (b: bool)
        ensures
            b == self.tree().is_leaf(),
    {
        self.tree.is_leaf_only()
    }

    /// Whether `id` is the maximized pane.
    pub fn is_maximized(&self, id: PaneId) -> (b: bool)
        ensures
            b == (self.maximized_pane() == Some(id)),
    {
        match self.maximized {
            Some(m) => m == id,
            None => false,
        }
    }

    /// Maximizes `id`, or restores it when it already is; returns whether
    /// it is maximized now. Returns `false`, changing nothing, when `id` is
    /// not a pane of this session.
    pub fn toggle_maximize(&mut self, id: PaneId) -> (now: bool)
        ensures
            final(self).tree() == old(self).tree(),
            final(self).focus() == old(self).focus(),
            old(self).tree().leaf_ids().contains(id) ==> final(self).maximized_pane()
                == toggled_maximized(old(self).maximized_pane(), id),
            !old(self).tree().leaf_ids().contains(id) ==> final(self).maximized_pane() == old(
                self,
            ).maximized_pane(),
            now == (old(self).tree().leaf_ids().contains(id) && final(self).maximized_pane()
                == Some(id)),
    {
        proof {
            use_type_invariant(&*self);
        }
        if self.tree.find(id).is_none() {
            return false;
        }
        let was = self.is_maximized(id);
        if was {
            self.maximized = None;
        } else {
            self.maximized = Some(id);
        }
        !was
    }
}

} // verus!
