//! Which panes receive a broadcast keystroke.
use std::collections::{HashMap, HashSet};

use vstd::prelude::*;

use crate::layout::PaneId;

verus! {

broadcast use vstd::std_specs::hash::group_hash_axioms;

pub type SessionId = u64;

/// Broadcasting is capped at "current session" — there is no "all
/// sessions" mode, since each session is meant to be an independent
/// working context and cross-session sync would be surprising more often
/// than useful.
#[derive(Debug, Clone, Copy, PartialEq, Eq, Structural)]
pub enum BroadcastGroup {
    /// Keystrokes stay in the pane they were typed into.
    Off,
    /// Keystrokes are forwarded to the other panes of the same session.
    Session,
}

/// The panes of `members` other than `origin` that are not excluded, in
/// registration order.
pub open spec fn other_included(members: Seq<PaneId>, origin: PaneId, excluded: Set<PaneId>) -> Seq<
    PaneId,
> {
    members.filter(included_other_than(origin, excluded))
}

/// Holds of the panes other than `origin` that are not excluded.
pub open spec fn included_other_than(origin: PaneId, excluded: Set<PaneId>) -> spec_fn(PaneId) -> bool {
    |id: PaneId| id != origin && !excluded.contains(id)
}

/// Holds of every pane but `pane`.
pub open spec fn other_than(pane: PaneId) -> spec_fn(PaneId) -> bool {
    |id: PaneId| id != pane
}

/// The panes a keystroke typed into `origin` (of `session`) is forwarded
/// to: none while broadcasting is off or `origin` is excluded; otherwise
/// the other non-excluded panes registered in the same session.
pub open spec fn broadcast_targets(
    group: BroadcastGroup,
    members: Map<SessionId, Seq<PaneId>>,
    excluded: Set<PaneId>,
    origin: PaneId,
    session: SessionId,
) -> Seq<PaneId> {
    if excluded.contains(origin) {
        Seq::empty()
    } else {
        match group {
            BroadcastGroup::Off => Seq::empty(),
            BroadcastGroup::Session => if members.contains_key(session) {
                other_included(members[session], origin, excluded)
            } else {
                Seq::empty()
            },
        }
    }
}

/// Computes which panes should receive a broadcast keystroke. This module
/// never touches vte/GTK: it only decides *which* `PaneId`s are targets —
/// the actual `feed_child()` call lives with the terminal widgets. The
/// focused pane always receives its own keystrokes natively through vte, so
/// `targets()` never includes the origin pane, regardless of group.
pub struct BroadcastManager {
    group: BroadcastGroup,
    session_members: HashMap<SessionId, Vec<PaneId>>,
    /// Panes temporarily opted out of broadcasting via their header's sync
    /// button, independent of the (session-wide) group setting — an
    /// excluded pane neither sends nor receives broadcast input.
    excluded: HashSet<PaneId>,
}

impl BroadcastManager {
    pub closed spec fn current_group(&self) -> BroadcastGroup {
        self.group
    }

    /// The panes registered in each session, in registration order.
    pub closed spec fn members(&self) -> Map<SessionId, Seq<PaneId>> {
        Map::new(
            |k: SessionId| self.session_members@.contains_key(k),
            |k: SessionId| self.session_members@[k]@,
        )
    }

    pub closed spec fn excluded_panes(&self) -> Set<PaneId> {
        self.excluded@
    }

    pub fn new() -> (m: Self)
        ensures
            m.current_group() == BroadcastGroup::Off,
            m.members() == Map::<SessionId, Seq<PaneId>>::empty(),
            m.excluded_panes() == Set::<PaneId>::empty(),
    {
        let m = Self { group: BroadcastGroup::Off, session_members: HashMap::new(), excluded: HashSet::new() };
        assert(m.members() =~= Map::<SessionId, Seq<PaneId>>::empty());
        m
    }

    pub fn set_group(&mut self, group: BroadcastGroup)
        ensures
            final(self).current_group() == group,
            final(self).members() == old(self).members(),
            final(self).excluded_panes() == old(self).excluded_panes(),
    {
        self.group = group;
    }

    pub fn group(&self) -> (g: BroadcastGroup)
        ensures
            g == self.current_group(),
    {
        self.group
    }

    fn copy_ids(v: &Vec<PaneId>) -> (r: Vec<PaneId>)
        ensures
            r@ == v@,
    {
        let mut r = Vec::new();
        let mut i: usize = 0;
        while i < v.len()
            invariant
                i <= v.len(),
                r@ == v@.take(i as int),
            decreases v.len() - i,
        {
            r.push(v[i]);
            i = i + 1;
            assert(r@ =~= v@.take(i as int));
        }
        assert(v@.take(v.len() as int) =~= v@);
        r
    }

    pub fn register_pane(&mut self, session: SessionId, pane: PaneId)
        ensures
            final(self).current_group() == old(self).current_group(),
            final(self).excluded_panes() == old(self).excluded_panes(),
            final(self).members() == old(self).members().insert(
                session,
                if old(self).members().contains_key(session) {
                    old(self).members()[session]
                } else {
                    Seq::empty()
                }.push(pane),
            ),
    {
        let mut ids = match self.session_members.get(&session) {
            Some(v) => Self::copy_ids(v),
            None => Vec::new(),
        };
        ids.push(pane);
        self.session_members.insert(session, ids);
        assert(self.members() =~= old(self).members().insert(
            session,
            if old(self).members().contains_key(session) {
                old(self).members()[session]
            } else {
                Seq::empty()
            }.push(pane),
        ));
    }

    fn without(v: &Vec<PaneId>, pane: PaneId) -> (r: Vec<PaneId>)
        ensures
            r@ == v@.filter(other_than(pane)),
    {
        let mut r = Vec::new();
        let mut i: usize = 0;
        while i < v.len()
            invariant
                i <= v.len(),
                r@ == v@.take(i as int).filter(other_than(pane)),
            decreases v.len() - i,
        {
            reveal_with_fuel(Seq::<_>::filter, 1);
            assert(v@.take(i + 1).drop_last() =~= v@.take(i as int));
            if v[i] != pane {
                r.push(v[i]);
            }
            i = i + 1;
        }
        assert(v@.take(v.len() as int) =~= v@);
        r
    }

    pub fn unregister_pane(&mut self, session: SessionId, pane: PaneId)
        ensures
            final(self).current_group() == old(self).current_group(),
            final(self).excluded_panes() == old(self).excluded_panes().remove(pane),
            final(self).members() == if old(self).members().contains_key(session) {
                old(self).members().insert(
                    session,
                    old(self).members()[session].filter(other_than(pane)),
                )
            } else {
                old(self).members()
            },
    {
        let kept = match self.session_members.get(&session) {
            Some(v) => Some(Self::without(v, pane)),
            None => None,
        };
        if let Some(ids) = kept {
            self.session_members.insert(session, ids);
        }
        self.excluded.remove(&pane);
        assert(self.members() =~= if old(self).members().contains_key(session) {
            old(self).members().insert(
                session,
                old(self).members()[session].filter(other_than(pane)),
            )
        } else {
            old(self).members()
        });
    }

    pub fn is_excluded(&self, pane: PaneId) -> (b: bool)
        ensures
            b == self.excluded_panes().contains(pane),
    {
        self.excluded.contains(&pane)
    }

    /// Toggles whether `pane` is opted out of broadcasting. Returns the new
    /// excluded state.
    pub fn toggle_excluded(&mut self, pane: PaneId) -> (now_excluded: bool)
        ensures
            final(self).current_group() == old(self).current_group(),
            final(self).members() == old(self).members(),
            final(self).excluded_panes() == toggled(old(self).excluded_panes(), pane),
            now_excluded == !old(self).excluded_panes().contains(pane),
            now_excluded == final(self).excluded_panes().contains(pane),
    {
        if !self.excluded.remove(&pane) {
            self.excluded.insert(pane);
        }
        self.excluded.contains(&pane)
    }

    pub fn targets(&self, origin: PaneId, origin_session: SessionId) -> (r: Vec<PaneId>)
        ensures
            r@ == broadcast_targets(
                self.current_group(),
                self.members(),
                self.excluded_panes(),
                origin,
                origin_session,
            ),
    {
        if self.excluded.contains(&origin) {
            return Vec::new();
        }
        match self.group {
            BroadcastGroup::Off => Vec::new(),
            BroadcastGroup::Session => {
                match self.session_members.get(&origin_session) {
                    None => Vec::new(),
                    Some(members) => {
                        let ghost excl = self.excluded@;
                        let mut out = Vec::new();
                        let mut i: usize = 0;
                        while i < members.len()
                            invariant
                                i <= members.len(),
                                excl == self.excluded@,
                                out@ == other_included(members@.take(i as int), origin, excl),
                            decreases members.len() - i,
                        {
                            reveal_with_fuel(Seq::<_>::filter, 1);
                            assert(members@.take(i + 1).drop_last() =~= members@.take(i as int));
                            let id = members[i];
                            if id != origin && !self.excluded.contains(&id) {
                                out.push(id);
                            }
                            i = i + 1;
                        }
                        assert(members@.take(members.len() as int) =~= members@);
                        out
                    },
                }
            },
        }
    }
}

impl Default for BroadcastManager {
    fn default() -> (m: Self)
        ensures
            m.current_group() == BroadcastGroup::Off,
            m.members() == Map::<SessionId, Seq<PaneId>>::empty(),
            m.excluded_panes() == Set::<PaneId>::empty(),
    {
        Self::new()
    }
}

/// The excluded set after toggling `pane`.
pub open spec fn toggled(excluded: Set<PaneId>, pane: PaneId) -> Set<PaneId> {
    if excluded.contains(pane) {
        excluded.remove(pane)
    } else {
        excluded.insert(pane)
    }
}

/// What a filtered sequence holds comes from the sequence and meets the
/// filter.
pub proof fn lemma_filter_member(s: Seq<PaneId>, pred: spec_fn(PaneId) -> bool, x: PaneId)
    requires
        s.filter(pred).contains(x),
    ensures
        s.contains(x),
        pred(x),
{
    s.lemma_filter_contains_rev(pred, x);
    let i = choose|i: int| 0 <= i < s.filter(pred).len() && s.filter(pred)[i] == x;
    s.lemma_filter_pred(pred, i);
}

/// A keystroke is never forwarded back to the pane it was typed into, nor to
/// an excluded pane, nor to a pane that is not registered in the same
/// session as the origin.
pub proof fn law_targets_are_other_session_members(
    group: BroadcastGroup,
    members: Map<SessionId, Seq<PaneId>>,
    excluded: Set<PaneId>,
    origin: PaneId,
    session: SessionId,
    p: PaneId,
)
    requires
        broadcast_targets(group, members, excluded, origin, session).contains(p),
    ensures
        p != origin,
        !excluded.contains(p),
        !excluded.contains(origin),
        group == BroadcastGroup::Session,
        members.contains_key(session) && members[session].contains(p),
{
    if excluded.contains(origin) || group == BroadcastGroup::Off || !members.contains_key(session) {
        assert(broadcast_targets(group, members, excluded, origin, session) == Seq::<PaneId>::empty());
    } else {
        lemma_filter_member(
            members[session],
            included_other_than(origin, excluded),
            p,
        );
    }
}

/// With broadcasting off, or from an excluded pane, nothing is forwarded.
pub proof fn law_off_or_excluded_origin_targets_nothing(
    group: BroadcastGroup,
    members: Map<SessionId, Seq<PaneId>>,
    excluded: Set<PaneId>,
    origin: PaneId,
    session: SessionId,
)
    requires
        group == BroadcastGroup::Off || excluded.contains(origin),
    ensures
        broadcast_targets(group, members, excluded, origin, session).len() == 0,
{
}

/// In session mode, every other registered pane of the session that is not
/// excluded receives the keystroke.
pub proof fn law_session_reaches_every_included_member(
    members: Map<SessionId, Seq<PaneId>>,
    excluded: Set<PaneId>,
    origin: PaneId,
    session: SessionId,
    p: PaneId,
)
    requires
        !excluded.contains(origin),
        members.contains_key(session),
        members[session].contains(p),
        p != origin,
        !excluded.contains(p),
    ensures
        broadcast_targets(BroadcastGroup::Session, members, excluded, origin, session).contains(p),
{
    let s = members[session];
    let i = choose|i: int| 0 <= i < s.len() && s[i] == p;
    s.lemma_filter_contains(included_other_than(origin, excluded), i);
}

/// Toggling a pane's exclusion twice restores the excluded set.
pub proof fn law_toggle_twice_restores(excluded: Set<PaneId>, pane: PaneId)
    ensures
        toggled(toggled(excluded, pane), pane) == excluded,
{
    if excluded.contains(pane) {
        assert(toggled(toggled(excluded, pane), pane) =~= excluded);
    } else {
        assert(toggled(toggled(excluded, pane), pane) =~= excluded);
    }
}

/// Once a pane is unregistered from a session, no keystroke from that
/// session reaches it any more, and it is no longer excluded.
pub proof fn law_unregistered_pane_is_never_targeted(
    group: BroadcastGroup,
    members: Map<SessionId, Seq<PaneId>>,
    excluded: Set<PaneId>,
    session: SessionId,
    pane: PaneId,
    origin: PaneId,
)
    requires
        members.contains_key(session),
    ensures
        !broadcast_targets(
            group,
            members.insert(session, members[session].filter(other_than(pane))),
            excluded.remove(pane),
            origin,
            session,
        ).contains(pane),
        !excluded.remove(pane).contains(pane),
{
    let m2 = members.insert(session, members[session].filter(other_than(pane)));
    if broadcast_targets(group, m2, excluded.remove(pane), origin, session).contains(pane) {
        law_targets_are_other_session_members(
            group,
            m2,
            excluded.remove(pane),
            origin,
            session,
            pane,
        );
        lemma_filter_member(members[session], other_than(pane), pane);
    }
}

} // verus!
