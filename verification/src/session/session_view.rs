//! The state of every session of a window, apart from their widgets: the
//! panes of each session, the broadcast registry shared by all of them,
//! and the counters that hand out session and pane ids.
//!
//! Which session is selected is the tab view's business; the operations
//! that act on "the current session" take it as an argument.
use std::collections::HashMap;

use vstd::prelude::*;

use crate::layout::pane_view::{resize_axis, resized, toggled_maximized, PaneView};
use crate::layout::split_tree::{
    clamped_ratio, is_neighbor_result, law_close_removes_only_target, law_renumbered_panes_are_fresh,
    law_split_keeps_panes_distinct, lemma_leaf_ids_nonempty, pairs_to_map, unit_rect,
};
use crate::layout::{Direction, Orientation, PaneId, SplitId, SplitTree};
use crate::terminal::broadcast::{
    broadcast_targets, law_session_reaches_every_included_member,
    law_targets_are_other_session_members, lemma_filter_member, other_than, toggled,
    BroadcastGroup, BroadcastManager, SessionId,
};
use crate::text::{chars_of, decimal, push_decimal, string_from_chars};

verus! {

broadcast use vstd::std_specs::hash::group_hash_axioms;

/// The name a session shows until the user renames it: `"Session "`
/// followed by its id counted from 1.
pub open spec fn default_session_name_of(id: SessionId) -> Seq<char> {
    "Session "@ + decimal((id + 1) as nat)
}

/// The name a session shows until the user renames it (see
/// `default_session_name_of`).
pub fn default_session_name(id: SessionId) -> (name: String)
    requires
        id < u64::MAX,
    ensures
        name@ == default_session_name_of(id),
{
    let mut v = chars_of("Session ");
    push_decimal(id + 1, &mut v);
    string_from_chars(&v)
}

/// What closing a pane came to.
pub enum PaneClosing {
    /// The pane was closed; its session lives on.
    PaneClosed(PaneId),
    /// The pane was the last one of its session, so the session was closed
    /// with it.
    SessionClosed(SessionId),
    /// There was no such session or pane.
    Nothing,
}

/// Every session id lies below `next_session`, and every pane id below
/// `next_pane`.
pub open spec fn ids_below(
    sessions: Map<SessionId, PaneView>,
    next_session: SessionId,
    next_pane: PaneId,
) -> bool {
    forall|sid: SessionId|
        #[trigger] sessions.contains_key(sid) ==> sid < next_session && forall|p: PaneId|
            #[trigger] sessions[sid].tree().leaf_ids().contains(p) ==> p < next_pane
}

/// No pane belongs to two sessions.
pub open spec fn panes_disjoint(sessions: Map<SessionId, PaneView>) -> bool {
    forall|a: SessionId, b: SessionId, p: PaneId|
        sessions.contains_key(a) && sessions.contains_key(b) && a != b
            && #[trigger] sessions[a].tree().leaf_ids().contains(p) ==> !#[trigger] sessions[b].tree().leaf_ids().contains(p)
}

/// The broadcast registry `members` lists, for each session, exactly its
/// panes, and no pane at all for a session that is gone.
pub open spec fn registry_matches(
    members: Map<SessionId, Seq<PaneId>>,
    sessions: Map<SessionId, PaneView>,
) -> bool {
    &&& forall|sid: SessionId| #[trigger] sessions.contains_key(sid) ==> members.contains_key(sid)
    &&& forall|sid: SessionId, p: PaneId|
        #![trigger members[sid].contains(p)]
        #![trigger sessions[sid].tree().leaf_ids().contains(p)]
        sessions.contains_key(sid) ==> (members[sid].contains(p) <==> sessions[sid].tree().leaf_ids().contains(p))
    &&& forall|sid: SessionId, p: PaneId|
        members.contains_key(sid) && !sessions.contains_key(sid) ==> !#[trigger] members[sid].contains(p)
}

proof fn lemma_contains_push(s: Seq<PaneId>, x: PaneId, q: PaneId)
    ensures
        s.push(x).contains(q) <==> (s.contains(q) || q == x),
{
    if s.push(x).contains(q) {
        let i = choose|i: int| 0 <= i < s.push(x).len() && s.push(x)[i] == q;
        if i < s.len() {
            assert(s[i] == q);
        }
    }
    if s.contains(q) {
        let i = choose|i: int| 0 <= i < s.len() && s[i] == q;
        assert(s.push(x)[i] == q);
    }
    if q == x {
        assert(s.push(x)[s.len() as int] == q);
    }
}

proof fn lemma_filter_other_than(s: Seq<PaneId>, pane: PaneId, q: PaneId)
    ensures
        s.filter(other_than(pane)).contains(q) <==> (s.contains(q) && q != pane),
{
    if s.filter(other_than(pane)).contains(q) {
        lemma_filter_member(s, other_than(pane), q);
    }
    if s.contains(q) && q != pane {
        let i = choose|i: int| 0 <= i < s.len() && s[i] == q;
        s.lemma_filter_contains(other_than(pane), i);
    }
}

proof fn lemma_nothing_is_empty(s: Seq<PaneId>)
    requires
        forall|q: PaneId| !s.contains(q),
    ensures
        s == Seq::<PaneId>::empty(),
{
    if s.len() > 0 {
        assert(s.contains(s[0]));
    }
    assert(s =~= Seq::<PaneId>::empty());
}

/// The panes of session `sid` of `v`, none when there is no such session.
pub open spec fn panes_of(v: SessionView, sid: SessionId) -> Seq<PaneId> {
    if v.sessions().contains_key(sid) {
        v.sessions()[sid].tree().leaf_ids()
    } else {
        Seq::empty()
    }
}

/// `after` is `before` with the session `sid` closed: its panes leave the
/// broadcast registry and the excluded panes; nothing else changes.
pub open spec fn session_closed(before: SessionView, after: SessionView, sid: SessionId) -> bool {
    &&& after.sessions() == before.sessions().remove(sid)
    &&& forall|q: PaneId|
        #[trigger] after.registry().excluded_panes().contains(q) <==> (
        before.registry().excluded_panes().contains(q) && !panes_of(before, sid).contains(q))
    &&& after.registry().members() == if before.sessions().contains_key(sid) {
        before.registry().members().insert(sid, Seq::empty())
    } else {
        before.registry().members()
    }
    &&& after.registry().current_group() == before.registry().current_group()
    &&& after.next_session() == before.next_session()
    &&& after.next_pane() == before.next_pane()
}

/// `after` is `before` with the pane `p` of session `sid` closed: the
/// session's tree loses it, its first remaining pane takes the focus, a
/// maximized `p` is no longer maximized, and `p` leaves the broadcast
/// registry and the excluded panes; nothing else changes.
pub open spec fn pane_closed(before: SessionView, after: SessionView, sid: SessionId, p: PaneId) -> bool {
    let b = before.sessions()[sid];
    let a = after.sessions()[sid];
    &&& before.sessions().contains_key(sid)
    &&& after.sessions().contains_key(sid)
    &&& after.sessions().remove(sid) == before.sessions().remove(sid)
    &&& b.tree().close_result(p) == Some(a.tree())
    &&& a.focus() == a.tree().leaf_ids()[0]
    &&& a.maximized_pane() == (if b.maximized_pane() == Some(p) {
        None
    } else {
        b.maximized_pane()
    })
    &&& after.registry().members() == before.registry().members().insert(
        sid,
        before.registry().members()[sid].filter(other_than(p)),
    )
    &&& after.registry().excluded_panes() == before.registry().excluded_panes().remove(p)
    &&& after.registry().current_group() == before.registry().current_group()
    &&& after.next_session() == before.next_session()
    &&& after.next_pane() == before.next_pane()
}

/// `after` is `before` with session `sid`'s pane state replaced by one
/// with the same panes (a change of focus, maximized pane or ratios).
pub open spec fn panes_kept(before: SessionView, after: SessionView, sid: SessionId) -> bool {
    &&& before.sessions().contains_key(sid)
    &&& after.sessions().contains_key(sid)
    &&& after.sessions().remove(sid) == before.sessions().remove(sid)
    &&& after.sessions()[sid].tree().leaf_ids() == before.sessions()[sid].tree().leaf_ids()
    &&& after.registry() == before.registry()
    &&& after.next_session() == before.next_session()
    &&& after.next_pane() == before.next_pane()
}

pub struct SessionView {
    sessions: HashMap<SessionId, PaneView>,
    broadcast: BroadcastManager,
    next_session_id: SessionId,
    next_pane_id: PaneId,
}

impl SessionView {
    /// Each session with its panes.
    pub closed spec fn sessions(&self) -> Map<SessionId, PaneView> {
        self.sessions@
    }

    /// The broadcast group and registry.
    pub closed spec fn registry(&self) -> BroadcastManager {
        self.broadcast
    }

    /// The id the next new session gets.
    pub closed spec fn next_session(&self) -> SessionId {
        self.next_session_id
    }

    /// The id the next new pane gets.
    pub closed spec fn next_pane(&self) -> PaneId {
        self.next_pane_id
    }

    /// The ids handed out lie below the counters, no pane belongs to two
    /// sessions, and the broadcast registry lists exactly each session's
    /// panes.
    pub closed spec fn wf(&self) -> bool {
        &&& ids_below(self.sessions@, self.next_session_id, self.next_pane_id)
        &&& panes_disjoint(self.sessions@)
        &&& registry_matches(self.broadcast.members(), self.sessions@)
    }

    /// A window with one session holding one pane; broadcasting is off.
    pub fn new() -> (v: Self)
        ensures
            v.wf(),
            v.sessions().dom() == set![0u64],
            v.sessions()[0].tree() == SplitTree::Leaf(0),
            v.sessions()[0].focus() == 0,
            v.sessions()[0].maximized_pane() is None,
            v.next_session() == 1,
            v.next_pane() == 1,
            v.registry().current_group() == BroadcastGroup::Off,
            v.registry().members() == map![0u64 => seq![0u64]],
            v.registry().excluded_panes() == Set::<PaneId>::empty(),
    {
        let mut v = SessionView {
            sessions: HashMap::new(),
            broadcast: BroadcastManager::new(),
            next_session_id: 0,
            next_pane_id: 0,
        };
        assert(v.sessions@ =~= Map::<SessionId, PaneView>::empty());
        v.new_session();
        assert(v.sessions().dom() =~= set![0u64]);
        assert(v.registry().members() =~= map![0u64 => seq![0u64]]);
        v
    }

    /// The current broadcast group.
    pub fn broadcast_group(&self) -> (g: BroadcastGroup)
        ensures
            g == self.registry().current_group(),
    {
        self.broadcast.group()
    }

    /// Whether the counters can still hand out a new session id and the
    /// two ids that a split draws.
    pub fn ids_available(&self) -> (b: bool)
        ensures
            b == (self.next_session() < u64::MAX && self.next_pane() < u64::MAX - 1),
    {
        self.next_session_id < u64::MAX && self.next_pane_id < u64::MAX - 1
    }

    /// Switches broadcasting on or off.
    pub fn set_broadcast_group(&mut self, group: BroadcastGroup)
        requires
            old(self).wf(),
        ensures
            final(self).wf(),
            final(self).sessions() == old(self).sessions(),
            final(self).registry().current_group() == group,
            final(self).registry().members() == old(self).registry().members(),
            final(self).registry().excluded_panes() == old(self).registry().excluded_panes(),
            final(self).next_session() == old(self).next_session(),
            final(self).next_pane() == old(self).next_pane(),
    {
        self.broadcast.set_group(group);
    }

    /// Opens a new session with a single pane; returns its id.
    pub fn new_session(&mut self) -> (sid: SessionId)
        requires
            old(self).wf(),
            old(self).next_session() < u64::MAX,
            old(self).next_pane() < u64::MAX,
        ensures
            final(self).wf(),
            sid == old(self).next_session(),
            !old(self).sessions().contains_key(sid),
            final(self).sessions().contains_key(sid),
            final(self).sessions().remove(sid) == old(self).sessions(),
            final(self).sessions()[sid].tree() == SplitTree::Leaf(old(self).next_pane()),
            final(self).sessions()[sid].focus() == old(self).next_pane(),
            final(self).sessions()[sid].maximized_pane() is None,
            final(self).next_session() == old(self).next_session() + 1,
            final(self).next_pane() == old(self).next_pane() + 1,
            final(self).registry().current_group() == old(self).registry().current_group(),
            final(self).registry().excluded_panes() == old(self).registry().excluded_panes(),
            final(self).registry().members() == old(self).registry().members().insert(
                sid,
                if old(self).registry().members().contains_key(sid) {
                    old(self).registry().members()[sid]
                } else {
                    Seq::empty()
                }.push(old(self).next_pane()),
            ),
    {
        let session_id = self.next_session_id;
        self.next_session_id = self.next_session_id + 1;
        let pane_id = self.next_pane_id;
        self.next_pane_id = self.next_pane_id + 1;
        let ghost old_sessions = self.sessions@;
        let ghost old_members = self.broadcast.members();
        let pane_view = PaneView::new(pane_id);
        assert(pane_view.tree().leaf_ids() =~= seq![pane_id]);
        self.broadcast.register_pane(session_id, pane_id);
        self.sessions.insert(session_id, pane_view);
        proof {
            let sessions = self.sessions@;
            let members = self.broadcast.members();
            assert(sessions.remove(session_id) =~= old_sessions);
            assert forall|q: PaneId| #[trigger] members[session_id].contains(q) <==> q == pane_id by {
                let before = if old_members.contains_key(session_id) {
                    old_members[session_id]
                } else {
                    Seq::<PaneId>::empty()
                };
                lemma_contains_push(before, pane_id, q);
            }
            assert(seq![pane_id].contains(pane_id)) by {
                assert(seq![pane_id][0] == pane_id);
            }
            assert forall|q: PaneId| #[trigger] seq![pane_id].contains(q) implies q == pane_id by {
                let i = choose|i: int| 0 <= i < 1 && seq![pane_id][i] == q;
            }
            assert(ids_below(sessions, self.next_session_id, self.next_pane_id));
            assert(panes_disjoint(sessions));
            assert(registry_matches(members, sessions));
        }
        session_id
    }

    /// Opens a new session laid out as `tree` (e.g. one restored from a
    /// saved session), its ids replaced by fresh ones drawn from the pane
    /// counter in pre-order, and focused on its first pane; returns the
    /// session and the map from `tree`'s panes to the new ones. Changes
    /// nothing and returns `None` when a ratio of `tree` is out of range or
    /// the counters would run out of ids.
    pub fn restore_session(&mut self, tree: &SplitTree) -> (res: Option<
        (SessionId, HashMap<PaneId, PaneId>),
    >)
        requires
            old(self).wf(),
        ensures
            final(self).wf(),
            res is None <==> !(old(self).next_session() < u64::MAX && old(self).next_pane()
                + tree.node_count() <= u64::MAX && tree.ratios_in_range()),
            res is None ==> *final(self) == *old(self),
            res matches Some(r) ==> {
                &&& r.0 == old(self).next_session()
                &&& !old(self).sessions().contains_key(r.0)
                &&& final(self).sessions().contains_key(r.0)
                &&& final(self).sessions().remove(r.0) == old(self).sessions()
                &&& final(self).sessions()[r.0].tree() == tree.renumbered(
                    old(self).next_pane() as int,
                )
                &&& final(self).sessions()[r.0].focus()
                    == final(self).sessions()[r.0].tree().leaf_ids()[0]
                &&& final(self).sessions()[r.0].maximized_pane() is None
                &&& r.1@ == pairs_to_map(
                    Map::empty(),
                    tree.leaf_ids(),
                    tree.renumbered(old(self).next_pane() as int).leaf_ids(),
                )
                &&& final(self).next_session() == old(self).next_session() + 1
                &&& final(self).next_pane() == old(self).next_pane() + tree.node_count()
                &&& final(self).registry().current_group() == old(
                    self,
                ).registry().current_group()
                &&& final(self).registry().excluded_panes() == old(
                    self,
                ).registry().excluded_panes()
                &&& final(self).registry().members() == old(self).registry().members().insert(
                    r.0,
                    if old(self).registry().members().contains_key(r.0) {
                        old(self).registry().members()[r.0]
                    } else {
                        Seq::empty()
                    } + tree.renumbered(old(self).next_pane() as int).leaf_ids(),
                )
            },
    {
        if self.next_session_id == u64::MAX || !tree.ratios_valid() {
            return None;
        }
        match tree.checked_node_count() {
            None => {
                return None;
            },
            Some(n) => {
                if self.next_pane_id > u64::MAX - n {
                    return None;
                }
            },
        }
        let ghost old_sessions = self.sessions@;
        let ghost old_members = self.broadcast.members();
        let ghost start = self.next_pane_id as int;
        let session_id = self.next_session_id;
        self.next_session_id = self.next_session_id + 1;
        let mut counter = self.next_pane_id;
        let (fresh, pane_map) = tree.remap_ids(&mut counter);
        self.next_pane_id = counter;
        proof {
            law_renumbered_panes_are_fresh(*tree, start);
        }
        let pane_view = PaneView::from_tree(fresh);
        let panes = pane_view.pane_ids();
        let ghost base = if old_members.contains_key(session_id) {
            old_members[session_id]
        } else {
            Seq::<PaneId>::empty()
        };
        let mut k: usize = 0;
        assert(base + panes@.take(0) =~= base);
        while k < panes.len()
            invariant
                k <= panes.len(),
                self.sessions@ == old_sessions,
                self.next_session_id == old(self).next_session() + 1,
                self.next_pane_id == old(self).next_pane() + tree.node_count(),
                self.broadcast.current_group() == old(self).registry().current_group(),
                self.broadcast.excluded_panes() == old(self).registry().excluded_panes(),
                k == 0 ==> self.broadcast.members() == old_members,
                k > 0 ==> self.broadcast.members() == old_members.insert(
                    session_id,
                    base + panes@.take(k as int),
                ),
                base == if old_members.contains_key(session_id) {
                    old_members[session_id]
                } else {
                    Seq::<PaneId>::empty()
                },
            decreases panes.len() - k,
        {
            self.broadcast.register_pane(session_id, panes[k]);
            assert(base + panes@.take(k + 1) =~= (base + panes@.take(k as int)).push(panes@[k as int]));
            assert(self.broadcast.members() =~= old_members.insert(
                session_id,
                base + panes@.take(k + 1),
            ));
            k = k + 1;
        }
        self.sessions.insert(session_id, pane_view);
        proof {
            let sessions = self.sessions@;
            let members = self.broadcast.members();
            assert(panes@.take(panes@.len() as int) =~= panes@);
            assert(sessions.remove(session_id) =~= old_sessions);
            lemma_leaf_ids_nonempty(fresh);
            assert(members =~= old_members.insert(session_id, base + panes@));
            assert forall|q: PaneId| #[trigger] members[session_id].contains(q) <==> panes@.contains(q) by {
                if members[session_id].contains(q) {
                    let i = choose|i: int| 0 <= i < (base + panes@).len() && (base + panes@)[i] == q;
                    if i < base.len() {
                        assert(base.contains(q));
                    } else {
                        assert(panes@[i - base.len()] == q);
                    }
                }
                if panes@.contains(q) {
                    let i = choose|i: int| 0 <= i < panes@.len() && panes@[i] == q;
                    assert((base + panes@)[base.len() + i] == q);
                }
            }
            assert(ids_below(sessions, self.next_session_id, self.next_pane_id));
            assert(panes_disjoint(sessions));
            assert(registry_matches(members, sessions));
        }
        Some((session_id, pane_map))
    }

    /// Closes the session `id`, unregistering its panes from broadcasting;
    /// returns the panes that were closed with it (none when there is no
    /// such session).
    pub fn close_session(&mut self, id: SessionId) -> (closed: Vec<PaneId>)
        requires
            old(self).wf(),
        ensures
            final(self).wf(),
            session_closed(*old(self), *final(self), id),
            final(self).sessions() == old(self).sessions().remove(id),
            closed@ == if old(self).sessions().contains_key(id) {
                old(self).sessions()[id].tree().leaf_ids()
            } else {
                Seq::empty()
            },
            final(self).next_session() == old(self).next_session(),
            final(self).next_pane() == old(self).next_pane(),
            final(self).registry().current_group() == old(self).registry().current_group(),
            forall|p: PaneId|
                #[trigger] final(self).registry().excluded_panes().contains(p) <==> (old(
                    self,
                ).registry().excluded_panes().contains(p) && !closed@.contains(p)),
            final(self).registry().members() == if old(self).sessions().contains_key(id) {
                old(self).registry().members().insert(id, Seq::empty())
            } else {
                old(self).registry().members()
            },
    {
        let ghost old_sessions = self.sessions@;
        let ghost old_members = self.broadcast.members();
        let ghost old_excluded = self.broadcast.excluded_panes();
        match self.sessions.remove(&id) {
            None => {
                assert(self.sessions@ =~= old_sessions.remove(id));
                Vec::new()
            },
            Some(pane_view) => {
                let panes = pane_view.pane_ids();
                let mut k: usize = 0;
                assert(panes@.take(0) =~= Seq::<PaneId>::empty());
                while k < panes.len()
                    invariant
                        k <= panes.len(),
                        panes@ == old_sessions[id].tree().leaf_ids(),
                        old_sessions.contains_key(id),
                        registry_matches(old_members, old_sessions),
                        self.sessions@ == old_sessions.remove(id),
                        self.next_session_id == old(self).next_session(),
                        self.next_pane_id == old(self).next_pane(),
                        self.broadcast.current_group() == old(self).registry().current_group(),
                        self.broadcast.members().contains_key(id),
                        self.broadcast.members().remove(id) == old_members.remove(id),
                        forall|q: PaneId|
                            #[trigger] self.broadcast.members()[id].contains(q) <==> (panes@.contains(q)
                                && !panes@.take(k as int).contains(q)),
                        forall|q: PaneId|
                            #[trigger] self.broadcast.excluded_panes().contains(q) <==> (
                            old_excluded.contains(q) && !panes@.take(k as int).contains(q)),
                    decreases panes.len() - k,
                {
                    let ghost members = self.broadcast.members();
                    let pane = panes[k];
                    self.broadcast.unregister_pane(id, pane);
                    proof {
                        assert(panes@.take(k + 1) =~= panes@.take(k as int).push(pane));
                        assert forall|q: PaneId|
                            #[trigger] self.broadcast.members()[id].contains(q) <==> (panes@.contains(q)
                                && !panes@.take(k + 1).contains(q)) by {
                            lemma_filter_other_than(members[id], pane, q);
                            lemma_contains_push(panes@.take(k as int), pane, q);
                        }
                        assert forall|q: PaneId|
                            #[trigger] self.broadcast.excluded_panes().contains(q) <==> (
                            old_excluded.contains(q) && !panes@.take(k + 1).contains(q)) by {
                            lemma_contains_push(panes@.take(k as int), pane, q);
                        }
                        assert(self.broadcast.members().remove(id) =~= old_members.remove(id));
                    }
                    k = k + 1;
                }
                proof {
                    assert(panes@.take(panes@.len() as int) =~= panes@);
                    let members = self.broadcast.members();
                    lemma_nothing_is_empty(members[id]);
                    assert(old_members.contains_key(id));
                    assert(members =~= members.remove(id).insert(id, members[id]));
                    assert(old_members.insert(id, Seq::empty()) =~= old_members.remove(id).insert(
                        id,
                        Seq::empty(),
                    ));
                }
                panes
            },
        }
    }

    /// Splits the focused pane of session `session_id`; returns the new
    /// pane. Two ids are drawn from the pane counter, the new pane's and
    /// then the new split's, whether or not the session exists.
    pub fn split_in_session(&mut self, session_id: SessionId, orientation: Orientation) -> (r:
        Option<PaneId>)
        requires
            old(self).wf(),
            old(self).next_pane() < u64::MAX - 1,
        ensures
            final(self).wf(),
            final(self).next_pane() == old(self).next_pane() + 2,
            final(self).next_session() == old(self).next_session(),
            final(self).registry().current_group() == old(self).registry().current_group(),
            final(self).registry().excluded_panes() == old(self).registry().excluded_panes(),
            r is None <==> !old(self).sessions().contains_key(session_id),
            r is None ==> final(self).sessions() == old(self).sessions()
                && final(self).registry().members() == old(self).registry().members(),
            r matches Some(p) ==> {
                let before = old(self).sessions()[session_id];
                let after = final(self).sessions()[session_id];
                &&& p == old(self).next_pane()
                &&& final(self).sessions().contains_key(session_id)
                &&& final(self).sessions().remove(session_id) == old(self).sessions().remove(
                    session_id,
                )
                &&& before.tree().split_result(before.focus(), orientation, p, (p + 1) as u64)
                    == Some(after.tree())
                &&& after.focus() == p
                &&& after.maximized_pane() is None
                &&& final(self).registry().members() == old(self).registry().members().insert(
                    session_id,
                    old(self).registry().members()[session_id].push(p),
                )
            },
    {
        let pane_id = self.next_pane_id;
        let split_id = self.next_pane_id + 1;
        self.next_pane_id = self.next_pane_id + 2;
        let ghost old_sessions = self.sessions@;
        let ghost old_members = self.broadcast.members();
        match self.sessions.remove(&session_id) {
            None => {
                assert(self.sessions@ =~= old_sessions);
                None
            },
            Some(mut pane_view) => {
                let ghost before = pane_view;
                proof {
                    use_type_invariant(&pane_view);
                    law_split_keeps_panes_distinct(
                        before.tree(),
                        before.focus(),
                        orientation,
                        pane_id,
                        split_id,
                    );
                }
                pane_view.split(orientation, pane_id, split_id);
                self.sessions.insert(session_id, pane_view);
                self.broadcast.register_pane(session_id, pane_id);
                proof {
                    let sessions = self.sessions@;
                    let members = self.broadcast.members();
                    assert(sessions.remove(session_id) =~= old_sessions.remove(session_id));
                    assert forall|q: PaneId| #[trigger]
                        members[session_id].contains(q) <==> (old_members[session_id].contains(q)
                            || q == pane_id) by {
                        lemma_contains_push(old_members[session_id], pane_id, q);
                    }
                    assert(ids_below(sessions, self.next_session_id, self.next_pane_id));
                    assert(panes_disjoint(sessions));
                    assert(registry_matches(members, sessions));
                }
                Some(pane_id)
            },
        }
    }

    /// Splits the focused pane of the current session `current`; returns
    /// the session and the new pane.
    pub fn split_focused(&mut self, current: Option<SessionId>, orientation: Orientation) -> (r:
        Option<(SessionId, PaneId)>)
        requires
            old(self).wf(),
            old(self).next_pane() < u64::MAX - 1,
        ensures
            final(self).wf(),
            current is None ==> r is None && *final(self) == *old(self),
            current matches Some(sid) ==> {
                &&& final(self).next_pane() == old(self).next_pane() + 2
                &&& final(self).next_session() == old(self).next_session()
                &&& (r is Some <==> old(self).sessions().contains_key(sid))
                &&& r is None ==> final(self).sessions() == old(self).sessions()
            },
            r matches Some((sid, p)) ==> {
                let before = old(self).sessions()[sid];
                let after = final(self).sessions()[sid];
                &&& current == Some(sid)
                &&& p == old(self).next_pane()
                &&& final(self).sessions().contains_key(sid)
                &&& final(self).sessions().remove(sid) == old(self).sessions().remove(sid)
                &&& before.tree().split_result(before.focus(), orientation, p, (p + 1) as u64)
                    == Some(after.tree())
                &&& after.focus() == p
                &&& after.maximized_pane() is None
            },
    {
        match current {
            None => None,
            Some(session_id) => match self.split_in_session(session_id, orientation) {
                Some(pane_id) => Some((session_id, pane_id)),
                None => None,
            },
        }
    }

    /// Focuses the pane `pane_id` of session `session_id` and splits it;
    /// returns the session and the new pane. Changes nothing and returns
    /// `None` when the session has no such pane.
    pub fn split_pane(&mut self, session_id: SessionId, pane_id: PaneId, orientation: Orientation) -> (r:
        Option<(SessionId, PaneId)>)
        requires
            old(self).wf(),
            old(self).next_pane() < u64::MAX - 1,
        ensures
            final(self).wf(),
            r is Some <==> (old(self).sessions().contains_key(session_id) && old(
                self,
            ).sessions()[session_id].tree().leaf_ids().contains(pane_id)),
            r is None ==> *final(self) == *old(self),
            r matches Some((sid, p)) ==> {
                let before = old(self).sessions()[session_id];
                let after = final(self).sessions()[session_id];
                &&& sid == session_id
                &&& p == old(self).next_pane()
                &&& final(self).sessions().remove(session_id) == old(self).sessions().remove(
                    session_id,
                )
                &&& before.tree().split_result(pane_id, orientation, p, (p + 1) as u64) == Some(
                    after.tree(),
                )
                &&& after.focus() == p
                &&& after.maximized_pane() is None
            },
    {
        let present = match self.sessions.get(&session_id) {
            Some(pane_view) => pane_view.contains_pane(pane_id),
            None => false,
        };
        if !present {
            return None;
        }
        let ghost old_sessions = self.sessions@;
        let ghost mid_members = self.broadcast.members();
        let mut pane_view = match self.sessions.remove(&session_id) {
            Some(pane_view) => pane_view,
            None => {
                return None;
            },
        };
        pane_view.set_focused(pane_id);
        self.sessions.insert(session_id, pane_view);
        proof {
            assert(self.sessions@.remove(session_id) =~= old_sessions.remove(session_id));
            assert(ids_below(self.sessions@, self.next_session_id, self.next_pane_id));
            assert(panes_disjoint(self.sessions@));
            assert(registry_matches(self.broadcast.members(), self.sessions@));
        }
        match self.split_in_session(session_id, orientation) {
            Some(new_id) => Some((session_id, new_id)),
            None => None,
        }
    }

    /// The focused pane of session `session_id`.
    pub fn focused_pane_id(&self, session_id: SessionId) -> (r: Option<PaneId>)
        ensures
            r == if self.sessions().contains_key(session_id) {
                Some(self.sessions()[session_id].focus())
            } else {
                None
            },
    {
        match self.sessions.get(&session_id) {
            Some(pane_view) => Some(pane_view.focused()),
            None => None,
        }
    }

    /// The pane state of session `session_id`.
    pub fn pane_view(&self, session_id: SessionId) -> (r: Option<&PaneView>)
        ensures
            match r {
                Some(v) => self.sessions().contains_key(session_id) && *v == self.sessions()[session_id],
                None => !self.sessions().contains_key(session_id),
            },
    {
        self.sessions.get(&session_id)
    }

    /// The panes of session `session_id`, none when there is no such
    /// session.
    pub fn pane_ids_for(&self, session_id: SessionId) -> (v: Vec<PaneId>)
        ensures
            v@ == panes_of(*self, session_id),
    {
        match self.sessions.get(&session_id) {
            Some(pane_view) => pane_view.pane_ids(),
            None => Vec::new(),
        }
    }

    /// Whether `pane_id` is the maximized pane of session `session_id`.
    pub fn is_maximized(&self, session_id: SessionId, pane_id: PaneId) -> (b: bool)
        ensures
            b == (self.sessions().contains_key(session_id) && self.sessions()[session_id].maximized_pane()
                == Some(pane_id)),
    {
        match self.sessions.get(&session_id) {
            Some(pane_view) => pane_view.is_maximized(pane_id),
            None => false,
        }
    }

    /// Maximizes or restores the pane `pane_id` of session `session_id`;
    /// returns whether it is maximized now (`false` when the session or the
    /// pane does not exist).
    pub fn toggle_maximize(&mut self, session_id: SessionId, pane_id: PaneId) -> (now: bool)
        requires
            old(self).wf(),
        ensures
            final(self).wf(),
            !old(self).sessions().contains_key(session_id) ==> !now && *final(self) == *old(self),
            old(self).sessions().contains_key(session_id) ==> {
                let b = old(self).sessions()[session_id];
                let a = final(self).sessions()[session_id];
                &&& panes_kept(*old(self), *final(self), session_id)
                &&& a.tree() == b.tree()
                &&& a.focus() == b.focus()
                &&& a.maximized_pane() == if b.tree().leaf_ids().contains(pane_id) {
                    toggled_maximized(b.maximized_pane(), pane_id)
                } else {
                    b.maximized_pane()
                }
                &&& now == (b.tree().leaf_ids().contains(pane_id) && a.maximized_pane() == Some(
                    pane_id,
                ))
            },
    {
        if !self.sessions.contains_key(&session_id) {
            return false;
        }
        let ghost old_sessions = self.sessions@;
        match self.sessions.remove(&session_id) {
            None => false,
            Some(mut pane_view) => {
                let now = pane_view.toggle_maximize(pane_id);
                self.sessions.insert(session_id, pane_view);
                assert(self.sessions@.remove(session_id) =~= old_sessions.remove(session_id));
                now
            },
        }
    }

    /// Moves the focus of session `session_id` to its pane `pane_id`, e.g.
    /// the one the user clicked; no change when there is no such pane.
    pub fn set_focused_pane(&mut self, session_id: SessionId, pane_id: PaneId)
        requires
            old(self).wf(),
        ensures
            final(self).wf(),
            !old(self).sessions().contains_key(session_id) ==> *final(self) == *old(self),
            old(self).sessions().contains_key(session_id) ==> {
                let b = old(self).sessions()[session_id];
                let a = final(self).sessions()[session_id];
                &&& panes_kept(*old(self), *final(self), session_id)
                &&& a.tree() == b.tree()
                &&& a.maximized_pane() == b.maximized_pane()
                &&& a.focus() == if b.tree().leaf_ids().contains(pane_id) {
                    pane_id
                } else {
                    b.focus()
                }
            },
    {
        if !self.sessions.contains_key(&session_id) {
            return;
        }
        let ghost old_sessions = self.sessions@;
        match self.sessions.remove(&session_id) {
            None => {},
            Some(mut pane_view) => {
                pane_view.set_focused(pane_id);
                self.sessions.insert(session_id, pane_view);
                assert(self.sessions@.remove(session_id) =~= old_sessions.remove(session_id));
            },
        }
    }

    /// Moves the focus of the current session `current` to the nearest
    /// pane towards `direction`.
    pub fn navigate_focused(&mut self, current: Option<SessionId>, direction: Direction)
        requires
            old(self).wf(),
        ensures
            final(self).wf(),
            match current {
                Some(sid) if old(self).sessions().contains_key(sid) => {
                    let b = old(self).sessions()[sid];
                    let a = final(self).sessions()[sid];
                    &&& panes_kept(*old(self), *final(self), sid)
                    &&& a.tree() == b.tree()
                    &&& a.maximized_pane() == b.maximized_pane()
                    &&& exists|r: Option<PaneId>|
                        #[trigger] is_neighbor_result(
                            b.tree().rects_within(unit_rect()),
                            b.focus(),
                            direction,
                            r,
                        ) && a.focus() == match r {
                            Some(n) => n,
                            None => b.focus(),
                        }
                },
                _ => *final(self) == *old(self),
            },
    {
        let ghost old_sessions = self.sessions@;
        if let Some(session_id) = current {
            if !self.sessions.contains_key(&session_id) {
                return;
            }
            match self.sessions.remove(&session_id) {
                None => {},
                Some(mut pane_view) => {
                    pane_view.navigate(direction);
                    self.sessions.insert(session_id, pane_view);
                    assert(self.sessions@.remove(session_id) =~= old_sessions.remove(session_id));
                },
            }
        }
    }

    /// Grows or shrinks the focused pane of the current session `current`
    /// one step towards `direction`; returns whether a divider moved.
    pub fn resize_focused(&mut self, current: Option<SessionId>, direction: Direction) -> (b: bool)
        requires
            old(self).wf(),
        ensures
            final(self).wf(),
            match current {
                Some(sid) if old(self).sessions().contains_key(sid) => {
                    let before = old(self).sessions()[sid];
                    let after = final(self).sessions()[sid];
                    &&& panes_kept(*old(self), *final(self), sid)
                    &&& after.tree() == resized(before.tree(), before.focus(), direction)
                    &&& after.focus() == before.focus()
                    &&& after.maximized_pane() == before.maximized_pane()
                    &&& b == before.tree().resizable_ancestor(before.focus(), resize_axis(direction)) is Some
                },
                _ => !b && *final(self) == *old(self),
            },
    {
        let ghost old_sessions = self.sessions@;
        match current {
            None => false,
            Some(session_id) => {
                if !self.sessions.contains_key(&session_id) {
                    return false;
                }
                match self.sessions.remove(&session_id) {
                None => false,
                Some(mut pane_view) => {
                    let moved = pane_view.resize_focused(direction);
                    self.sessions.insert(session_id, pane_view);
                    assert(self.sessions@.remove(session_id) =~= old_sessions.remove(session_id));
                    moved
                },
                }
            },
        }
    }

    /// Moves the divider of split `split_id` of session `session_id` to
    /// `ratio` (clamped as `SplitTree::set_ratio` does); returns whether
    /// there was such a split.
    pub fn set_split_ratio(&mut self, session_id: SessionId, split_id: SplitId, ratio: u32) -> (found: bool)
        requires
            old(self).wf(),
        ensures
            final(self).wf(),
            !old(self).sessions().contains_key(session_id) ==> !found && *final(self) == *old(self),
            old(self).sessions().contains_key(session_id) ==> {
                let b = old(self).sessions()[session_id];
                let a = final(self).sessions()[session_id];
                &&& panes_kept(*old(self), *final(self), session_id)
                &&& found == b.tree().split_ids().contains(split_id)
                &&& a.tree() == match b.tree().set_ratio_result(split_id, clamped_ratio(ratio)) {
                    Some(t) => t,
                    None => b.tree(),
                }
                &&& a.focus() == b.focus()
                &&& a.maximized_pane() == b.maximized_pane()
            },
    {
        if !self.sessions.contains_key(&session_id) {
            return false;
        }
        let ghost old_sessions = self.sessions@;
        match self.sessions.remove(&session_id) {
            None => false,
            Some(mut pane_view) => {
                let found = pane_view.set_ratio(split_id, ratio);
                self.sessions.insert(session_id, pane_view);
                assert(self.sessions@.remove(session_id) =~= old_sessions.remove(session_id));
                found
            },
        }
    }

    /// Whether `pane_id` is opted out of broadcasting.
    pub fn is_pane_sync_excluded(&self, pane_id: PaneId) -> (b: bool)
        ensures
            b == self.registry().excluded_panes().contains(pane_id),
    {
        self.broadcast.is_excluded(pane_id)
    }

    /// Opts `pane_id` out of broadcasting, or back in; returns whether it
    /// is excluded now.
    pub fn toggle_pane_sync_exclusion(&mut self, pane_id: PaneId) -> (now_excluded: bool)
        requires
            old(self).wf(),
        ensures
            final(self).wf(),
            final(self).sessions() == old(self).sessions(),
            final(self).registry().current_group() == old(self).registry().current_group(),
            final(self).registry().members() == old(self).registry().members(),
            final(self).registry().excluded_panes() == toggled(
                old(self).registry().excluded_panes(),
                pane_id,
            ),
            now_excluded == final(self).registry().excluded_panes().contains(pane_id),
            final(self).next_session() == old(self).next_session(),
            final(self).next_pane() == old(self).next_pane(),
    {
        self.broadcast.toggle_excluded(pane_id)
    }

    /// The panes that a keystroke typed into `origin_pane` of session
    /// `origin_session` is forwarded to: the other panes of that session
    /// that are not excluded, while broadcasting is on and the origin is
    /// not excluded itself; none otherwise.
    pub fn broadcast_targets(&self, origin_session: SessionId, origin_pane: PaneId) -> (r: Vec<
        PaneId,
    >)
        requires
            self.wf(),
        ensures
            r@ == broadcast_targets(
                self.registry().current_group(),
                self.registry().members(),
                self.registry().excluded_panes(),
                origin_pane,
                origin_session,
            ),
            forall|p: PaneId|
                #[trigger] r@.contains(p) ==> {
                    &&& self.sessions().contains_key(origin_session)
                    &&& self.sessions()[origin_session].tree().leaf_ids().contains(p)
                    &&& p != origin_pane
                    &&& !self.registry().excluded_panes().contains(p)
                },
            self.registry().current_group() == BroadcastGroup::Session
                && !self.registry().excluded_panes().contains(origin_pane)
                && self.sessions().contains_key(origin_session) ==> forall|p: PaneId|
                #[trigger] self.sessions()[origin_session].tree().leaf_ids().contains(p) && p
                    != origin_pane && !self.registry().excluded_panes().contains(p) ==> r@.contains(p),
    {
        let r = self.broadcast.targets(origin_pane, origin_session);
        proof {
            let members = self.broadcast.members();
            let excluded = self.broadcast.excluded_panes();
            let group = self.broadcast.current_group();
            assert forall|p: PaneId| #[trigger] r@.contains(p) implies {
                &&& self.sessions().contains_key(origin_session)
                &&& self.sessions()[origin_session].tree().leaf_ids().contains(p)
                &&& p != origin_pane
                &&& !excluded.contains(p)
            } by {
                law_targets_are_other_session_members(
                    group,
                    members,
                    excluded,
                    origin_pane,
                    origin_session,
                    p,
                );
                assert(members[origin_session].contains(p));
            }
            if group == BroadcastGroup::Session && !excluded.contains(origin_pane)
                && self.sessions().contains_key(origin_session) {
                assert forall|p: PaneId|
                    #[trigger] self.sessions()[origin_session].tree().leaf_ids().contains(p) && p
                        != origin_pane && !excluded.contains(p) implies r@.contains(p) by {
                    assert(members[origin_session].contains(p));
                    law_session_reaches_every_included_member(
                        members,
                        excluded,
                        origin_pane,
                        origin_session,
                        p,
                    );
                }
            }
        }
        r
    }

    /// Closes the focused pane of session `session_id`, or the whole
    /// session when that pane is its last one (or when there is no such
    /// session).
    pub fn close_pane_in_session(&mut self, session_id: SessionId) -> (r: PaneClosing)
        requires
            old(self).wf(),
        ensures
            final(self).wf(),
            match r {
                PaneClosing::PaneClosed(p) => {
                    &&& !old(self).sessions()[session_id].tree().is_leaf()
                    &&& p == old(self).sessions()[session_id].focus()
                    &&& pane_closed(*old(self), *final(self), session_id, p)
                },
                PaneClosing::SessionClosed(s) => {
                    &&& s == session_id
                    &&& old(self).sessions().contains_key(session_id) ==> old(
                        self,
                    ).sessions()[session_id].tree().is_leaf()
                    &&& session_closed(*old(self), *final(self), session_id)
                },
                PaneClosing::Nothing => false,
            },
    {
        let ghost old_sessions = self.sessions@;
        let ghost old_members = self.broadcast.members();
        let closed = match self.sessions.remove(&session_id) {
            None => {
                assert(self.sessions@ =~= old_sessions);
                None
            },
            Some(mut pane_view) => {
                let ghost before = pane_view;
                proof {
                    use_type_invariant(&pane_view);
                    if !before.tree().is_leaf() {
                        law_close_removes_only_target(before.tree(), before.focus());
                    }
                }
                let closed = pane_view.close_focused();
                self.sessions.insert(session_id, pane_view);
                proof {
                    if closed is None {
                        assert(self.sessions@ =~= old_sessions);
                    } else {
                        assert(self.sessions@.remove(session_id) =~= old_sessions.remove(session_id));
                    }
                }
                closed
            },
        };
        match closed {
            Some(pane_id) => {
                self.broadcast.unregister_pane(session_id, pane_id);
                proof {
                    let sessions = self.sessions@;
                    let members = self.broadcast.members();
                    assert forall|q: PaneId| #[trigger]
                        members[session_id].contains(q) <==> (old_members[session_id].contains(q)
                            && q != pane_id) by {
                        lemma_filter_other_than(old_members[session_id], pane_id, q);
                    }
                    assert(ids_below(sessions, self.next_session_id, self.next_pane_id));
                    assert(panes_disjoint(sessions));
                    assert(registry_matches(members, sessions));
                }
                PaneClosing::PaneClosed(pane_id)
            },
            None => {
                self.close_session(session_id);
                PaneClosing::SessionClosed(session_id)
            },
        }
    }

    /// Closes the pane `pane_id` of session `session_id`, whether focused
    /// or not, or the whole session when it is its last pane. Changes
    /// nothing and returns `Nothing` when there is no such pane.
    pub fn close_pane(&mut self, session_id: SessionId, pane_id: PaneId) -> (r: PaneClosing)
        requires
            old(self).wf(),
        ensures
            final(self).wf(),
            r is Nothing <==> !(old(self).sessions().contains_key(session_id) && old(
                self,
            ).sessions()[session_id].tree().leaf_ids().contains(pane_id)),
            r is Nothing ==> *final(self) == *old(self),
            r matches PaneClosing::PaneClosed(p) ==> p == pane_id && !old(
                self,
            ).sessions()[session_id].tree().is_leaf() && pane_closed(
                *old(self),
                *final(self),
                session_id,
                p,
            ),
            r matches PaneClosing::SessionClosed(s) ==> s == session_id && old(
                self,
            ).sessions()[session_id].tree().is_leaf() && session_closed(
                *old(self),
                *final(self),
                session_id,
            ),
    {
        let present = match self.sessions.get(&session_id) {
            Some(pane_view) => pane_view.contains_pane(pane_id),
            None => false,
        };
        if !present {
            return PaneClosing::Nothing;
        }
        self.set_focused_pane(session_id, pane_id);
        self.close_pane_in_session(session_id)
    }

    /// Closes the focused pane of the current session `current`, or the
    /// whole session when that pane is its last one.
    pub fn close_focused_pane(&mut self, current: Option<SessionId>) -> (r: PaneClosing)
        requires
            old(self).wf(),
        ensures
            final(self).wf(),
            current is None ==> r is Nothing && *final(self) == *old(self),
            current matches Some(sid) ==> match r {
                PaneClosing::PaneClosed(p) => {
                    &&& !old(self).sessions()[sid].tree().is_leaf()
                    &&& p == old(self).sessions()[sid].focus()
                    &&& pane_closed(*old(self), *final(self), sid, p)
                },
                PaneClosing::SessionClosed(s) => {
                    &&& s == sid
                    &&& old(self).sessions().contains_key(sid) ==> old(
                        self,
                    ).sessions()[sid].tree().is_leaf()
                    &&& session_closed(*old(self), *final(self), sid)
                },
                PaneClosing::Nothing => false,
            },
    {
        match current {
            None => PaneClosing::Nothing,
            Some(session_id) => self.close_pane_in_session(session_id),
        }
    }
}

impl Default for SessionView {
    /// The same as `SessionView::new`.
    fn default() -> (v: Self)
        ensures
            v.wf(),
            v.sessions().dom() == set![0u64],
            v.sessions()[0].tree() == SplitTree::Leaf(0),
            v.next_session() == 1,
            v.next_pane() == 1,
            v.registry().current_group() == BroadcastGroup::Off,
            v.registry().members() == map![0u64 => seq![0u64]],
            v.registry().excluded_panes() == Set::<PaneId>::empty(),
    {
        Self::new()
    }
}

/// Whatever the operations did, a window's state keeps its invariant: no
/// pane belongs to two sessions, every id in use lies below the counters
/// that hand out new ones, and the broadcast registry lists exactly the
/// panes of each open session.
pub proof fn law_sessions_stay_consistent(v: SessionView)
    requires
        v.wf(),
    ensures
        panes_disjoint(v.sessions()),
        ids_below(v.sessions(), v.next_session(), v.next_pane()),
        registry_matches(v.registry().members(), v.sessions()),
{
}

} // verus!
