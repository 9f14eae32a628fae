//! What a saved session file holds, and where the last session is saved.
use std::collections::HashMap;

use vstd::prelude::*;

use crate::layout::{PaneId, SplitTree};
use crate::profile::ProfileId;
use crate::terminal::broadcast::{BroadcastGroup, SessionId};
use crate::terminal::title::str_view;
use crate::text::{append_chars, chars_of, string_from_chars};

verus! {

broadcast use vstd::string::group_string_axioms;

/// Per-pane extras that live outside the tree's own shape (which is just
/// ids + orientation + ratio). Keyed by the `PaneId` the tree had *at save
/// time* — restoring maps that back onto the fresh ids
/// `SplitTree::remap_ids` hands out for this process.
#[derive(Debug, Clone)]
pub struct PaneMeta {
    /// The shell's working directory, if the terminal reported one via
    /// OSC 7. `None` means "spawn wherever a brand new terminal normally
    /// would" — same as Tilix, only layout/cwd/profile are restored, not
    /// shell state.
    pub cwd: Option<String>,
}

impl Default for PaneMeta {
    fn default() -> (m: Self)
        ensures
            m.cwd is None,
    {
        PaneMeta { cwd: None }
    }
}

#[derive(Debug)]
pub struct SavedSession {
    pub name: String,
    pub profile_id: ProfileId,
    pub tree: SplitTree,
    pub pane_meta: HashMap<PaneId, PaneMeta>,
}

#[derive(Debug)]
pub struct SavedWindow {
    pub sessions: Vec<SavedSession>,
    pub active_session_index: usize,
    pub window_width: i32,
    pub window_height: i32,
    pub broadcast_group: BroadcastGroup,
}

/// `base` with the relative component `part` appended, the way a path
/// grows on Unix: a `/` goes between them unless `base` is empty or
/// already ends in one.
pub open spec fn path_pushed(base: Seq<char>, part: Seq<char>) -> Seq<char> {
    if base.len() == 0 || base.last() == '/' {
        base + part
    } else {
        base + seq!['/'] + part
    }
}

/// The directory for state files: `$XDG_STATE_HOME` if set and not empty,
/// otherwise `$HOME/.local/state` (with `/` for a missing `$HOME`),
/// following the XDG Base Directory spec and glib's own fallback.
pub open spec fn state_dir(xdg_state_home: Option<Seq<char>>, home: Option<Seq<char>>) -> Seq<char> {
    match xdg_state_home {
        Some(x) if x.len() > 0 => x,
        _ => path_pushed(
            path_pushed(
                match home {
                    Some(h) => h,
                    None => "/"@,
                },
                ".local"@,
            ),
            "state"@,
        ),
    }
}

fn push_path(base: &mut Vec<char>, part: &str)
    ensures
        final(base)@ == path_pushed(old(base)@, part@),
{
    if base.len() > 0 && base[base.len() - 1] != '/' {
        base.push('/');
    }
    append_chars(base, &chars_of(part));
}


/// Where a clean shutdown auto-saves to, and where a fresh launch
/// auto-restores from if present: `rutile/last-session.toml` under the
/// state directory, given the values of `$XDG_STATE_HOME` and `$HOME`.
pub fn last_session_path(xdg_state_home: Option<&str>, home: Option<&str>) -> (path: String)
    ensures
        path@ == path_pushed(
            path_pushed(state_dir(str_view(xdg_state_home), str_view(home)), "rutile"@),
            "last-session.toml"@,
        ),
{
    let xdg = match xdg_state_home {
        Some(x) => chars_of(x),
        None => Vec::new(),
    };
    let mut path = if xdg.len() > 0 {
        xdg
    } else {
        let mut p = match home {
            Some(h) => chars_of(h),
            None => chars_of("/"),
        };
        push_path(&mut p, ".local");
        push_path(&mut p, "state");
        p
    };
    push_path(&mut path, "rutile");
    push_path(&mut path, "last-session.toml");
    string_from_chars(&path)
}


/// The position of the selected session `current` among the sessions
/// `ids` in tab order, or 0 when no session is selected or it is not
/// among them.
pub fn active_session_index(ids: &Vec<SessionId>, current: Option<SessionId>) -> (i: usize)
    ensures
        match current {
            Some(c) => if ids@.contains(c) {
                i < ids.len() && ids@[i as int] == c && forall|k: int| 0 <= k < i ==> ids@[k] != c
            } else {
                i == 0
            },
            None => i == 0,
        },
{
    match current {
        None => 0,
        Some(c) => {
            let mut k: usize = 0;
            while k < ids.len()
                invariant
                    k <= ids.len(),
                    current == Some(c),
                    forall|j: int| 0 <= j < k ==> ids@[j] != c,
                decreases ids.len() - k,
            {
                if ids[k] == c {
                    assert(ids@.contains(c)) by {
                        assert(ids@[k as int] == c);
                    }
                    return k;
                }
                k = k + 1;
            }
            0
        },
    }
}

} // verus!
