//! Persisted user preferences.
use vstd::prelude::*;

use crate::profile::model::ProfileStore;
use crate::text::{owned, same_text};

verus! {

broadcast use vstd::string::group_string_axioms;

/// Persisted user preferences. Defaults match Tilix's own defaults for the
/// equivalent settings (both boxes ship checked in Tilix's General page),
/// since this is meant to be a drop-in replacement.
#[derive(Debug, Clone)]
pub struct Preferences {
    /// Give focus to a pane when the mouse hovers over it, without needing
    /// a click. When `false`, focus only follows explicit clicks.
    pub focus_follows_mouse: bool,
    /// Close the whole window once the last session is closed, instead of
    /// leaving an empty window open.
    pub close_window_on_last_session_closed: bool,
    /// Automatically copy the terminal selection to the clipboard as soon as
    /// it's made, instead of requiring an explicit "Copy".
    pub copy_on_select: bool,
    /// Ctrl+Click-to-open for OSC 8 hyperlinks and plain filesystem paths
    /// in terminal output. Defaults on since it's a strictly additive,
    /// opt-out affordance.
    pub enable_hyperlinks: bool,
    /// Background pane notifications (bell + "command finished after
    /// silence"). A single global on/off switch — the *timing* of the
    /// silence trigger is per-profile (`Profile::silence_seconds`).
    pub enable_notifications: bool,
    /// Which profile new sessions are created with.
    pub default_profile_id: String,
    /// Ask before closing a pane or session whose shell is running a
    /// command (Tilix parity).
    pub prompt_on_close_with_process: bool,
}

impl Default for Preferences {
    fn default() -> (p: Self)
        ensures
            p.focus_follows_mouse,
            p.close_window_on_last_session_closed,
            p.copy_on_select,
            p.enable_hyperlinks,
            p.enable_notifications,
            p.default_profile_id@ == "default"@,
            p.prompt_on_close_with_process,
    {
        Self {
            focus_follows_mouse: true,
            close_window_on_last_session_closed: true,
            copy_on_select: true,
            enable_hyperlinks: true,
            enable_notifications: true,
            default_profile_id: String::from_str("default"),
            prompt_on_close_with_process: true,
        }
    }
}

impl Preferences {
    /// Keeps the default profile pointing at a profile that exists once the
    /// profile `deleted_id` has been deleted from `profiles`: when it was
    /// the default, the first remaining profile becomes the default.
    /// Returns whether the default changed (and so wants saving).
    pub fn profile_deleted(&mut self, deleted_id: &str, profiles: &ProfileStore) -> (changed: bool)
        ensures
            changed == (old(self).default_profile_id@ == deleted_id@ && profiles.profiles().len()
                > 0),
            final(self).default_profile_id@ == if changed {
                profiles.profiles()[0].id
            } else {
                old(self).default_profile_id@
            },
            final(self).focus_follows_mouse == old(self).focus_follows_mouse,
            final(self).close_window_on_last_session_closed == old(
                self,
            ).close_window_on_last_session_closed,
            final(self).copy_on_select == old(self).copy_on_select,
            final(self).enable_hyperlinks == old(self).enable_hyperlinks,
            final(self).enable_notifications == old(self).enable_notifications,
            final(self).prompt_on_close_with_process == old(self).prompt_on_close_with_process,
    {
        if !same_text(self.default_profile_id.as_str(), deleted_id) {
            return false;
        }
        let all = profiles.iter();
        if all.len() == 0 {
            return false;
        }
        assert(all@.map_values(|p: crate::profile::model::Profile| p@)[0] == all@[0]@);
        self.default_profile_id = owned(all[0].id.as_str());
        true
    }
}

} // verus!
