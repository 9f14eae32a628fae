//! What a pane's header bar shows, apart from its widgets: the live title
//! and the looks of its sync and maximize buttons, plus the labels of the
//! broadcast entries of a pane's context menu.
use vstd::prelude::*;

use crate::layout::PaneId;
use crate::terminal::broadcast::BroadcastGroup;
use crate::terminal::title::{render_template, rendered_from, TitleContext, DEFAULT_TEMPLATE};
use crate::text::{append_chars, blank, chars_of, is_blank, owned, string_from_chars};

verus! {

broadcast use vstd::string::group_string_axioms;

/// The characters of an optional string.
pub open spec fn string_view(s: Option<String>) -> Option<Seq<char>> {
    match s {
        Some(t) => Some(t@),
        None => None,
    }
}

/// The live title state of one pane's header: what the terminal last
/// reported (its OSC 0/2 title and OSC 7 directory), and the text the user
/// typed over the title, if any. Clearing the typed text back to blank
/// restores the template.
pub struct PaneTitleState {
    pub raw_title: Option<String>,
    pub directory: Option<String>,
    pub override_text: Option<String>,
}

fn as_str_opt(s: &Option<String>) -> (r: Option<&str>)
    ensures
        match r {
            Some(t) => s matches Some(o) && t@ == o@,
            None => s is None,
        },
{
    match s {
        Some(t) => Some(t.as_str()),
        None => None,
    }
}

impl PaneTitleState {
    /// Nothing reported or typed yet.
    pub fn new() -> (s: Self)
        ensures
            s.raw_title is None,
            s.directory is None,
            s.override_text is None,
    {
        PaneTitleState { raw_title: None, directory: None, override_text: None }
    }

    /// The header text of pane `pane_id` on host `host` for user `user`:
    /// the text the user typed, if any; otherwise `DEFAULT_TEMPLATE`
    /// rendered with what the terminal reported.
    pub fn text(&self, pane_id: PaneId, host: Option<&str>, user: Option<&str>) -> (t: String)
        ensures
            t@ == match self.override_text {
                Some(o) => o@,
                None => rendered_from(
                    DEFAULT_TEMPLATE@,
                    pane_id,
                    string_view(self.raw_title),
                    string_view(self.directory),
                    match host {
                        Some(h) => Some(h@),
                        None => None,
                    },
                    match user {
                        Some(u) => Some(u@),
                        None => None,
                    },
                ),
            },
    {
        match &self.override_text {
            Some(text) => owned(text.as_str()),
            None => {
                let ctx = TitleContext {
                    id: pane_id,
                    title: as_str_opt(&self.raw_title),
                    directory: as_str_opt(&self.directory),
                    host,
                    user,
                };
                render_template(DEFAULT_TEMPLATE, &ctx)
            },
        }
    }

    /// Takes in what the user typed over the title: blank text clears the
    /// override, anything else becomes it.
    pub fn set_override(&mut self, typed: &str)
        ensures
            final(self).raw_title == old(self).raw_title,
            final(self).directory == old(self).directory,
            string_view(final(self).override_text) == if blank(typed@) {
                None
            } else {
                Some(typed@)
            },
    {
        if is_blank(typed) {
            self.override_text = None;
        } else {
            self.override_text = Some(owned(typed));
        }
    }
}

/// The icon of a pane's maximize button.
pub fn maximize_icon_name(maximized: bool) -> (name: &'static str)
    ensures
        name@ == if maximized {
            "view-restore-symbolic"@
        } else {
            "view-fullscreen-symbolic"@
        },
{
    if maximized {
        "view-restore-symbolic"
    } else {
        "view-fullscreen-symbolic"
    }
}

/// The tooltip of a pane's maximize button.
pub fn maximize_tooltip(maximized: bool) -> (text: &'static str)
    ensures
        text@ == if maximized {
            "Restaurer le pane"@
        } else {
            "Maximiser le pane"@
        },
{
    if maximized {
        "Restaurer le pane"
    } else {
        "Maximiser le pane"
    }
}

/// The icon of a pane's sync button: marked unavailable while the pane is
/// opted out of broadcasting.
pub fn sync_icon_name(excluded: bool) -> (name: &'static str)
    ensures
        name@ == if excluded {
            "action-unavailable-symbolic"@
        } else {
            "input-keyboard-symbolic"@
        },
{
    if excluded {
        "action-unavailable-symbolic"
    } else {
        "input-keyboard-symbolic"
    }
}

/// The tooltip of a pane's sync button.
pub fn sync_tooltip(excluded: bool) -> (text: &'static str)
    ensures
        text@ == if excluded {
            "Saisie synchro : désactivée pour ce pane (cliquer pour réactiver)"@
        } else {
            "Saisie synchro active pour ce pane (cliquer pour désactiver)"@
        },
{
    if excluded {
        "Saisie synchro : désactivée pour ce pane (cliquer pour réactiver)"
    } else {
        "Saisie synchro active pour ce pane (cliquer pour désactiver)"
    }
}

/// The name of a broadcast group in a pane's context menu.
pub open spec fn group_label(group: BroadcastGroup) -> Seq<char> {
    match group {
        BroadcastGroup::Off => "Saisie synchro : aucune"@,
        BroadcastGroup::Session => "Saisie synchro : session"@,
    }
}

/// The context-menu entry that selects `group`, checked when `group` is
/// the `current` one.
pub fn broadcast_menu_label(group: BroadcastGroup, current: BroadcastGroup) -> (label: String)
    ensures
        label@ == if group == current {
            "✓ "@ + group_label(group)
        } else {
            group_label(group)
        },
{
    let name = match group {
        BroadcastGroup::Off => chars_of("Saisie synchro : aucune"),
        BroadcastGroup::Session => chars_of("Saisie synchro : session"),
    };
    if group == current {
        let mut out = chars_of("✓ ");
        append_chars(&mut out, &name);
        string_from_chars(&out)
    } else {
        string_from_chars(&name)
    }
}

} // verus!
