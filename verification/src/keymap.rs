//! The user-editable keybinding table: which key chord triggers which
//! action. Chords are stored as text such as `"Ctrl+Shift+O"`; a key is
//! named by the toolkit's key name and modifiers are the toolkit's modifier
//! bits (`SHIFT_MASK`, `CONTROL_MASK`, `ALT_MASK`).
use vstd::prelude::*;

use crate::layout::{Direction, Orientation};
use crate::text::{
    append_chars, chars_of, decimal, lemma_decimal_injective, lemma_decimal_len, push_decimal, same_chars,
    same_text, string_from_chars,
};

verus! {

broadcast use vstd::string::group_string_axioms;

/// The Shift modifier bit.
pub const SHIFT_MASK: u32 = 1;

/// The Control modifier bit.
pub const CONTROL_MASK: u32 = 4;

/// The Alt modifier bit.
pub const ALT_MASK: u32 = 8;

/// The modifier bits a chord can hold; any other bit of a key event's
/// state (e.g. NumLock/CapsLock lock bits) is ignored.
pub const RELEVANT_MODIFIERS: u32 = 13;

/// Control and Shift.
pub const CTRL_SHIFT: u32 = 5;

/// Control, Shift and Alt.
pub const CTRL_SHIFT_ALT: u32 = 13;

/// Actions dispatchable from the keyboard.
#[derive(Debug, Clone, Copy, PartialEq, Eq, Hash, Structural)]
pub enum Action {
    SplitHorizontal,
    SplitVertical,
    ClosePane,
    Navigate(Direction),
    NewSession,
    CloseSession,
    NextSession,
    PrevSession,
    ToggleSearch,
    Copy,
    Paste,
    /// Jumps directly to the Nth session in tab order (1-indexed, matching
    /// what's shown to the user — `SwitchToSession(1)` is the first tab).
    SwitchToSession(u8),
    ResizePane(Direction),
    ToggleSyncCurrentPane,
    RenameSession,
    RenamePane,
    DetachSession,
    CopyAsHtml,
    PasteAdvanced,
    ToggleMargin,
}

/// One user-editable entry: which key+modifier chord triggers which action.
struct Binding {
    /// e.g. `"Ctrl+Shift+O"`.
    chord: String,
    action: Action,
}

/// The user's keybinding table, in table order.
pub struct Keymap {
    bindings: Vec<Binding>,
}

// ---------------------------------------------------------------------------
// Chords as text.
// ---------------------------------------------------------------------------

/// The bits of `state` that a chord can hold.
pub open spec fn relevant_bits(state: u32) -> u32 {
    state & RELEVANT_MODIFIERS
}

/// Whether `mods` has every bit of `mask`.
pub open spec fn has_mask(mods: u32, mask: u32) -> bool {
    mods & mask == mask
}

/// `"Ctrl+"`, `"Shift+"` and `"Alt+"` for the modifiers `mods` holds, in
/// that order, followed by the key's name.
pub open spec fn chord_text(key_name: Seq<char>, mods: u32) -> Seq<char> {
    (if has_mask(mods, CONTROL_MASK) {
        "Ctrl+"@
    } else {
        Seq::empty()
    }) + (if has_mask(mods, SHIFT_MASK) {
        "Shift+"@
    } else {
        Seq::empty()
    }) + (if has_mask(mods, ALT_MASK) {
        "Alt+"@
    } else {
        Seq::empty()
    }) + key_name
}

/// The parts of `s` between `+` signs, the current part so far being `cur`.
pub open spec fn split_parts_from(s: Seq<char>, cur: Seq<char>) -> Seq<Seq<char>>
    decreases s.len(),
{
    if s.len() == 0 {
        seq![cur]
    } else if s[0] == '+' {
        seq![cur] + split_parts_from(s.skip(1), Seq::empty())
    } else {
        split_parts_from(s.skip(1), cur.push(s[0]))
    }
}

/// The parts of `s` between `+` signs (there is always at least one).
pub open spec fn chord_parts(s: Seq<char>) -> Seq<Seq<char>> {
    split_parts_from(s, Seq::empty())
}

/// The modifier bit a chord part names, or 0 for a key name.
pub open spec fn part_mask(part: Seq<char>) -> u32 {
    if part == "Ctrl"@ {
        CONTROL_MASK
    } else if part == "Shift"@ {
        SHIFT_MASK
    } else if part == "Alt"@ {
        ALT_MASK
    } else {
        0
    }
}

/// The modifier bits the parts name.
pub open spec fn parts_mask(parts: Seq<Seq<char>>) -> u32
    decreases parts.len(),
{
    if parts.len() == 0 {
        0
    } else {
        parts_mask(parts.drop_last()) | part_mask(parts.last())
    }
}

/// The last part that is not a modifier name: the chord's key.
pub open spec fn parts_key(parts: Seq<Seq<char>>) -> Option<Seq<char>>
    decreases parts.len(),
{
    if parts.len() == 0 {
        None
    } else if part_mask(parts.last()) != 0 {
        parts_key(parts.drop_last())
    } else {
        Some(parts.last())
    }
}

/// Formats a key name and modifiers as chord text, e.g. `"Ctrl+Shift+O"`.
pub fn format_chord(key_name: &str, modifiers: u32) -> (chord: String)
    ensures
        chord@ == chord_text(key_name@, modifiers),
{
    let mut out: Vec<char> = Vec::new();
    if modifiers & CONTROL_MASK == CONTROL_MASK {
        append_chars(&mut out, &chars_of("Ctrl+"));
    }
    if modifiers & SHIFT_MASK == SHIFT_MASK {
        append_chars(&mut out, &chars_of("Shift+"));
    }
    if modifiers & ALT_MASK == ALT_MASK {
        append_chars(&mut out, &chars_of("Alt+"));
    }
    append_chars(&mut out, &chars_of(key_name));
    assert(out@ =~= chord_text(key_name@, modifiers));
    string_from_chars(&out)
}

fn split_parts(s: &Vec<char>) -> (parts: Vec<Vec<char>>)
    ensures
        parts@.map_values(|p: Vec<char>| p@) == chord_parts(s@),
{
    let mut parts: Vec<Vec<char>> = Vec::new();
    let mut cur: Vec<char> = Vec::new();
    let mut i: usize = 0;
    assert(s@.skip(0) =~= s@);
    while i < s.len()
        invariant
            i <= s.len(),
            chord_parts(s@) == parts@.map_values(|p: Vec<char>| p@) + split_parts_from(
                s@.skip(i as int),
                cur@,
            ),
        decreases s.len() - i,
    {
        let ghost rest = s@.skip(i as int);
        assert(rest[0] == s@[i as int]);
        assert(rest.skip(1) =~= s@.skip(i + 1));
        if s[i] == '+' {
            let ghost before = parts@.map_values(|p: Vec<char>| p@);
            let ghost curv = cur@;
            parts.push(cur);
            cur = Vec::new();
            assert(parts@.map_values(|p: Vec<char>| p@) =~= before.push(curv));
            assert(before + split_parts_from(rest, curv) =~= before.push(curv) + split_parts_from(
                rest.skip(1),
                Seq::empty(),
            ));
        } else {
            cur.push(s[i]);
        }
        i = i + 1;
    }
    assert(s@.skip(i as int) =~= Seq::<char>::empty());
    let ghost before = parts@.map_values(|p: Vec<char>| p@);
    let ghost curv = cur@;
    parts.push(cur);
    assert(parts@.map_values(|p: Vec<char>| p@) =~= before.push(curv));
    assert(before + seq![curv] =~= before.push(curv));
    parts
}

fn part_mask_of(part: &Vec<char>) -> (m: u32)
    ensures
        m == part_mask(part@),
{
    if same_chars(part, &chars_of("Ctrl")) {
        CONTROL_MASK
    } else if same_chars(part, &chars_of("Shift")) {
        SHIFT_MASK
    } else if same_chars(part, &chars_of("Alt")) {
        ALT_MASK
    } else {
        0
    }
}

/// Splits chord text into its key name (the last part that isn't a
/// modifier name, `None` when every part is one) and its modifier bits.
pub fn parse_chord(chord: &str) -> (parsed: (Option<String>, u32))
    ensures
        match parsed.0 {
            Some(name) => parts_key(chord_parts(chord@)) == Some(name@),
            None => parts_key(chord_parts(chord@)) is None,
        },
        parsed.1 == parts_mask(chord_parts(chord@)),
{
    let parts = split_parts(&chars_of(chord));
    let ghost pv = parts@.map_values(|p: Vec<char>| p@);
    let mut mods: u32 = 0;
    let mut key: Option<usize> = None;
    let mut i: usize = 0;
    while i < parts.len()
        invariant
            i <= parts.len(),
            pv == parts@.map_values(|p: Vec<char>| p@),
            mods == parts_mask(pv.take(i as int)),
            match key {
                Some(k) => k < i && parts_key(pv.take(i as int)) == Some(pv[k as int]),
                None => parts_key(pv.take(i as int)) is None,
            },
        decreases parts.len() - i,
    {
        assert(pv.take(i + 1).drop_last() =~= pv.take(i as int));
        assert(pv.take(i + 1).last() == pv[i as int]);
        let m = part_mask_of(&parts[i]);
        mods = mods | m;
        if m == 0 {
            key = Some(i);
        }
        i = i + 1;
    }
    assert(pv.take(parts.len() as int) =~= pv);
    let name = match key {
        Some(k) => Some(string_from_chars(&parts[k])),
        None => None,
    };
    (name, mods)
}

/// The chord of the first binding of `action`.
pub open spec fn chord_of(table: Seq<(Action, Seq<char>)>, action: Action) -> Option<Seq<char>>
    decreases table.len(),
{
    if table.len() == 0 {
        None
    } else if table[0].0 == action {
        Some(table[0].1)
    } else {
        chord_of(table.drop_first(), action)
    }
}

/// The position of the first binding of `action`.
pub open spec fn position_of(table: Seq<(Action, Seq<char>)>, action: Action) -> Option<int>
    decreases table.len(),
{
    if table.len() == 0 {
        None
    } else if table[0].0 == action {
        Some(0)
    } else {
        match position_of(table.drop_first(), action) {
            Some(i) => Some(i + 1),
            None => None,
        }
    }
}

/// Whether the binding `(action, chord)` triggers for the key `key` with
/// modifiers `mods`, the binding's key name having been resolved to
/// `resolved`.
pub open spec fn triggers(binding: (Action, Seq<char>), resolved: Option<u32>, key: u32, mods: u32) -> bool {
    resolved == Some(key) && parts_mask(chord_parts(binding.1)) == mods
}

/// The action of the first binding that triggers for `key` with `mods`.
pub open spec fn first_triggered(
    table: Seq<(Action, Seq<char>)>,
    resolved: Seq<Option<u32>>,
    key: u32,
    mods: u32,
) -> Option<Action>
    decreases table.len(),
{
    if table.len() == 0 || resolved.len() == 0 {
        None
    } else if triggers(table[0], resolved[0], key, mods) {
        Some(table[0].0)
    } else {
        first_triggered(table.drop_first(), resolved.drop_first(), key, mods)
    }
}

/// Keeps every binding except those of another action on `chord`.
pub open spec fn not_taken_from(action: Action, chord: Seq<char>) -> spec_fn(
    (Action, Seq<char>),
) -> bool {
    |b: (Action, Seq<char>)| b.1 != chord || b.0 == action
}

/// The table after binding `action` to `chord`: every other action bound
/// to `chord` loses that binding, then the first binding of `action` gets
/// the chord (or one is appended if `action` had none).
pub open spec fn rebound(table: Seq<(Action, Seq<char>)>, action: Action, chord: Seq<char>) -> Seq<
    (Action, Seq<char>),
> {
    let kept = table.filter(not_taken_from(action, chord));
    match position_of(kept, action) {
        Some(i) => kept.update(i, (action, chord)),
        None => kept.push((action, chord)),
    }
}

impl Keymap {
    /// The bindings as `(action, chord)` pairs, in table order.
    pub closed spec fn table(&self) -> Seq<(Action, Seq<char>)> {
        self.bindings@.map_values(|b: Binding| (b.action, b.chord@))
    }

    /// A keymap with the given `(action, chord)` bindings, in order.
    pub fn from_entries(entries: Vec<(Action, String)>) -> (k: Keymap)
        ensures
            k.table() == entries@.map_values(|e: (Action, String)| (e.0, e.1@)),
    {
        let ghost all = entries@.map_values(|e: (Action, String)| (e.0, e.1@));
        let mut entries = entries;
        let mut bindings: Vec<Binding> = Vec::new();
        while entries.len() > 0
            invariant
                all == bindings@.map_values(|b: Binding| (b.action, b.chord@)) + entries@.map_values(
                    |e: (Action, String)| (e.0, e.1@),
                ),
            decreases entries.len(),
        {
            let ghost before = entries@;
            let e = entries.remove(0);
            let ghost done = bindings@.map_values(|b: Binding| (b.action, b.chord@));
            bindings.push(Binding { chord: e.1, action: e.0 });
            assert(bindings@.map_values(|b: Binding| (b.action, b.chord@)) =~= done.push((e.0, e.1@)));
            assert(before.map_values(|e: (Action, String)| (e.0, e.1@)) =~= seq![(e.0, e.1@)]
                + entries@.map_values(|e: (Action, String)| (e.0, e.1@)));
            assert(done + before.map_values(|e: (Action, String)| (e.0, e.1@)) =~= done.push(
                (e.0, e.1@),
            ) + entries@.map_values(|e: (Action, String)| (e.0, e.1@)));
        }
        assert(entries@.map_values(|e: (Action, String)| (e.0, e.1@)) =~= Seq::<
            (Action, Seq<char>),
        >::empty());
        assert(all =~= bindings@.map_values(|b: Binding| (b.action, b.chord@)));
        Keymap { bindings }
    }

    /// Every `(action, chord)` pair, in table order — for the Preferences
    /// page to render one row per action.
    pub fn entries(&self) -> (v: Vec<(Action, String)>)
        ensures
            v@.map_values(|e: (Action, String)| (e.0, e.1@)) == self.table(),
    {
        let mut v: Vec<(Action, String)> = Vec::new();
        let mut i: usize = 0;
        while i < self.bindings.len()
            invariant
                i <= self.bindings.len(),
                v@.map_values(|e: (Action, String)| (e.0, e.1@)) == self.table().take(i as int),
            decreases self.bindings.len() - i,
        {
            let b = &self.bindings[i];
            let ghost before = v@.map_values(|e: (Action, String)| (e.0, e.1@));
            v.push((b.action, b.chord.clone()));
            assert(v@.map_values(|e: (Action, String)| (e.0, e.1@)) =~= before.push(
                (b.action, b.chord@),
            ));
            assert(self.table().take(i + 1) =~= self.table().take(i as int).push(self.table()[i as int]));
            i = i + 1;
        }
        assert(self.table().take(self.bindings.len() as int) =~= self.table());
        v
    }

    /// The chord currently bound to `action`, formatted for display (e.g. in
    /// the Preferences "Shortcuts" page). `None` if nothing is bound to it.
    pub fn chord_for(&self, action: Action) -> (chord: Option<String>)
        ensures
            match chord {
                Some(c) => chord_of(self.table(), action) == Some(c@),
                None => chord_of(self.table(), action) is None,
            },
    {
        let mut i: usize = 0;
        assert(self.table().skip(0) =~= self.table());
        while i < self.bindings.len()
            invariant
                i <= self.bindings.len(),
                chord_of(self.table(), action) == chord_of(self.table().skip(i as int), action),
            decreases self.bindings.len() - i,
        {
            assert(self.table().skip(i as int)[0] == self.table()[i as int]);
            if self.bindings[i].action == action {
                return Some(self.bindings[i].chord.clone());
            }
            assert(self.table().skip(i as int).drop_first() =~= self.table().skip(i + 1));
            i = i + 1;
        }
        None
    }

    /// The key name of each binding's chord (see `parse_chord`), in table
    /// order — for the caller to resolve into key codes for `lookup`.
    pub fn key_names(&self) -> (names: Vec<Option<String>>)
        ensures
            names.len() == self.table().len(),
            forall|i: int|
                0 <= i < names.len() ==> match #[trigger] names@[i] {
                    Some(n) => parts_key(chord_parts(self.table()[i].1)) == Some(n@),
                    None => parts_key(chord_parts(self.table()[i].1)) is None,
                },
    {
        let mut names: Vec<Option<String>> = Vec::new();
        let mut i: usize = 0;
        while i < self.bindings.len()
            invariant
                i <= self.bindings.len(),
                names.len() == i,
                forall|k: int|
                    0 <= k < i ==> match #[trigger] names@[k] {
                        Some(n) => parts_key(chord_parts(self.table()[k].1)) == Some(n@),
                        None => parts_key(chord_parts(self.table()[k].1)) is None,
                    },
            decreases self.bindings.len() - i,
        {
            let (name, _) = parse_chord(self.bindings[i].chord.as_str());
            names.push(name);
            i = i + 1;
        }
        names
    }

    /// Maps a key + active modifiers to an `Action`, ignoring modifier bits
    /// not part of the bindings table (e.g. NumLock/CapsLock lock bits).
    /// `resolved` holds, for each binding in table order, the key code its
    /// key name (see `key_names`) stands for, if any.
    pub fn lookup(&self, key: u32, state: u32, resolved: &Vec<Option<u32>>) -> (action: Option<
        Action,
    >)
        requires
            resolved.len() == self.table().len(),
        ensures
            action == first_triggered(self.table(), resolved@, key, relevant_bits(state)),
    {
        let mods = state & RELEVANT_MODIFIERS;
        let mut i: usize = 0;
        assert(self.table().skip(0) =~= self.table());
        assert(resolved@.skip(0) =~= resolved@);
        while i < self.bindings.len()
            invariant
                i <= self.bindings.len(),
                resolved.len() == self.bindings.len(),
                mods == relevant_bits(state),
                first_triggered(self.table(), resolved@, key, mods) == first_triggered(
                    self.table().skip(i as int),
                    resolved@.skip(i as int),
                    key,
                    mods,
                ),
            decreases self.bindings.len() - i,
        {
            assert(self.table().skip(i as int)[0] == self.table()[i as int]);
            assert(resolved@.skip(i as int)[0] == resolved@[i as int]);
            let (_, chord_mods) = parse_chord(self.bindings[i].chord.as_str());
            if resolved[i] == Some(key) && chord_mods == mods {
                return Some(self.bindings[i].action);
            }
            assert(self.table().skip(i as int).drop_first() =~= self.table().skip(i + 1));
            assert(resolved@.skip(i as int).drop_first() =~= resolved@.skip(i + 1));
            i = i + 1;
        }
        None
    }

    /// Rebinds `action` to the key named `key_name` with the modifiers of
    /// `state`, replacing whatever it was bound to before. Any *other*
    /// action previously bound to the same chord is unbound (a chord can
    /// only ever trigger one action), mirroring how most keybinding editors
    /// handle collisions.
    pub fn rebind(&mut self, action: Action, key_name: &str, state: u32)
        ensures
            final(self).table() == rebound(
                old(self).table(),
                action,
                chord_text(key_name@, relevant_bits(state)),
            ),
    {
        let chord = format_chord(key_name, state & RELEVANT_MODIFIERS);
        let ghost t = old(self).table();
        let ghost pred = not_taken_from(action, chord@);
        let mut kept: Vec<Binding> = Vec::new();
        let mut i: usize = 0;
        while i < self.bindings.len()
            invariant
                i <= self.bindings.len(),
                t == self.table(),
                kept@.map_values(|b: Binding| (b.action, b.chord@)) == t.take(i as int).filter(pred),
                pred == not_taken_from(action, chord@),
            decreases self.bindings.len() - i,
        {
            reveal_with_fuel(Seq::<_>::filter, 1);
            assert(t.take(i + 1).drop_last() =~= t.take(i as int));
            assert(t.take(i + 1).last() == t[i as int]);
            let b = &self.bindings[i];
            let keep = b.chord != chord || b.action == action;
            if keep {
                let ghost before = kept@.map_values(|b: Binding| (b.action, b.chord@));
                kept.push(Binding { chord: b.chord.clone(), action: b.action });
                assert(kept@.map_values(|b: Binding| (b.action, b.chord@)) =~= before.push(
                    (b.action, b.chord@),
                ));
            } else {
                assert(!pred(t[i as int]));
            }
            i = i + 1;
        }
        assert(t.take(self.bindings.len() as int) =~= t);
        let ghost kv = kept@.map_values(|b: Binding| (b.action, b.chord@));
        let mut j: usize = 0;
        assert(kv.skip(0) =~= kv);
        while j < kept.len() && kept[j].action != action
            invariant
                j <= kept.len(),
                kv == kept@.map_values(|b: Binding| (b.action, b.chord@)),
                position_of(kv, action) == match position_of(kv.skip(j as int), action) {
                    Some(p) => Some(p + j),
                    None => None,
                },
            decreases kept.len() - j,
        {
            assert(kv.skip(j as int)[0] == kv[j as int]);
            assert(kv.skip(j as int).drop_first() =~= kv.skip(j + 1));
            j = j + 1;
        }
        if j < kept.len() {
            assert(kv.skip(j as int)[0] == kv[j as int]);
            kept.set(j, Binding { chord, action });
            assert(kept@.map_values(|b: Binding| (b.action, b.chord@)) =~= kv.update(
                j as int,
                (action, chord_text(key_name@, relevant_bits(state))),
            ));
        } else {
            assert(kv.skip(j as int).len() == 0);
            kept.push(Binding { chord, action });
            assert(kept@.map_values(|b: Binding| (b.action, b.chord@)) =~= kv.push(
                (action, chord_text(key_name@, relevant_bits(state))),
            ));
        }
        self.bindings = kept;
    }
}

/// Tilix-parity keybindings: `(key name, modifiers, action)`. Serves as the
/// baseline `Keymap::default()` when no user config exists yet.
pub open spec fn default_keybindings() -> Seq<(&'static str, u32, Action)> {
    seq![
        ("O", CTRL_SHIFT, Action::SplitHorizontal),
        ("E", CTRL_SHIFT, Action::SplitVertical),
        ("W", CTRL_SHIFT, Action::ClosePane),
        ("Up", CTRL_SHIFT, Action::Navigate(Direction::Up)),
        ("Down", CTRL_SHIFT, Action::Navigate(Direction::Down)),
        ("Left", CTRL_SHIFT, Action::Navigate(Direction::Left)),
        ("Right", CTRL_SHIFT, Action::Navigate(Direction::Right)),
        ("T", CTRL_SHIFT, Action::NewSession),
        ("Q", CTRL_SHIFT, Action::CloseSession),
        ("Page_Down", CTRL_SHIFT, Action::NextSession),
        ("Page_Up", CTRL_SHIFT, Action::PrevSession),
        ("F", CTRL_SHIFT, Action::ToggleSearch),
        ("C", CTRL_SHIFT, Action::Copy),
        ("V", CTRL_SHIFT, Action::Paste),
        ("1", CTRL_SHIFT, Action::SwitchToSession(1)),
        ("2", CTRL_SHIFT, Action::SwitchToSession(2)),
        ("3", CTRL_SHIFT, Action::SwitchToSession(3)),
        ("4", CTRL_SHIFT, Action::SwitchToSession(4)),
        ("5", CTRL_SHIFT, Action::SwitchToSession(5)),
        ("6", CTRL_SHIFT, Action::SwitchToSession(6)),
        ("7", CTRL_SHIFT, Action::SwitchToSession(7)),
        ("8", CTRL_SHIFT, Action::SwitchToSession(8)),
        ("9", CTRL_SHIFT, Action::SwitchToSession(9)),
        ("Up", CTRL_SHIFT_ALT, Action::ResizePane(Direction::Up)),
        ("Down", CTRL_SHIFT_ALT, Action::ResizePane(Direction::Down)),
        ("Left", CTRL_SHIFT_ALT, Action::ResizePane(Direction::Left)),
        ("Right", CTRL_SHIFT_ALT, Action::ResizePane(Direction::Right)),
        ("S", CTRL_SHIFT, Action::ToggleSyncCurrentPane),
        ("F2", CTRL_SHIFT, Action::RenameSession),
        ("F6", CTRL_SHIFT, Action::RenamePane),
        ("D", CTRL_SHIFT, Action::DetachSession),
        ("C", CTRL_SHIFT_ALT, Action::CopyAsHtml),
        ("V", CTRL_SHIFT_ALT, Action::PasteAdvanced),
        ("M", CTRL_SHIFT, Action::ToggleMargin),
    ]
}

fn default_keybinding_table() -> (v: Vec<(&'static str, u32, Action)>)
    ensures
        v@ == default_keybindings(),
{
    let v = vec![
        ("O", CTRL_SHIFT, Action::SplitHorizontal),
        ("E", CTRL_SHIFT, Action::SplitVertical),
        ("W", CTRL_SHIFT, Action::ClosePane),
        ("Up", CTRL_SHIFT, Action::Navigate(Direction::Up)),
        ("Down", CTRL_SHIFT, Action::Navigate(Direction::Down)),
        ("Left", CTRL_SHIFT, Action::Navigate(Direction::Left)),
        ("Right", CTRL_SHIFT, Action::Navigate(Direction::Right)),
        ("T", CTRL_SHIFT, Action::NewSession),
        ("Q", CTRL_SHIFT, Action::CloseSession),
        ("Page_Down", CTRL_SHIFT, Action::NextSession),
        ("Page_Up", CTRL_SHIFT, Action::PrevSession),
        ("F", CTRL_SHIFT, Action::ToggleSearch),
        ("C", CTRL_SHIFT, Action::Copy),
        ("V", CTRL_SHIFT, Action::Paste),
        ("1", CTRL_SHIFT, Action::SwitchToSession(1)),
        ("2", CTRL_SHIFT, Action::SwitchToSession(2)),
        ("3", CTRL_SHIFT, Action::SwitchToSession(3)),
        ("4", CTRL_SHIFT, Action::SwitchToSession(4)),
        ("5", CTRL_SHIFT, Action::SwitchToSession(5)),
        ("6", CTRL_SHIFT, Action::SwitchToSession(6)),
        ("7", CTRL_SHIFT, Action::SwitchToSession(7)),
        ("8", CTRL_SHIFT, Action::SwitchToSession(8)),
        ("9", CTRL_SHIFT, Action::SwitchToSession(9)),
        ("Up", CTRL_SHIFT_ALT, Action::ResizePane(Direction::Up)),
        ("Down", CTRL_SHIFT_ALT, Action::ResizePane(Direction::Down)),
        ("Left", CTRL_SHIFT_ALT, Action::ResizePane(Direction::Left)),
        ("Right", CTRL_SHIFT_ALT, Action::ResizePane(Direction::Right)),
        ("S", CTRL_SHIFT, Action::ToggleSyncCurrentPane),
        ("F2", CTRL_SHIFT, Action::RenameSession),
        ("F6", CTRL_SHIFT, Action::RenamePane),
        ("D", CTRL_SHIFT, Action::DetachSession),
        ("C", CTRL_SHIFT_ALT, Action::CopyAsHtml),
        ("V", CTRL_SHIFT_ALT, Action::PasteAdvanced),
        ("M", CTRL_SHIFT, Action::ToggleMargin),
    ];
    assert(v@ =~= default_keybindings());
    v
}

impl Default for Keymap {
    fn default() -> (k: Self)
        ensures
            k.table() == default_keybindings().map_values(
                |e: (&'static str, u32, Action)| (e.2, chord_text(e.0@, e.1)),
            ),
    {
        let table = default_keybinding_table();
        let ghost spec_table = default_keybindings().map_values(
            |e: (&'static str, u32, Action)| (e.2, chord_text(e.0@, e.1)),
        );
        let mut bindings: Vec<Binding> = Vec::new();
        let mut i: usize = 0;
        while i < table.len()
            invariant
                i <= table.len(),
                table@ == default_keybindings(),
                spec_table == default_keybindings().map_values(
                    |e: (&'static str, u32, Action)| (e.2, chord_text(e.0@, e.1)),
                ),
                bindings@.map_values(|b: Binding| (b.action, b.chord@)) == spec_table.take(i as int),
            decreases table.len() - i,
        {
            let (key, modifiers, action) = table[i];
            let ghost before = bindings@.map_values(|b: Binding| (b.action, b.chord@));
            bindings.push(Binding { chord: format_chord(key, modifiers), action });
            assert(bindings@.map_values(|b: Binding| (b.action, b.chord@)) =~= before.push(
                spec_table[i as int],
            ));
            assert(spec_table.take(i + 1) =~= spec_table.take(i as int).push(spec_table[i as int]));
            i = i + 1;
        }
        assert(spec_table.take(table.len() as int) =~= spec_table);
        Keymap { bindings }
    }
}

pub open spec fn direction_text(direction: Direction) -> Seq<char> {
    match direction {
        Direction::Up => "Up"@,
        Direction::Down => "Down"@,
        Direction::Left => "Left"@,
        Direction::Right => "Right"@,
    }
}

fn direction_label(direction: Direction) -> (label: &'static str)
    ensures
        label@ == direction_text(direction),
{
    match direction {
        Direction::Up => "Up",
        Direction::Down => "Down",
        Direction::Left => "Left",
        Direction::Right => "Right",
    }
}

/// The human-readable label of an action.
pub open spec fn action_text(action: Action) -> Seq<char> {
    match action {
        Action::SplitHorizontal => "Split horizontally"@,
        Action::SplitVertical => "Split vertically"@,
        Action::ClosePane => "Close pane"@,
        Action::Navigate(d) => "Navigate "@ + direction_text(d),
        Action::NewSession => "New session"@,
        Action::CloseSession => "Close session"@,
        Action::NextSession => "Next session"@,
        Action::PrevSession => "Previous session"@,
        Action::ToggleSearch => "Find in terminal"@,
        Action::Copy => "Copy"@,
        Action::Paste => "Paste"@,
        Action::SwitchToSession(n) => "Switch to session "@ + decimal(n as nat),
        Action::ResizePane(d) => "Resize pane "@ + direction_text(d),
        Action::ToggleSyncCurrentPane => "Toggle sync for current pane"@,
        Action::RenameSession => "Rename session"@,
        Action::RenamePane => "Rename pane"@,
        Action::DetachSession => "Detach session into new window"@,
        Action::CopyAsHtml => "Copy as HTML"@,
        Action::PasteAdvanced => "Paste (advanced)"@,
        Action::ToggleMargin => "Toggle margin guide"@,
    }
}

fn joined(prefix: &str, rest: &str) -> (s: String)
    ensures
        s@ == prefix@ + rest@,
{
    let mut v = chars_of(prefix);
    append_chars(&mut v, &chars_of(rest));
    string_from_chars(&v)
}

/// The names of the keys that only modify other keys.
pub open spec fn modifier_key_names() -> Set<Seq<char>> {
    set![
        "Control_L"@,
        "Control_R"@,
        "Shift_L"@,
        "Shift_R"@,
        "Alt_L"@,
        "Alt_R"@,
        "Super_L"@,
        "Super_R"@,
        "Meta_L"@,
        "Meta_R"@,
        "Caps_Lock"@,
    ]
}

/// Whether the key named `key_name` only modifies other keys, so that
/// recording a new chord keeps waiting for the key it modifies.
pub fn is_pure_modifier(key_name: &str) -> (b: bool)
    ensures
        b == modifier_key_names().contains(key_name@),
{
    let names = [
        "Control_L",
        "Control_R",
        "Shift_L",
        "Shift_R",
        "Alt_L",
        "Alt_R",
        "Super_L",
        "Super_R",
        "Meta_L",
        "Meta_R",
        "Caps_Lock",
    ];
    let mut k: usize = 0;
    while k < names.len()
        invariant
            k <= names.len(),
            names@ == seq![
                "Control_L",
                "Control_R",
                "Shift_L",
                "Shift_R",
                "Alt_L",
                "Alt_R",
                "Super_L",
                "Super_R",
                "Meta_L",
                "Meta_R",
                "Caps_Lock",
            ],
            forall|i: int| 0 <= i < k ==> names@[i]@ != key_name@,
        decreases names.len() - k,
    {
        if same_text(names[k], key_name) {
            return true;
        }
        k = k + 1;
    }
    false
}

/// Human-readable label for the Preferences "Shortcuts" page.
pub fn action_label(action: Action) -> (label: String)
    ensures
        label@ == action_text(action),
{
    match action {
        Action::SplitHorizontal => String::from_str("Split horizontally"),
        Action::SplitVertical => String::from_str("Split vertically"),
        Action::ClosePane => String::from_str("Close pane"),
        Action::Navigate(d) => joined("Navigate ", direction_label(d)),
        Action::NewSession => String::from_str("New session"),
        Action::CloseSession => String::from_str("Close session"),
        Action::NextSession => String::from_str("Next session"),
        Action::PrevSession => String::from_str("Previous session"),
        Action::ToggleSearch => String::from_str("Find in terminal"),
        Action::Copy => String::from_str("Copy"),
        Action::Paste => String::from_str("Paste"),
        Action::SwitchToSession(n) => {
            let mut v = chars_of("Switch to session ");
            push_decimal(n as u64, &mut v);
            string_from_chars(&v)
        },
        Action::ResizePane(d) => joined("Resize pane ", direction_label(d)),
        Action::ToggleSyncCurrentPane => String::from_str("Toggle sync for current pane"),
        Action::RenameSession => String::from_str("Rename session"),
        Action::RenamePane => String::from_str("Rename pane"),
        Action::DetachSession => String::from_str("Detach session into new window"),
        Action::CopyAsHtml => String::from_str("Copy as HTML"),
        Action::PasteAdvanced => String::from_str("Paste (advanced)"),
        Action::ToggleMargin => String::from_str("Toggle margin guide"),
    }
}

/// The split orientation a split action creates.
pub fn orientation_for(action: Action) -> (o: Option<Orientation>)
    ensures
        o == match action {
            Action::SplitHorizontal => Some(Orientation::Horizontal),
            Action::SplitVertical => Some(Orientation::Vertical),
            _ => None,
        },
{
    match action {
        Action::SplitHorizontal => Some(Orientation::Horizontal),
        Action::SplitVertical => Some(Orientation::Vertical),
        _ => None,
    }
}

// ---------------------------------------------------------------------------
// Laws of the keymap.
// ---------------------------------------------------------------------------

proof fn lemma_chord_of_position(t: Seq<(Action, Seq<char>)>, action: Action)
    ensures
        chord_of(t, action) == match position_of(t, action) {
            Some(i) => Some(t[i].1),
            None => None,
        },
        match position_of(t, action) {
            Some(i) => 0 <= i < t.len() && t[i].0 == action && forall|k: int|
                0 <= k < i ==> t[k].0 != action,
            None => forall|k: int| 0 <= k < t.len() ==> t[k].0 != action,
        },
    decreases t.len(),
{
    if t.len() > 0 {
        lemma_chord_of_position(t.drop_first(), action);
        if t[0].0 != action {
            match position_of(t.drop_first(), action) {
                Some(i) => {
                    assert(t.drop_first()[i] == t[i + 1]);
                    assert forall|k: int| 0 <= k < i + 1 implies t[k].0 != action by {
                        if k > 0 {
                            assert(t.drop_first()[k - 1] == t[k]);
                        }
                    }
                },
                None => {
                    assert forall|k: int| 0 <= k < t.len() implies t[k].0 != action by {
                        if k > 0 {
                            assert(t.drop_first()[k - 1] == t[k]);
                        }
                    }
                },
            }
        }
    }
}

proof fn lemma_position_is_first(t: Seq<(Action, Seq<char>)>, action: Action, i: int)
    requires
        0 <= i < t.len(),
        t[i].0 == action,
        forall|k: int| 0 <= k < i ==> t[k].0 != action,
    ensures
        position_of(t, action) == Some(i),
{
    lemma_chord_of_position(t, action);
    match position_of(t, action) {
        Some(j) => {
            if j < i {
                assert(t[j].0 != action);
            }
            if j > i {
                assert(t[i].0 != action);
            }
        },
        None => {
            assert(t[i].0 != action);
        },
    }
}

/// After rebinding, the action is bound to the new chord and no other
/// action is bound to it any more.
pub proof fn law_rebind_makes_chord_unique(
    t: Seq<(Action, Seq<char>)>,
    action: Action,
    chord: Seq<char>,
)
    ensures
        chord_of(rebound(t, action, chord), action) == Some(chord),
        forall|i: int|
            0 <= i < rebound(t, action, chord).len() && (#[trigger] rebound(t, action, chord)[i]).1
                == chord ==> rebound(t, action, chord)[i].0 == action,
{
    let pred = not_taken_from(action, chord);
    let kept = t.filter(pred);
    let r = rebound(t, action, chord);
    lemma_chord_of_position(kept, action);
    assert forall|k: int| 0 <= k < kept.len() implies pred(#[trigger] kept[k]) by {
        t.lemma_filter_pred(pred, k);
    }
    match position_of(kept, action) {
        Some(i) => {
            assert(r == kept.update(i, (action, chord)));
            lemma_position_is_first(r, action, i);
            lemma_chord_of_position(r, action);
        },
        None => {
            assert(r == kept.push((action, chord)));
            lemma_position_is_first(r, action, kept.len() as int);
            lemma_chord_of_position(r, action);
        },
    }
}

/// Which kind of action a label names, read off the label itself: the
/// family of a parameterised action, or the action itself.
spec fn label_kind(t: Seq<char>) -> int {
    if t.len() >= 19 && t[0] == 'S' && t[1] == 'w' {
        0
    } else if t.len() >= 9 && t[0] == 'N' && t[1] == 'a' {
        1
    } else if t.len() >= 12 && t[0] == 'R' && t[2] == 's' {
        2
    } else if t == "Split horizontally"@ {
        3
    } else if t == "Split vertically"@ {
        4
    } else if t == "Close pane"@ {
        5
    } else if t == "New session"@ {
        6
    } else if t == "Close session"@ {
        7
    } else if t == "Next session"@ {
        8
    } else if t == "Previous session"@ {
        9
    } else if t == "Find in terminal"@ {
        10
    } else if t == "Copy"@ {
        11
    } else if t == "Paste"@ {
        12
    } else if t == "Toggle sync for current pane"@ {
        13
    } else if t == "Rename session"@ {
        14
    } else if t == "Rename pane"@ {
        15
    } else if t == "Detach session into new window"@ {
        16
    } else if t == "Copy as HTML"@ {
        17
    } else if t == "Paste (advanced)"@ {
        18
    } else if t == "Toggle margin guide"@ {
        19
    } else {
        -1
    }
}

/// The kind of an action, numbered as `label_kind` numbers labels.
spec fn action_kind(a: Action) -> int {
    match a {
        Action::SwitchToSession(_) => 0,
        Action::Navigate(_) => 1,
        Action::ResizePane(_) => 2,
        Action::SplitHorizontal => 3,
        Action::SplitVertical => 4,
        Action::ClosePane => 5,
        Action::NewSession => 6,
        Action::CloseSession => 7,
        Action::NextSession => 8,
        Action::PrevSession => 9,
        Action::ToggleSearch => 10,
        Action::Copy => 11,
        Action::Paste => 12,
        Action::ToggleSyncCurrentPane => 13,
        Action::RenameSession => 14,
        Action::RenamePane => 15,
        Action::DetachSession => 16,
        Action::CopyAsHtml => 17,
        Action::PasteAdvanced => 18,
        Action::ToggleMargin => 19,
    }
}

proof fn lemma_label_kind(a: Action)
    ensures
        label_kind(action_text(a)) == action_kind(a),
{
    reveal_strlit("Split horizontally");
    reveal_strlit("Split vertically");
    reveal_strlit("Close pane");
    reveal_strlit("New session");
    reveal_strlit("Close session");
    reveal_strlit("Next session");
    reveal_strlit("Previous session");
    reveal_strlit("Find in terminal");
    reveal_strlit("Copy");
    reveal_strlit("Paste");
    reveal_strlit("Toggle sync for current pane");
    reveal_strlit("Rename session");
    reveal_strlit("Rename pane");
    reveal_strlit("Detach session into new window");
    reveal_strlit("Copy as HTML");
    reveal_strlit("Paste (advanced)");
    reveal_strlit("Toggle margin guide");
    reveal_strlit("Navigate ");
    reveal_strlit("Resize pane ");
    reveal_strlit("Switch to session ");
    reveal_strlit("Up");
    reveal_strlit("Down");
    reveal_strlit("Left");
    reveal_strlit("Right");
    match a {
        Action::SwitchToSession(n) => {
            lemma_switch_label_kind(n);
        },
        Action::Navigate(d) => {
            assert(action_text(a)[0] == 'N' && action_text(a)[1] == 'a');
        },
        Action::ResizePane(d) => {
            assert(action_text(a)[0] == 'R' && action_text(a)[2] == 's');
        },
        Action::SplitHorizontal => {
            let t = action_text(a);
            assert(t.len() == 18);
            assert(label_kind(t) == 3);
        },
        Action::SplitVertical => {
            let t = action_text(a);
            assert(t.len() == 16);
            assert("Split horizontally"@.len() == 18);
            assert(label_kind(t) == 4);
        },
        Action::ClosePane => {
            let t = action_text(a);
            assert(t.len() == 10);
            assert("Split horizontally"@.len() == 18);
            assert("Split vertically"@.len() == 16);
            assert(label_kind(t) == 5);
        },
        Action::NewSession => {
            let t = action_text(a);
            assert(t.len() == 11);
            assert("Split horizontally"@.len() == 18);
            assert("Split vertically"@.len() == 16);
            assert("Close pane"@.len() == 10);
            assert(label_kind(t) == 6);
        },
        Action::CloseSession => {
            let t = action_text(a);
            assert(t.len() == 13);
            assert("Split horizontally"@.len() == 18);
            assert("Split vertically"@.len() == 16);
            assert("Close pane"@.len() == 10);
            assert("New session"@.len() == 11);
            assert(label_kind(t) == 7);
        },
        Action::NextSession => {
            let t = action_text(a);
            assert(t.len() == 12);
            assert("Split horizontally"@.len() == 18);
            assert("Split vertically"@.len() == 16);
            assert("Close pane"@.len() == 10);
            assert("New session"@.len() == 11);
            assert("Close session"@.len() == 13);
            assert(label_kind(t) == 8);
        },
        Action::PrevSession => {
            let t = action_text(a);
            assert(t.len() == 16);
            assert("Split horizontally"@.len() == 18);
            assert(t[0] != "Split vertically"@[0]);
            assert("Close pane"@.len() == 10);
            assert("New session"@.len() == 11);
            assert("Close session"@.len() == 13);
            assert("Next session"@.len() == 12);
            assert(label_kind(t) == 9);
        },
        Action::ToggleSearch => {
            let t = action_text(a);
            assert(t.len() == 16);
            assert("Split horizontally"@.len() == 18);
            assert(t[0] != "Split vertically"@[0]);
            assert("Close pane"@.len() == 10);
            assert("New session"@.len() == 11);
            assert("Close session"@.len() == 13);
            assert("Next session"@.len() == 12);
            assert(t[0] != "Previous session"@[0]);
            assert(label_kind(t) == 10);
        },
        Action::Copy => {
            let t = action_text(a);
            assert(t.len() == 4);
            assert("Split horizontally"@.len() == 18);
            assert("Split vertically"@.len() == 16);
            assert("Close pane"@.len() == 10);
            assert("New session"@.len() == 11);
            assert("Close session"@.len() == 13);
            assert("Next session"@.len() == 12);
            assert("Previous session"@.len() == 16);
            assert("Find in terminal"@.len() == 16);
            assert(label_kind(t) == 11);
        },
        Action::Paste => {
            let t = action_text(a);
            assert(t.len() == 5);
            assert("Split horizontally"@.len() == 18);
            assert("Split vertically"@.len() == 16);
            assert("Close pane"@.len() == 10);
            assert("New session"@.len() == 11);
            assert("Close session"@.len() == 13);
            assert("Next session"@.len() == 12);
            assert("Previous session"@.len() == 16);
            assert("Find in terminal"@.len() == 16);
            assert("Copy"@.len() == 4);
            assert(label_kind(t) == 12);
        },
        Action::ToggleSyncCurrentPane => {
            let t = action_text(a);
            assert(t.len() == 28);
            assert("Split horizontally"@.len() == 18);
            assert("Split vertically"@.len() == 16);
            assert("Close pane"@.len() == 10);
            assert("New session"@.len() == 11);
            assert("Close session"@.len() == 13);
            assert("Next session"@.len() == 12);
            assert("Previous session"@.len() == 16);
            assert("Find in terminal"@.len() == 16);
            assert("Copy"@.len() == 4);
            assert("Paste"@.len() == 5);
            assert(label_kind(t) == 13);
        },
        Action::RenameSession => {
            let t = action_text(a);
            assert(t.len() == 14);
            assert("Split horizontally"@.len() == 18);
            assert("Split vertically"@.len() == 16);
            assert("Close pane"@.len() == 10);
            assert("New session"@.len() == 11);
            assert("Close session"@.len() == 13);
            assert("Next session"@.len() == 12);
            assert("Previous session"@.len() == 16);
            assert("Find in terminal"@.len() == 16);
            assert("Copy"@.len() == 4);
            assert("Paste"@.len() == 5);
            assert("Toggle sync for current pane"@.len() == 28);
            assert(label_kind(t) == 14);
        },
        Action::RenamePane => {
            let t = action_text(a);
            assert(t.len() == 11);
            assert("Split horizontally"@.len() == 18);
            assert("Split vertically"@.len() == 16);
            assert("Close pane"@.len() == 10);
            assert(t[0] != "New session"@[0]);
            assert("Close session"@.len() == 13);
            assert("Next session"@.len() == 12);
            assert("Previous session"@.len() == 16);
            assert("Find in terminal"@.len() == 16);
            assert("Copy"@.len() == 4);
            assert("Paste"@.len() == 5);
            assert("Toggle sync for current pane"@.len() == 28);
            assert("Rename session"@.len() == 14);
            assert(label_kind(t) == 15);
        },
        Action::DetachSession => {
            let t = action_text(a);
            assert(t.len() == 30);
            assert("Split horizontally"@.len() == 18);
            assert("Split vertically"@.len() == 16);
            assert("Close pane"@.len() == 10);
            assert("New session"@.len() == 11);
            assert("Close session"@.len() == 13);
            assert("Next session"@.len() == 12);
            assert("Previous session"@.len() == 16);
            assert("Find in terminal"@.len() == 16);
            assert("Copy"@.len() == 4);
            assert("Paste"@.len() == 5);
            assert("Toggle sync for current pane"@.len() == 28);
            assert("Rename session"@.len() == 14);
            assert("Rename pane"@.len() == 11);
            assert(label_kind(t) == 16);
        },
        Action::CopyAsHtml => {
            let t = action_text(a);
            assert(t.len() == 12);
            assert("Split horizontally"@.len() == 18);
            assert("Split vertically"@.len() == 16);
            assert("Close pane"@.len() == 10);
            assert("New session"@.len() == 11);
            assert("Close session"@.len() == 13);
            assert(t[0] != "Next session"@[0]);
            assert("Previous session"@.len() == 16);
            assert("Find in terminal"@.len() == 16);
            assert("Copy"@.len() == 4);
            assert("Paste"@.len() == 5);
            assert("Toggle sync for current pane"@.len() == 28);
            assert("Rename session"@.len() == 14);
            assert("Rename pane"@.len() == 11);
            assert("Detach session into new window"@.len() == 30);
            assert(label_kind(t) == 17);
        },
        Action::PasteAdvanced => {
            let t = action_text(a);
            assert(t.len() == 16);
            assert("Split horizontally"@.len() == 18);
            assert(t[0] != "Split vertically"@[0]);
            assert("Close pane"@.len() == 10);
            assert("New session"@.len() == 11);
            assert("Close session"@.len() == 13);
            assert("Next session"@.len() == 12);
            assert(t[1] != "Previous session"@[1]);
            assert(t[0] != "Find in terminal"@[0]);
            assert("Copy"@.len() == 4);
            assert("Paste"@.len() == 5);
            assert("Toggle sync for current pane"@.len() == 28);
            assert("Rename session"@.len() == 14);
            assert("Rename pane"@.len() == 11);
            assert("Detach session into new window"@.len() == 30);
            assert("Copy as HTML"@.len() == 12);
            assert(label_kind(t) == 18);
        },
        Action::ToggleMargin => {
            let t = action_text(a);
            assert(t.len() == 19);
            assert("Split horizontally"@.len() == 18);
            assert("Split vertically"@.len() == 16);
            assert("Close pane"@.len() == 10);
            assert("New session"@.len() == 11);
            assert("Close session"@.len() == 13);
            assert("Next session"@.len() == 12);
            assert("Previous session"@.len() == 16);
            assert("Find in terminal"@.len() == 16);
            assert("Copy"@.len() == 4);
            assert("Paste"@.len() == 5);
            assert("Toggle sync for current pane"@.len() == 28);
            assert("Rename session"@.len() == 14);
            assert("Rename pane"@.len() == 11);
            assert("Detach session into new window"@.len() == 30);
            assert("Copy as HTML"@.len() == 12);
            assert("Paste (advanced)"@.len() == 16);
            assert(label_kind(t) == 19);
        },
    }
}

proof fn lemma_switch_label_kind(n: u8)
    ensures
        label_kind(action_text(Action::SwitchToSession(n))) == 0,
{
    reveal_strlit("Switch to session ");
    let t = action_text(Action::SwitchToSession(n));
    lemma_decimal_len(n as nat);
    assert(t == "Switch to session "@ + decimal(n as nat));
    assert(t.len() >= 19);
    assert(t[0] == 'S' && t[1] == 'w');
}

proof fn lemma_direction_text_distinct(x: Direction, y: Direction)
    requires
        direction_text(x) == direction_text(y),
    ensures
        x == y,
{
    reveal_strlit("Up");
    reveal_strlit("Down");
    reveal_strlit("Left");
    reveal_strlit("Right");
    assert(direction_text(x).len() == direction_text(y).len());
    assert(direction_text(x)[0] == direction_text(y)[0]);
    match x {
        Direction::Up => assert(direction_text(x)[0] == 'U'),
        Direction::Down => assert(direction_text(x)[0] == 'D' && direction_text(x).len() == 4),
        Direction::Left => assert(direction_text(x)[0] == 'L' && direction_text(x).len() == 4),
        Direction::Right => assert(direction_text(x).len() == 5),
    }
    match y {
        Direction::Up => assert(direction_text(y)[0] == 'U' && direction_text(y).len() == 2),
        Direction::Down => assert(direction_text(y)[0] == 'D' && direction_text(y).len() == 4),
        Direction::Left => assert(direction_text(y)[0] == 'L' && direction_text(y).len() == 4),
        Direction::Right => assert(direction_text(y).len() == 5),
    }
}

/// Distinct actions get distinct labels, so the shortcuts page shows one
/// recognisable row per action.
pub proof fn law_action_labels_distinct(a: Action, b: Action)
    requires
        a != b,
    ensures
        action_text(a) != action_text(b),
{
    reveal_strlit("Navigate ");
    reveal_strlit("Resize pane ");
    reveal_strlit("Switch to session ");
    lemma_label_kind(a);
    lemma_label_kind(b);
    if action_text(a) == action_text(b) {
        match (a, b) {
            (Action::Navigate(x), Action::Navigate(y)) => {
                assert(action_text(a).skip(9) =~= direction_text(x));
                assert(action_text(b).skip(9) =~= direction_text(y));
                lemma_direction_text_distinct(x, y);
            },
            (Action::ResizePane(x), Action::ResizePane(y)) => {
                assert(action_text(a).skip(12) =~= direction_text(x));
                assert(action_text(b).skip(12) =~= direction_text(y));
                lemma_direction_text_distinct(x, y);
            },
            (Action::SwitchToSession(x), Action::SwitchToSession(y)) => {
                assert(action_text(a).skip(18) =~= decimal(x as nat));
                assert(action_text(b).skip(18) =~= decimal(y as nat));
                lemma_decimal_injective(x as nat, y as nat);
            },
            _ => {},
        }
    }
}

/// Whether no action and no chord occurs twice in the table.
pub open spec fn bindings_distinct(t: Seq<(Action, Seq<char>)>) -> bool {
    forall|i: int, j: int|
        0 <= i < t.len() && 0 <= j < t.len() && i != j ==> t[i].0 != t[j].0 && t[i].1 != t[j].1
}

proof fn lemma_filter_keeps_distinct(
    t: Seq<(Action, Seq<char>)>,
    pred: spec_fn((Action, Seq<char>)) -> bool,
)
    requires
        bindings_distinct(t),
    ensures
        bindings_distinct(t.filter(pred)),
        forall|i: int| 0 <= i < t.filter(pred).len() ==> t.contains(#[trigger] t.filter(pred)[i]),
    decreases t.len(),
{
    reveal_with_fuel(Seq::<_>::filter, 1);
    if t.len() > 0 {
        let r = t.drop_last();
        assert(bindings_distinct(r)) by {
            assert forall|i: int, j: int|
                0 <= i < r.len() && 0 <= j < r.len() && i != j implies r[i].0 != r[j].0 && r[i].1
                    != r[j].1 by {
                assert(r[i] == t[i] && r[j] == t[j]);
            }
        }
        lemma_filter_keeps_distinct(r, pred);
        let f = r.filter(pred);
        let last = t.last();
        assert forall|i: int| 0 <= i < f.len() implies t.contains(#[trigger] f[i]) by {
            assert(r.contains(f[i]));
            let k = choose|k: int| 0 <= k < r.len() && r[k] == f[i];
            assert(t[k] == f[i]);
        }
        if pred(last) {
            let g = f.push(last);
            assert(t.filter(pred) == g);
            assert forall|i: int| 0 <= i < f.len() implies f[i].0 != last.0 && f[i].1 != last.1 by {
                assert(r.contains(f[i]));
                let k = choose|k: int| 0 <= k < r.len() && r[k] == f[i];
                assert(t[k] == f[i]);
                assert(t[t.len() - 1] == last);
            }
            assert forall|i: int, j: int|
                0 <= i < g.len() && 0 <= j < g.len() && i != j implies g[i].0 != g[j].0 && g[i].1
                    != g[j].1 by {
                if i < f.len() && j < f.len() {
                    assert(g[i] == f[i] && g[j] == f[j]);
                } else if i < f.len() {
                    assert(g[i] == f[i] && g[j] == last);
                } else {
                    assert(g[j] == f[j] && g[i] == last);
                }
            }
            assert forall|i: int| 0 <= i < g.len() implies t.contains(#[trigger] g[i]) by {
                if i < f.len() {
                    assert(g[i] == f[i]);
                } else {
                    assert(t[t.len() - 1] == g[i]);
                }
            }
        }
    }
}

/// Rebinding keeps a table in which no action and no chord occurs twice
/// that way: afterwards, too, every action has at most one chord and every
/// chord triggers at most one action.
pub proof fn law_rebind_keeps_bindings_distinct(
    t: Seq<(Action, Seq<char>)>,
    action: Action,
    chord: Seq<char>,
)
    requires
        bindings_distinct(t),
    ensures
        bindings_distinct(rebound(t, action, chord)),
{
    let pred = not_taken_from(action, chord);
    let kept = t.filter(pred);
    lemma_filter_keeps_distinct(t, pred);
    assert forall|k: int| 0 <= k < kept.len() implies pred(#[trigger] kept[k]) by {
        t.lemma_filter_pred(pred, k);
    }
    lemma_chord_of_position(kept, action);
    let r = rebound(t, action, chord);
    match position_of(kept, action) {
        Some(p) => {
            assert(r == kept.update(p, (action, chord)));
            assert forall|i: int, j: int|
                0 <= i < r.len() && 0 <= j < r.len() && i != j implies r[i].0 != r[j].0 && r[i].1
                    != r[j].1 by {
                if i == p {
                    assert(r[j] == kept[j]);
                    assert(pred(kept[j]));
                } else if j == p {
                    assert(r[i] == kept[i]);
                    assert(pred(kept[i]));
                } else {
                    assert(r[i] == kept[i] && r[j] == kept[j]);
                }
            }
        },
        None => {
            assert(r == kept.push((action, chord)));
            assert forall|i: int, j: int|
                0 <= i < r.len() && 0 <= j < r.len() && i != j implies r[i].0 != r[j].0 && r[i].1
                    != r[j].1 by {
                if i < kept.len() && j < kept.len() {
                    assert(r[i] == kept[i] && r[j] == kept[j]);
                } else if i < kept.len() {
                    assert(r[i] == kept[i]);
                    assert(pred(kept[i]));
                } else {
                    assert(r[j] == kept[j]);
                    assert(pred(kept[j]));
                }
            }
        },
    }
}

/// Lookup only looks at the Control, Shift and Alt bits of the key
/// event's state: any other bit (a lock bit, say) changes nothing.
pub proof fn law_lookup_ignores_other_modifier_bits(
    t: Seq<(Action, Seq<char>)>,
    resolved: Seq<Option<u32>>,
    key: u32,
    state: u32,
    extra: u32,
)
    requires
        extra & RELEVANT_MODIFIERS == 0,
    ensures
        first_triggered(t, resolved, key, relevant_bits(state | extra)) == first_triggered(
            t,
            resolved,
            key,
            relevant_bits(state),
        ),
{
    assert((state | extra) & 13u32 == state & 13u32) by (bit_vector)
        requires
            extra & 13u32 == 0u32,
    ;
}

proof fn lemma_split_no_plus(w: Seq<char>, cur: Seq<char>)
    requires
        !w.contains('+'),
    ensures
        split_parts_from(w, cur) == seq![cur + w],
    decreases w.len(),
{
    if w.len() == 0 {
        assert(cur + w =~= cur);
    } else {
        assert(w[0] != '+');
        assert(!w.skip(1).contains('+')) by {
            if w.skip(1).contains('+') {
                let i = choose|i: int| 0 <= i < w.skip(1).len() && w.skip(1)[i] == '+';
                assert(w[i + 1] == '+');
            }
        }
        lemma_split_no_plus(w.skip(1), cur.push(w[0]));
        assert(cur.push(w[0]) + w.skip(1) =~= cur + w);
    }
}

proof fn lemma_split_word_then_plus(w: Seq<char>, rest: Seq<char>, cur: Seq<char>)
    requires
        !w.contains('+'),
    ensures
        split_parts_from(w + seq!['+'] + rest, cur) == seq![cur + w] + split_parts_from(
            rest,
            Seq::empty(),
        ),
    decreases w.len(),
{
    let s = w + seq!['+'] + rest;
    if w.len() == 0 {
        assert(s[0] == '+');
        assert(s.skip(1) =~= rest);
        assert(cur + w =~= cur);
    } else {
        assert(s[0] == w[0]);
        assert(w[0] != '+');
        assert(!w.skip(1).contains('+')) by {
            if w.skip(1).contains('+') {
                let i = choose|i: int| 0 <= i < w.skip(1).len() && w.skip(1)[i] == '+';
                assert(w[i + 1] == '+');
            }
        }
        assert(s.skip(1) =~= w.skip(1) + seq!['+'] + rest);
        lemma_split_word_then_plus(w.skip(1), rest, cur.push(w[0]));
        assert(cur.push(w[0]) + w.skip(1) =~= cur + w);
    }
}

proof fn lemma_parts_mask_concat(a: Seq<Seq<char>>, b: Seq<Seq<char>>)
    ensures
        parts_mask(a + b) == parts_mask(a) | parts_mask(b),
    decreases b.len(),
{
    if b.len() == 0 {
        assert(a + b =~= a);
        let x = parts_mask(a);
        assert(x | 0u32 == x) by (bit_vector);
    } else {
        assert((a + b).drop_last() =~= a + b.drop_last());
        assert((a + b).last() == b.last());
        lemma_parts_mask_concat(a, b.drop_last());
        let x = parts_mask(a);
        let y = parts_mask(b.drop_last());
        let z = part_mask(b.last());
        assert((x | y) | z == x | (y | z)) by (bit_vector);
    }
}

proof fn lemma_parts_mask_single(x: Seq<char>)
    ensures
        parts_mask(seq![x]) == 0u32 | part_mask(x),
{
    assert(seq![x].drop_last() =~= Seq::<Seq<char>>::empty());
    assert(seq![x].last() == x);
    assert(parts_mask(Seq::<Seq<char>>::empty()) == 0);
}

/// The parts chord text holds for the modifiers `mods`.
pub open spec fn modifier_parts(mods: u32) -> Seq<Seq<char>> {
    (if has_mask(mods, CONTROL_MASK) {
        seq!["Ctrl"@]
    } else {
        Seq::empty()
    }) + (if has_mask(mods, SHIFT_MASK) {
        seq!["Shift"@]
    } else {
        Seq::empty()
    }) + (if has_mask(mods, ALT_MASK) {
        seq!["Alt"@]
    } else {
        Seq::empty()
    })
}

proof fn lemma_modifier_prefix(x: Seq<char>, text_with_plus: Seq<char>, on: bool, rest: Seq<char>)
    requires
        !x.contains('+'),
        text_with_plus == x + seq!['+'],
    ensures
        chord_parts((if on {
            text_with_plus
        } else {
            Seq::empty()
        }) + rest) == (if on {
            seq![x]
        } else {
            Seq::<Seq<char>>::empty()
        }) + chord_parts(rest),
{
    if on {
        lemma_split_word_then_plus(x, rest, Seq::empty());
        assert(text_with_plus + rest =~= x + seq!['+'] + rest);
        assert(Seq::<char>::empty() + x =~= x);
    } else {
        assert(Seq::<char>::empty() + rest =~= rest);
        assert(Seq::<Seq<char>>::empty() + chord_parts(rest) =~= chord_parts(rest));
    }
}

/// Chord text reads back as the key name and modifiers it was made from,
/// as long as the key name holds no `+` and is not itself a modifier name.
pub proof fn law_chord_text_reads_back(key_name: Seq<char>, mods: u32)
    requires
        !key_name.contains('+'),
        part_mask(key_name) == 0,
    ensures
        chord_parts(chord_text(key_name, mods)) == modifier_parts(mods).push(key_name),
        parts_key(chord_parts(chord_text(key_name, mods))) == Some(key_name),
        parts_mask(chord_parts(chord_text(key_name, mods))) == relevant_bits(mods),
{
    reveal_strlit("Ctrl+");
    reveal_strlit("Shift+");
    reveal_strlit("Alt+");
    reveal_strlit("Ctrl");
    reveal_strlit("Shift");
    reveal_strlit("Alt");
    let c = has_mask(mods, CONTROL_MASK);
    let sh = has_mask(mods, SHIFT_MASK);
    let al = has_mask(mods, ALT_MASK);
    let pc = if c { "Ctrl+"@ } else { Seq::<char>::empty() };
    let ps = if sh { "Shift+"@ } else { Seq::<char>::empty() };
    let pa = if al { "Alt+"@ } else { Seq::<char>::empty() };
    assert("Ctrl+"@ =~= "Ctrl"@ + seq!['+']);
    assert("Shift+"@ =~= "Shift"@ + seq!['+']);
    assert("Alt+"@ =~= "Alt"@ + seq!['+']);
    assert(!"Ctrl"@.contains('+'));
    assert(!"Shift"@.contains('+'));
    assert(!"Alt"@.contains('+'));
    let text = chord_text(key_name, mods);
    assert(text =~= pc + (ps + (pa + key_name)));
    lemma_split_no_plus(key_name, Seq::empty());
    assert(Seq::<char>::empty() + key_name =~= key_name);
    lemma_modifier_prefix("Alt"@, "Alt+"@, al, key_name);
    lemma_modifier_prefix("Shift"@, "Shift+"@, sh, pa + key_name);
    lemma_modifier_prefix("Ctrl"@, "Ctrl+"@, c, ps + (pa + key_name));
    let mc = if c { seq!["Ctrl"@] } else { Seq::<Seq<char>>::empty() };
    let ms = if sh { seq!["Shift"@] } else { Seq::<Seq<char>>::empty() };
    let ma = if al { seq!["Alt"@] } else { Seq::<Seq<char>>::empty() };
    assert(chord_parts(text) =~= modifier_parts(mods).push(key_name)) by {
        assert(mc + (ms + (ma + seq![key_name])) =~= (mc + ms + ma).push(key_name));
    }
    let parts = chord_parts(text);
    assert(parts.last() == key_name);
    assert(parts.drop_last() =~= mc + ms + ma);
    assert(parts_key(parts) == Some(key_name));
    assert(part_mask("Ctrl"@) == CONTROL_MASK);
    assert(part_mask("Shift"@) == SHIFT_MASK) by {
        assert("Shift"@ != "Ctrl"@) by {
            assert("Shift"@[0] != "Ctrl"@[0]);
        }
    }
    assert(part_mask("Alt"@) == ALT_MASK) by {
        assert("Alt"@ != "Ctrl"@) by {
            assert("Alt"@[0] != "Ctrl"@[0]);
        }
        assert("Alt"@ != "Shift"@) by {
            assert("Alt"@[0] != "Shift"@[0]);
        }
    }
    lemma_parts_mask_concat(mc + ms, ma);
    lemma_parts_mask_concat(mc, ms);
    lemma_parts_mask_single("Ctrl"@);
    lemma_parts_mask_single("Shift"@);
    lemma_parts_mask_single("Alt"@);
    let vc = parts_mask(mc);
    let vs = parts_mask(ms);
    let va = parts_mask(ma);
    assert(vc == mods & 4u32) by {
        assert(mods & 4u32 == 4u32 || mods & 4u32 == 0u32) by (bit_vector);
        if c {
            assert(0u32 | 4u32 == 4u32) by (bit_vector);
        }
    }
    assert(vs == mods & 1u32) by {
        if sh {
            assert(0u32 | 1u32 == 1u32) by (bit_vector);
        } else {
            assert(mods & 1u32 == 1u32 || mods & 1u32 == 0u32) by (bit_vector);
        }
    }
    assert(va == mods & 8u32) by {
        if al {
            assert(0u32 | 8u32 == 8u32) by (bit_vector);
        } else {
            assert(mods & 8u32 == 8u32 || mods & 8u32 == 0u32) by (bit_vector);
        }
    }
    assert(mods & 4u32 == 4u32 || mods & 4u32 == 0u32) by (bit_vector);
    assert(((mods & 4u32) | (mods & 1u32)) | (mods & 8u32) == mods & 13u32) by (bit_vector);
    assert(parts_mask(parts) == parts_mask(mc + ms + ma) | part_mask(key_name));
    let w = parts_mask(mc + ms + ma);
    assert(w | 0u32 == w) by (bit_vector);
}

} // verus!
