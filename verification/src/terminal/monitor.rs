//! Background activity watching for one pane: reading a process's CPU use
//! out of its `/proc/<pid>/stat` line, and the decisions of the poll that
//! turns that into a "command finished" notification.
use vstd::prelude::*;
use crate::text::{blank, chars_of, is_blank, is_whitespace, whitespace};

verus! {

broadcast use vstd::string::group_string_axioms;

/// The position of the last `)` in `s`.
pub open spec fn last_close(s: Seq<char>) -> Option<int>
    decreases s.len(),
{
    if s.len() == 0 {
        None
    } else if s.last() == ')' {
        Some(s.len() - 1)
    } else {
        last_close(s.drop_last())
    }
}

/// The words of `s`: its maximal runs of non-whitespace characters, in
/// order (`str::split_whitespace`).
pub open spec fn words(s: Seq<char>) -> Seq<Seq<char>>
    decreases s.len(),
{
    if s.len() == 0 {
        Seq::empty()
    } else {
        let w = words(s.drop_last());
        if whitespace(s.last()) {
            w
        } else if s.len() >= 2 && !whitespace(s[s.len() - 2]) {
            w.update(w.len() - 1, w.last().push(s.last()))
        } else {
            w.push(seq![s.last()])
        }
    }
}

/// Whether `c` is an ASCII decimal digit.
pub open spec fn is_digit(c: char) -> bool {
    48 <= c as u32 <= 57
}

/// Whether every character of `s` is an ASCII decimal digit.
pub open spec fn all_digits(s: Seq<char>) -> bool {
    forall|i: int| 0 <= i < s.len() ==> is_digit(#[trigger] s[i])
}

/// The number that the decimal digits `s` spell.
pub open spec fn digits_value(s: Seq<char>) -> nat
    decreases s.len(),
{
    if s.len() == 0 {
        0
    } else {
        digits_value(s.drop_last()) * 10 + (s.last() as u32 - 48) as nat
    }
}

/// What `u64::from_str` gives for `s`: an optional `+` followed by one or
/// more decimal digits reads as their value when it fits in a `u64`;
/// anything else is an error.
pub open spec fn parsed_u64(s: Seq<char>) -> Option<u64> {
    let d = if s.len() > 0 && s[0] == '+' {
        s.drop_first()
    } else {
        s
    };
    if d.len() > 0 && all_digits(d) && digits_value(d) <= u64::MAX {
        Some(digits_value(d) as u64)
    } else {
        None
    }
}

/// The `utime` and `stime` fields of a `/proc/<pid>/stat` line: the 12th
/// and 13th words after the last `)` (fields 14 and 15 of proc(5); the
/// command name before that `)` may itself hold spaces and parentheses).
pub open spec fn tick_fields(stat: Seq<char>) -> Option<(u64, u64)> {
    match last_close(stat) {
        None => None,
        Some(i) => {
            let f = words(stat.skip(i + 1));
            if f.len() > 12 {
                match (parsed_u64(f[11]), parsed_u64(f[12])) {
                    (Some(u), Some(s)) => Some((u, s)),
                    _ => None,
                }
            } else {
                None
            }
        },
    }
}

/// Whether the two tick counts of `stat`, where it has them, add up to a
/// number that fits in a `u64`.
pub open spec fn ticks_fit(stat: Seq<char>) -> bool {
    tick_fields(stat) matches Some((u, s)) ==> u + s <= u64::MAX
}

/// The cumulative scheduler ticks (`utime + stime`) that a stat line
/// reports, where it reports both.
pub open spec fn cpu_ticks(stat: Seq<char>) -> Option<int> {
    match tick_fields(stat) {
        Some((u, s)) => Some(u + s),
        None => None,
    }
}

proof fn lemma_last_close_after(a: Seq<char>, rest: Seq<char>)
    requires
        forall|j: int| 0 <= j < rest.len() ==> rest[j] != ')',
    ensures
        last_close(a + seq![')'] + rest) == Some(a.len() as int),
    decreases rest.len(),
{
    let s = a + seq![')'] + rest;
    if rest.len() == 0 {
        assert(s.last() == ')');
    } else {
        assert(s.drop_last() =~= a + seq![')'] + rest.drop_last());
        lemma_last_close_after(a, rest.drop_last());
    }
}

/// The position of the last `)` in `s`, found from the right.
fn find_last_close(s: &Vec<char>) -> (r: Option<usize>)
    ensures
        r matches Some(i) ==> last_close(s@) == Some(i as int),
        r matches Some(i) ==> i < s.len(),
        r is None ==> last_close(s@) is None,
{
    let mut k: usize = s.len();
    assert(s@.take(k as int) =~= s@);
    while k > 0
        invariant
            k <= s.len(),
            last_close(s@) == last_close(s@.take(k as int)),
        decreases k,
    {
        assert(s@.take(k as int).drop_last() =~= s@.take(k - 1));
        if s[k - 1] == ')' {
            return Some(k - 1);
        }
        k = k - 1;
    }
    None
}

/// The characters of `s` from position `start` on.
fn chars_from(s: &Vec<char>, start: usize) -> (r: Vec<char>)
    requires
        start <= s.len(),
    ensures
        r@ == s@.skip(start as int),
{
    let mut r: Vec<char> = Vec::new();
    let mut k: usize = start;
    while k < s.len()
        invariant
            start <= k <= s.len(),
            r@ == s@.subrange(start as int, k as int),
        decreases s.len() - k,
    {
        r.push(s[k]);
        k = k + 1;
        assert(r@ =~= s@.subrange(start as int, k as int));
    }
    assert(s@.subrange(start as int, s.len() as int) =~= s@.skip(start as int));
    r
}

/// The character sequences held by `ws`, in order.
pub open spec fn views(ws: Seq<Vec<char>>) -> Seq<Seq<char>> {
    Seq::new(ws.len(), |i: int| ws[i]@)
}

/// The whitespace-separated words of `s`.
fn split_words(s: &Vec<char>) -> (ws: Vec<Vec<char>>)
    ensures
        views(ws@) == words(s@),
{
    let mut ws: Vec<Vec<char>> = Vec::new();
    let mut current: Vec<char> = Vec::new();
    let mut in_word = false;
    let mut k: usize = 0;
    while k < s.len()
        invariant
            k <= s.len(),
            in_word ==> k > 0 && !whitespace(s@[k - 1]) && words(s@.take(k as int))
                == views(ws@).push(current@),
            !in_word ==> (k == 0 || whitespace(s@[k - 1])) && words(s@.take(k as int))
                == views(ws@),
        decreases s.len() - k,
    {
        let c = s[k];
        let ghost prefix = s@.take(k + 1);
        assert(prefix.drop_last() =~= s@.take(k as int));
        assert(prefix.last() == c);
        if is_whitespace(c) {
            if in_word {
                let ghost before = views(ws@);
                let done = current;
                current = Vec::new();
                ws.push(done);
                assert(views(ws@) =~= before.push(done@));
                in_word = false;
            }
        } else {
            if in_word {
                assert(prefix[prefix.len() - 2] == s@[k - 1]);
                let ghost before = current@;
                current.push(c);
                assert(views(ws@).push(before).update(views(ws@).len() as int, before.push(c))
                    =~= views(ws@).push(current@));
            } else {
                current = Vec::new();
                current.push(c);
                assert(current@ =~= seq![c]);
                in_word = true;
            }
        }
        k = k + 1;
    }
    if in_word {
        let ghost before = views(ws@);
        let ghost last = current@;
        ws.push(current);
        assert(views(ws@) =~= before.push(last));
    }
    assert(s@.take(s.len() as int) =~= s@);
    ws
}

proof fn lemma_digits_value_grows(s: Seq<char>, j: int, k: int)
    requires
        0 <= j <= k <= s.len(),
    ensures
        digits_value(s.take(j)) <= digits_value(s.take(k)),
    decreases k - j,
{
    if j < k {
        lemma_digits_value_grows(s, j, k - 1);
        assert(s.take(k).drop_last() =~= s.take(k - 1));
    }
}

/// `u64::from_str` on the characters of `s`.
fn parse_u64(s: &Vec<char>) -> (r: Option<u64>)
    ensures
        r == parsed_u64(s@),
{
    let start: usize = if s.len() > 0 && s[0] == '+' {
        1
    } else {
        0
    };
    let ghost d = if s@.len() > 0 && s@[0] == '+' {
        s@.drop_first()
    } else {
        s@
    };
    assert(d =~= s@.skip(start as int));
    if start >= s.len() {
        return None;
    }
    let mut v: u64 = 0;
    let mut k: usize = start;
    assert(d.take(0) =~= Seq::<char>::empty());
    while k < s.len()
        invariant
            start <= k <= s.len(),
            d == s@.skip(start as int),
            d == (if s@.len() > 0 && s@[0] == '+' {
                s@.drop_first()
            } else {
                s@
            }),
            d.len() > 0,
            forall|i: int| 0 <= i < k - start ==> is_digit(#[trigger] d[i]),
            v == digits_value(d.take(k - start)),
        decreases s.len() - k,
    {
        let c = s[k];
        let n: u32 = c as u32;
        assert(d[k - start] == c);
        if n < 48 || n > 57 {
            assert(!is_digit(d[k - start]));
            return None;
        }
        let ghost j = k - start + 1;
        assert(d.take(j).drop_last() =~= d.take(j - 1));
        assert(d.take(j).last() == c);
        proof {
            lemma_digits_value_grows(d, j, d.len() as int);
            assert(d.take(d.len() as int) =~= d);
        }
        let digit = (n - 48) as u64;
        assert(digits_value(d.take(j)) == v * 10 + digit);
        match v.checked_mul(10) {
            None => {
                assert(v * 10 + digit > u64::MAX) by (nonlinear_arith)
                    requires v * 10 > u64::MAX, digit >= 0;
                return None;
            },
            Some(m) => match m.checked_add(digit) {
                None => {
                    return None;
                },
                Some(next) => {
                    v = next;
                },
            },
        }
        k = k + 1;
    }
    assert(d.take(d.len() as int) =~= d);
    Some(v)
}

/// The `utime` and `stime` fields of the `/proc/<pid>/stat` line `stat`.
pub fn read_tick_fields(stat: &str) -> (r: Option<(u64, u64)>)
    ensures
        r == tick_fields(stat@),
{
    let cs = chars_of(stat);
    match find_last_close(&cs) {
        None => None,
        Some(i) => {
            let after = chars_from(&cs, i + 1);
            let fields = split_words(&after);
            if fields.len() <= 11 {
                return None;
            }
            assert(views(fields@)[11] == fields@[11]@);
            match parse_u64(&fields[11]) {
                None => None,
                Some(u) => {
                    if fields.len() <= 12 {
                        return None;
                    }
                    assert(views(fields@)[12] == fields@[12]@);
                    match parse_u64(&fields[12]) {
                        None => None,
                        Some(s) => Some((u, s)),
                    }
                },
            }
        },
    }
}

/// Sums the `utime` and `stime` fields of the `/proc/<pid>/stat` line
/// `stat`: the cumulative scheduler ticks that the process has used.
/// The command name, which may itself hold spaces and parentheses, is
/// skipped by anchoring on the last `)`.
pub fn parse_cpu_ticks(stat: &str) -> (r: Option<u64>)
    requires
        ticks_fit(stat@),
    ensures
        match cpu_ticks(stat@) {
            Some(t) => r == Some(t as u64),
            None => r is None,
        },
{
    match read_tick_fields(stat) {
        None => None,
        Some((u, s)) => Some(u + s),
    }
}

/// `parse_cpu_ticks` for any line: `None` also where the two counts would
/// not add up to a number that fits in a `u64`.
pub fn checked_cpu_ticks(stat: &str) -> (r: Option<u64>)
    ensures
        match cpu_ticks(stat@) {
            Some(t) => r == (if t <= u64::MAX {
                Some(t as u64)
            } else {
                None
            }),
            None => r is None,
        },
{
    match read_tick_fields(stat) {
        None => None,
        Some((u, s)) => {
            if u > u64::MAX - s {
                None
            } else {
                parse_cpu_ticks(stat)
            }
        },
    }
}

/// The command name before the last `)` of a stat line, whatever it holds,
/// has no say in the ticks read from it.
pub proof fn law_command_name_is_skipped(a: Seq<char>, b: Seq<char>, rest: Seq<char>)
    requires
        forall|j: int| 0 <= j < rest.len() ==> rest[j] != ')',
    ensures
        cpu_ticks(a + seq![')'] + rest) == cpu_ticks(b + seq![')'] + rest),
        tick_fields(a + seq![')'] + rest) == tick_fields(b + seq![')'] + rest),
{
    lemma_last_close_after(a, rest);
    lemma_last_close_after(b, rest);
    assert((a + seq![')'] + rest).skip(a.len() as int + 1) =~= rest);
    assert((b + seq![')'] + rest).skip(b.len() as int + 1) =~= rest);
}

/// What the background poll of one pane remembers between two readings.
pub struct ActivityWatch {
    /// The tick count of the last reading, if there was one.
    pub last_ticks: Option<u64>,
    /// Whether the process has used CPU since the last notification.
    pub was_busy: bool,
}

/// Whether a reading of `ticks_now` after `last` shows the process at work.
pub open spec fn became_active(last: Option<u64>, ticks_now: u64) -> bool {
    last matches Some(prev) && ticks_now > prev
}

/// The state after a reading and whether a "command finished"
/// notification is due: a process that used CPU since the last reading
/// marks the pane busy; a busy pane whose output has been quiet for at
/// least `silence_seconds`, and which is not the pane the user looks at,
/// is notified once and is no longer busy.
pub open spec fn poll_step(
    w: ActivityWatch,
    ticks_now: u64,
    quiet_secs: u64,
    silence_seconds: u32,
    pane_active: bool,
) -> (ActivityWatch, bool) {
    if became_active(w.last_ticks, ticks_now) {
        (ActivityWatch { last_ticks: Some(ticks_now), was_busy: true }, false)
    } else if w.was_busy && quiet_secs >= silence_seconds && !pane_active {
        (ActivityWatch { last_ticks: Some(ticks_now), was_busy: false }, true)
    } else {
        (ActivityWatch { last_ticks: Some(ticks_now), was_busy: w.was_busy }, false)
    }
}

impl ActivityWatch {
    /// A watch that has read nothing yet.
    pub fn new() -> (w: Self)
        ensures
            w.last_ticks is None,
            !w.was_busy,
    {
        ActivityWatch { last_ticks: None, was_busy: false }
    }

    /// Takes in a reading of `ticks_now` scheduler ticks, with the pane's
    /// output quiet for `quiet_secs` seconds; returns whether to notify
    /// that a command finished.
    pub fn observe(
        &mut self,
        ticks_now: u64,
        quiet_secs: u64,
        silence_seconds: u32,
        pane_active: bool,
    ) -> (notify: bool)
        ensures
            (*final(self), notify) == poll_step(
                *old(self),
                ticks_now,
                quiet_secs,
                silence_seconds,
                pane_active,
            ),
    {
        let previous = self.last_ticks;
        self.last_ticks = Some(ticks_now);
        let active = match previous {
            Some(prev) => ticks_now > prev,
            None => false,
        };
        if active {
            self.was_busy = true;
            return false;
        }
        if self.was_busy && quiet_secs >= silence_seconds as u64 && !pane_active {
            self.was_busy = false;
            return true;
        }
        false
    }
}

/// A busy period ends with at most one notification: after a reading that
/// notified, readings that show no new CPU use do not notify again.
pub proof fn law_one_notification_per_busy_period(
    w: ActivityWatch,
    ticks: u64,
    quiet: u64,
    silence: u32,
    active: bool,
    later_ticks: u64,
    later_quiet: u64,
    later_silence: u32,
    later_active: bool,
)
    requires
        poll_step(w, ticks, quiet, silence, active).1,
        later_ticks <= ticks,
    ensures
        !poll_step(
            poll_step(w, ticks, quiet, silence, active).0,
            later_ticks,
            later_quiet,
            later_silence,
            later_active,
        ).1,
{
}

/// A pane that is being looked at is never notified about.
pub proof fn law_active_pane_is_not_notified(
    w: ActivityWatch,
    ticks: u64,
    quiet: u64,
    silence: u32,
)
    ensures
        !poll_step(w, ticks, quiet, silence, true).1,
{
}

/// The title of a notification about a pane: the terminal's window title
/// where it has one that is not blank, else the application's name.
pub open spec fn notification_title_of(window_title: Option<Seq<char>>) -> Seq<char> {
    match window_title {
        Some(t) => if blank(t) {
            "Rutile"@
        } else {
            t
        },
        None => "Rutile"@,
    }
}

/// The title of a notification about a pane whose terminal has the window
/// title `window_title`.
pub fn notification_title(window_title: Option<&str>) -> (t: String)
    ensures
        t@ == notification_title_of(
            match window_title {
                Some(w) => Some(w@),
                None => None,
            },
        ),
{
    match window_title {
        Some(w) => {
            if is_blank(w) {
                String::from_str("Rutile")
            } else {
                String::from_str(w)
            }
        },
        None => String::from_str("Rutile"),
    }
}

} // verus!
