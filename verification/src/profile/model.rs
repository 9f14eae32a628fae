//! Terminal profiles: named bundles of settings new terminals are created
//! with, kept in a store that always starts out with at least one profile.
use vstd::prelude::*;

use crate::text::{
    append_chars, chars_of, decimal, lemma_decimal_injective, lemma_decimal_len, owned, push_decimal,
    same_text, string_from_chars,
};

verus! {

broadcast use vstd::string::group_string_axioms;

pub type ProfileId = String;

#[derive(Debug, Clone)]
pub struct Profile {
    pub id: ProfileId,
    pub name: String,
    pub scheme_id: String,
    /// Seconds of no terminal output required, once a burst of CPU
    /// activity subsides, before the "command finished" notification fires
    /// for a pane using this profile.
    pub silence_seconds: u32,
}

/// A profile as plain values.
pub struct ProfileView {
    pub id: Seq<char>,
    pub name: Seq<char>,
    pub scheme_id: Seq<char>,
    pub silence_seconds: u32,
}

impl View for Profile {
    type V = ProfileView;

    open spec fn view(&self) -> ProfileView {
        ProfileView {
            id: self.id@,
            name: self.name@,
            scheme_id: self.scheme_id@,
            silence_seconds: self.silence_seconds,
        }
    }
}

/// The silence delay a profile gets unless told otherwise.
pub const DEFAULT_SILENCE_SECONDS: u32 = 10;

pub fn default_silence_seconds() -> (s: u32)
    ensures
        s == DEFAULT_SILENCE_SECONDS,
{
    DEFAULT_SILENCE_SECONDS
}

/// Every known profile, in order. Always has at least one profile when
/// built by `from_loaded` — `delete()` refuses to remove the last one, so
/// callers never have to handle an empty store.
pub struct ProfileStore {
    profile: Vec<Profile>,
}

/// The position of the first profile with id `id`.
pub open spec fn position_of_id(ps: Seq<ProfileView>, id: Seq<char>) -> Option<int>
    decreases ps.len(),
{
    if ps.len() == 0 {
        None
    } else if ps[0].id == id {
        Some(0)
    } else {
        match position_of_id(ps.drop_first(), id) {
            Some(i) => Some(i + 1),
            None => None,
        }
    }
}

proof fn lemma_position_of_id(ps: Seq<ProfileView>, id: Seq<char>)
    ensures
        match position_of_id(ps, id) {
            Some(i) => 0 <= i < ps.len() && ps[i].id == id && forall|k: int|
                0 <= k < i ==> ps[k].id != id,
            None => forall|k: int| 0 <= k < ps.len() ==> ps[k].id != id,
        },
    decreases ps.len(),
{
    if ps.len() > 0 {
        lemma_position_of_id(ps.drop_first(), id);
        if ps[0].id != id {
            match position_of_id(ps.drop_first(), id) {
                Some(i) => {
                    assert forall|k: int| 0 <= k < i + 1 implies ps[k].id != id by {
                        if k > 0 {
                            assert(ps.drop_first()[k - 1] == ps[k]);
                        }
                    }
                },
                None => {
                    assert forall|k: int| 0 <= k < ps.len() implies ps[k].id != id by {
                        if k > 0 {
                            assert(ps.drop_first()[k - 1] == ps[k]);
                        }
                    }
                },
            }
        }
    }
}

proof fn lemma_first_position(ps: Seq<ProfileView>, id: Seq<char>, i: int)
    requires
        0 <= i < ps.len(),
        ps[i].id == id,
        forall|k: int| 0 <= k < i ==> ps[k].id != id,
    ensures
        position_of_id(ps, id) == Some(i),
{
    lemma_position_of_id(ps, id);
    match position_of_id(ps, id) {
        Some(j) => {
            if j < i {
                assert(ps[j].id != id);
            }
            if j > i {
                assert(ps[i].id != id);
            }
        },
        None => {
            assert(ps[i].id != id);
        },
    }
}

/// Whether some profile has id `id`.
pub open spec fn has_id(ps: Seq<ProfileView>, id: Seq<char>) -> bool {
    position_of_id(ps, id) is Some
}

/// `ps` with the first profile of id `id` changed by `f` (unchanged when
/// there is none).
pub open spec fn update_first(
    ps: Seq<ProfileView>,
    id: Seq<char>,
    f: spec_fn(ProfileView) -> ProfileView,
) -> Seq<ProfileView> {
    match position_of_id(ps, id) {
        Some(i) => ps.update(i, f(ps[i])),
        None => ps,
    }
}

/// The profile that a fresh store holds.
pub open spec fn default_profile() -> ProfileView {
    ProfileView {
        id: "default"@,
        name: "Default"@,
        scheme_id: "catppuccin-mocha"@,
        silence_seconds: DEFAULT_SILENCE_SECONDS,
    }
}

impl ProfileStore {
    /// The profiles, in order.
    pub closed spec fn profiles(&self) -> Seq<ProfileView> {
        self.profile@.map_values(|p: Profile| p@)
    }

    fn default_store() -> (s: Self)
        ensures
            s.profiles() == seq![default_profile()],
    {
        let s = Self {
            profile: vec![
                Profile {
                    id: String::from_str("default"),
                    name: String::from_str("Default"),
                    scheme_id: String::from_str("catppuccin-mocha"),
                    silence_seconds: default_silence_seconds(),
                },
            ],
        };
        assert(s.profiles() =~= seq![default_profile()]);
        s
    }

    /// The store built from what was read back from disk: the profiles read
    /// if there was at least one, otherwise (nothing read, unreadable, or
    /// empty) a store with just the default profile.
    pub fn from_loaded(loaded: Option<Vec<Profile>>) -> (s: Self)
        ensures
            match loaded {
                Some(v) => if v.len() > 0 {
                    s.profiles() == v@.map_values(|p: Profile| p@)
                } else {
                    s.profiles() == seq![default_profile()]
                },
                None => s.profiles() == seq![default_profile()],
            },
            s.profiles().len() >= 1,
    {
        match loaded {
            Some(v) => {
                if v.len() > 0 {
                    Self { profile: v }
                } else {
                    Self::default_store()
                }
            },
            None => Self::default_store(),
        }
    }

    /// Every profile, in order.
    pub fn iter(&self) -> (ps: &[Profile])
        ensures
            ps@.map_values(|p: Profile| p@) == self.profiles(),
    {
        self.profile.as_slice()
    }

    fn position(&self, id: &str) -> (r: Option<usize>)
        ensures
            match r {
                Some(i) => position_of_id(self.profiles(), id@) == Some(i as int) && i
                    < self.profile.len(),
                None => position_of_id(self.profiles(), id@) is None,
            },
    {
        let ghost ps = self.profiles();
        let mut i: usize = 0;
        while i < self.profile.len()
            invariant
                i <= self.profile.len(),
                ps == self.profiles(),
                forall|k: int| 0 <= k < i ==> ps[k].id != id@,
            decreases self.profile.len() - i,
        {
            if same_text(self.profile[i].id.as_str(), id) {
                proof {
                    lemma_first_position(ps, id@, i as int);
                }
                return Some(i);
            }
            i = i + 1;
        }
        proof {
            lemma_position_of_id(ps, id@);
            if let Some(j) = position_of_id(ps, id@) {
                assert(ps[j].id != id@);
            }
        }
        None
    }

    pub fn get(&self, id: &str) -> (r: Option<&Profile>)
        ensures
            match position_of_id(self.profiles(), id@) {
                Some(i) => r matches Some(p) && p@ == self.profiles()[i],
                None => r is None,
            },
    {
        match self.position(id) {
            Some(i) => Some(&self.profile[i]),
            None => None,
        }
    }

    pub fn get_mut(&mut self, id: &str) -> (r: Option<&mut Profile>)
        ensures
            match position_of_id(old(self).profiles(), id@) {
                Some(i) => r matches Some(p) && (*p)@ == old(self).profiles()[i]
                    && final(self).profiles() == old(self).profiles().update(i, (*final(p))@),
                None => r is None && *final(self) == *old(self),
            },
    {
        match self.position(id) {
            Some(i) => Some(&mut self.profile[i]),
            None => None,
        }
    }
}

// ---------------------------------------------------------------------------
// Slugs.
// ---------------------------------------------------------------------------

/// What `str::to_lowercase` makes of a string.
pub uninterp spec fn lowercase(s: Seq<char>) -> Seq<char>;

/// What `char::is_alphanumeric` says of a character.
pub uninterp spec fn alphanumeric(c: char) -> bool;

/// Whether `c` is an ASCII letter or digit.
pub open spec fn ascii_alphanumeric(c: char) -> bool {
    ('a' <= c && c <= 'z') || ('A' <= c && c <= 'Z') || ('0' <= c && c <= '9')
}

/// Whether every character of `s` is ASCII.
pub open spec fn ascii_text(s: Seq<char>) -> bool {
    forall|i: int| 0 <= i < s.len() ==> (s[i] as u32) < 128
}

/// `c` lowercased the ASCII way: `A` to `Z` become `a` to `z`, anything
/// else stays.
pub open spec fn ascii_lower_char(c: char) -> char {
    if 'A' <= c && c <= 'Z' {
        ((c as u32) + 32) as char
    } else {
        c
    }
}

/// `s` lowercased the ASCII way.
pub open spec fn ascii_lowercase(s: Seq<char>) -> Seq<char> {
    s.map_values(|c: char| ascii_lower_char(c))
}

/// The lowercase form of `s`.
///
/// Calls std's `str::to_lowercase`. Claims that the result is a function
/// of the characters of `s` and that ASCII text is lowercased the ASCII way
/// (`A` to `Z` become `a` to `z`, every other ASCII character stays); the
/// Unicode lowercase mapping beyond ASCII is left unsaid.
#[verifier::external_body]
fn to_lowercase(s: &str) -> (r: String)
    ensures
        r@ == lowercase(s@),
        ascii_text(s@) ==> r@ == ascii_lowercase(s@),
{
    s.to_lowercase()
}

/// Whether `c` is alphabetic or numeric.
///
/// Calls std's `char::is_alphanumeric`. Claims that the answer is a
/// function of `c` and, as std decides ASCII characters itself, that an
/// ASCII character is alphanumeric exactly when it is a letter or a digit;
/// the Unicode categories beyond ASCII are left unsaid.
#[verifier::external_body]
fn is_alphanumeric(c: char) -> (b: bool)
    ensures
        b == alphanumeric(c),
        (c as u32) < 128 ==> (b <==> ascii_alphanumeric(c)),
{
    c.is_alphanumeric()
}

pub open spec fn dash_unless_alphanumeric(c: char) -> char {
    if alphanumeric(c) {
        c
    } else {
        '-'
    }
}

pub open spec fn strip_leading_dashes(s: Seq<char>) -> Seq<char>
    decreases s.len(),
{
    if s.len() > 0 && s[0] == '-' {
        strip_leading_dashes(s.skip(1))
    } else {
        s
    }
}

pub open spec fn strip_trailing_dashes(s: Seq<char>) -> Seq<char>
    decreases s.len(),
{
    if s.len() > 0 && s.last() == '-' {
        strip_trailing_dashes(s.drop_last())
    } else {
        s
    }
}

/// The slug of already lowercased text: every character that isn't
/// alphanumeric turned into `-`, leading and trailing `-` removed, and
/// `"profile"` if nothing is left.
pub open spec fn slug_from_lowercase(lower: Seq<char>) -> Seq<char> {
    let t = strip_trailing_dashes(
        strip_leading_dashes(lower.map_values(|c: char| dash_unless_alphanumeric(c))),
    );
    if t.len() == 0 {
        "profile"@
    } else {
        t
    }
}

/// The slug of a profile name: the slug of its lowercase form.
pub open spec fn slug(name: Seq<char>) -> Seq<char> {
    slug_from_lowercase(lowercase(name))
}

/// An ASCII character kept in a slug if it is a letter or digit, `-`
/// otherwise.
pub open spec fn ascii_dash(c: char) -> char {
    if ascii_alphanumeric(c) {
        c
    } else {
        '-'
    }
}

/// `slug_from_lowercase` as it works out on ASCII text.
pub open spec fn ascii_slug_from_lowercase(lower: Seq<char>) -> Seq<char> {
    let t = strip_trailing_dashes(strip_leading_dashes(lower.map_values(|c: char| ascii_dash(c))));
    if t.len() == 0 {
        "profile"@
    } else {
        t
    }
}

/// `slug` as it works out on an ASCII name: lowercased the ASCII way, every
/// character but ASCII letters and digits turned into `-`, leading and
/// trailing `-` removed, and `"profile"` if nothing is left.
pub open spec fn ascii_slug(name: Seq<char>) -> Seq<char> {
    ascii_slug_from_lowercase(ascii_lowercase(name))
}

proof fn lemma_ascii_lowercase_is_ascii(s: Seq<char>)
    requires
        ascii_text(s),
    ensures
        ascii_text(ascii_lowercase(s)),
{
    assert forall|i: int| 0 <= i < ascii_lowercase(s).len() implies (ascii_lowercase(s)[i] as u32)
        < 128 by {
        let c = s[i];
        if 'A' <= c && c <= 'Z' {
            assert(((c as u32) + 32) as char as u32 == (c as u32) + 32);
        }
    }
}

/// Turns a profile name into an id-friendly slug, e.g. `"My Profile"` ->
/// `"my-profile"`. On an ASCII name the slug is the ASCII one.
pub fn slugify(name: &str) -> (s: String)
    ensures
        s@ == slug(name@),
        ascii_text(name@) ==> slug(name@) == ascii_slug(name@),
{
    let lower = to_lowercase(name);
    proof {
        if ascii_text(name@) {
            lemma_ascii_lowercase_is_ascii(name@);
        }
    }
    slug_of_lowercased(lower.as_str())
}

/// The slug of text that is already lowercase (see `slug_from_lowercase`);
/// on ASCII text, the ASCII slug.
pub fn slug_of_lowercased(text: &str) -> (s: String)
    ensures
        s@ == slug_from_lowercase(text@),
        ascii_text(text@) ==> slug_from_lowercase(text@) == ascii_slug_from_lowercase(text@),
{
    let lower = chars_of(text);
    let ghost mapped_spec = lower@.map_values(|c: char| dash_unless_alphanumeric(c));
    let mut mapped: Vec<char> = Vec::new();
    let mut i: usize = 0;
    while i < lower.len()
        invariant
            i <= lower.len(),
            mapped@ == mapped_spec.take(i as int),
            mapped_spec == lower@.map_values(|c: char| dash_unless_alphanumeric(c)),
            forall|k: int|
                0 <= k < i && (lower@[k] as u32) < 128 ==> (alphanumeric(#[trigger] lower@[k])
                    <==> ascii_alphanumeric(lower@[k])),
        decreases lower.len() - i,
    {
        let c = lower[i];
        if is_alphanumeric(c) {
            mapped.push(c);
        } else {
            mapped.push('-');
        }
        i = i + 1;
        assert(mapped@ =~= mapped_spec.take(i as int));
    }
    assert(mapped_spec.take(lower.len() as int) =~= mapped_spec);
    proof {
        if ascii_text(text@) {
            assert(mapped_spec =~= lower@.map_values(|c: char| ascii_dash(c)));
        }
    }
    let ghost m = mapped@;
    let mut start: usize = 0;
    assert(m.skip(0) =~= m);
    while start < mapped.len() && mapped[start] == '-'
        invariant
            start <= mapped.len(),
            m == mapped@,
            strip_leading_dashes(m) == strip_leading_dashes(m.skip(start as int)),
        decreases mapped.len() - start,
    {
        assert(m.skip(start as int).skip(1) =~= m.skip(start + 1));
        start = start + 1;
    }
    let ghost lead = m.skip(start as int);
    let mut end: usize = mapped.len();
    assert(lead.take(end - start) =~= lead);
    while end > start && mapped[end - 1] == '-'
        invariant
            start <= end <= mapped.len(),
            m == mapped@,
            lead == m.skip(start as int),
            strip_trailing_dashes(lead) == strip_trailing_dashes(lead.take(end - start)),
        decreases end - start,
    {
        assert(lead.take(end - start).drop_last() =~= lead.take(end - 1 - start));
        end = end - 1;
    }
    let mut kept: Vec<char> = Vec::new();
    let mut k: usize = start;
    while k < end
        invariant
            start <= k <= end <= mapped.len(),
            m == mapped@,
            kept@ == m.subrange(start as int, k as int),
        decreases end - k,
    {
        kept.push(mapped[k]);
        k = k + 1;
        assert(kept@ =~= m.subrange(start as int, k as int));
    }
    assert(kept@ =~= lead.take(end - start));
    assert(strip_trailing_dashes(lead.take(end - start)) == lead.take(end - start));
    if kept.len() == 0 {
        String::from_str("profile")
    } else {
        string_from_chars(&kept)
    }
}

/// `base` numbered `n`: `base`, the separator `sep`, then `n` in decimal.
pub open spec fn numbered(base: Seq<char>, sep: char, n: nat) -> Seq<char> {
    base + seq![sep] + decimal(n)
}

/// The `n`-th candidate id derived from `base`: `"{base}-{n}"`.
pub open spec fn candidate(base: Seq<char>, n: nat) -> Seq<char> {
    numbered(base, '-', n)
}

/// Whether `id` is the id a new profile named `name` gets next to the
/// profiles `ps`: the slug of the name if it is free, otherwise the first
/// free candidate `"{slug}-2"`, `"{slug}-3"`, ...
pub open spec fn is_unique_slug(ps: Seq<ProfileView>, name: Seq<char>, id: Seq<char>) -> bool {
    let base = slug(name);
    if !has_id(ps, base) {
        id == base
    } else {
        exists|n: nat|
            n >= 2 && id == candidate(base, n) && !has_id(ps, id) && forall|k: nat|
                2 <= k < n ==> has_id(ps, #[trigger] candidate(base, k))
    }
}

/// The names of the profiles, in order.
pub open spec fn names_of(ps: Seq<ProfileView>) -> Seq<Seq<char>> {
    ps.map_values(|p: ProfileView| p.name)
}

/// Whether `result` is the name a copy of a profile named `name` gets next
/// to the profiles `ps`: `"{name} copy"` if no profile has that name yet,
/// otherwise the first of `"{name} copy 2"`, `"{name} copy 3"`, ... that
/// none has.
pub open spec fn is_copy_name(ps: Seq<ProfileView>, name: Seq<char>, result: Seq<char>) -> bool {
    let base = name + " copy"@;
    if !names_of(ps).contains(base) {
        result == base
    } else {
        exists|n: nat|
            n >= 2 && result == numbered(base, ' ', n) && !names_of(ps).contains(result)
                && forall|k: nat| 2 <= k < n ==> names_of(ps).contains(#[trigger] numbered(base, ' ', k))
    }
}

proof fn lemma_numbered_distinct(base: Seq<char>, sep: char, a: nat, b: nat)
    requires
        numbered(base, sep, a) == numbered(base, sep, b),
    ensures
        a == b,
{
    let ca = numbered(base, sep, a);
    let cb = numbered(base, sep, b);
    assert(ca.skip(base.len() + 1 as int) =~= decimal(a));
    assert(cb.skip(base.len() + 1 as int) =~= decimal(b));
    lemma_decimal_injective(a, b);
}

proof fn lemma_has_id_contains(ps: Seq<ProfileView>, id: Seq<char>)
    ensures
        has_id(ps, id) <==> ps.map_values(|p: ProfileView| p.id).contains(id),
{
    lemma_position_of_id(ps, id);
    let ids = ps.map_values(|p: ProfileView| p.id);
    if let Some(i) = position_of_id(ps, id) {
        assert(ids[i] == id);
    }
    if ids.contains(id) {
        let i = choose|i: int| 0 <= i < ids.len() && ids[i] == id;
        assert(ps[i].id == id);
    }
}

proof fn lemma_pigeonhole(ids: Seq<Seq<char>>, found: Seq<Seq<char>>)
    requires
        found.no_duplicates(),
        forall|i: int| 0 <= i < found.len() ==> ids.contains(#[trigger] found[i]),
    ensures
        found.len() <= ids.len(),
{
    broadcast use vstd::seq_lib::group_seq_properties;

    found.unique_seq_to_set();
    ids.lemma_cardinality_of_set();
    assert(found.to_set().subset_of(ids.to_set())) by {
        assert forall|x: Seq<char>| found.to_set().contains(x) implies ids.to_set().contains(x) by {
            let i = choose|i: int| 0 <= i < found.len() && found[i] == x;
        }
    }
    vstd::set_lib::lemma_len_subset(found.to_set(), ids.to_set());
}

/// The keys found taken so far while numbering `base`: `base` itself,
/// then `base` numbered `2 .. n`.
spec fn taken_so_far(base: Seq<char>, sep: char, n: nat) -> Seq<Seq<char>> {
    seq![base] + Seq::new((n - 2) as nat, |i: int| numbered(base, sep, (i + 2) as nat))
}

/// When `base` and its numbers `2 .. n` are all among `keys`, there are at
/// least `n - 1` keys: a search for a free number ends.
proof fn lemma_numbered_taken(keys: Seq<Seq<char>>, base: Seq<char>, sep: char, n: nat)
    requires
        n >= 2,
        keys.contains(base),
        forall|k: nat| 2 <= k < n ==> keys.contains(#[trigger] numbered(base, sep, k)),
    ensures
        n - 1 <= keys.len(),
{
    let found = taken_so_far(base, sep, n);
    assert(found.len() == n - 1);
    assert forall|i: int, j: int|
        0 <= i < found.len() && 0 <= j < found.len() && i != j implies found[i] != found[j] by {
        lemma_decimal_len((i + 1) as nat);
        lemma_decimal_len((j + 1) as nat);
        if i == 0 {
            assert(found[j] == numbered(base, sep, (j + 1) as nat));
            assert(found[j].len() > base.len());
        } else if j == 0 {
            assert(found[i] == numbered(base, sep, (i + 1) as nat));
            assert(found[i].len() > base.len());
        } else {
            assert(found[i] == numbered(base, sep, (i + 1) as nat));
            assert(found[j] == numbered(base, sep, (j + 1) as nat));
            if found[i] == found[j] {
                lemma_numbered_distinct(base, sep, (i + 1) as nat, (j + 1) as nat);
            }
        }
    }
    assert forall|i: int| 0 <= i < found.len() implies keys.contains(#[trigger] found[i]) by {
        if i > 0 {
            assert(found[i] == numbered(base, sep, (i + 1) as nat));
        }
    }
    lemma_pigeonhole(keys, found);
}

proof fn lemma_taken_so_far(ps: Seq<ProfileView>, base: Seq<char>, n: nat)
    requires
        n >= 2,
        has_id(ps, base),
        forall|k: nat| 2 <= k < n ==> has_id(ps, #[trigger] candidate(base, k)),
    ensures
        n - 1 <= ps.len(),
{
    let ids = ps.map_values(|p: ProfileView| p.id);
    lemma_has_id_contains(ps, base);
    assert forall|k: nat| 2 <= k < n implies ids.contains(#[trigger] numbered(base, '-', k)) by {
        assert(has_id(ps, candidate(base, k)));
        lemma_has_id_contains(ps, numbered(base, '-', k));
    }
    lemma_numbered_taken(ids, base, '-', n);
}

impl ProfileStore {
    fn unique_slug(&self, name: &str) -> (id: ProfileId)
        requires
            self.profiles().len() < usize::MAX,
        ensures
            is_unique_slug(self.profiles(), name@, id@),
            !has_id(self.profiles(), id@),
            ascii_text(name@) ==> slug(name@) == ascii_slug(name@),
    {
        let base = slugify(name);
        if self.position(base.as_str()).is_none() {
            return base;
        }
        let ghost ps = self.profiles();
        let base_chars = chars_of(base.as_str());
        let mut n: u64 = 2;
        loop
            invariant
                2 <= n,
                n <= ps.len() + 1,
                ps.len() < usize::MAX,
                ps == self.profiles(),
                base_chars@ == slug(name@),
                has_id(ps, slug(name@)),
                ascii_text(name@) ==> slug(name@) == ascii_slug(name@),
                forall|k: nat| 2 <= k < n ==> has_id(ps, #[trigger] candidate(slug(name@), k)),
            decreases ps.len() + 2 - n,
        {
            let mut cand = Vec::new();
            append_chars(&mut cand, &base_chars);
            cand.push('-');
            push_decimal(n, &mut cand);
            assert(cand@ =~= candidate(slug(name@), n as nat));
            let text = string_from_chars(&cand);
            if self.position(text.as_str()).is_none() {
                assert(is_unique_slug(ps, name@, text@)) by {
                    assert(n as nat >= 2 && text@ == candidate(slug(name@), n as nat));
                }
                return text;
            }
            proof {
                lemma_taken_so_far(ps, slug(name@), (n + 1) as nat);
            }
            n = n + 1;
        }
    }

    /// Whether some profile is named `name`.
    fn name_taken(&self, name: &str) -> (b: bool)
        ensures
            b == names_of(self.profiles()).contains(name@),
    {
        let ghost ps = self.profiles();
        let mut i: usize = 0;
        while i < self.profile.len()
            invariant
                i <= self.profile.len(),
                ps == self.profiles(),
                forall|k: int| 0 <= k < i ==> ps[k].name != name@,
            decreases self.profile.len() - i,
        {
            if same_text(self.profile[i].name.as_str(), name) {
                assert(names_of(ps)[i as int] == name@);
                return true;
            }
            i = i + 1;
        }
        assert(!names_of(ps).contains(name@)) by {
            if names_of(ps).contains(name@) {
                let k = choose|k: int| 0 <= k < names_of(ps).len() && names_of(ps)[k] == name@;
                assert(ps[k].name == name@);
            }
        }
        false
    }

    /// The name for a copy of a profile named `name` (see `is_copy_name`).
    fn copy_name(&self, name: &str) -> (r: String)
        requires
            self.profiles().len() < usize::MAX,
        ensures
            is_copy_name(self.profiles(), name@, r@),
            !names_of(self.profiles()).contains(r@),
    {
        let ghost ps = self.profiles();
        let mut base_chars = chars_of(name);
        append_chars(&mut base_chars, &chars_of(" copy"));
        let base = string_from_chars(&base_chars);
        if !self.name_taken(base.as_str()) {
            return base;
        }
        let mut n: u64 = 2;
        loop
            invariant
                2 <= n,
                n <= ps.len() + 1,
                ps.len() < usize::MAX,
                ps == self.profiles(),
                base_chars@ == name@ + " copy"@,
                names_of(ps).contains(base_chars@),
                forall|k: nat| 2 <= k < n ==> names_of(ps).contains(#[trigger] numbered(base_chars@, ' ', k)),
            decreases ps.len() + 2 - n,
        {
            let mut cand = Vec::new();
            append_chars(&mut cand, &base_chars);
            cand.push(' ');
            push_decimal(n, &mut cand);
            assert(cand@ =~= numbered(base_chars@, ' ', n as nat));
            let text = string_from_chars(&cand);
            if !self.name_taken(text.as_str()) {
                assert(is_copy_name(ps, name@, text@)) by {
                    assert(n as nat >= 2 && text@ == numbered(base_chars@, ' ', n as nat));
                }
                return text;
            }
            proof {
                lemma_numbered_taken(names_of(ps), base_chars@, ' ', (n + 1) as nat);
            }
            n = n + 1;
        }
    }

    /// Creates a profile with a fresh slug id derived from `name`
    /// (`"My Profile"` -> `"my-profile"`, de-duplicated with a numeric
    /// suffix if that slug is already taken), returning the new id.
    pub fn create(&mut self, name: &str, scheme_id: &str) -> (id: ProfileId)
        requires
            old(self).profiles().len() < usize::MAX,
        ensures
            is_unique_slug(old(self).profiles(), name@, id@),
            !has_id(old(self).profiles(), id@),
            ascii_text(name@) ==> slug(name@) == ascii_slug(name@),
            final(self).profiles() == old(self).profiles().push(
                ProfileView {
                    id: id@,
                    name: name@,
                    scheme_id: scheme_id@,
                    silence_seconds: DEFAULT_SILENCE_SECONDS,
                },
            ),
    {
        let id = self.unique_slug(name);
        self.profile.push(
            Profile {
                id: id.clone(),
                name: owned(name),
                scheme_id: owned(scheme_id),
                silence_seconds: default_silence_seconds(),
            },
        );
        assert(self.profiles() =~= old(self).profiles().push(
            ProfileView {
                id: id@,
                name: name@,
                scheme_id: scheme_id@,
                silence_seconds: DEFAULT_SILENCE_SECONDS,
            },
        ));
        id
    }

    pub fn rename(&mut self, id: &str, new_name: &str)
        ensures
            final(self).profiles() == update_first(
                old(self).profiles(),
                id@,
                |p: ProfileView| ProfileView { name: new_name@, ..p },
            ),
    {
        if let Some(i) = self.position(id) {
            self.profile[i].name = owned(new_name);
            assert(self.profiles() =~= update_first(
                old(self).profiles(),
                id@,
                |p: ProfileView| ProfileView { name: new_name@, ..p },
            ));
        }
    }

    pub fn set_scheme(&mut self, id: &str, scheme_id: &str)
        ensures
            final(self).profiles() == update_first(
                old(self).profiles(),
                id@,
                |p: ProfileView| ProfileView { scheme_id: scheme_id@, ..p },
            ),
    {
        if let Some(i) = self.position(id) {
            self.profile[i].scheme_id = owned(scheme_id);
            assert(self.profiles() =~= update_first(
                old(self).profiles(),
                id@,
                |p: ProfileView| ProfileView { scheme_id: scheme_id@, ..p },
            ));
        }
    }

    pub fn set_silence_seconds(&mut self, id: &str, silence_seconds: u32)
        ensures
            final(self).profiles() == update_first(
                old(self).profiles(),
                id@,
                |p: ProfileView| ProfileView { silence_seconds, ..p },
            ),
    {
        if let Some(i) = self.position(id) {
            self.profile[i].silence_seconds = silence_seconds;
            assert(self.profiles() =~= update_first(
                old(self).profiles(),
                id@,
                |p: ProfileView| ProfileView { silence_seconds, ..p },
            ));
        }
    }

    /// Duplicates an existing profile under a name of its own ("Foo copy",
    /// then "Foo copy 2", ..., see `is_copy_name`) and a fresh id derived
    /// from that name ("foo-copy", "foo-copy-2", ...). Returns `None` if
    /// `id` doesn't exist.
    pub fn clone_profile(&mut self, id: &str) -> (new_id: Option<ProfileId>)
        requires
            old(self).profiles().len() < usize::MAX,
        ensures
            match position_of_id(old(self).profiles(), id@) {
                None => new_id is None && final(self).profiles() == old(self).profiles(),
                Some(i) => {
                    let source = old(self).profiles()[i];
                    let copy = final(self).profiles().last();
                    &&& new_id matches Some(n) && copy.id == n@
                    &&& final(self).profiles() == old(self).profiles().push(copy)
                    &&& is_copy_name(old(self).profiles(), source.name, copy.name)
                    &&& is_unique_slug(old(self).profiles(), copy.name, copy.id)
                    &&& ascii_text(copy.name) ==> slug(copy.name) == ascii_slug(copy.name)
                    &&& copy.scheme_id == source.scheme_id
                    &&& copy.silence_seconds == source.silence_seconds
                },
            },
    {
        let i = match self.position(id) {
            Some(i) => i,
            None => return None,
        };
        let new_name = self.copy_name(self.profile[i].name.as_str());
        let scheme_id = self.profile[i].scheme_id.clone();
        let silence = self.profile[i].silence_seconds;
        let ghost before = self.profiles();
        let new_id = self.create(new_name.as_str(), scheme_id.as_str());
        let ghost pushed = self.profiles();
        proof {
            lemma_position_of_id(before, new_id@);
            lemma_first_position(pushed, new_id@, before.len() as int);
        }
        self.set_silence_seconds(new_id.as_str(), silence);
        assert(self.profiles() =~= old(self).profiles().push(
            ProfileView {
                id: new_id@,
                name: new_name@,
                scheme_id: scheme_id@,
                silence_seconds: silence,
            },
        ));
        Some(new_id)
    }

    /// Removes every profile with id `id`. No-op (returns `false`) if there
    /// is only one profile left — there must always be at least one
    /// profile to spawn terminals with.
    pub fn delete(&mut self, id: &str) -> (removed: bool)
        ensures
            old(self).profiles().len() <= 1 ==> !removed && final(self).profiles() == old(
                self,
            ).profiles(),
            old(self).profiles().len() > 1 ==> final(self).profiles() == old(
                self,
            ).profiles().filter(other_id_than(id@)) && removed == has_id(
                old(self).profiles(),
                id@,
            ),
    {
        if self.profile.len() <= 1 {
            return false;
        }
        let ghost ps = self.profiles();
        let mut kept: Vec<Profile> = Vec::new();
        let mut old_profiles: Vec<Profile> = Vec::new();
        std::mem::swap(&mut old_profiles, &mut self.profile);
        let ghost all = old_profiles@;
        let mut i: usize = 0;
        let mut removed = false;
        while old_profiles.len() > 0
            invariant
                all.map_values(|p: Profile| p@) == ps,
                old_profiles@ == all.skip(i as int),
                i <= all.len(),
                all.len() <= usize::MAX,
                kept@.map_values(|p: Profile| p@) == ps.take(i as int).filter(other_id_than(id@)),
                removed == has_id_before(ps, id@, i as int),
            decreases old_profiles.len(),
        {
            reveal_with_fuel(Seq::<_>::filter, 1);
            assert(ps.take(i + 1).drop_last() =~= ps.take(i as int));
            assert(all.skip(i as int)[0] == all[i as int]);
            assert(i < all.len());
            let p = old_profiles.remove(0);
            assert(old_profiles@ =~= all.skip(i + 1));
            assert(ps[i as int] == p@);
            if same_text(p.id.as_str(), id) {
                removed = true;
                assert(has_id_before(ps, id@, i + 1)) by {
                    assert(ps[i as int].id == id@);
                }
            } else {
                assert(has_id_before(ps, id@, i + 1) == has_id_before(ps, id@, i as int)) by {
                    if has_id_before(ps, id@, i + 1) {
                        let k = choose|k: int| 0 <= k < i + 1 && ps[k].id == id@;
                        assert(k != i);
                    }
                }
                let ghost before = kept@.map_values(|p: Profile| p@);
                kept.push(p);
                assert(kept@.map_values(|p: Profile| p@) =~= before.push(ps[i as int]));
            }
            i = i + 1;
        }
        assert(ps.take(i as int) =~= ps);
        proof {
            lemma_has_id_before(ps, id@);
        }
        self.profile = kept;
        removed
    }
}

/// Holds of the profiles whose id is not `id`.
pub open spec fn other_id_than(id: Seq<char>) -> spec_fn(ProfileView) -> bool {
    |p: ProfileView| p.id != id
}

spec fn has_id_before(ps: Seq<ProfileView>, id: Seq<char>, i: int) -> bool {
    exists|k: int| 0 <= k < i && ps[k].id == id
}

proof fn lemma_has_id_before(ps: Seq<ProfileView>, id: Seq<char>)
    ensures
        has_id_before(ps, id, ps.len() as int) == has_id(ps, id),
{
    lemma_position_of_id(ps, id);
    if let Some(i) = position_of_id(ps, id) {
        assert(ps[i].id == id);
    }
}

// ---------------------------------------------------------------------------
// Laws of the profile store.
// ---------------------------------------------------------------------------

/// The ids of the profiles, in order.
pub open spec fn ids_of(ps: Seq<ProfileView>) -> Seq<Seq<char>> {
    ps.map_values(|p: ProfileView| p.id)
}

/// The id a new profile gets is determined by the name and the profiles
/// already there.
pub proof fn law_new_id_is_determined(ps: Seq<ProfileView>, name: Seq<char>, a: Seq<char>, b: Seq<char>)
    requires
        is_unique_slug(ps, name, a),
        is_unique_slug(ps, name, b),
    ensures
        a == b,
{
    let base = slug(name);
    if has_id(ps, base) {
        let na = choose|n: nat|
            n >= 2 && a == candidate(base, n) && !has_id(ps, a) && forall|k: nat|
                2 <= k < n ==> has_id(ps, #[trigger] candidate(base, k));
        let nb = choose|n: nat|
            n >= 2 && b == candidate(base, n) && !has_id(ps, b) && forall|k: nat|
                2 <= k < n ==> has_id(ps, #[trigger] candidate(base, k));
        if na < nb {
            assert(has_id(ps, candidate(base, na)));
        }
        if nb < na {
            assert(has_id(ps, candidate(base, nb)));
        }
    }
}

/// The name a copy gets is determined by the copied name and the profiles
/// already there, and no profile has it yet.
pub proof fn law_copy_name_is_determined(
    ps: Seq<ProfileView>,
    name: Seq<char>,
    a: Seq<char>,
    b: Seq<char>,
)
    requires
        is_copy_name(ps, name, a),
        is_copy_name(ps, name, b),
    ensures
        a == b,
        !names_of(ps).contains(a),
{
    let base = name + " copy"@;
    if names_of(ps).contains(base) {
        let na = choose|n: nat|
            n >= 2 && a == numbered(base, ' ', n) && !names_of(ps).contains(a) && forall|k: nat|
                2 <= k < n ==> names_of(ps).contains(#[trigger] numbered(base, ' ', k));
        let nb = choose|n: nat|
            n >= 2 && b == numbered(base, ' ', n) && !names_of(ps).contains(b) && forall|k: nat|
                2 <= k < n ==> names_of(ps).contains(#[trigger] numbered(base, ' ', k));
        if na < nb {
            assert(names_of(ps).contains(numbered(base, ' ', na)));
        }
        if nb < na {
            assert(names_of(ps).contains(numbered(base, ' ', nb)));
        }
    }
}

/// Creating a profile keeps the ids distinct: the new id was not taken.
pub proof fn law_create_keeps_ids_distinct(
    ps: Seq<ProfileView>,
    name: Seq<char>,
    id: Seq<char>,
    created: ProfileView,
)
    requires
        ids_of(ps).no_duplicates(),
        is_unique_slug(ps, name, id),
        created.id == id,
    ensures
        !has_id(ps, id),
        ids_of(ps.push(created)).no_duplicates(),
{
    let base = slug(name);
    if has_id(ps, base) {
        let n = choose|n: nat|
            n >= 2 && id == candidate(base, n) && !has_id(ps, id) && forall|k: nat|
                2 <= k < n ==> has_id(ps, #[trigger] candidate(base, k));
    }
    lemma_has_id_contains(ps, id);
    let ids = ids_of(ps.push(created));
    assert(ids =~= ids_of(ps).push(id));
    assert forall|i: int, j: int| 0 <= i < ids.len() && 0 <= j < ids.len() && i != j implies ids[i]
        != ids[j] by {
        if i < ps.len() && j < ps.len() {
            assert(ids[i] == ids_of(ps)[i] && ids[j] == ids_of(ps)[j]);
        } else if i == ps.len() {
            assert(ids_of(ps)[j] == ids[j]);
        } else {
            assert(ids_of(ps)[i] == ids[i]);
        }
    }
}

/// Deleting from a store whose ids are distinct never empties it, and
/// removes exactly the profile with that id.
pub proof fn law_delete_keeps_a_profile(ps: Seq<ProfileView>, id: Seq<char>)
    requires
        ids_of(ps).no_duplicates(),
        ps.len() > 1,
    ensures
        ps.filter(other_id_than(id)).len() >= 1,
        ps.filter(other_id_than(id)).len() + (if has_id(ps, id) {
            1int
        } else {
            0int
        }) == ps.len(),
{
    lemma_filter_removes_one(ps, id);
}

proof fn lemma_filter_removes_one(ps: Seq<ProfileView>, id: Seq<char>)
    requires
        ids_of(ps).no_duplicates(),
    ensures
        ps.filter(other_id_than(id)).len() + (if has_id(ps, id) {
            1int
        } else {
            0int
        }) == ps.len(),
    decreases ps.len(),
{
    reveal_with_fuel(Seq::<_>::filter, 1);
    if ps.len() > 0 {
        let rest = ps.drop_last();
        assert(ids_of(rest).no_duplicates()) by {
            let a = ids_of(rest);
            assert forall|i: int, j: int| 0 <= i < a.len() && 0 <= j < a.len() && i != j implies a[i]
                != a[j] by {
                assert(a[i] == ids_of(ps)[i] && a[j] == ids_of(ps)[j]);
            }
        }
        lemma_filter_removes_one(rest, id);
        lemma_has_id_contains(ps, id);
        lemma_has_id_contains(rest, id);
        let last = ps.last();
        assert(ids_of(ps) =~= ids_of(rest).push(last.id));
        if last.id == id {
            assert(!ids_of(rest).contains(id)) by {
                if ids_of(rest).contains(id) {
                    let k = choose|k: int| 0 <= k < ids_of(rest).len() && ids_of(rest)[k] == id;
                    assert(ids_of(ps)[k] == ids_of(ps)[ps.len() - 1]);
                }
            }
            assert(ids_of(ps).contains(id)) by {
                assert(ids_of(ps)[ps.len() - 1] == id);
            }
        } else {
            assert(ids_of(ps).contains(id) == ids_of(rest).contains(id)) by {
                if ids_of(ps).contains(id) {
                    let k = choose|k: int| 0 <= k < ids_of(ps).len() && ids_of(ps)[k] == id;
                    assert(k < ps.len() - 1);
                    assert(ids_of(rest)[k] == id);
                }
                if ids_of(rest).contains(id) {
                    let k = choose|k: int| 0 <= k < ids_of(rest).len() && ids_of(rest)[k] == id;
                    assert(ids_of(ps)[k] == id);
                }
            }
        }
    }
}

} // verus!
