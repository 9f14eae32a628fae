//! Color schemes: a named 16-color ANSI palette plus default foreground and
//! background, and the store of every known scheme.
use vstd::prelude::*;

use crate::text::same_text;

verus! {

broadcast use vstd::string::group_string_axioms;

/// A named 16-color ANSI palette plus default fg/bg, matching Tilix's
/// notion of a color scheme. Stored as hex strings so it round-trips
/// through TOML.
#[derive(Debug, Clone, PartialEq)]
pub struct ColorScheme {
    pub id: String,
    pub name: String,
    pub foreground: String,
    pub background: String,
    /// black, red, green, yellow, blue, magenta, cyan, white, then the
    /// bright variants in the same order — the standard ANSI 16-color
    /// layout terminals expect.
    pub palette: [String; 16],
}

/// Holds every known color scheme: the ones bundled with the program plus
/// any user overrides — an override with the same `id` as a bundled scheme
/// replaces it, anything else is added.
pub struct ColorSchemeStore {
    schemes: Vec<ColorScheme>,
}

/// The position of the first scheme with id `id`.
pub open spec fn scheme_position(schemes: Seq<ColorScheme>, id: Seq<char>) -> Option<int>
    decreases schemes.len(),
{
    if schemes.len() == 0 {
        None
    } else if schemes[0].id@ == id {
        Some(0)
    } else {
        match scheme_position(schemes.drop_first(), id) {
            Some(i) => Some(i + 1),
            None => None,
        }
    }
}

proof fn lemma_scheme_position(schemes: Seq<ColorScheme>, id: Seq<char>)
    ensures
        match scheme_position(schemes, id) {
            Some(i) => 0 <= i < schemes.len() && schemes[i].id@ == id && forall|k: int|
                0 <= k < i ==> schemes[k].id@ != id,
            None => forall|k: int| 0 <= k < schemes.len() ==> schemes[k].id@ != id,
        },
    decreases schemes.len(),
{
    if schemes.len() > 0 {
        lemma_scheme_position(schemes.drop_first(), id);
        if schemes[0].id@ != id {
            assert forall|k: int| 0 < k < schemes.len() implies schemes[k] == schemes.drop_first()[k
                - 1] by {}
        }
    }
}

/// `schemes` with `s` replacing the first scheme of the same id, or added
/// at the end if there is none.
pub open spec fn with_override(schemes: Seq<ColorScheme>, s: ColorScheme) -> Seq<ColorScheme> {
    match scheme_position(schemes, s.id@) {
        Some(i) => schemes.update(i, s),
        None => schemes.push(s),
    }
}

/// `schemes` after applying each of `overrides` in order.
pub open spec fn with_overrides(schemes: Seq<ColorScheme>, overrides: Seq<ColorScheme>) -> Seq<
    ColorScheme,
>
    decreases overrides.len(),
{
    if overrides.len() == 0 {
        schemes
    } else {
        with_overrides(with_override(schemes, overrides[0]), overrides.drop_first())
    }
}

/// The id of the scheme used when a profile's own scheme is missing.
pub open spec fn fallback_scheme_id() -> Seq<char> {
    "catppuccin-mocha"@
}

impl ColorSchemeStore {
    /// The schemes, in order.
    pub closed spec fn schemes(&self) -> Seq<ColorScheme> {
        self.schemes@
    }

    fn position(&self, id: &str) -> (r: Option<usize>)
        ensures
            match r {
                Some(i) => scheme_position(self.schemes(), id@) == Some(i as int) && i
                    < self.schemes@.len(),
                None => scheme_position(self.schemes(), id@) is None,
            },
    {
        let mut i: usize = 0;
        while i < self.schemes.len()
            invariant
                i <= self.schemes.len(),
                forall|k: int| 0 <= k < i ==> self.schemes@[k].id@ != id@,
            decreases self.schemes.len() - i,
        {
            if same_text(self.schemes[i].id.as_str(), id) {
                proof {
                    lemma_scheme_position(self.schemes@, id@);
                    if let Some(j) = scheme_position(self.schemes@, id@) {
                        if j < i {
                            assert(self.schemes@[j].id@ != id@);
                        }
                        if j > i {
                            assert(self.schemes@[i as int].id@ != id@);
                        }
                    }
                }
                return Some(i);
            }
            i = i + 1;
        }
        proof {
            lemma_scheme_position(self.schemes@, id@);
            if let Some(j) = scheme_position(self.schemes@, id@) {
                assert(self.schemes@[j].id@ != id@);
            }
        }
        None
    }

    /// The bundled schemes with the user's schemes applied over them, in
    /// order: a user scheme replaces the first scheme of the same id, or is
    /// added at the end.
    pub fn from_parts(bundled: Vec<ColorScheme>, user: Vec<ColorScheme>) -> (store: Self)
        ensures
            store.schemes() == with_overrides(bundled@, user@),
    {
        let mut store = Self { schemes: bundled };
        let mut user = user;
        let ghost all = user@;
        while user.len() > 0
            invariant
                with_overrides(bundled@, all) == with_overrides(store.schemes@, user@),
            decreases user.len(),
        {
            let ghost before = user@;
            let s = user.remove(0);
            assert(user@ =~= before.drop_first());
            match store.position(s.id.as_str()) {
                Some(i) => {
                    store.schemes.set(i, s);
                },
                None => {
                    store.schemes.push(s);
                },
            }
        }
        store
    }

    pub fn get(&self, id: &str) -> (r: Option<&ColorScheme>)
        ensures
            match scheme_position(self.schemes(), id@) {
                Some(i) => r == Some(&self.schemes()[i]),
                None => r is None,
            },
    {
        match self.position(id) {
            Some(i) => Some(&self.schemes[i]),
            None => None,
        }
    }

    /// The scheme to use when a profile references an id that no longer
    /// exists (e.g. a user scheme file was deleted after a profile started
    /// using it) — falls back to Catppuccin Mocha.
    pub fn get_or_default(&self, id: &str) -> (s: &ColorScheme)
        requires
            scheme_position(self.schemes(), id@) is Some || scheme_position(
                self.schemes(),
                fallback_scheme_id(),
            ) is Some,
        ensures
            match scheme_position(self.schemes(), id@) {
                Some(i) => *s == self.schemes()[i],
                None => *s == self.schemes()[scheme_position(
                    self.schemes(),
                    fallback_scheme_id(),
                )->0],
            },
    {
        match self.position(id) {
            Some(i) => &self.schemes[i],
            None => {
                let fallback = self.position("catppuccin-mocha");
                match fallback {
                    Some(j) => &self.schemes[j],
                    None => {
                        proof {
                            assert(false);
                        }
                        &self.schemes[0]
                    },
                }
            },
        }
    }

    /// Every scheme, in order.
    pub fn iter(&self) -> (s: &[ColorScheme])
        ensures
            s@ == self.schemes(),
    {
        self.schemes.as_slice()
    }
}


// ---------------------------------------------------------------------------
// Laws of the store.
// ---------------------------------------------------------------------------

/// The ids of `schemes`, in order.
pub open spec fn scheme_ids(schemes: Seq<ColorScheme>) -> Seq<Seq<char>> {
    schemes.map_values(|c: ColorScheme| c.id@)
}

/// The last of `user` with id `id`, if any.
pub open spec fn last_override(user: Seq<ColorScheme>, id: Seq<char>) -> Option<ColorScheme>
    decreases user.len(),
{
    if user.len() == 0 {
        None
    } else if user.last().id@ == id {
        Some(user.last())
    } else {
        last_override(user.drop_last(), id)
    }
}

/// The position of the first of `user` with id `id`, or `user.len()` if
/// there is none.
pub open spec fn first_override(user: Seq<ColorScheme>, id: Seq<char>) -> int
    decreases user.len(),
{
    if user.len() == 0 {
        0
    } else if first_override(user.drop_last(), id) < user.len() - 1 {
        first_override(user.drop_last(), id)
    } else if user.last().id@ == id {
        user.len() - 1
    } else {
        user.len() as int
    }
}

proof fn lemma_override_found(user: Seq<ColorScheme>, id: Seq<char>)
    ensures
        0 <= first_override(user, id) <= user.len(),
        first_override(user, id) < user.len() <==> exists|k: int|
            0 <= k < user.len() && #[trigger] user[k].id@ == id,
        last_override(user, id) is Some <==> first_override(user, id) < user.len(),
    decreases user.len(),
{
    if user.len() > 0 {
        let rest = user.drop_last();
        lemma_override_found(rest, id);
        if exists|k: int| 0 <= k < rest.len() && #[trigger] rest[k].id@ == id {
            let k = choose|k: int| 0 <= k < rest.len() && #[trigger] rest[k].id@ == id;
            assert(user[k].id@ == id);
        }
        if exists|k: int| 0 <= k < user.len() && #[trigger] user[k].id@ == id {
            let k = choose|k: int| 0 <= k < user.len() && #[trigger] user[k].id@ == id;
            if k < rest.len() {
                assert(rest[k].id@ == id);
            }
        }
        if user.last().id@ == id {
            assert(user[user.len() - 1].id@ == id);
        }
    }
}

proof fn lemma_overrides_last(bundled: Seq<ColorScheme>, user: Seq<ColorScheme>)
    requires
        user.len() > 0,
    ensures
        with_overrides(bundled, user) == with_override(
            with_overrides(bundled, user.drop_last()),
            user.last(),
        ),
    decreases user.len(),
{
    if user.len() == 1 {
        assert(user.drop_first().len() == 0);
        assert(user.drop_last().len() == 0);
        assert(with_overrides(with_override(bundled, user[0]), user.drop_first()) == with_override(
            bundled,
            user[0],
        ));
        assert(with_overrides(bundled, user.drop_last()) == bundled);
        assert(user.last() == user[0]);
    } else {
        let first = with_override(bundled, user[0]);
        lemma_overrides_last(first, user.drop_first());
        assert(user.drop_first().drop_last() =~= user.drop_last().drop_first());
        assert(user.drop_last()[0] == user[0]);
        assert(user.drop_first().last() == user.last());
        assert(with_overrides(bundled, user) == with_overrides(first, user.drop_first()));
        assert(with_overrides(bundled, user.drop_last()) == with_overrides(
            first,
            user.drop_last().drop_first(),
        ));
    }
}

/// What the law below states of `r = with_overrides(bundled, user)`.
pub open spec fn overrides_laid_out(
    bundled: Seq<ColorScheme>,
    user: Seq<ColorScheme>,
    r: Seq<ColorScheme>,
) -> bool {
    &&& scheme_ids(r).no_duplicates()
    &&& r.len() >= bundled.len()
    &&& forall|i: int| 0 <= i < bundled.len() ==> (#[trigger] r[i]).id@ == bundled[i].id@
    &&& forall|i: int|
        0 <= i < r.len() ==> (#[trigger] r[i]) == match last_override(user, r[i].id@) {
            Some(s) => s,
            None => bundled[i],
        }
    &&& forall|i: int|
        bundled.len() <= i < r.len() ==> last_override(user, (#[trigger] r[i]).id@) is Some
    &&& forall|k: int| 0 <= k < user.len() ==> scheme_ids(r).contains((#[trigger] user[k]).id@)
    &&& forall|i: int, j: int|
        bundled.len() <= i < j < r.len() ==> first_override(user, (#[trigger] r[i]).id@)
            < first_override(user, (#[trigger] r[j]).id@)
}

/// Applying user schemes over the bundled ones (whose ids are distinct)
/// keeps every bundled id in its place, adds each new user id once, in the
/// order in which it first appears among the user schemes, and gives every
/// id the last user scheme of that id, or the bundled one if there is none;
/// no id occurs twice.
pub proof fn law_user_schemes_override(bundled: Seq<ColorScheme>, user: Seq<ColorScheme>)
    requires
        scheme_ids(bundled).no_duplicates(),
    ensures
        overrides_laid_out(bundled, user, with_overrides(bundled, user)),
    decreases user.len(),
{
    let r = with_overrides(bundled, user);
    if user.len() == 0 {
        assert forall|i: int| 0 <= i < r.len() implies (#[trigger] r[i]) == match last_override(
            user,
            r[i].id@,
        ) {
            Some(s) => s,
            None => bundled[i],
        } by {}
        return;
    }
    let u0 = user.drop_last();
    let u = user.last();
    let r0 = with_overrides(bundled, u0);
    law_user_schemes_override(bundled, u0);
    lemma_overrides_last(bundled, user);
    lemma_scheme_position(r0, u.id@);
    assert forall|x: Seq<char>| #![trigger last_override(user, x)]
        x != u.id@ ==> last_override(user, x) == last_override(u0, x) by {}
    assert forall|x: Seq<char>| #![trigger first_override(user, x)]
        last_override(u0, x) is Some ==> first_override(user, x) == first_override(u0, x) by {
        lemma_override_found(u0, x);
    }
    assert(scheme_ids(r0).len() == r0.len());
    match scheme_position(r0, u.id@) {
        Some(p) => {
            assert(r == r0.update(p, u));
            assert(scheme_ids(r) =~= scheme_ids(r0));
            assert forall|i: int| 0 <= i < r.len() && i != p implies r0[i].id@ != u.id@ by {
                assert(scheme_ids(r0)[i] == r0[i].id@ && scheme_ids(r0)[p] == r0[p].id@);
            }
            assert forall|i: int| 0 <= i < r.len() implies (#[trigger] r[i]) == match last_override(
                user,
                r[i].id@,
            ) {
                Some(s) => s,
                None => bundled[i],
            } by {
                if i != p {
                    assert(r[i] == r0[i]);
                }
            }
            assert forall|i: int|
                bundled.len() <= i < r.len() implies last_override(user, (#[trigger] r[i]).id@) is Some by {
                if i != p {
                    assert(r[i] == r0[i]);
                }
            }
            assert forall|k: int| 0 <= k < user.len() implies scheme_ids(r).contains(
                (#[trigger] user[k]).id@,
            ) by {
                if k < u0.len() {
                    assert(u0[k] == user[k]);
                } else {
                    assert(scheme_ids(r)[p] == u.id@);
                }
            }
            assert forall|i: int, j: int|
                bundled.len() <= i < j < r.len() implies first_override(user, (#[trigger] r[i]).id@)
                < first_override(user, (#[trigger] r[j]).id@) by {
                assert(r[i].id@ == r0[i].id@ && r[j].id@ == r0[j].id@);
                assert(last_override(u0, r0[i].id@) is Some);
                assert(last_override(u0, r0[j].id@) is Some);
            }
        },
        None => {
            assert(r == r0.push(u));
            assert(scheme_ids(r) =~= scheme_ids(r0).push(u.id@));
            lemma_override_found(u0, u.id@);
            assert(!(exists|k: int| 0 <= k < u0.len() && #[trigger] u0[k].id@ == u.id@)) by {
                if exists|k: int| 0 <= k < u0.len() && #[trigger] u0[k].id@ == u.id@ {
                    let k = choose|k: int| 0 <= k < u0.len() && #[trigger] u0[k].id@ == u.id@;
                    assert(scheme_ids(r0).contains(u0[k].id@));
                    let m = choose|m: int| 0 <= m < scheme_ids(r0).len() && scheme_ids(r0)[m] == u0[k].id@;
                    assert(r0[m].id@ == u.id@);
                }
            }
            assert(first_override(user, u.id@) == u0.len());
            assert(scheme_ids(r).no_duplicates()) by {
                let ids = scheme_ids(r);
                assert forall|i: int, j: int| 0 <= i < ids.len() && 0 <= j < ids.len() && i != j implies ids[i]
                    != ids[j] by {
                    if i < r0.len() && j < r0.len() {
                        assert(ids[i] == scheme_ids(r0)[i] && ids[j] == scheme_ids(r0)[j]);
                    } else if i < r0.len() {
                        assert(ids[i] == r0[i].id@);
                    } else {
                        assert(ids[j] == r0[j].id@);
                    }
                }
            }
            assert forall|i: int| 0 <= i < r.len() implies (#[trigger] r[i]) == match last_override(
                user,
                r[i].id@,
            ) {
                Some(s) => s,
                None => bundled[i],
            } by {
                if i < r0.len() {
                    assert(r[i] == r0[i]);
                }
            }
            assert forall|i: int|
                bundled.len() <= i < r.len() implies last_override(user, (#[trigger] r[i]).id@) is Some by {
                if i < r0.len() {
                    assert(r[i] == r0[i]);
                }
            }
            assert forall|k: int| 0 <= k < user.len() implies scheme_ids(r).contains(
                (#[trigger] user[k]).id@,
            ) by {
                if k < u0.len() {
                    assert(u0[k] == user[k]);
                    assert(scheme_ids(r0).contains(u0[k].id@));
                    let m = choose|m: int| 0 <= m < scheme_ids(r0).len() && scheme_ids(r0)[m] == u0[k].id@;
                    assert(scheme_ids(r)[m] == u0[k].id@);
                } else {
                    assert(scheme_ids(r)[r0.len() as int] == u.id@);
                }
            }
            assert forall|i: int, j: int|
                bundled.len() <= i < j < r.len() implies first_override(user, (#[trigger] r[i]).id@)
                < first_override(user, (#[trigger] r[j]).id@) by {
                assert(r[i] == r0[i]);
                assert(last_override(u0, r0[i].id@) is Some);
                lemma_override_found(u0, r0[i].id@);
                if j < r0.len() {
                    assert(r[j] == r0[j]);
                    assert(last_override(u0, r0[j].id@) is Some);
                } else {
                    assert(r[j] == u);
                }
            }
        },
    }
}

} // verus!
