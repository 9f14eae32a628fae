//! GTK-free title-template rendering for pane headers, plus extraction of
//! a pane's working directory from the URI the terminal reports.
use vstd::prelude::*;
use vstd::utf8::*;

use crate::text::{
    chars_of, decimal, owned, push_decimal, replace_all, replace_chars, string_from_chars,
    trimmed, trimmed_text,
};

verus! {

broadcast use vstd::string::group_string_axioms;

/// Tilix's default profile title format is just the raw window title the
/// terminal picked up via OSC 0/2 — this matches that as the starting
/// point, falling back to "Terminal" (via `render_template`) when the shell
/// hasn't reported one yet.
pub const DEFAULT_TEMPLATE: &'static str = "${title}";

/// The pieces a title template can reference. All `Option` since a shell
/// may not have reported a title/cwd yet (no OSC 0/2/7 support), and
/// host/user lookups can fail.
pub struct TitleContext<'a> {
    pub id: u64,
    pub title: Option<&'a str>,
    pub directory: Option<&'a str>,
    pub host: Option<&'a str>,
    pub user: Option<&'a str>,
}

/// The characters of an optional string.
pub open spec fn str_view(s: Option<&str>) -> Option<Seq<char>> {
    match s {
        Some(t) => Some(t@),
        None => None,
    }
}

/// The title shown for `${title}`: the reported one unless it is missing or
/// empty, in which case "Terminal".
pub open spec fn shown_title_of(title: Option<Seq<char>>) -> Seq<char> {
    match title {
        Some(t) => if t.len() > 0 {
            t
        } else {
            "Terminal"@
        },
        None => "Terminal"@,
    }
}

/// The characters of an optional text, none when it is missing.
pub open spec fn chars_or_none(s: Option<Seq<char>>) -> Seq<char> {
    match s {
        Some(t) => t,
        None => Seq::empty(),
    }
}

pub open spec fn shown_title(title: Option<&str>) -> Seq<char> {
    shown_title_of(str_view(title))
}

pub open spec fn or_empty(s: Option<&str>) -> Seq<char> {
    chars_or_none(str_view(s))
}

/// `template` after substituting, in this order, `${title}`, `${id}`,
/// `${directory}`, `${host}` and `${user}` — each substitution applies to
/// the text the previous ones produced.
pub open spec fn rendered_from(
    template: Seq<char>,
    id: u64,
    title: Option<Seq<char>>,
    directory: Option<Seq<char>>,
    host: Option<Seq<char>>,
    user: Option<Seq<char>>,
) -> Seq<char> {
    let a = replace_all(template, "${title}"@, shown_title_of(title));
    let b = replace_all(a, "${id}"@, decimal(id as nat));
    let c = replace_all(b, "${directory}"@, chars_or_none(directory));
    let d = replace_all(c, "${host}"@, chars_or_none(host));
    replace_all(d, "${user}"@, chars_or_none(user))
}

/// `template` rendered with the values of `ctx` (see `rendered_from`).
pub open spec fn rendered(template: Seq<char>, ctx: TitleContext) -> Seq<char> {
    rendered_from(
        template,
        ctx.id,
        str_view(ctx.title),
        str_view(ctx.directory),
        str_view(ctx.host),
        str_view(ctx.user),
    )
}

fn chars_or_empty(s: Option<&str>) -> (v: Vec<char>)
    ensures
        v@ == or_empty(s),
{
    match s {
        Some(t) => chars_of(t),
        None => Vec::new(),
    }
}

/// Substitutes `${title}`/`${id}`/`${directory}`/`${host}`/`${user}` in
/// `template` with values from `ctx`. Plain literal substitution (no
/// escaping/nesting) — matches the scope of Tilix's own title format
/// strings.
pub fn render_template(template: &str, ctx: &TitleContext) -> (r: String)
    ensures
        r@ == rendered(template@, *ctx),
{
    let title = match ctx.title {
        Some(t) => if t.is_empty() {
            chars_of("Terminal")
        } else {
            chars_of(t)
        },
        None => chars_of("Terminal"),
    };
    let mut id: Vec<char> = Vec::new();
    push_decimal(ctx.id, &mut id);
    assert(id@ =~= decimal(ctx.id as nat));
    let a = replace_chars(&chars_of(template), &chars_of("${title}"), &title);
    let b = replace_chars(&a, &chars_of("${id}"), &id);
    let c = replace_chars(&b, &chars_of("${directory}"), &chars_or_empty(ctx.directory));
    let d = replace_chars(&c, &chars_of("${host}"), &chars_or_empty(ctx.host));
    let e = replace_chars(&d, &chars_of("${user}"), &chars_or_empty(ctx.user));
    string_from_chars(&e)
}

/// What `String::from_utf8_lossy` makes of `bytes`.
pub uninterp spec fn utf8_lossy(bytes: Seq<u8>) -> Seq<char>;

/// Decodes `bytes` as UTF-8, replacing invalid sequences.
///
/// Calls std's `String::from_utf8_lossy`. Claims that the result is a
/// function of the bytes alone and, as its documentation states, that valid
/// UTF-8 is decoded as is; what an invalid sequence is replaced with is
/// left unsaid.
#[verifier::external_body]
fn decode_lossy(bytes: &Vec<u8>) -> (s: String)
    ensures
        s@ == utf8_lossy(bytes@),
        valid_utf8(bytes@) ==> s@ == decode_utf8(bytes@),
{
    String::from_utf8_lossy(bytes).into_owned()
}

/// The local host name for `${host}`, out of the contents of
/// `/proc/sys/kernel/hostname`: the contents without surrounding
/// whitespace, unless nothing is left.
pub fn hostname_from(contents: &str) -> (r: Option<String>)
    ensures
        match r {
            Some(h) => h@ == trimmed(contents@) && trimmed(contents@).len() > 0,
            None => trimmed(contents@).len() == 0,
        },
{
    trimmed_text(contents)
}

/// The local user name for `${user}`, out of the value of `$USER`: that
/// value unless it is missing or empty.
pub fn user_from(value: Option<&str>) -> (r: Option<String>)
    ensures
        match r {
            Some(u) => value matches Some(v) && u@ == v@ && v@.len() > 0,
            None => value is None || value->0@.len() == 0,
        },
{
    match value {
        Some(v) => if v.is_empty() {
            None
        } else {
            Some(owned(v))
        },
        None => None,
    }
}

/// The value of an ASCII hexadecimal digit.
pub open spec fn hex_digit(c: u8) -> Option<u8> {
    if 48 <= c <= 57 {
        Some((c - 48) as u8)
    } else if 97 <= c <= 102 {
        Some((c - 87) as u8)
    } else if 65 <= c <= 70 {
        Some((c - 55) as u8)
    } else {
        None
    }
}

/// The byte a percent escape's two characters denote: both must be
/// hexadecimal digits.
pub open spec fn escape_value(a: u8, b: u8) -> Option<u8> {
    match (hex_digit(a), hex_digit(b)) {
        (Some(x), Some(y)) => Some((16 * x + y) as u8),
        _ => None,
    }
}

/// `bytes` with each `%` followed by an escape (see `escape_value`)
/// replaced by the byte it denotes, scanning from the left.
pub open spec fn percent_decoded(bytes: Seq<u8>) -> Seq<u8>
    decreases bytes.len(),
{
    if bytes.len() == 0 {
        bytes
    } else if bytes[0] == 37 && bytes.len() >= 3 && escape_value(bytes[1], bytes[2]) is Some {
        seq![escape_value(bytes[1], bytes[2])->0] + percent_decoded(bytes.skip(3))
    } else {
        seq![bytes[0]] + percent_decoded(bytes.skip(1))
    }
}

fn escape_value_of(a: u8, b: u8) -> (r: Option<u8>)
    ensures
        r == escape_value(a, b),
{
    match (hex_digit_of(a), hex_digit_of(b)) {
        (Some(x), Some(y)) => Some(16 * x + y),
        _ => None,
    }
}

fn hex_digit_of(c: u8) -> (r: Option<u8>)
    ensures
        r == hex_digit(c),
        r matches Some(v) ==> v < 16,
{
    if 48 <= c && c <= 57 {
        Some(c - 48)
    } else if 97 <= c && c <= 102 {
        Some(c - 87)
    } else if 65 <= c && c <= 70 {
        Some(c - 55)
    } else {
        None
    }
}

/// Percent-decodes `bytes[start..]`.
fn percent_decode_from(bytes: &[u8], start: usize) -> (r: Vec<u8>)
    requires
        start <= bytes@.len(),
    ensures
        r@ == percent_decoded(bytes@.skip(start as int)),
{
    let mut out: Vec<u8> = Vec::new();
    let mut i = start;
    assert(out@ + percent_decoded(bytes@.skip(i as int)) =~= percent_decoded(
        bytes@.skip(start as int),
    ));
    while i < bytes.len()
        invariant
            start <= i <= bytes@.len(),
            percent_decoded(bytes@.skip(start as int)) == out@ + percent_decoded(
                bytes@.skip(i as int),
            ),
        decreases bytes.len() - i,
    {
        let ghost rest = bytes@.skip(i as int);
        assert(rest[0] == bytes@[i as int]);
        if bytes[i] == 37 && bytes.len() - i >= 3 {
            assert(rest[1] == bytes@[i + 1] && rest[2] == bytes@[i + 2]);
            match escape_value_of(bytes[i + 1], bytes[i + 2]) {
                Some(v) => {
                    out.push(v);
                    assert(rest.skip(3) =~= bytes@.skip(i + 3));
                    i = i + 3;
                    continue;
                },
                None => {},
            }
        }
        out.push(bytes[i]);
        assert(rest.skip(1) =~= bytes@.skip(i + 1));
        i = i + 1;
    }
    assert(bytes@.skip(i as int) =~= Seq::<u8>::empty());
    assert(out@ + Seq::<u8>::empty() =~= out@);
    out
}

/// The bytes of `"file://"`.
pub open spec fn file_scheme() -> Seq<u8> {
    seq![102u8, 105u8, 108u8, 101u8, 58u8, 47u8, 47u8]
}

/// `bytes` from its first `/` on, if it has one.
pub open spec fn from_first_slash(bytes: Seq<u8>) -> Option<Seq<u8>>
    decreases bytes.len(),
{
    if bytes.len() == 0 {
        None
    } else if bytes[0] == 47 {
        Some(bytes)
    } else {
        from_first_slash(bytes.skip(1))
    }
}

/// The path part (still escaped) of a `file://[host]/path` URI.
pub open spec fn uri_path(bytes: Seq<u8>) -> Option<Seq<u8>> {
    if bytes.len() >= 7 && bytes.take(7) == file_scheme() {
        from_first_slash(bytes.skip(7))
    } else {
        None
    }
}

/// Where the path of the `file://[host]/path` URI `bytes` starts.
fn path_start(bytes: &[u8]) -> (r: Option<usize>)
    ensures
        match r {
            Some(j) => j <= bytes@.len() && uri_path(bytes@) == Some(bytes@.skip(j as int)),
            None => uri_path(bytes@) is None,
        },
{
    let ghost b = bytes@;
    if bytes.len() < 7 {
        return None;
    }
    let is_file = bytes[0] == 102 && bytes[1] == 105 && bytes[2] == 108 && bytes[3] == 101
        && bytes[4] == 58 && bytes[5] == 47 && bytes[6] == 47;
    if !is_file {
        assert(b.take(7) != file_scheme()) by {
            if b.take(7) == file_scheme() {
                assert(b.take(7)[0] == 102u8 && b.take(7)[1] == 105u8 && b.take(7)[2] == 108u8);
                assert(b.take(7)[3] == 101u8 && b.take(7)[4] == 58u8 && b.take(7)[5] == 47u8);
                assert(b.take(7)[6] == 47u8);
            }
        }
        return None;
    }
    assert(b.take(7) =~= file_scheme());
    let mut j: usize = 7;
    assert(b.skip(7) =~= b.skip(j as int));
    while j < bytes.len() && bytes[j] != 47
        invariant
            7 <= j <= b.len(),
            bytes@ == b,
            from_first_slash(b.skip(7)) == from_first_slash(b.skip(j as int)),
        decreases bytes.len() - j,
    {
        assert(b.skip(j as int).skip(1) =~= b.skip(j + 1));
        j = j + 1;
    }
    if j == bytes.len() {
        assert(b.skip(j as int).len() == 0);
        return None;
    }
    Some(j)
}

/// Extracts a filesystem path from the `file://[host]/path` URI the
/// terminal reports via OSC 7. Percent-decodes the path portion; drops the
/// URI entirely if it isn't `file://`.
pub fn directory_from_uri(uri: &str) -> (r: Option<String>)
    ensures
        r is Some <==> uri_path(encode_utf8(uri@)) is Some,
        r matches Some(dir) ==> dir@ == utf8_lossy(percent_decoded(uri_path(encode_utf8(uri@))->0)),
        valid_utf8(percent_decoded(uri_path(encode_utf8(uri@))->0)) ==> (r matches Some(dir)
            ==> dir@ == decode_utf8(percent_decoded(uri_path(encode_utf8(uri@))->0))),
{
    let bytes = uri.as_bytes();
    match path_start(bytes) {
        None => None,
        Some(j) => {
            let decoded = percent_decode_from(bytes, j);
            Some(decode_lossy(&decoded))
        },
    }
}

/// An empty reported title renders exactly like a missing one.
pub proof fn law_empty_title_is_missing_title(template: Seq<char>, ctx: TitleContext, empty: &str)
    requires
        empty@.len() == 0,
    ensures
        rendered(template, TitleContext { title: Some(empty), ..ctx }) == rendered(
            template,
            TitleContext { title: None, ..ctx },
        ),
{
}

/// Text without a `$` has no placeholder, so it is rendered unchanged.
pub proof fn law_text_without_placeholder_is_kept(template: Seq<char>, ctx: TitleContext)
    requires
        !template.contains('$'),
    ensures
        rendered(template, ctx) == template,
{
    reveal_strlit("${title}");
    reveal_strlit("${id}");
    reveal_strlit("${directory}");
    reveal_strlit("${host}");
    reveal_strlit("${user}");
    lemma_replace_absent(template, "${title}"@, shown_title(ctx.title));
    lemma_replace_absent(template, "${id}"@, decimal(ctx.id as nat));
    lemma_replace_absent(template, "${directory}"@, or_empty(ctx.directory));
    lemma_replace_absent(template, "${host}"@, or_empty(ctx.host));
    lemma_replace_absent(template, "${user}"@, or_empty(ctx.user));
}

proof fn lemma_replace_absent(s: Seq<char>, pat: Seq<char>, rep: Seq<char>)
    requires
        !s.contains('$'),
        pat.len() > 0,
        pat[0] == '$',
    ensures
        replace_all(s, pat, rep) == s,
    decreases s.len(),
{
    if s.len() > 0 {
        assert(s[0] != '$');
        if s.len() >= pat.len() {
            assert(s.take(pat.len() as int)[0] != pat[0]);
        }
        assert(!s.skip(1).contains('$')) by {
            if s.skip(1).contains('$') {
                let i = choose|i: int| 0 <= i < s.skip(1).len() && s.skip(1)[i] == '$';
                assert(s[i + 1] == '$');
            }
        }
        lemma_replace_absent(s.skip(1), pat, rep);
        assert(seq![s[0]] + s.skip(1) =~= s);
    }
}

} // verus!
