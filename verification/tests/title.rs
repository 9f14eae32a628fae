use rutile::terminal::title::{
    directory_from_uri, render_template, TitleContext, DEFAULT_TEMPLATE,
};

#[test]
fn substitutes_every_placeholder() {
    let ctx = TitleContext {
        id: 7,
        title: Some("vim"),
        directory: Some("/home/paul"),
        host: Some("workstation"),
        user: Some("paul"),
    };
    let rendered = render_template("${user}@${host}:${directory} [${id}] ${title}", &ctx);
    assert_eq!(rendered, "paul@workstation:/home/paul [7] vim");
}

#[test]
fn missing_fields_render_as_empty_except_title_and_id() {
    let ctx = TitleContext {
        id: 3,
        title: None,
        directory: None,
        host: None,
        user: None,
    };
    let rendered = render_template("${title}(${id})[${directory}|${host}|${user}]", &ctx);
    assert_eq!(rendered, "Terminal(3)[||]");
}

#[test]
fn empty_title_falls_back_like_missing_title() {
    let ctx = TitleContext {
        id: 1,
        title: Some(""),
        directory: None,
        host: None,
        user: None,
    };
    assert_eq!(render_template(DEFAULT_TEMPLATE, &ctx), "Terminal");
}

#[test]
fn directory_from_uri_decodes_percent_escapes() {
    assert_eq!(
        directory_from_uri("file:///home/paul/My%20Docs"),
        Some("/home/paul/My Docs".to_string())
    );
}

#[test]
fn directory_from_uri_handles_remote_host_authority() {
    assert_eq!(
        directory_from_uri("file://remote-box/var/www"),
        Some("/var/www".to_string())
    );
}

#[test]
fn directory_from_uri_rejects_non_file_scheme() {
    assert_eq!(directory_from_uri("https://example.com/path"), None);
}

#[test]
fn text_without_placeholders_is_kept() {
    let ctx = TitleContext {
        id: 12,
        title: Some("x"),
        directory: None,
        host: None,
        user: None,
    };
    assert_eq!(render_template("plain words", &ctx), "plain words");
    assert_eq!(render_template("${id}${id}", &ctx), "1212");
    assert_eq!(render_template("${unknown}", &ctx), "${unknown}");
}

#[test]
fn directory_from_uri_leaves_bad_escapes_and_decodes_utf8() {
    assert_eq!(directory_from_uri("file:///a%zzb"), Some("/a%zzb".to_string()));
    assert_eq!(directory_from_uri("file:///caf%C3%A9"), Some("/café".to_string()));
    assert_eq!(directory_from_uri("file:///x%ff"), Some("/x\u{FFFD}".to_string()));
    assert_eq!(directory_from_uri("file://host-only"), None);
    assert_eq!(directory_from_uri("file:///"), Some("/".to_string()));
}

#[test]
fn a_percent_before_a_multibyte_character_is_kept_literally() {
    assert_eq!(directory_from_uri("file:///%a\u{e9}"), Some("/%a\u{e9}".to_string()));
    assert_eq!(directory_from_uri("file:///x%a\u{e9}"), Some("/x%a\u{e9}".to_string()));
    assert_eq!(directory_from_uri("file:///x%20\u{e9}"), Some("/x \u{e9}".to_string()));
    assert_eq!(directory_from_uri("file:///x%\u{e9}"), Some("/x%\u{e9}".to_string()));
}

#[test]
fn an_escape_is_two_hex_digits_and_nothing_else() {
    assert_eq!(directory_from_uri("file:///%+1"), Some("/%+1".to_string()));
    assert_eq!(directory_from_uri("file:///a%2"), Some("/a%2".to_string()));
    assert_eq!(directory_from_uri("file:///a%2fb"), Some("/a/b".to_string()));
}
