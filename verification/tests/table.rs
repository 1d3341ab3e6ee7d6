use table_name::{table, tables, Ident, Table, Tables};

#[test]
fn table_normal() {
    let sql = "test";
    let res = table(sql);
    assert!(res.is_ok());
    let out = res.unwrap().1;
    assert_eq!("test", out.display());
    assert_eq!(out, Table(String::from("test")));
}

#[test]
fn table_quoted_backtick() {
    let sql = "`test`";
    let res = table(sql);
    assert!(res.is_ok());
    let out = res.unwrap().1;
    assert_eq!("test", out.display());
    assert_eq!(out, Table(String::from("test")));
}

#[test]
fn table_quoted_brackets() {
    let sql = "\u{27e8}test\u{27e9}";
    let res = table(sql);
    assert!(res.is_ok());
    let out = res.unwrap().1;
    assert_eq!("test", out.display());
    assert_eq!(out, Table(String::from("test")));
}

#[test]
fn bare_word_parse_then_display_is_identity() {
    let sql = "abc_XYZ_019";
    let (rest, out) = table(sql).unwrap();
    assert_eq!(rest, "");
    assert_eq!(out.display(), "abc_XYZ_019");
}

#[test]
fn display_then_parse_is_identity_on_plain_name() {
    let t = Table(String::from("person"));
    let rendered = t.display();
    let (rest, back) = table(rendered.as_str()).unwrap();
    assert_eq!(rest, "");
    assert_eq!(back, t);
}

#[test]
fn display_then_parse_is_identity_on_awkward_names() {
    let names = [
        "hello world",
        "with`tick",
        "back\\slash",
        "mix`of\\both`",
        "comma, name",
        "ang\u{27e8}le\u{27e9}",
        " leading and trailing ",
    ];
    for name in names {
        let t = Table(String::from(name));
        let rendered = t.display();
        let (rest, back) = table(rendered.as_str()).unwrap();
        assert_eq!(rest, "");
        assert_eq!(back, t);
    }
}

#[test]
fn non_word_name_is_rendered_quoted() {
    let t = Table(String::from("hello world"));
    assert_eq!(t.display(), "`hello world`");
}

#[test]
fn escaped_backtick_parses_and_renders() {
    let (rest, out) = table("`a\\`b`").unwrap();
    assert_eq!(rest, "");
    assert_eq!(out, Table(String::from("a`b")));
    assert_eq!(out.display(), "`a\\`b`");
}

#[test]
fn table_rejects_bad_starts() {
    assert!(table("").is_err());
    assert!(table("!name").is_err());
    assert!(table(",a").is_err());
    assert!(table(" a").is_err());
}

#[test]
fn table_rejects_unterminated_quotes() {
    assert!(table("`never closed").is_err());
    assert!(table("`ends with escape\\").is_err());
    assert!(table("\u{27e8}never closed").is_err());
}

#[test]
fn table_rejects_empty_identifiers() {
    assert!(table("``").is_err());
    assert!(table("\u{27e8}\u{27e9}").is_err());
}

#[test]
fn table_leaves_remainder_unconsumed() {
    let (rest, out) = table("name rest").unwrap();
    assert_eq!(out, Table(String::from("name")));
    assert_eq!(rest, " rest");
}

#[test]
fn tables_of_empty_input_fails() {
    assert!(tables("").is_err());
}

#[test]
fn tables_parses_three_in_order_and_displays_back() {
    let (rest, out) = tables("a, b, c").unwrap();
    assert_eq!(rest, "");
    assert_eq!(out.len(), 3);
    assert_eq!(*out.get(0), Table(String::from("a")));
    assert_eq!(*out.get(1), Table(String::from("b")));
    assert_eq!(*out.get(2), Table(String::from("c")));
    assert_eq!(out.display(), "a, b, c");
    assert_eq!(
        out,
        Tables(vec![
            Table(String::from("a")),
            Table(String::from("b")),
            Table(String::from("c")),
        ])
    );
}

#[test]
fn tables_dangling_separator_fails() {
    assert!(tables("a,").is_err());
    assert!(tables("a, b,").is_err());
    assert!(tables("a, !").is_err());
}

#[test]
fn tables_accepts_whitespace_around_commas() {
    let (rest, out) = tables("a \t, \r\nb,c").unwrap();
    assert_eq!(rest, "");
    assert_eq!(out.len(), 3);
    assert_eq!(out.display(), "a, b, c");
}

#[test]
fn tables_stops_before_text_with_no_separator() {
    let (rest, out) = tables("a, b rest").unwrap();
    assert_eq!(rest, " rest");
    assert_eq!(out.len(), 2);
    assert_eq!(out.display(), "a, b");
}

#[test]
fn tables_mixes_quoting_styles() {
    let (rest, out) = tables("`a b`, \u{27e8}c d\u{27e9}, plain").unwrap();
    assert_eq!(rest, "");
    assert_eq!(out.len(), 3);
    assert_eq!(*out.get(0), Table(String::from("a b")));
    assert_eq!(*out.get(1), Table(String::from("c d")));
    assert_eq!(*out.get(2), Table(String::from("plain")));
}

#[test]
fn generate_copies_name_and_draws_fresh_ids() {
    let t = Table(String::from("person"));
    let a = t.generate();
    let b = t.generate();
    assert_eq!(a.tb, "person");
    assert_eq!(b.tb, "person");
    assert_ne!(a.id, b.id);
}

#[test]
fn equality_is_exact_text() {
    assert_ne!(Table(String::from("Test")), Table(String::from("test")));
    assert_eq!(Table(String::from("test")), Table(String::from("test")));
}

#[test]
fn ordering_follows_wrapped_text() {
    assert!(Table(String::from("a")) < Table(String::from("b")));
    assert!(Table(String::from("Z")) < Table(String::from("a")));
    assert!(Table(String::from("a")) < Table(String::from("ab")));
    assert!(Table(String::from("ab")) <= Table(String::from("ab")));
    assert!(Table(String::from("b")) > Table(String::from("ab")));
}

#[test]
fn constructors_wrap_without_validation() {
    let a = Table::from_owned_text(String::from("x y"));
    let b = Table::from_borrowed_text("x y");
    let c = Table::from_identifier(Ident(String::from("x y")));
    assert_eq!(a, b);
    assert_eq!(b, c);
    assert_eq!(a.name(), "x y");
}

#[test]
fn defaults_are_empty_placeholders() {
    let t = Table::default();
    assert_eq!(t.name(), "");
    let ts = Tables::default();
    assert_eq!(ts.len(), 0);
    assert_eq!(ts.display(), "");
}
