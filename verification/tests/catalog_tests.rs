use benchbencher::catalog::Pallets;

fn names(p: &Pallets) -> Vec<String> {
    p.items.iter().map(|x| x.name.clone()).collect()
}

fn units(p: &Pallets, i: usize) -> Vec<String> {
    p.items[i].extrinsics.clone()
}

#[test]
fn parses_listing_into_catalog() {
    let p = Pallets::parse_listing("header\nfoo, bar\nfoo, baz\nqux, quux\n");
    assert_eq!(names(&p), vec!["foo".to_string(), "qux".to_string()]);
    assert_eq!(units(&p, 0), vec!["bar".to_string(), "baz".to_string()]);
    assert_eq!(units(&p, 1), vec!["quux".to_string()]);
}

#[test]
fn parsing_is_idempotent() {
    let text = "header\nfoo, bar\nfoo, baz\nqux, quux\n";
    let a = Pallets::parse_listing(text);
    let b = Pallets::parse_listing(text);
    assert_eq!(names(&a), names(&b));
    for i in 0..a.items.len() {
        assert_eq!(units(&a, i), units(&b, i));
    }
}

#[test]
fn first_line_is_discarded() {
    let p = Pallets::parse_listing("foo, bar\nqux, quux\n");
    assert_eq!(names(&p), vec!["qux".to_string()]);
}

#[test]
fn empty_text_gives_empty_catalog() {
    let p = Pallets::parse_listing("");
    assert!(p.items.is_empty());
}

#[test]
fn non_matching_lines_are_skipped() {
    let p = Pallets::parse_listing("header\nfoo, bar\n\nnocomma\ntrailing,\nqux, quux\n");
    assert_eq!(names(&p), vec!["foo".to_string(), "qux".to_string()]);
}

#[test]
fn duplicate_units_are_idempotent() {
    let p = Pallets::parse_listing("header\nfoo, bar\nfoo, bar\n");
    assert_eq!(units(&p, 0), vec!["bar".to_string()]);
}

#[test]
fn categories_and_units_come_out_sorted() {
    let p = Pallets::parse_listing("header\nzeta, z\nalpha, b\nalpha, a\nmid, m\n");
    assert_eq!(
        names(&p),
        vec!["alpha".to_string(), "mid".to_string(), "zeta".to_string()]
    );
    assert_eq!(units(&p, 0), vec!["a".to_string(), "b".to_string()]);
}

#[test]
fn carriage_returns_are_stripped_before_newlines() {
    let p = Pallets::parse_listing("header\r\nfoo, bar\r\n");
    assert_eq!(names(&p), vec!["foo".to_string()]);
    assert_eq!(units(&p, 0), vec!["bar".to_string()]);
}

#[test]
fn unit_keeps_text_after_further_commas() {
    let p = Pallets::parse_listing("header\nfoo, bar, baz\n");
    assert_eq!(units(&p, 0), vec!["bar, baz".to_string()]);
}

#[test]
fn category_takes_text_before_first_separator() {
    let p = Pallets::parse_listing("header\na,, b\n");
    assert_eq!(names(&p), vec!["a,".to_string()]);
    assert_eq!(units(&p, 0), vec!["b".to_string()]);
}

#[test]
fn separator_needs_text_on_both_sides() {
    let p = Pallets::parse_listing("header\n, bar\nfoo, \n");
    assert!(p.items.is_empty());
}

#[test]
fn renders_category_block() {
    let p = Pallets::parse_listing("header\nfoo, bar\nfoo, baz\n");
    assert_eq!(p.items[0].render(), "foo {\n    bar,\n    baz,\n}\n");
}
