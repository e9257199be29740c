use benchbencher::catalog::Pallets;
use benchbencher::filter::FilterError;

fn sample() -> Pallets {
    Pallets::parse_listing("header\nfoo, bar\nfoo, baz\nqux, quux\n")
}

#[test]
fn no_filters_select_everything() {
    let sel = sample().filtered(None, None).unwrap();
    assert_eq!(sel.len(), 2);
    assert_eq!(sel[0].name, "foo");
    assert_eq!(sel[0].extrinsics, vec!["bar".to_string(), "baz".to_string()]);
    assert_eq!(sel[1].name, "qux");
    assert_eq!(sel[1].extrinsics, vec!["quux".to_string()]);
}

#[test]
fn empty_catalog_is_not_found() {
    let empty = Pallets::parse_listing("");
    assert!(matches!(
        empty.filtered(None, None),
        Err(FilterError::PalletNotFound)
    ));
}

#[test]
fn category_and_unit_filter_narrow_to_one() {
    let sel = sample().filtered(Some("foo"), Some("bar")).unwrap();
    assert_eq!(sel.len(), 1);
    assert_eq!(sel[0].name, "foo");
    assert_eq!(sel[0].extrinsics, vec!["bar".to_string()]);
}

#[test]
fn missing_category_is_not_found() {
    assert!(matches!(
        sample().filtered(Some("nope"), None),
        Err(FilterError::PalletNotFound)
    ));
}

#[test]
fn unit_filter_without_category_is_invalid() {
    assert!(matches!(
        sample().filtered(None, Some("bar")),
        Err(FilterError::ExtrinsicWithoutPallet)
    ));
}

#[test]
fn missing_unit_is_not_found() {
    assert!(matches!(
        sample().filtered(Some("foo"), Some("zzz")),
        Err(FilterError::ExtrinsicNotFound)
    ));
}

#[test]
fn category_filter_alone_keeps_full_unit_set() {
    let sel = sample().filtered(Some("foo"), None).unwrap();
    assert_eq!(sel.len(), 1);
    assert_eq!(sel[0].extrinsics, vec!["bar".to_string(), "baz".to_string()]);
}

#[test]
fn rejection_messages() {
    assert_eq!(FilterError::PalletNotFound.message(), "Pallet not found");
    assert_eq!(
        FilterError::ExtrinsicWithoutPallet.message(),
        "An exernality can only be supplied when also filtering the pallets"
    );
    assert_eq!(FilterError::ExtrinsicNotFound.message(), "Extrinsic not found");
}
