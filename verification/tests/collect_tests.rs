use cnat::collect::ClassNamesCollector;

#[test]
fn it_collects_plain_selector_names() {
    let mut c = ClassNamesCollector::new();

    c.push_selector("flex");
    c.push_selector("sr-only");

    assert_eq!(c.class_names.len(), 2);
    assert_eq!(c.class_names[0].as_str(), "flex");
    assert_eq!(c.class_names[1].as_str(), "sr-only");
}

#[test]
fn a_pseudo_class_selector_contributes_its_last_segment() {
    let mut c = ClassNamesCollector::new();

    c.push_selector("hover:flex");
    c.push_selector("sm:hover:bg-red-500");

    assert_eq!(c.class_names[0].as_str(), "flex");
    assert_eq!(c.class_names[1].as_str(), "bg-red-500");
}
