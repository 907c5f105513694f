use cnat::rewrite::rewrite_class_list;
use cnat::Str;

fn known(names: &[&str]) -> Vec<Str> {
    names.iter().map(|n| Str(n.to_string())).collect()
}

#[test]
fn it_prefixes_known_classes() {
    let names = known(&["flex", "sr-only"]);

    let (out, changed) = rewrite_class_list("tw-", &names, "flex sr-only custom");

    assert_eq!(out, "tw-flex tw-sr-only custom");
    assert!(changed);
}

#[test]
fn it_keeps_modifiers_and_rewrites_only_the_last_segment() {
    let names = known(&["flex"]);

    let (out, changed) = rewrite_class_list("tw-", &names, "hover:flex");

    assert_eq!(out, "hover:tw-flex");
    assert!(changed);

    let (out, changed) = rewrite_class_list("tw-", &names, "sm:hover:flex");

    assert_eq!(out, "sm:hover:tw-flex");
    assert!(changed);
}

#[test]
fn it_leaves_unknown_classes_alone() {
    let names = known(&["flex"]);

    let (out, changed) = rewrite_class_list("tw-", &names, "custom only");

    assert_eq!(out, "custom only");
    assert!(!changed);
}

#[test]
fn it_preserves_spacing() {
    let names = known(&["flex"]);

    let (out, changed) = rewrite_class_list("tw-", &names, "  flex   custom ");

    assert_eq!(out, "  tw-flex   custom ");
    assert!(changed);
}

#[test]
fn a_second_run_changes_nothing() {
    let names = known(&["bg-red-500", "flex"]);

    let (once, changed) = rewrite_class_list("tw-", &names, "bg-red-500 hover:flex custom");
    assert_eq!(once, "tw-bg-red-500 hover:tw-flex custom");
    assert!(changed);

    let (twice, changed_again) = rewrite_class_list("tw-", &names, &once);
    assert_eq!(twice, once);
    assert!(!changed_again);
}

#[test]
fn a_modifier_alone_is_not_a_candidate() {
    let names = known(&["hover"]);

    let (out, changed) = rewrite_class_list("tw-", &names, "hover:flex");

    assert_eq!(out, "hover:flex");
    assert!(!changed);
}
