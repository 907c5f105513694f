use cnat::scope::Scope;
use cnat::walker::ApplyTailwindPrefix;
use cnat::walker::Node;
use cnat::Str;

fn known(names: &[&str]) -> Vec<Str> {
    names.iter().map(|n| Str(n.to_string())).collect()
}

fn default_pass(scopes: &str) -> ApplyTailwindPrefix {
    ApplyTailwindPrefix::new(
        "tw-".to_string(),
        known(&["flex", "sr-only"]),
        vec![Scope::parse(scopes).unwrap()],
    )
}

#[test]
fn it_rewrites_a_scoped_attribute_value() {
    // <div className="flex sr-only custom" />
    // the literal spans 1-based bytes [16, 37), quotes included
    let src = "<div className=\"flex sr-only custom\" />".as_bytes().to_vec();
    let tree = vec![Node::Group {
        children: vec![Node::Attribute {
            name: Some("className".to_string()),
            value: vec![Node::Text {
                value: "flex sr-only custom".to_string(),
                lo: 16,
                hi: 37,
            }],
        }],
    }];

    let pass = default_pass("att:class,className");
    let out = pass.transform_source(&tree, src).unwrap();

    assert_eq!(
        out,
        Some("<div className=\"tw-flex tw-sr-only custom\" />".as_bytes().to_vec())
    );
}

#[test]
fn a_file_with_no_known_classes_is_untouched() {
    let src = "<div className=\"custom only\" />".as_bytes().to_vec();
    let tree = vec![Node::Attribute {
        name: Some("className".to_string()),
        value: vec![Node::Text {
            value: "custom only".to_string(),
            lo: 16,
            hi: 29,
        }],
    }];

    let pass = default_pass("att:class,className");
    let out = pass.transform_source(&tree, src).unwrap();

    assert_eq!(out, None);
}

#[test]
fn a_literal_out_of_scope_is_untouched() {
    let src = "const x = \"flex\";".as_bytes().to_vec();
    let tree = vec![Node::Group {
        children: vec![Node::Text {
            value: "flex".to_string(),
            lo: 11,
            hi: 17,
        }],
    }];

    let pass = default_pass("att:class,className");
    let out = pass.transform_source(&tree, src).unwrap();

    assert_eq!(out, None);
}

#[test]
fn it_rewrites_inside_a_scoped_call() {
    // cva("flex custom")
    let src = "cva(\"flex custom\")".as_bytes().to_vec();
    let tree = vec![Node::Call {
        callee: Some("cva".to_string()),
        args: vec![Node::Text {
            value: "flex custom".to_string(),
            lo: 5,
            hi: 18,
        }],
    }];

    let pass = default_pass("fn:cva");
    let out = pass.transform_source(&tree, src).unwrap();

    assert_eq!(out, Some("cva(\"tw-flex custom\")".as_bytes().to_vec()));
}

#[test]
fn it_rewrites_a_scoped_property_value() {
    // { classes: "sr-only" }
    let src = "{ classes: \"sr-only\" }".as_bytes().to_vec();
    let tree = vec![Node::Group {
        children: vec![Node::Property {
            key: Some("classes".to_string()),
            value: vec![Node::Text {
                value: "sr-only".to_string(),
                lo: 12,
                hi: 21,
            }],
        }],
    }];

    let pass = default_pass("prop:classes");
    let out = pass.transform_source(&tree, src).unwrap();

    assert_eq!(out, Some("{ classes: \"tw-sr-only\" }".as_bytes().to_vec()));
}

#[test]
fn a_wrong_span_is_a_fatal_mismatch() {
    // the recorded span does not hold the literal's text
    let src = "<div className=\"flex\" />".as_bytes().to_vec();
    let tree = vec![Node::Attribute {
        name: Some("className".to_string()),
        value: vec![Node::Text {
            value: "flex".to_string(),
            lo: 2,
            hi: 9,
        }],
    }];

    let pass = default_pass("att:class,className");

    assert!(pass.transform_source(&tree, src).is_err());
}

#[test]
fn two_literals_in_one_file_shift_correctly() {
    // <a className="flex" b="sr-only" />
    let src = "<a className=\"flex\" b=\"sr-only\" />".as_bytes().to_vec();
    let tree = vec![Node::Group {
        children: vec![
            Node::Attribute {
                name: Some("className".to_string()),
                value: vec![Node::Text {
                    value: "flex".to_string(),
                    lo: 14,
                    hi: 20,
                }],
            },
            Node::Attribute {
                name: Some("b".to_string()),
                value: vec![Node::Text {
                    value: "sr-only".to_string(),
                    lo: 23,
                    hi: 32,
                }],
            },
        ],
    }];

    let pass = ApplyTailwindPrefix::new(
        "tw-".to_string(),
        known(&["flex", "sr-only"]),
        vec![Scope::parse("att:className,b").unwrap()],
    );
    let out = pass.transform_source(&tree, src).unwrap();

    assert_eq!(
        out,
        Some("<a className=\"tw-flex\" b=\"tw-sr-only\" />".as_bytes().to_vec())
    );
}
