use std::str::FromStr;

use cnat::scope::MatchType;
use cnat::scope::Scope;
use cnat::scope::ScopeError;
use cnat::scope::ScopeValue;
use cnat::scope::ScopeVariant;

#[test]
fn it_parses() {
    assert_eq!(
        Scope::from_str("att:class,className,iconClassName").unwrap(),
        Scope {
            variant: ScopeVariant::AttrNames,
            values: vec![
                ScopeValue(MatchType::Is, "class".into()),
                ScopeValue(MatchType::Is, "className".into()),
                ScopeValue(MatchType::Is, "iconClassName".into())
            ]
        }
    );

    assert_eq!(
        Scope::from_str("prop:classes,className,").unwrap(),
        Scope {
            variant: ScopeVariant::RecordEntries,
            values: vec![
                ScopeValue(MatchType::Is, "classes".into()),
                ScopeValue(MatchType::Is, "className".into())
            ]
        }
    );

    assert_eq!(
        Scope::from_str("fn:cva").unwrap(),
        Scope {
            variant: ScopeVariant::FnCall,
            values: vec![ScopeValue(MatchType::Is, "cva".into())]
        }
    )
}

#[test]
fn it_parses_starting_wildcard() {
    assert_eq!(
        Scope::from_str("att:class,*ClassName").unwrap(),
        Scope {
            variant: ScopeVariant::AttrNames,
            values: vec![
                ScopeValue(MatchType::Is, "class".into()),
                ScopeValue(MatchType::EndWith, "ClassName".into()),
            ]
        }
    );

    assert_eq!(
        Scope::from_str("prop:classes,***ClassName,").unwrap(),
        Scope {
            variant: ScopeVariant::RecordEntries,
            values: vec![
                ScopeValue(MatchType::Is, "classes".into()),
                ScopeValue(MatchType::EndWith, "ClassName".into())
            ]
        }
    );
}

#[test]
fn it_parses_ending_wildcard() {
    assert_eq!(
        Scope::from_str("att:class,class**").unwrap(),
        Scope {
            variant: ScopeVariant::AttrNames,
            values: vec![
                ScopeValue(MatchType::Is, "class".into()),
                ScopeValue(MatchType::StartsWith, "class".into()),
            ]
        }
    );

    assert_eq!(
        Scope::from_str("prop:class**").unwrap(),
        Scope {
            variant: ScopeVariant::RecordEntries,
            values: vec![ScopeValue(MatchType::StartsWith, "class".into())]
        }
    );
}

#[test]
fn it_parses_double_wildcard() {
    assert_eq!(
        Scope::from_str("att:*foo*").unwrap(),
        Scope {
            variant: ScopeVariant::AttrNames,
            values: vec![ScopeValue(MatchType::Contains, "foo".into())]
        }
    );

    assert_eq!(
        Scope::from_str("att:foo").unwrap(),
        Scope {
            variant: ScopeVariant::AttrNames,
            values: vec![ScopeValue(MatchType::Is, "foo".into())]
        }
    );
}

#[test]
fn it_rejects_middle_wildcard() {
    Scope::from_str("att:class,class*name").unwrap_err();
    Scope::from_str("prop:class*name").unwrap_err();
}

#[test]
fn it_rejects_empty_values() {
    Scope::from_str("att:").unwrap_err();
    Scope::from_str("prop:,").unwrap_err();
}

#[test]
fn it_reports_each_error_kind() {
    assert_eq!(Scope::from_str("noparts").unwrap_err(), ScopeError::IncorrectParts);
    assert_eq!(Scope::from_str("a:b:c").unwrap_err(), ScopeError::IncorrectParts);
    assert_eq!(Scope::from_str("att:fo*o").unwrap_err(), ScopeError::MiddleWildcard);
    assert_eq!(Scope::from_str("att:**").unwrap_err(), ScopeError::MiddleWildcard);
    assert_eq!(Scope::from_str("att:,").unwrap_err(), ScopeError::NoValues);
    assert_eq!(Scope::from_str("bogus:a").unwrap_err(), ScopeError::UnrecognizedVariant);
    assert_eq!(Scope::from_str("bogus:").unwrap_err(), ScopeError::NoValues);
}

#[test]
fn it_matches() {
    let scope = Scope {
        variant: ScopeVariant::RecordEntries,
        values: vec![
            ScopeValue(MatchType::Is, "classes".into()),
            ScopeValue(MatchType::Is, "className".into()),
        ],
    };

    assert!(!scope.matches("className", ScopeVariant::AttrNames));
    assert!(!scope.matches("class", ScopeVariant::RecordEntries));

    assert!(scope.matches("className", ScopeVariant::RecordEntries));
}

#[test]
fn it_matches_ends() {
    let scope = Scope {
        variant: ScopeVariant::AttrNames,
        values: vec![ScopeValue(MatchType::EndWith, "ClassName".into())],
    };

    assert!(!scope.matches("className", ScopeVariant::AttrNames));
    assert!(!scope.matches("class", ScopeVariant::RecordEntries));

    assert!(scope.matches("iconClassName", ScopeVariant::AttrNames));
    assert!(scope.matches("bodyClassName", ScopeVariant::AttrNames));
    assert!(scope.matches("buttonClassName", ScopeVariant::AttrNames));
}

#[test]
fn it_matches_starts() {
    let scope = Scope {
        variant: ScopeVariant::AttrNames,
        values: vec![ScopeValue(MatchType::StartsWith, "class".into())],
    };

    assert!(!scope.matches("class", ScopeVariant::RecordEntries));
    assert!(scope.matches("class", ScopeVariant::AttrNames));
    assert!(scope.matches("className", ScopeVariant::AttrNames));
}

#[test]
fn it_matches_contains() {
    let scope = Scope {
        variant: ScopeVariant::AttrNames,
        values: vec![ScopeValue(MatchType::Contains, "class".into())],
    };

    assert!(!scope.matches("class", ScopeVariant::RecordEntries));
    assert!(scope.matches("class", ScopeVariant::AttrNames));
    assert!(scope.matches("className", ScopeVariant::AttrNames));
    assert!(scope.matches("firstclassName", ScopeVariant::AttrNames));
    assert!(scope.matches("buttonclassName", ScopeVariant::AttrNames));

    let scope = Scope {
        variant: ScopeVariant::AttrNames,
        values: vec![ScopeValue(MatchType::Contains, "Class".into())],
    };

    assert!(scope.matches("iconClassName", ScopeVariant::AttrNames));
    assert!(scope.matches("bodyClassName", ScopeVariant::AttrNames));
    assert!(scope.matches("buttonClassName", ScopeVariant::AttrNames));
}

#[test]
fn it_matches_parsed_exact_patterns() {
    let scope = Scope::from_str("fn:cva,classnames").unwrap();

    assert!(scope.matches("cva", ScopeVariant::FnCall));
    assert!(scope.matches("classnames", ScopeVariant::FnCall));

    assert!(!scope.matches("cva", ScopeVariant::AttrNames));
    assert!(!scope.matches("cva", ScopeVariant::RecordEntries));
    assert!(!scope.matches("cvax", ScopeVariant::FnCall));
}
