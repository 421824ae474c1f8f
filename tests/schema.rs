use federated_planner::schema::{FederatedSchemaGraph, FieldDef, KeyDef, PlanningError, TypeDef};

fn s(x: &str) -> String {
    x.to_string()
}

fn graph() -> FederatedSchemaGraph {
    FederatedSchemaGraph {
        services: vec![s("actuary"), s("reviews"), s("users")],
        types: vec![
            TypeDef {
                name: s("User"),
                owner: Some(s("users")),
                fields: vec![
                    FieldDef { name: s("id"), owner: None, return_type: s("ID"), is_list: false },
                    FieldDef { name: s("ssn"), owner: None, return_type: s("String"), is_list: false },
                    FieldDef { name: s("risk"), owner: Some(s("actuary")), return_type: s("Float"), is_list: false },
                ],
                keys: vec![
                    KeyDef { service: s("users"), fields: vec![s("id")] },
                    KeyDef { service: s("actuary"), fields: vec![s("ssn")] },
                    KeyDef { service: s("users"), fields: vec![s("ssn")] },
                    KeyDef { service: s("reviews"), fields: vec![s("id")] },
                ],
            },
            TypeDef { name: s("Node"), owner: None, fields: vec![FieldDef { name: s("id"), owner: None, return_type: s("ID"), is_list: false }], keys: vec![] },
        ],
    }
}

#[test]
fn field_owner_defaults_to_type_owner() {
    assert_eq!(graph().resolve_field_owner(&s("User"), &s("ssn")).ok().unwrap(), "users");
    assert_eq!(graph().resolve_field_owner(&s("User"), &s("risk")).ok().unwrap(), "actuary");
}

#[test]
fn missing_field_is_unknown() {
    match graph().resolve_field_owner(&s("User"), &s("email")) {
        Err(PlanningError::UnknownField { parent, field }) => {
            assert_eq!(parent, "User");
            assert_eq!(field, "email");
        }
        _ => panic!("expected UnknownField"),
    }
    assert!(matches!(graph().resolve_field_owner(&s("Post"), &s("id")), Err(PlanningError::UnknownField { .. })));
}

#[test]
fn abstract_type_field_has_no_owner() {
    assert!(matches!(graph().resolve_field_owner(&s("Node"), &s("id")), Err(PlanningError::AmbiguousOwner { .. })));
}

#[test]
fn key_fields_start_with_typename() {
    let rep = graph().key_fields_for(&s("User"), &s("actuary")).ok().unwrap();
    assert_eq!(rep.type_condition, "User");
    assert_eq!(rep.selections, vec![s("__typename"), s("ssn")]);
    let first = graph().key_fields_for(&s("User"), &s("users")).ok().unwrap();
    assert_eq!(first.selections, vec![s("__typename"), s("id")]);
}

#[test]
fn type_without_key_is_not_an_entity() {
    assert!(matches!(graph().key_fields_for(&s("Node"), &s("users")), Err(PlanningError::NotAnEntity { .. })));
    assert!(matches!(graph().key_fields_for(&s("User"), &s("billing")), Err(PlanningError::NotAnEntity { .. })));
}

#[test]
fn possible_owners_are_listed_once() {
    assert_eq!(graph().possible_owners(&s("User")), vec![s("users"), s("actuary"), s("reviews")]);
    assert!(graph().possible_owners(&s("Node")).is_empty());
}

#[test]
fn provision_by_ownership_or_key() {
    let g = graph();
    assert!(g.provides(&s("User"), &s("reviews"), &s("id")));
    assert!(!g.provides(&s("User"), &s("reviews"), &s("ssn")));
    assert!(g.provides(&s("User"), &s("actuary"), &s("ssn")));
    assert!(g.provides(&s("User"), &s("actuary"), &s("risk")));
}

#[test]
fn usable_key_prefers_first_that_provider_can_fill() {
    let g = graph();
    // users' first key (id) can be filled by reviews
    assert_eq!(g.usable_key(&s("User"), &s("users"), &s("reviews")), Some((0, 0)));
    // of users' keys only ssn can be filled by actuary
    assert_eq!(g.usable_key(&s("User"), &s("users"), &s("actuary")), Some((0, 2)));
    assert_eq!(g.usable_key(&s("User"), &s("actuary"), &s("reviews")), None);
}
