use federated_planner::plan::{Fetch, PlanNode, QueryPlan, QueryPlanningOptions};
use federated_planner::planner::build_query_plan;
use federated_planner::query::{Argument, Field, InlineFragment, Selection, SelectionSet, Value, VariableDefinition};
use federated_planner::schema::{FederatedSchemaGraph, FieldDef, KeyDef, PlanningError, TypeDef};

fn s(x: &str) -> String {
    x.to_string()
}

fn fdef(name: &str, owner: Option<&str>, ret: &str, is_list: bool) -> FieldDef {
    FieldDef { name: s(name), owner: owner.map(s), return_type: s(ret), is_list }
}

fn key(service: &str, fields: &[&str]) -> KeyDef {
    KeyDef { service: s(service), fields: fields.iter().map(|f| s(f)).collect() }
}

fn leaf(name: &str) -> Selection {
    Selection::Field(Field { alias: None, name: s(name), arguments: vec![], selection_set: SelectionSet { items: vec![] } })
}

fn node(name: &str, items: Vec<Selection>) -> Selection {
    Selection::Field(Field { alias: None, name: s(name), arguments: vec![], selection_set: SelectionSet { items } })
}

fn opts() -> QueryPlanningOptions {
    QueryPlanningOptions { auto_fragmentization: false }
}

/// reviews owns Review and Review.author; users owns User keyed by id and by
/// ssn; actuary owns User.risk and resolves User by ssn.
fn multiple_keys_schema() -> FederatedSchemaGraph {
    FederatedSchemaGraph {
        services: vec![s("actuary"), s("reviews"), s("users")],
        types: vec![
            TypeDef {
                name: s("Query"),
                owner: None,
                fields: vec![
                    fdef("reviews", Some("reviews"), "Review", true),
                    fdef("users", Some("users"), "User", true),
                ],
                keys: vec![],
            },
            TypeDef {
                name: s("Review"),
                owner: Some(s("reviews")),
                fields: vec![fdef("body", None, "String", false), fdef("author", None, "User", false)],
                keys: vec![],
            },
            TypeDef {
                name: s("User"),
                owner: Some(s("users")),
                fields: vec![
                    fdef("id", None, "ID", false),
                    fdef("name", None, "String", false),
                    fdef("ssn", None, "String", false),
                    fdef("risk", Some("actuary"), "Float", false),
                ],
                keys: vec![key("users", &["id"]), key("users", &["ssn"]), key("reviews", &["id"]), key("actuary", &["ssn"])],
            },
        ],
    }
}

fn fetch_of(n: &PlanNode) -> &Fetch {
    match n {
        PlanNode::Fetch(f) => f,
        _ => panic!("expected a Fetch"),
    }
}

fn flatten_of(n: &PlanNode) -> (Vec<String>, &Fetch) {
    match n {
        PlanNode::Flatten { path, node } => (path.clone(), fetch_of(node)),
        _ => panic!("expected a Flatten"),
    }
}

fn multiple_keys_query() -> SelectionSet {
    SelectionSet { items: vec![node("reviews", vec![leaf("body"), node("author", vec![leaf("name"), leaf("risk")])])] }
}

/// Drops the whitespace that stands outside JSON strings.
fn compact(json: &str) -> String {
    let mut out = String::new();
    let mut in_string = false;
    for c in json.chars() {
        if c == '"' {
            in_string = !in_string;
        }
        if in_string || !c.is_whitespace() {
            out.push(c);
        }
    }
    out
}

#[test]
fn multiple_keys_multiple_key_fields() {
    let expected = r##"
{
  "kind": "QueryPlan",
  "node": {
    "kind": "Sequence",
    "nodes": [
      {
        "kind": "Fetch",
        "serviceName": "reviews",
        "variableUsages": [],
        "operation": "{reviews{body author{__typename id}}}"
      },
      {
        "kind": "Flatten",
        "path": ["reviews", "@", "author"],
        "node": {
          "kind": "Fetch",
          "serviceName": "users",
          "requires": [
            {
              "kind": "InlineFragment",
              "typeCondition": "User",
              "selections": [
                { "kind": "Field", "name": "__typename" },
                { "kind": "Field", "name": "id" }
              ]
            }
          ],
          "variableUsages": [],
          "operation": "query($representations:[_Any!]!){_entities(representations:$representations){...on User{name __typename ssn}}}"
        }
      },
      {
        "kind": "Flatten",
        "path": ["reviews", "@", "author"],
        "node": {
          "kind": "Fetch",
          "serviceName": "actuary",
          "requires": [
            {
              "kind": "InlineFragment",
              "typeCondition": "User",
              "selections": [
                { "kind": "Field", "name": "__typename" },
                { "kind": "Field", "name": "ssn" }
              ]
            }
          ],
          "variableUsages": [],
          "operation": "query($representations:[_Any!]!){_entities(representations:$representations){...on User{risk}}}"
        }
      }
    ]
  }
}
"##;
    let plan = build_query_plan(&multiple_keys_schema(), &multiple_keys_query(), &vec![], &opts()).ok().unwrap();
    assert_eq!(plan.to_json(), compact(expected));
}

#[test]
fn multiple_keys_plan_structure() {
    let plan = build_query_plan(&multiple_keys_schema(), &multiple_keys_query(), &vec![], &opts()).ok().unwrap();
    let nodes = match plan.node.as_ref().unwrap() {
        PlanNode::Sequence(ns) => ns,
        _ => panic!("expected a Sequence"),
    };
    assert_eq!(nodes.len(), 3);
    let first = fetch_of(&nodes[0]);
    assert_eq!(first.service_name, "reviews");
    assert!(first.requires.is_none());
    let (p1, users) = flatten_of(&nodes[1]);
    assert_eq!(p1, vec![s("reviews"), s("@"), s("author")]);
    let r1 = users.requires.as_ref().unwrap();
    assert_eq!(r1.type_condition, "User");
    assert_eq!(r1.selections, vec![s("__typename"), s("id")]);
    let (_, actuary) = flatten_of(&nodes[2]);
    assert_eq!(actuary.requires.as_ref().unwrap().selections, vec![s("__typename"), s("ssn")]);
}

#[test]
fn single_service_query_is_one_fetch() {
    let schema = FederatedSchemaGraph {
        services: vec![s("reviews")],
        types: vec![
            TypeDef { name: s("Query"), owner: None, fields: vec![fdef("reviews", Some("reviews"), "Review", true)], keys: vec![] },
            TypeDef { name: s("Review"), owner: Some(s("reviews")), fields: vec![fdef("body", None, "String", false)], keys: vec![] },
        ],
    };
    let query = SelectionSet { items: vec![node("reviews", vec![leaf("body")])] };
    let plan = build_query_plan(&schema, &query, &vec![], &opts()).ok().unwrap();
    let f = fetch_of(plan.node.as_ref().unwrap());
    assert_eq!(f.service_name, "reviews");
    assert_eq!(f.operation, "{reviews{body}}");
    assert!(f.requires.is_none());
}

#[test]
fn empty_query_has_no_node() {
    let plan = build_query_plan(&multiple_keys_schema(), &SelectionSet { items: vec![] }, &vec![], &opts()).ok().unwrap();
    assert!(plan.node.is_none());
    assert_eq!(plan.to_json(), "{\"kind\":\"QueryPlan\",\"node\":null}");
}

#[test]
fn unknown_field_is_reported() {
    let query = SelectionSet { items: vec![node("reviews", vec![leaf("title")])] };
    match build_query_plan(&multiple_keys_schema(), &query, &vec![], &opts()) {
        Err(PlanningError::UnknownField { parent, field }) => {
            assert_eq!(parent, "Review");
            assert_eq!(field, "title");
        }
        _ => panic!("expected UnknownField"),
    }
}

#[test]
fn two_root_services_run_in_parallel() {
    let query = SelectionSet { items: vec![node("reviews", vec![leaf("body")]), node("users", vec![leaf("name")])] };
    let plan = build_query_plan(&multiple_keys_schema(), &query, &vec![], &opts()).ok().unwrap();
    match plan.node.as_ref().unwrap() {
        PlanNode::Parallel(ns) => {
            assert_eq!(ns.len(), 2);
            assert_eq!(fetch_of(&ns[0]).operation, "{reviews{body}}");
            assert_eq!(fetch_of(&ns[1]).operation, "{users{name}}");
        }
        _ => panic!("expected a Parallel"),
    }
}

#[test]
fn inline_fragment_condition_filters_fields() {
    let query = SelectionSet {
        items: vec![node(
            "reviews",
            vec![
                Selection::InlineFragment(InlineFragment { type_condition: Some(s("Review")), selection_set: SelectionSet { items: vec![leaf("body")] } }),
                Selection::InlineFragment(InlineFragment { type_condition: Some(s("User")), selection_set: SelectionSet { items: vec![leaf("name")] } }),
            ],
        )],
    };
    let plan = build_query_plan(&multiple_keys_schema(), &query, &vec![], &opts()).ok().unwrap();
    assert_eq!(fetch_of(plan.node.as_ref().unwrap()).operation, "{reviews{body}}");
}

#[test]
fn planning_twice_gives_the_same_plan() {
    let a: QueryPlan = build_query_plan(&multiple_keys_schema(), &multiple_keys_query(), &vec![], &opts()).ok().unwrap();
    let b: QueryPlan = build_query_plan(&multiple_keys_schema(), &multiple_keys_query(), &vec![], &opts()).ok().unwrap();
    assert_eq!(a.to_json(), b.to_json());
}

fn with_args(name: &str, arguments: Vec<Argument>, items: Vec<Selection>) -> Selection {
    Selection::Field(Field { alias: None, name: s(name), arguments, selection_set: SelectionSet { items } })
}

fn var_arg(name: &str, var: &str) -> Argument {
    Argument { name: s(name), value: Value::Variable(s(var)) }
}

fn vdef(name: &str, t: &str) -> VariableDefinition {
    VariableDefinition { name: s(name), var_type: s(t) }
}

#[test]
fn root_fetch_declares_its_variables() {
    let query = SelectionSet {
        items: vec![with_args(
            "reviews",
            vec![var_arg("first", "n"), Argument { name: s("desc"), value: Value::Boolean(true) }],
            vec![leaf("body")],
        )],
    };
    let vars = vec![vdef("n", "Int"), vdef("unused", "String")];
    let plan = build_query_plan(&multiple_keys_schema(), &query, &vars, &opts()).ok().unwrap();
    let f = fetch_of(plan.node.as_ref().unwrap());
    assert_eq!(f.variable_usages, vec![s("n")]);
    assert_eq!(f.operation, "query($n:Int){reviews(first:$n desc:true){body}}");
}

#[test]
fn entity_fetch_declares_its_variables_once() {
    let query = SelectionSet {
        items: vec![node(
            "reviews",
            vec![node(
                "author",
                vec![with_args("risk", vec![var_arg("model", "m"), var_arg("again", "m")], vec![])],
            )],
        )],
    };
    let vars = vec![vdef("m", "String")];
    let plan = build_query_plan(&multiple_keys_schema(), &query, &vars, &opts()).ok().unwrap();
    let nodes = match plan.node.as_ref().unwrap() {
        PlanNode::Sequence(ns) => ns,
        _ => panic!("expected a Sequence"),
    };
    assert!(fetch_of(&nodes[0]).variable_usages.is_empty());
    assert_eq!(fetch_of(&nodes[0]).operation, "{reviews{author{__typename id}}}");
    // actuary needs ssn, which reviews lacks: users is reached first to supply it
    let (_, users) = flatten_of(&nodes[1]);
    assert_eq!(users.operation, "query($representations:[_Any!]!){_entities(representations:$representations){...on User{__typename ssn}}}");
    let (_, actuary) = flatten_of(&nodes[2]);
    assert_eq!(actuary.variable_usages, vec![s("m")]);
    assert_eq!(
        actuary.operation,
        "query($representations:[_Any!]!$m:String){_entities(representations:$representations){...on User{risk(model:$m again:$m)}}}"
    );
}

#[test]
fn aliased_field_keeps_its_alias() {
    let query = SelectionSet {
        items: vec![Selection::Field(Field {
            alias: Some(s("latest")),
            name: s("reviews"),
            arguments: vec![],
            selection_set: SelectionSet { items: vec![leaf("body"), node("author", vec![leaf("name")])] },
        })],
    };
    let plan = build_query_plan(&multiple_keys_schema(), &query, &vec![], &opts()).ok().unwrap();
    let nodes = match plan.node.as_ref().unwrap() {
        PlanNode::Sequence(ns) => ns,
        _ => panic!("expected a Sequence"),
    };
    assert_eq!(fetch_of(&nodes[0]).operation, "{latest:reviews{body author{__typename id}}}");
    let (path, users) = flatten_of(&nodes[1]);
    assert_eq!(path, vec![s("latest"), s("@"), s("author")]);
    assert_eq!(users.operation, "query($representations:[_Any!]!){_entities(representations:$representations){...on User{name}}}");
}

#[test]
fn requested_key_field_is_not_repeated() {
    let query = SelectionSet { items: vec![node("reviews", vec![node("author", vec![leaf("id"), leaf("name")])])] };
    let plan = build_query_plan(&multiple_keys_schema(), &query, &vec![], &opts()).ok().unwrap();
    let nodes = match plan.node.as_ref().unwrap() {
        PlanNode::Sequence(ns) => ns,
        _ => panic!("expected a Sequence"),
    };
    assert_eq!(fetch_of(&nodes[0]).operation, "{reviews{author{id __typename}}}");
}

fn no_key_schema() -> FederatedSchemaGraph {
    let mut g = multiple_keys_schema();
    // actuary no longer declares a key for User
    g.types[2].keys.pop();
    g
}

#[test]
fn crossing_without_a_key_is_not_an_entity() {
    let query = SelectionSet { items: vec![node("reviews", vec![node("author", vec![leaf("risk")])])] };
    match build_query_plan(&no_key_schema(), &query, &vec![], &opts()) {
        Err(PlanningError::NotAnEntity { parent, service }) => {
            assert_eq!(parent, "User");
            assert_eq!(service, "actuary");
        }
        _ => panic!("expected NotAnEntity"),
    }
}

#[test]
fn key_nobody_can_supply_is_unsatisfiable() {
    // ssn belongs to actuary alone, so no other service can hand it over
    let mut g = multiple_keys_schema();
    g.types[2].fields[2].owner = Some(s("actuary"));
    g.types[2].keys.remove(1);
    let query = SelectionSet { items: vec![node("reviews", vec![node("author", vec![leaf("risk")])])] };
    match build_query_plan(&g, &query, &vec![], &opts()) {
        Err(PlanningError::UnsatisfiableRequirement { parent, service }) => {
            assert_eq!(parent, "User");
            assert_eq!(service, "actuary");
        }
        _ => panic!("expected UnsatisfiableRequirement"),
    }
}

#[test]
fn field_without_owner_is_ambiguous() {
    let mut g = multiple_keys_schema();
    g.types[0].fields[0].owner = None;
    let query = SelectionSet { items: vec![node("reviews", vec![leaf("body")])] };
    match build_query_plan(&g, &query, &vec![], &opts()) {
        Err(PlanningError::AmbiguousOwner { parent, field }) => {
            assert_eq!(parent, "Query");
            assert_eq!(field, "reviews");
        }
        _ => panic!("expected AmbiguousOwner"),
    }
}

#[test]
fn auto_fragmentization_keeps_the_plan_shape() {
    let on = QueryPlanningOptions { auto_fragmentization: true };
    let a = build_query_plan(&multiple_keys_schema(), &multiple_keys_query(), &vec![], &on).ok().unwrap();
    let b = build_query_plan(&multiple_keys_schema(), &multiple_keys_query(), &vec![], &opts()).ok().unwrap();
    let (mut oa, mut ob) = (Vec::new(), Vec::new());
    operations(a.node.as_ref().unwrap(), &mut oa);
    operations(b.node.as_ref().unwrap(), &mut ob);
    assert_eq!(oa.len(), ob.len());
    assert_eq!(
        oa[0],
        "{reviews{...__QueryPlanFragment_1__}}fragment __QueryPlanFragment_0__ on User{__typename id}fragment __QueryPlanFragment_1__ on Review{body author{...__QueryPlanFragment_0__}}"
    );
    assert_eq!(oa[1], ob[1]);
    assert_eq!(oa[2], ob[2]);
    let strip = |j: String| j.replace(&oa[0], "").replace(&ob[0], "");
    assert_eq!(strip(a.to_json()), strip(b.to_json()));
}

#[test]
fn identical_shapes_share_one_fragment() {
    let query = SelectionSet {
        items: vec![node("reviews", vec![node("author", vec![leaf("id")]), Selection::Field(Field {
            alias: Some(s("writer")),
            name: s("author"),
            arguments: vec![],
            selection_set: SelectionSet { items: vec![leaf("id")] },
        })])],
    };
    let on = QueryPlanningOptions { auto_fragmentization: true };
    let plan = build_query_plan(&multiple_keys_schema(), &query, &vec![], &on).ok().unwrap();
    assert_eq!(
        fetch_of(plan.node.as_ref().unwrap()).operation,
        "{reviews{...__QueryPlanFragment_1__}}fragment __QueryPlanFragment_0__ on User{id}fragment __QueryPlanFragment_1__ on Review{author{...__QueryPlanFragment_0__} writer:author{...__QueryPlanFragment_0__}}"
    );
}

#[test]
fn later_service_is_moved_before_the_one_it_supplies() {
    let query = SelectionSet { items: vec![node("reviews", vec![node("author", vec![leaf("risk"), leaf("name")])])] };
    let plan = build_query_plan(&multiple_keys_schema(), &query, &vec![], &opts()).ok().unwrap();
    let nodes = match plan.node.as_ref().unwrap() {
        PlanNode::Sequence(ns) => ns,
        _ => panic!("expected a Sequence"),
    };
    assert_eq!(nodes.len(), 3);
    let (_, users) = flatten_of(&nodes[1]);
    assert_eq!(users.service_name, "users");
    assert_eq!(users.operation, "query($representations:[_Any!]!){_entities(representations:$representations){...on User{name __typename ssn}}}");
    let (_, actuary) = flatten_of(&nodes[2]);
    assert_eq!(actuary.service_name, "actuary");
}

fn operations(n: &PlanNode, out: &mut Vec<String>) {
    match n {
        PlanNode::Fetch(f) => out.push(f.operation.clone()),
        PlanNode::Flatten { node, .. } => operations(node, out),
        PlanNode::Sequence(ns) | PlanNode::Parallel(ns) => ns.iter().for_each(|c| operations(c, out)),
    }
}

#[test]
fn every_requested_field_is_fetched_once() {
    let plan = build_query_plan(&multiple_keys_schema(), &multiple_keys_query(), &vec![], &opts()).ok().unwrap();
    let mut ops = Vec::new();
    operations(plan.node.as_ref().unwrap(), &mut ops);
    for name in ["reviews", "body", "author", "name", "risk"] {
        let hits: usize = ops
            .iter()
            .map(|op| op.split(|c: char| !c.is_alphanumeric() && c != '_').filter(|w| *w == name).count())
            .sum();
        assert_eq!(hits, 1, "{}", name);
    }
}

#[test]
fn every_representation_starts_with_typename() {
    let plan = build_query_plan(&multiple_keys_schema(), &multiple_keys_query(), &vec![], &opts()).ok().unwrap();
    let json = plan.to_json();
    let marker = "\"selections\":[";
    let mut seen = 0;
    for (i, _) in json.match_indices(marker) {
        assert!(json[i + marker.len()..].starts_with("{\"kind\":\"Field\",\"name\":\"__typename\"}"));
        seen += 1;
    }
    assert_eq!(seen, 2);
}

fn paths(v: &[&[&str]]) -> Vec<Vec<String>> {
    v.iter().map(|p| p.iter().map(|x| s(x)).collect()).collect()
}

#[test]
fn fields_added_for_keys_are_marked() {
    let plan = build_query_plan(&multiple_keys_schema(), &multiple_keys_query(), &vec![], &opts()).ok().unwrap();
    let nodes = match plan.node.as_ref().unwrap() {
        PlanNode::Sequence(ns) => ns,
        _ => panic!("expected a Sequence"),
    };
    assert_eq!(
        fetch_of(&nodes[0]).planning_only,
        paths(&[&["reviews", "@", "author", "__typename"], &["reviews", "@", "author", "id"]])
    );
    assert_eq!(flatten_of(&nodes[1]).1.planning_only, paths(&[&["__typename"], &["ssn"]]));
    assert!(flatten_of(&nodes[2]).1.planning_only.is_empty());
}

#[test]
fn client_requested_key_is_not_marked() {
    let query = SelectionSet { items: vec![node("reviews", vec![node("author", vec![leaf("id"), leaf("name")])])] };
    let plan = build_query_plan(&multiple_keys_schema(), &query, &vec![], &opts()).ok().unwrap();
    let nodes = match plan.node.as_ref().unwrap() {
        PlanNode::Sequence(ns) => ns,
        _ => panic!("expected a Sequence"),
    };
    assert_eq!(fetch_of(&nodes[0]).planning_only, paths(&[&["reviews", "@", "author", "__typename"]]));
}
