use federated_planner::format::Style;
use federated_planner::query::{Argument, Definition, Document, Field, InlineFragment, OperationDefinition, Selection, SelectionSet, Value};

fn field(name: &str, items: Vec<Selection>) -> Selection {
    Selection::Field(Field { alias: None, name: name.to_string(), arguments: vec![], selection_set: SelectionSet { items } })
}

fn sample() -> Document {
    let set = SelectionSet {
        items: vec![
            field("reviews", vec![field("body", vec![]), field("author", vec![field("name", vec![])])]),
            Selection::Field(Field {
                alias: Some("me".to_string()),
                name: "user".to_string(),
                arguments: vec![
                    Argument { name: "id".to_string(), value: Value::Variable("id".to_string()) },
                    Argument { name: "role".to_string(), value: Value::Enum("ADMIN".to_string()) },
                    Argument { name: "active".to_string(), value: Value::Boolean(false) },
                ],
                selection_set: SelectionSet { items: vec![] },
            }),
            Selection::InlineFragment(InlineFragment { type_condition: Some("Query".to_string()), selection_set: SelectionSet { items: vec![field("x", vec![])] } }),
        ],
    };
    Document { definitions: vec![Definition::Operation(OperationDefinition::SelectionSet(set))] }
}

#[test]
fn minified_document() {
    let style = Style { indent: 2, minified: true };
    assert_eq!(sample().format(&style), "{reviews{body author{name}} me:user(id:$id role:ADMIN active:false) ...on Query{x}}");
}

#[test]
fn default_style_indents_by_two() {
    let expected = "{\n  reviews {\n    body\n    author {\n      name\n    }\n  }\n  me:user(id:$id role:ADMIN active:false)\n  ...on Query {\n    x\n  }\n}\n";
    assert_eq!(sample().to_string(), expected);
    assert_eq!(sample().format(&Style::default()), expected);
}

#[test]
fn wider_indent() {
    let doc = Document {
        definitions: vec![Definition::Operation(OperationDefinition::SelectionSet(SelectionSet { items: vec![field("a", vec![field("b", vec![])])] }))],
    };
    assert_eq!(doc.format(&Style { indent: 4, minified: false }), "{\n    a {\n        b\n    }\n}\n");
}

#[test]
fn empty_document_is_empty_text() {
    let doc = Document { definitions: vec![] };
    assert_eq!(doc.to_string(), "");
}

