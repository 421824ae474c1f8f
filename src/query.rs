//! The selection-set document model that the planner reads.
use vstd::prelude::*;

verus! {

/// A query document.
pub struct Document {
    pub definitions: Vec<Definition>,
}

/// A top-level definition of a document.
pub enum Definition {
    Operation(OperationDefinition),
}

/// An operation; fragments and named operations arrive already inlined as
/// a bare selection set.
pub enum OperationDefinition {
    SelectionSet(SelectionSet),
}

/// A field selection, with its arguments and optional sub-selection.
pub struct Field {
    pub alias: Option<String>,
    pub name: String,
    pub arguments: Vec<Argument>,
    pub selection_set: SelectionSet,
}

/// A named argument of a field.
pub struct Argument {
    pub name: String,
    pub value: Value,
}

/// An argument value: a reference to a client variable, or a literal.
pub enum Value {
    Variable(String),
    Boolean(bool),
    Enum(String),
}

/// A variable declared by the client operation, with its type as written.
pub struct VariableDefinition {
    pub name: String,
    pub var_type: String,
}

/// An ordered list of selections scoped to one parent type.
pub struct SelectionSet {
    pub items: Vec<Selection>,
}

/// One entry of a selection set. Fragment spreads arrive already inlined.
pub enum Selection {
    Field(Field),
    InlineFragment(InlineFragment),
}

/// Selections that apply only when the parent type matches the condition.
pub struct InlineFragment {
    pub type_condition: Option<String>,
    pub selection_set: SelectionSet,
}

/// Whether a fragment with this condition applies under `parent`.
pub open spec fn condition_applies(cond: Option<String>, parent: Seq<char>) -> bool {
    match cond {
        Some(c) => c@ == parent,
        None => true,
    }
}

/// The fields that a selection list yields under `parent`, fragments inlined.
pub open spec fn fields_of_seq(items: Seq<Selection>, parent: Seq<char>) -> Seq<Field>
    decreases items,
{
    if items.len() == 0 {
        Seq::empty()
    } else {
        let last = items[items.len() - 1];
        let init = items.subrange(0, items.len() - 1);
        fields_of_seq(init, parent) + match last {
            Selection::Field(f) => seq![f],
            Selection::InlineFragment(fr) => if condition_applies(fr.type_condition, parent) {
                fields_of_seq(fr.selection_set.items@, parent)
            } else {
                Seq::empty()
            },
        }
    }
}

pub open spec fn fields_of(set: SelectionSet, parent: Seq<char>) -> Seq<Field> {
    fields_of_seq(set.items@, parent)
}

/// The fields behind a list of references.
pub open spec fn derefs(s: Seq<&Field>) -> Seq<Field> {
    s.map_values(|r: &Field| *r)
}

/// Whether every field of `fields` lies strictly inside `bound`.
pub open spec fn below(bound: SelectionSet, fields: Seq<Field>) -> bool {
    forall|i: int| 0 <= i < fields.len() ==> decreases_to!(bound => #[trigger] fields[i])
}

/// Each field that a selection set yields lies strictly inside it.
pub proof fn lemma_set_fields_below(set: SelectionSet, parent: Seq<char>)
    ensures
        below(set, fields_of(set, parent)),
{
    let v = set.items;
    lemma_fields_below(v@, parent);
    assert(decreases_to!(set => v));
    assert(decreases_to!(v => v@));
}

/// Each field that a selection list yields lies strictly inside it.
pub proof fn lemma_fields_below(items: Seq<Selection>, parent: Seq<char>)
    ensures
        forall|i: int| 0 <= i < fields_of_seq(items, parent).len()
            ==> decreases_to!(items => #[trigger] fields_of_seq(items, parent)[i]),
    decreases items,
{
    if items.len() > 0 {
        let init = items.subrange(0, items.len() - 1);
        let last = items[items.len() - 1];
        lemma_fields_below(init, parent);
        assert(decreases_to!(items => init));
        assert(decreases_to!(items => last));
        let whole = fields_of_seq(items, parent);
        let front = fields_of_seq(init, parent);
        match last {
            Selection::Field(f) => {
                assert(decreases_to!(last => f));
                assert forall|i: int| 0 <= i < whole.len()
                    implies decreases_to!(items => #[trigger] whole[i]) by {
                    if i < front.len() {
                        assert(whole[i] == front[i]);
                    } else {
                        assert(whole[i] == f);
                    }
                }
            },
            Selection::InlineFragment(fr) => {
                let v = fr.selection_set.items;
                assert(decreases_to!(last => fr));
                assert(decreases_to!(fr => fr.selection_set));
                assert(decreases_to!(fr.selection_set => v));
                assert(decreases_to!(v => v@));
                lemma_fields_below(v@, parent);
                let inner = fields_of_seq(v@, parent);
                assert forall|i: int| 0 <= i < whole.len()
                    implies decreases_to!(items => #[trigger] whole[i]) by {
                    if i < front.len() {
                        assert(whole[i] == front[i]);
                    } else {
                        assert(whole[i] == inner[i - front.len()]);
                    }
                }
            },
        }
    }
}

pub fn collect_into<'a>(set: &'a SelectionSet, parent: &String, out: &mut Vec<&'a Field>)
    ensures
        derefs(final(out)@) == derefs(old(out)@) + fields_of(*set, parent@),
    decreases set,
{
    let mut k: usize = 0;
    while k < set.items.len()
        invariant
            0 <= k <= set.items.len(),
            derefs(out@) == derefs(old(out)@) + fields_of_seq(set.items@.subrange(0, k as int), parent@),
        decreases set.items.len() - k,
    {
        assert(set.items@.subrange(0, k as int + 1).subrange(0, k as int) == set.items@.subrange(0, k as int));
        match &set.items[k] {
            Selection::Field(f) => {
                let ghost pre = out@;
                out.push(f);
                assert(derefs(out@) =~= derefs(pre) + seq![*f]);
            },
            Selection::InlineFragment(fr) => {
                let applies = match &fr.type_condition {
                    Some(c) => c.eq(parent),
                    None => true,
                };
                assert(applies == condition_applies(fr.type_condition, parent@));
                if applies {
                    collect_into(&fr.selection_set, parent, out);
                }
            },
        }
        k = k + 1;
    }
    assert(set.items@.subrange(0, set.items@.len() as int) == set.items@);
}

} // verus!
