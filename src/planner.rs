//! Builds a query plan: fields are grouped by owning service, and each
//! crossing into another service becomes a fetch that resolves entities by key.
use vstd::prelude::*;
use crate::query::{Field, SelectionSet, Argument, Value, VariableDefinition, fields_of, derefs, below, collect_into, lemma_set_fields_below};
use crate::format::write_args;
use crate::schema::{
    type_def, FieldDef, TypeDef, key_usable, error_justified, has_name, FederatedSchemaGraph, PlanningError, Representation, can_provide, owner_of, field_def, same, contains_name,
    copy_names, representation,
};
use crate::plan::{distinct, entities_text, root_text, Fetch, PlanNode, QueryPlan, QueryPlanningOptions, node_wf, all_wf, supplies, lead, lemma_all_wf_more_before, starts_with_typename, then_run, all_of};

verus! {

/// Whether `service` can return every field of `fields` on type `ty`.
pub open spec fn all_provided(g: FederatedSchemaGraph, ty: Seq<char>, service: Seq<char>, fields: Seq<Field>) -> bool {
    forall|i: int| 0 <= i < fields.len() ==> can_provide(g, ty, service, #[trigger] fields[i].name@)
}

/// Whether `service` alone can return field `f` of type `ty` and,
/// recursively, everything selected beneath it: the field has an owner, and
/// `service` owns it or holds it as a key field.
pub open spec fn field_served(g: FederatedSchemaGraph, service: Seq<char>, ty: Seq<char>, f: Field) -> bool
    decreases f, 0int,
{
    &&& owner_of(g, ty, f.name@).is_some()
    &&& can_provide(g, ty, service, f.name@)
    &&& (f.selection_set.items@.len() > 0 ==> match field_def(g, ty, f.name@) {
        Some(fd) => served_by(g, service, fd.return_type@, fields_of(f.selection_set, fd.return_type@), f.selection_set),
        None => false,
    })
}

/// Whether `service` alone can return all of `fields` on type `ty` and
/// everything selected beneath them. `bound` is a selection set that
/// contains the fields; it measures the depth of the recursion.
pub open spec fn served_by(g: FederatedSchemaGraph, service: Seq<char>, ty: Seq<char>, fields: Seq<Field>, bound: SelectionSet) -> bool
    decreases bound, 1int,
{
    if below(bound, fields) {
        forall|i: int| 0 <= i < fields.len() ==> field_served(g, service, ty, #[trigger] fields[i])
    } else {
        false
    }
}

/// Whether planning field `f` of type `ty` reaches field `name` of type `t`:
/// it is that field, or that field is selected beneath it.
pub open spec fn field_reaches(g: FederatedSchemaGraph, ty: Seq<char>, f: Field, t: Seq<char>, name: Seq<char>) -> bool
    decreases f, 0int,
{
    (ty == t && f.name@ == name) || (f.selection_set.items@.len() > 0 && match field_def(g, ty, f.name@) {
        Some(fd) => reaches_field(g, fd.return_type@, fields_of(f.selection_set, fd.return_type@), f.selection_set, t, name),
        None => false,
    })
}

/// Whether planning `fields` of type `ty` reaches field `name` of type `t`.
pub open spec fn reaches_field(g: FederatedSchemaGraph, ty: Seq<char>, fields: Seq<Field>, bound: SelectionSet, t: Seq<char>, name: Seq<char>) -> bool
    decreases bound, 1int,
{
    if below(bound, fields) {
        exists|i: int| 0 <= i < fields.len() && field_reaches(g, ty, #[trigger] fields[i], t, name)
    } else {
        false
    }
}

/// Whether planning the sub-selection of field `f` of type `ty` reaches type `t`.
pub open spec fn field_reaches_type(g: FederatedSchemaGraph, ty: Seq<char>, f: Field, t: Seq<char>) -> bool
    decreases f, 0int,
{
    f.selection_set.items@.len() > 0 && match field_def(g, ty, f.name@) {
        Some(fd) => reaches_type(g, fd.return_type@, fields_of(f.selection_set, fd.return_type@), f.selection_set, t),
        None => false,
    }
}

/// Whether planning `fields` of type `ty` reaches type `t`: it is `ty`, or
/// the type of a selection beneath them.
pub open spec fn reaches_type(g: FederatedSchemaGraph, ty: Seq<char>, fields: Seq<Field>, bound: SelectionSet, t: Seq<char>) -> bool
    decreases bound, 1int,
{
    if below(bound, fields) {
        t == ty || exists|i: int| 0 <= i < fields.len() && field_reaches_type(g, ty, #[trigger] fields[i], t)
    } else {
        false
    }
}

/// Whether error `e` concerns what planning `fields` of type `ty` reaches:
/// the field it names, or the type at which a boundary was crossed.
pub open spec fn error_reached(g: FederatedSchemaGraph, ty: Seq<char>, fields: Seq<Field>, bound: SelectionSet, e: PlanningError) -> bool {
    match e {
        PlanningError::UnknownField { parent, field } => reaches_field(g, ty, fields, bound, parent@, field@),
        PlanningError::AmbiguousOwner { parent, field } => reaches_field(g, ty, fields, bound, parent@, field@),
        PlanningError::NotAnEntity { parent, service } => reaches_type(g, ty, fields, bound, parent@),
        PlanningError::UnsatisfiableRequirement { parent, service } => reaches_type(g, ty, fields, bound, parent@),
    }
}

/// Whether `f` is one of `all`.
pub open spec fn one_of(f: Field, all: Seq<Field>) -> bool {
    exists|k: int| 0 <= k < all.len() && all[k] == f
}

/// Whether every field of `sub` is one of `all`.
pub open spec fn among(sub: Seq<Field>, all: Seq<Field>) -> bool {
    forall|x: int| 0 <= x < sub.len() ==> one_of(#[trigger] sub[x], all)
}

/// What an error reached from some of the fields, it reached from all.
proof fn lemma_error_reached_among(g: FederatedSchemaGraph, ty: Seq<char>, sub: Seq<Field>, all: Seq<Field>, bound: SelectionSet, e: PlanningError)
    requires
        error_reached(g, ty, sub, bound, e),
        among(sub, all),
        below(bound, all),
    ensures
        error_reached(g, ty, all, bound, e),
{
    match e {
        PlanningError::UnknownField { parent, field } => {
            let x = choose|x: int| 0 <= x < sub.len() && field_reaches(g, ty, #[trigger] sub[x], parent@, field@);
            assert(one_of(sub[x], all));
            let k = choose|k: int| 0 <= k < all.len() && all[k] == sub[x];
            assert(field_reaches(g, ty, all[k], parent@, field@));
        },
        PlanningError::AmbiguousOwner { parent, field } => {
            let x = choose|x: int| 0 <= x < sub.len() && field_reaches(g, ty, #[trigger] sub[x], parent@, field@);
            assert(one_of(sub[x], all));
            let k = choose|k: int| 0 <= k < all.len() && all[k] == sub[x];
            assert(field_reaches(g, ty, all[k], parent@, field@));
        },
        PlanningError::NotAnEntity { parent, service } => {
            if parent@ != ty {
                let x = choose|x: int| 0 <= x < sub.len() && field_reaches_type(g, ty, #[trigger] sub[x], parent@);
                assert(one_of(sub[x], all));
            let k = choose|k: int| 0 <= k < all.len() && all[k] == sub[x];
                assert(field_reaches_type(g, ty, all[k], parent@));
            }
        },
        PlanningError::UnsatisfiableRequirement { parent, service } => {
            if parent@ != ty {
                let x = choose|x: int| 0 <= x < sub.len() && field_reaches_type(g, ty, #[trigger] sub[x], parent@);
                assert(one_of(sub[x], all));
            let k = choose|k: int| 0 <= k < all.len() && all[k] == sub[x];
                assert(field_reaches_type(g, ty, all[k], parent@));
            }
        },
    }
}

/// What an error reached beneath field `i`, planning `fields` reached too.
proof fn lemma_error_reached_beneath(g: FederatedSchemaGraph, ty: Seq<char>, fields: Seq<Field>, bound: SelectionSet, i: int, fd: FieldDef, e: PlanningError)
    requires
        below(bound, fields),
        0 <= i < fields.len(),
        fields[i].selection_set.items@.len() > 0,
        field_def(g, ty, fields[i].name@) == Some(fd),
        error_reached(g, fd.return_type@, fields_of(fields[i].selection_set, fd.return_type@), fields[i].selection_set, e),
    ensures
        error_reached(g, ty, fields, bound, e),
{
    match e {
        PlanningError::UnknownField { parent, field } => {
            assert(field_reaches(g, ty, fields[i], parent@, field@));
        },
        PlanningError::AmbiguousOwner { parent, field } => {
            assert(field_reaches(g, ty, fields[i], parent@, field@));
        },
        PlanningError::NotAnEntity { parent, service } => {
            assert(field_reaches_type(g, ty, fields[i], parent@));
        },
        PlanningError::UnsatisfiableRequirement { parent, service } => {
            assert(field_reaches_type(g, ty, fields[i], parent@));
        },
    }
}

/// Whether every field of `query` is owned at the root by `service` and
/// everything beneath can be returned by it as well.
pub open spec fn single_service(g: FederatedSchemaGraph, service: Seq<char>, query: SelectionSet) -> bool {
    let fs = fields_of(query, "Query"@);
    &&& served_by(g, service, "Query"@, fs, query)
    &&& forall|i: int| 0 <= i < fs.len() ==> owner_of(g, "Query"@, (#[trigger] fs[i]).name@) == Some(service)
}

/// Adds to `vars` each variable that `args` references and `vars` lacks.
fn note_variables(vars: &mut Vec<String>, args: &Vec<Argument>)
    requires
        distinct(old(vars)@),
    ensures
        distinct(final(vars)@),
        forall|i: int| 0 <= i < args@.len() ==> match (#[trigger] args@[i]).value {
            Value::Variable(n) => has_name(final(vars)@, n@),
            _ => true,
        },
{
    let mut i: usize = 0;
    while i < args.len()
        invariant
            0 <= i <= args@.len(),
            distinct(vars@),
            forall|k: int| 0 <= k < i ==> match (#[trigger] args@[k]).value {
                Value::Variable(n) => has_name(vars@, n@),
                _ => true,
            },
        decreases args@.len() - i,
    {
        match &args[i].value {
            Value::Variable(n) => {
                if !contains_name(vars, n) {
                    let ghost pre = vars@;
                    vars.push(n.clone());
                    assert(vars@[pre.len() as int]@ == n@);
                    assert forall|k: int| 0 <= k < i implies match (#[trigger] args@[k]).value {
                        Value::Variable(m) => has_name(vars@, m@),
                        _ => true,
                    } by {
                        match args@[k].value {
                            Value::Variable(m) => {
                                let w = choose|w: int| 0 <= w < pre.len() && #[trigger] pre[w]@ == m@;
                                assert(vars@[w] == pre[w]);
                            },
                            _ => {},
                        }
                    }
                }
            },
            _ => {},
        }
        i = i + 1;
    }
}

/// The declaration of variable `v`: `$v:type` after the first definition of
/// `defs` named `v`; nothing when none is.
pub open spec fn decl_of(v: Seq<char>, defs: Seq<VariableDefinition>) -> Seq<char>
    decreases defs.len(),
{
    if defs.len() == 0 {
        Seq::empty()
    } else if defs[0].name@ == v {
        "$"@ + v + ":"@ + defs[0].var_type@
    } else {
        decl_of(v, defs.subrange(1, defs.len() as int))
    }
}

/// The declarations of `vars`, one after another.
pub open spec fn decls_text(vars: Seq<String>, defs: Seq<VariableDefinition>) -> Seq<char>
    decreases vars.len(),
{
    if vars.len() == 0 {
        Seq::empty()
    } else {
        decls_text(vars.drop_last(), defs) + decl_of(vars.last()@, defs)
    }
}

/// Writes the declaration of each variable of `vars`; one that `defs` does
/// not declare is left out.
fn write_declarations(out: &mut String, vars: &Vec<String>, defs: &Vec<VariableDefinition>)
    ensures
        final(out)@ == old(out)@ + decls_text(vars@, defs@),
{
    let ghost start = out@;
    let mut i: usize = 0;
    while i < vars.len()
        invariant
            0 <= i <= vars@.len(),
            out@ == start + decls_text(vars@.subrange(0, i as int), defs@),
        decreases vars@.len() - i,
    {
        let ghost before = out@;
        let ghost v = vars@[i as int]@;
        let mut k: usize = 0;
        let mut found = false;
        assert(defs@.subrange(0, defs@.len() as int) =~= defs@);
        while k < defs.len() && !found
            invariant
                0 <= k <= defs@.len(),
                0 <= i < vars@.len(),
                v == vars@[i as int]@,
                !found ==> out@ == before && decl_of(v, defs@) == decl_of(v, defs@.subrange(k as int, defs@.len() as int)),
                found ==> out@ == before + decl_of(v, defs@),
            decreases defs@.len() - k + (if found { 0int } else { 1int }),
        {
            let ghost rest = defs@.subrange(k as int, defs@.len() as int);
            assert(rest.subrange(1, rest.len() as int) =~= defs@.subrange(k as int + 1, defs@.len() as int));
            if same(&defs[k].name, &vars[i]) {
                out.append("$");
                out.append(vars[i].as_str());
                out.append(":");
                out.append(defs[k].var_type.as_str());
                found = true;
                assert(out@ =~= before + decl_of(v, defs@));
            } else {
                k = k + 1;
            }
        }
        proof {
            if !found {
                assert(decl_of(v, defs@.subrange(k as int, defs@.len() as int)) == Seq::<char>::empty());
            }
            let next = vars@.subrange(0, i as int + 1);
            assert(next.drop_last() =~= vars@.subrange(0, i as int));
            assert(out@ =~= start + decls_text(next, defs@));
        }
        i = i + 1;
    }
    assert(vars@.subrange(0, i as int) =~= vars@);
}

/// Whether service `x` can return every field of some key set of type `ty`
/// that belongs to `needy`.
pub open spec fn supplies_key(g: FederatedSchemaGraph, ty: Seq<char>, needy: Seq<char>, x: Seq<char>) -> bool {
    match type_def(g, ty) {
        Some(td) => exists|k: int| 0 <= k < td.keys@.len() && #[trigger] key_usable(g, td, k, needy, x),
        None => false,
    }
}

/// Whether `usable_key` finds a key: exactly when `supplies_key` holds.
fn has_usable_key(g: &FederatedSchemaGraph, ty: &String, needy: &String, x: &String) -> (r: bool)
    ensures
        r == supplies_key(*g, ty@, needy@, x@),
{
    match g.usable_key(ty, needy, x) {
        Some((ti, k)) => {
            assert(key_usable(*g, g.types@[ti as int], k as int, needy@, x@));
            true
        },
        None => false,
    }
}

/// Whether some service of `v` can supply a key of `ty` that `needy` accepts.
fn supplied_by_any(g: &FederatedSchemaGraph, ty: &String, needy: &String, v: &Vec<String>) -> (r: bool)
    ensures
        r == exists|c: int| 0 <= c < v@.len() && supplies_key(*g, ty@, needy@, #[trigger] v@[c]@),
{
    let mut c: usize = 0;
    while c < v.len()
        invariant
            0 <= c <= v@.len(),
            forall|d: int| 0 <= d < c ==> !supplies_key(*g, ty@, needy@, #[trigger] v@[d]@),
        decreases v@.len() - c,
    {
        if has_usable_key(g, ty, needy, &v[c]) {
            return true;
        }
        c = c + 1;
    }
    false
}

/// The first service of `candidates`, other than `service` and those of
/// `taken`, that can supply a key of `ty` accepted by `needy` and is itself
/// reachable from `service` by key.
fn find_helper(
    g: &FederatedSchemaGraph,
    ty: &String,
    service: &String,
    needy: &String,
    candidates: &Vec<String>,
    taken: &Vec<String>,
) -> (r: Option<usize>)
    ensures
        match r {
            Some(c) => c < candidates@.len() && candidates@[c as int]@ != service@
                && !has_name(taken@, candidates@[c as int]@)
                && supplies_key(*g, ty@, needy@, candidates@[c as int]@)
                && supplies_key(*g, ty@, candidates@[c as int]@, service@),
            None => forall|c: int| 0 <= c < candidates@.len() ==> !{
                &&& (#[trigger] candidates@[c])@ != service@
                &&& !has_name(taken@, candidates@[c]@)
                &&& supplies_key(*g, ty@, needy@, candidates@[c]@)
                &&& supplies_key(*g, ty@, candidates@[c]@, service@)
            },
        },
{
    let mut c: usize = 0;
    while c < candidates.len()
        invariant
            0 <= c <= candidates@.len(),
            forall|d: int| 0 <= d < c ==> !{
                &&& (#[trigger] candidates@[d])@ != service@
                &&& !has_name(taken@, candidates@[d]@)
                &&& supplies_key(*g, ty@, needy@, candidates@[d]@)
                &&& supplies_key(*g, ty@, candidates@[d]@, service@)
            },
        decreases candidates@.len() - c,
    {
        let x = &candidates[c];
        if !same(x, service) && !contains_name(taken, x) && has_usable_key(g, ty, needy, x)
            && has_usable_key(g, ty, x, service) {
            return Some(c);
        }
        c = c + 1;
    }
    None
}

/// Orders the services that a boundary reaches. Each keeps its place of first
/// occurrence, except that a service whose key neither `service` nor an
/// earlier one can supply is preceded by one that can: a later one of
/// `others` if any, else the first such service of the schema.
fn arrange(g: &FederatedSchemaGraph, ty: &String, service: &String, others: &Vec<String>) -> (r: Vec<String>)
    ensures
        others@.len() == 0 <==> r@.len() == 0,
        forall|d: int| 0 <= d < others@.len() ==> has_name(r@, (#[trigger] others@[d])@),
{
    let mut order: Vec<String> = Vec::new();
    let mut h: usize = 0;
    while h < others.len()
        invariant
            0 <= h <= others@.len(),
            others@.len() == 0 ==> order@.len() == 0,
            h > 0 ==> order@.len() > 0,
            forall|d: int| 0 <= d < h ==> has_name(order@, (#[trigger] others@[d])@),
        decreases others@.len() - h,
    {
        let b = &others[h];
        let ghost start = order@;
        if !contains_name(&order, b) {
            if g.usable_key(ty, b, service).is_none() && !supplied_by_any(g, ty, b, &order) {
                match find_helper(g, ty, service, b, others, &order) {
                    Some(c) => {
                        order.push(others[c].clone());
                    },
                    None => match find_helper(g, ty, service, b, &g.services, &order) {
                        Some(c) => {
                            order.push(g.services[c].clone());
                        },
                        None => {},
                    },
                }
            }
            let ghost mid = order@;
            if !contains_name(&order, b) {
                order.push(b.clone());
                assert(order@[mid.len() as int]@ == b@);
            }
            assert(has_name(order@, b@));
            assert(mid.len() >= start.len() && forall|i: int| 0 <= i < start.len() ==> mid[i] == start[i]);
            assert(forall|i: int| 0 <= i < mid.len() ==> order@[i] == mid[i]);
        } else {
            assert(order@.len() > 0);
            assert(order@ == start);
        }
        proof {
            assert(order@.len() >= start.len() && forall|i: int| 0 <= i < start.len() ==> order@[i] == start[i]);
            assert forall|d: int| 0 <= d < h + 1 implies has_name(order@, (#[trigger] others@[d])@) by {
                if d < h {
                    let w = choose|w: int| 0 <= w < start.len() && #[trigger] start[w]@ == others@[d]@;
                    assert(order@[w] == start[w]);
                }
            }
        }
        h = h + 1;
    }
    order
}

/// A selection shape that a fetch's operation names once and spreads where
/// it occurs.
struct NamedFragment {
    name: String,
    on: String,
    body: String,
}

/// The digit `d` as text.
fn digit(d: usize) -> (r: &'static str) {
    if d == 0 { "0" } else if d == 1 { "1" } else if d == 2 { "2" } else if d == 3 { "3" } else if d == 4 {
        "4"
    } else if d == 5 { "5" } else if d == 6 { "6" } else if d == 7 { "7" } else if d == 8 { "8" } else { "9" }
}

/// Appends `n` in decimal.
fn write_decimal(out: &mut String, n: usize)
    decreases n,
{
    if n >= 10 {
        write_decimal(out, n / 10);
    }
    out.append(digit(n % 10));
}

/// The name of the fragment for `body` on type `on`, added to `frags` when
/// no fragment of `frags` has that shape yet.
fn fragment_for(frags: &mut Vec<NamedFragment>, on: &String, body: &String) -> (r: String)
    ensures
        exists|k: int| 0 <= k < final(frags)@.len() && final(frags)@[k].name@ == r@
            && final(frags)@[k].on@ == on@ && #[trigger] final(frags)@[k].body@ == body@,
        old(frags)@.len() <= final(frags)@.len(),
        forall|k: int| 0 <= k < old(frags)@.len() ==> #[trigger] final(frags)@[k] == old(frags)@[k],
{
    let mut k: usize = 0;
    while k < frags.len()
        invariant
            0 <= k <= frags@.len(),
        decreases frags@.len() - k,
    {
        if same(&frags[k].on, on) && same(&frags[k].body, body) {
            let r = frags[k].name.clone();
            assert(frags@[k as int].body@ == body@);
            return r;
        }
        k = k + 1;
    }
    let mut name = String::from_str("__QueryPlanFragment_");
    write_decimal(&mut name, frags.len());
    name.append("__");
    let ghost n = frags@.len();
    frags.push(NamedFragment { name: name.clone(), on: on.clone(), body: body.clone() });
    assert(frags@[n as int].body@ == body@);
    name
}

/// The definitions of `frags`: `fragment NAME on TYPE{...}` each.
spec fn frags_text(frags: Seq<NamedFragment>) -> Seq<char>
    decreases frags.len(),
{
    if frags.len() == 0 {
        Seq::empty()
    } else {
        let f = frags.last();
        frags_text(frags.drop_last()) + "fragment "@ + f.name@ + " on "@ + f.on@ + "{"@ + f.body@ + "}"@
    }
}

/// Appends the definitions of `frags`.
fn write_fragments(out: &mut String, frags: &Vec<NamedFragment>)
    ensures
        final(out)@ == old(out)@ + frags_text(frags@),
{
    let ghost start = out@;
    let mut k: usize = 0;
    while k < frags.len()
        invariant
            0 <= k <= frags@.len(),
            out@ == start + frags_text(frags@.subrange(0, k as int)),
        decreases frags@.len() - k,
    {
        let ghost next = frags@.subrange(0, k as int + 1);
        assert(next.drop_last() =~= frags@.subrange(0, k as int));
        out.append("fragment ");
        out.append(frags[k].name.as_str());
        out.append(" on ");
        out.append(frags[k].on.as_str());
        out.append("{");
        out.append(frags[k].body.as_str());
        out.append("}");
        assert(out@ =~= start + frags_text(next));
        k = k + 1;
    }
    assert(frags@.subrange(0, k as int) =~= frags@);
}

/// Appends `item` to a space-separated list.
fn push_item(text: &mut String, item: &String) {
    if text.as_str().len() > 0 {
        text.append(" ");
    }
    text.append(item.as_str());
}

/// Adds each name of `names` that `requested` lacks to `text` and to
/// `requested`, and marks it at `rel` as requested for planning only.
fn request_extra(
    text: &mut String,
    requested: &mut Vec<String>,
    names: &Vec<String>,
    rel: &Vec<String>,
    marks: &mut Vec<Vec<String>>,
) {
    let mut i: usize = 0;
    while i < names.len()
        decreases names.len() - i,
    {
        if !contains_name(requested, &names[i]) {
            push_item(text, &names[i]);
            requested.push(names[i].clone());
            let mut at = copy_names(rel);
            at.push(names[i].clone());
            marks.push(at);
        }
        i = i + 1;
    }
}

/// Plans the fields `fields` of type `ty` fetched by `service` at response
/// path `path`: returns the selection text for that service, the names it
/// requests, and the nodes that must run after its fetch.
fn plan_scope<'a>(
    g: &FederatedSchemaGraph,
    service: &String,
    ty: &String,
    fields: &Vec<&'a Field>,
    path: &Vec<String>,
    rel: &Vec<String>,
    defs: &Vec<VariableDefinition>,
    auto: bool,
    vars: &mut Vec<String>,
    frags: &mut Vec<NamedFragment>,
    marks: &mut Vec<Vec<String>>,
    Ghost(bound): Ghost<SelectionSet>,
) -> (r: Result<(String, Vec<String>, Vec<PlanNode>), PlanningError>)
    requires
        below(bound, derefs(fields@)),
        distinct(old(vars)@),
    ensures
        distinct(final(vars)@),
        match r {
            Ok((_, _, deps)) => all_wf(*g, deps@, set![service@]),
            Err(e) => error_justified(*g, e) && error_reached(*g, ty@, derefs(fields@), bound, e),
        },
        served_by(*g, service@, ty@, derefs(fields@), bound) ==> (r matches Ok((_, _, deps)) && deps@.len() == 0),
        r matches Ok((_, _, deps)) && deps@.len() == 0 ==> served_by(*g, service@, ty@, derefs(fields@), bound),
    decreases bound, if all_provided(*g, ty@, service@, derefs(fields@)) { 0int } else { 2int }, 0int,
{
    let mut text = String::new();
    let mut requested: Vec<String> = Vec::new();
    let mut deps: Vec<PlanNode> = Vec::new();
    let mut owners: Vec<Option<String>> = Vec::new();
    let mut others: Vec<String> = Vec::new();
    let ghost served = served_by(*g, service@, ty@, derefs(fields@), bound);
    let mut i: usize = 0;
    while i < fields.len()
        invariant
            0 <= i <= fields@.len(),
            distinct(vars@),
            served == served_by(*g, service@, ty@, derefs(fields@), bound),
            served ==> deps@.len() == 0 && others@.len() == 0,
            deps@.len() == 0 && others@.len() == 0 ==> forall|k: int| 0 <= k < i
                ==> field_served(*g, service@, ty@, #[trigger] derefs(fields@)[k]),
            owners@.len() == i,
            below(bound, derefs(fields@)),
            all_wf(*g, deps@, set![service@]),
            others@.len() > 0 ==> !all_provided(*g, ty@, service@, derefs(fields@)),
            forall|k: int| 0 <= k < i ==> match #[trigger] owners@[k] {
                Some(o) => owner_of(*g, ty@, fields@[k].name@) == Some(o@),
                None => true,
            },
        decreases fields@.len() - i,
    {
        let f: &Field = fields[i];
        assert(derefs(fields@)[i as int] == *f);
        assert(served ==> owner_of(*g, ty@, derefs(fields@)[i as int].name@).is_some());
        let owner = match g.resolve_field_owner(ty, &f.name) {
            Ok(o) => o,
            Err(e) => {
                assert(field_reaches(*g, ty@, derefs(fields@)[i as int], ty@, f.name@));
                return Err(e);
            },
        };
        if g.provides(ty, service, &f.name) {
            owners.push(None);
            match &f.alias {
                Some(a) => {
                    push_item(&mut text, a);
                    text.append(":");
                    text.append(f.name.as_str());
                },
                None => {
                    push_item(&mut text, &f.name);
                },
            }
            write_args(&mut text, &f.arguments);
            note_variables(vars, &f.arguments);
            requested.push(f.name.clone());
            if f.selection_set.items.len() > 0 {
                let (ti, fi) = match g.field_at(ty, &f.name) {
                    Some(p) => p,
                    None => {
                        assert(field_reaches(*g, ty@, derefs(fields@)[i as int], ty@, f.name@));
                        return Err(PlanningError::UnknownField { parent: ty.clone(), field: f.name.clone() });
                    },
                };
                let fd = &g.types[ti].fields[fi];
                let mut sub_path = copy_names(path);
                let mut sub_rel = copy_names(rel);
                match &f.alias {
                    Some(a) => {
                        sub_path.push(a.clone());
                        sub_rel.push(a.clone());
                    },
                    None => {
                        sub_path.push(f.name.clone());
                        sub_rel.push(f.name.clone());
                    },
                }
                if fd.is_list {
                    sub_path.push(String::from_str("@"));
                    sub_rel.push(String::from_str("@"));
                }
                let mut subs: Vec<&Field> = Vec::new();
                collect_into(&f.selection_set, &fd.return_type, &mut subs);
                proof {
                    lemma_set_fields_below(f.selection_set, fd.return_type@);
                    assert(derefs(subs@) =~= fields_of(f.selection_set, fd.return_type@));
                    assert(decreases_to!(bound => *f));
                    assert(decreases_to!(*f => f.selection_set));
                }
                assert(served ==> served_by(*g, service@, fd.return_type@, derefs(subs@), f.selection_set));
                let (sub_text, _sub_requested, mut sub_deps) = match plan_scope(
                    g, service, &fd.return_type, &subs, &sub_path, &sub_rel, defs, auto, vars, frags, marks, Ghost(f.selection_set),
                ) {
                    Ok(t) => t,
                    Err(e) => {
                        proof {
                            lemma_error_reached_beneath(*g, ty@, derefs(fields@), bound, i as int, *fd, e);
                        }
                        return Err(e);
                    },
                };
                text.append("{");
                if auto {
                    let name = fragment_for(frags, &fd.return_type, &sub_text);
                    text.append("...");
                    text.append(name.as_str());
                } else {
                    text.append(sub_text.as_str());
                }
                text.append("}");
                let ghost pre = deps@;
                let ghost added = sub_deps@;
                deps.append(&mut sub_deps);
                assert forall|k: int| 0 <= k < deps@.len() implies node_wf(*g, #[trigger] deps@[k], false, set![service@]) by {
                    if k >= pre.len() {
                        assert(deps@[k] == added[k - pre.len()]);
                    } else {
                        assert(deps@[k] == pre[k]);
                    }
                }
                proof {
                    if deps@.len() == 0 {
                        assert(added.len() == 0);
                        assert(field_def(*g, ty@, f.name@) == Some(*fd));
                        assert(field_served(*g, service@, ty@, *f));
                    }
                }
            } else {
                assert(field_served(*g, service@, ty@, *f));
            }
        } else {
            assert(!can_provide(*g, ty@, service@, derefs(fields@)[i as int].name@));
            if !contains_name(&others, &owner) {
                others.push(owner.clone());
            }
            owners.push(Some(owner));
        }
        i = i + 1;
    }
    let ghost deps1 = deps@;
    let ghost others1 = others@;
    assert(deps1.len() == 0 && others1.len() == 0 ==> served_by(*g, service@, ty@, derefs(fields@), bound));
    let others = arrange(g, ty, service, &others);
    let n = others.len();
    let mut sources: Vec<Option<usize>> = Vec::new();
    let mut reps: Vec<Representation> = Vec::new();
    let mut lists: Vec<Vec<&'a Field>> = Vec::new();
    let mut j: usize = 0;
    while j < n
        invariant
            0 <= j <= n,
            n == others@.len(),
            served ==> n == 0,
            distinct(vars@),
            deps@ == deps1,
            others1.len() == 0 <==> n == 0,
            deps1.len() == 0 && others1.len() == 0 ==> served_by(*g, service@, ty@, derefs(fields@), bound),
            n > 0 ==> !all_provided(*g, ty@, service@, derefs(fields@)),
            owners@.len() == fields@.len(),
            below(bound, derefs(fields@)),
            forall|k: int| 0 <= k < fields@.len() ==> match #[trigger] owners@[k] {
                Some(o) => owner_of(*g, ty@, fields@[k].name@) == Some(o@),
                None => true,
            },
            sources@.len() == j,
            reps@.len() == j,
            lists@.len() == j,
            buckets_ok(*g, ty@, service@, others@, lists@, sources@, reps@, bound),
            forall|m: int| 0 <= m < lists@.len() ==> among(derefs(#[trigger] lists@[m]@), derefs(fields@)),
        decreases n - j,
    {
        let b = &others[j];
        let mut list: Vec<&'a Field> = Vec::new();
        let mut k: usize = 0;
        while k < fields.len()
            invariant
                0 <= k <= fields@.len(),
                owners@.len() == fields@.len(),
                below(bound, derefs(fields@)),
                forall|m: int| 0 <= m < fields@.len() ==> match #[trigger] owners@[m] {
                    Some(o) => owner_of(*g, ty@, fields@[m].name@) == Some(o@),
                    None => true,
                },
                below(bound, derefs(list@)),
                all_provided(*g, ty@, b@, derefs(list@)),
                among(derefs(list@), derefs(fields@)),
            decreases fields@.len() - k,
        {
            match &owners[k] {
                Some(o) => {
                    if same(o, b) {
                        let ghost pre = list@;
                        list.push(fields[k]);
                        assert(derefs(fields@)[k as int] == *fields[k as int]);
                        assert forall|x: int| 0 <= x < list@.len() implies
                            decreases_to!(bound => #[trigger] derefs(list@)[x])
                            && can_provide(*g, ty@, b@, derefs(list@)[x].name@)
                            && one_of(derefs(list@)[x], derefs(fields@)) by {
                            if x < pre.len() {
                                assert(derefs(list@)[x] == derefs(pre)[x]);
                                assert(one_of(derefs(pre)[x], derefs(fields@)));
                            } else {
                                assert(derefs(list@)[x] == derefs(fields@)[k as int]);
                            }
                        }
                    }
                },
                None => {},
            }
            k = k + 1;
        }
        let ghost pre_lists = lists@;
        let ghost pre_sources = sources@;
        let ghost pre_reps = reps@;
        lists.push(list);
        match g.usable_key(ty, b, service) {
            Some((ti, kk)) => {
                sources.push(None);
                let rep = representation(ty, &g.types[ti].keys[kk].fields);
                proof { lemma_supplies(*g, g.types@[ti as int], kk as int, b@, service@, rep); }
                reps.push(rep);
                assert(sources@.subrange(0, j as int) =~= pre_sources);
                assert(reps@.subrange(0, j as int) =~= pre_reps);
            },
            None => {
                let mut c: usize = 0;
                let mut found = false;
                assert(sources@.subrange(0, j as int) =~= pre_sources);
                assert(reps@.subrange(0, j as int) =~= pre_reps);
                while c < j && !found
                    invariant
                        0 <= c <= j,
                        j < n,
                        n == others@.len(),
                        found ==> sources@.len() == j + 1 && reps@.len() == j + 1,
                        !found ==> sources@.len() == j && reps@.len() == j,
                        sources@.subrange(0, j as int) == pre_sources,
                        reps@.subrange(0, j as int) == pre_reps,
                        found ==> match sources@[j as int] {
                            Some(src) => src < j,
                            None => false,
                        } && starts_with_typename(reps@[j as int]) && reps@[j as int].type_condition@ == ty@
                            && supplies(*g, reps@[j as int], provider(service@, others@, sources@, j as int)),
                    decreases j - c + (if found { 0int } else { 1int }),
                {
                    match g.usable_key(ty, b, &others[c]) {
                        Some((ti, kk)) => {
                            sources.push(Some(c));
                            let rep = representation(ty, &g.types[ti].keys[kk].fields);
                            proof { lemma_supplies(*g, g.types@[ti as int], kk as int, b@, others@[c as int]@, rep); }
                            reps.push(rep);
                            found = true;
                            assert(sources@.subrange(0, j as int) =~= pre_sources);
                            assert(reps@.subrange(0, j as int) =~= pre_reps);
                        },
                        None => {
                            c = c + 1;
                        },
                    }
                }
                if !found {
                    match g.key_fields_for(ty, b) {
                        Err(e) => {
                            assert(reaches_type(*g, ty@, derefs(fields@), bound, ty@));
                            return Err(e);
                        },
                        Ok(_) => {
                            let e = PlanningError::UnsatisfiableRequirement { parent: ty.clone(), service: b.clone() };
                            assert(reaches_type(*g, ty@, derefs(fields@), bound, ty@));
                            return Err(e);
                        },
                    }
                }
            },
        }
        proof {
            assert(sources@.subrange(0, j as int) == pre_sources);
            assert(reps@.subrange(0, j as int) == pre_reps);
            assert forall|m: int| 0 <= m < j implies sources@[m] == pre_sources[m] && reps@[m] == pre_reps[m] by {
                assert(sources@[m] == sources@.subrange(0, j as int)[m]);
                assert(reps@[m] == reps@.subrange(0, j as int)[m]);
            }
            assert(lists@[j as int] == list);
            assert forall|m: int| 0 <= m < j implies lists@[m] == pre_lists[m] by {}
            assert forall|m: int| 0 <= m < lists@.len() implies among(derefs(#[trigger] lists@[m]@), derefs(fields@)) by {
                if m < j {
                    assert(lists@[m] == pre_lists[m]);
                }
            }
            assert(match sources@[j as int] {
                Some(src) => src < j,
                None => true,
            } && starts_with_typename(reps@[j as int]));
            assert(supplies(*g, reps@[j as int], provider(service@, others@, sources@, j as int)));
            assert(reps@[j as int].type_condition@ == ty@);
            assert forall|m: int| 0 <= m < sources@.len() implies {
                &&& below(bound, derefs(#[trigger] lists@[m]@))
                &&& all_provided(*g, ty@, others@[m]@, derefs(lists@[m]@))
                &&& match sources@[m] {
                    Some(src) => src < m,
                    None => true,
                }
                &&& starts_with_typename(reps@[m])
                &&& reps@[m].type_condition@ == ty@
                &&& supplies(*g, reps@[m], provider(service@, others@, sources@, m))
            } by {
                if m < j {
                    assert(lists@[m] == pre_lists[m]);
                    assert(sources@[m] == pre_sources[m]);
                    assert(reps@[m] == pre_reps[m]);
                }
            }
        }
        j = j + 1;
    }
    let mut m: usize = 0;
    while m < n
        invariant
            0 <= m <= n,
            n == others@.len(),
            sources@.len() == n,
            reps@.len() == n,
            served ==> n == 0,
            distinct(vars@),
            deps@ == deps1,
            others1.len() == 0 <==> n == 0,
            deps1.len() == 0 && others1.len() == 0 ==> served_by(*g, service@, ty@, derefs(fields@), bound),
        decreases n - m,
    {
        if sources[m].is_none() {
            request_extra(&mut text, &mut requested, &reps[m].selections, rel, marks);
        }
        m = m + 1;
    }
    let mut m: usize = 0;
    while m < n
        invariant
            0 <= m <= n,
            n == others@.len(),
            n > 0 ==> !all_provided(*g, ty@, service@, derefs(fields@)),
            sources@.len() == n,
            reps@.len() == n,
            lists@.len() == n,
            buckets_ok(*g, ty@, service@, others@, lists@, sources@, reps@, bound),
            forall|m: int| 0 <= m < lists@.len() ==> among(derefs(#[trigger] lists@[m]@), derefs(fields@)),
            below(bound, derefs(fields@)),
            all_wf(*g, deps@, set![service@]),
            served ==> n == 0 && deps@.len() == 0,
            distinct(vars@),
            deps@.len() >= deps1.len(),
            m > 0 ==> deps@.len() > 0,
            others1.len() == 0 <==> n == 0,
            deps1.len() == 0 && others1.len() == 0 ==> served_by(*g, service@, ty@, derefs(fields@), bound),
        decreases n - m,
    {
        proof {
            if m == 0 {
                assert(below(bound, derefs(lists@[0]@)));
            }
        }
        if sources[m].is_none() {
            let node = bucket_node(g, ty, path, defs, auto, &others, &lists, &sources, &reps, m, Ghost(service@), Ghost(derefs(fields@)), Ghost(bound))?;
            let ghost pre = deps@;
            deps.push(node);
            assert forall|k: int| 0 <= k < deps@.len() implies node_wf(*g, #[trigger] deps@[k], false, set![service@]) by {
                if k < pre.len() {
                    assert(deps@[k] == pre[k]);
                }
            }
        }
        m = m + 1;
    }
    Ok((text, requested, deps))
}

/// The rules that the groups of one boundary meet: each group's fields lie
/// inside `bound` and belong to its service, the group it depends on comes
/// earlier, and its representation starts with `__typename` and holds key
/// fields that the supplying service returns.
pub open spec fn buckets_ok(
    g: FederatedSchemaGraph,
    ty: Seq<char>,
    scope: Seq<char>,
    services: Seq<String>,
    lists: Seq<Vec<&Field>>,
    sources: Seq<Option<usize>>,
    reps: Seq<Representation>,
    bound: SelectionSet,
) -> bool {
    forall|m: int| 0 <= m < sources.len() ==> {
        &&& below(bound, derefs(#[trigger] lists[m]@))
        &&& all_provided(g, ty, services[m]@, derefs(lists[m]@))
        &&& match sources[m] {
            Some(src) => src < m,
            None => true,
        }
        &&& starts_with_typename(reps[m])
        &&& reps[m].type_condition@ == ty
        &&& supplies(g, reps[m], provider(scope, services, sources, m))
    }
}

/// The service whose fetch supplies the representation of group `m`: the
/// scope's own, or that of the group it depends on.
pub open spec fn provider(scope: Seq<char>, services: Seq<String>, sources: Seq<Option<usize>>, m: int) -> Seq<char> {
    match sources[m] {
        Some(src) => services[src as int]@,
        None => scope,
    }
}

/// A representation built from key set `k` of `td`, usable by `provider`,
/// holds key fields that `provider` returns.
proof fn lemma_supplies(g: FederatedSchemaGraph, td: TypeDef, k: int, service: Seq<char>, provider: Seq<char>, rep: Representation)
    requires
        0 <= k < td.keys@.len(),
        key_usable(g, td, k, service, provider),
        rep.type_condition@ == td.name@,
        rep.selections@.len() == td.keys@[k].fields@.len() + 1,
        forall|i: int| 0 <= i < td.keys@[k].fields@.len() ==> #[trigger] rep.selections@[i + 1]@ == td.keys@[k].fields@[i]@,
    ensures
        supplies(g, rep, provider),
{
    assert forall|i: int| 1 <= i < rep.selections@.len()
        implies can_provide(g, rep.type_condition@, provider, #[trigger] rep.selections@[i]@) by {
        assert(rep.selections@[(i - 1) + 1]@ == td.keys@[k].fields@[i - 1]@);
    }
}

/// The operation that asks `service`'s entity entry point for `body` on `ty`.
fn entities_operation(
    ty: &String,
    body: &String,
    used: &Vec<String>,
    defs: &Vec<VariableDefinition>,
    frags: &Vec<NamedFragment>,
) -> (r: String)
    ensures
        r@ == entities_text(ty@, decls_text(used@, defs@), body@, frags_text(frags@)),
{
    let mut op = String::from_str("query($representations:[_Any!]!");
    write_declarations(&mut op, used, defs);
    op.append("){_entities(representations:$representations){...on ");
    op.append(ty.as_str());
    op.append("{");
    op.append(body.as_str());
    op.append("}}}");
    write_fragments(&mut op, frags);
    assert(op@ =~= entities_text(ty@, decls_text(used@, defs@), body@, frags_text(frags@)));
    op
}

/// The node for boundary group `j` and the groups that depend on it: its
/// flattened fetch, then whatever needs that fetch's entities.
fn bucket_node<'a>(
    g: &FederatedSchemaGraph,
    ty: &String,
    path: &Vec<String>,
    defs: &Vec<VariableDefinition>,
    auto: bool,
    services: &Vec<String>,
    lists: &Vec<Vec<&'a Field>>,
    sources: &Vec<Option<usize>>,
    reps: &Vec<Representation>,
    j: usize,
    Ghost(scope): Ghost<Seq<char>>,
    Ghost(all): Ghost<Seq<Field>>,
    Ghost(bound): Ghost<SelectionSet>,
) -> (r: Result<PlanNode, PlanningError>)
    requires
        j < services@.len(),
        sources@.len() == services@.len(),
        reps@.len() == services@.len(),
        lists@.len() == services@.len(),
        buckets_ok(*g, ty@, scope, services@, lists@, sources@, reps@, bound),
        below(bound, all),
        forall|m: int| 0 <= m < lists@.len() ==> among(derefs(#[trigger] lists@[m]@), all),
    ensures
        match r {
            Ok(node) => node_wf(*g, node, false, set![provider(scope, services@, sources@, j as int)])
                && lead(node) == Some(services@[j as int]@),
            Err(e) => error_justified(*g, e) && error_reached(*g, ty@, all, bound, e),
        },
    decreases bound, 1int, services@.len() - j,
{
    let n = services.len();
    assert(below(bound, derefs(lists@[j as int]@)));
    assert(starts_with_typename(reps@[j as int]));
    let mut used: Vec<String> = Vec::new();
    let mut frags: Vec<NamedFragment> = Vec::new();
    let mut marks: Vec<Vec<String>> = Vec::new();
    let top: Vec<String> = Vec::new();
    let (body, requested, children) = match plan_scope(
        g, &services[j], ty, &lists[j], path, &top, defs, auto, &mut used, &mut frags, &mut marks, Ghost(bound),
    ) {
        Ok(t) => t,
        Err(e) => {
            proof {
                assert(among(derefs(lists@[j as int]@), all));
                lemma_error_reached_among(*g, ty@, derefs(lists@[j as int]@), all, bound, e);
            }
            return Err(e);
        },
    };
    let mut body = body;
    let mut requested = requested;
    let mut children = children;
    let mut m: usize = j + 1;
    while m < n
        invariant
            j < m <= n,
            n == services@.len(),
            sources@.len() == n,
            reps@.len() == n,
        decreases n - m,
    {
        match sources[m] {
            Some(src) => {
                if src == j {
                    request_extra(&mut body, &mut requested, &reps[m].selections, &top, &mut marks);
                }
            },
            None => {},
        }
        m = m + 1;
    }
    let rep = reps[j].copy();
    let fetch = Fetch {
        service_name: services[j].clone(),
        operation: entities_operation(ty, &body, &used, defs, &frags),
        variable_usages: used,
        requires: Some(rep),
        planning_only: marks,
    };
    let ghost prov = provider(scope, services@, sources@, j as int);
    assert(supplies(*g, reps@[j as int], prov));
    assert(supplies(*g, rep, prov)) by {
        assert forall|i: int| 1 <= i < rep.selections@.len()
            implies can_provide(*g, rep.type_condition@, prov, #[trigger] rep.selections@[i]@) by {
            assert(rep.selections@[i]@ == reps@[j as int].selections@[i]@);
        }
    }
    assert(set![prov].contains(prov));
    assert(fetch.operation@ == entities_text(rep.type_condition@, decls_text(fetch.variable_usages@, defs@), body@, frags_text(frags@)));
    assert(node_wf(*g, PlanNode::Fetch(fetch), true, set![prov]));
    let ghost fetch_node = PlanNode::Fetch(fetch);
    assert(lead(fetch_node) == Some(services@[j as int]@));
    let flat = PlanNode::Flatten { path: copy_names(path), node: Box::new(PlanNode::Fetch(fetch)) };
    let mut m: usize = j + 1;
    while m < n
        invariant
            j < m <= n,
            n == services@.len(),
            sources@.len() == n,
            reps@.len() == n,
            lists@.len() == n,
            buckets_ok(*g, ty@, scope, services@, lists@, sources@, reps@, bound),
            below(bound, all),
            forall|k: int| 0 <= k < lists@.len() ==> among(derefs(#[trigger] lists@[k]@), all),
            all_wf(*g, children@, set![services@[j as int]@]),
        decreases n - m,
    {
        match sources[m] {
            Some(src) => {
                if src == j {
                    let child = bucket_node(g, ty, path, defs, auto, services, lists, sources, reps, m, Ghost(scope), Ghost(all), Ghost(bound))?;
                    let ghost pre = children@;
                    children.push(child);
                    assert forall|k: int| 0 <= k < children@.len() implies node_wf(*g, #[trigger] children@[k], false, set![services@[j as int]@]) by {
                        if k < pre.len() {
                            assert(children@[k] == pre[k]);
                        }
                    }
                }
            },
            None => {},
        }
        m = m + 1;
    }
    proof {
        lemma_all_wf_more_before(*g, children@, set![services@[j as int]@], set![prov].insert(services@[j as int]@));
        assert(lead(flat) == Some(services@[j as int]@));
    }
    let ghost prov_set = set![prov];
    Ok(then_run(flat, children, Ghost(*g), Ghost(prov_set)))
}

} // verus!

verus! {

/// The owners of `fs` on type `ty`, each once, in order of first occurrence.
pub open spec fn first_owners(g: FederatedSchemaGraph, ty: Seq<char>, fs: Seq<Field>) -> Seq<Seq<char>>
    decreases fs.len(),
{
    if fs.len() == 0 {
        Seq::empty()
    } else {
        let p = first_owners(g, ty, fs.drop_last());
        match owner_of(g, ty, fs.last().name@) {
            Some(o) => if p.contains(o) { p } else { p.push(o) },
            None => p,
        }
    }
}

/// The services that the top-level nodes of a plan start with.
pub open spec fn top_leads(n: Option<PlanNode>) -> Seq<Option<Seq<char>>> {
    match n {
        None => Seq::empty(),
        Some(PlanNode::Parallel(ns)) => ns@.map_values(|x: PlanNode| lead(x)),
        Some(x) => seq![lead(x)],
    }
}

/// The views of a list of strings.
pub open spec fn views(v: Seq<String>) -> Seq<Seq<char>> {
    v.map_values(|x: String| x@)
}

/// Whether some field of `fields` on type `ty` has no owning service.
pub open spec fn some_unowned(g: FederatedSchemaGraph, ty: Seq<char>, fields: Seq<Field>) -> bool {
    exists|i: int| 0 <= i < fields.len() && owner_of(g, ty, (#[trigger] fields[i]).name@).is_none()
}

/// Plans `query`, a selection set on the root type `Query`. The root fields
/// are grouped by owning service in order of first occurrence; each group is
/// one fetch, followed by the fetches that its entities lead to. Independent
/// groups run in parallel.
pub fn build_query_plan(
    schema: &FederatedSchemaGraph,
    query: &SelectionSet,
    variables: &Vec<VariableDefinition>,
    options: &QueryPlanningOptions,
) -> (r: Result<QueryPlan, PlanningError>)
    ensures
        match r {
            Ok(plan) => match plan.node {
                Some(n) => node_wf(*schema, n, false, Set::empty()),
                None => fields_of(*query, "Query"@).len() == 0,
            },
            Err(e) => error_justified(*schema, e)
                && error_reached(*schema, "Query"@, fields_of(*query, "Query"@), *query, e),
        },
        fields_of(*query, "Query"@).len() == 0 ==> (r matches Ok(plan) && plan.node is None),
        some_unowned(*schema, "Query"@, fields_of(*query, "Query"@)) ==> r is Err,
        r matches Ok(plan) ==> (plan.node matches Some(PlanNode::Parallel(ns)) ==> forall|i: int, j: int|
            0 <= i < j < ns@.len() ==> lead(#[trigger] ns@[i]) is Some && lead(ns@[i]) != lead(#[trigger] ns@[j])),
        r matches Ok(plan) ==> top_leads(plan.node)
            == first_owners(*schema, "Query"@, fields_of(*query, "Query"@)).map_values(|o: Seq<char>| Some(o)),
        r matches Ok(plan) ==> (plan.node matches Some(PlanNode::Fetch(f))
            ==> single_service(*schema, f.service_name@, *query)),
        forall|svc: Seq<char>| #[trigger] single_service(*schema, svc, *query) && fields_of(*query, "Query"@).len() > 0
            ==> (r matches Ok(plan) && plan.node matches Some(PlanNode::Fetch(f))
                && f.service_name@ == svc && f.requires is None),
{
    let root = String::from_str("Query");
    let mut fields: Vec<&Field> = Vec::new();
    collect_into(query, &root, &mut fields);
    proof {
        lemma_set_fields_below(*query, root@);
        assert(derefs(fields@) =~= fields_of(*query, root@));
    }
    let ghost one = exists|x: Seq<char>| #[trigger] single_service(*schema, x, *query) && fields@.len() > 0;
    let ghost sole = if one {
        choose|x: Seq<char>| #[trigger] single_service(*schema, x, *query) && fields@.len() > 0
    } else {
        Seq::empty()
    };
    let mut owners: Vec<String> = Vec::new();
    let mut services: Vec<String> = Vec::new();
    let mut i: usize = 0;
    while i < fields.len()
        invariant
            0 <= i <= fields@.len(),
            derefs(fields@) == fields_of(*query, root@),
            root@ == "Query"@,
            owners@.len() == i,
            i > 0 ==> services@.len() > 0,
            services@.len() <= i,
            forall|k: int| 0 <= k < i ==> owner_of(*schema, root@, fields@[k].name@) == Some(#[trigger] owners@[k]@),
            one ==> single_service(*schema, sole, *query) && fields@.len() > 0,
            one ==> forall|k: int| 0 <= k < services@.len() ==> (#[trigger] services@[k])@ == sole,
            one ==> forall|k: int| 0 <= k < i ==> (#[trigger] owners@[k])@ == sole,
            one ==> services@.len() <= 1,
            distinct(services@),
            views(services@) == first_owners(*schema, root@, derefs(fields@).subrange(0, i as int)),
            below(*query, derefs(fields@)),
            forall|k: int| 0 <= k < i ==> has_name(services@, (#[trigger] owners@[k])@),
        decreases fields@.len() - i,
    {
        assert(derefs(fields@)[i as int] == *fields[i as int]);
        let owner = match schema.resolve_field_owner(&root, &fields[i].name) {
            Ok(o) => o,
            Err(e) => {
                assert(field_reaches(*schema, root@, derefs(fields@)[i as int], root@, fields@[i as int].name@));
                return Err(e);
            },
        };
        proof {
            if one {
                assert(owner_of(*schema, "Query"@, fields_of(*query, "Query"@)[i as int].name@) == Some(sole));
                if services@.len() > 0 {
                    assert(services@[0]@ == owner@);
                }
            }
        }
        let ghost pre_services = services@;
        proof {
            let pf = derefs(fields@).subrange(0, i as int + 1);
            assert(pf.drop_last() =~= derefs(fields@).subrange(0, i as int));
            assert(pf.last() == *fields[i as int]);
            assert(has_name(services@, owner@) == views(services@).contains(owner@)) by {
                if has_name(services@, owner@) {
                    let w = choose|w: int| 0 <= w < services@.len() && #[trigger] services@[w]@ == owner@;
                    assert(views(services@)[w] == owner@);
                }
                if views(services@).contains(owner@) {
                    let w = choose|w: int| 0 <= w < views(services@).len() && views(services@)[w] == owner@;
                    assert(services@[w]@ == owner@);
                }
            }
        }
        if !contains_name(&services, &owner) {
            let ghost pre = services@;
            services.push(owner.clone());
            assert(views(services@) =~= views(pre).push(owner@));
            assert(has_name(services@, owner@)) by {
                assert(services@[pre.len() as int]@ == owner@);
            }
            assert forall|k: int| 0 <= k < i implies has_name(services@, (#[trigger] owners@[k])@) by {
                let w = choose|w: int| 0 <= w < pre.len() && #[trigger] pre[w]@ == owners@[k]@;
                assert(services@[w] == pre[w]);
            }
            assert forall|a: int, b: int| 0 <= a < b < services@.len() implies services@[a]@ != services@[b]@ by {
                if b == pre.len() {
                    assert(services@[a] == pre[a]);
                }
            }
        }
        owners.push(owner);
        assert(derefs(fields@).subrange(0, i as int + 1).drop_last() =~= derefs(fields@).subrange(0, i as int));
        i = i + 1;
    }
    proof {
        if some_unowned(*schema, root@, derefs(fields@)) {
            let k = choose|k: int| 0 <= k < derefs(fields@).len()
                && owner_of(*schema, root@, (#[trigger] derefs(fields@)[k]).name@).is_none();
            assert(owner_of(*schema, root@, fields@[k].name@) == Some(owners@[k]@));
        }
    }
    assert(derefs(fields@).len() == fields@.len());
    assert(derefs(fields@).subrange(0, fields@.len() as int) =~= derefs(fields@));
    let empty: Vec<String> = Vec::new();
    let mut nodes: Vec<PlanNode> = Vec::new();
    let mut s: usize = 0;
    while s < services.len()
        invariant
            0 <= s <= services@.len(),
            nodes@.len() == s,
            fields@.len() == 0 ==> services@.len() == 0,
            one == exists|x: Seq<char>| #[trigger] single_service(*schema, x, *query) && fields@.len() > 0,
            one ==> single_service(*schema, sole, *query) && fields@.len() > 0 && services@.len() == 1,
            one ==> services@[0]@ == sole,
            one ==> s <= 1,
            one ==> forall|k: int| 0 <= k < fields@.len() ==> (#[trigger] owners@[k])@ == sole,
            one && s == 1 ==> (nodes@[0] matches PlanNode::Fetch(f) && f.service_name@ == sole && f.requires is None),
            derefs(fields@) == fields_of(*query, root@),
            derefs(fields@).len() == fields@.len(),
            root@ == "Query"@,
            owners@.len() == fields@.len(),
            below(*query, derefs(fields@)),
            all_wf(*schema, nodes@, Set::empty()),
            distinct(services@),
            forall|k: int| 0 <= k < s ==> lead(#[trigger] nodes@[k]) == Some(services@[k]@),
            views(services@) == first_owners(*schema, root@, fields_of(*query, root@)),
            forall|k: int| 0 <= k < fields@.len() ==> has_name(services@, (#[trigger] owners@[k])@),
            forall|k: int| 0 <= k < fields@.len() ==> owner_of(*schema, root@, fields@[k].name@) == Some(#[trigger] owners@[k]@),
            services@.len() == 1 && s == 1 && (nodes@[0] is Fetch) ==> single_service(*schema, services@[0]@, *query),
        decreases services@.len() - s,
    {
        let svc = &services[s];
        let mut list: Vec<&Field> = Vec::new();
        let mut k: usize = 0;
        while k < fields.len()
            invariant
                0 <= k <= fields@.len(),
                owners@.len() == fields@.len(),
                below(*query, derefs(fields@)),
                below(*query, derefs(list@)),
                one ==> forall|x: int| 0 <= x < fields@.len() ==> (#[trigger] owners@[x])@ == sole,
                one ==> svc@ == sole && derefs(list@) == derefs(fields@).subrange(0, k as int),
                services@.len() == 1 ==> svc@ == services@[0]@ && derefs(list@) == derefs(fields@).subrange(0, k as int),
                among(derefs(list@), derefs(fields@)),
                forall|x: int| 0 <= x < fields@.len() ==> has_name(services@, (#[trigger] owners@[x])@),
            decreases fields@.len() - k,
        {
            if same(&owners[k], svc) {
                let ghost pre = list@;
                list.push(fields[k]);
                assert(one ==> derefs(list@) =~= derefs(fields@).subrange(0, k as int + 1));
                assert(services@.len() == 1 ==> derefs(list@) =~= derefs(fields@).subrange(0, k as int + 1));
                assert forall|x: int| 0 <= x < list@.len() implies
                    decreases_to!(*query => #[trigger] derefs(list@)[x])
                    && one_of(derefs(list@)[x], derefs(fields@)) by {
                    if x < pre.len() {
                        assert(derefs(list@)[x] == derefs(pre)[x]);
                        assert(one_of(derefs(pre)[x], derefs(fields@)));
                    } else {
                        assert(derefs(list@)[x] == derefs(fields@)[k as int]);
                    }
                }
            }
            k = k + 1;
        }
        proof {
            if one {
                assert(derefs(list@) =~= derefs(fields@));
                assert(svc@ == sole);
                assert(served_by(*schema, sole, "Query"@, fields_of(*query, "Query"@), *query));
                assert(served_by(*schema, svc@, root@, derefs(list@), *query));
            }
        }
        let mut used: Vec<String> = Vec::new();
        let mut frags: Vec<NamedFragment> = Vec::new();
        let mut marks: Vec<Vec<String>> = Vec::new();
        let auto = options.auto_fragmentization;
        let (body, _requested, deps) = match plan_scope(
            schema, svc, &root, &list, &empty, &empty, variables, auto, &mut used, &mut frags, &mut marks, Ghost(*query),
        ) {
            Ok(t) => t,
            Err(e) => {
                proof {
                    lemma_error_reached_among(*schema, root@, derefs(list@), derefs(fields@), *query, e);
                    assert forall|x: Seq<char>| #[trigger] single_service(*schema, x, *query)
                        implies fields_of(*query, "Query"@).len() == 0 by {
                        if fields_of(*query, "Query"@).len() > 0 {
                            assert(single_service(*schema, x, *query) && fields@.len() > 0);
                            assert(one);
                        }
                    }
                }
                return Err(e);
            },
        };
        let mut op = String::new();
        if used.len() > 0 {
            op.append("query(");
            write_declarations(&mut op, &used, variables);
            op.append(")");
        }
        op.append("{");
        op.append(body.as_str());
        op.append("}");
        write_fragments(&mut op, &frags);
        proof {
            let d = if used@.len() > 0 { Some(decls_text(used@, variables@)) } else { None };
            assert(op@ =~= root_text(d, body@, frags_text(frags@)));
        }
        let fetch = Fetch {
            service_name: svc.clone(),
            variable_usages: used,
            requires: None,
            operation: op,
            planning_only: marks,
        };
        proof {
            assert(Set::<Seq<char>>::empty().insert(svc@) =~= set![svc@]);
        }
        let ghost ndeps = deps@.len();
        let node = then_run(PlanNode::Fetch(fetch), deps, Ghost(*schema), Ghost(Set::empty()));
        proof {
            if services@.len() == 1 && node is Fetch {
                assert(ndeps == 0);
                assert(derefs(list@) =~= derefs(fields@));
                let fs = fields_of(*query, "Query"@);
                assert forall|x: int| 0 <= x < fs.len() implies
                    owner_of(*schema, "Query"@, (#[trigger] fs[x]).name@) == Some(services@[0]@) by {
                    assert(fs[x] == *fields@[x]);
                    let w = choose|w: int| 0 <= w < services@.len() && #[trigger] services@[w]@ == owners@[x]@;
                    assert(w == 0);
                }
                assert(single_service(*schema, services@[0]@, *query));
            }
        }
        let ghost pre = nodes@;
        nodes.push(node);
        assert forall|k: int| 0 <= k < nodes@.len() implies lead(#[trigger] nodes@[k]) == Some(services@[k]@) by {
            if k < pre.len() {
                assert(nodes@[k] == pre[k]);
            }
        }
        assert forall|k: int| 0 <= k < nodes@.len() implies node_wf(*schema, #[trigger] nodes@[k], false, Set::empty()) by {
            if k < pre.len() {
                assert(nodes@[k] == pre[k]);
            }
        }
        s = s + 1;
    }
    let ghost final_nodes = nodes@;
    assert(final_nodes.len() == services@.len());
    let r = QueryPlan { node: all_of(nodes, Ghost(*schema)) };
    proof {
        assert forall|a: int, b: int| 0 <= a < b < final_nodes.len() implies
            lead(#[trigger] final_nodes[a]) is Some && lead(final_nodes[a]) != lead(#[trigger] final_nodes[b]) by {
            assert(lead(final_nodes[a]) == Some(services@[a]@));
            assert(lead(final_nodes[b]) == Some(services@[b]@));
        }
    }
    proof {
        assert forall|other: Seq<char>| #[trigger] single_service(*schema, other, *query) && fields_of(*query, "Query"@).len() > 0
            implies other == sole by {
            let fs = fields_of(*query, "Query"@);
            assert(owner_of(*schema, "Query"@, fs[0].name@) == Some(other));
            assert(single_service(*schema, sole, *query));
            assert(owner_of(*schema, "Query"@, fs[0].name@) == Some(sole));
        }
    }
    Ok(r)
}

} // verus!
