//! The JSON form of a query plan, as the executor reads it. Names and
//! operation texts hold no quote or backslash, so no escaping is needed.
use vstd::prelude::*;
use crate::plan::{Fetch, PlanNode, QueryPlan};
use crate::schema::Representation;

verus! {

pub open spec fn quoted(s: Seq<char>) -> Seq<char> {
    "\""@ + s + "\""@
}

/// The strings of `v` as JSON strings, separated by commas.
pub open spec fn strs_body(v: Seq<String>) -> Seq<char>
    decreases v.len(),
{
    if v.len() == 0 {
        Seq::empty()
    } else if v.len() == 1 {
        quoted(v[0]@)
    } else {
        strs_body(v.drop_last()) + ","@ + quoted(v.last()@)
    }
}

pub open spec fn field_json(name: Seq<char>) -> Seq<char> {
    "{\"kind\":\"Field\",\"name\":"@ + quoted(name) + "}"@
}

/// Field selections named by `v`, separated by commas.
pub open spec fn fields_body(v: Seq<String>) -> Seq<char>
    decreases v.len(),
{
    if v.len() == 0 {
        Seq::empty()
    } else if v.len() == 1 {
        field_json(v[0]@)
    } else {
        fields_body(v.drop_last()) + ","@ + field_json(v.last()@)
    }
}

pub open spec fn repr_json(r: Representation) -> Seq<char> {
    "{\"kind\":\"InlineFragment\",\"typeCondition\":"@ + quoted(r.type_condition@)
        + ",\"selections\":["@ + fields_body(r.selections@) + "]}"@
}

pub open spec fn fetch_json(f: Fetch) -> Seq<char> {
    "{\"kind\":\"Fetch\",\"serviceName\":"@ + quoted(f.service_name@) + match f.requires {
        Some(r) => ",\"requires\":["@ + repr_json(r) + "]"@,
        None => Seq::empty(),
    } + ",\"variableUsages\":["@ + strs_body(f.variable_usages@) + "],\"operation\":"@
        + quoted(f.operation@) + "}"@
}

/// A plan node as JSON, its variant in `kind`.
pub open spec fn node_json(n: PlanNode) -> Seq<char>
    decreases n, 1int,
{
    match n {
        PlanNode::Fetch(f) => fetch_json(f),
        PlanNode::Flatten { path, node } => "{\"kind\":\"Flatten\",\"path\":["@ + strs_body(path@)
            + "],\"node\":"@ + node_json(*node) + "}"@,
        PlanNode::Sequence(ns) => "{\"kind\":\"Sequence\",\"nodes\":["@ + nodes_body(ns@) + "]}"@,
        PlanNode::Parallel(ns) => "{\"kind\":\"Parallel\",\"nodes\":["@ + nodes_body(ns@) + "]}"@,
    }
}

/// Plan nodes as JSON, separated by commas.
pub open spec fn nodes_body(ns: Seq<PlanNode>) -> Seq<char>
    decreases ns, 0int,
{
    if ns.len() == 0 {
        Seq::empty()
    } else if ns.len() == 1 {
        node_json(ns[0])
    } else {
        nodes_body(ns.subrange(0, ns.len() - 1)) + ","@ + node_json(ns[ns.len() - 1])
    }
}

/// A query plan as JSON; an absent node is `null`.
pub open spec fn plan_json(p: QueryPlan) -> Seq<char> {
    "{\"kind\":\"QueryPlan\",\"node\":"@ + match p.node {
        Some(n) => node_json(n),
        None => "null"@,
    } + "}"@
}

fn write_quoted(out: &mut String, s: &String)
    ensures
        final(out)@ == old(out)@ + quoted(s@),
{
    out.append("\"");
    out.append(s.as_str());
    out.append("\"");
}

fn write_strs(out: &mut String, v: &Vec<String>)
    ensures
        final(out)@ == old(out)@ + strs_body(v@),
{
    let ghost start = out@;
    let mut i: usize = 0;
    while i < v.len()
        invariant
            0 <= i <= v@.len(),
            out@ == start + strs_body(v@.subrange(0, i as int)),
        decreases v@.len() - i,
    {
        let ghost before = out@;
        let ghost next = v@.subrange(0, i as int + 1);
        assert(next.drop_last() =~= v@.subrange(0, i as int));
        if i > 0 {
            out.append(",");
        }
        write_quoted(out, &v[i]);
        proof {
            if i == 0 {
                assert(out@ =~= before + quoted(v@[0]@));
            } else {
                assert(out@ =~= before + ","@ + quoted(v@[i as int]@));
            }
            assert(out@ =~= start + strs_body(next));
        }
        i = i + 1;
    }
    assert(v@.subrange(0, i as int) =~= v@);
}

fn write_fields(out: &mut String, v: &Vec<String>)
    ensures
        final(out)@ == old(out)@ + fields_body(v@),
{
    let ghost start = out@;
    let mut i: usize = 0;
    while i < v.len()
        invariant
            0 <= i <= v@.len(),
            out@ == start + fields_body(v@.subrange(0, i as int)),
        decreases v@.len() - i,
    {
        let ghost before = out@;
        let ghost next = v@.subrange(0, i as int + 1);
        assert(next.drop_last() =~= v@.subrange(0, i as int));
        if i > 0 {
            out.append(",");
        }
        out.append("{\"kind\":\"Field\",\"name\":");
        write_quoted(out, &v[i]);
        out.append("}");
        proof {
            if i == 0 {
                assert(out@ =~= before + field_json(v@[0]@));
            } else {
                assert(out@ =~= before + ","@ + field_json(v@[i as int]@));
            }
            assert(out@ =~= start + fields_body(next));
        }
        i = i + 1;
    }
    assert(v@.subrange(0, i as int) =~= v@);
}

fn write_fetch(out: &mut String, f: &Fetch)
    ensures
        final(out)@ == old(out)@ + fetch_json(*f),
{
    let ghost start = out@;
    out.append("{\"kind\":\"Fetch\",\"serviceName\":");
    write_quoted(out, &f.service_name);
    let ghost mid = out@;
    match &f.requires {
        Some(r) => {
            out.append(",\"requires\":[");
            out.append("{\"kind\":\"InlineFragment\",\"typeCondition\":");
            write_quoted(out, &r.type_condition);
            out.append(",\"selections\":[");
            write_fields(out, &r.selections);
            out.append("]}");
            out.append("]");
            assert(out@ =~= mid + ",\"requires\":["@ + repr_json(*r) + "]"@);
        },
        None => {},
    }
    out.append(",\"variableUsages\":[");
    write_strs(out, &f.variable_usages);
    out.append("],\"operation\":");
    write_quoted(out, &f.operation);
    out.append("}");
    assert(out@ =~= start + fetch_json(*f));
}

fn write_node(out: &mut String, n: &PlanNode)
    ensures
        final(out)@ == old(out)@ + node_json(*n),
    decreases n, 1int,
{
    let ghost start = out@;
    match n {
        PlanNode::Fetch(f) => {
            write_fetch(out, f);
        },
        PlanNode::Flatten { path, node } => {
            out.append("{\"kind\":\"Flatten\",\"path\":[");
            write_strs(out, path);
            out.append("],\"node\":");
            write_node(out, node);
            out.append("}");
            assert(out@ =~= start + node_json(*n));
        },
        PlanNode::Sequence(ns) => {
            out.append("{\"kind\":\"Sequence\",\"nodes\":[");
            write_nodes(out, ns);
            out.append("]}");
            assert(out@ =~= start + node_json(*n));
        },
        PlanNode::Parallel(ns) => {
            out.append("{\"kind\":\"Parallel\",\"nodes\":[");
            write_nodes(out, ns);
            out.append("]}");
            assert(out@ =~= start + node_json(*n));
        },
    }
}

fn write_nodes(out: &mut String, ns: &Vec<PlanNode>)
    ensures
        final(out)@ == old(out)@ + nodes_body(ns@),
    decreases ns, 0int,
{
    let ghost start = out@;
    let mut i: usize = 0;
    while i < ns.len()
        invariant
            0 <= i <= ns@.len(),
            out@ == start + nodes_body(ns@.subrange(0, i as int)),
        decreases ns@.len() - i,
    {
        let ghost before = out@;
        let ghost next = ns@.subrange(0, i as int + 1);
        assert(next.subrange(0, i as int) =~= ns@.subrange(0, i as int));
        if i > 0 {
            out.append(",");
        }
        write_node(out, &ns[i]);
        proof {
            assert(next[i as int] == ns@[i as int]);
            if i == 0 {
                assert(out@ =~= before + node_json(ns@[0]));
            } else {
                assert(out@ =~= before + ","@ + node_json(ns@[i as int]));
            }
            assert(out@ =~= start + nodes_body(next));
        }
        i = i + 1;
    }
    assert(ns@.subrange(0, i as int) =~= ns@);
}

impl QueryPlan {
    /// The plan as compact JSON: `{"kind":"QueryPlan","node":...}`.
    pub fn to_json(&self) -> (r: String)
        ensures
            r@ == plan_json(*self),
    {
        let mut out = String::from_str("{\"kind\":\"QueryPlan\",\"node\":");
        let ghost start = out@;
        match &self.node {
            Some(n) => {
                write_node(&mut out, n);
            },
            None => {
                out.append("null");
            },
        }
        out.append("}");
        assert(out@ =~= plan_json(*self));
        out
    }
}

} // verus!
