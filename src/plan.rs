//! The plan tree that the planner returns.
use vstd::prelude::*;
use crate::schema::{FederatedSchemaGraph, Representation, can_provide};

verus! {

/// One operation sent to one backend service.
pub struct Fetch {
    pub service_name: String,
    /// The client variables that the operation references, each once.
    pub variable_usages: Vec<String>,
    /// The entity representation that the fetch resolves from, if any.
    pub requires: Option<Representation>,
    pub operation: String,
    /// Response paths, relative to the fetch's result, of the fields that the
    /// operation requests only so that later fetches can identify entities;
    /// they are dropped from the merged response.
    pub planning_only: Vec<Vec<String>>,
}

/// A node of a query plan.
pub enum PlanNode {
    Fetch(Fetch),
    /// Merges the nested node's result at `path`; `@` stands for every element of a list.
    Flatten { path: Vec<String>, node: Box<PlanNode> },
    /// Runs in the listed order; a later node may use entities of an earlier one.
    Sequence(Vec<PlanNode>),
    /// Independent nodes, runnable in any order.
    Parallel(Vec<PlanNode>),
}

/// The planner's output: no node when the query asks for nothing.
pub struct QueryPlan {
    pub node: Option<PlanNode>,
}

/// Settings of one planning call.
pub struct QueryPlanningOptions {
    /// Renders each sub-selection of a fetch's operation as a named fragment,
    /// one per distinct shape on a type; it never changes the plan's shape.
    pub auto_fragmentization: bool,
}

/// Whether no two strings of `v` are equal.
pub open spec fn distinct(v: Seq<String>) -> bool {
    forall|i: int, j: int| 0 <= i < j < v.len() ==> v[i]@ != v[j]@
}

/// The operation of a fetch that resolves entities of type `ty`: the
/// representations variable and `decls`, then the entity entry point asked
/// for `body` on `ty`, then fragment definitions `frags`.
pub open spec fn entities_text(ty: Seq<char>, decls: Seq<char>, body: Seq<char>, frags: Seq<char>) -> Seq<char> {
    "query($representations:[_Any!]!"@ + decls + "){_entities(representations:$representations){...on "@
        + ty + "{"@ + body + "}}}"@ + frags
}

/// The operation of a root fetch: `query(decls)` where it declares
/// variables, the selection `{body}`, then fragment definitions `frags`.
pub open spec fn root_text(decls: Option<Seq<char>>, body: Seq<char>, frags: Seq<char>) -> Seq<char> {
    let head = match decls {
        Some(d) => "query("@ + d + ")"@,
        None => Seq::empty(),
    };
    head + "{"@ + body + "}"@ + frags
}

/// Whether a representation starts with `__typename`.
pub open spec fn starts_with_typename(r: Representation) -> bool {
    r.selections@.len() >= 1 && r.selections@[0]@ == "__typename"@
}

/// Whether `service` can return every key field of `r` (all but the
/// leading `__typename`).
pub open spec fn supplies(g: FederatedSchemaGraph, r: Representation, service: Seq<char>) -> bool {
    forall|i: int| 1 <= i < r.selections@.len()
        ==> can_provide(g, r.type_condition@, service, #[trigger] r.selections@[i]@)
}

/// The service of the fetch that a node runs first, if it runs one first.
pub open spec fn lead(n: PlanNode) -> Option<Seq<char>>
    decreases n,
{
    match n {
        PlanNode::Fetch(f) => Some(f.service_name@),
        PlanNode::Flatten { path, node } => lead(*node),
        PlanNode::Sequence(ns) => if ns@.len() > 0 { lead(ns@[0]) } else { None },
        PlanNode::Parallel(ns) => None,
    }
}

/// The services that the first `i` nodes of a sequence start with.
pub open spec fn leads(ns: Seq<PlanNode>, i: int) -> Set<Seq<char>> {
    Set::new(|s: Seq<char>| exists|k: int| 0 <= k < i && #[trigger] lead(ns[k]) == Some(s))
}

/// The structural rules of a plan node. `flattened`: the node is the direct
/// child of a `Flatten`; `before`: services whose fetches, in enclosing
/// sequences, have run before it. A fetch lists each variable once. A fetch
/// that requires entities is flattened, its representation starts with
/// `__typename`, an earlier fetch went to a service that returns every key
/// field of that representation, and its operation asks the entity entry
/// point for the representation's type. Any other fetch is a root fetch with
/// an operation in root form.
pub open spec fn node_wf(g: FederatedSchemaGraph, n: PlanNode, flattened: bool, before: Set<Seq<char>>) -> bool
    decreases n,
{
    match n {
        PlanNode::Fetch(f) => distinct(f.variable_usages@) && match f.requires {
            Some(r) => flattened && starts_with_typename(r)
                && (exists|s: Seq<char>| #[trigger] before.contains(s) && supplies(g, r, s))
                && exists|d: Seq<char>, b: Seq<char>, t: Seq<char>|
                    f.operation@ == #[trigger] entities_text(r.type_condition@, d, b, t),
            None => exists|d: Option<Seq<char>>, b: Seq<char>, t: Seq<char>|
                f.operation@ == #[trigger] root_text(d, b, t),
        },
        PlanNode::Flatten { path, node } => node_wf(g, *node, true, before),
        PlanNode::Sequence(ns) => ns@.len() >= 1 && forall|i: int|
            0 <= i < ns@.len() ==> node_wf(g, #[trigger] ns@[i], false, before.union(leads(ns@, i))),
        PlanNode::Parallel(ns) => ns@.len() >= 2 && forall|i: int|
            0 <= i < ns@.len() ==> node_wf(g, #[trigger] ns@[i], false, before),
    }
}

/// Whether every node of a list is well formed after the fetches of `before`.
pub open spec fn all_wf(g: FederatedSchemaGraph, ns: Seq<PlanNode>, before: Set<Seq<char>>) -> bool {
    forall|i: int| 0 <= i < ns.len() ==> node_wf(g, #[trigger] ns[i], false, before)
}

/// A node that is well formed after some fetches stays so after more.
pub proof fn lemma_wf_more_before(g: FederatedSchemaGraph, n: PlanNode, flattened: bool, a: Set<Seq<char>>, b: Set<Seq<char>>)
    requires
        node_wf(g, n, flattened, a),
        a.subset_of(b),
    ensures
        node_wf(g, n, flattened, b),
    decreases n,
{
    match n {
        PlanNode::Fetch(f) => {
            match f.requires {
                Some(r) => {
                    let s = choose|s: Seq<char>| #[trigger] a.contains(s) && supplies(g, r, s);
                    assert(b.contains(s));
                },
                None => {},
            }
        },
        PlanNode::Flatten { path, node } => {
            lemma_wf_more_before(g, *node, true, a, b);
        },
        PlanNode::Sequence(ns) => {
            assert forall|i: int| 0 <= i < ns@.len() implies node_wf(g, #[trigger] ns@[i], false, b.union(leads(ns@, i))) by {
                assert(decreases_to!(ns => ns@));
                lemma_wf_more_before(g, ns@[i], false, a.union(leads(ns@, i)), b.union(leads(ns@, i)));
            }
        },
        PlanNode::Parallel(ns) => {
            assert forall|i: int| 0 <= i < ns@.len() implies node_wf(g, #[trigger] ns@[i], false, b) by {
                assert(decreases_to!(ns => ns@));
                lemma_wf_more_before(g, ns@[i], false, a, b);
            }
        },
    }
}

/// Every node of a list stays well formed after more fetches.
pub proof fn lemma_all_wf_more_before(g: FederatedSchemaGraph, ns: Seq<PlanNode>, a: Set<Seq<char>>, b: Set<Seq<char>>)
    requires
        all_wf(g, ns, a),
        a.subset_of(b),
    ensures
        all_wf(g, ns, b),
{
    assert forall|i: int| 0 <= i < ns.len() implies node_wf(g, #[trigger] ns[i], false, b) by {
        lemma_wf_more_before(g, ns[i], false, a, b);
    }
}

/// `first`, then `rest` in a `Sequence`; a bare `first` when `rest` is empty.
/// One node of `rest` joins the sequence directly (its own items where it is
/// a `Sequence`), several join it as one `Parallel`.
pub(crate) fn then_run(
    first: PlanNode,
    rest: Vec<PlanNode>,
    Ghost(g): Ghost<FederatedSchemaGraph>,
    Ghost(before): Ghost<Set<Seq<char>>>,
) -> (r: PlanNode)
    requires
        node_wf(g, first, false, before),
        lead(first) is Some,
        all_wf(g, rest@, before.insert(lead(first)->0)),
    ensures
        node_wf(g, r, false, before),
        lead(r) == lead(first),
        rest@.len() == 0 ==> r == first,
        rest@.len() > 0 ==> r is Sequence,
{
    if rest.len() == 0 {
        return first;
    }
    let ghost x = lead(first)->0;
    let ghost f0 = first;
    let mut rest = rest;
    let mut nodes: Vec<PlanNode> = Vec::new();
    nodes.push(first);
    if rest.len() == 1 {
        let only = rest.pop().unwrap();
        match only {
            PlanNode::Sequence(inner) => {
                let mut inner = inner;
                let ghost old_inner = inner@;
                nodes.append(&mut inner);
                assert forall|i: int| 0 <= i < nodes@.len() implies
                    node_wf(g, #[trigger] nodes@[i], false, before.union(leads(nodes@, i))) by {
                    if i > 0 {
                        assert(nodes@[i] == old_inner[i - 1]);
                        assert(node_wf(g, old_inner[i - 1], false, before.insert(x).union(leads(old_inner, i - 1))));
                        assert forall|s: Seq<char>| leads(nodes@, i).contains(s) <==> s == x || leads(old_inner, i - 1).contains(s) by {
                            if s == x {
                                assert(lead(nodes@[0]) == Some(s));
                            }
                            if leads(old_inner, i - 1).contains(s) {
                                let k = choose|k: int| 0 <= k < i - 1 && #[trigger] lead(old_inner[k]) == Some(s);
                                assert(nodes@[k + 1] == old_inner[k]);
                            }
                            if leads(nodes@, i).contains(s) {
                                let k = choose|k: int| 0 <= k < i && #[trigger] lead(nodes@[k]) == Some(s);
                                if k > 0 {
                                    assert(nodes@[k] == old_inner[k - 1]);
                                }
                            }
                        }
                        assert(before.union(leads(nodes@, i)) =~= before.insert(x).union(leads(old_inner, i - 1)));
                    } else {
                        assert(before.union(leads(nodes@, 0)) =~= before);
                    }
                }
            },
            other => {
                nodes.push(other);
                assert forall|i: int| 0 <= i < nodes@.len() implies
                    node_wf(g, #[trigger] nodes@[i], false, before.union(leads(nodes@, i))) by {
                    if i > 0 {
                        assert(nodes@[i] == other);
                        assert(lead(nodes@[0]) == Some(x));
                        assert(before.union(leads(nodes@, i)) =~= before.insert(x));
                    } else {
                        assert(before.union(leads(nodes@, 0)) =~= before);
                    }
                }
            },
        }
    } else {
        let p = PlanNode::Parallel(rest);
        assert(node_wf(g, p, false, before.insert(x)));
        nodes.push(p);
        assert forall|i: int| 0 <= i < nodes@.len() implies
            node_wf(g, #[trigger] nodes@[i], false, before.union(leads(nodes@, i))) by {
            if i > 0 {
                assert(nodes@[i] == p);
                assert(lead(nodes@[0]) == Some(x));
                assert(before.union(leads(nodes@, i)) =~= before.insert(x));
            } else {
                assert(before.union(leads(nodes@, 0)) =~= before);
            }
        }
    }
    assert(nodes@[0] == f0);
    PlanNode::Sequence(nodes)
}

/// One node that runs all of `ns`: `None` for none, the node itself for
/// one, else a `Parallel`.
pub(crate) fn all_of(ns: Vec<PlanNode>, Ghost(g): Ghost<FederatedSchemaGraph>) -> (r: Option<PlanNode>)
    requires
        all_wf(g, ns@, Set::empty()),
    ensures
        ns@.len() == 0 <==> r is None,
        ns@.len() == 1 ==> r == Some(ns@[0]),
        ns@.len() >= 2 ==> (r matches Some(PlanNode::Parallel(v)) && v@ == ns@),
        match r {
            Some(n) => node_wf(g, n, false, Set::empty()),
            None => true,
        },
{
    if ns.len() == 0 {
        None
    } else if ns.len() == 1 {
        let mut ns = ns;
        ns.pop()
    } else {
        Some(PlanNode::Parallel(ns))
    }
}

} // verus!
