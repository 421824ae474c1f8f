//! The federated schema graph: which service owns each field, and by which
//! key fields each service resolves an entity.
use vstd::prelude::*;

verus! {

/// A field of a composed type.
pub struct FieldDef {
    pub name: String,
    /// The owning service where it differs from the type's owner.
    pub owner: Option<String>,
    /// The name of the type that the field returns.
    pub return_type: String,
    /// Whether the field returns a list of that type.
    pub is_list: bool,
}

/// One key field set by which `service` resolves an entity.
pub struct KeyDef {
    pub service: String,
    pub fields: Vec<String>,
}

/// A composed type: its default owner, its fields and its entity keys.
pub struct TypeDef {
    pub name: String,
    /// The owning service of a concrete type; `None` for an abstract type.
    pub owner: Option<String>,
    pub fields: Vec<FieldDef>,
    pub keys: Vec<KeyDef>,
}

/// The composed schema: the services in their declared order and the types.
pub struct FederatedSchemaGraph {
    pub services: Vec<String>,
    pub types: Vec<TypeDef>,
}

/// Why a plan could not be built.
pub enum PlanningError {
    /// A selection names a field that its parent type does not have.
    UnknownField { parent: String, field: String },
    /// A boundary crossing reached a type with no key for the service.
    NotAnEntity { parent: String, service: String },
    /// No service in scope can supply the key fields a fetch needs.
    UnsatisfiableRequirement { parent: String, service: String },
    /// The schema gives a field no owning service.
    AmbiguousOwner { parent: String, field: String },
}

/// The typename plus key fields that identify an entity to a service.
pub struct Representation {
    pub type_condition: String,
    pub selections: Vec<String>,
}

/// Position of the first type named `name`, or -1.
pub open spec fn type_pos(ts: Seq<TypeDef>, name: Seq<char>) -> int
    decreases ts.len(),
{
    if ts.len() == 0 {
        -1
    } else {
        let r = type_pos(ts.drop_last(), name);
        if r >= 0 {
            r
        } else if ts.last().name@ == name {
            ts.len() - 1
        } else {
            -1
        }
    }
}

/// Position of the first field named `name`, or -1.
pub open spec fn field_pos(fs: Seq<FieldDef>, name: Seq<char>) -> int
    decreases fs.len(),
{
    if fs.len() == 0 {
        -1
    } else {
        let r = field_pos(fs.drop_last(), name);
        if r >= 0 {
            r
        } else if fs.last().name@ == name {
            fs.len() - 1
        } else {
            -1
        }
    }
}

/// The type that a name denotes.
pub open spec fn type_def(g: FederatedSchemaGraph, name: Seq<char>) -> Option<TypeDef> {
    let i = type_pos(g.types@, name);
    if i >= 0 { Some(g.types@[i]) } else { None }
}

/// The definition of field `f` on type `t`.
pub open spec fn field_def(g: FederatedSchemaGraph, t: Seq<char>, f: Seq<char>) -> Option<FieldDef> {
    match type_def(g, t) {
        Some(td) => {
            let j = field_pos(td.fields@, f);
            if j >= 0 { Some(td.fields@[j]) } else { None }
        },
        None => None,
    }
}

/// The service that owns field `f` of type `t`: its own owner, else the type's.
pub open spec fn owner_of(g: FederatedSchemaGraph, t: Seq<char>, f: Seq<char>) -> Option<Seq<char>> {
    match field_def(g, t, f) {
        Some(fd) => match fd.owner {
            Some(o) => Some(o@),
            None => match type_def(g, t) {
                Some(td) => match td.owner {
                    Some(o) => Some(o@),
                    None => None,
                },
                None => None,
            },
        },
        None => None,
    }
}

/// Whether `s` is among the views of `v`.
pub open spec fn has_name(v: Seq<String>, s: Seq<char>) -> bool {
    exists|i: int| 0 <= i < v.len() && #[trigger] v[i]@ == s
}

/// Whether `service` can return field `f` of `t`: it owns it, or it is one of
/// the service's key fields for `t`.
pub open spec fn can_provide(g: FederatedSchemaGraph, t: Seq<char>, service: Seq<char>, f: Seq<char>) -> bool {
    owner_of(g, t, f) == Some(service) || match type_def(g, t) {
        Some(td) => exists|k: int| 0 <= k < td.keys@.len()
            && (#[trigger] td.keys@[k]).service@ == service && has_name(td.keys@[k].fields@, f),
        None => false,
    }
}

/// The selections of a representation: `__typename`, then the key fields.
pub open spec fn repr_names(keys: Seq<String>) -> Seq<Seq<char>> {
    seq!["__typename"@] + keys.map_values(|k: String| k@)
}

impl Representation {
    /// The selection names as character sequences.
    pub open spec fn names(self) -> Seq<Seq<char>> {
        self.selections@.map_values(|k: String| k@)
    }

    /// A copy of this representation.
    pub fn copy(&self) -> (r: Representation)
        ensures
            r.type_condition@ == self.type_condition@,
            r.names() == self.names(),
            r.selections@.len() == self.selections@.len(),
            forall|i: int| 0 <= i < self.selections@.len() ==> #[trigger] r.selections@[i]@ == self.selections@[i]@,
    {
        Representation { type_condition: self.type_condition.clone(), selections: copy_names(&self.selections) }
    }
}

/// Whether two strings have the same characters.
pub(crate) fn same(a: &String, b: &String) -> (r: bool)
    ensures
        r == (a@ == b@),
{
    a.eq(b)
}

/// Whether `v` holds a string equal to `s`.
pub(crate) fn contains_name(v: &Vec<String>, s: &String) -> (r: bool)
    ensures
        r == has_name(v@, s@),
{
    let mut i: usize = 0;
    while i < v.len()
        invariant
            0 <= i <= v.len(),
            forall|j: int| 0 <= j < i ==> v@[j]@ != s@,
        decreases v.len() - i,
    {
        if same(&v[i], s) {
            return true;
        }
        i = i + 1;
    }
    false
}

/// A copy of a list of strings.
pub(crate) fn copy_names(v: &Vec<String>) -> (r: Vec<String>)
    ensures
        r@.map_values(|k: String| k@) == v@.map_values(|k: String| k@),
        r@.len() == v@.len(),
        forall|j: int| 0 <= j < v@.len() ==> #[trigger] r@[j]@ == v@[j]@,
{
    let mut r: Vec<String> = Vec::new();
    let mut i: usize = 0;
    while i < v.len()
        invariant
            0 <= i <= v.len(),
            r@.len() == i,
            forall|j: int| 0 <= j < i ==> r@[j]@ == v@[j]@,
        decreases v.len() - i,
    {
        r.push(v[i].clone());
        i = i + 1;
    }
    assert(r@.map_values(|k: String| k@) =~= v@.map_values(|k: String| k@));
    r
}

impl FederatedSchemaGraph {
    /// The position of the type named `name`.
    pub fn find_type(&self, name: &String) -> (r: Option<usize>)
        ensures
            match r {
                Some(i) => type_pos(self.types@, name@) == i as int && i < self.types@.len()
                    && self.types@[i as int].name@ == name@,
                None => type_pos(self.types@, name@) == -1,
            },
    {
        let mut i: usize = 0;
        while i < self.types.len()
            invariant
                0 <= i <= self.types@.len(),
                type_pos(self.types@.subrange(0, i as int), name@) == -1,
            decreases self.types@.len() - i,
        {
            let ghost pre = self.types@.subrange(0, i as int);
            let ghost next = self.types@.subrange(0, i as int + 1);
            assert(next.drop_last() =~= pre);
            if same(&self.types[i].name, name) {
                proof { lemma_type_pos_prefix(self.types@, name, i as int); }
                return Some(i);
            }
            i = i + 1;
        }
        assert(self.types@.subrange(0, i as int) =~= self.types@);
        None
    }

    /// The owning service of field `field` of type `ty`.
    pub fn resolve_field_owner(&self, ty: &String, field: &String) -> (r: Result<String, PlanningError>)
        ensures
            match r {
                Ok(s) => owner_of(*self, ty@, field@) == Some(s@),
                Err(PlanningError::UnknownField { parent: t, field: f }) =>
                    field_def(*self, ty@, field@).is_none() && t@ == ty@ && f@ == field@,
                Err(PlanningError::AmbiguousOwner { parent: t, field: f }) =>
                    field_def(*self, ty@, field@).is_some() && owner_of(*self, ty@, field@).is_none()
                        && t@ == ty@ && f@ == field@,
                Err(_) => false,
            },
    {
        match self.field_at(ty, field) {
            None => Err(PlanningError::UnknownField { parent: ty.clone(), field: field.clone() }),
            Some((ti, fi)) => {
                let td = &self.types[ti];
                match &td.fields[fi].owner {
                    Some(o) => Ok(o.clone()),
                    None => match &td.owner {
                        Some(o) => Ok(o.clone()),
                        None => Err(PlanningError::AmbiguousOwner { parent: ty.clone(), field: field.clone() }),
                    },
                }
            },
        }
    }

    /// The positions of type `ty` and of its field `field`.
    pub fn field_at(&self, ty: &String, field: &String) -> (r: Option<(usize, usize)>)
        ensures
            match r {
                Some((ti, fi)) => ti < self.types@.len() && fi < self.types@[ti as int].fields@.len()
                    && type_def(*self, ty@) == Some(self.types@[ti as int])
                    && field_def(*self, ty@, field@) == Some(self.types@[ti as int].fields@[fi as int]),
                None => field_def(*self, ty@, field@).is_none(),
            },
    {
        match self.find_type(ty) {
            None => None,
            Some(ti) => {
                let fs = &self.types[ti].fields;
                let mut i: usize = 0;
                while i < fs.len()
                    invariant
                        0 <= i <= fs@.len(),
                        ti < self.types@.len(),
                        fs@ == self.types@[ti as int].fields@,
                        type_pos(self.types@, ty@) == ti as int,
                        field_pos(fs@.subrange(0, i as int), field@) == -1,
                    decreases fs@.len() - i,
                {
                    let ghost pre = fs@.subrange(0, i as int);
                    let ghost next = fs@.subrange(0, i as int + 1);
                    assert(next.drop_last() =~= pre);
                    if same(&fs[i].name, field) {
                        proof { lemma_field_pos_prefix(fs@, field@, i as int); }
                        return Some((ti, i));
                    }
                    i = i + 1;
                }
                assert(fs@.subrange(0, i as int) =~= fs@);
                None
            },
        }
    }
}

/// Whether key set `k` of `td` belongs to `service` and every field of it
/// can be returned by `provider`.
pub open spec fn key_usable(g: FederatedSchemaGraph, td: TypeDef, k: int, service: Seq<char>, provider: Seq<char>) -> bool {
    &&& td.keys@[k].service@ == service
    &&& forall|j: int| 0 <= j < td.keys@[k].fields@.len()
        ==> can_provide(g, td.name@, provider, #[trigger] td.keys@[k].fields@[j]@)
}

/// Whether one of the first `k` key sets of `td` belongs to `service`.
pub open spec fn declares_upto(td: TypeDef, k: int, service: Seq<char>) -> bool {
    exists|m: int| 0 <= m < k && (#[trigger] td.keys@[m]).service@ == service
}

/// What the schema shows of a planning error: an unknown field is absent from
/// its type, an unowned field has no owner, a type that is no entity for a
/// service has no key for it, and an unsatisfiable requirement concerns a key
/// that the type does declare.
pub open spec fn error_justified(g: FederatedSchemaGraph, e: PlanningError) -> bool {
    match e {
        PlanningError::UnknownField { parent, field } => field_def(g, parent@, field@).is_none(),
        PlanningError::AmbiguousOwner { parent, field } =>
            field_def(g, parent@, field@).is_some() && owner_of(g, parent@, field@).is_none(),
        PlanningError::NotAnEntity { parent, service } => match type_def(g, parent@) {
            Some(td) => !has_key_for(td, service@),
            None => true,
        },
        PlanningError::UnsatisfiableRequirement { parent, service } => match type_def(g, parent@) {
            Some(td) => has_key_for(td, service@),
            None => false,
        },
    }
}

/// Whether `td` declares any key set for `service`.
pub open spec fn has_key_for(td: TypeDef, service: Seq<char>) -> bool {
    exists|k: int| 0 <= k < td.keys@.len() && (#[trigger] td.keys@[k]).service@ == service
}

impl FederatedSchemaGraph {
    /// Whether `service` can return field `field` of type `ty`.
    pub fn provides(&self, ty: &String, service: &String, field: &String) -> (r: bool)
        ensures
            r == can_provide(*self, ty@, service@, field@),
    {
        match self.resolve_field_owner(ty, field) {
            Ok(o) => {
                if same(&o, service) {
                    return true;
                }
            },
            Err(_) => {},
        }
        match self.find_type(ty) {
            None => false,
            Some(ti) => {
                let keys = &self.types[ti].keys;
                let mut k: usize = 0;
                while k < keys.len()
                    invariant
                        0 <= k <= keys@.len(),
                        ti < self.types@.len(),
                        keys@ == self.types@[ti as int].keys@,
                        type_def(*self, ty@) == Some(self.types@[ti as int]),
                        owner_of(*self, ty@, field@) != Some(service@),
                        forall|m: int| 0 <= m < k ==> !((#[trigger] keys@[m]).service@ == service@
                            && has_name(keys@[m].fields@, field@)),
                    decreases keys@.len() - k,
                {
                    if same(&keys[k].service, service) && contains_name(&keys[k].fields, field) {
                        return true;
                    }
                    k = k + 1;
                }
                false
            },
        }
    }

    /// The first key set of `ty` that belongs to `service` and whose fields
    /// `provider` can all return.
    pub fn usable_key(&self, ty: &String, service: &String, provider: &String) -> (r: Option<(usize, usize)>)
        ensures
            match r {
                Some((ti, k)) => ti < self.types@.len() && type_def(*self, ty@) == Some(self.types@[ti as int])
                    && self.types@[ti as int].name@ == ty@
                    && k < self.types@[ti as int].keys@.len()
                    && key_usable(*self, self.types@[ti as int], k as int, service@, provider@)
                    && forall|m: int| 0 <= m < k ==> !key_usable(*self, self.types@[ti as int], m, service@, provider@),
                None => match type_def(*self, ty@) {
                    Some(td) => forall|m: int| 0 <= m < td.keys@.len() ==> !key_usable(*self, td, m, service@, provider@),
                    None => true,
                },
            },
    {
        match self.find_type(ty) {
            None => None,
            Some(ti) => {
                let td = &self.types[ti];
                let mut k: usize = 0;
                while k < td.keys.len()
                    invariant
                        0 <= k <= td.keys@.len(),
                        ti < self.types@.len(),
                        *td == self.types@[ti as int],
                        td.name@ == ty@,
                        type_def(*self, ty@) == Some(self.types@[ti as int]),
                        forall|m: int| 0 <= m < k ==> !key_usable(*self, *td, m, service@, provider@),
                    decreases td.keys@.len() - k,
                {
                    if same(&td.keys[k].service, service) {
                        let fs = &td.keys[k].fields;
                        let mut j: usize = 0;
                        let mut all = true;
                        while j < fs.len()
                            invariant
                                0 <= j <= fs@.len(),
                                k < td.keys@.len(),
                                fs@ == td.keys@[k as int].fields@,
                                td.name@ == ty@,
                                all == forall|n: int| 0 <= n < j ==> can_provide(*self, td.name@, provider@, #[trigger] fs@[n]@),
                            decreases fs@.len() - j,
                        {
                            if !self.provides(ty, provider, &fs[j]) {
                                all = false;
                            }
                            j = j + 1;
                        }
                        if all {
                            return Some((ti, k));
                        }
                    }
                    k = k + 1;
                }
                None
            },
        }
    }

    /// The representation that `service` needs for entity type `ty`: its first
    /// key set declared for that service.
    pub fn key_fields_for(&self, ty: &String, service: &String) -> (r: Result<Representation, PlanningError>)
        ensures
            match r {
                Ok(rep) => rep.type_condition@ == ty@ && exists|td: TypeDef, k: int|
                    type_def(*self, ty@) == Some(td) && 0 <= k < td.keys@.len()
                    && td.keys@[k].service@ == service@
                    && (forall|m: int| 0 <= m < k ==> (#[trigger] td.keys@[m]).service@ != service@)
                    && rep.names() == repr_names(td.keys@[k].fields@),
                Err(PlanningError::NotAnEntity { parent: t, service: s }) => t@ == ty@ && s@ == service@
                    && match type_def(*self, ty@) {
                        Some(td) => !has_key_for(td, service@),
                        None => true,
                    },
                Err(_) => false,
            },
    {
        match self.find_type(ty) {
            None => Err(PlanningError::NotAnEntity { parent: ty.clone(), service: service.clone() }),
            Some(ti) => {
                let td = &self.types[ti];
                let mut k: usize = 0;
                while k < td.keys.len()
                    invariant
                        0 <= k <= td.keys@.len(),
                        ti < self.types@.len(),
                        *td == self.types@[ti as int],
                        td.name@ == ty@,
                        type_def(*self, ty@) == Some(self.types@[ti as int]),
                        forall|m: int| 0 <= m < k ==> (#[trigger] td.keys@[m]).service@ != service@,
                    decreases td.keys@.len() - k,
                {
                    if same(&td.keys[k].service, service) {
                        let rep = representation(ty, &td.keys[k].fields);
                        assert(type_def(*self, ty@) == Some(*td));
                        return Ok(rep);
                    }
                    k = k + 1;
                }
                Err(PlanningError::NotAnEntity { parent: ty.clone(), service: service.clone() })
            },
        }
    }

    /// The services that declare a key for `ty`, each once, in key order.
    pub fn possible_owners(&self, ty: &String) -> (r: Vec<String>)
        ensures
            forall|s: Seq<char>| has_name(r@, s) <==> match type_def(*self, ty@) {
                Some(td) => has_key_for(td, s),
                None => false,
            },
            forall|i: int, j: int| 0 <= i < j < r@.len() ==> r@[i]@ != r@[j]@,
    {
        let mut r: Vec<String> = Vec::new();
        match self.find_type(ty) {
            None => {},
            Some(ti) => {
                let td = &self.types[ti];
                let mut k: usize = 0;
                while k < td.keys.len()
                    invariant
                        0 <= k <= td.keys@.len(),
                        ti < self.types@.len(),
                        *td == self.types@[ti as int],
                        type_def(*self, ty@) == Some(*td),
                        forall|s: Seq<char>| has_name(r@, s) <==> #[trigger] declares_upto(*td, k as int, s),
                        forall|i: int, j: int| 0 <= i < j < r@.len() ==> r@[i]@ != r@[j]@,
                    decreases td.keys@.len() - k,
                {
                    let s = &td.keys[k].service;
                    if !contains_name(&r, s) {
                        let ghost pre = r@;
                        r.push(s.clone());
                        assert forall|x: Seq<char>| has_name(r@, x) <==> (has_name(pre, x) || x == s@) by {
                            if has_name(r@, x) {
                                let i = choose|i: int| 0 <= i < r@.len() && #[trigger] r@[i]@ == x;
                                if i < pre.len() { assert(pre[i]@ == x); }
                            }
                            if has_name(pre, x) {
                                let i = choose|i: int| 0 <= i < pre.len() && #[trigger] pre[i]@ == x;
                                assert(r@[i]@ == x);
                            }
                            if x == s@ { assert(r@[pre.len() as int]@ == x); }
                        }
                    }
                    assert forall|x: Seq<char>| #[trigger] declares_upto(*td, k + 1, x)
                        <==> (declares_upto(*td, k as int, x) || x == s@) by {
                        if x == s@ { assert(td.keys@[k as int].service@ == x); }
                    }
                    k = k + 1;
                }
                assert forall|x: Seq<char>| has_name(r@, x) <==> has_key_for(*td, x) by {
                    assert(declares_upto(*td, td.keys@.len() as int, x) == has_key_for(*td, x));
                }
            },
        }
        r
    }
}

/// The representation of `ty` with the key fields `keys`.
pub fn representation(ty: &String, keys: &Vec<String>) -> (r: Representation)
    ensures
        r.type_condition@ == ty@,
        r.names() == repr_names(keys@),
        r.selections@.len() == keys@.len() + 1 && r.selections@[0]@ == "__typename"@,
        forall|i: int| 0 <= i < keys@.len() ==> #[trigger] r.selections@[i + 1]@ == keys@[i]@,
{
    let mut sel: Vec<String> = Vec::new();
    sel.push(String::from_str("__typename"));
    let mut i: usize = 0;
    while i < keys.len()
        invariant
            0 <= i <= keys@.len(),
            sel@.len() == i + 1,
            sel@[0]@ == "__typename"@,
            forall|j: int| 0 <= j < i ==> sel@[j + 1]@ == keys@[j]@,
        decreases keys@.len() - i,
    {
        sel.push(keys[i].clone());
        i = i + 1;
    }
    let r = Representation { type_condition: ty.clone(), selections: sel };
    assert(r.names() =~= repr_names(keys@));
    r
}

proof fn lemma_type_pos_prefix(ts: Seq<TypeDef>, name: &String, i: int)
    requires
        0 <= i < ts.len(),
        type_pos(ts.subrange(0, i), name@) == -1,
        ts[i].name@ == name@,
    ensures
        type_pos(ts, name@) == i,
    decreases ts.len(),
{
    if ts.len() > i + 1 {
        assert(ts.drop_last().subrange(0, i) =~= ts.subrange(0, i));
        lemma_type_pos_prefix(ts.drop_last(), name, i);
    } else {
        assert(ts.drop_last() =~= ts.subrange(0, i));
    }
}

proof fn lemma_field_pos_prefix(fs: Seq<FieldDef>, name: Seq<char>, i: int)
    requires
        0 <= i < fs.len(),
        field_pos(fs.subrange(0, i), name) == -1,
        fs[i].name@ == name,
    ensures
        field_pos(fs, name) == i,
    decreases fs.len(),
{
    if fs.len() > i + 1 {
        assert(fs.drop_last().subrange(0, i) =~= fs.subrange(0, i));
        lemma_field_pos_prefix(fs.drop_last(), name, i);
    } else {
        assert(fs.drop_last() =~= fs.subrange(0, i));
    }
}

} // verus!
