use vstd::prelude::*;

use crate::supertype_pointers::concat;

verus! {

/// A client field declared in an iso literal: the type it is on, its name, its description,
/// the names of its variables, and the export that defines it.
#[derive(Debug, PartialEq, Eq)]
pub struct ClientScalarDeclarationModel {
    pub parent_type: String,
    pub client_field_name: String,
    pub description: Option<String>,
    pub variable_names: Vec<String>,
    pub const_export_name: String,
    pub definition_path: String,
}

/// A client pointer declared in an iso literal: the type it is on, its name, its description,
/// the names of its variables, the type it points to, and the export that defines it.
#[derive(Debug, PartialEq, Eq)]
pub struct ClientObjectDeclarationModel {
    pub parent_type: String,
    pub client_pointer_name: String,
    pub description: Option<String>,
    pub variable_names: Vec<String>,
    pub target_type: String,
    pub const_export_name: String,
    pub definition_path: String,
}

/// A client selectable declaration: a client field or a client pointer.
#[derive(Debug, PartialEq, Eq)]
pub enum ClientDeclarationModel {
    Scalar(ClientScalarDeclarationModel),
    Object(ClientObjectDeclarationModel),
}

/// An entity of the flattened data model: its name and description, whether the client
/// defines it, and whether it is selected as a scalar.
#[derive(Debug, PartialEq, Eq)]
pub struct FlattenedEntityModel {
    pub name: String,
    pub description: Option<String>,
    pub client_defined: bool,
    pub scalar_selected: bool,
}

/// A selectable of the flattened data model: its name, the entity it is on, its description,
/// the names of its arguments, its target entity (and whether that is a scalar), the export
/// that defines it when the client writes it, and whether it is an inline fragment.
#[derive(Debug, PartialEq, Eq)]
pub struct FlattenedSelectableModel {
    pub name: String,
    pub parent_entity_name: String,
    pub description: Option<String>,
    pub argument_names: Vec<String>,
    pub target_entity: String,
    pub target_is_scalar: bool,
    pub const_export_name: String,
    pub file_path: String,
    pub client_defined: bool,
    pub is_inline_fragment: bool,
}

pub struct EntityView {
    pub name: Seq<char>,
    pub description: Option<Seq<char>>,
    pub client_defined: bool,
    pub scalar_selected: bool,
}

pub struct FlattenedSelectableView {
    pub name: Seq<char>,
    pub parent_entity_name: Seq<char>,
    pub description: Option<Seq<char>>,
    pub argument_names: Seq<Seq<char>>,
    pub target_entity: Seq<char>,
    pub target_is_scalar: bool,
    pub const_export_name: Seq<char>,
    pub file_path: Seq<char>,
    pub client_defined: bool,
    pub is_inline_fragment: bool,
}

pub open spec fn opt_view(o: Option<String>) -> Option<Seq<char>> {
    match o {
        Some(s) => Some(s@),
        None => None,
    }
}

pub open spec fn names_view(v: Seq<String>) -> Seq<Seq<char>> {
    Seq::new(v.len(), |i: int| v[i]@)
}

pub open spec fn entity_view(e: FlattenedEntityModel) -> EntityView {
    EntityView {
        name: e.name@,
        description: opt_view(e.description),
        client_defined: e.client_defined,
        scalar_selected: e.scalar_selected,
    }
}

pub open spec fn entities_view(v: Seq<FlattenedEntityModel>) -> Seq<EntityView> {
    Seq::new(v.len(), |i: int| entity_view(v[i]))
}

pub open spec fn flattened_selectable_view(s: FlattenedSelectableModel) -> FlattenedSelectableView {
    FlattenedSelectableView {
        name: s.name@,
        parent_entity_name: s.parent_entity_name@,
        description: opt_view(s.description),
        argument_names: names_view(s.argument_names@),
        target_entity: s.target_entity@,
        target_is_scalar: s.target_is_scalar,
        const_export_name: s.const_export_name@,
        file_path: s.file_path@,
        client_defined: s.client_defined,
        is_inline_fragment: s.is_inline_fragment,
    }
}

pub open spec fn flattened_selectables_view(v: Seq<FlattenedSelectableModel>) -> Seq<FlattenedSelectableView> {
    Seq::new(v.len(), |i: int| flattened_selectable_view(v[i]))
}

/// The name of the anonymous entity a client field targets: `{Parent}__{field}__targetEntity`.
pub open spec fn target_entity_name(parent: Seq<char>, field: Seq<char>) -> Seq<char> {
    parent + "__"@ + field + "__targetEntity"@
}

/// The description of that entity: ``The anonymous entity for the `{Parent}.{field}` client field``.
pub open spec fn anonymous_entity_description(parent: Seq<char>, field: Seq<char>) -> Seq<char> {
    "The anonymous entity for the `"@ + parent + "."@ + field + "` client field"@
}

/// The entity a declaration defines, if any: a client field defines its anonymous target
/// entity, a client pointer none.
pub open spec fn declared_entity(d: ClientDeclarationModel) -> Option<EntityView> {
    match d {
        ClientDeclarationModel::Scalar(s) => Some(
            EntityView {
                name: target_entity_name(s.parent_type@, s.client_field_name@),
                description: Some(anonymous_entity_description(s.parent_type@, s.client_field_name@)),
                client_defined: true,
                scalar_selected: true,
            },
        ),
        ClientDeclarationModel::Object(_) => None,
    }
}

/// The selectable a declaration defines: a client field, on its parent type, that targets its
/// anonymous entity; or a client pointer, on its parent type, that targets its declared type.
pub open spec fn declared_selectable(d: ClientDeclarationModel) -> FlattenedSelectableView {
    match d {
        ClientDeclarationModel::Scalar(s) => FlattenedSelectableView {
            name: s.client_field_name@,
            parent_entity_name: s.parent_type@,
            description: opt_view(s.description),
            argument_names: names_view(s.variable_names@),
            target_entity: target_entity_name(s.parent_type@, s.client_field_name@),
            target_is_scalar: true,
            const_export_name: s.const_export_name@,
            file_path: s.definition_path@,
            client_defined: true,
            is_inline_fragment: false,
        },
        ClientDeclarationModel::Object(o) => FlattenedSelectableView {
            name: o.client_pointer_name@,
            parent_entity_name: o.parent_type@,
            description: opt_view(o.description),
            argument_names: names_view(o.variable_names@),
            target_entity: o.target_type@,
            target_is_scalar: false,
            const_export_name: o.const_export_name@,
            file_path: o.definition_path@,
            client_defined: true,
            is_inline_fragment: false,
        },
    }
}

/// The entities the declarations define, in their order.
pub open spec fn declared_entities(d: Seq<ClientDeclarationModel>) -> Seq<EntityView>
    decreases d.len(),
{
    if d.len() == 0 {
        seq![]
    } else {
        let rest = declared_entities(d.drop_last());
        match declared_entity(d.last()) {
            Some(e) => rest.push(e),
            None => rest,
        }
    }
}

/// The selectables the declarations define, one for each, in their order.
pub open spec fn declared_selectables(d: Seq<ClientDeclarationModel>) -> Seq<FlattenedSelectableView> {
    Seq::new(d.len(), |i: int| declared_selectable(d[i]))
}

fn clone_description(o: &Option<String>) -> (r: Option<String>)
    ensures
        opt_view(r) == opt_view(*o),
{
    match o {
        Some(s) => Some(s.clone()),
        None => None,
    }
}

fn clone_names(v: &Vec<String>) -> (r: Vec<String>)
    ensures
        names_view(r@) == names_view(v@),
{
    let mut r: Vec<String> = Vec::new();
    let mut i: usize = 0;
    while i < v.len()
        invariant
            i <= v.len(),
            r@.len() == i,
            forall|k: int| 0 <= k < i ==> #[trigger] r@[k]@ == v@[k]@,
        decreases v.len() - i,
    {
        r.push(v[i].clone());
        i += 1;
    }
    proof {
        assert(names_view(r@) =~= names_view(v@));
    }
    r
}

/// `{parent}__{field}__targetEntity`.
fn target_entity_name_exec(parent: &String, field: &String) -> (r: String)
    ensures
        r@ == target_entity_name(parent@, field@),
{
    let a = concat(parent.as_str(), "__");
    let b = concat(a.as_str(), field.as_str());
    concat(b.as_str(), "__targetEntity")
}

fn anonymous_entity_description_exec(parent: &String, field: &String) -> (r: String)
    ensures
        r@ == anonymous_entity_description(parent@, field@),
{
    let a = concat("The anonymous entity for the `", parent.as_str());
    let b = concat(a.as_str(), ".");
    let c = concat(b.as_str(), field.as_str());
    concat(c.as_str(), "` client field")
}

/// Adds to the flattened data model what the client declares: for each client field, its
/// anonymous target entity `{Parent}__{field}__targetEntity` and the field itself, targeting
/// it; for each client pointer, the pointer, targeting its declared type. Declarations are
/// taken in order; nothing already present is changed or checked for duplicates.
pub fn define_client_selectables_and_entities(
    declarations: &Vec<ClientDeclarationModel>,
    entities: &mut Vec<FlattenedEntityModel>,
    selectables: &mut Vec<FlattenedSelectableModel>,
)
    ensures
        entities_view(final(entities)@) == entities_view(old(entities)@) + declared_entities(declarations@),
        flattened_selectables_view(final(selectables)@) == flattened_selectables_view(old(selectables)@)
            + declared_selectables(declarations@),
{
    let ghost e0 = entities_view(entities@);
    let ghost s0 = flattened_selectables_view(selectables@);
    let mut i: usize = 0;
    while i < declarations.len()
        invariant
            i <= declarations.len(),
            entities_view(entities@) == e0 + declared_entities(declarations@.subrange(0, i as int)),
            flattened_selectables_view(selectables@) == s0 + declared_selectables(declarations@.subrange(0, i as int)),
        decreases declarations.len() - i,
    {
        let ghost done = declarations@.subrange(0, i as int);
        let ghost next = declarations@.subrange(0, i + 1);
        proof {
            assert(next.drop_last() =~= done);
            assert(next.last() == declarations@[i as int]);
        }
        let ghost ebefore = entities_view(entities@);
        let ghost sbefore = flattened_selectables_view(selectables@);
        match &declarations[i] {
            ClientDeclarationModel::Scalar(s) => {
                let target = target_entity_name_exec(&s.parent_type, &s.client_field_name);
                let entity = FlattenedEntityModel {
                    name: target.clone(),
                    description: Some(anonymous_entity_description_exec(&s.parent_type, &s.client_field_name)),
                    client_defined: true,
                    scalar_selected: true,
                };
                entities.push(entity);
                let selectable = FlattenedSelectableModel {
                    name: s.client_field_name.clone(),
                    parent_entity_name: s.parent_type.clone(),
                    description: clone_description(&s.description),
                    argument_names: clone_names(&s.variable_names),
                    target_entity: target,
                    target_is_scalar: true,
                    const_export_name: s.const_export_name.clone(),
                    file_path: s.definition_path.clone(),
                    client_defined: true,
                    is_inline_fragment: false,
                };
                selectables.push(selectable);
                proof {
                    assert(entities_view(entities@) =~= ebefore.push(entity_view(entity)));
                    assert(flattened_selectables_view(selectables@) =~= sbefore.push(flattened_selectable_view(selectable)));
                }
            },
            ClientDeclarationModel::Object(o) => {
                let selectable = FlattenedSelectableModel {
                    name: o.client_pointer_name.clone(),
                    parent_entity_name: o.parent_type.clone(),
                    description: clone_description(&o.description),
                    argument_names: clone_names(&o.variable_names),
                    target_entity: o.target_type.clone(),
                    target_is_scalar: false,
                    const_export_name: o.const_export_name.clone(),
                    file_path: o.definition_path.clone(),
                    client_defined: true,
                    is_inline_fragment: false,
                };
                selectables.push(selectable);
                proof {
                    assert(flattened_selectables_view(selectables@) =~= sbefore.push(flattened_selectable_view(selectable)));
                }
            },
        }
        proof {
            assert(declared_selectables(next) =~= declared_selectables(done).push(declared_selectable(declarations@[i as int])));
            assert(entities_view(entities@) =~= e0 + declared_entities(next));
            assert(flattened_selectables_view(selectables@) =~= s0 + declared_selectables(next));
        }
        i += 1;
    }
    proof {
        assert(declarations@.subrange(0, declarations@.len() as int) =~= declarations@);
    }
}

/// The name a client field declaration gives its anonymous entity, spelled out.
pub open spec fn spelled_target(d: ClientDeclarationModel) -> Seq<char> {
    match d {
        ClientDeclarationModel::Scalar(x) => x.parent_type@ + "__"@ + x.client_field_name@ + "__targetEntity"@,
        ClientDeclarationModel::Object(x) => x.target_type@,
    }
}

/// The description a client field declaration gives its anonymous entity, spelled out.
pub open spec fn spelled_description(d: ClientDeclarationModel) -> Seq<char> {
    match d {
        ClientDeclarationModel::Scalar(x) => "The anonymous entity for the `"@ + x.parent_type@ + "."@ + x.client_field_name@
            + "` client field"@,
        ClientDeclarationModel::Object(x) => seq![],
    }
}

proof fn lemma_declared_entities_hold_targets(d: Seq<ClientDeclarationModel>)
    ensures
        forall|i: int|
            0 <= i < d.len() && (#[trigger] d[i]) is Scalar ==> exists|j: int|
                0 <= j < declared_entities(d).len() && declared_entities(d)[j].name == spelled_target(d[i])
                    && declared_entities(d)[j].description == Some(spelled_description(d[i]))
                    && declared_entities(d)[j].scalar_selected && declared_entities(d)[j].client_defined,
        forall|j: int|
            0 <= j < declared_entities(d).len() ==> exists|i: int|
                0 <= i < d.len() && (#[trigger] d[i]) is Scalar && (#[trigger] declared_entities(d)[j]).name == spelled_target(d[i]),
    decreases d.len(),
{
    if d.len() > 0 {
        let rest = d.drop_last();
        lemma_declared_entities_hold_targets(rest);
        let prev = declared_entities(rest);
        assert forall|i: int| 0 <= i < d.len() && (#[trigger] d[i]) is Scalar implies exists|j: int|
            0 <= j < declared_entities(d).len() && declared_entities(d)[j].name == spelled_target(d[i])
                && declared_entities(d)[j].description == Some(spelled_description(d[i]))
                && declared_entities(d)[j].scalar_selected && declared_entities(d)[j].client_defined by {
            if i < d.len() - 1 {
                assert(rest[i] == d[i]);
                let j = choose|j: int|
                    0 <= j < prev.len() && prev[j].name == spelled_target(rest[i]) && prev[j].description == Some(spelled_description(rest[i]))
                        && prev[j].scalar_selected && prev[j].client_defined;
                assert(declared_entities(d)[j] == prev[j]);
            } else {
                assert(declared_entities(d) == prev.push(declared_entity(d.last())->Some_0));
                assert(declared_entities(d)[prev.len() as int].name == spelled_target(d[i]));
            }
        }
        assert forall|j: int| 0 <= j < declared_entities(d).len() implies exists|i: int|
            0 <= i < d.len() && (#[trigger] d[i]) is Scalar && (#[trigger] declared_entities(d)[j]).name == spelled_target(d[i]) by {
            if j < prev.len() {
                assert(declared_entities(d)[j] == prev[j]);
                let i = choose|i: int| 0 <= i < rest.len() && (#[trigger] rest[i]) is Scalar && (#[trigger] prev[j]).name == spelled_target(rest[i]);
                assert(rest[i] == d[i]);
            } else {
                assert(d.last() is Scalar);
                assert(d[d.len() - 1] == d.last());
            }
        }
    }
}

/// Each declaration defines one selectable, in order: a client field on its declared parent
/// type, under its name, targeting the entity `{Parent}__{field}__targetEntity`, which the
/// declarations also define; a client pointer on its declared parent type, under its name,
/// targeting its declared target type.
pub proof fn law_declared_selectables_sit_on_their_declared_parents(d: Seq<ClientDeclarationModel>)
    ensures
        declared_selectables(d).len() == d.len(),
        forall|i: int|
            0 <= i < d.len() ==> match #[trigger] d[i] {
                ClientDeclarationModel::Scalar(x) => {
                    &&& declared_selectables(d)[i].parent_entity_name == x.parent_type@
                    &&& declared_selectables(d)[i].name == x.client_field_name@
                    &&& declared_selectables(d)[i].target_entity == x.parent_type@ + "__"@ + x.client_field_name@ + "__targetEntity"@
                    &&& declared_selectables(d)[i].target_is_scalar
                    &&& declared_selectables(d)[i].description == opt_view(x.description)
                    &&& declared_selectables(d)[i].argument_names == names_view(x.variable_names@)
                    &&& declared_selectables(d)[i].const_export_name == x.const_export_name@
                    &&& declared_selectables(d)[i].file_path == x.definition_path@
                    &&& exists|j: int|
                        0 <= j < declared_entities(d).len() && declared_entities(d)[j].name == declared_selectables(d)[i].target_entity
                },
                ClientDeclarationModel::Object(x) => {
                    &&& declared_selectables(d)[i].parent_entity_name == x.parent_type@
                    &&& declared_selectables(d)[i].name == x.client_pointer_name@
                    &&& declared_selectables(d)[i].target_entity == x.target_type@
                    &&& !declared_selectables(d)[i].target_is_scalar
                    &&& declared_selectables(d)[i].description == opt_view(x.description)
                    &&& declared_selectables(d)[i].argument_names == names_view(x.variable_names@)
                    &&& declared_selectables(d)[i].const_export_name == x.const_export_name@
                    &&& declared_selectables(d)[i].file_path == x.definition_path@
                },
            },
        forall|i: int| 0 <= i < d.len() ==> (#[trigger] declared_selectables(d)[i]).client_defined && !declared_selectables(d)[i].is_inline_fragment,
{
    assert forall|i: int| 0 <= i < d.len() implies (#[trigger] declared_selectables(d)[i]).client_defined
        && !declared_selectables(d)[i].is_inline_fragment by {
        assert(declared_selectables(d)[i] == declared_selectable(d[i]));
    }
    assert forall|i: int| 0 <= i < d.len() implies match #[trigger] d[i] {
        ClientDeclarationModel::Scalar(x) => {
            &&& declared_selectables(d)[i].parent_entity_name == x.parent_type@
            &&& declared_selectables(d)[i].name == x.client_field_name@
            &&& declared_selectables(d)[i].target_entity == x.parent_type@ + "__"@ + x.client_field_name@ + "__targetEntity"@
            &&& declared_selectables(d)[i].target_is_scalar
            &&& declared_selectables(d)[i].description == opt_view(x.description)
            &&& declared_selectables(d)[i].argument_names == names_view(x.variable_names@)
            &&& declared_selectables(d)[i].const_export_name == x.const_export_name@
            &&& declared_selectables(d)[i].file_path == x.definition_path@
            &&& exists|j: int|
                0 <= j < declared_entities(d).len() && declared_entities(d)[j].name == declared_selectables(d)[i].target_entity
        },
        ClientDeclarationModel::Object(x) => {
            &&& declared_selectables(d)[i].parent_entity_name == x.parent_type@
            &&& declared_selectables(d)[i].name == x.client_pointer_name@
            &&& declared_selectables(d)[i].target_entity == x.target_type@
            &&& !declared_selectables(d)[i].target_is_scalar
            &&& declared_selectables(d)[i].description == opt_view(x.description)
            &&& declared_selectables(d)[i].argument_names == names_view(x.variable_names@)
            &&& declared_selectables(d)[i].const_export_name == x.const_export_name@
            &&& declared_selectables(d)[i].file_path == x.definition_path@
        },
    } by {
        assert(declared_selectables(d)[i] == declared_selectable(d[i]));
        match d[i] {
            ClientDeclarationModel::Scalar(x) => {
                assert(exists|j: int|
                    0 <= j < declared_entities(d).len() && declared_entities(d)[j].name == declared_selectables(d)[i].target_entity) by {
                    lemma_declared_entities_hold_targets(d);
                    assert(d[i] is Scalar);
                    let j = choose|j: int|
                        0 <= j < declared_entities(d).len() && declared_entities(d)[j].name == spelled_target(d[i])
                            && declared_entities(d)[j].description == Some(spelled_description(d[i]))
                            && declared_entities(d)[j].scalar_selected && declared_entities(d)[j].client_defined;
                    assert(declared_entities(d)[j].name == declared_selectables(d)[i].target_entity);
                }
            },
            _ => {},
        }
    }
}

/// Each client field declaration defines its anonymous entity, named
/// `{Parent}__{field}__targetEntity` and described as the anonymous entity of `Parent.field`,
/// defined by the client and selected as a scalar; and every entity defined is one of these.
pub proof fn law_each_client_field_defines_its_anonymous_entity(d: Seq<ClientDeclarationModel>)
    ensures
        forall|i: int|
            0 <= i < d.len() && (#[trigger] d[i]) is Scalar ==> exists|j: int|
                0 <= j < declared_entities(d).len() && declared_entities(d)[j].name == spelled_target(d[i])
                    && declared_entities(d)[j].description == Some(spelled_description(d[i]))
                    && declared_entities(d)[j].scalar_selected && declared_entities(d)[j].client_defined,
        forall|j: int|
            0 <= j < declared_entities(d).len() ==> exists|i: int|
                0 <= i < d.len() && (#[trigger] d[i]) is Scalar && (#[trigger] declared_entities(d)[j]).name == spelled_target(d[i]),
{
    lemma_declared_entities_hold_targets(d);
}

} // verus!
