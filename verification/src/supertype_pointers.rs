use vstd::prelude::*;

use crate::string_value::{chars_of, string_from_chars};
use crate::unique_fields::{
    lemma_add_fields_to_subtypes_unique, lemma_add_link_fields_unique, lemma_add_object_selectables_unique,
    lemma_add_pointers_unique, objects_fields_unique,
};

verus! {

/// Where a field an object holds is defined: a server scalar or object selectable, or a client
/// scalar or object selectable, each by its index.
#[derive(Clone, Copy, Debug, PartialEq, Eq, Structural)]
pub enum DefinitionLocation {
    ServerScalar(usize),
    ServerObject(usize),
    ClientScalar(usize),
    ClientObject(usize),
}

/// A scalar selection of a reader selection set: the field's name and where it is defined.
#[derive(Debug, PartialEq, Eq)]
pub struct ReaderScalarSelection {
    pub name: String,
    pub location: DefinitionLocation,
}

/// An object type of the schema: its index, its name, the concrete type it stands for when it is
/// not abstract, and the fields it holds by name.
#[derive(Debug, PartialEq, Eq)]
pub struct SchemaObject {
    pub id: usize,
    pub name: String,
    pub concrete_type: Option<usize>,
    pub encountered_fields: Vec<(String, DefinitionLocation)>,
}

/// A server object selectable that refines its parent to a subtype, as an inline fragment whose
/// reader reads the subtype's `__typename` and `__link`.
#[derive(Debug, PartialEq, Eq)]
pub struct ServerObjectSelectable {
    pub description: Option<String>,
    pub name: String,
    pub parent_type_id: usize,
    pub target_object_entity: usize,
    /// What the inline fragment carries, where it carries anything.
    pub inline_fragment: Option<InlineFragmentData>,
}

/// What an inline fragment that refines to a concrete subtype carries: its own index, the
/// concrete type, and the reader selection set that reads the subtype's `__typename` and
/// `__link`.
#[derive(Debug, PartialEq, Eq)]
pub struct InlineFragmentData {
    pub server_object_selectable_id: usize,
    pub concrete_type: usize,
    pub reader_selection_set: Vec<ReaderScalarSelection>,
}

/// A client scalar selectable that links to its parent object in the store.
#[derive(Debug, PartialEq, Eq)]
pub struct LinkClientField {
    pub description: Option<String>,
    pub name: String,
    pub parent_object_entity_id: usize,
    pub type_and_field_type: String,
}

/// The part of a schema that the added fields read and write: its object types, its server
/// object selectables and its client scalar selectables, each by index.
#[derive(Debug, PartialEq, Eq)]
pub struct SchemaModel {
    pub objects: Vec<SchemaObject>,
    pub server_object_selectables: Vec<ServerObjectSelectable>,
    pub client_scalar_selectables: Vec<LinkClientField>,
}

/// A field that was to be added to a type already exists there: a pointer on a supertype, or a
/// field a subtype takes from its supertype.
#[derive(Debug, PartialEq, Eq)]
pub enum CreateAdditionalFieldsError {
    FieldExistsOnType { field_name: String, parent_type: String },
    FieldExistsOnSubtype { field_name: String, parent_type: String },
    CompilerCreatedFieldExistsOnType { field_name: String, parent_type: String },
}

/// The abstract value of an object type.
pub struct ObjectView {
    pub id: usize,
    pub name: Seq<char>,
    pub concrete_type: Option<usize>,
    pub fields: Seq<(Seq<char>, DefinitionLocation)>,
}

/// The abstract value of a server object selectable.
pub struct SelectableView {
    pub description: Option<Seq<char>>,
    pub name: Seq<char>,
    pub parent_type_id: usize,
    pub target_object_entity: usize,
    pub inline_fragment: Option<InlineFragmentView>,
}

/// The abstract value of what an inline fragment carries.
pub struct InlineFragmentView {
    pub server_object_selectable_id: int,
    pub concrete_type: usize,
    pub reader_selection_set: Seq<(Seq<char>, DefinitionLocation)>,
}

/// The abstract value of a link client field.
pub struct LinkView {
    pub description: Option<Seq<char>>,
    pub name: Seq<char>,
    pub parent_object_entity_id: usize,
    pub type_and_field_type: Seq<char>,
}

/// The abstract value of a schema.
pub struct SchemaView {
    pub objects: Seq<ObjectView>,
    pub selectables: Seq<SelectableView>,
    pub client_fields: Seq<LinkView>,
}

/// The abstract value of the error.
pub struct FieldExistsView {
    /// Whether the clash was on a subtype taking its supertype's field.
    pub on_subtype: bool,
    /// Whether the clashing field was one the compiler created for every supertype.
    pub compiler_created: bool,
    pub field_name: Seq<char>,
    pub parent_type: Seq<char>,
}

pub open spec fn fields_view(v: Seq<(String, DefinitionLocation)>) -> Seq<(Seq<char>, DefinitionLocation)> {
    Seq::new(v.len(), |i: int| (v[i].0@, v[i].1))
}

pub open spec fn reader_view(v: Seq<ReaderScalarSelection>) -> Seq<(Seq<char>, DefinitionLocation)> {
    Seq::new(v.len(), |i: int| (v[i].name@, v[i].location))
}

impl SchemaObject {
    pub open spec fn view(&self) -> ObjectView {
        ObjectView {
            id: self.id,
            name: self.name@,
            concrete_type: self.concrete_type,
            fields: fields_view(self.encountered_fields@),
        }
    }
}

impl ServerObjectSelectable {
    pub open spec fn view(&self) -> SelectableView {
        SelectableView {
            description: match self.description {
                Some(d) => Some(d@),
                None => None,
            },
            name: self.name@,
            parent_type_id: self.parent_type_id,
            target_object_entity: self.target_object_entity,
            inline_fragment: match self.inline_fragment {
                Some(d) => Some(
                    InlineFragmentView {
                        server_object_selectable_id: d.server_object_selectable_id as int,
                        concrete_type: d.concrete_type,
                        reader_selection_set: reader_view(d.reader_selection_set@),
                    },
                ),
                None => None,
            },
        }
    }
}

impl SchemaModel {
    pub open spec fn view(&self) -> SchemaView {
        SchemaView {
            objects: Seq::new(self.objects@.len(), |i: int| self.objects@[i].view()),
            selectables: Seq::new(
                self.server_object_selectables@.len(),
                |i: int| self.server_object_selectables@[i].view(),
            ),
            client_fields: Seq::new(
                self.client_scalar_selectables@.len(),
                |i: int| link_view(self.client_scalar_selectables@[i]),
            ),
        }
    }
}

pub open spec fn link_view(f: LinkClientField) -> LinkView {
    LinkView {
        description: match f.description {
            Some(d) => Some(d@),
            None => None,
        },
        name: f.name@,
        parent_object_entity_id: f.parent_object_entity_id,
        type_and_field_type: f.type_and_field_type@,
    }
}

/// The abstract value of the error, if any.
pub open spec fn error_view(r: Result<(), CreateAdditionalFieldsError>) -> Option<FieldExistsView> {
    match r {
        Ok(()) => None,
        Err(CreateAdditionalFieldsError::FieldExistsOnType { field_name, parent_type }) => Some(
            FieldExistsView { on_subtype: false, compiler_created: false, field_name: field_name@, parent_type: parent_type@ },
        ),
        Err(CreateAdditionalFieldsError::FieldExistsOnSubtype { field_name, parent_type }) => Some(
            FieldExistsView { on_subtype: true, compiler_created: false, field_name: field_name@, parent_type: parent_type@ },
        ),
        Err(CreateAdditionalFieldsError::CompilerCreatedFieldExistsOnType { field_name, parent_type }) => Some(
            FieldExistsView { on_subtype: false, compiler_created: true, field_name: field_name@, parent_type: parent_type@ },
        ),
    }
}

/// The subtypes to refine to, each with its supertypes, as plain sequences.
pub open spec fn refinements_view(v: Seq<(usize, Vec<usize>)>) -> Seq<(usize, Seq<usize>)> {
    Seq::new(v.len(), |i: int| (v[i].0, v[i].1@))
}

/// The position of the first field named `name` from `k` on.
pub open spec fn field_index_from(fields: Seq<(Seq<char>, DefinitionLocation)>, name: Seq<char>, k: int) -> Option<int>
    decreases fields.len() - k,
{
    if k < 0 || k >= fields.len() {
        None
    } else if fields[k].0 == name {
        Some(k)
    } else {
        field_index_from(fields, name, k + 1)
    }
}

/// Where the field named `name` is defined, if the object has one.
pub open spec fn field_named(fields: Seq<(Seq<char>, DefinitionLocation)>, name: Seq<char>) -> Option<DefinitionLocation> {
    match field_index_from(fields, name, 0) {
        Some(k) => Some(fields[k].1),
        None => None,
    }
}

/// The fields with `name` defined at `location`, the field of that name replaced when there was
/// one; and whether there was.
pub open spec fn insert_field(
    fields: Seq<(Seq<char>, DefinitionLocation)>,
    name: Seq<char>,
    location: DefinitionLocation,
) -> (Seq<(Seq<char>, DefinitionLocation)>, bool) {
    match field_index_from(fields, name, 0) {
        Some(k) => (fields.update(k, (name, location)), true),
        None => (fields.push((name, location)), false),
    }
}

/// The name of the pointer to a subtype: `as` and the subtype's name.
pub open spec fn pointer_name(subtype_name: Seq<char>) -> Seq<char> {
    "as"@ + subtype_name
}

/// The description of the pointer to a subtype.
pub open spec fn pointer_description(subtype_name: Seq<char>) -> Seq<char> {
    "A client pointer for the "@ + subtype_name + " type."@
}

/// The pointer to the subtype at `subtype` of concrete type `concrete_type`: a server object
/// selectable with the next index, read through the subtype's `__typename` and `__link`.
pub open spec fn pointer_selectable(s: SchemaView, subtype: usize, concrete_type: usize) -> SelectableView {
    let o = s.objects[subtype as int];
    SelectableView {
        description: Some(pointer_description(o.name)),
        name: pointer_name(o.name),
        parent_type_id: o.id,
        target_object_entity: subtype,
        inline_fragment: Some(
            InlineFragmentView {
                server_object_selectable_id: s.selectables.len() as int,
                concrete_type,
                reader_selection_set: seq![
                    ("__typename"@, field_named(o.fields, "__typename"@)->Some_0),
                    ("__link"@, field_named(o.fields, "__link"@)->Some_0),
                ],
            },
        ),
    }
}

/// Adds the field `name`, defined at `location`, to the supertypes from the `j`-th on, stopping
/// at the first that already has a field of that name (which is then replaced) with the error.
pub open spec fn spec_add_to_supertypes(
    s: SchemaView,
    supertypes: Seq<usize>,
    j: int,
    name: Seq<char>,
    location: DefinitionLocation,
) -> (SchemaView, Option<FieldExistsView>)
    decreases supertypes.len() - j,
{
    if j < 0 || j >= supertypes.len() {
        (s, None)
    } else {
        let k = supertypes[j] as int;
        let o = s.objects[k];
        let inserted = insert_field(o.fields, name, location);
        let s1 = SchemaView { objects: s.objects.update(k, ObjectView { fields: inserted.0, ..o }), ..s };
        if inserted.1 {
            (s1, Some(FieldExistsView { on_subtype: false, compiler_created: false, field_name: name, parent_type: o.name }))
        } else {
            spec_add_to_supertypes(s1, supertypes, j + 1, name, location)
        }
    }
}

/// For each subtype from the `i`-th on that is concrete, the pointer to it is added as a server
/// object selectable and as a field of each of its supertypes, in order; the first supertype
/// that already has a field of the pointer's name ends it with the error.
pub open spec fn spec_add_pointers(s: SchemaView, refinements: Seq<(usize, Seq<usize>)>, i: int) -> (
    SchemaView,
    Option<FieldExistsView>,
)
    decreases refinements.len() - i,
{
    if i < 0 || i >= refinements.len() {
        (s, None)
    } else {
        let subtype = refinements[i].0;
        match s.objects[subtype as int].concrete_type {
            None => spec_add_pointers(s, refinements, i + 1),
            Some(concrete_type) => {
                let selectable = pointer_selectable(s, subtype, concrete_type);
                let s1 = SchemaView { selectables: s.selectables.push(selectable), ..s };
                let added = spec_add_to_supertypes(
                    s1,
                    refinements[i].1,
                    0,
                    pointer_name(s.objects[subtype as int].name),
                    DefinitionLocation::ServerObject(s.selectables.len() as usize),
                );
                if added.1 is Some {
                    added
                } else {
                    spec_add_pointers(added.0, refinements, i + 1)
                }
            },
        }
    }
}

/// Whether every index names an object, and every concrete subtype has a server scalar
/// `__typename` and a client scalar `__link`, from the `i`-th refinement on.
pub open spec fn pointers_can_be_added(s: SchemaView, refinements: Seq<(usize, Seq<usize>)>) -> bool {
    forall|i: int|
        0 <= i < refinements.len() ==> {
            let sub = #[trigger] refinements[i].0;
            &&& sub < s.objects.len()
            &&& forall|j: int| 0 <= j < refinements[i].1.len() ==> #[trigger] refinements[i].1[j] < s.objects.len()
            &&& s.objects[sub as int].concrete_type is Some ==> {
                &&& field_named(s.objects[sub as int].fields, "__typename"@) matches Some(DefinitionLocation::ServerScalar(_))
                &&& field_named(s.objects[sub as int].fields, "__link"@) matches Some(DefinitionLocation::ClientScalar(_))
            }
        }
}

/// The objects keep their number, their names, ids and concrete types, and where their
/// `__typename` and `__link` are defined.
pub open spec fn keeps_pointer_sources(a: SchemaView, b: SchemaView) -> bool {
    &&& a.objects.len() == b.objects.len()
    &&& forall|o: int|
        0 <= o < a.objects.len() ==> {
            &&& (#[trigger] b.objects[o]).name == a.objects[o].name
            &&& b.objects[o].id == a.objects[o].id
            &&& b.objects[o].concrete_type == a.objects[o].concrete_type
            &&& field_named(b.objects[o].fields, "__typename"@) == field_named(a.objects[o].fields, "__typename"@)
            &&& field_named(b.objects[o].fields, "__link"@) == field_named(a.objects[o].fields, "__link"@)
        }
}

/// `pointers_can_be_added` from the `i`-th refinement on.
pub open spec fn pointers_can_be_added_from(s: SchemaView, refinements: Seq<(usize, Seq<usize>)>, i: int) -> bool {
    forall|t: int|
        i <= t < refinements.len() ==> {
            let sub = #[trigger] refinements[t].0;
            &&& sub < s.objects.len()
            &&& forall|j: int| 0 <= j < refinements[t].1.len() ==> #[trigger] refinements[t].1[j] < s.objects.len()
            &&& s.objects[sub as int].concrete_type is Some ==> {
                &&& field_named(s.objects[sub as int].fields, "__typename"@) matches Some(DefinitionLocation::ServerScalar(_))
                &&& field_named(s.objects[sub as int].fields, "__link"@) matches Some(DefinitionLocation::ClientScalar(_))
            }
        }
}

proof fn lemma_index_update(
    f: Seq<(Seq<char>, DefinitionLocation)>,
    k: int,
    n: Seq<char>,
    l: DefinitionLocation,
    m: Seq<char>,
    x: int,
)
    requires
        0 <= k < f.len(),
        f[k].0 == n,
        n != m,
        x >= 0,
    ensures
        field_index_from(f.update(k, (n, l)), m, x) == field_index_from(f, m, x),
    decreases f.len() - x,
{
    if x < f.len() {
        lemma_index_update(f, k, n, l, m, x + 1);
    }
}

proof fn lemma_index_push(f: Seq<(Seq<char>, DefinitionLocation)>, n: Seq<char>, l: DefinitionLocation, m: Seq<char>, x: int)
    requires
        n != m,
        x >= 0,
    ensures
        field_index_from(f.push((n, l)), m, x) == field_index_from(f, m, x),
    decreases f.len() + 1 - x,
{
    if x < f.len() + 1 {
        lemma_index_push(f, n, l, m, x + 1);
    }
}

proof fn lemma_index_found(f: Seq<(Seq<char>, DefinitionLocation)>, m: Seq<char>, x: int)
    ensures
        field_index_from(f, m, x) matches Some(k) ==> x <= k < f.len() && f[k].0 == m,
    decreases f.len() - x,
{
    if 0 <= x < f.len() && f[x].0 != m {
        lemma_index_found(f, m, x + 1);
    }
}

/// Adding a field of another name leaves where a name is defined as it was.
proof fn lemma_insert_keeps_other(f: Seq<(Seq<char>, DefinitionLocation)>, n: Seq<char>, l: DefinitionLocation, m: Seq<char>)
    requires
        n != m,
    ensures
        field_named(insert_field(f, n, l).0, m) == field_named(f, m),
{
    lemma_index_found(f, n, 0);
    match field_index_from(f, n, 0) {
        Some(k) => {
            lemma_index_update(f, k, n, l, m, 0);
            lemma_index_found(f, m, 0);
        },
        None => {
            lemma_index_push(f, n, l, m, 0);
            lemma_index_found(f, m, 0);
        },
    }
}

/// A pointer's name is neither `__typename` nor `__link`.
proof fn lemma_pointer_name_is_new(subtype_name: Seq<char>)
    ensures
        pointer_name(subtype_name) != "__typename"@,
        pointer_name(subtype_name) != "__link"@,
{
    reveal_strlit("as");
    reveal_strlit("__typename");
    reveal_strlit("__link");
    assert(pointer_name(subtype_name)[0] == 'a');
    assert("__typename"@[0] == '_');
    assert("__link"@[0] == '_');
}

/// The position of the first field named `name`.
fn field_index(fields: &Vec<(String, DefinitionLocation)>, name: &String) -> (r: Option<usize>)
    ensures
        match r {
            Some(k) => field_index_from(fields_view(fields@), name@, 0) == Some(k as int),
            None => field_index_from(fields_view(fields@), name@, 0) is None,
        },
        r matches Some(k) ==> k < fields.len(),
{
    let ghost fv = fields_view(fields@);
    let mut i: usize = 0;
    while i < fields.len()
        invariant
            fv == fields_view(fields@),
            i <= fields.len(),
            field_index_from(fv, name@, 0) == field_index_from(fv, name@, i as int),
        decreases fields.len() - i,
    {
        if fields[i].0 == *name {
            return Some(i);
        }
        i += 1;
    }
    None
}

/// Defines the field `name` at `location`, replacing the field of that name when there is one;
/// whether there was.
fn insert_field_exec(fields: &mut Vec<(String, DefinitionLocation)>, name: &String, location: DefinitionLocation) -> (existed: bool)
    ensures
        (fields_view(final(fields)@), existed) == insert_field(fields_view(old(fields)@), name@, location),
{
    match field_index(fields, name) {
        Some(k) => {
            let ghost before = fields_view(fields@);
            fields.set(k, (name.clone(), location));
            proof {
                assert(fields_view(fields@) =~= before.update(k as int, (name@, location)));
            }
            true
        },
        None => {
            let ghost before = fields_view(fields@);
            fields.push((name.clone(), location));
            proof {
                assert(fields_view(fields@) =~= before.push((name@, location)));
            }
            false
        },
    }
}

/// Where the field `name` is defined, if the object has one.
fn field_named_exec(fields: &Vec<(String, DefinitionLocation)>, name: &String) -> (r: Option<DefinitionLocation>)
    ensures
        r == field_named(fields_view(fields@), name@),
{
    match field_index(fields, name) {
        Some(k) => Some(fields[k].1),
        None => None,
    }
}

/// A string holding the characters of `s`.
fn owned(s: &str) -> (r: String)
    ensures
        r@ == s@,
{
    let v = chars_of(s);
    proof {
        assert(v@.subrange(0, v@.len() as int) =~= v@);
    }
    string_from_chars(&v, 0, v.len())
}

/// A string holding the characters of `a` then those of `b`.
pub(crate) fn concat(a: &str, b: &str) -> (r: String)
    ensures
        r@ == a@ + b@,
{
    let mut v = chars_of(a);
    let w = chars_of(b);
    let ghost v0 = v@;
    let mut i: usize = 0;
    while i < w.len()
        invariant
            i <= w.len(),
            v@ == v0 + w@.subrange(0, i as int),
        decreases w.len() - i,
    {
        v.push(w[i]);
        proof {
            assert(w@.subrange(0, i + 1) =~= w@.subrange(0, i as int).push(w@[i as int]));
            assert(v@ =~= v0 + w@.subrange(0, i + 1));
        }
        i += 1;
    }
    proof {
        assert(w@.subrange(0, w@.len() as int) =~= w@);
        assert(v@.subrange(0, v@.len() as int) =~= v@);
    }
    string_from_chars(&v, 0, v.len())
}

impl SchemaModel {
    /// For each concrete subtype (e.g. `User`, which implements `Node`), adds the pointer to it
    /// (`Node.asUser`): a server object selectable that refines to the subtype, and a field of
    /// that name on each of its supertypes. A supertype that already has a field of that name
    /// ends it with `FieldExistsOnType`; what was added before stays.
    #[verifier::loop_isolation(false)]
    pub fn add_pointers_to_supertypes(&mut self, subtype_to_supertypes: &Vec<(usize, Vec<usize>)>) -> (r:
        Result<(), CreateAdditionalFieldsError>)
        requires
            pointers_can_be_added(old(self)@, refinements_view(subtype_to_supertypes@)),
        ensures
            (final(self)@, error_view(r)) == spec_add_pointers(
                old(self)@,
                refinements_view(subtype_to_supertypes@),
                0,
            ),
            objects_fields_unique(old(self)@.objects) ==> objects_fields_unique(final(self)@.objects),
    {
        proof {
            if objects_fields_unique(self@.objects) {
                assert(refinements_in_range(self@.objects.len(), refinements_view(subtype_to_supertypes@)));
                lemma_add_pointers_unique(self@, refinements_view(subtype_to_supertypes@), 0);
            }
        }
        let ghost refs = refinements_view(subtype_to_supertypes@);
        let typename = owned("__typename");
        let link = owned("__link");
        let mut i: usize = 0;
        while i < subtype_to_supertypes.len()
            invariant
                refs == refinements_view(subtype_to_supertypes@),
                refs.len() == subtype_to_supertypes.len(),
                i <= refs.len(),
                typename@ == "__typename"@,
                link@ == "__link"@,
                pointers_can_be_added_from(self@, refs, i as int),
                spec_add_pointers(old(self)@, refs, 0) == spec_add_pointers(self@, refs, i as int),
            decreases refs.len() - i,
        {
            let ghost s_i = self@;
            let subtype = subtype_to_supertypes[i].0;
            proof {
                assert(refs[i as int].0 == subtype);
            }
            match self.objects[subtype].concrete_type {
                None => {},
                Some(concrete_type) => {
                    let sub = &self.objects[subtype];
                    let typename_location = match field_named_exec(&sub.encountered_fields, &typename) {
                        Some(l) => l,
                        None => DefinitionLocation::ServerScalar(0),
                    };
                    let link_location = match field_named_exec(&sub.encountered_fields, &link) {
                        Some(l) => l,
                        None => DefinitionLocation::ClientScalar(0),
                    };
                    let field_name = concat("as", sub.name.as_str());
                    let first = concat("A client pointer for the ", sub.name.as_str());
                    let description = concat(first.as_str(), " type.");
                    let next_id = self.server_object_selectables.len();
                    let selectable = ServerObjectSelectable {
                        description: Some(description),
                        name: field_name.clone(),
                        parent_type_id: sub.id,
                        target_object_entity: subtype,
                        inline_fragment: Some(
                            InlineFragmentData {
                                server_object_selectable_id: next_id,
                                concrete_type,
                                reader_selection_set: vec![
                                    ReaderScalarSelection { name: owned("__typename"), location: typename_location },
                                    ReaderScalarSelection { name: owned("__link"), location: link_location },
                                ],
                            },
                        ),
                    };
                    proof {
                        assert(selectable.view().inline_fragment->Some_0.reader_selection_set =~= pointer_selectable(s_i, subtype, concrete_type).inline_fragment->Some_0.reader_selection_set);
                        assert(selectable.view() == pointer_selectable(s_i, subtype, concrete_type));
                    }
                    self.server_object_selectables.push(selectable);
                    let ghost s1 = SchemaView { selectables: s_i.selectables.push(pointer_selectable(s_i, subtype, concrete_type)), ..s_i };
                    proof {
                        assert(self@.objects =~= s1.objects);
                        assert(self@.selectables =~= s1.selectables);
                        lemma_pointer_name_is_new(s_i.objects[subtype as int].name);
                    }
                    let location = DefinitionLocation::ServerObject(next_id);
                    let supertypes = &subtype_to_supertypes[i].1;
                    let mut j: usize = 0;
                    while j < supertypes.len()
                        invariant
                            refs == refinements_view(subtype_to_supertypes@),
                            0 <= i < refs.len(),
                            refs[i as int].0 == subtype,
                            s_i.objects[subtype as int].concrete_type == Some(concrete_type),
                            next_id == s_i.selectables.len(),
                            location == DefinitionLocation::ServerObject(next_id),
                            s1 == (SchemaView { selectables: s_i.selectables.push(pointer_selectable(s_i, subtype, concrete_type)), ..s_i }),
                            spec_add_pointers(old(self)@, refs, 0) == spec_add_pointers(s_i, refs, i as int),
                            supertypes@ == refs[i as int].1,
                            j <= supertypes.len(),
                            field_name@ == pointer_name(s_i.objects[subtype as int].name),
                            field_name@ != "__typename"@,
                            field_name@ != "__link"@,
                            keeps_pointer_sources(s_i, self@),
                            self@.selectables == s1.selectables,
                            forall|t: int| 0 <= t < supertypes@.len() ==> #[trigger] supertypes@[t] < s_i.objects.len(),
                            spec_add_to_supertypes(s1, refs[i as int].1, 0, field_name@, location)
                                == spec_add_to_supertypes(self@, refs[i as int].1, j as int, field_name@, location),
                        decreases supertypes.len() - j,
                    {
                        let k = supertypes[j];
                        let ghost before = self@;
                        let existed = insert_field_exec(&mut self.objects[k].encountered_fields, &field_name, location);
                        proof {
                            let o = before.objects[k as int];
                            let inserted = insert_field(o.fields, field_name@, location);
                            assert(self@.objects =~= before.objects.update(k as int, ObjectView { fields: inserted.0, ..o }));
                            lemma_insert_keeps_other(o.fields, field_name@, location, "__typename"@);
                            lemma_insert_keeps_other(o.fields, field_name@, location, "__link"@);
                        }
                        if existed {
                            let parent_type = self.objects[k].name.clone();
                            proof {
                                assert(parent_type@ == before.objects[k as int].name);
                            }
                            return Err(CreateAdditionalFieldsError::FieldExistsOnType { field_name, parent_type });
                        }
                        j += 1;
                    }
                },
            }
            i += 1;
        }
        Ok(())
    }
}

/// Gives the subtype at `subtype` the client fields among `fields`, from the `k`-th on, in
/// order; server fields are not given. A subtype that already has a field of that name (which
/// is then replaced) ends it with the error.
pub open spec fn spec_give_fields(s: SchemaView, subtype: usize, fields: Seq<(Seq<char>, DefinitionLocation)>, k: int) -> (
    SchemaView,
    Option<FieldExistsView>,
)
    decreases fields.len() - k,
{
    if k < 0 || k >= fields.len() {
        (s, None)
    } else {
        match fields[k].1 {
            DefinitionLocation::ServerScalar(_) | DefinitionLocation::ServerObject(_) => spec_give_fields(s, subtype, fields, k + 1),
            _ => {
                let o = s.objects[subtype as int];
                let inserted = insert_field(o.fields, fields[k].0, fields[k].1);
                let s1 = SchemaView { objects: s.objects.update(subtype as int, ObjectView { fields: inserted.0, ..o }), ..s };
                if inserted.1 {
                    (s1, Some(FieldExistsView { on_subtype: true, compiler_created: false, field_name: fields[k].0, parent_type: o.name }))
                } else {
                    spec_give_fields(s1, subtype, fields, k + 1)
                }
            },
        }
    }
}

/// Gives each subtype from the `j`-th on the client fields among `fields`.
pub open spec fn spec_give_to_subtypes(s: SchemaView, fields: Seq<(Seq<char>, DefinitionLocation)>, subtypes: Seq<usize>, j: int) -> (
    SchemaView,
    Option<FieldExistsView>,
)
    decreases subtypes.len() - j,
{
    if j < 0 || j >= subtypes.len() {
        (s, None)
    } else {
        let r = spec_give_fields(s, subtypes[j], fields, 0);
        if r.1 is Some {
            r
        } else {
            spec_give_to_subtypes(r.0, fields, subtypes, j + 1)
        }
    }
}

/// For each supertype from the `i`-th refinement on, its subtypes get the client fields it had
/// when its turn came, the first clash ending it with the error.
pub open spec fn spec_add_fields_to_subtypes(s: SchemaView, refinements: Seq<(usize, Seq<usize>)>, i: int) -> (
    SchemaView,
    Option<FieldExistsView>,
)
    decreases refinements.len() - i,
{
    if i < 0 || i >= refinements.len() {
        (s, None)
    } else {
        let r = spec_give_to_subtypes(s, s.objects[refinements[i].0 as int].fields, refinements[i].1, 0);
        if r.1 is Some {
            r
        } else {
            spec_add_fields_to_subtypes(r.0, refinements, i + 1)
        }
    }
}

/// Whether every index of the refinements names an object.
pub open spec fn refinements_in_range(n: nat, refinements: Seq<(usize, Seq<usize>)>) -> bool {
    forall|i: int|
        0 <= i < refinements.len() ==> {
            &&& #[trigger] refinements[i].0 < n
            &&& forall|j: int| 0 <= j < refinements[i].1.len() ==> #[trigger] refinements[i].1[j] < n
        }
}

fn copy_fields(v: &Vec<(String, DefinitionLocation)>) -> (r: Vec<(String, DefinitionLocation)>)
    ensures
        fields_view(r@) == fields_view(v@),
{
    let mut r: Vec<(String, DefinitionLocation)> = Vec::new();
    let mut i: usize = 0;
    while i < v.len()
        invariant
            i <= v.len(),
            fields_view(r@) == fields_view(v@).subrange(0, i as int),
        decreases v.len() - i,
    {
        let ghost before = fields_view(r@);
        let name = v[i].0.clone();
        let location = v[i].1;
        r.push((name, location));
        proof {
            assert(fields_view(r@) =~= before.push((v@[i as int].0@, v@[i as int].1)));
            assert(fields_view(r@) =~= fields_view(v@).subrange(0, i + 1));
        }
        i += 1;
    }
    proof {
        assert(fields_view(v@).subrange(0, v@.len() as int) =~= fields_view(v@));
    }
    r
}

impl SchemaModel {
    /// For each supertype (e.g. `Node`), gives its subtypes (e.g. `User`) the client fields
    /// defined on it (e.g. `Node.MyComponent` becomes `User.MyComponent`); server fields are not
    /// given. A subtype that already has a field of that name ends it with
    /// `FieldExistsOnSubtype`; what was given before stays.
    pub fn add_fields_to_subtypes(&mut self, supertype_to_subtypes: &Vec<(usize, Vec<usize>)>) -> (r: Result<
        (),
        CreateAdditionalFieldsError,
    >)
        requires
            refinements_in_range(old(self).objects@.len() as nat, refinements_view(supertype_to_subtypes@)),
        ensures
            (final(self)@, error_view(r)) == spec_add_fields_to_subtypes(
                old(self)@,
                refinements_view(supertype_to_subtypes@),
                0,
            ),
            objects_fields_unique(old(self)@.objects) ==> objects_fields_unique(final(self)@.objects),
    {
        proof {
            if objects_fields_unique(self@.objects) {
                lemma_add_fields_to_subtypes_unique(self@, refinements_view(supertype_to_subtypes@), 0);
            }
        }
        let ghost refs = refinements_view(supertype_to_subtypes@);
        let mut i: usize = 0;
        while i < supertype_to_subtypes.len()
            invariant
                refs == refinements_view(supertype_to_subtypes@),
                refs.len() == supertype_to_subtypes.len(),
                i <= refs.len(),
                self@.objects.len() == old(self)@.objects.len(),
                refinements_in_range(self@.objects.len() as nat, refs),
                spec_add_fields_to_subtypes(old(self)@, refs, 0) == spec_add_fields_to_subtypes(self@, refs, i as int),
                objects_fields_unique(old(self)@.objects) ==> objects_fields_unique(
                    spec_add_fields_to_subtypes(old(self)@, refs, 0).0.objects,
                ),
            decreases refs.len() - i,
        {
            let ghost s_i = self@;
            let supertype = supertype_to_subtypes[i].0;
            proof {
                assert(refs[i as int].0 == supertype);
            }
            let fields = copy_fields(&self.objects[supertype].encountered_fields);
            let ghost fv = fields_view(fields@);
            let subtypes = &supertype_to_subtypes[i].1;
            let mut j: usize = 0;
            while j < subtypes.len()
                invariant
                    refs == refinements_view(supertype_to_subtypes@),
                    0 <= i < refs.len(),
                    subtypes@ == refs[i as int].1,
                    fv == fields_view(fields@),
                    fv == s_i.objects[supertype as int].fields,
                    refs[i as int].0 == supertype,
                    j <= subtypes.len(),
                    self@.objects.len() == s_i.objects.len(),
                    self@.selectables == s_i.selectables,
                    s_i.objects.len() == old(self)@.objects.len(),
                    refinements_in_range(s_i.objects.len() as nat, refs),
                    spec_add_fields_to_subtypes(old(self)@, refs, 0) == spec_add_fields_to_subtypes(s_i, refs, i as int),
                    spec_give_to_subtypes(s_i, fv, refs[i as int].1, 0) == spec_give_to_subtypes(self@, fv, refs[i as int].1, j as int),
                    objects_fields_unique(old(self)@.objects) ==> objects_fields_unique(
                        spec_add_fields_to_subtypes(old(self)@, refs, 0).0.objects,
                    ),
                decreases subtypes.len() - j,
            {
                let subtype = subtypes[j];
                proof {
                    assert(refs[i as int].1[j as int] == subtype);
                }
                let ghost s_j = self@;
                let mut k: usize = 0;
                while k < fields.len()
                    invariant_except_break
                        spec_give_fields(s_j, subtype, fv, 0) == spec_give_fields(self@, subtype, fv, k as int),
                    invariant
                        fv == fields_view(fields@),
                        k <= fields.len(),
                        subtype < self@.objects.len(),
                        self@.objects.len() == s_j.objects.len(),
                        self@.selectables == s_j.selectables,
                    ensures
                        self@.objects.len() == s_j.objects.len(),
                        self@.selectables == s_j.selectables,
                        (k == fields.len() ==> spec_give_fields(s_j, subtype, fv, 0) == (self@, None::<FieldExistsView>)),
                        (k < fields.len() ==> spec_give_fields(s_j, subtype, fv, 0) == (self@, Some(FieldExistsView {
                            on_subtype: true,
                            compiler_created: false,
                            field_name: fv[k as int].0,
                            parent_type: self@.objects[subtype as int].name,
                        }))),
                    decreases fields.len() - k,
                {
                    let location = fields[k].1;
                    match location {
                        DefinitionLocation::ServerScalar(_) | DefinitionLocation::ServerObject(_) => {},
                        _ => {
                            let ghost before = self@;
                            let existed = insert_field_exec(&mut self.objects[subtype].encountered_fields, &fields[k].0, location);
                            proof {
                                let o = before.objects[subtype as int];
                                let inserted = insert_field(o.fields, fv[k as int].0, location);
                                assert(self@.objects =~= before.objects.update(subtype as int, ObjectView { fields: inserted.0, ..o }));
                            }
                            if existed {
                                break;
                            }
                        },
                    }
                    k += 1;
                }
                if k < fields.len() {
                    let field_name = fields[k].0.clone();
                    let parent_type = self.objects[subtype].name.clone();
                    return Err(CreateAdditionalFieldsError::FieldExistsOnSubtype { field_name, parent_type });
                }
                j += 1;
            }
            i += 1;
        }
        Ok(())
    }
}

/// The link field of the object at `o`.
pub open spec fn link_field(o: ObjectView) -> LinkView {
    LinkView {
        description: Some("A store Link for the "@ + o.name + " type."@),
        name: "__link"@,
        parent_object_entity_id: o.id,
        type_and_field_type: o.name,
    }
}

/// For each object from the `o`-th on, a link client field is added and the object gets it as
/// `__link`; an object that already has a `__link` (which is then replaced) ends it with the
/// error.
pub open spec fn spec_add_link_fields(s: SchemaView, o: int) -> (SchemaView, Option<FieldExistsView>)
    decreases s.objects.len() - o,
{
    if o < 0 || o >= s.objects.len() {
        (s, None)
    } else {
        let obj = s.objects[o];
        let id = s.client_fields.len();
        let inserted = insert_field(obj.fields, "__link"@, DefinitionLocation::ClientScalar(id as usize));
        let s1 = SchemaView {
            objects: s.objects.update(o, ObjectView { fields: inserted.0, ..obj }),
            client_fields: s.client_fields.push(link_field(obj)),
            ..s
        };
        if inserted.1 {
            (s1, Some(FieldExistsView { on_subtype: false, compiler_created: false, field_name: "__link"@, parent_type: obj.name }))
        } else {
            spec_add_link_fields(s1, o + 1)
        }
    }
}

impl SchemaModel {
    /// Gives each object a `__link` client field, which links to the object in the store. An
    /// object that already has a field of that name ends it with `FieldExistsOnType`; what was
    /// added before stays.
    #[verifier::loop_isolation(false)]
    pub fn add_link_fields(&mut self) -> (r: Result<(), CreateAdditionalFieldsError>)
        ensures
            (final(self)@, error_view(r)) == spec_add_link_fields(old(self)@, 0),
            objects_fields_unique(old(self)@.objects) ==> objects_fields_unique(final(self)@.objects),
    {
        proof {
            if objects_fields_unique(self@.objects) {
                lemma_add_link_fields_unique(self@, 0);
            }
        }
        let mut o: usize = 0;
        while o < self.objects.len()
            invariant
                spec_add_link_fields(old(self)@, 0) == spec_add_link_fields(self@, o as int),
                self@.objects.len() == self.objects.len(),
            decreases self.objects.len() - o,
        {
            let ghost s_o = self@;
            let field_name = owned("__link");
            let next_client_field_id = self.client_scalar_selectables.len();
            let first = concat("A store Link for the ", self.objects[o].name.as_str());
            let description = concat(first.as_str(), " type.");
            let field = LinkClientField {
                description: Some(description),
                name: owned("__link"),
                parent_object_entity_id: self.objects[o].id,
                type_and_field_type: self.objects[o].name.clone(),
            };
            proof {
                assert(link_view(field) == link_field(s_o.objects[o as int]));
            }
            self.client_scalar_selectables.push(field);
            let location = DefinitionLocation::ClientScalar(next_client_field_id);
            let ghost before = self@;
            let existed = insert_field_exec(&mut self.objects[o].encountered_fields, &field_name, location);
            proof {
                let obj = s_o.objects[o as int];
                let inserted = insert_field(obj.fields, "__link"@, location);
                assert(self@.objects =~= s_o.objects.update(o as int, ObjectView { fields: inserted.0, ..obj }));
                assert(self@.client_fields =~= s_o.client_fields.push(link_field(obj)));
            }
            if existed {
                let parent_type = self.objects[o].name.clone();
                return Err(CreateAdditionalFieldsError::FieldExistsOnType { field_name, parent_type });
            }
            o += 1;
        }
        Ok(())
    }
}

/// The error of a clash on a supertype's subtype, reported as a field that exists on the type.
pub open spec fn as_exists_on_type(e: Option<FieldExistsView>) -> Option<FieldExistsView> {
    match e {
        Some(v) => Some(FieldExistsView { on_subtype: false, ..v }),
        None => None,
    }
}

impl SchemaModel {
    /// For each supertype (e.g. `Node`), gives its subtypes the client selectables defined on
    /// it, as `add_fields_to_subtypes` does; a clash is reported as `FieldExistsOnType`.
    pub fn transfer_supertype_client_selectables_to_subtypes(&mut self, supertype_to_subtypes: &Vec<(usize, Vec<usize>)>) -> (r:
        Result<(), CreateAdditionalFieldsError>)
        requires
            refinements_in_range(old(self).objects@.len() as nat, refinements_view(supertype_to_subtypes@)),
        ensures
            final(self)@ == spec_add_fields_to_subtypes(old(self)@, refinements_view(supertype_to_subtypes@), 0).0,
            error_view(r) == as_exists_on_type(
                spec_add_fields_to_subtypes(old(self)@, refinements_view(supertype_to_subtypes@), 0).1,
            ),
            objects_fields_unique(old(self)@.objects) ==> objects_fields_unique(final(self)@.objects),
    {
        proof {
            if objects_fields_unique(self@.objects) {
                lemma_add_fields_to_subtypes_unique(self@, refinements_view(supertype_to_subtypes@), 0);
            }
        }
        match self.add_fields_to_subtypes(supertype_to_subtypes) {
            Ok(()) => Ok(()),
            Err(CreateAdditionalFieldsError::FieldExistsOnSubtype { field_name, parent_type }) => Err(
                CreateAdditionalFieldsError::FieldExistsOnType { field_name, parent_type },
            ),
            Err(e) => Err(e),
        }
    }
}

/// The pointer to the subtype at `subtype` created on the supertype at `supertype`: a server
/// object selectable refining to the subtype as an inline fragment that carries nothing.
pub open spec fn subtype_selectable(s: SchemaView, subtype: usize, supertype: usize) -> SelectableView {
    let name = s.objects[subtype as int].name;
    SelectableView {
        description: Some(pointer_description(name)),
        name: pointer_name(name),
        parent_type_id: supertype,
        target_object_entity: subtype,
        inline_fragment: None,
    }
}

/// For the subtype at `subtype`, adds to each supertype from the `j`-th on a pointer to it, as a
/// server object selectable and a field; a supertype that already has a field of that name (which
/// is then replaced) ends it with the error.
pub open spec fn spec_add_subtype_selectables(s: SchemaView, subtype: usize, supertypes: Seq<usize>, j: int) -> (
    SchemaView,
    Option<FieldExistsView>,
)
    decreases supertypes.len() - j,
{
    if j < 0 || j >= supertypes.len() {
        (s, None)
    } else {
        let sup = supertypes[j];
        let id = s.selectables.len();
        let name = pointer_name(s.objects[subtype as int].name);
        let o = s.objects[sup as int];
        let inserted = insert_field(o.fields, name, DefinitionLocation::ServerObject(id as usize));
        let s1 = SchemaView {
            selectables: s.selectables.push(subtype_selectable(s, subtype, sup)),
            objects: s.objects.update(sup as int, ObjectView { fields: inserted.0, ..o }),
            ..s
        };
        if inserted.1 {
            (s1, Some(FieldExistsView { on_subtype: false, compiler_created: true, field_name: name, parent_type: o.name }))
        } else {
            spec_add_subtype_selectables(s1, subtype, supertypes, j + 1)
        }
    }
}

/// For each subtype from the `i`-th refinement on, each of its supertypes gets a pointer to it.
pub open spec fn spec_add_object_selectables(s: SchemaView, refinements: Seq<(usize, Seq<usize>)>, i: int) -> (
    SchemaView,
    Option<FieldExistsView>,
)
    decreases refinements.len() - i,
{
    if i < 0 || i >= refinements.len() {
        (s, None)
    } else {
        let r = spec_add_subtype_selectables(s, refinements[i].0, refinements[i].1, 0);
        if r.1 is Some {
            r
        } else {
            spec_add_object_selectables(r.0, refinements, i + 1)
        }
    }
}

impl SchemaModel {
    /// For each subtype (e.g. `User`, which implements `Node`), gives each of its supertypes a
    /// pointer to it (`Node.asUser`): a server object selectable that refines to the subtype as
    /// an inline fragment, and a field of that name. A supertype that already has a field of that
    /// name ends it with `CompilerCreatedFieldExistsOnType`; what was added before stays.
    #[verifier::loop_isolation(false)]
    pub fn add_object_selectable_to_subtype_on_supertypes(&mut self, subtype_to_supertypes: &Vec<(usize, Vec<usize>)>) -> (r:
        Result<(), CreateAdditionalFieldsError>)
        requires
            refinements_in_range(old(self).objects@.len() as nat, refinements_view(subtype_to_supertypes@)),
        ensures
            (final(self)@, error_view(r)) == spec_add_object_selectables(
                old(self)@,
                refinements_view(subtype_to_supertypes@),
                0,
            ),
            objects_fields_unique(old(self)@.objects) ==> objects_fields_unique(final(self)@.objects),
    {
        proof {
            if objects_fields_unique(self@.objects) {
                lemma_add_object_selectables_unique(self@, refinements_view(subtype_to_supertypes@), 0);
            }
        }
        let ghost refs = refinements_view(subtype_to_supertypes@);
        let mut i: usize = 0;
        while i < subtype_to_supertypes.len()
            invariant
                refs == refinements_view(subtype_to_supertypes@),
                refs.len() == subtype_to_supertypes.len(),
                i <= refs.len(),
                self@.objects.len() == old(self)@.objects.len(),
                refinements_in_range(self@.objects.len() as nat, refs),
                spec_add_object_selectables(old(self)@, refs, 0) == spec_add_object_selectables(self@, refs, i as int),
            decreases refs.len() - i,
        {
            let subtype = subtype_to_supertypes[i].0;
            let supertypes = &subtype_to_supertypes[i].1;
            proof {
                assert(refs[i as int].0 == subtype);
            }
            let ghost s_i = self@;
            let mut j: usize = 0;
            while j < supertypes.len()
                invariant
                    refs == refinements_view(subtype_to_supertypes@),
                    0 <= i < refs.len(),
                    refs[i as int].0 == subtype,
                    supertypes@ == refs[i as int].1,
                    j <= supertypes.len(),
                    self@.objects.len() == s_i.objects.len(),
                    s_i.objects.len() == old(self)@.objects.len(),
                    self@.objects[subtype as int].name == s_i.objects[subtype as int].name,
                    refinements_in_range(s_i.objects.len() as nat, refs),
                    spec_add_object_selectables(old(self)@, refs, 0) == spec_add_object_selectables(s_i, refs, i as int),
                    spec_add_subtype_selectables(s_i, subtype, refs[i as int].1, 0) == spec_add_subtype_selectables(self@, subtype, refs[i as int].1, j as int),
                decreases supertypes.len() - j,
            {
                let supertype = supertypes[j];
                proof {
                    assert(refs[i as int].1[j as int] == supertype);
                }
                let ghost before = self@;
                let field_name = concat("as", self.objects[subtype].name.as_str());
                let first = concat("A client pointer for the ", self.objects[subtype].name.as_str());
                let description = concat(first.as_str(), " type.");
                let next_id = self.server_object_selectables.len();
                let selectable = ServerObjectSelectable {
                    description: Some(description),
                    name: field_name.clone(),
                    parent_type_id: supertype,
                    target_object_entity: subtype,
                    inline_fragment: None,
                };
                proof {
                    assert(selectable.view() == subtype_selectable(before, subtype, supertype));
                }
                self.server_object_selectables.push(selectable);
                let location = DefinitionLocation::ServerObject(next_id);
                let existed = insert_field_exec(&mut self.objects[supertype].encountered_fields, &field_name, location);
                proof {
                    let o = before.objects[supertype as int];
                    let inserted = insert_field(o.fields, field_name@, location);
                    assert(self@.objects =~= before.objects.update(supertype as int, ObjectView { fields: inserted.0, ..o }));
                    assert(self@.selectables =~= before.selectables.push(subtype_selectable(before, subtype, supertype)));
                }
                if existed {
                    let parent_type = self.objects[supertype].name.clone();
                    return Err(CreateAdditionalFieldsError::CompilerCreatedFieldExistsOnType { field_name, parent_type });
                }
                j += 1;
            }
            i += 1;
        }
        Ok(())
    }
}

} // verus!
