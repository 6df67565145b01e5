use vstd::prelude::*;

use crate::merged_selections::{
    agrees_deep, args_equal, entry_agrees, has_key, key_index, key_index_from, keys_unique, sel_agrees_deep, lemma_key_index_from, lemma_unique_push_or_update, key_view, keys_equal, lemma_map_view, lemma_map_view_push,
    map_view, maybe_add_typename_selection, sel_view, merge_server_scalar_field, scalar_key_of, transform_args,
    transform_args_exec, transform_key_exec, ArgumentKeyAndValue, KeyView, MergedScalarFieldSelection,
    MergedSelectionMap, MergedServerSelection, NameAndArguments, NormalizationKey,
    ScalarSelectionModel, SelView, TraversalState, VariableContext, WellKnownNames,
};

verus! {

/// A client selectable, by the entity it is on, its name, and whether it is a client pointer.
#[derive(Clone, Copy, Debug, PartialEq, Eq, Structural)]
pub struct ClientSelectableRef {
    pub parent: u64,
    pub name: u64,
    pub is_object: bool,
}

/// How a field is loaded imperatively: the client selection it loads, the root entity of the
/// query that loads it, and, when the query goes through `node(id: $id)`, the concrete type it
/// refines to there.
#[derive(Clone, Copy, Debug, PartialEq, Eq, Structural)]
pub struct ImperativeVariantModel {
    pub client_selection_name: u64,
    pub root_object_entity_name: u64,
    pub via_node: bool,
    pub refine_to: Option<u64>,
}

/// The kind of a client field.
#[derive(Clone, Copy, Debug, PartialEq, Eq, Structural)]
pub enum ClientScalarVariantModel {
    Link,
    UserWritten,
    ImperativelyLoaded(ImperativeVariantModel),
}

/// What a selectable is: a server scalar, a server object (its target entity, and whether
/// selecting it refines to that entity inline), a client field, or a client pointer (its
/// target entity).
#[derive(Clone, Copy, Debug, PartialEq, Eq, Structural)]
pub enum MergeSelectableKind {
    ServerScalar,
    ServerObject { target: u64, inline_fragment: bool },
    ClientScalar(ClientScalarVariantModel),
    ClientObject { target: u64 },
}

/// A selectable of the schema: the entity it is on, its name, and what it is.
#[derive(Clone, Copy, Debug, PartialEq, Eq, Structural)]
pub struct MergeSelectableEntry {
    pub parent: u64,
    pub name: u64,
    pub kind: MergeSelectableKind,
}

/// An object entity of the schema: its name, whether it is concrete, and the name of its id
/// field, if it has one.
#[derive(Clone, Copy, Debug, PartialEq, Eq, Structural)]
pub struct MergeEntityEntry {
    pub name: u64,
    pub concrete: bool,
    pub id_field: Option<u64>,
}

/// What a merge looks up in the schema: the selectables, the object entities, the root entity
/// of queries, the name of the link field, and the typename and id field names.
#[derive(Debug, PartialEq, Eq)]
pub struct MergeSchema {
    pub selectables: Vec<MergeSelectableEntry>,
    pub entities: Vec<MergeEntityEntry>,
    pub query_entity: u64,
    pub link_name: u64,
    pub names: WellKnownNames,
}

/// The field at the end of a refetch path: a client field by name, or a client pointer with
/// its arguments.
#[derive(Debug, PartialEq, Eq)]
pub enum RefetchFieldName {
    Scalar(u64),
    Object(NameAndArguments),
}

/// A path to a refetched field: the keys of the linked fields leading to it, and the field.
#[derive(Debug, PartialEq, Eq)]
pub struct RefetchPathModel {
    pub linked_fields: Vec<NormalizationKey>,
    pub field_name: RefetchFieldName,
}

/// What is refetched at a path: the field, the concrete type to refine to around it when its
/// own type is abstract, the client selectable, and how it is loaded.
#[derive(Clone, Copy, Debug, PartialEq, Eq, Structural)]
pub struct RootRefetchedPathModel {
    pub field_name: u64,
    pub wrap_refetch_field_with_inline_fragment: Option<u64>,
    pub client_selectable: ClientSelectableRef,
    pub imperatively_loaded_field_variant: ImperativeVariantModel,
}

/// A selection of a reader: a scalar, or an object with its own selections.
#[derive(Debug, PartialEq, Eq)]
pub enum MergeSelectionModel {
    Scalar(ScalarSelectionModel),
    Object(ObjectSelectionModel),
}

/// An object selection: its field's name, its arguments, whether it is marked updatable, and
/// its selections.
#[derive(Debug, PartialEq, Eq)]
pub struct ObjectSelectionModel {
    pub name: u64,
    pub arguments: Vec<ArgumentKeyAndValue>,
    pub updatable: bool,
    pub selection_set: Vec<MergeSelectionModel>,
}

pub enum RefetchField {
    Scalar(u64),
    Object(u64, Seq<ArgumentKeyAndValue>),
}

pub struct RefetchKeyView {
    pub path: Seq<KeyView>,
    pub field: RefetchField,
}

pub struct StateView {
    pub has_updatable: bool,
    pub path: Seq<KeyView>,
    pub refetch: Seq<(RefetchKeyView, RootRefetchedPathModel)>,
    pub accessible: Seq<ClientSelectableRef>,
}

pub enum MSelView {
    Scalar { name: u64, arguments: Seq<ArgumentKeyAndValue>, updatable: bool },
    Object { name: u64, arguments: Seq<ArgumentKeyAndValue>, updatable: bool, set: Seq<MSelView> },
}

pub struct SchemaTables {
    pub selectables: Seq<MergeSelectableEntry>,
    pub entities: Seq<MergeEntityEntry>,
    pub query_entity: u64,
    pub link_name: u64,
    pub names: WellKnownNames,
}

pub open spec fn keys_view(v: Seq<NormalizationKey>) -> Seq<KeyView> {
    Seq::new(v.len(), |i: int| key_view(v[i]))
}

pub open spec fn field_view(f: RefetchFieldName) -> RefetchField {
    match f {
        RefetchFieldName::Scalar(n) => RefetchField::Scalar(n),
        RefetchFieldName::Object(na) => RefetchField::Object(na.name, na.arguments@),
    }
}

pub open spec fn refetch_key_view(p: RefetchPathModel) -> RefetchKeyView {
    RefetchKeyView { path: keys_view(p.linked_fields@), field: field_view(p.field_name) }
}

pub open spec fn refetch_view(v: Seq<(RefetchPathModel, RootRefetchedPathModel)>) -> Seq<(RefetchKeyView, RootRefetchedPathModel)> {
    Seq::new(v.len(), |i: int| (refetch_key_view(v[i].0), v[i].1))
}

pub open spec fn state_view(s: TraversalState) -> StateView {
    StateView {
        has_updatable: s.has_updatable,
        path: keys_view(s.traversal_path@),
        refetch: refetch_view(s.refetch_paths@),
        accessible: s.accessible_client_scalar_selectables@,
    }
}

pub open spec fn tables_view(s: MergeSchema) -> SchemaTables {
    SchemaTables {
        selectables: s.selectables@,
        entities: s.entities@,
        query_entity: s.query_entity,
        link_name: s.link_name,
        names: s.names,
    }
}

pub open spec fn msel_view(s: MergeSelectionModel) -> MSelView
    decreases s, 1int,
{
    match s {
        MergeSelectionModel::Scalar(x) => MSelView::Scalar { name: x.name, arguments: x.arguments@, updatable: x.updatable },
        MergeSelectionModel::Object(o) => obj_view(o),
    }
}

pub open spec fn obj_view(o: ObjectSelectionModel) -> MSelView
    decreases o, 0int,
{
    MSelView::Object { name: o.name, arguments: o.arguments@, updatable: o.updatable, set: set_view(o.selection_set@) }
}

pub open spec fn set_view(v: Seq<MergeSelectionModel>) -> Seq<MSelView>
    decreases v, 2int,
{
    if v.len() == 0 {
        seq![]
    } else {
        set_view(v.subrange(0, v.len() - 1)).push(msel_view(v[v.len() - 1]))
    }
}

pub open spec fn with_updatable(st: StateView, updatable: bool) -> StateView {
    StateView { has_updatable: st.has_updatable || updatable, ..st }
}

pub open spec fn with_path(st: StateView, path: Seq<KeyView>) -> StateView {
    StateView { path, ..st }
}

/// The path with its last key taken off, as a pop does; an empty path stays empty.
pub open spec fn popped(p: Seq<KeyView>) -> Seq<KeyView> {
    if p.len() > 0 {
        p.drop_last()
    } else {
        p
    }
}

/// Adds a client selectable to the accessible ones, unless it is there already.
pub open spec fn accessible_insert(a: Seq<ClientSelectableRef>, x: ClientSelectableRef) -> Seq<ClientSelectableRef> {
    if a.contains(x) {
        a
    } else {
        a.push(x)
    }
}

pub open spec fn refetch_index_from(r: Seq<(RefetchKeyView, RootRefetchedPathModel)>, k: RefetchKeyView, j: int) -> Option<int>
    decreases r.len() - j,
{
    if j < 0 || j >= r.len() {
        None
    } else if r[j].0 == k {
        Some(j)
    } else {
        refetch_index_from(r, k, j + 1)
    }
}

/// Records what is refetched at a path: replaces what the path held, or adds the path.
pub open spec fn refetch_insert(
    r: Seq<(RefetchKeyView, RootRefetchedPathModel)>,
    k: RefetchKeyView,
    v: RootRefetchedPathModel,
) -> Seq<(RefetchKeyView, RootRefetchedPathModel)> {
    match refetch_index_from(r, k, 0) {
        Some(j) => r.update(j, (r[j].0, v)),
        None => r.push((k, v)),
    }
}

/// The first selectable named `name` on `parent`, from the `k`-th on.
pub open spec fn selectable_from(t: Seq<MergeSelectableEntry>, parent: u64, name: u64, k: int) -> Option<MergeSelectableEntry>
    decreases t.len() - k,
{
    if k < 0 || k >= t.len() {
        None
    } else if t[k].parent == parent && t[k].name == name {
        Some(t[k])
    } else {
        selectable_from(t, parent, name, k + 1)
    }
}

/// The first object entity named `name`, from the `k`-th on.
pub open spec fn entity_from(t: Seq<MergeEntityEntry>, name: u64, k: int) -> Option<MergeEntityEntry>
    decreases t.len() - k,
{
    if k < 0 || k >= t.len() {
        None
    } else if t[k].name == name {
        Some(t[k])
    } else {
        entity_from(t, name, k + 1)
    }
}

/// A server scalar selection merged into a map: `None` where a key of the selection holds
/// something other than a scalar.
pub open spec fn merge_server_scalar(
    m: Seq<(KeyView, SelView)>,
    st: StateView,
    name: u64,
    arguments: Seq<ArgumentKeyAndValue>,
    updatable: bool,
    parent: u64,
    ctx: Seq<(u64, crate::merged_selections::ArgValue)>,
    names: WellKnownNames,
) -> Option<(Seq<(KeyView, SelView)>, StateView)> {
    let key = scalar_key_of(name, arguments, ctx, names);
    let st1 = with_updatable(st, updatable);
    match key_index_from(m, key, 0) {
        Some(j) => if m[j].1 is Scalar {
            Some((m, st1))
        } else {
            None
        },
        None => Some((m.push((key, SelView::Scalar { parent, name, arguments: transform_args(arguments, ctx) })), st1)),
    }
}

/// A client field selected on `parent`: an imperatively loaded one is recorded as refetched at
/// the current path; every one becomes accessible.
pub open spec fn merge_client_scalar(st: StateView, entry: MergeSelectableEntry, variant: ClientScalarVariantModel, parent: u64) -> StateView {
    let st1 = match variant {
        ClientScalarVariantModel::ImperativelyLoaded(v) => StateView {
            refetch: refetch_insert(
                st.refetch,
                RefetchKeyView { path: st.path, field: RefetchField::Scalar(entry.name) },
                RootRefetchedPathModel {
                    field_name: entry.name,
                    wrap_refetch_field_with_inline_fragment: if parent != entry.parent {
                        Some(parent)
                    } else {
                        None
                    },
                    client_selectable: ClientSelectableRef { parent: entry.parent, name: entry.name, is_object: false },
                    imperatively_loaded_field_variant: v,
                },
            ),
            ..st
        },
        _ => st,
    };
    StateView {
        accessible: accessible_insert(st1.accessible, ClientSelectableRef { parent, name: entry.name, is_object: false }),
        ..st1
    }
}

/// A scalar selection on `parent` merged: a server selectable as a server scalar, a client
/// field as a client field; `None` where the selectable does not exist or is a client pointer,
/// or where the server scalar's key holds something other than a scalar.
pub open spec fn merge_scalar_selection(
    m: Seq<(KeyView, SelView)>,
    st: StateView,
    name: u64,
    arguments: Seq<ArgumentKeyAndValue>,
    updatable: bool,
    parent: u64,
    ctx: Seq<(u64, crate::merged_selections::ArgValue)>,
    t: SchemaTables,
) -> Option<(Seq<(KeyView, SelView)>, StateView)> {
    match selectable_from(t.selectables, parent, name, 0) {
        None => None,
        Some(e) => match e.kind {
            MergeSelectableKind::ServerScalar => merge_server_scalar(m, st, name, arguments, updatable, parent, ctx, t.names),
            MergeSelectableKind::ServerObject { .. } => merge_server_scalar(m, st, name, arguments, updatable, parent, ctx, t.names),
            MergeSelectableKind::ClientScalar(v) => Some((m, merge_client_scalar(st, e, v, parent))),
            MergeSelectableKind::ClientObject { .. } => None,
        },
    }
}

/// The typename of an abstract entity and the id of an entity that has one, selected in its
/// map; `None` where the entity does not exist or its id's key holds something other than a
/// scalar.
pub open spec fn select_typename_and_id(m: Seq<(KeyView, SelView)>, parent: u64, t: SchemaTables) -> Option<Seq<(KeyView, SelView)>> {
    match entity_from(t.entities, parent, 0) {
        None => None,
        Some(e) => {
            let typename = SelView::Scalar { parent, name: t.names.typename, arguments: seq![] };
            let m1 = if !e.concrete {
                match key_index_from(m, KeyView::Discriminator, 0) {
                    Some(j) => m.update(j, (KeyView::Discriminator, typename)),
                    None => m.push((KeyView::Discriminator, typename)),
                }
            } else {
                m
            };
            match e.id_field {
                None => Some(m1),
                Some(id) => match key_index_from(m1, KeyView::Id, 0) {
                    Some(j) => if m1[j].1 is Scalar {
                        Some(m1)
                    } else {
                        None
                    },
                    None => Some(m1.push((KeyView::Id, SelView::Scalar { parent, name: id, arguments: seq![] }))),
                },
            }
        },
    }
}

fn find_selectable(t: &Vec<MergeSelectableEntry>, parent: u64, name: u64) -> (r: Option<MergeSelectableEntry>)
    ensures
        r == selectable_from(t@, parent, name, 0),
{
    let mut k: usize = 0;
    while k < t.len()
        invariant
            k <= t.len(),
            selectable_from(t@, parent, name, 0) == selectable_from(t@, parent, name, k as int),
        decreases t.len() - k,
    {
        if t[k].parent == parent && t[k].name == name {
            return Some(t[k]);
        }
        k += 1;
    }
    None
}

fn find_entity(t: &Vec<MergeEntityEntry>, name: u64) -> (r: Option<MergeEntityEntry>)
    ensures
        r == entity_from(t@, name, 0),
{
    let mut k: usize = 0;
    while k < t.len()
        invariant
            k <= t.len(),
            entity_from(t@, name, 0) == entity_from(t@, name, k as int),
        decreases t.len() - k,
    {
        if t[k].name == name {
            return Some(t[k]);
        }
        k += 1;
    }
    None
}

fn copy_args(a: &Vec<ArgumentKeyAndValue>) -> (r: Vec<ArgumentKeyAndValue>)
    ensures
        r@ == a@,
{
    let mut r: Vec<ArgumentKeyAndValue> = Vec::new();
    let mut i: usize = 0;
    while i < a.len()
        invariant
            i <= a.len(),
            r@ == a@.subrange(0, i as int),
        decreases a.len() - i,
    {
        r.push(a[i]);
        proof {
            assert(r@ =~= a@.subrange(0, i + 1));
        }
        i += 1;
    }
    proof {
        assert(a@.subrange(0, a@.len() as int) =~= a@);
    }
    r
}

fn copy_key(k: &NormalizationKey) -> (r: NormalizationKey)
    ensures
        key_view(r) == key_view(*k),
{
    match k {
        NormalizationKey::Discriminator => NormalizationKey::Discriminator,
        NormalizationKey::Id => NormalizationKey::Id,
        NormalizationKey::ServerField(n) => NormalizationKey::ServerField(NameAndArguments { name: n.name, arguments: copy_args(&n.arguments) }),
        NormalizationKey::ClientPointer(n) => NormalizationKey::ClientPointer(NameAndArguments { name: n.name, arguments: copy_args(&n.arguments) }),
        NormalizationKey::InlineFragment(o) => NormalizationKey::InlineFragment(*o),
    }
}

fn copy_path(p: &Vec<NormalizationKey>) -> (r: Vec<NormalizationKey>)
    ensures
        keys_view(r@) == keys_view(p@),
{
    let mut r: Vec<NormalizationKey> = Vec::new();
    let mut i: usize = 0;
    while i < p.len()
        invariant
            i <= p.len(),
            r@.len() == i,
            forall|k: int| 0 <= k < i ==> key_view(#[trigger] r@[k]) == key_view(p@[k]),
        decreases p.len() - i,
    {
        r.push(copy_key(&p[i]));
        i += 1;
    }
    proof {
        assert(keys_view(r@) =~= keys_view(p@));
    }
    r
}

fn paths_equal(a: &Vec<NormalizationKey>, b: &Vec<NormalizationKey>) -> (r: bool)
    ensures
        r == (keys_view(a@) == keys_view(b@)),
{
    if a.len() != b.len() {
        proof {
            assert(keys_view(a@).len() != keys_view(b@).len());
        }
        return false;
    }
    let mut i: usize = 0;
    while i < a.len()
        invariant
            a.len() == b.len(),
            i <= a.len(),
            forall|k: int| 0 <= k < i ==> key_view(#[trigger] a@[k]) == key_view(b@[k]),
        decreases a.len() - i,
    {
        if !keys_equal(&a[i], &b[i]) {
            proof {
                assert(keys_view(a@)[i as int] != keys_view(b@)[i as int]);
            }
            return false;
        }
        i += 1;
    }
    proof {
        assert(keys_view(a@) =~= keys_view(b@));
    }
    true
}

fn refetch_keys_equal(a: &RefetchPathModel, b: &RefetchPathModel) -> (r: bool)
    ensures
        r == (refetch_key_view(*a) == refetch_key_view(*b)),
{
    let same_field = match (&a.field_name, &b.field_name) {
        (RefetchFieldName::Scalar(x), RefetchFieldName::Scalar(y)) => *x == *y,
        (RefetchFieldName::Object(x), RefetchFieldName::Object(y)) => x.name == y.name && args_equal(&x.arguments, &y.arguments),
        _ => false,
    };
    same_field && paths_equal(&a.linked_fields, &b.linked_fields)
}

/// Records what is refetched at a path, replacing what the path held.
fn insert_refetch_path(st: &mut TraversalState, path: RefetchPathModel, value: RootRefetchedPathModel)
    ensures
        state_view(*final(st)) == (StateView {
            refetch: refetch_insert(state_view(*old(st)).refetch, refetch_key_view(path), value),
            ..state_view(*old(st))
        }),
{
    let ghost r0 = refetch_view(st.refetch_paths@);
    let ghost k = refetch_key_view(path);
    let mut j: usize = 0;
    while j < st.refetch_paths.len()
        invariant
            r0 == refetch_view(st.refetch_paths@),
            k == refetch_key_view(path),
            st.refetch_paths@ == old(st).refetch_paths@,
            *st == *old(st),
            j <= st.refetch_paths.len(),
            refetch_index_from(r0, k, 0) == refetch_index_from(r0, k, j as int),
        decreases st.refetch_paths.len() - j,
    {
        proof {
            assert(r0[j as int].0 == refetch_key_view(st.refetch_paths@[j as int].0));
        }
        if refetch_keys_equal(&st.refetch_paths[j].0, &path) {
            proof {
                assert(refetch_index_from(r0, k, j as int) == Some(j as int));
            }
            let (p, _) = st.refetch_paths.remove(j);
            st.refetch_paths.insert(j, (p, value));
            proof {
                assert(refetch_view(st.refetch_paths@) =~= r0.update(j as int, (r0[j as int].0, value)));
            }
            return;
        }
        proof {
            assert(r0[j as int].0 != k);
            assert(refetch_index_from(r0, k, j as int) == refetch_index_from(r0, k, j + 1));
        }
        j += 1;
    }
    st.refetch_paths.push((path, value));
    proof {
        assert(refetch_view(st.refetch_paths@) =~= r0.push((k, value)));
    }
}

/// Adds a client selectable to the accessible ones, unless it is there already.
fn insert_accessible(st: &mut TraversalState, x: ClientSelectableRef)
    ensures
        state_view(*final(st)) == (StateView {
            accessible: accessible_insert(state_view(*old(st)).accessible, x),
            ..state_view(*old(st))
        }),
{
    let mut j: usize = 0;
    while j < st.accessible_client_scalar_selectables.len()
        invariant
            *st == *old(st),
            j <= st.accessible_client_scalar_selectables.len(),
            forall|k: int| 0 <= k < j ==> st.accessible_client_scalar_selectables@[k] != x,
        decreases st.accessible_client_scalar_selectables.len() - j,
    {
        if st.accessible_client_scalar_selectables[j] == x {
            return;
        }
        j += 1;
    }
    st.accessible_client_scalar_selectables.push(x);
}

/// Merges a client field selected on `parent` into the traversal: an imperatively loaded one is
/// recorded as refetched at the current path, with a refinement to `parent` where the field is
/// defined on another entity; every one is noted as accessible.
pub fn merge_client_scalar_field(
    merge_traversal_state: &mut TraversalState,
    selectable: MergeSelectableEntry,
    variant: ClientScalarVariantModel,
    parent_object_entity_name: u64,
)
    ensures
        state_view(*final(merge_traversal_state)) == merge_client_scalar(
            state_view(*old(merge_traversal_state)),
            selectable,
            variant,
            parent_object_entity_name,
        ),
{
    match variant {
        ClientScalarVariantModel::ImperativelyLoaded(v) => {
            insert_imperative_field_into_refetch_paths(merge_traversal_state, selectable, v, parent_object_entity_name);
        },
        _ => {},
    }
    insert_accessible(
        merge_traversal_state,
        ClientSelectableRef { parent: parent_object_entity_name, name: selectable.name, is_object: false },
    );
}

/// Records an imperatively loaded client field as refetched at the current path.
pub fn insert_imperative_field_into_refetch_paths(
    merge_traversal_state: &mut TraversalState,
    selectable: MergeSelectableEntry,
    variant: ImperativeVariantModel,
    parent_object_entity_name: u64,
)
    ensures
        state_view(*final(merge_traversal_state)) == (StateView {
            refetch: refetch_insert(
                state_view(*old(merge_traversal_state)).refetch,
                RefetchKeyView { path: state_view(*old(merge_traversal_state)).path, field: RefetchField::Scalar(selectable.name) },
                RootRefetchedPathModel {
                    field_name: selectable.name,
                    wrap_refetch_field_with_inline_fragment: if parent_object_entity_name != selectable.parent {
                        Some(parent_object_entity_name)
                    } else {
                        None
                    },
                    client_selectable: ClientSelectableRef { parent: selectable.parent, name: selectable.name, is_object: false },
                    imperatively_loaded_field_variant: variant,
                },
            ),
            ..state_view(*old(merge_traversal_state))
        }),
{
    let path = RefetchPathModel {
        linked_fields: copy_path(&merge_traversal_state.traversal_path),
        field_name: RefetchFieldName::Scalar(selectable.name),
    };
    let info = RootRefetchedPathModel {
        field_name: selectable.name,
        wrap_refetch_field_with_inline_fragment: if parent_object_entity_name != selectable.parent {
            Some(parent_object_entity_name)
        } else {
            None
        },
        client_selectable: ClientSelectableRef { parent: selectable.parent, name: selectable.name, is_object: false },
        imperatively_loaded_field_variant: variant,
    };
    insert_refetch_path(merge_traversal_state, path, info);
}

/// Merges a scalar selection on `parent`: a server selectable as a server scalar field, a
/// client field as a client field.
fn merge_scalar_selection_exec(
    parent_map: &mut MergedSelectionMap,
    st: &mut TraversalState,
    selection: &ScalarSelectionModel,
    parent: u64,
    ctx: &VariableContext,
    schema: &MergeSchema,
)
    requires
        merge_scalar_selection(
            map_view(old(parent_map).0@),
            state_view(*old(st)),
            selection.name,
            selection.arguments@,
            selection.updatable,
            parent,
            ctx.0@,
            tables_view(*schema),
        ) is Some,
    ensures
        (map_view(final(parent_map).0@), state_view(*final(st))) == merge_scalar_selection(
            map_view(old(parent_map).0@),
            state_view(*old(st)),
            selection.name,
            selection.arguments@,
            selection.updatable,
            parent,
            ctx.0@,
            tables_view(*schema),
        ).unwrap(),
{
    let e = find_selectable(&schema.selectables, parent, selection.name).unwrap();
    match e.kind {
        MergeSelectableKind::ClientScalar(v) => {
            merge_client_scalar_field(st, e, v, parent);
        },
        _ => {
            merge_server_scalar_field(selection, parent_map, ctx, st, parent, &schema.names);
        },
    }
}

/// Selects the typename of `parent` where it is abstract, and its id where it has one.
pub fn select_typename_and_id_fields_in_merged_selection(
    merged_selection_map: &mut MergedSelectionMap,
    parent_object_entity_name: u64,
    schema: &MergeSchema,
)
    requires
        select_typename_and_id(map_view(old(merged_selection_map).0@), parent_object_entity_name, tables_view(*schema)) is Some,
    ensures
        map_view(final(merged_selection_map).0@) == select_typename_and_id(
            map_view(old(merged_selection_map).0@),
            parent_object_entity_name,
            tables_view(*schema),
        ).unwrap(),
        keys_unique(map_view(old(merged_selection_map).0@)) ==> keys_unique(map_view(final(merged_selection_map).0@)),
{
    proof {
        if keys_unique(map_view(merged_selection_map.0@)) {
            lemma_select_unique(map_view(merged_selection_map.0@), parent_object_entity_name, tables_view(*schema));
        }
    }
    let e = find_entity(&schema.entities, parent_object_entity_name).unwrap();
    if !e.concrete {
        maybe_add_typename_selection(merged_selection_map, parent_object_entity_name, &schema.names);
    }
    match e.id_field {
        None => {},
        Some(id) => {
            match key_index(merged_selection_map, &NormalizationKey::Id) {
                Some(_) => {},
                None => {
                    let selection = MergedServerSelection::ScalarField(
                        MergedScalarFieldSelection { parent_object_entity_name, name: id, arguments: Vec::new() },
                    );
                    let ghost before = merged_selection_map.0@;
                    merged_selection_map.0.push((NormalizationKey::Id, selection));
                    proof {
                        lemma_map_view_push(before, (NormalizationKey::Id, selection));
                    }
                },
            }
        },
    }
}

proof fn lemma_set_view(v: Seq<MergeSelectionModel>)
    ensures
        set_view(v).len() == v.len(),
        forall|i: int| 0 <= i < v.len() ==> #[trigger] set_view(v)[i] == msel_view(v[i]),
    decreases v.len(),
{
    if v.len() > 0 {
        lemma_set_view(v.subrange(0, v.len() - 1));
    }
}

/// The map with an entry under `key`: as it is where the key is there, else with `fresh`
/// added under it.
pub open spec fn with_entry(m: Seq<(KeyView, SelView)>, key: KeyView, fresh: SelView) -> Seq<(KeyView, SelView)> {
    match key_index_from(m, key, 0) {
        Some(_) => m,
        None => m.push((key, fresh)),
    }
}

/// Where the entry under `key` is in `with_entry(m, key, ..)`.
pub open spec fn entry_index(m: Seq<(KeyView, SelView)>, key: KeyView) -> int {
    match key_index_from(m, key, 0) {
        Some(j) => j,
        None => m.len() as int,
    }
}

/// The selections of the reader of an inline fragment, `__typename` and the link field,
/// merged on `target`, then its typename and id selected.
pub open spec fn merge_inline_fragment_reader(
    m: Seq<(KeyView, SelView)>,
    st: StateView,
    target: u64,
    ctx: Seq<(u64, crate::merged_selections::ArgValue)>,
    t: SchemaTables,
) -> Option<(Seq<(KeyView, SelView)>, StateView)> {
    match merge_scalar_selection(m, st, t.names.typename, seq![], false, target, ctx, t) {
        None => None,
        Some((m1, s1)) => match merge_scalar_selection(m1, s1, t.link_name, seq![], false, target, ctx, t) {
            None => None,
            Some((m2, s2)) => match select_typename_and_id(m2, target, t) {
                None => None,
                Some(m3) => Some((m3, s2)),
            },
        },
    }
}

/// The selections of a set, from the `i`-th on, merged on `parent`, then the typename and id
/// of `parent` selected; `None` where a merge meets an inconsistency it cannot go past.
pub open spec fn merge_set(
    m: Seq<(KeyView, SelView)>,
    st: StateView,
    set: Seq<MSelView>,
    i: int,
    parent: u64,
    ctx: Seq<(u64, crate::merged_selections::ArgValue)>,
    t: SchemaTables,
) -> Option<(Seq<(KeyView, SelView)>, StateView)>
    decreases set, set.len() - i,
{
    if 0 <= i < set.len() {
        match merge_one(m, st, set[i], parent, ctx, t) {
            Some((m1, st1)) => merge_set(m1, st1, set, i + 1, parent, ctx, t),
            None => None,
        }
    } else {
        match select_typename_and_id(m, parent, t) {
            Some(m1) => Some((m1, st)),
            None => None,
        }
    }
}

/// One selection merged on `parent`: a scalar as `merge_scalar_selection` says; an object
/// selection of a server object or of a client pointer merged with its own selections, the
/// traversal path popped after it.
pub open spec fn merge_one(
    m: Seq<(KeyView, SelView)>,
    st: StateView,
    sel: MSelView,
    parent: u64,
    ctx: Seq<(u64, crate::merged_selections::ArgValue)>,
    t: SchemaTables,
) -> Option<(Seq<(KeyView, SelView)>, StateView)>
    decreases sel, 1int,
{
    match sel {
        MSelView::Scalar { name, arguments, updatable } => merge_scalar_selection(m, st, name, arguments, updatable, parent, ctx, t),
        MSelView::Object { name, .. } => match selectable_from(t.selectables, parent, name, 0) {
            None => None,
            Some(e) => {
                let merged = match e.kind {
                    MergeSelectableKind::ServerObject { target, inline_fragment } => merge_server_object(
                        m,
                        st,
                        sel,
                        e,
                        target,
                        inline_fragment,
                        ctx,
                        t,
                    ),
                    MergeSelectableKind::ClientObject { target } => insert_client_object(
                        m,
                        merge_client_object(st, e, target, parent, t),
                        sel,
                        e,
                        target,
                        ctx,
                        t,
                    ),
                    _ => None,
                };
                match merged {
                    Some((m1, st1)) => Some((m1, with_path(st1, popped(st1.path)))),
                    None => None,
                }
            },
        },
    }
}

/// A client pointer selected on `parent` makes itself, and the link field of its target,
/// accessible.
pub open spec fn merge_client_object(st: StateView, e: MergeSelectableEntry, target: u64, parent: u64, t: SchemaTables) -> StateView {
    let a1 = accessible_insert(st.accessible, ClientSelectableRef { parent, name: e.name, is_object: true });
    StateView {
        accessible: accessible_insert(a1, ClientSelectableRef { parent: target, name: t.link_name, is_object: false }),
        ..st
    }
}

/// A server object selection merged: an inline fragment on the target, or a linked field
/// under the selection's name and arguments, created where missing and merged with the
/// selections; the key goes onto the traversal path.
pub open spec fn merge_server_object(
    m: Seq<(KeyView, SelView)>,
    st: StateView,
    sel: MSelView,
    e: MergeSelectableEntry,
    target: u64,
    inline_fragment: bool,
    ctx: Seq<(u64, crate::merged_selections::ArgValue)>,
    t: SchemaTables,
) -> Option<(Seq<(KeyView, SelView)>, StateView)>
    decreases sel, 0int,
{
    match sel {
        MSelView::Object { name, arguments, updatable, set } => match entity_from(t.entities, target, 0) {
            None => None,
            Some(te) => {
                let st1 = with_updatable(st, updatable);
                if inline_fragment {
                    let key = KeyView::InlineFragment(target);
                    let st2 = with_path(st1, st1.path.push(key));
                    let m1 = with_entry(m, key, SelView::Inline { refine: target, map: seq![] });
                    let j = entry_index(m, key);
                    match m1[j].1 {
                        SelView::Inline { refine, map } => match merge_inline_fragment_reader(map, st2, target, ctx, t) {
                            None => None,
                            Some((inner1, st3)) => match merge_set(inner1, st3, set, 0, target, ctx, t) {
                                None => None,
                                Some((inner2, st4)) => Some((m1.update(j, (m1[j].0, SelView::Inline { refine, map: inner2 })), st4)),
                            },
                        },
                        _ => None,
                    }
                } else {
                    let targs = transform_args(arguments, ctx);
                    let key = KeyView::ServerField(name, targs);
                    let st2 = with_path(st1, st1.path.push(key));
                    let fresh = SelView::Linked {
                        parent: e.parent,
                        name,
                        map: seq![],
                        arguments: targs,
                        concrete: if te.concrete {
                            Some(target)
                        } else {
                            None
                        },
                    };
                    let m1 = with_entry(m, key, fresh);
                    let j = entry_index(m, key);
                    match m1[j].1 {
                        SelView::Linked { parent: p, name: n, map, arguments: a, concrete: c } => match merge_set(
                            map,
                            st2,
                            set,
                            0,
                            target,
                            ctx,
                            t,
                        ) {
                            None => None,
                            Some((inner, st3)) => Some(
                                (m1.update(j, (m1[j].0, SelView::Linked { parent: p, name: n, map: inner, arguments: a, concrete: c })), st3),
                            ),
                        },
                        _ => None,
                    }
                }
            },
        },
        _ => None,
    }
}

/// What is refetched for a client pointer: the pointer, refined to its target where that is
/// abstract, loaded through `node(id: $id)` on the query root, refining there to its target
/// where that is concrete.
pub open spec fn client_object_refetch(e: MergeSelectableEntry, te: MergeEntityEntry, target: u64, t: SchemaTables) -> RootRefetchedPathModel {
    RootRefetchedPathModel {
        field_name: e.name,
        wrap_refetch_field_with_inline_fragment: if te.concrete {
            None
        } else {
            Some(target)
        },
        client_selectable: ClientSelectableRef { parent: e.parent, name: e.name, is_object: true },
        imperatively_loaded_field_variant: ImperativeVariantModel {
            client_selection_name: e.name,
            root_object_entity_name: t.query_entity,
            via_node: true,
            refine_to: if te.concrete {
                Some(te.name)
            } else {
                None
            },
        },
    }
}

/// A client pointer selection: recorded as refetched at the current path, then merged as a
/// client object entry under its name and arguments, created where missing and merged with the
/// selections on its target; the key goes onto the traversal path.
pub open spec fn insert_client_object(
    m: Seq<(KeyView, SelView)>,
    st: StateView,
    sel: MSelView,
    e: MergeSelectableEntry,
    target: u64,
    ctx: Seq<(u64, crate::merged_selections::ArgValue)>,
    t: SchemaTables,
) -> Option<(Seq<(KeyView, SelView)>, StateView)>
    decreases sel, 0int,
{
    match sel {
        MSelView::Object { name, arguments, set, .. } => match entity_from(t.entities, target, 0) {
            None => None,
            Some(te) => {
                let targs = transform_args(arguments, ctx);
                let st1 = StateView {
                    refetch: refetch_insert(
                        st.refetch,
                        RefetchKeyView { path: st.path, field: RefetchField::Object(name, targs) },
                        client_object_refetch(e, te, target, t),
                    ),
                    ..st
                };
                let key = KeyView::ClientPointer(name, targs);
                let st2 = with_path(st1, st1.path.push(key));
                let fresh = SelView::ClientObject {
                    parent: e.parent,
                    name,
                    map: seq![],
                    arguments: targs,
                    concrete: if te.concrete {
                        Some(te.name)
                    } else {
                        None
                    },
                };
                let m1 = with_entry(m, key, fresh);
                let j = entry_index(m, key);
                match m1[j].1 {
                    SelView::ClientObject { parent: p, name: n, map, arguments: a, concrete: c } => match merge_set(
                        map,
                        st2,
                        set,
                        0,
                        target,
                        ctx,
                        t,
                    ) {
                        None => None,
                        Some((inner, st3)) => Some(
                            (m1.update(j, (m1[j].0, SelView::ClientObject { parent: p, name: n, map: inner, arguments: a, concrete: c })), st3),
                        ),
                    },
                    _ => None,
                }
            },
        },
        _ => None,
    }
}

fn push_path(st: &mut TraversalState, key: NormalizationKey)
    ensures
        state_view(*final(st)) == with_path(state_view(*old(st)), state_view(*old(st)).path.push(key_view(key))),
{
    st.traversal_path.push(key);
    proof {
        assert(keys_view(st.traversal_path@) =~= keys_view(old(st).traversal_path@).push(key_view(key)));
    }
}

fn pop_path(st: &mut TraversalState)
    ensures
        state_view(*final(st)) == with_path(state_view(*old(st)), popped(state_view(*old(st)).path)),
{
    let _ = st.traversal_path.pop();
    proof {
        assert(keys_view(st.traversal_path@) =~= popped(keys_view(old(st).traversal_path@)));
    }
}

/// The index of the entry under `key`, added as `fresh` where missing.
fn entry_or_insert(m: &mut MergedSelectionMap, key: NormalizationKey, fresh: MergedServerSelection) -> (j: usize)
    ensures
        map_view(final(m).0@) == with_entry(map_view(old(m).0@), key_view(key), sel_view(fresh)),
        j as int == entry_index(map_view(old(m).0@), key_view(key)),
        j < final(m).0.len(),
{
    proof {
        lemma_map_view(m.0@);
    }
    match key_index(m, &key) {
        Some(j) => j,
        None => {
            let ghost before = m.0@;
            m.0.push((key, fresh));
            proof {
                lemma_map_view_push(before, (key, fresh));
            }
            m.0.len() - 1
        },
    }
}

fn merge_inline_fragment_reader_exec(
    parent_map: &mut MergedSelectionMap,
    st: &mut TraversalState,
    target: u64,
    ctx: &VariableContext,
    schema: &MergeSchema,
)
    requires
        merge_inline_fragment_reader(map_view(old(parent_map).0@), state_view(*old(st)), target, ctx.0@, tables_view(*schema)) is Some,
    ensures
        (map_view(final(parent_map).0@), state_view(*final(st))) == merge_inline_fragment_reader(
            map_view(old(parent_map).0@),
            state_view(*old(st)),
            target,
            ctx.0@,
            tables_view(*schema),
        ).unwrap(),
{
    let typename = ScalarSelectionModel { name: schema.names.typename, arguments: Vec::new(), updatable: false };
    let link = ScalarSelectionModel { name: schema.link_name, arguments: Vec::new(), updatable: false };
    proof {
        assert(typename.arguments@ =~= seq![]);
        assert(link.arguments@ =~= seq![]);
    }
    merge_scalar_selection_exec(parent_map, st, &typename, target, ctx, schema);
    merge_scalar_selection_exec(parent_map, st, &link, target, ctx, schema);
    select_typename_and_id_fields_in_merged_selection(parent_map, target, schema);
}

/// Merges the selections of a set on `parent_object_entity_name` into a selection map, in
/// order: server scalars as server scalar fields, client fields as client fields, server
/// objects as linked fields or inline fragments merged with their own selections, client
/// pointers as client objects recorded as refetched; then selects the entity's typename where
/// it is abstract and its id where it has one.
pub fn merge_selection_set_into_selection_map(
    parent_map: &mut MergedSelectionMap,
    parent_object_entity_name: u64,
    selection_set: &Vec<MergeSelectionModel>,
    merge_traversal_state: &mut TraversalState,
    variable_context: &VariableContext,
    schema: &MergeSchema,
)
    requires
        merge_set(
            map_view(old(parent_map).0@),
            state_view(*old(merge_traversal_state)),
            set_view(selection_set@),
            0,
            parent_object_entity_name,
            variable_context.0@,
            tables_view(*schema),
        ) is Some,
    ensures
        (map_view(final(parent_map).0@), state_view(*final(merge_traversal_state))) == merge_set(
            map_view(old(parent_map).0@),
            state_view(*old(merge_traversal_state)),
            set_view(selection_set@),
            0,
            parent_object_entity_name,
            variable_context.0@,
            tables_view(*schema),
        ).unwrap(),
        keys_view(final(merge_traversal_state).traversal_path@) == keys_view(old(merge_traversal_state).traversal_path@),
        keys_unique(map_view(old(parent_map).0@)) ==> keys_unique(map_view(final(parent_map).0@)),
    decreases selection_set@, 0int,
{
    proof {
        if keys_unique(map_view(parent_map.0@)) {
            lemma_merge_set_unique(
                map_view(parent_map.0@),
                state_view(*merge_traversal_state),
                set_view(selection_set@),
                0,
                parent_object_entity_name,
                variable_context.0@,
                tables_view(*schema),
            );
        }
        lemma_merge_set_keeps_path(
            map_view(parent_map.0@),
            state_view(*merge_traversal_state),
            set_view(selection_set@),
            0,
            parent_object_entity_name,
            variable_context.0@,
            tables_view(*schema),
        );
    }
    let ghost sv = set_view(selection_set@);
    let ghost t = tables_view(*schema);
    let ghost ctx = variable_context.0@;
    let ghost total = merge_set(map_view(parent_map.0@), state_view(*merge_traversal_state), sv, 0, parent_object_entity_name, ctx, t);
    proof {
        lemma_set_view(selection_set@);
    }
    let mut i: usize = 0;
    while i < selection_set.len()
        invariant
            sv == set_view(selection_set@),
            t == tables_view(*schema),
            ctx == variable_context.0@,
            sv.len() == selection_set.len(),
            forall|k: int| 0 <= k < sv.len() ==> #[trigger] sv[k] == msel_view(selection_set@[k]),
            i <= selection_set.len(),
            total == merge_set(map_view(parent_map.0@), state_view(*merge_traversal_state), sv, i as int, parent_object_entity_name, ctx, t),
            total is Some,
        decreases selection_set.len() - i,
    {
        proof {
            assert(sv[i as int] == msel_view(selection_set@[i as int]));
            assert(decreases_to!(selection_set@ => selection_set@[i as int]));
        }
        merge_selection(parent_map, merge_traversal_state, &selection_set[i], parent_object_entity_name, variable_context, schema);
        i += 1;
    }
    select_typename_and_id_fields_in_merged_selection(parent_map, parent_object_entity_name, schema);
}

fn merge_selection(
    parent_map: &mut MergedSelectionMap,
    st: &mut TraversalState,
    selection: &MergeSelectionModel,
    parent: u64,
    ctx: &VariableContext,
    schema: &MergeSchema,
)
    requires
        merge_one(map_view(old(parent_map).0@), state_view(*old(st)), msel_view(*selection), parent, ctx.0@, tables_view(*schema)) is Some,
    ensures
        (map_view(final(parent_map).0@), state_view(*final(st))) == merge_one(
            map_view(old(parent_map).0@),
            state_view(*old(st)),
            msel_view(*selection),
            parent,
            ctx.0@,
            tables_view(*schema),
        ).unwrap(),
    decreases *selection, 1int,
{
    match selection {
        MergeSelectionModel::Scalar(s) => {
            merge_scalar_selection_exec(parent_map, st, s, parent, ctx, schema);
        },
        MergeSelectionModel::Object(o) => {
            let e = find_selectable(&schema.selectables, parent, o.name).unwrap();
            match e.kind {
                MergeSelectableKind::ServerObject { target, inline_fragment } => {
                    merge_server_object_field(parent_map, st, ctx, o, e, target, inline_fragment, schema);
                },
                MergeSelectableKind::ClientObject { target } => {
                    merge_client_object_field(st, e, target, parent, schema);
                    insert_client_object_selectable_into_refetch_paths(parent_map, st, o, e, target, ctx, schema);
                },
                _ => {},
            }
            pop_path(st);
        },
    }
}

/// Notes a client pointer selected on `parent_object_entity_name` as accessible, and the link
/// field of its target with it.
pub fn merge_client_object_field(
    merge_traversal_state: &mut TraversalState,
    selectable: MergeSelectableEntry,
    target: u64,
    parent_object_entity_name: u64,
    schema: &MergeSchema,
)
    ensures
        state_view(*final(merge_traversal_state)) == merge_client_object(
            state_view(*old(merge_traversal_state)),
            selectable,
            target,
            parent_object_entity_name,
            tables_view(*schema),
        ),
{
    insert_accessible(
        merge_traversal_state,
        ClientSelectableRef { parent: parent_object_entity_name, name: selectable.name, is_object: true },
    );
    insert_accessible(merge_traversal_state, ClientSelectableRef { parent: target, name: schema.link_name, is_object: false });
}

/// Merges a server object selection: where the selectable refines inline, into an inline
/// fragment on the target that also reads the target's typename and link; else into a linked
/// field under the selection's name and arguments, whose target is named where it is
/// concrete. The entry is created where missing, merged with the selection's own selections on
/// the target, and its key pushed onto the traversal path. An updatable selection is noted.
pub fn merge_server_object_field(
    parent_map: &mut MergedSelectionMap,
    merge_traversal_state: &mut TraversalState,
    variable_context: &VariableContext,
    object_selection: &ObjectSelectionModel,
    selectable: MergeSelectableEntry,
    target: u64,
    inline_fragment: bool,
    schema: &MergeSchema,
)
    requires
        merge_server_object(
            map_view(old(parent_map).0@),
            state_view(*old(merge_traversal_state)),
            obj_view(*object_selection),
            selectable,
            target,
            inline_fragment,
            variable_context.0@,
            tables_view(*schema),
        ) is Some,
    ensures
        (map_view(final(parent_map).0@), state_view(*final(merge_traversal_state))) == merge_server_object(
            map_view(old(parent_map).0@),
            state_view(*old(merge_traversal_state)),
            obj_view(*object_selection),
            selectable,
            target,
            inline_fragment,
            variable_context.0@,
            tables_view(*schema),
        ).unwrap(),
    decreases *object_selection, 0int,
{
    let te = find_entity(&schema.entities, target).unwrap();
    if object_selection.updatable {
        merge_traversal_state.has_updatable = true;
    }
    if inline_fragment {
        push_path(merge_traversal_state, NormalizationKey::InlineFragment(target));
        let fresh = MergedServerSelection::InlineFragment(
            crate::merged_selections::MergedInlineFragmentSelection { type_to_refine_to: target, selection_map: MergedSelectionMap(Vec::new()) },
        );
        let j = entry_or_insert(parent_map, NormalizationKey::InlineFragment(target), fresh);
        let ghost m1 = map_view(parent_map.0@);
        proof {
            lemma_map_view(parent_map.0@);
        }
        let (k, sel) = parent_map.0.remove(j);
        proof {
            assert(m1[j as int] == (key_view(k), sel_view(sel)));
        }
        match sel {
            MergedServerSelection::InlineFragment(f) => {
                let mut f = f;
                merge_inline_fragment_reader_exec(&mut f.selection_map, merge_traversal_state, target, variable_context, schema);
                merge_selection_set_into_selection_map(
                    &mut f.selection_map,
                    target,
                    &object_selection.selection_set,
                    merge_traversal_state,
                    variable_context,
                    schema,
                );
                let merged = MergedServerSelection::InlineFragment(f);
                parent_map.0.insert(j, (k, merged));
                proof {
                    lemma_map_view(parent_map.0@);
                    assert(map_view(parent_map.0@) =~= m1.update(j as int, (m1[j as int].0, sel_view(merged))));
                }
            },
            _ => {
                proof {
                    assert(false);
                }
            },
        }
    } else {
        let targs = transform_args_exec(&object_selection.arguments, variable_context);
        let key = NormalizationKey::ServerField(NameAndArguments { name: object_selection.name, arguments: copy_args(&targs) });
        push_path(merge_traversal_state, copy_key(&key));
        let fresh = MergedServerSelection::LinkedField(
            crate::merged_selections::MergedLinkedFieldSelection {
                parent_object_entity_name: selectable.parent,
                name: object_selection.name,
                selection_map: MergedSelectionMap(Vec::new()),
                arguments: targs,
                concrete_target_entity_name: if te.concrete {
                    Some(target)
                } else {
                    None
                },
            },
        );
        let j = entry_or_insert(parent_map, key, fresh);
        let ghost m1 = map_view(parent_map.0@);
        proof {
            lemma_map_view(parent_map.0@);
        }
        let (k, sel) = parent_map.0.remove(j);
        proof {
            assert(m1[j as int] == (key_view(k), sel_view(sel)));
        }
        match sel {
            MergedServerSelection::LinkedField(f) => {
                let mut f = f;
                merge_selection_set_into_selection_map(
                    &mut f.selection_map,
                    target,
                    &object_selection.selection_set,
                    merge_traversal_state,
                    variable_context,
                    schema,
                );
                let merged = MergedServerSelection::LinkedField(f);
                parent_map.0.insert(j, (k, merged));
                proof {
                    lemma_map_view(parent_map.0@);
                    assert(map_view(parent_map.0@) =~= m1.update(j as int, (m1[j as int].0, sel_view(merged))));
                }
            },
            _ => {
                proof {
                    assert(false);
                }
            },
        }
    }
}

/// Merges a client pointer selection: records it as refetched at the current path (through
/// `node(id: $id)` on the query root, refined to its target as that is concrete or not), then
/// merges it as a client object entry under its name and arguments, created where missing,
/// with the selection's own selections on the target; its key is pushed onto the traversal
/// path.
pub fn insert_client_object_selectable_into_refetch_paths(
    parent_map: &mut MergedSelectionMap,
    merge_traversal_state: &mut TraversalState,
    object_selection: &ObjectSelectionModel,
    selectable: MergeSelectableEntry,
    target: u64,
    variable_context: &VariableContext,
    schema: &MergeSchema,
)
    requires
        insert_client_object(
            map_view(old(parent_map).0@),
            state_view(*old(merge_traversal_state)),
            obj_view(*object_selection),
            selectable,
            target,
            variable_context.0@,
            tables_view(*schema),
        ) is Some,
    ensures
        (map_view(final(parent_map).0@), state_view(*final(merge_traversal_state))) == insert_client_object(
            map_view(old(parent_map).0@),
            state_view(*old(merge_traversal_state)),
            obj_view(*object_selection),
            selectable,
            target,
            variable_context.0@,
            tables_view(*schema),
        ).unwrap(),
    decreases *object_selection, 0int,
{
    let te = find_entity(&schema.entities, target).unwrap();
    let targs = transform_args_exec(&object_selection.arguments, variable_context);
    let path = RefetchPathModel {
        linked_fields: copy_path(&merge_traversal_state.traversal_path),
        field_name: RefetchFieldName::Object(NameAndArguments { name: object_selection.name, arguments: copy_args(&targs) }),
    };
    let info = RootRefetchedPathModel {
        field_name: selectable.name,
        wrap_refetch_field_with_inline_fragment: if te.concrete {
            None
        } else {
            Some(target)
        },
        client_selectable: ClientSelectableRef { parent: selectable.parent, name: selectable.name, is_object: true },
        imperatively_loaded_field_variant: ImperativeVariantModel {
            client_selection_name: selectable.name,
            root_object_entity_name: schema.query_entity,
            via_node: true,
            refine_to: if te.concrete {
                Some(te.name)
            } else {
                None
            },
        },
    };
    insert_refetch_path(merge_traversal_state, path, info);
    let key = NormalizationKey::ClientPointer(NameAndArguments { name: object_selection.name, arguments: copy_args(&targs) });
    push_path(merge_traversal_state, copy_key(&key));
    let fresh = MergedServerSelection::ClientObjectSelectable(
        crate::merged_selections::MergedLinkedFieldSelection {
            parent_object_entity_name: selectable.parent,
            name: object_selection.name,
            selection_map: MergedSelectionMap(Vec::new()),
            arguments: targs,
            concrete_target_entity_name: if te.concrete {
                Some(te.name)
            } else {
                None
            },
        },
    );
    let j = entry_or_insert(parent_map, key, fresh);
    let ghost m1 = map_view(parent_map.0@);
    proof {
        lemma_map_view(parent_map.0@);
    }
    let (k, sel) = parent_map.0.remove(j);
    proof {
        assert(m1[j as int] == (key_view(k), sel_view(sel)));
    }
    match sel {
        MergedServerSelection::ClientObjectSelectable(f) => {
            let mut f = f;
            merge_selection_set_into_selection_map(
                &mut f.selection_map,
                target,
                &object_selection.selection_set,
                merge_traversal_state,
                variable_context,
                schema,
            );
            let merged = MergedServerSelection::ClientObjectSelectable(f);
            parent_map.0.insert(j, (k, merged));
            proof {
                lemma_map_view(parent_map.0@);
                assert(map_view(parent_map.0@) =~= m1.update(j as int, (m1[j as int].0, sel_view(merged))));
            }
        },
        _ => {
            proof {
                assert(false);
            }
        },
    }
}

/// A merge of a selection set, where it succeeds, leaves the traversal path as it found it.
pub proof fn lemma_merge_set_keeps_path(
    m: Seq<(KeyView, SelView)>,
    st: StateView,
    set: Seq<MSelView>,
    i: int,
    parent: u64,
    ctx: Seq<(u64, crate::merged_selections::ArgValue)>,
    t: SchemaTables,
)
    requires
        merge_set(m, st, set, i, parent, ctx, t) is Some,
    ensures
        merge_set(m, st, set, i, parent, ctx, t).unwrap().1.path == st.path,
    decreases set, set.len() - i,
{
    if 0 <= i < set.len() {
        lemma_merge_one_keeps_path(m, st, set[i], parent, ctx, t);
        let (m1, st1) = merge_one(m, st, set[i], parent, ctx, t).unwrap();
        lemma_merge_set_keeps_path(m1, st1, set, i + 1, parent, ctx, t);
    }
}

proof fn lemma_merge_one_keeps_path(
    m: Seq<(KeyView, SelView)>,
    st: StateView,
    sel: MSelView,
    parent: u64,
    ctx: Seq<(u64, crate::merged_selections::ArgValue)>,
    t: SchemaTables,
)
    requires
        merge_one(m, st, sel, parent, ctx, t) is Some,
    ensures
        merge_one(m, st, sel, parent, ctx, t).unwrap().1.path == st.path,
    decreases sel, 1int,
{
    match sel {
        MSelView::Scalar { .. } => {},
        MSelView::Object { name, .. } => {
            let e = selectable_from(t.selectables, parent, name, 0).unwrap();
            match e.kind {
                MergeSelectableKind::ServerObject { target, inline_fragment } => {
                    lemma_object_pushes_one_key(m, st, sel, e, target, inline_fragment, false, ctx, t);
                },
                MergeSelectableKind::ClientObject { target } => {
                    lemma_object_pushes_one_key(m, merge_client_object(st, e, target, parent, t), sel, e, target, false, true, ctx, t);
                },
                _ => {},
            }
        },
    }
}

proof fn lemma_object_pushes_one_key(
    m: Seq<(KeyView, SelView)>,
    st: StateView,
    sel: MSelView,
    e: MergeSelectableEntry,
    target: u64,
    inline_fragment: bool,
    client: bool,
    ctx: Seq<(u64, crate::merged_selections::ArgValue)>,
    t: SchemaTables,
)
    requires
        client ==> insert_client_object(m, st, sel, e, target, ctx, t) is Some,
        !client ==> merge_server_object(m, st, sel, e, target, inline_fragment, ctx, t) is Some,
    ensures
        client ==> insert_client_object(m, st, sel, e, target, ctx, t).unwrap().1.path.drop_last() == st.path,
        client ==> insert_client_object(m, st, sel, e, target, ctx, t).unwrap().1.path.len() == st.path.len() + 1,
        !client ==> merge_server_object(m, st, sel, e, target, inline_fragment, ctx, t).unwrap().1.path.drop_last() == st.path,
        !client ==> merge_server_object(m, st, sel, e, target, inline_fragment, ctx, t).unwrap().1.path.len() == st.path.len() + 1,
    decreases sel, 0int,
{
    match sel {
        MSelView::Object { name, arguments, updatable, set } => {
            let te = entity_from(t.entities, target, 0).unwrap();
            if client {
                let targs = transform_args(arguments, ctx);
                let st1 = StateView {
                    refetch: refetch_insert(
                        st.refetch,
                        RefetchKeyView { path: st.path, field: RefetchField::Object(name, targs) },
                        client_object_refetch(e, te, target, t),
                    ),
                    ..st
                };
                let key = KeyView::ClientPointer(name, targs);
                let st2 = with_path(st1, st1.path.push(key));
                let fresh = SelView::ClientObject {
                    parent: e.parent,
                    name,
                    map: seq![],
                    arguments: targs,
                    concrete: if te.concrete {
                        Some(te.name)
                    } else {
                        None
                    },
                };
                let m1 = with_entry(m, key, fresh);
                let j = entry_index(m, key);
                match m1[j].1 {
                    SelView::ClientObject { map, .. } => {
                        lemma_merge_set_keeps_path(map, st2, set, 0, target, ctx, t);
                        assert(st2.path.drop_last() =~= st.path);
                    },
                    _ => {},
                }
            } else {
                let st1 = with_updatable(st, updatable);
                if inline_fragment {
                    let key = KeyView::InlineFragment(target);
                    let st2 = with_path(st1, st1.path.push(key));
                    let m1 = with_entry(m, key, SelView::Inline { refine: target, map: seq![] });
                    let j = entry_index(m, key);
                    match m1[j].1 {
                        SelView::Inline { map, .. } => {
                            let (inner1, st3) = merge_inline_fragment_reader(map, st2, target, ctx, t).unwrap();
                            lemma_merge_set_keeps_path(inner1, st3, set, 0, target, ctx, t);
                            assert(st2.path.drop_last() =~= st.path);
                        },
                        _ => {},
                    }
                } else {
                    let targs = transform_args(arguments, ctx);
                    let key = KeyView::ServerField(name, targs);
                    let st2 = with_path(st1, st1.path.push(key));
                    let fresh = SelView::Linked {
                        parent: e.parent,
                        name,
                        map: seq![],
                        arguments: targs,
                        concrete: if te.concrete {
                            Some(target)
                        } else {
                            None
                        },
                    };
                    let m1 = with_entry(m, key, fresh);
                    let j = entry_index(m, key);
                    match m1[j].1 {
                        SelView::Linked { map, .. } => {
                            lemma_merge_set_keeps_path(map, st2, set, 0, target, ctx, t);
                            assert(st2.path.drop_last() =~= st.path);
                        },
                        _ => {},
                    }
                }
            }
        },
        _ => {},
    }
}

proof fn lemma_select_unique(m: Seq<(KeyView, SelView)>, parent: u64, t: SchemaTables)
    requires
        keys_unique(m),
        select_typename_and_id(m, parent, t) is Some,
    ensures
        keys_unique(select_typename_and_id(m, parent, t).unwrap()),
{
    let e = entity_from(t.entities, parent, 0).unwrap();
    let typename = SelView::Scalar { parent, name: t.names.typename, arguments: seq![] };
    lemma_key_index_from(m, KeyView::Discriminator, 0);
    lemma_unique_push_or_update(m, KeyView::Discriminator, typename);
    let m1 = if !e.concrete {
        match key_index_from(m, KeyView::Discriminator, 0) {
            Some(j) => m.update(j, (KeyView::Discriminator, typename)),
            None => m.push((KeyView::Discriminator, typename)),
        }
    } else {
        m
    };
    match e.id_field {
        Some(id) => {
            lemma_unique_push_or_update(m1, KeyView::Id, SelView::Scalar { parent, name: id, arguments: seq![] });
        },
        None => {},
    }
}

proof fn lemma_entry_unique(m: Seq<(KeyView, SelView)>, key: KeyView, fresh: SelView, s: SelView)
    requires
        keys_unique(m),
    ensures
        0 <= entry_index(m, key) < with_entry(m, key, fresh).len(),
        keys_unique(with_entry(m, key, fresh)),
        keys_unique(with_entry(m, key, fresh).update(
            entry_index(m, key),
            (with_entry(m, key, fresh)[entry_index(m, key)].0, s),
        )),
{
    lemma_key_index_from(m, key, 0);
    lemma_unique_push_or_update(m, key, fresh);
    let m1 = with_entry(m, key, fresh);
    lemma_unique_push_or_update(m1, key, s);
    assert(keys_unique(m1.update(entry_index(m, key), (m1[entry_index(m, key)].0, s))));
}

proof fn lemma_merge_one_unique(
    m: Seq<(KeyView, SelView)>,
    st: StateView,
    sel: MSelView,
    parent: u64,
    ctx: Seq<(u64, crate::merged_selections::ArgValue)>,
    t: SchemaTables,
)
    requires
        keys_unique(m),
        merge_one(m, st, sel, parent, ctx, t) is Some,
    ensures
        keys_unique(merge_one(m, st, sel, parent, ctx, t).unwrap().0),
{
    match sel {
        MSelView::Scalar { name, arguments, updatable } => {
            let key = scalar_key_of(name, arguments, ctx, t.names);
            lemma_unique_push_or_update(m, key, SelView::Scalar { parent, name, arguments: transform_args(arguments, ctx) });
        },
        MSelView::Object { name, arguments, updatable, set } => {
            let e = selectable_from(t.selectables, parent, name, 0).unwrap();
            let targs = transform_args(arguments, ctx);
            match e.kind {
                MergeSelectableKind::ServerObject { target, inline_fragment } => {
                    let te = entity_from(t.entities, target, 0).unwrap();
                    let (m2, st2) = merge_server_object(m, st, sel, e, target, inline_fragment, ctx, t).unwrap();
                    if inline_fragment {
                        let key = KeyView::InlineFragment(target);
                        let fresh = SelView::Inline { refine: target, map: seq![] };
                        let j = entry_index(m, key);
                        lemma_entry_unique(m, key, fresh, m2[j].1);
                        assert(m2 =~= with_entry(m, key, fresh).update(j, (with_entry(m, key, fresh)[j].0, m2[j].1)));
                    } else {
                        let key = KeyView::ServerField(name, targs);
                        let fresh = SelView::Linked {
                            parent: e.parent,
                            name,
                            map: seq![],
                            arguments: targs,
                            concrete: if te.concrete {
                                Some(target)
                            } else {
                                None
                            },
                        };
                        let j = entry_index(m, key);
                        lemma_entry_unique(m, key, fresh, m2[j].1);
                        assert(m2 =~= with_entry(m, key, fresh).update(j, (with_entry(m, key, fresh)[j].0, m2[j].1)));
                    }
                },
                MergeSelectableKind::ClientObject { target } => {
                    let te = entity_from(t.entities, target, 0).unwrap();
                    let st0 = merge_client_object(st, e, target, parent, t);
                    let (m2, st2) = insert_client_object(m, st0, sel, e, target, ctx, t).unwrap();
                    let key = KeyView::ClientPointer(name, targs);
                    let fresh = SelView::ClientObject {
                        parent: e.parent,
                        name,
                        map: seq![],
                        arguments: targs,
                        concrete: if te.concrete {
                            Some(te.name)
                        } else {
                            None
                        },
                    };
                    let j = entry_index(m, key);
                    lemma_entry_unique(m, key, fresh, m2[j].1);
                    assert(m2 =~= with_entry(m, key, fresh).update(j, (with_entry(m, key, fresh)[j].0, m2[j].1)));
                },
                _ => {},
            }
        },
    }
}

/// A merge of a selection set, where it succeeds, keeps the keys of the map unique.
pub proof fn lemma_merge_set_unique(
    m: Seq<(KeyView, SelView)>,
    st: StateView,
    set: Seq<MSelView>,
    i: int,
    parent: u64,
    ctx: Seq<(u64, crate::merged_selections::ArgValue)>,
    t: SchemaTables,
)
    requires
        keys_unique(m),
        merge_set(m, st, set, i, parent, ctx, t) is Some,
    ensures
        keys_unique(merge_set(m, st, set, i, parent, ctx, t).unwrap().0),
    decreases set.len() - i,
{
    if 0 <= i < set.len() {
        lemma_merge_one_unique(m, st, set[i], parent, ctx, t);
        let (m1, st1) = merge_one(m, st, set[i], parent, ctx, t).unwrap();
        lemma_merge_set_unique(m1, st1, set, i + 1, parent, ctx, t);
    } else {
        lemma_select_unique(m, parent, t);
    }
}

pub open spec fn transform_keys(p: Seq<KeyView>, ctx: Seq<(u64, crate::merged_selections::ArgValue)>) -> Seq<KeyView> {
    Seq::new(p.len(), |i: int| crate::merged_selections::transform_key(p[i], ctx))
}

/// The refetch paths of a child, from the `i`-th on, recorded in the parent's: each under the
/// parent's traversal path followed by the child's path in the parent's context.
pub open spec fn incorporate_from(
    r: Seq<(RefetchKeyView, RootRefetchedPathModel)>,
    path: Seq<KeyView>,
    child: Seq<(RefetchKeyView, RootRefetchedPathModel)>,
    i: int,
    ctx: Seq<(u64, crate::merged_selections::ArgValue)>,
) -> Seq<(RefetchKeyView, RootRefetchedPathModel)>
    decreases child.len() - i,
{
    if 0 <= i < child.len() {
        incorporate_from(
            refetch_insert(r, RefetchKeyView { path: path + transform_keys(child[i].0.path, ctx), field: child[i].0.field }, child[i].1),
            path,
            child,
            i + 1,
            ctx,
        )
    } else {
        r
    }
}

fn copy_field_name(f: &RefetchFieldName) -> (r: RefetchFieldName)
    ensures
        field_view(r) == field_view(*f),
{
    match f {
        RefetchFieldName::Scalar(n) => RefetchFieldName::Scalar(*n),
        RefetchFieldName::Object(na) => RefetchFieldName::Object(NameAndArguments { name: na.name, arguments: copy_args(&na.arguments) }),
    }
}

impl TraversalState {
    /// Records the refetch paths met while merging a child's selections in the parent's traversal:
    /// each under the parent's current path followed by the child's path, whose keys are put in the
    /// parent's context; a path already recorded takes the child's entry.
    pub fn incorporate_results_of_iterating_into_child(
        &mut self,
        child_traversal_state: &TraversalState,
        transformed_child_variable_context: &VariableContext,
    )
        ensures
            state_view(*final(self)) == (StateView {
                refetch: incorporate_from(
                    state_view(*old(self)).refetch,
                    state_view(*old(self)).path,
                    state_view(*child_traversal_state).refetch,
                    0,
                    transformed_child_variable_context.0@,
                ),
                ..state_view(*old(self))
            }),
    {
        let ghost child = state_view(*child_traversal_state).refetch;
        let ghost ctx = transformed_child_variable_context.0@;
        let ghost s0 = state_view(*self);
        let mut i: usize = 0;
        while i < child_traversal_state.refetch_paths.len()
            invariant
                child == state_view(*child_traversal_state).refetch,
                ctx == transformed_child_variable_context.0@,
                child.len() == child_traversal_state.refetch_paths.len(),
                i <= child.len(),
                state_view(*self) == (StateView { refetch: state_view(*self).refetch, ..s0 }),
                incorporate_from(s0.refetch, s0.path, child, 0, ctx) == incorporate_from(
                    state_view(*self).refetch,
                    s0.path,
                    child,
                    i as int,
                    ctx,
                ),
            decreases child.len() - i,
        {
            let entry = &child_traversal_state.refetch_paths[i];
            let mut linked_fields = copy_path(&self.traversal_path);
            let ghost before = keys_view(linked_fields@);
            let mut k: usize = 0;
            while k < entry.0.linked_fields.len()
                invariant
                    k <= entry.0.linked_fields.len(),
                    keys_view(linked_fields@) == before + transform_keys(keys_view(entry.0.linked_fields@), ctx).subrange(0, k as int),
                    ctx == transformed_child_variable_context.0@,
                decreases entry.0.linked_fields.len() - k,
            {
                let key = transform_key_exec(&entry.0.linked_fields[k], transformed_child_variable_context);
                let ghost lf = linked_fields@;
                linked_fields.push(key);
                proof {
                    assert(keys_view(entry.0.linked_fields@)[k as int] == key_view(entry.0.linked_fields@[k as int]));
                    assert(transform_keys(keys_view(entry.0.linked_fields@), ctx)[k as int] == key_view(key));
                    assert(keys_view(linked_fields@) =~= keys_view(lf).push(key_view(key)));
                    assert(keys_view(linked_fields@) =~= before + transform_keys(keys_view(entry.0.linked_fields@), ctx).subrange(0, k + 1));
                }
                k += 1;
            }
            proof {
                assert(transform_keys(keys_view(entry.0.linked_fields@), ctx).subrange(0, entry.0.linked_fields@.len() as int)
                    =~= transform_keys(keys_view(entry.0.linked_fields@), ctx));
                assert(child[i as int] == (refetch_key_view(entry.0), entry.1));
            }
            let path = RefetchPathModel { linked_fields, field_name: copy_field_name(&entry.0.field_name) };
            insert_refetch_path(self, path, entry.1);
            i += 1;
        }
    }
}

/// Merges what merging a client field's reader produced into the parent: its selection map, in
/// the context of the field's arguments, and the refetch paths it met.
pub fn merge_non_loadable_client_type(
    parent_map: &mut MergedSelectionMap,
    parent_merge_traversal_state: &mut TraversalState,
    child_merged_selection_map: &MergedSelectionMap,
    child_traversal_state: &TraversalState,
    transformed_child_variable_context: &VariableContext,
)
    requires
        crate::merged_selections::merge_ok(
            map_view(old(parent_map).0@),
            map_view(child_merged_selection_map.0@),
            0,
            transformed_child_variable_context.0@,
        ),
    ensures
        map_view(final(parent_map).0@) == crate::merged_selections::merge_entries(
            map_view(old(parent_map).0@),
            map_view(child_merged_selection_map.0@),
            0,
            transformed_child_variable_context.0@,
        ),
        state_view(*final(parent_merge_traversal_state)) == (StateView {
            refetch: incorporate_from(
                state_view(*old(parent_merge_traversal_state)).refetch,
                state_view(*old(parent_merge_traversal_state)).path,
                state_view(*child_traversal_state).refetch,
                0,
                transformed_child_variable_context.0@,
            ),
            ..state_view(*old(parent_merge_traversal_state))
        }),
{
    crate::merged_selections::transform_and_merge_child_selection_map_into_parent_map(
        parent_map,
        child_merged_selection_map,
        transformed_child_variable_context,
    );
    parent_merge_traversal_state.incorporate_results_of_iterating_into_child(child_traversal_state, transformed_child_variable_context);
}

proof fn lemma_push_agrees(m: Seq<(KeyView, SelView)>, k: KeyView, x: SelView)
    requires
        agrees_deep(m),
        entry_agrees(k, x),
        sel_agrees_deep(x),
    ensures
        agrees_deep(m.push((k, x))),
{
    let n = m.push((k, x));
    assert forall|t: int| 0 <= t < n.len() implies entry_agrees(#[trigger] n[t].0, n[t].1) && sel_agrees_deep(n[t].1) by {
        if t < m.len() {
            assert(n[t] == m[t]);
        }
    }
}

proof fn lemma_update_agrees(m: Seq<(KeyView, SelView)>, j: int, x: SelView)
    requires
        agrees_deep(m),
        0 <= j < m.len(),
        entry_agrees(m[j].0, x),
        sel_agrees_deep(x),
    ensures
        agrees_deep(m.update(j, (m[j].0, x))),
{
    let n = m.update(j, (m[j].0, x));
    assert forall|t: int| 0 <= t < n.len() implies entry_agrees(#[trigger] n[t].0, n[t].1) && sel_agrees_deep(n[t].1) by {
        if t != j {
            assert(n[t] == m[t]);
        }
    }
}

proof fn lemma_scalar_selection_agrees(
    m: Seq<(KeyView, SelView)>,
    st: StateView,
    name: u64,
    arguments: Seq<ArgumentKeyAndValue>,
    updatable: bool,
    parent: u64,
    ctx: Seq<(u64, crate::merged_selections::ArgValue)>,
    t: SchemaTables,
)
    requires
        agrees_deep(m),
        merge_scalar_selection(m, st, name, arguments, updatable, parent, ctx, t) is Some,
    ensures
        agrees_deep(merge_scalar_selection(m, st, name, arguments, updatable, parent, ctx, t).unwrap().0),
{
    let key = scalar_key_of(name, arguments, ctx, t.names);
    if key_index_from(m, key, 0) is None {
        lemma_push_agrees(m, key, SelView::Scalar { parent, name, arguments: transform_args(arguments, ctx) });
    }
}

proof fn lemma_select_agrees(m: Seq<(KeyView, SelView)>, parent: u64, t: SchemaTables)
    requires
        agrees_deep(m),
        select_typename_and_id(m, parent, t) is Some,
    ensures
        agrees_deep(select_typename_and_id(m, parent, t).unwrap()),
{
    let e = entity_from(t.entities, parent, 0).unwrap();
    let typename = SelView::Scalar { parent, name: t.names.typename, arguments: seq![] };
    lemma_key_index_from(m, KeyView::Discriminator, 0);
    let m1 = if !e.concrete {
        match key_index_from(m, KeyView::Discriminator, 0) {
            Some(j) => {
                lemma_update_agrees(m, j, typename);
                m.update(j, (KeyView::Discriminator, typename))
            },
            None => {
                lemma_push_agrees(m, KeyView::Discriminator, typename);
                m.push((KeyView::Discriminator, typename))
            },
        }
    } else {
        m
    };
    match e.id_field {
        Some(id) => {
            if key_index_from(m1, KeyView::Id, 0) is None {
                lemma_push_agrees(m1, KeyView::Id, SelView::Scalar { parent, name: id, arguments: seq![] });
            }
        },
        None => {},
    }
}

proof fn lemma_merge_set_agrees(
    m: Seq<(KeyView, SelView)>,
    st: StateView,
    set: Seq<MSelView>,
    i: int,
    parent: u64,
    ctx: Seq<(u64, crate::merged_selections::ArgValue)>,
    t: SchemaTables,
)
    requires
        agrees_deep(m),
        merge_set(m, st, set, i, parent, ctx, t) is Some,
    ensures
        agrees_deep(merge_set(m, st, set, i, parent, ctx, t).unwrap().0),
    decreases set, set.len() - i,
{
    if 0 <= i < set.len() {
        lemma_merge_one_agrees(m, st, set[i], parent, ctx, t);
        let (m1, st1) = merge_one(m, st, set[i], parent, ctx, t).unwrap();
        lemma_merge_set_agrees(m1, st1, set, i + 1, parent, ctx, t);
    } else {
        lemma_select_agrees(m, parent, t);
    }
}

proof fn lemma_merge_one_agrees(
    m: Seq<(KeyView, SelView)>,
    st: StateView,
    sel: MSelView,
    parent: u64,
    ctx: Seq<(u64, crate::merged_selections::ArgValue)>,
    t: SchemaTables,
)
    requires
        agrees_deep(m),
        merge_one(m, st, sel, parent, ctx, t) is Some,
    ensures
        agrees_deep(merge_one(m, st, sel, parent, ctx, t).unwrap().0),
    decreases sel, 1int,
{
    match sel {
        MSelView::Scalar { name, arguments, updatable } => {
            lemma_scalar_selection_agrees(m, st, name, arguments, updatable, parent, ctx, t);
        },
        MSelView::Object { name, .. } => {
            let e = selectable_from(t.selectables, parent, name, 0).unwrap();
            match e.kind {
                MergeSelectableKind::ServerObject { target, inline_fragment } => {
                    lemma_server_object_agrees(m, st, sel, e, target, inline_fragment, ctx, t);
                },
                MergeSelectableKind::ClientObject { target } => {
                    lemma_client_object_agrees(m, merge_client_object(st, e, target, parent, t), sel, e, target, ctx, t);
                },
                _ => {},
            }
        },
    }
}

/// Merging a server object selection into a map whose selections fit their keys keeps them so
/// at every depth, and leaves an entry under the selection's key: the inline fragment on the
/// target, or the field with the selection's arguments bound by the context.
pub proof fn lemma_server_object_agrees(
    m: Seq<(KeyView, SelView)>,
    st: StateView,
    sel: MSelView,
    e: MergeSelectableEntry,
    target: u64,
    inline_fragment: bool,
    ctx: Seq<(u64, crate::merged_selections::ArgValue)>,
    t: SchemaTables,
)
    requires
        agrees_deep(m),
        merge_server_object(m, st, sel, e, target, inline_fragment, ctx, t) is Some,
    ensures
        agrees_deep(merge_server_object(m, st, sel, e, target, inline_fragment, ctx, t).unwrap().0),
        sel matches MSelView::Object { name, arguments, .. } ==> has_key(
            merge_server_object(m, st, sel, e, target, inline_fragment, ctx, t).unwrap().0,
            if inline_fragment {
                KeyView::InlineFragment(target)
            } else {
                KeyView::ServerField(name, transform_args(arguments, ctx))
            },
        ),
    decreases sel, 0int,
{
    match sel {
        MSelView::Object { name, arguments, updatable, set } => {
            let te = entity_from(t.entities, target, 0).unwrap();
            let st1 = with_updatable(st, updatable);
            let r = merge_server_object(m, st, sel, e, target, inline_fragment, ctx, t).unwrap();
            if inline_fragment {
                let key = KeyView::InlineFragment(target);
                let st2 = with_path(st1, st1.path.push(key));
                let fresh = SelView::Inline { refine: target, map: seq![] };
                lemma_push_agrees(m, key, fresh);
                lemma_key_index_from(m, key, 0);
                let m1 = with_entry(m, key, fresh);
                let j = entry_index(m, key);
                assert(entry_agrees(m1[j].0, m1[j].1) && sel_agrees_deep(m1[j].1));
                match m1[j].1 {
                    SelView::Inline { refine, map } => {
                        let (inner1, st3) = merge_inline_fragment_reader(map, st2, target, ctx, t).unwrap();
                        let (a1, s1) = merge_scalar_selection(map, st2, t.names.typename, seq![], false, target, ctx, t).unwrap();
                        lemma_scalar_selection_agrees(map, st2, t.names.typename, seq![], false, target, ctx, t);
                        let (a2, s2) = merge_scalar_selection(a1, s1, t.link_name, seq![], false, target, ctx, t).unwrap();
                        lemma_scalar_selection_agrees(a1, s1, t.link_name, seq![], false, target, ctx, t);
                        lemma_select_agrees(a2, target, t);
                        lemma_merge_set_agrees(inner1, st3, set, 0, target, ctx, t);
                        let (inner2, st4) = merge_set(inner1, st3, set, 0, target, ctx, t).unwrap();
                        lemma_update_agrees(m1, j, SelView::Inline { refine, map: inner2 });
                        assert(r.0[j].0 == key);
                    },
                    _ => {},
                }
            } else {
                let targs = transform_args(arguments, ctx);
                let key = KeyView::ServerField(name, targs);
                let st2 = with_path(st1, st1.path.push(key));
                let fresh = SelView::Linked {
                    parent: e.parent,
                    name,
                    map: seq![],
                    arguments: targs,
                    concrete: if te.concrete {
                        Some(target)
                    } else {
                        None
                    },
                };
                lemma_push_agrees(m, key, fresh);
                lemma_key_index_from(m, key, 0);
                let m1 = with_entry(m, key, fresh);
                let j = entry_index(m, key);
                assert(entry_agrees(m1[j].0, m1[j].1) && sel_agrees_deep(m1[j].1));
                match m1[j].1 {
                    SelView::Linked { parent: p, name: n, map, arguments: a, concrete: c } => {
                        lemma_merge_set_agrees(map, st2, set, 0, target, ctx, t);
                        let (inner, st3) = merge_set(map, st2, set, 0, target, ctx, t).unwrap();
                        lemma_update_agrees(m1, j, SelView::Linked { parent: p, name: n, map: inner, arguments: a, concrete: c });
                        assert(r.0[j].0 == key);
                    },
                    _ => {},
                }
            }
        },
        _ => {},
    }
}

/// Merging a client pointer selection into a map whose selections fit their keys keeps them so
/// at every depth, and leaves an entry under the pointer's name and its arguments bound by the
/// context.
pub proof fn lemma_client_object_agrees(
    m: Seq<(KeyView, SelView)>,
    st: StateView,
    sel: MSelView,
    e: MergeSelectableEntry,
    target: u64,
    ctx: Seq<(u64, crate::merged_selections::ArgValue)>,
    t: SchemaTables,
)
    requires
        agrees_deep(m),
        insert_client_object(m, st, sel, e, target, ctx, t) is Some,
    ensures
        agrees_deep(insert_client_object(m, st, sel, e, target, ctx, t).unwrap().0),
        sel matches MSelView::Object { name, arguments, .. } ==> has_key(
            insert_client_object(m, st, sel, e, target, ctx, t).unwrap().0,
            KeyView::ClientPointer(name, transform_args(arguments, ctx)),
        ),
    decreases sel, 0int,
{
    match sel {
        MSelView::Object { name, arguments, set, .. } => {
            let te = entity_from(t.entities, target, 0).unwrap();
            let r = insert_client_object(m, st, sel, e, target, ctx, t).unwrap();
            let targs = transform_args(arguments, ctx);
            let st1 = StateView {
                refetch: refetch_insert(
                    st.refetch,
                    RefetchKeyView { path: st.path, field: RefetchField::Object(name, targs) },
                    client_object_refetch(e, te, target, t),
                ),
                ..st
            };
            let key = KeyView::ClientPointer(name, targs);
            let st2 = with_path(st1, st1.path.push(key));
            let fresh = SelView::ClientObject {
                parent: e.parent,
                name,
                map: seq![],
                arguments: targs,
                concrete: if te.concrete {
                    Some(te.name)
                } else {
                    None
                },
            };
            lemma_push_agrees(m, key, fresh);
            lemma_key_index_from(m, key, 0);
            let m1 = with_entry(m, key, fresh);
            let j = entry_index(m, key);
            assert(entry_agrees(m1[j].0, m1[j].1) && sel_agrees_deep(m1[j].1));
            match m1[j].1 {
                SelView::ClientObject { parent: p, name: n, map, arguments: a, concrete: c } => {
                    lemma_merge_set_agrees(map, st2, set, 0, target, ctx, t);
                    let (inner, st3) = merge_set(map, st2, set, 0, target, ctx, t).unwrap();
                    lemma_update_agrees(m1, j, SelView::ClientObject { parent: p, name: n, map: inner, arguments: a, concrete: c });
                    assert(r.0[j].0 == key);
                },
                _ => {},
            }
        },
        _ => {},
    }
}

/// Merging a selection set into a map whose selections fit the keys they sit under keeps every
/// selection, at every depth, fitting its key: a linked field or client object carries the
/// name and arguments of its key, a scalar too, and an inline fragment refines to its key's
/// type.
pub proof fn law_merged_selection_set_fits_its_keys(
    m: Seq<(KeyView, SelView)>,
    st: StateView,
    set: Seq<MSelView>,
    parent: u64,
    ctx: Seq<(u64, crate::merged_selections::ArgValue)>,
    t: SchemaTables,
)
    requires
        agrees_deep(m),
        merge_set(m, st, set, 0, parent, ctx, t) is Some,
    ensures
        agrees_deep(merge_set(m, st, set, 0, parent, ctx, t).unwrap().0),
{
    lemma_merge_set_agrees(m, st, set, 0, parent, ctx, t);
}

/// The key a selection on `parent` is merged under, where it has one: a server selectable
/// selected as a scalar under the typename, the id or its name with its arguments bound by the
/// context; a server object under the inline fragment on its target, or its name with bound
/// arguments; a client pointer under its name with bound arguments.
pub open spec fn selection_key(
    sel: MSelView,
    parent: u64,
    ctx: Seq<(u64, crate::merged_selections::ArgValue)>,
    t: SchemaTables,
) -> Option<KeyView> {
    match sel {
        MSelView::Scalar { name, arguments, .. } => match selectable_from(t.selectables, parent, name, 0) {
            Some(e) => if e.kind is ServerScalar || e.kind is ServerObject {
                Some(
                    if name == t.names.typename {
                        KeyView::Discriminator
                    } else if name == t.names.id {
                        KeyView::Id
                    } else {
                        KeyView::ServerField(name, transform_args(arguments, ctx))
                    },
                )
            } else {
                None
            },
            None => None,
        },
        MSelView::Object { name, arguments, .. } => match selectable_from(t.selectables, parent, name, 0) {
            Some(e) => match e.kind {
                MergeSelectableKind::ServerObject { target, inline_fragment } => Some(
                    if inline_fragment {
                        KeyView::InlineFragment(target)
                    } else {
                        KeyView::ServerField(name, transform_args(arguments, ctx))
                    },
                ),
                MergeSelectableKind::ClientObject { .. } => Some(KeyView::ClientPointer(name, transform_args(arguments, ctx))),
                _ => None,
            },
            None => None,
        },
    }
}

pub open spec fn keeps_keys(a: Seq<(KeyView, SelView)>, b: Seq<(KeyView, SelView)>) -> bool {
    forall|k: KeyView| #[trigger] has_key(a, k) ==> has_key(b, k)
}

proof fn lemma_push_keeps_keys(m: Seq<(KeyView, SelView)>, e: (KeyView, SelView))
    ensures
        keeps_keys(m, m.push(e)),
        has_key(m.push(e), e.0),
{
    assert forall|k: KeyView| #[trigger] has_key(m, k) implies has_key(m.push(e), k) by {
        let i = choose|i: int| 0 <= i < m.len() && #[trigger] m[i].0 == k;
        assert(m.push(e)[i].0 == k);
    }
    assert(m.push(e)[m.len() as int].0 == e.0);
}

proof fn lemma_update_keeps_keys(m: Seq<(KeyView, SelView)>, j: int, x: SelView)
    requires
        0 <= j < m.len(),
    ensures
        keeps_keys(m, m.update(j, (m[j].0, x))),
        has_key(m.update(j, (m[j].0, x)), m[j].0),
{
    let n = m.update(j, (m[j].0, x));
    assert forall|k: KeyView| #[trigger] has_key(m, k) implies has_key(n, k) by {
        let i = choose|i: int| 0 <= i < m.len() && #[trigger] m[i].0 == k;
        assert(n[i].0 == k);
    }
    assert(n[j].0 == m[j].0);
}

proof fn lemma_keeps_keys_trans(a: Seq<(KeyView, SelView)>, b: Seq<(KeyView, SelView)>, c: Seq<(KeyView, SelView)>)
    requires
        keeps_keys(a, b),
        keeps_keys(b, c),
    ensures
        keeps_keys(a, c),
{
    assert forall|k: KeyView| #[trigger] has_key(a, k) implies has_key(c, k) by {
        assert(has_key(b, k));
    }
}

proof fn lemma_select_keeps_keys(m: Seq<(KeyView, SelView)>, parent: u64, t: SchemaTables)
    requires
        select_typename_and_id(m, parent, t) is Some,
    ensures
        keeps_keys(m, select_typename_and_id(m, parent, t).unwrap()),
{
    let e = entity_from(t.entities, parent, 0).unwrap();
    let typename = SelView::Scalar { parent, name: t.names.typename, arguments: seq![] };
    lemma_key_index_from(m, KeyView::Discriminator, 0);
    let m1 = if !e.concrete {
        match key_index_from(m, KeyView::Discriminator, 0) {
            Some(j) => {
                lemma_update_keeps_keys(m, j, typename);
                m.update(j, (KeyView::Discriminator, typename))
            },
            None => {
                lemma_push_keeps_keys(m, (KeyView::Discriminator, typename));
                m.push((KeyView::Discriminator, typename))
            },
        }
    } else {
        assert(keeps_keys(m, m));
        m
    };
    match e.id_field {
        Some(id) => {
            if key_index_from(m1, KeyView::Id, 0) is None {
                lemma_push_keeps_keys(m1, (KeyView::Id, SelView::Scalar { parent, name: id, arguments: seq![] }));
                lemma_keeps_keys_trans(m, m1, m1.push((KeyView::Id, SelView::Scalar { parent, name: id, arguments: seq![] })));
            }
        },
        None => {},
    }
}

proof fn lemma_merge_one_keys(
    m: Seq<(KeyView, SelView)>,
    st: StateView,
    sel: MSelView,
    parent: u64,
    ctx: Seq<(u64, crate::merged_selections::ArgValue)>,
    t: SchemaTables,
)
    requires
        merge_one(m, st, sel, parent, ctx, t) is Some,
    ensures
        keeps_keys(m, merge_one(m, st, sel, parent, ctx, t).unwrap().0),
        selection_key(sel, parent, ctx, t) matches Some(k) ==> has_key(merge_one(m, st, sel, parent, ctx, t).unwrap().0, k),
{
    let r = merge_one(m, st, sel, parent, ctx, t).unwrap().0;
    match sel {
        MSelView::Scalar { name, arguments, updatable } => {
            let e = selectable_from(t.selectables, parent, name, 0).unwrap();
            let key = scalar_key_of(name, arguments, ctx, t.names);
            lemma_key_index_from(m, key, 0);
            if e.kind is ClientScalar {
                assert(keeps_keys(m, m));
            } else {
                match key_index_from(m, key, 0) {
                    Some(j) => {
                        assert(keeps_keys(m, m));
                        assert(m[j].0 == key);
                    },
                    None => {
                        lemma_push_keeps_keys(m, (key, SelView::Scalar { parent, name, arguments: transform_args(arguments, ctx) }));
                    },
                }
            }
        },
        MSelView::Object { name, arguments, updatable, set } => {
            let e = selectable_from(t.selectables, parent, name, 0).unwrap();
            let targs = transform_args(arguments, ctx);
            match e.kind {
                MergeSelectableKind::ServerObject { target, inline_fragment } => {
                    let te = entity_from(t.entities, target, 0).unwrap();
                    let (m2, st2) = merge_server_object(m, st, sel, e, target, inline_fragment, ctx, t).unwrap();
                    let key = if inline_fragment {
                        KeyView::InlineFragment(target)
                    } else {
                        KeyView::ServerField(name, targs)
                    };
                    let fresh = if inline_fragment {
                        SelView::Inline { refine: target, map: seq![] }
                    } else {
                        SelView::Linked {
                            parent: e.parent,
                            name,
                            map: seq![],
                            arguments: targs,
                            concrete: if te.concrete {
                                Some(target)
                            } else {
                                None
                            },
                        }
                    };
                    lemma_key_index_from(m, key, 0);
                    let m1 = with_entry(m, key, fresh);
                    let j = entry_index(m, key);
                    if key_index_from(m, key, 0) is None {
                        lemma_push_keeps_keys(m, (key, fresh));
                    } else {
                        assert(keeps_keys(m, m1));
                    }
                    lemma_update_keeps_keys(m1, j, m2[j].1);
                    assert(m2 =~= m1.update(j, (m1[j].0, m2[j].1)));
                    lemma_keeps_keys_trans(m, m1, m2);
                    assert(m1[j].0 == key);
                },
                MergeSelectableKind::ClientObject { target } => {
                    let te = entity_from(t.entities, target, 0).unwrap();
                    let st0 = merge_client_object(st, e, target, parent, t);
                    let (m2, st2) = insert_client_object(m, st0, sel, e, target, ctx, t).unwrap();
                    let key = KeyView::ClientPointer(name, targs);
                    let fresh = SelView::ClientObject {
                        parent: e.parent,
                        name,
                        map: seq![],
                        arguments: targs,
                        concrete: if te.concrete {
                            Some(te.name)
                        } else {
                            None
                        },
                    };
                    lemma_key_index_from(m, key, 0);
                    let m1 = with_entry(m, key, fresh);
                    let j = entry_index(m, key);
                    if key_index_from(m, key, 0) is None {
                        lemma_push_keeps_keys(m, (key, fresh));
                    } else {
                        assert(keeps_keys(m, m1));
                    }
                    lemma_update_keeps_keys(m1, j, m2[j].1);
                    assert(m2 =~= m1.update(j, (m1[j].0, m2[j].1)));
                    lemma_keeps_keys_trans(m, m1, m2);
                    assert(m1[j].0 == key);
                },
                _ => {},
            }
        },
    }
}

proof fn lemma_merge_set_keys(
    m: Seq<(KeyView, SelView)>,
    st: StateView,
    set: Seq<MSelView>,
    i: int,
    parent: u64,
    ctx: Seq<(u64, crate::merged_selections::ArgValue)>,
    t: SchemaTables,
)
    requires
        0 <= i,
        merge_set(m, st, set, i, parent, ctx, t) is Some,
    ensures
        keeps_keys(m, merge_set(m, st, set, i, parent, ctx, t).unwrap().0),
        forall|x: int|
            i <= x < set.len() ==> (selection_key(#[trigger] set[x], parent, ctx, t) matches Some(k) ==> has_key(
                merge_set(m, st, set, i, parent, ctx, t).unwrap().0,
                k,
            )),
    decreases set.len() - i,
{
    let r = merge_set(m, st, set, i, parent, ctx, t).unwrap().0;
    if i < set.len() {
        lemma_merge_one_keys(m, st, set[i], parent, ctx, t);
        let (m1, st1) = merge_one(m, st, set[i], parent, ctx, t).unwrap();
        lemma_merge_set_keys(m1, st1, set, i + 1, parent, ctx, t);
        lemma_keeps_keys_trans(m, m1, r);
    } else {
        lemma_select_keeps_keys(m, parent, t);
    }
}

/// Merging a selection set keeps every key the map had, and leaves an entry under the key of
/// each of its server and client pointer selections: its name with its arguments bound by the
/// variable context (or the typename, the id, or the inline fragment on its target).
pub proof fn law_each_selection_lands_under_its_key(
    m: Seq<(KeyView, SelView)>,
    st: StateView,
    set: Seq<MSelView>,
    parent: u64,
    ctx: Seq<(u64, crate::merged_selections::ArgValue)>,
    t: SchemaTables,
)
    requires
        merge_set(m, st, set, 0, parent, ctx, t) is Some,
    ensures
        keeps_keys(m, merge_set(m, st, set, 0, parent, ctx, t).unwrap().0),
        forall|x: int|
            0 <= x < set.len() ==> (selection_key(#[trigger] set[x], parent, ctx, t) matches Some(k) ==> has_key(
                merge_set(m, st, set, 0, parent, ctx, t).unwrap().0,
                k,
            )),
{
    lemma_merge_set_keys(m, st, set, 0, parent, ctx, t);
}

/// Whether a selection on `parent` is a server scalar or server object selection marked
/// updatable.
pub open spec fn marks_updatable(sel: MSelView, parent: u64, t: SchemaTables) -> bool {
    match sel {
        MSelView::Scalar { name, updatable, .. } => updatable && match selectable_from(t.selectables, parent, name, 0) {
            Some(e) => e.kind is ServerScalar || e.kind is ServerObject,
            None => false,
        },
        MSelView::Object { name, updatable, .. } => updatable && match selectable_from(t.selectables, parent, name, 0) {
            Some(e) => e.kind is ServerObject,
            None => false,
        },
    }
}

proof fn lemma_merge_set_updatable(
    m: Seq<(KeyView, SelView)>,
    st: StateView,
    set: Seq<MSelView>,
    i: int,
    parent: u64,
    ctx: Seq<(u64, crate::merged_selections::ArgValue)>,
    t: SchemaTables,
)
    requires
        0 <= i,
        merge_set(m, st, set, i, parent, ctx, t) is Some,
    ensures
        st.has_updatable ==> merge_set(m, st, set, i, parent, ctx, t).unwrap().1.has_updatable,
        forall|x: int| i <= x < set.len() && marks_updatable(#[trigger] set[x], parent, t) ==> merge_set(m, st, set, i, parent, ctx, t).unwrap().1.has_updatable,
    decreases set, set.len() - i,
{
    if i < set.len() {
        lemma_merge_one_updatable(m, st, set[i], parent, ctx, t);
        let (m1, st1) = merge_one(m, st, set[i], parent, ctx, t).unwrap();
        lemma_merge_set_updatable(m1, st1, set, i + 1, parent, ctx, t);
    }
}

proof fn lemma_merge_one_updatable(
    m: Seq<(KeyView, SelView)>,
    st: StateView,
    sel: MSelView,
    parent: u64,
    ctx: Seq<(u64, crate::merged_selections::ArgValue)>,
    t: SchemaTables,
)
    requires
        merge_one(m, st, sel, parent, ctx, t) is Some,
    ensures
        (st.has_updatable || marks_updatable(sel, parent, t)) ==> merge_one(m, st, sel, parent, ctx, t).unwrap().1.has_updatable,
    decreases sel, 1int,
{
    match sel {
        MSelView::Scalar { .. } => {},
        MSelView::Object { name, .. } => {
            let e = selectable_from(t.selectables, parent, name, 0).unwrap();
            match e.kind {
                MergeSelectableKind::ServerObject { target, inline_fragment } => {
                    lemma_server_object_updatable(m, st, sel, e, target, inline_fragment, ctx, t);
                },
                MergeSelectableKind::ClientObject { target } => {
                    lemma_client_object_updatable(m, merge_client_object(st, e, target, parent, t), sel, e, target, ctx, t);
                },
                _ => {},
            }
        },
    }
}

proof fn lemma_server_object_updatable(
    m: Seq<(KeyView, SelView)>,
    st: StateView,
    sel: MSelView,
    e: MergeSelectableEntry,
    target: u64,
    inline_fragment: bool,
    ctx: Seq<(u64, crate::merged_selections::ArgValue)>,
    t: SchemaTables,
)
    requires
        merge_server_object(m, st, sel, e, target, inline_fragment, ctx, t) is Some,
    ensures
        (st.has_updatable || (sel matches MSelView::Object { updatable, .. } && updatable)) ==> merge_server_object(
            m,
            st,
            sel,
            e,
            target,
            inline_fragment,
            ctx,
            t,
        ).unwrap().1.has_updatable,
    decreases sel, 0int,
{
    match sel {
        MSelView::Object { name, arguments, updatable, set } => {
            let te = entity_from(t.entities, target, 0).unwrap();
            let st1 = with_updatable(st, updatable);
            if inline_fragment {
                let key = KeyView::InlineFragment(target);
                let st2 = with_path(st1, st1.path.push(key));
                let m1 = with_entry(m, key, SelView::Inline { refine: target, map: seq![] });
                let j = entry_index(m, key);
                match m1[j].1 {
                    SelView::Inline { map, .. } => {
                        let (inner1, st3) = merge_inline_fragment_reader(map, st2, target, ctx, t).unwrap();
                        lemma_merge_set_updatable(inner1, st3, set, 0, target, ctx, t);
                    },
                    _ => {},
                }
            } else {
                let targs = transform_args(arguments, ctx);
                let key = KeyView::ServerField(name, targs);
                let st2 = with_path(st1, st1.path.push(key));
                let fresh = SelView::Linked {
                    parent: e.parent,
                    name,
                    map: seq![],
                    arguments: targs,
                    concrete: if te.concrete {
                        Some(target)
                    } else {
                        None
                    },
                };
                let m1 = with_entry(m, key, fresh);
                let j = entry_index(m, key);
                match m1[j].1 {
                    SelView::Linked { map, .. } => {
                        lemma_merge_set_updatable(map, st2, set, 0, target, ctx, t);
                    },
                    _ => {},
                }
            }
        },
        _ => {},
    }
}

proof fn lemma_client_object_updatable(
    m: Seq<(KeyView, SelView)>,
    st: StateView,
    sel: MSelView,
    e: MergeSelectableEntry,
    target: u64,
    ctx: Seq<(u64, crate::merged_selections::ArgValue)>,
    t: SchemaTables,
)
    requires
        insert_client_object(m, st, sel, e, target, ctx, t) is Some,
    ensures
        st.has_updatable ==> insert_client_object(m, st, sel, e, target, ctx, t).unwrap().1.has_updatable,
    decreases sel, 0int,
{
    match sel {
        MSelView::Object { name, arguments, set, .. } => {
            let te = entity_from(t.entities, target, 0).unwrap();
            let targs = transform_args(arguments, ctx);
            let st1 = StateView {
                refetch: refetch_insert(
                    st.refetch,
                    RefetchKeyView { path: st.path, field: RefetchField::Object(name, targs) },
                    client_object_refetch(e, te, target, t),
                ),
                ..st
            };
            let key = KeyView::ClientPointer(name, targs);
            let st2 = with_path(st1, st1.path.push(key));
            let fresh = SelView::ClientObject {
                parent: e.parent,
                name,
                map: seq![],
                arguments: targs,
                concrete: if te.concrete {
                    Some(te.name)
                } else {
                    None
                },
            };
            let m1 = with_entry(m, key, fresh);
            let j = entry_index(m, key);
            match m1[j].1 {
                SelView::ClientObject { map, .. } => {
                    lemma_merge_set_updatable(map, st2, set, 0, target, ctx, t);
                },
                _ => {},
            }
        },
        _ => {},
    }
}

/// Merging a selection set notes an updatable selection: once noted, it stays noted, and each
/// server scalar or server object selection of the set marked updatable notes it.
pub proof fn law_updatable_selections_are_noted(
    m: Seq<(KeyView, SelView)>,
    st: StateView,
    set: Seq<MSelView>,
    parent: u64,
    ctx: Seq<(u64, crate::merged_selections::ArgValue)>,
    t: SchemaTables,
)
    requires
        merge_set(m, st, set, 0, parent, ctx, t) is Some,
    ensures
        st.has_updatable ==> merge_set(m, st, set, 0, parent, ctx, t).unwrap().1.has_updatable,
        forall|x: int| 0 <= x < set.len() && marks_updatable(#[trigger] set[x], parent, t) ==> merge_set(m, st, set, 0, parent, ctx, t).unwrap().1.has_updatable,
{
    lemma_merge_set_updatable(m, st, set, 0, parent, ctx, t);
}

} // verus!
