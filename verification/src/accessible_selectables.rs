use vstd::prelude::*;

use crate::span::Span;

verus! {

/// A selection of a selection set: a scalar, or an object with the selection set read on its
/// target. Names are interned, as integers.
#[derive(Debug, PartialEq, Eq)]
pub enum SelectionModel {
    Scalar { name: u64, location: Span },
    Object { name: u64, location: Span, selection_set: Vec<SelectionModel> },
}

/// What a selectable is: a server scalar or object, or a client scalar or object; an object
/// one with the entity it targets.
#[derive(Clone, Copy, Debug, PartialEq, Eq, Structural)]
pub enum SelectableKind {
    ServerScalar,
    ServerObject { target: u64 },
    ClientScalar,
    ClientObject { target: u64 },
}

/// A selectable of the schema: the entity it is on, its name, and what it is.
#[derive(Clone, Copy, Debug, PartialEq, Eq, Structural)]
pub struct SelectableEntry {
    pub parent: u64,
    pub name: u64,
    pub kind: SelectableKind,
}

/// A client selectable, by the entity it is on and its name.
#[derive(Clone, Copy, Debug, PartialEq, Eq, Structural)]
pub enum ClientSelectableId {
    Scalar { parent: u64, name: u64 },
    Object { parent: u64, name: u64 },
}

/// A client selectable reached from a selection set, at the name that selects it.
#[derive(Clone, Copy, Debug, PartialEq, Eq, Structural)]
pub struct AccessibleSelectable {
    pub id: ClientSelectableId,
    pub location: Span,
}

/// What the selectable named `name` on `parent` is, by the first entry for it.
pub open spec fn spec_selectable_named(table: Seq<SelectableEntry>, parent: u64, name: u64, k: int) -> Option<SelectableKind>
    decreases table.len() - k,
{
    if k < 0 || k >= table.len() {
        None
    } else if table[k].parent == parent && table[k].name == name {
        Some(table[k].kind)
    } else {
        spec_selectable_named(table, parent, name, k + 1)
    }
}

/// The client selectables a selection set reaches, from its `i`-th selection on, in order: a
/// client scalar at its selection; a client object at its selection, then those its selection
/// set reaches on its target; and for a server object, those its selection set reaches.
pub open spec fn spec_accessible_from(set: Seq<SelectionModel>, i: int, parent: u64, table: Seq<SelectableEntry>) -> Seq<
    AccessibleSelectable,
>
    decreases set, set.len() - i,
{
    if 0 <= i < set.len() {
        spec_accessible_of(set[i], parent, table) + spec_accessible_from(set, i + 1, parent, table)
    } else {
        seq![]
    }
}

/// The client selectables one selection reaches.
pub open spec fn spec_accessible_of(s: SelectionModel, parent: u64, table: Seq<SelectableEntry>) -> Seq<AccessibleSelectable>
    decreases s, 0int,
{
    match s {
        SelectionModel::Scalar { name, location } => match spec_selectable_named(table, parent, name, 0) {
            Some(SelectableKind::ClientScalar) | Some(SelectableKind::ClientObject { .. }) => seq![
                AccessibleSelectable { id: ClientSelectableId::Scalar { parent, name }, location },
            ],
            _ => seq![],
        },
        SelectionModel::Object { name, location, selection_set } => match spec_selectable_named(
            table,
            parent,
            name,
            0,
        ) {
            Some(SelectableKind::ServerObject { target }) => spec_accessible_from(selection_set@, 0, target, table),
            Some(SelectableKind::ClientObject { target }) => seq![
                AccessibleSelectable { id: ClientSelectableId::Object { parent, name }, location },
            ] + spec_accessible_from(selection_set@, 0, target, table),
            _ => seq![],
        },
    }
}

/// Whether every selection names a selectable of its parent, and every object selection an
/// object selectable, from the `i`-th selection on.
pub open spec fn selections_resolve_from(set: Seq<SelectionModel>, i: int, parent: u64, table: Seq<SelectableEntry>) -> bool
    decreases set, set.len() - i,
{
    if 0 <= i < set.len() {
        selection_resolves(set[i], parent, table) && selections_resolve_from(set, i + 1, parent, table)
    } else {
        true
    }
}

/// Whether a selection names a selectable of its parent, an object one for an object selection,
/// and so on down.
pub open spec fn selection_resolves(s: SelectionModel, parent: u64, table: Seq<SelectableEntry>) -> bool
    decreases s, 0int,
{
    match s {
        SelectionModel::Scalar { name, .. } => spec_selectable_named(table, parent, name, 0) is Some,
        SelectionModel::Object { name, selection_set, .. } => match spec_selectable_named(table, parent, name, 0) {
            Some(SelectableKind::ServerObject { target }) => selections_resolve_from(selection_set@, 0, target, table),
            Some(SelectableKind::ClientObject { target }) => selections_resolve_from(selection_set@, 0, target, table),
            _ => false,
        },
    }
}

/// What the selectable named `name` on `parent` is.
fn selectable_named(table: &Vec<SelectableEntry>, parent: u64, name: u64) -> (r: Option<SelectableKind>)
    ensures
        r == spec_selectable_named(table@, parent, name, 0),
{
    let mut k: usize = 0;
    while k < table.len()
        invariant
            k <= table.len(),
            spec_selectable_named(table@, parent, name, 0) == spec_selectable_named(table@, parent, name, k as int),
        decreases table.len() - k,
    {
        let e = table[k];
        if e.parent == parent && e.name == name {
            return Some(e.kind);
        }
        k += 1;
    }
    None
}

/// Appends the client selectables the selections from the `i`-th on reach.
fn push_accessible_from(
    set: &Vec<SelectionModel>,
    i: usize,
    parent: u64,
    table: &Vec<SelectableEntry>,
    out: &mut Vec<AccessibleSelectable>,
)
    requires
        i <= set.len(),
        selections_resolve_from(set@, i as int, parent, table@),
    ensures
        final(out)@ == old(out)@ + spec_accessible_from(set@, i as int, parent, table@),
    decreases set@, set@.len() - i,
{
    if i < set.len() {
        push_accessible_of(&set[i], parent, table, out);
        push_accessible_from(set, i + 1, parent, table, out);
        proof {
            assert(old(out)@ + spec_accessible_from(set@, i as int, parent, table@) =~= old(out)@
                + spec_accessible_of(set@[i as int], parent, table@) + spec_accessible_from(set@, i + 1, parent, table@));
        }
    } else {
        proof {
            assert(old(out)@ + spec_accessible_from(set@, i as int, parent, table@) =~= old(out)@);
        }
    }
}

/// Appends the client selectables one selection reaches.
fn push_accessible_of(s: &SelectionModel, parent: u64, table: &Vec<SelectableEntry>, out: &mut Vec<AccessibleSelectable>)
    requires
        selection_resolves(*s, parent, table@),
    ensures
        final(out)@ == old(out)@ + spec_accessible_of(*s, parent, table@),
    decreases *s, 0int,
{
    match s {
        SelectionModel::Scalar { name, location } => match selectable_named(table, parent, *name) {
            Some(SelectableKind::ClientScalar) | Some(SelectableKind::ClientObject { .. }) => {
                out.push(
                    AccessibleSelectable { id: ClientSelectableId::Scalar { parent, name: *name }, location: *location },
                );
            },
            _ => {
                proof {
                    assert(old(out)@ + spec_accessible_of(*s, parent, table@) =~= old(out)@);
                }
            },
        },
        SelectionModel::Object { name, location, selection_set } => match selectable_named(table, parent, *name) {
            Some(SelectableKind::ServerObject { target }) => {
                push_accessible_from(selection_set, 0, target, table, out);
            },
            Some(SelectableKind::ClientObject { target }) => {
                let ghost before = out@;
                out.push(
                    AccessibleSelectable { id: ClientSelectableId::Object { parent, name: *name }, location: *location },
                );
                push_accessible_from(selection_set, 0, target, table, out);
                proof {
                    assert(out@ =~= before + spec_accessible_of(*s, parent, table@));
                }
            },
            _ => {},
        },
    }
}

/// The client selectables a selection set on `parent_entity_name` reaches, in the order the
/// selections name them: a client scalar at its selection, a client object at its selection
/// followed by those its own selection set reaches, and for a server object, those its
/// selection set reaches. Server scalars reach nothing.
pub fn accessible_client_selectables(
    selection_set: &Vec<SelectionModel>,
    parent_entity_name: u64,
    selectables: &Vec<SelectableEntry>,
) -> (r: Vec<AccessibleSelectable>)
    requires
        selections_resolve_from(selection_set@, 0, parent_entity_name, selectables@),
    ensures
        r@ == spec_accessible_from(selection_set@, 0, parent_entity_name, selectables@),
{
    let mut out: Vec<AccessibleSelectable> = Vec::new();
    push_accessible_from(selection_set, 0, parent_entity_name, selectables, &mut out);
    proof {
        assert(out@ =~= spec_accessible_from(selection_set@, 0, parent_entity_name, selectables@));
    }
    out
}

/// The ids of the client selectables a selection set on `parent_entity_name` reaches, in the
/// order `accessible_client_selectables` gives them.
pub fn accessible_client_fields(
    selection_set: &Vec<SelectionModel>,
    parent_entity_name: u64,
    selectables: &Vec<SelectableEntry>,
) -> (r: Vec<ClientSelectableId>)
    requires
        selections_resolve_from(selection_set@, 0, parent_entity_name, selectables@),
    ensures
        r@ == spec_accessible_from(selection_set@, 0, parent_entity_name, selectables@).map_values(
            |a: AccessibleSelectable| a.id,
        ),
{
    let all = accessible_client_selectables(selection_set, parent_entity_name, selectables);
    let mut r: Vec<ClientSelectableId> = Vec::new();
    let mut i: usize = 0;
    while i < all.len()
        invariant
            i <= all.len(),
            r@ == all@.subrange(0, i as int).map_values(|a: AccessibleSelectable| a.id),
        decreases all.len() - i,
    {
        r.push(all[i].id);
        proof {
            assert(r@ =~= all@.subrange(0, i + 1).map_values(|a: AccessibleSelectable| a.id));
        }
        i += 1;
    }
    proof {
        assert(all@.subrange(0, all@.len() as int) =~= all@);
    }
    r
}

/// The selection sets of a client field: its reader's, and, for an imperatively loaded one,
/// the selection set its refetch strategy reads.
#[derive(Debug, PartialEq, Eq)]
pub struct ClientScalarSelectionSets {
    pub imperatively_loaded: bool,
    pub refetch_selection_set: Option<Vec<SelectionModel>>,
    pub reader_selection_set: Vec<SelectionModel>,
}

/// The selection set a client field contributes to the query of its parent: the refetch
/// strategy's for an imperatively loaded field, which has one, and its reader's otherwise.
pub fn client_scalar_selectable_selection_set_for_parent_query(sets: &ClientScalarSelectionSets) -> (r: &Vec<SelectionModel>)
    requires
        sets.imperatively_loaded ==> sets.refetch_selection_set is Some,
    ensures
        sets.imperatively_loaded ==> *r == sets.refetch_selection_set.unwrap(),
        !sets.imperatively_loaded ==> *r == sets.reader_selection_set,
{
    if sets.imperatively_loaded {
        match &sets.refetch_selection_set {
            Some(set) => set,
            None => &sets.reader_selection_set,
        }
    } else {
        &sets.reader_selection_set
    }
}

} // verus!
