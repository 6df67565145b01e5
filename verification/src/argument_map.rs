use vstd::prelude::*;

use crate::span::Span;
use crate::string_value::{chars_of, string_from_chars};

verus! {

/// A wrapper of a GraphQL type annotation around its named type.
#[derive(Clone, Copy, Debug, PartialEq, Eq, Structural)]
pub enum TypeWrapper {
    NonNull,
    List,
}

/// The named type of an annotation: an object or a scalar entity, interned.
#[derive(Clone, Copy, Debug, PartialEq, Eq, Structural)]
pub enum ServerEntityName {
    Object(u64),
    Scalar(u64),
}

/// A server selectable of an object, by the entity it is on: a scalar or an object one.
#[derive(Clone, Copy, Debug, PartialEq, Eq, Structural)]
pub enum ServerSelectableId {
    Scalar(u64),
    Object(u64),
}

/// A type annotation: its wrappers, outermost first, around its named type.
#[derive(Debug, PartialEq, Eq)]
pub struct TypeAnnotationModel {
    pub wrappers: Vec<TypeWrapper>,
    pub inner: ServerEntityName,
}

/// A variable of a field: its name and type.
#[derive(Debug, PartialEq, Eq)]
pub struct VariableDefinition {
    pub name: String,
    pub type_: TypeAnnotationModel,
}

/// An argument whose object type loses fields: its name, its type's wrappers, and the fields of
/// its object that remain, by name.
#[derive(Debug, PartialEq, Eq)]
pub struct ModifiedArgument {
    pub name: String,
    pub wrappers: Vec<TypeWrapper>,
    pub field_map: Vec<(String, ServerSelectableId)>,
}

/// An argument of a field, as it was or with fields removed from its object.
#[derive(Debug, PartialEq, Eq)]
pub enum PotentiallyModifiedArgument {
    Unmodified(VariableDefinition),
    Modified(ModifiedArgument),
}

/// An argument and where it was declared.
#[derive(Debug, PartialEq, Eq)]
pub struct ArgumentEntry {
    pub item: PotentiallyModifiedArgument,
    pub location: Span,
}

/// The arguments of a field, as field map items remove them.
#[derive(Debug, PartialEq, Eq)]
pub struct ArgumentMap {
    pub arguments: Vec<ArgumentEntry>,
}

/// A server selectable of the schema: the entity it is on, its name, and what it is, or `None`
/// where its definition did not parse.
#[derive(Debug, PartialEq, Eq)]
pub struct ServerSelectableRecord {
    pub entity: u64,
    pub name: String,
    pub selectable: Option<ServerSelectableId>,
}

/// A field map item: the field `from` is mapped to the argument path `to` (`arg` or
/// `arg.field`).
#[derive(Debug, PartialEq, Eq)]
pub struct FieldMapItem {
    pub from: String,
    pub to: String,
}

/// A field map item that was applied.
#[derive(Debug, PartialEq, Eq)]
pub struct ProcessedFieldMapItem(pub FieldMapItem);

/// The argument path of a field map item: the argument's name and the field names after it.
#[derive(Debug, PartialEq, Eq)]
pub struct SplitToArg {
    pub to_argument_name: String,
    pub to_field_names: Vec<String>,
}

/// Why a field map item could not be applied.
#[derive(Debug, PartialEq, Eq)]
pub enum CreateAdditionalFieldsError {
    PrimaryDirectiveArgumentDoesNotExistOnField {
        primary_object_entity_name: u64,
        mutation_object_entity_name: u64,
        mutation_selectable_name: u64,
        field_name: String,
    },
    PrimaryDirectiveCannotRemapObject { primary_object_entity_name: u64, field_name: String },
    PrimaryDirectiveFieldNotFound { primary_object_entity_name: u64, field_name: String },
}

/// The abstract value of the error.
pub enum FieldMapErrorView {
    ArgumentDoesNotExist { primary: u64, mutation_object: u64, mutation_selectable: u64, field_name: Seq<char> },
    CannotRemapObject { primary: u64, field_name: Seq<char> },
    FieldNotFound { primary: u64, field_name: Seq<char> },
}

pub open spec fn error_view(e: CreateAdditionalFieldsError) -> FieldMapErrorView {
    match e {
        CreateAdditionalFieldsError::PrimaryDirectiveArgumentDoesNotExistOnField {
            primary_object_entity_name,
            mutation_object_entity_name,
            mutation_selectable_name,
            field_name,
        } => FieldMapErrorView::ArgumentDoesNotExist {
            primary: primary_object_entity_name,
            mutation_object: mutation_object_entity_name,
            mutation_selectable: mutation_selectable_name,
            field_name: field_name@,
        },
        CreateAdditionalFieldsError::PrimaryDirectiveCannotRemapObject { primary_object_entity_name, field_name } =>
            FieldMapErrorView::CannotRemapObject { primary: primary_object_entity_name, field_name: field_name@ },
        CreateAdditionalFieldsError::PrimaryDirectiveFieldNotFound { primary_object_entity_name, field_name } =>
            FieldMapErrorView::FieldNotFound { primary: primary_object_entity_name, field_name: field_name@ },
    }
}

/// The segments of `s` between dots, from the `i`-th character on, `cur` the segment begun and
/// `done` the segments ended.
pub open spec fn split_dots_from(s: Seq<char>, i: int, cur: Seq<char>, done: Seq<Seq<char>>) -> Seq<Seq<char>>
    decreases s.len() - i,
{
    if i < 0 || i >= s.len() {
        done.push(cur)
    } else if s[i] == '.' {
        split_dots_from(s, i + 1, seq![], done.push(cur))
    } else {
        split_dots_from(s, i + 1, cur.push(s[i]), done)
    }
}

/// The segments of `s` between dots, at least one.
pub open spec fn split_dots(s: Seq<char>) -> Seq<Seq<char>> {
    split_dots_from(s, 0, seq![], seq![])
}

proof fn lemma_split_dots_nonempty(s: Seq<char>, i: int, cur: Seq<char>, done: Seq<Seq<char>>)
    ensures
        split_dots_from(s, i, cur, done).len() > done.len(),
    decreases s.len() - i,
{
    if 0 <= i < s.len() {
        if s[i] == '.' {
            lemma_split_dots_nonempty(s, i + 1, seq![], done.push(cur));
        } else {
            lemma_split_dots_nonempty(s, i + 1, cur.push(s[i]), done);
        }
    }
}

impl FieldMapItem {
    /// Splits `to` at its dots: the argument's name, then the field names.
    pub fn split_to_arg(&self) -> (r: SplitToArg)
        ensures
            r.to_argument_name@ == split_dots(self.to@)[0],
            r.to_field_names@.len() + 1 == split_dots(self.to@).len(),
            forall|k: int| 0 <= k < r.to_field_names@.len() ==> #[trigger] r.to_field_names@[k]@ == split_dots(self.to@)[k + 1],
    {
        let chars = chars_of(self.to.as_str());
        let ghost s = chars@;
        let mut segments: Vec<String> = Vec::new();
        let mut start: usize = 0;
        let mut i: usize = 0;
        proof {
            assert(s.subrange(0, 0) =~= Seq::<char>::empty());
            assert(segments@.map_values(|x: String| x@) =~= Seq::<Seq<char>>::empty());
        }
        while i < chars.len()
            invariant
                s == chars@,
                s == self.to@,
                start <= i <= chars.len(),
                split_dots(s) == split_dots_from(s, i as int, s.subrange(start as int, i as int), segments@.map_values(|x: String| x@)),
            decreases chars.len() - i,
        {
            if chars[i] == '.' {
                let seg = string_from_chars(&chars, start, i);
                let ghost before = segments@.map_values(|x: String| x@);
                segments.push(seg);
                proof {
                    assert(segments@.map_values(|x: String| x@) =~= before.push(s.subrange(start as int, i as int)));
                    assert(s.subrange(i + 1, i + 1) =~= Seq::<char>::empty());
                }
                start = i + 1;
            } else {
                proof {
                    assert(s.subrange(start as int, i + 1) =~= s.subrange(start as int, i as int).push(s[i as int]));
                }
            }
            i += 1;
        }
        let last = string_from_chars(&chars, start, chars.len());
        let ghost before = segments@.map_values(|x: String| x@);
        segments.push(last);
        proof {
            assert(segments@.map_values(|x: String| x@) =~= before.push(s.subrange(start as int, i as int)));
            assert(split_dots(s) == segments@.map_values(|x: String| x@));
            assert(s.subrange(0, 0) =~= Seq::<char>::empty());
        }
        let ghost all = segments@;
        let first = segments.remove(0);
        proof {
            assert(first@ == all.map_values(|x: String| x@)[0]);
            assert forall|k: int| 0 <= k < segments@.len() implies #[trigger] segments@[k]@ == split_dots(s)[k + 1] by {
                assert(split_dots(s)[k + 1] == before.push(s.subrange(start as int, i as int))[k + 1]);
            }
        }
        SplitToArg { to_argument_name: first, to_field_names: segments }
    }
}

/// The abstract value of an argument.
pub enum ArgumentView {
    Unmodified { name: Seq<char>, wrappers: Seq<TypeWrapper>, inner: ServerEntityName, location: Span },
    Modified { name: Seq<char>, wrappers: Seq<TypeWrapper>, fields: Seq<(Seq<char>, ServerSelectableId)>, location: Span },
}

pub open spec fn field_map_view(v: Seq<(String, ServerSelectableId)>) -> Seq<(Seq<char>, ServerSelectableId)> {
    Seq::new(v.len(), |i: int| (v[i].0@, v[i].1))
}

pub open spec fn argument_view(a: ArgumentEntry) -> ArgumentView {
    match a.item {
        PotentiallyModifiedArgument::Unmodified(v) => ArgumentView::Unmodified {
            name: v.name@,
            wrappers: v.type_.wrappers@,
            inner: v.type_.inner,
            location: a.location,
        },
        PotentiallyModifiedArgument::Modified(m) => ArgumentView::Modified {
            name: m.name@,
            wrappers: m.wrappers@,
            fields: field_map_view(m.field_map@),
            location: a.location,
        },
    }
}

pub open spec fn arguments_view(v: Seq<ArgumentEntry>) -> Seq<ArgumentView> {
    Seq::new(v.len(), |i: int| argument_view(v[i]))
}

pub open spec fn view_name(a: ArgumentView) -> Seq<char> {
    match a {
        ArgumentView::Unmodified { name, .. } => name,
        ArgumentView::Modified { name, .. } => name,
    }
}

/// The position of the first argument named `name` from `k` on.
pub open spec fn argument_index_from(args: Seq<ArgumentView>, name: Seq<char>, k: int) -> Option<int>
    decreases args.len() - k,
{
    if k < 0 || k >= args.len() {
        None
    } else if view_name(args[k]) == name {
        Some(k)
    } else {
        argument_index_from(args, name, k + 1)
    }
}

/// The position of the first field named `name` from `k` on.
pub open spec fn field_key_index_from(fields: Seq<(Seq<char>, ServerSelectableId)>, name: Seq<char>, k: int) -> Option<int>
    decreases fields.len() - k,
{
    if k < 0 || k >= fields.len() {
        None
    } else if fields[k].0 == name {
        Some(k)
    } else {
        field_key_index_from(fields, name, k + 1)
    }
}

/// The fields with `name` mapped to `id`, replacing the field of that name when there is one.
pub open spec fn put_field(fields: Seq<(Seq<char>, ServerSelectableId)>, name: Seq<char>, id: ServerSelectableId) -> Seq<
    (Seq<char>, ServerSelectableId),
> {
    match field_key_index_from(fields, name, 0) {
        Some(k) => fields.update(k, (name, id)),
        None => fields.push((name, id)),
    }
}

/// The server selectables of `entity` by name, from the `k`-th record on, added to `acc`: a later
/// record of a name replaces an earlier one, and one that did not parse is left out.
pub open spec fn fields_of_from(table: Seq<ServerSelectableRecord>, entity: u64, k: int, acc: Seq<(Seq<char>, ServerSelectableId)>) -> Seq<
    (Seq<char>, ServerSelectableId),
>
    decreases table.len() - k,
{
    if k < 0 || k >= table.len() {
        acc
    } else if table[k].entity == entity && table[k].selectable is Some {
        fields_of_from(table, entity, k + 1, put_field(acc, table[k].name@, table[k].selectable->Some_0))
    } else {
        fields_of_from(table, entity, k + 1, acc)
    }
}

/// Removing the field `first` of an argument's object, the path ending there: not found, an
/// object field (which cannot be remapped), or the fields without it.
pub open spec fn spec_remove_to_field(fields: Seq<(Seq<char>, ServerSelectableId)>, first: Seq<char>, primary: u64) -> Result<
    Seq<(Seq<char>, ServerSelectableId)>,
    FieldMapErrorView,
> {
    match field_key_index_from(fields, first, 0) {
        None => Err(FieldMapErrorView::FieldNotFound { primary, field_name: first }),
        Some(k) => match fields[k].1 {
            ServerSelectableId::Object(_) => Err(FieldMapErrorView::CannotRemapObject { primary, field_name: first }),
            ServerSelectableId::Scalar(_) => Ok(fields.remove(k)),
        },
    }
}

/// Applying a field map item whose target path is `to` to the arguments: the argument named by
/// the path's first segment is removed when the path ends there and its type is a scalar; with
/// one more segment, that field is removed from its object, which makes it a modified argument.
/// On an error the arguments are unchanged.
pub open spec fn spec_remove_field_map_item(
    args: Seq<ArgumentView>,
    to: Seq<char>,
    primary: u64,
    mutation_object: u64,
    mutation_selectable: u64,
    table: Seq<ServerSelectableRecord>,
) -> (Seq<ArgumentView>, Result<(), FieldMapErrorView>) {
    let segments = split_dots(to);
    let argument_name = segments[0];
    match argument_index_from(args, argument_name, 0) {
        None => (
            args,
            Err(FieldMapErrorView::ArgumentDoesNotExist {
                primary,
                mutation_object,
                mutation_selectable,
                field_name: argument_name,
            }),
        ),
        Some(i) => match args[i] {
            ArgumentView::Unmodified { name, wrappers, inner, location } => if segments.len() == 1 {
                if inner is Object {
                    (args, Err(FieldMapErrorView::CannotRemapObject { primary, field_name: argument_name }))
                } else {
                    (args.update(i, args.last()).drop_last(), Ok(()))
                }
            } else {
                let fields = fields_of_from(table, inner->Object_0, 0, seq![]);
                match spec_remove_to_field(fields, segments[1], primary) {
                    Err(e) => (args, Err(e)),
                    Ok(remaining) => (args.update(i, ArgumentView::Modified { name, wrappers, fields: remaining, location }), Ok(())),
                }
            },
            ArgumentView::Modified { name, wrappers, fields, location } => if segments.len() == 1 {
                (args, Err(FieldMapErrorView::CannotRemapObject { primary, field_name: argument_name }))
            } else {
                match spec_remove_to_field(fields, segments[1], primary) {
                    Err(e) => (args, Err(e)),
                    Ok(remaining) => (args.update(i, ArgumentView::Modified { name, wrappers, fields: remaining, location }), Ok(())),
                }
            },
        },
    }
}

/// No field name occurs twice in a field map.
pub open spec fn field_names_unique(f: Seq<(Seq<char>, ServerSelectableId)>) -> bool {
    forall|a: int, b: int| 0 <= a < b < f.len() ==> #[trigger] f[a].0 != #[trigger] f[b].0
}

/// The field map of every modified argument has each field name once.
pub open spec fn modified_fields_unique(args: Seq<ArgumentView>) -> bool {
    forall|i: int| 0 <= i < args.len() ==> (#[trigger] args[i] matches ArgumentView::Modified { fields, .. } ==> field_names_unique(fields))
}

proof fn lemma_field_key_index_from(f: Seq<(Seq<char>, ServerSelectableId)>, name: Seq<char>, k: int)
    requires
        0 <= k,
    ensures
        field_key_index_from(f, name, k) is None ==> forall|i: int| k <= i < f.len() ==> #[trigger] f[i].0 != name,
        field_key_index_from(f, name, k) matches Some(x) ==> k <= x < f.len() && f[x].0 == name,
    decreases f.len() - k,
{
    if k < f.len() && f[k].0 != name {
        lemma_field_key_index_from(f, name, k + 1);
    }
}

proof fn lemma_put_field_unique(f: Seq<(Seq<char>, ServerSelectableId)>, name: Seq<char>, id: ServerSelectableId)
    requires
        field_names_unique(f),
    ensures
        field_names_unique(put_field(f, name, id)),
{
    lemma_field_key_index_from(f, name, 0);
    let g = put_field(f, name, id);
    assert forall|a: int, b: int| 0 <= a < b < g.len() implies #[trigger] g[a].0 != #[trigger] g[b].0 by {
        match field_key_index_from(f, name, 0) {
            Some(k) => {
                assert(g[a].0 == f[a].0 && g[b].0 == f[b].0);
            },
            None => {
                if b == f.len() {
                    assert(f[a].0 != name);
                }
            },
        }
    }
}

/// The fields of an entity have each name once.
pub proof fn lemma_fields_of_unique(table: Seq<ServerSelectableRecord>, entity: u64, k: int, acc: Seq<(Seq<char>, ServerSelectableId)>)
    requires
        field_names_unique(acc),
    ensures
        field_names_unique(fields_of_from(table, entity, k, acc)),
    decreases table.len() - k,
{
    if 0 <= k < table.len() {
        if table[k].entity == entity && table[k].selectable is Some {
            lemma_put_field_unique(acc, table[k].name@, table[k].selectable->Some_0);
            lemma_fields_of_unique(table, entity, k + 1, put_field(acc, table[k].name@, table[k].selectable->Some_0));
        } else {
            lemma_fields_of_unique(table, entity, k + 1, acc);
        }
    }
}

proof fn lemma_remove_to_field_unique(fields: Seq<(Seq<char>, ServerSelectableId)>, first: Seq<char>, primary: u64)
    requires
        field_names_unique(fields),
    ensures
        spec_remove_to_field(fields, first, primary) matches Ok(remaining) ==> field_names_unique(remaining),
{
    lemma_field_key_index_from(fields, first, 0);
    match field_key_index_from(fields, first, 0) {
        Some(k) => {
            let r = fields.remove(k);
            assert forall|a: int, b: int| 0 <= a < b < r.len() implies #[trigger] r[a].0 != #[trigger] r[b].0 by {
                let fa = if a < k { a } else { a + 1 };
                let fb = if b < k { b } else { b + 1 };
                assert(r[a] == fields[fa] && r[b] == fields[fb]);
            }
        },
        None => {},
    }
}

/// Applying a field map item keeps the field names of every modified argument unique.
pub proof fn lemma_remove_field_map_item_unique(
    args: Seq<ArgumentView>,
    to: Seq<char>,
    primary: u64,
    mutation_object: u64,
    mutation_selectable: u64,
    table: Seq<ServerSelectableRecord>,
)
    requires
        modified_fields_unique(args),
    ensures
        modified_fields_unique(spec_remove_field_map_item(args, to, primary, mutation_object, mutation_selectable, table).0),
{
    let segments = split_dots(to);
    match argument_index_from(args, segments[0], 0) {
        None => {},
        Some(i) => {
            lemma_argument_index_in_range(args, segments[0], 0);
            let out = spec_remove_field_map_item(args, to, primary, mutation_object, mutation_selectable, table).0;
            match args[i] {
                ArgumentView::Unmodified { inner, .. } => {
                    if segments.len() == 1 {
                        if !(inner is Object) {
                            assert forall|t: int| 0 <= t < out.len() implies (#[trigger] out[t] matches ArgumentView::Modified { fields, .. } ==> field_names_unique(fields)) by {
                                if t == i {
                                    assert(out[t] == args[args.len() - 1]);
                                } else {
                                    assert(out[t] == args[t]);
                                }
                            }
                        }
                    } else {
                        let fields = fields_of_from(table, inner->Object_0, 0, seq![]);
                        lemma_fields_of_unique(table, inner->Object_0, 0, seq![]);
                        lemma_remove_to_field_unique(fields, segments[1], primary);
                        assert forall|t: int| 0 <= t < out.len() implies (#[trigger] out[t] matches ArgumentView::Modified { fields, .. } ==> field_names_unique(fields)) by {
                            if t != i {
                                assert(out[t] == args[t]);
                            }
                        }
                    }
                },
                ArgumentView::Modified { fields, .. } => {
                    if segments.len() != 1 {
                        assert(args[i] matches ArgumentView::Modified { fields, .. } ==> field_names_unique(fields));
                        lemma_remove_to_field_unique(fields, segments[1], primary);
                        assert forall|t: int| 0 <= t < out.len() implies (#[trigger] out[t] matches ArgumentView::Modified { fields, .. } ==> field_names_unique(fields)) by {
                            if t != i {
                                assert(out[t] == args[t]);
                            }
                        }
                    }
                },
            }
        },
    }
}

proof fn lemma_removed_field_is_gone(fields: Seq<(Seq<char>, ServerSelectableId)>, first: Seq<char>, primary: u64)
    requires
        field_names_unique(fields),
    ensures
        spec_remove_to_field(fields, first, primary) matches Ok(remaining) ==> field_key_index_from(remaining, first, 0) is None
            && remaining.len() + 1 == fields.len() && forall|t: int| 0 <= t < remaining.len() ==> exists|u: int|
            0 <= u < fields.len() && #[trigger] remaining[t] == fields[u],
{
    lemma_field_key_index_from(fields, first, 0);
    match field_key_index_from(fields, first, 0) {
        Some(k) => {
            let r = fields.remove(k);
            assert forall|t: int| 0 <= t < r.len() implies #[trigger] r[t].0 != first && exists|u: int|
                0 <= u < fields.len() && r[t] == fields[u] by {
                let u = if t < k { t } else { t + 1 };
                assert(r[t] == fields[u]);
                assert(u != k);
            }
            assert forall|t: int| 0 <= t < r.len() implies exists|u: int| 0 <= u < fields.len() && #[trigger] r[t] == fields[u] by {
                assert(r[t].0 != first && exists|u: int| 0 <= u < fields.len() && r[t] == fields[u]);
            }
            let remaining = r;
            assert forall|t: int| 0 <= t < remaining.len() implies #[trigger] remaining[t].0 != first by {
                assert(r[t].0 != first && exists|u: int| 0 <= u < fields.len() && r[t] == fields[u]);
            }
            lemma_field_key_index_from(remaining, first, 0);
        },
        None => {},
    }
}

/// An item `argument.field` that applies turns the argument into a modified one, of the same
/// name and at the same place, whose field map no longer has `field` and keeps one field fewer,
/// each of them one the argument's object had; whether or not the argument was modified before.
/// The other arguments stay as they are.
pub proof fn law_an_applied_field_item_removes_the_field(
    args: Seq<ArgumentView>,
    to: Seq<char>,
    primary: u64,
    mutation_object: u64,
    mutation_selectable: u64,
    table: Seq<ServerSelectableRecord>,
)
    requires
        modified_fields_unique(args),
        split_dots(to).len() > 1,
        spec_remove_field_map_item(args, to, primary, mutation_object, mutation_selectable, table).1 is Ok,
    ensures
        ({
            let segments = split_dots(to);
            let out = spec_remove_field_map_item(args, to, primary, mutation_object, mutation_selectable, table).0;
            &&& argument_index_from(args, segments[0], 0) matches Some(i) && {
                &&& 0 <= i < args.len()
                &&& out.len() == args.len()
                &&& forall|t: int| 0 <= t < args.len() && t != i ==> #[trigger] out[t] == args[t]
                &&& out[i] matches ArgumentView::Modified { name, fields, .. } && {
                    &&& name == view_name(args[i])
                    &&& field_key_index_from(fields, segments[1], 0) is None
                    &&& (args[i] matches ArgumentView::Modified { fields: before, .. } ==> fields.len() + 1 == before.len()
                        && forall|t: int| 0 <= t < fields.len() ==> exists|u: int| 0 <= u < before.len() && #[trigger] fields[t] == before[u])
                }
            }
        }),
{
    let segments = split_dots(to);
    lemma_argument_index_in_range(args, segments[0], 0);
    let i = argument_index_from(args, segments[0], 0)->Some_0;
    match args[i] {
        ArgumentView::Unmodified { inner, .. } => {
            let fields = fields_of_from(table, inner->Object_0, 0, seq![]);
            lemma_fields_of_unique(table, inner->Object_0, 0, seq![]);
            lemma_removed_field_is_gone(fields, segments[1], primary);
        },
        ArgumentView::Modified { fields, .. } => {
            assert(args[i] matches ArgumentView::Modified { fields, .. } ==> field_names_unique(fields));
            lemma_removed_field_is_gone(fields, segments[1], primary);
        },
    }
}

/// An item naming a bare argument that applies removes that argument, and keeps every other
/// argument, one fewer in all; where names are unique, no argument of that name remains.
pub proof fn law_an_applied_argument_item_removes_the_argument(
    args: Seq<ArgumentView>,
    to: Seq<char>,
    primary: u64,
    mutation_object: u64,
    mutation_selectable: u64,
    table: Seq<ServerSelectableRecord>,
)
    requires
        split_dots(to).len() == 1,
        spec_remove_field_map_item(args, to, primary, mutation_object, mutation_selectable, table).1 is Ok,
    ensures
        ({
            let segments = split_dots(to);
            let out = spec_remove_field_map_item(args, to, primary, mutation_object, mutation_selectable, table).0;
            &&& argument_index_from(args, segments[0], 0) matches Some(i) && {
                &&& out.len() + 1 == args.len()
                &&& forall|t: int| 0 <= t < out.len() ==> exists|u: int| 0 <= u < args.len() && u != i && #[trigger] out[t] == args[u]
                &&& forall|u: int| 0 <= u < args.len() && u != i ==> exists|t: int| 0 <= t < out.len() && out[t] == #[trigger] args[u]
                &&& (forall|a: int, b: int| 0 <= a < b < args.len() ==> view_name(#[trigger] args[a]) != view_name(#[trigger] args[b]))
                    ==> forall|t: int| 0 <= t < out.len() ==> view_name(#[trigger] out[t]) != segments[0]
            }
        }),
{
    let segments = split_dots(to);
    lemma_argument_index_in_range(args, segments[0], 0);
    let i = argument_index_from(args, segments[0], 0)->Some_0;
    lemma_argument_index_found(args, segments[0], 0);
    let out = spec_remove_field_map_item(args, to, primary, mutation_object, mutation_selectable, table).0;
    let last = args.len() - 1;
    assert forall|t: int| 0 <= t < out.len() implies exists|u: int| 0 <= u < args.len() && u != i && #[trigger] out[t] == args[u] by {
        if t == i {
            assert(out[t] == args[last]);
        } else {
            assert(out[t] == args[t]);
        }
    }
    assert forall|u: int| 0 <= u < args.len() && u != i implies exists|t: int| 0 <= t < out.len() && out[t] == #[trigger] args[u] by {
        if u == last {
            assert(out[i] == args[u]);
        } else {
            assert(out[u] == args[u]);
        }
    }
    if forall|a: int, b: int| 0 <= a < b < args.len() ==> view_name(#[trigger] args[a]) != view_name(#[trigger] args[b]) {
        assert forall|t: int| 0 <= t < out.len() implies view_name(#[trigger] out[t]) != segments[0] by {
            let u = if t == i { last } else { t };
            assert(out[t] == args[u]);
            assert(u != i);
            if u < i {
                assert(view_name(args[u]) != view_name(args[i]));
            } else {
                assert(view_name(args[i]) != view_name(args[u]));
            }
        }
    }
}

/// Whether the path names, as its second and last segment, a scalar field that the argument
/// named by its first segment has: among its object's fields, or in its remaining field map.
pub open spec fn names_a_present_scalar_field(args: Seq<ArgumentView>, segments: Seq<Seq<char>>, table: Seq<ServerSelectableRecord>) -> bool {
    segments.len() == 2 && match argument_index_from(args, segments[0], 0) {
        None => false,
        Some(i) => {
            let fields = match args[i] {
                ArgumentView::Unmodified { inner, .. } => match inner {
                    ServerEntityName::Object(o) => fields_of_from(table, o, 0, seq![]),
                    ServerEntityName::Scalar(_) => seq![],
                },
                ArgumentView::Modified { fields, .. } => fields,
            };
            match field_key_index_from(fields, segments[1], 0) {
                Some(k) => fields[k].1 is Scalar,
                None => false,
            }
        },
    }
}

/// An item that fails leaves the arguments as they were; and an item `argument.field` naming a
/// scalar field that the argument's object (or its remaining field map) has does not fail.
pub proof fn law_field_items_fail_without_change_and_apply_to_present_scalar_fields(
    args: Seq<ArgumentView>,
    to: Seq<char>,
    primary: u64,
    mutation_object: u64,
    mutation_selectable: u64,
    table: Seq<ServerSelectableRecord>,
)
    ensures
        spec_remove_field_map_item(args, to, primary, mutation_object, mutation_selectable, table).1 is Err
            ==> spec_remove_field_map_item(args, to, primary, mutation_object, mutation_selectable, table).0 == args,
        names_a_present_scalar_field(args, split_dots(to), table) ==> spec_remove_field_map_item(
            args,
            to,
            primary,
            mutation_object,
            mutation_selectable,
            table,
        ).1 is Ok,
{
}

proof fn lemma_argument_index_found(args: Seq<ArgumentView>, name: Seq<char>, k: int)
    requires
        0 <= k,
    ensures
        argument_index_from(args, name, k) matches Some(x) ==> view_name(args[x]) == name,
    decreases args.len() - k,
{
    if k < args.len() && view_name(args[k]) != name {
        lemma_argument_index_found(args, name, k + 1);
    }
}

proof fn lemma_argument_index_in_range(args: Seq<ArgumentView>, name: Seq<char>, k: int)
    requires
        0 <= k,
    ensures
        argument_index_from(args, name, k) matches Some(x) ==> k <= x < args.len(),
    decreases args.len() - k,
{
    if k < args.len() && view_name(args[k]) != name {
        lemma_argument_index_in_range(args, name, k + 1);
    }
}

/// Whether applying the item panics: a scalar argument given a field path, or a field found at
/// the end of a path of more than two segments, which is not supported.
pub open spec fn remove_field_map_item_panics(args: Seq<ArgumentView>, to: Seq<char>, table: Seq<ServerSelectableRecord>) -> bool {
    let segments = split_dots(to);
    match argument_index_from(args, segments[0], 0) {
        None => false,
        Some(i) => segments.len() > 1 && match args[i] {
            ArgumentView::Unmodified { inner, .. } => match inner {
                ServerEntityName::Scalar(_) => true,
                ServerEntityName::Object(o) => segments.len() > 2 && field_key_index_from(
                    fields_of_from(table, o, 0, seq![]),
                    segments[1],
                    0,
                ) is Some,
            },
            ArgumentView::Modified { fields, .. } => segments.len() > 2 && field_key_index_from(fields, segments[1], 0) is Some,
        },
    }
}

fn field_key_index(fields: &Vec<(String, ServerSelectableId)>, name: &String) -> (r: Option<usize>)
    ensures
        match r {
            Some(k) => k < fields.len() && field_key_index_from(field_map_view(fields@), name@, 0) == Some(k as int),
            None => field_key_index_from(field_map_view(fields@), name@, 0) is None,
        },
{
    let ghost fv = field_map_view(fields@);
    let mut i: usize = 0;
    while i < fields.len()
        invariant
            fv == field_map_view(fields@),
            i <= fields.len(),
            field_key_index_from(fv, name@, 0) == field_key_index_from(fv, name@, i as int),
        decreases fields.len() - i,
    {
        if fields[i].0 == *name {
            return Some(i);
        }
        i += 1;
    }
    None
}

fn argument_index(args: &Vec<ArgumentEntry>, name: &String) -> (r: Option<usize>)
    ensures
        match r {
            Some(k) => k < args.len() && argument_index_from(arguments_view(args@), name@, 0) == Some(k as int),
            None => argument_index_from(arguments_view(args@), name@, 0) is None,
        },
{
    let ghost av = arguments_view(args@);
    let mut i: usize = 0;
    while i < args.len()
        invariant
            av == arguments_view(args@),
            i <= args.len(),
            argument_index_from(av, name@, 0) == argument_index_from(av, name@, i as int),
        decreases args.len() - i,
    {
        let matches = match &args[i].item {
            PotentiallyModifiedArgument::Unmodified(v) => v.name == *name,
            PotentiallyModifiedArgument::Modified(m) => m.name == *name,
        };
        proof {
            assert(av[i as int] == argument_view(args@[i as int]));
        }
        if matches {
            return Some(i);
        }
        i += 1;
    }
    None
}

/// The server selectables of `entity` by name, a later record of a name replacing an earlier
/// one, those that did not parse left out.
fn fields_of(table: &Vec<ServerSelectableRecord>, entity: u64) -> (r: Vec<(String, ServerSelectableId)>)
    ensures
        field_map_view(r@) == fields_of_from(table@, entity, 0, seq![]),
{
    let mut r: Vec<(String, ServerSelectableId)> = Vec::new();
    let mut k: usize = 0;
    proof {
        assert(field_map_view(r@) =~= Seq::<(Seq<char>, ServerSelectableId)>::empty());
    }
    while k < table.len()
        invariant
            k <= table.len(),
            fields_of_from(table@, entity, 0, seq![]) == fields_of_from(table@, entity, k as int, field_map_view(r@)),
        decreases table.len() - k,
    {
        let record = &table[k];
        if record.entity == entity {
            match record.selectable {
                Some(id) => {
                    let ghost before = field_map_view(r@);
                    match field_key_index(&r, &record.name) {
                        Some(j) => {
                            r.set(j, (record.name.clone(), id));
                            proof {
                                assert(field_map_view(r@) =~= before.update(j as int, (record.name@, id)));
                            }
                        },
                        None => {
                            r.push((record.name.clone(), id));
                            proof {
                                assert(field_map_view(r@) =~= before.push((record.name@, id)));
                            }
                        },
                    }
                },
                None => {},
            }
        }
        k += 1;
    }
    r
}

fn copy_fields(v: &Vec<(String, ServerSelectableId)>) -> (r: Vec<(String, ServerSelectableId)>)
    ensures
        field_map_view(r@) == field_map_view(v@),
{
    let mut r: Vec<(String, ServerSelectableId)> = Vec::new();
    let mut i: usize = 0;
    while i < v.len()
        invariant
            i <= v.len(),
            field_map_view(r@) == field_map_view(v@).subrange(0, i as int),
        decreases v.len() - i,
    {
        let ghost before = field_map_view(r@);
        let name = v[i].0.clone();
        let id = v[i].1;
        proof {
            assert(name@ == v@[i as int].0@);
        }
        r.push((name, id));
        proof {
            assert(field_map_view(r@) =~= before.push((v@[i as int].0@, v@[i as int].1)));
            assert(field_map_view(r@) =~= field_map_view(v@).subrange(0, i + 1));
        }
        i += 1;
    }
    proof {
        assert(field_map_view(v@).subrange(0, v@.len() as int) =~= field_map_view(v@));
    }
    r
}

fn copy_wrappers(v: &Vec<TypeWrapper>) -> (r: Vec<TypeWrapper>)
    ensures
        r@ == v@,
{
    let mut r: Vec<TypeWrapper> = Vec::new();
    let mut i: usize = 0;
    while i < v.len()
        invariant
            i <= v.len(),
            r@ == v@.subrange(0, i as int),
        decreases v.len() - i,
    {
        r.push(v[i]);
        proof {
            assert(r@ =~= v@.subrange(0, i + 1));
        }
        i += 1;
    }
    proof {
        assert(v@.subrange(0, v@.len() as int) =~= v@);
    }
    r
}

/// Removes the field `first` from an argument's object, the path ending there.
fn remove_to_field(fields: &mut Vec<(String, ServerSelectableId)>, first: &String, primary: u64) -> (r: Result<
    (),
    CreateAdditionalFieldsError,
>)
    ensures
        match spec_remove_to_field(field_map_view(old(fields)@), first@, primary) {
            Err(e) => r matches Err(x) && error_view(x) == e && final(fields)@ == old(fields)@,
            Ok(remaining) => r is Ok && field_map_view(final(fields)@) == remaining,
        },
{
    match field_key_index(fields, first) {
        None => Err(
            CreateAdditionalFieldsError::PrimaryDirectiveFieldNotFound {
                primary_object_entity_name: primary,
                field_name: first.clone(),
            },
        ),
        Some(k) => match fields[k].1 {
            ServerSelectableId::Object(_) => Err(
                CreateAdditionalFieldsError::PrimaryDirectiveCannotRemapObject {
                    primary_object_entity_name: primary,
                    field_name: first.clone(),
                },
            ),
            ServerSelectableId::Scalar(_) => {
                let ghost before = field_map_view(fields@);
                fields.remove(k);
                proof {
                    assert(field_map_view(fields@) =~= before.remove(k as int));
                }
                Ok(())
            },
        },
    }
}

impl ArgumentMap {
    /// The arguments of a field, none of them modified yet.
    pub fn new(arguments: Vec<(VariableDefinition, Span)>) -> (r: Self)
        ensures
            r.arguments@.len() == arguments@.len(),
            forall|i: int| 0 <= i < arguments@.len() ==> #[trigger] r.arguments@[i] == (ArgumentEntry {
                item: PotentiallyModifiedArgument::Unmodified(arguments@[i].0),
                location: arguments@[i].1,
            }),
    {
        let mut arguments = arguments;
        let ghost all = arguments@;
        let mut r: Vec<ArgumentEntry> = Vec::new();
        proof {
            assert(all.skip(0) =~= all);
        }
        while arguments.len() > 0
            invariant
                r@.len() <= all.len(),
                arguments@ == all.skip(r@.len() as int),
                forall|i: int| 0 <= i < r@.len() ==> #[trigger] r@[i] == (ArgumentEntry {
                    item: PotentiallyModifiedArgument::Unmodified(all[i].0),
                    location: all[i].1,
                }),
            decreases arguments.len(),
        {
            let ghost n = r@.len() as int;
            let (v, location) = arguments.remove(0);
            proof {
                assert(all[n] == (v, location));
                assert(arguments@ =~= all.skip(n + 1));
            }
            r.push(ArgumentEntry { item: PotentiallyModifiedArgument::Unmodified(v), location });
        }
        ArgumentMap { arguments: r }
    }
}

/// Applies a field map item to a field's arguments: the argument its target names is removed
/// when the target is the argument itself, of a scalar type; when the target is a field of the
/// argument's object (`arg.field`), that field, a scalar, is removed from the object, which makes
/// the argument a modified one. The item comes back as processed; on an error the arguments are
/// unchanged. A target of a scalar argument's field, or one of more than two segments whose
/// field exists, is not supported.
pub fn remove_field_map_item(
    argument_map: &mut ArgumentMap,
    field_map_item: FieldMapItem,
    primary_object_entity_name: u64,
    mutation_object_entity_name: u64,
    mutation_selectable_name: u64,
    server_selectables: &Vec<ServerSelectableRecord>,
) -> (r: Result<ProcessedFieldMapItem, CreateAdditionalFieldsError>)
    requires
        !remove_field_map_item_panics(arguments_view(old(argument_map).arguments@), field_map_item.to@, server_selectables@),
    ensures
        spec_remove_field_map_item(
            arguments_view(old(argument_map).arguments@),
            field_map_item.to@,
            primary_object_entity_name,
            mutation_object_entity_name,
            mutation_selectable_name,
            server_selectables@,
        ) == (
            arguments_view(final(argument_map).arguments@),
            match r {
                Ok(_) => Ok(()),
                Err(e) => Err(error_view(e)),
            },
        ),
        r matches Ok(p) ==> p.0 == field_map_item,
        modified_fields_unique(arguments_view(old(argument_map).arguments@)) ==> modified_fields_unique(
            arguments_view(final(argument_map).arguments@),
        ),
{
    proof {
        if modified_fields_unique(arguments_view(argument_map.arguments@)) {
            lemma_remove_field_map_item_unique(
                arguments_view(argument_map.arguments@),
                field_map_item.to@,
                primary_object_entity_name,
                mutation_object_entity_name,
                mutation_selectable_name,
                server_selectables@,
            );
        }
    }
    let ghost args0 = arguments_view(argument_map.arguments@);
    let split = field_map_item.split_to_arg();
    proof {
        lemma_split_dots_nonempty(field_map_item.to@, 0, seq![], seq![]);
    }
    let ghost segments = split_dots(field_map_item.to@);
    let idx = match argument_index(&argument_map.arguments, &split.to_argument_name) {
        None => {
            return Err(
                CreateAdditionalFieldsError::PrimaryDirectiveArgumentDoesNotExistOnField {
                    primary_object_entity_name,
                    mutation_object_entity_name,
                    mutation_selectable_name,
                    field_name: split.to_argument_name,
                },
            );
        },
        Some(i) => i,
    };
    proof {
        assert(args0[idx as int] == argument_view(argument_map.arguments@[idx as int]));
    }
    let location = argument_map.arguments[idx].location;
    let (modified, name, wrappers, inner, mut fields) = match &argument_map.arguments[idx].item {
        PotentiallyModifiedArgument::Unmodified(v) => (
            false,
            v.name.clone(),
            copy_wrappers(&v.type_.wrappers),
            v.type_.inner,
            Vec::new(),
        ),
        PotentiallyModifiedArgument::Modified(m) => (
            true,
            m.name.clone(),
            copy_wrappers(&m.wrappers),
            ServerEntityName::Scalar(0),
            copy_fields(&m.field_map),
        ),
    };
    if split.to_field_names.len() == 0 {
        if modified {
            return Err(
                CreateAdditionalFieldsError::PrimaryDirectiveCannotRemapObject {
                    primary_object_entity_name,
                    field_name: split.to_argument_name,
                },
            );
        }
        match inner {
            ServerEntityName::Object(_) => {
                return Err(
                    CreateAdditionalFieldsError::PrimaryDirectiveCannotRemapObject {
                        primary_object_entity_name,
                        field_name: split.to_argument_name,
                    },
                );
            },
            ServerEntityName::Scalar(_) => {},
        }
        let ghost before = argument_map.arguments@;
        argument_map.arguments.swap_remove(idx);
        proof {
            assert(arguments_view(argument_map.arguments@) =~= args0.update(idx as int, args0.last()).drop_last());
        }
        return Ok(ProcessedFieldMapItem(field_map_item));
    }
    if !modified {
        fields = match inner {
            ServerEntityName::Object(o) => fields_of(server_selectables, o),
            ServerEntityName::Scalar(_) => Vec::new(),
        };
    }
    match remove_to_field(&mut fields, &split.to_field_names[0], primary_object_entity_name) {
        Err(e) => {
            return Err(e);
        },
        Ok(()) => {},
    }
    let ghost before = argument_map.arguments@;
    argument_map.arguments.set(
        idx,
        ArgumentEntry {
            item: PotentiallyModifiedArgument::Modified(ModifiedArgument { name, wrappers, field_map: fields }),
            location,
        },
    );
    proof {
        assert(arguments_view(argument_map.arguments@) =~= args0.update(
            idx as int,
            ArgumentView::Modified {
                name: name@,
                wrappers: wrappers@,
                fields: field_map_view(fields@),
                location,
            },
        ));
    }
    Ok(ProcessedFieldMapItem(field_map_item))
}

} // verus!
