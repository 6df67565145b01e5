use vstd::prelude::*;

use crate::supertype_pointers::{
    field_index_from, insert_field, refinements_in_range, spec_add_fields_to_subtypes, spec_add_link_fields,
    spec_add_object_selectables, spec_add_pointers, spec_add_subtype_selectables, spec_add_to_supertypes,
    spec_give_fields, spec_give_to_subtypes, DefinitionLocation, ObjectView, SchemaView,
};

verus! {

/// No field name occurs twice among an object's fields.
pub open spec fn fields_unique(f: Seq<(Seq<char>, DefinitionLocation)>) -> bool {
    forall|a: int, b: int| 0 <= a < b < f.len() ==> #[trigger] f[a].0 != #[trigger] f[b].0
}

/// No object has a field name twice.
pub open spec fn objects_fields_unique(objects: Seq<ObjectView>) -> bool {
    forall|o: int| 0 <= o < objects.len() ==> fields_unique(#[trigger] objects[o].fields)
}

proof fn lemma_field_index_from(f: Seq<(Seq<char>, DefinitionLocation)>, name: Seq<char>, k: int)
    requires
        0 <= k,
    ensures
        field_index_from(f, name, k) is None ==> forall|i: int| k <= i < f.len() ==> #[trigger] f[i].0 != name,
        field_index_from(f, name, k) matches Some(x) ==> k <= x < f.len() && f[x].0 == name,
    decreases f.len() - k,
{
    if k < f.len() && f[k].0 != name {
        lemma_field_index_from(f, name, k + 1);
    }
}

/// Inserting a field, which replaces one of the same name, keeps the names unique.
pub proof fn lemma_insert_field_unique(f: Seq<(Seq<char>, DefinitionLocation)>, name: Seq<char>, location: DefinitionLocation)
    requires
        fields_unique(f),
    ensures
        fields_unique(insert_field(f, name, location).0),
{
    lemma_field_index_from(f, name, 0);
    let g = insert_field(f, name, location).0;
    assert forall|a: int, b: int| 0 <= a < b < g.len() implies #[trigger] g[a].0 != #[trigger] g[b].0 by {
        match field_index_from(f, name, 0) {
            Some(k) => {
                assert(g[a].0 == f[a].0 && g[b].0 == f[b].0);
            },
            None => {
                if b == f.len() {
                    assert(f[a].0 != name);
                }
            },
        }
    }
}

proof fn lemma_objects_insert(objects: Seq<ObjectView>, k: int, name: Seq<char>, location: DefinitionLocation)
    requires
        objects_fields_unique(objects),
        0 <= k < objects.len(),
    ensures
        objects_fields_unique(
            objects.update(k, ObjectView { fields: insert_field(objects[k].fields, name, location).0, ..objects[k] }),
        ),
{
    lemma_insert_field_unique(objects[k].fields, name, location);
    let u = objects.update(k, ObjectView { fields: insert_field(objects[k].fields, name, location).0, ..objects[k] });
    assert forall|o: int| 0 <= o < u.len() implies fields_unique(#[trigger] u[o].fields) by {
        if o != k {
            assert(u[o] == objects[o]);
        }
    }
}

proof fn lemma_add_to_supertypes_unique(s: SchemaView, supertypes: Seq<usize>, j: int, name: Seq<char>, location: DefinitionLocation)
    requires
        objects_fields_unique(s.objects),
        forall|t: int| 0 <= t < supertypes.len() ==> #[trigger] supertypes[t] < s.objects.len(),
    ensures
        objects_fields_unique(spec_add_to_supertypes(s, supertypes, j, name, location).0.objects),
        spec_add_to_supertypes(s, supertypes, j, name, location).0.objects.len() == s.objects.len(),
    decreases supertypes.len() - j,
{
    if 0 <= j < supertypes.len() {
        let k = supertypes[j] as int;
        let o = s.objects[k];
        lemma_objects_insert(s.objects, k, name, location);
        let inserted = insert_field(o.fields, name, location);
        let s1 = SchemaView { objects: s.objects.update(k, ObjectView { fields: inserted.0, ..o }), ..s };
        lemma_add_to_supertypes_unique(s1, supertypes, j + 1, name, location);
    }
}

/// Adding the pointers to subtypes keeps every object's field names unique.
pub proof fn lemma_add_pointers_unique(s: SchemaView, refinements: Seq<(usize, Seq<usize>)>, i: int)
    requires
        objects_fields_unique(s.objects),
        refinements_in_range(s.objects.len(), refinements),
    ensures
        objects_fields_unique(spec_add_pointers(s, refinements, i).0.objects),
        spec_add_pointers(s, refinements, i).0.objects.len() == s.objects.len(),
    decreases refinements.len() - i,
{
    if 0 <= i < refinements.len() {
        let subtype = refinements[i].0;
        match s.objects[subtype as int].concrete_type {
            None => lemma_add_pointers_unique(s, refinements, i + 1),
            Some(concrete_type) => {
                let selectable = crate::supertype_pointers::pointer_selectable(s, subtype, concrete_type);
                let s1 = SchemaView { selectables: s.selectables.push(selectable), ..s };
                let name = crate::supertype_pointers::pointer_name(s.objects[subtype as int].name);
                let location = DefinitionLocation::ServerObject(s.selectables.len() as usize);
                assert(forall|t: int| 0 <= t < refinements[i].1.len() ==> #[trigger] refinements[i].1[t] < s.objects.len());
                lemma_add_to_supertypes_unique(s1, refinements[i].1, 0, name, location);
                let added = spec_add_to_supertypes(s1, refinements[i].1, 0, name, location);
                if added.1 is None {
                    lemma_add_pointers_unique(added.0, refinements, i + 1);
                }
            },
        }
    }
}

proof fn lemma_give_fields_unique(s: SchemaView, subtype: usize, fields: Seq<(Seq<char>, DefinitionLocation)>, k: int)
    requires
        objects_fields_unique(s.objects),
        subtype < s.objects.len(),
    ensures
        objects_fields_unique(spec_give_fields(s, subtype, fields, k).0.objects),
        spec_give_fields(s, subtype, fields, k).0.objects.len() == s.objects.len(),
    decreases fields.len() - k,
{
    if 0 <= k < fields.len() {
        match fields[k].1 {
            DefinitionLocation::ServerScalar(_) | DefinitionLocation::ServerObject(_) => lemma_give_fields_unique(s, subtype, fields, k + 1),
            _ => {
                let o = s.objects[subtype as int];
                lemma_objects_insert(s.objects, subtype as int, fields[k].0, fields[k].1);
                let inserted = insert_field(o.fields, fields[k].0, fields[k].1);
                let s1 = SchemaView { objects: s.objects.update(subtype as int, ObjectView { fields: inserted.0, ..o }), ..s };
                lemma_give_fields_unique(s1, subtype, fields, k + 1);
            },
        }
    }
}

proof fn lemma_give_to_subtypes_unique(s: SchemaView, fields: Seq<(Seq<char>, DefinitionLocation)>, subtypes: Seq<usize>, j: int)
    requires
        objects_fields_unique(s.objects),
        forall|t: int| 0 <= t < subtypes.len() ==> #[trigger] subtypes[t] < s.objects.len(),
    ensures
        objects_fields_unique(spec_give_to_subtypes(s, fields, subtypes, j).0.objects),
        spec_give_to_subtypes(s, fields, subtypes, j).0.objects.len() == s.objects.len(),
    decreases subtypes.len() - j,
{
    if 0 <= j < subtypes.len() {
        lemma_give_fields_unique(s, subtypes[j], fields, 0);
        let r = spec_give_fields(s, subtypes[j], fields, 0);
        if r.1 is None {
            lemma_give_to_subtypes_unique(r.0, fields, subtypes, j + 1);
        }
    }
}

/// Giving subtypes their supertypes' client fields keeps every object's field names unique.
pub proof fn lemma_add_fields_to_subtypes_unique(s: SchemaView, refinements: Seq<(usize, Seq<usize>)>, i: int)
    requires
        objects_fields_unique(s.objects),
        refinements_in_range(s.objects.len(), refinements),
    ensures
        objects_fields_unique(spec_add_fields_to_subtypes(s, refinements, i).0.objects),
        spec_add_fields_to_subtypes(s, refinements, i).0.objects.len() == s.objects.len(),
    decreases refinements.len() - i,
{
    if 0 <= i < refinements.len() {
        assert(forall|t: int| 0 <= t < refinements[i].1.len() ==> #[trigger] refinements[i].1[t] < s.objects.len());
        lemma_give_to_subtypes_unique(s, s.objects[refinements[i].0 as int].fields, refinements[i].1, 0);
        let r = spec_give_to_subtypes(s, s.objects[refinements[i].0 as int].fields, refinements[i].1, 0);
        if r.1 is None {
            lemma_add_fields_to_subtypes_unique(r.0, refinements, i + 1);
        }
    }
}

/// Giving objects their link field keeps every object's field names unique.
pub proof fn lemma_add_link_fields_unique(s: SchemaView, o: int)
    requires
        objects_fields_unique(s.objects),
    ensures
        objects_fields_unique(spec_add_link_fields(s, o).0.objects),
    decreases s.objects.len() - o,
{
    if 0 <= o < s.objects.len() {
        let obj = s.objects[o];
        let id = s.client_fields.len();
        lemma_objects_insert(s.objects, o, "__link"@, DefinitionLocation::ClientScalar(id as usize));
        let inserted = insert_field(obj.fields, "__link"@, DefinitionLocation::ClientScalar(id as usize));
        let s1 = SchemaView {
            objects: s.objects.update(o, ObjectView { fields: inserted.0, ..obj }),
            client_fields: s.client_fields.push(crate::supertype_pointers::link_field(obj)),
            ..s
        };
        lemma_add_link_fields_unique(s1, o + 1);
    }
}

proof fn lemma_add_subtype_selectables_unique(s: SchemaView, subtype: usize, supertypes: Seq<usize>, j: int)
    requires
        objects_fields_unique(s.objects),
        forall|t: int| 0 <= t < supertypes.len() ==> #[trigger] supertypes[t] < s.objects.len(),
    ensures
        objects_fields_unique(spec_add_subtype_selectables(s, subtype, supertypes, j).0.objects),
        spec_add_subtype_selectables(s, subtype, supertypes, j).0.objects.len() == s.objects.len(),
    decreases supertypes.len() - j,
{
    if 0 <= j < supertypes.len() {
        let sup = supertypes[j];
        let id = s.selectables.len();
        let name = crate::supertype_pointers::pointer_name(s.objects[subtype as int].name);
        let o = s.objects[sup as int];
        lemma_objects_insert(s.objects, sup as int, name, DefinitionLocation::ServerObject(id as usize));
        let inserted = insert_field(o.fields, name, DefinitionLocation::ServerObject(id as usize));
        let s1 = SchemaView {
            selectables: s.selectables.push(crate::supertype_pointers::subtype_selectable(s, subtype, sup)),
            objects: s.objects.update(sup as int, ObjectView { fields: inserted.0, ..o }),
            ..s
        };
        lemma_add_subtype_selectables_unique(s1, subtype, supertypes, j + 1);
    }
}

/// Adding the compiler's pointers to subtypes keeps every object's field names unique.
pub proof fn lemma_add_object_selectables_unique(s: SchemaView, refinements: Seq<(usize, Seq<usize>)>, i: int)
    requires
        objects_fields_unique(s.objects),
        refinements_in_range(s.objects.len(), refinements),
    ensures
        objects_fields_unique(spec_add_object_selectables(s, refinements, i).0.objects),
        spec_add_object_selectables(s, refinements, i).0.objects.len() == s.objects.len(),
    decreases refinements.len() - i,
{
    if 0 <= i < refinements.len() {
        assert(forall|t: int| 0 <= t < refinements[i].1.len() ==> #[trigger] refinements[i].1[t] < s.objects.len());
        lemma_add_subtype_selectables_unique(s, refinements[i].0, refinements[i].1, 0);
        let r = spec_add_subtype_selectables(s, refinements[i].0, refinements[i].1, 0);
        if r.1 is None {
            lemma_add_object_selectables_unique(r.0, refinements, i + 1);
        }
    }
}

/// Whether a field is one the client defines.
pub open spec fn is_client_field(l: DefinitionLocation) -> bool {
    l is ClientScalar || l is ClientObject
}

/// Whether `fields` holds the field `e`.
pub open spec fn holds_field(fields: Seq<(Seq<char>, DefinitionLocation)>, e: (Seq<char>, DefinitionLocation)) -> bool {
    exists|k: int| 0 <= k < fields.len() && #[trigger] fields[k] == e
}

/// Whether `fields` holds every client field of `source`.
pub open spec fn holds_client_fields(source: Seq<(Seq<char>, DefinitionLocation)>, fields: Seq<(Seq<char>, DefinitionLocation)>) -> bool {
    forall|k: int| 0 <= k < source.len() && is_client_field(source[k].1) ==> holds_field(fields, #[trigger] source[k])
}

/// Every object of `b` keeps the fields of the same object of `a`, at the same places.
pub open spec fn keeps_fields(a: SchemaView, b: SchemaView) -> bool {
    &&& a.objects.len() == b.objects.len()
    &&& forall|o: int| 0 <= o < a.objects.len() ==> is_prefix_of(#[trigger] a.objects[o].fields, b.objects[o].fields)
}

/// Whether `f` starts with `p`.
pub open spec fn is_prefix_of(p: Seq<(Seq<char>, DefinitionLocation)>, f: Seq<(Seq<char>, DefinitionLocation)>) -> bool {
    p.len() <= f.len() && forall|k: int| 0 <= k < p.len() ==> #[trigger] f[k] == p[k]
}

/// Every field an object of `b` has beyond those of the same object of `a` is a client field.
pub open spec fn adds_only_client_fields(a: SchemaView, b: SchemaView) -> bool {
    forall|o: int, k: int|
        #![trigger b.objects[o].fields[k]]
        0 <= o < a.objects.len() && a.objects[o].fields.len() <= k < b.objects[o].fields.len() ==> is_client_field(
            b.objects[o].fields[k].1,
        )
}

proof fn lemma_adds_only_client_trans(a: SchemaView, b: SchemaView, c: SchemaView)
    requires
        keeps_fields(a, b),
        keeps_fields(b, c),
        adds_only_client_fields(a, b),
        adds_only_client_fields(b, c),
    ensures
        adds_only_client_fields(a, c),
{
    assert forall|o: int, k: int|
        0 <= o < a.objects.len() && a.objects[o].fields.len() <= k < c.objects[o].fields.len() implies is_client_field(
            #[trigger] c.objects[o].fields[k].1,
        ) by {
        assert(is_prefix_of(a.objects[o].fields, b.objects[o].fields));
        assert(is_prefix_of(b.objects[o].fields, c.objects[o].fields));
        if k < b.objects[o].fields.len() {
            assert(c.objects[o].fields[k] == b.objects[o].fields[k]);
            assert(is_client_field(b.objects[o].fields[k].1));
        } else {
            assert(is_client_field(c.objects[o].fields[k].1));
        }
    }
}

proof fn lemma_keeps_fields_trans(a: SchemaView, b: SchemaView, c: SchemaView)
    requires
        keeps_fields(a, b),
        keeps_fields(b, c),
    ensures
        keeps_fields(a, c),
{
    assert forall|o: int| 0 <= o < a.objects.len() implies is_prefix_of(#[trigger] a.objects[o].fields, c.objects[o].fields) by {
        assert(is_prefix_of(a.objects[o].fields, b.objects[o].fields));
        assert(is_prefix_of(b.objects[o].fields, c.objects[o].fields));
        assert forall|k: int| 0 <= k < a.objects[o].fields.len() implies #[trigger] c.objects[o].fields[k] == a.objects[o].fields[k] by {
            assert(b.objects[o].fields[k] == a.objects[o].fields[k]);
            assert(c.objects[o].fields[k] == b.objects[o].fields[k]);
        }
    }
}

proof fn lemma_holds_kept(source: Seq<(Seq<char>, DefinitionLocation)>, a: SchemaView, b: SchemaView, o: int)
    requires
        keeps_fields(a, b),
        0 <= o < a.objects.len(),
        holds_client_fields(source, a.objects[o].fields),
    ensures
        holds_client_fields(source, b.objects[o].fields),
{
    assert forall|k: int| 0 <= k < source.len() && is_client_field(source[k].1) implies holds_field(b.objects[o].fields, #[trigger] source[k]) by {
        let x = choose|x: int| 0 <= x < a.objects[o].fields.len() && #[trigger] a.objects[o].fields[x] == source[k];
        assert(is_prefix_of(a.objects[o].fields, b.objects[o].fields));
        assert(b.objects[o].fields[x] == a.objects[o].fields[x]);
    }
}

proof fn lemma_prefix_holds(p: Seq<(Seq<char>, DefinitionLocation)>, f: Seq<(Seq<char>, DefinitionLocation)>, g: Seq<(Seq<char>, DefinitionLocation)>)
    requires
        p.len() <= f.len(),
        forall|k: int| 0 <= k < p.len() ==> #[trigger] f[k] == p[k],
        holds_client_fields(f, g),
    ensures
        holds_client_fields(p, g),
{
    assert forall|k: int| 0 <= k < p.len() && is_client_field(p[k].1) implies holds_field(g, #[trigger] p[k]) by {
        assert(f[k] == p[k]);
        assert(holds_field(g, f[k]));
    }
}

proof fn lemma_give_fields_holds(s: SchemaView, subtype: usize, fields: Seq<(Seq<char>, DefinitionLocation)>, k: int)
    requires
        subtype < s.objects.len(),
        0 <= k,
        spec_give_fields(s, subtype, fields, k).1 is None,
    ensures
        keeps_fields(s, spec_give_fields(s, subtype, fields, k).0),
        adds_only_client_fields(s, spec_give_fields(s, subtype, fields, k).0),
        forall|x: int| k <= x < fields.len() && is_client_field(fields[x].1) ==> holds_field(
            spec_give_fields(s, subtype, fields, k).0.objects[subtype as int].fields,
            #[trigger] fields[x],
        ),
    decreases fields.len() - k,
{
    let r = spec_give_fields(s, subtype, fields, k).0;
    if k < fields.len() {
        match fields[k].1 {
            DefinitionLocation::ServerScalar(_) | DefinitionLocation::ServerObject(_) => {
                lemma_give_fields_holds(s, subtype, fields, k + 1);
            },
            _ => {
                let o = s.objects[subtype as int];
                lemma_field_index_from(o.fields, fields[k].0, 0);
                let inserted = insert_field(o.fields, fields[k].0, fields[k].1);
                let s1 = SchemaView { objects: s.objects.update(subtype as int, ObjectView { fields: inserted.0, ..o }), ..s };
                assert(inserted.0 == o.fields.push(fields[k]));
                assert(keeps_fields(s, s1)) by {
                    assert forall|p: int| 0 <= p < s.objects.len() implies is_prefix_of(#[trigger] s.objects[p].fields, s1.objects[p].fields) by {
                        if p == subtype {
                            assert(s1.objects[p].fields == o.fields.push(fields[k]));
                        }
                    }
                }
                lemma_give_fields_holds(s1, subtype, fields, k + 1);
                lemma_keeps_fields_trans(s, s1, r);
                assert(adds_only_client_fields(s, s1)) by {
                    assert forall|p: int, q: int|
                        0 <= p < s.objects.len() && s.objects[p].fields.len() <= q < s1.objects[p].fields.len() implies is_client_field(
                            #[trigger] s1.objects[p].fields[q].1,
                        ) by {
                        if p == subtype {
                            assert(s1.objects[p].fields == o.fields.push(fields[k]));
                        } else {
                            assert(s1.objects[p] == s.objects[p]);
                        }
                    }
                }
                lemma_adds_only_client_trans(s, s1, r);
                assert(s1.objects[subtype as int].fields[o.fields.len() as int] == fields[k]);
                assert(is_prefix_of(s1.objects[subtype as int].fields, r.objects[subtype as int].fields));
                assert(r.objects[subtype as int].fields[o.fields.len() as int] == s1.objects[subtype as int].fields[o.fields.len() as int]);
                assert(holds_field(r.objects[subtype as int].fields, fields[k]));
            },
        }
    } else {
        assert(keeps_fields(s, r));
    }
}

proof fn lemma_give_to_subtypes_holds(s: SchemaView, fields: Seq<(Seq<char>, DefinitionLocation)>, subtypes: Seq<usize>, j: int)
    requires
        0 <= j,
        forall|t: int| 0 <= t < subtypes.len() ==> #[trigger] subtypes[t] < s.objects.len(),
        spec_give_to_subtypes(s, fields, subtypes, j).1 is None,
    ensures
        keeps_fields(s, spec_give_to_subtypes(s, fields, subtypes, j).0),
        adds_only_client_fields(s, spec_give_to_subtypes(s, fields, subtypes, j).0),
        forall|x: int| j <= x < subtypes.len() ==> holds_client_fields(fields, spec_give_to_subtypes(s, fields, subtypes, j).0.objects[#[trigger] subtypes[x] as int].fields),
    decreases subtypes.len() - j,
{
    let r = spec_give_to_subtypes(s, fields, subtypes, j).0;
    if j < subtypes.len() {
        let g = spec_give_fields(s, subtypes[j], fields, 0);
        lemma_give_fields_holds(s, subtypes[j], fields, 0);
        lemma_give_fields_unique_len(s, subtypes[j], fields, 0);
        lemma_give_to_subtypes_holds(g.0, fields, subtypes, j + 1);
        lemma_keeps_fields_trans(s, g.0, r);
        lemma_adds_only_client_trans(s, g.0, r);
        lemma_holds_kept(fields, g.0, r, subtypes[j] as int);
    } else {
        assert(keeps_fields(s, r));
    }
}

proof fn lemma_give_fields_unique_len(s: SchemaView, subtype: usize, fields: Seq<(Seq<char>, DefinitionLocation)>, k: int)
    requires
        subtype < s.objects.len(),
        0 <= k,
        spec_give_fields(s, subtype, fields, k).1 is None,
    ensures
        spec_give_fields(s, subtype, fields, k).0.objects.len() == s.objects.len(),
{
    lemma_give_fields_holds(s, subtype, fields, k);
}

proof fn lemma_add_fields_holds(s: SchemaView, refinements: Seq<(usize, Seq<usize>)>, i: int)
    requires
        0 <= i,
        refinements_in_range(s.objects.len(), refinements),
        spec_add_fields_to_subtypes(s, refinements, i).1 is None,
    ensures
        keeps_fields(s, spec_add_fields_to_subtypes(s, refinements, i).0),
        adds_only_client_fields(s, spec_add_fields_to_subtypes(s, refinements, i).0),
        forall|x: int, y: int|
            i <= x < refinements.len() && 0 <= y < refinements[x].1.len() ==> holds_client_fields(
                s.objects[refinements[x].0 as int].fields,
                spec_add_fields_to_subtypes(s, refinements, i).0.objects[#[trigger] refinements[x].1[y] as int].fields,
            ),
    decreases refinements.len() - i,
{
    let r = spec_add_fields_to_subtypes(s, refinements, i).0;
    if i < refinements.len() {
        let sup = refinements[i].0;
        let fields = s.objects[sup as int].fields;
        assert(forall|t: int| 0 <= t < refinements[i].1.len() ==> #[trigger] refinements[i].1[t] < s.objects.len());
        let g = spec_give_to_subtypes(s, fields, refinements[i].1, 0);
        lemma_give_to_subtypes_holds(s, fields, refinements[i].1, 0);
        lemma_add_fields_holds(g.0, refinements, i + 1);
        lemma_keeps_fields_trans(s, g.0, r);
        lemma_adds_only_client_trans(s, g.0, r);
        assert forall|x: int, y: int|
            i <= x < refinements.len() && 0 <= y < refinements[x].1.len() implies holds_client_fields(
                s.objects[refinements[x].0 as int].fields,
                r.objects[#[trigger] refinements[x].1[y] as int].fields,
            ) by {
            let sub = refinements[x].1[y];
            assert(sub < s.objects.len());
            if x == i {
                assert(holds_client_fields(fields, g.0.objects[refinements[i].1[y] as int].fields));
                lemma_holds_kept(fields, g.0, r, sub as int);
            } else {
                let sx = refinements[x].0 as int;
                assert(sx < s.objects.len());
                assert(holds_client_fields(g.0.objects[sx].fields, r.objects[sub as int].fields));
                assert(is_prefix_of(s.objects[sx].fields, g.0.objects[sx].fields));
                lemma_prefix_holds(s.objects[sx].fields, g.0.objects[sx].fields, r.objects[sub as int].fields);
            }
        }
    } else {
        assert(keeps_fields(s, r));
    }
}

/// When giving subtypes their supertypes' client fields succeeds, every subtype listed for a
/// supertype holds each client field that supertype had, every object keeps the fields it had,
/// at the same places, and every field added is a client field.
pub proof fn law_subtypes_hold_their_supertypes_client_fields(s: SchemaView, refinements: Seq<(usize, Seq<usize>)>)
    requires
        refinements_in_range(s.objects.len(), refinements),
        spec_add_fields_to_subtypes(s, refinements, 0).1 is None,
    ensures
        keeps_fields(s, spec_add_fields_to_subtypes(s, refinements, 0).0),
        adds_only_client_fields(s, spec_add_fields_to_subtypes(s, refinements, 0).0),
        forall|x: int, y: int|
            0 <= x < refinements.len() && 0 <= y < refinements[x].1.len() ==> holds_client_fields(
                s.objects[refinements[x].0 as int].fields,
                spec_add_fields_to_subtypes(s, refinements, 0).0.objects[#[trigger] refinements[x].1[y] as int].fields,
            ),
{
    lemma_add_fields_holds(s, refinements, 0);
}

} // verus!
