use vstd::prelude::*;

use crate::merge_traversal::{
    keys_view, refetch_view, state_view, with_updatable, ClientSelectableRef, RefetchPathModel,
    RootRefetchedPathModel, StateView,
};

verus! {

/// The value of an argument: a variable, or a literal (strings interned).
#[derive(Clone, Copy, Debug, PartialEq, Eq, Structural)]
pub enum ArgValue {
    Variable(u64),
    Integer(i64),
    String(u64),
    Boolean(bool),
    Null,
}

/// An argument of a selection: its name, interned, and its value.
#[derive(Clone, Copy, Debug, PartialEq, Eq, Structural)]
pub struct ArgumentKeyAndValue {
    pub key: u64,
    pub value: ArgValue,
}

/// A field's name and arguments.
#[derive(Debug, PartialEq, Eq)]
pub struct NameAndArguments {
    pub name: u64,
    pub arguments: Vec<ArgumentKeyAndValue>,
}

/// What a merged selection is stored under: the typename, the id, a server field or client
/// pointer with its arguments, or an inline fragment on a type.
#[derive(Debug, PartialEq, Eq)]
pub enum NormalizationKey {
    Discriminator,
    Id,
    ServerField(NameAndArguments),
    ClientPointer(NameAndArguments),
    InlineFragment(u64),
}

#[derive(Debug, PartialEq, Eq)]
pub struct MergedScalarFieldSelection {
    pub parent_object_entity_name: u64,
    pub name: u64,
    pub arguments: Vec<ArgumentKeyAndValue>,
}

#[derive(Debug, PartialEq, Eq)]
pub struct MergedLinkedFieldSelection {
    pub parent_object_entity_name: u64,
    pub name: u64,
    pub selection_map: MergedSelectionMap,
    pub arguments: Vec<ArgumentKeyAndValue>,
    /// None if the target is abstract
    pub concrete_target_entity_name: Option<u64>,
}

#[derive(Debug, PartialEq, Eq)]
pub struct MergedInlineFragmentSelection {
    pub type_to_refine_to: u64,
    pub selection_map: MergedSelectionMap,
}

/// A selection of a merged selection set.
#[derive(Debug, PartialEq, Eq)]
pub enum MergedServerSelection {
    ScalarField(MergedScalarFieldSelection),
    LinkedField(MergedLinkedFieldSelection),
    ClientObjectSelectable(MergedLinkedFieldSelection),
    InlineFragment(MergedInlineFragmentSelection),
}

/// Merged selections by normalization key, each key at most once.
#[derive(Debug, PartialEq, Eq)]
pub struct MergedSelectionMap(pub Vec<(NormalizationKey, MergedServerSelection)>);

/// The values the variables of a parent stand for in a child, by variable name.
#[derive(Debug, PartialEq, Eq)]
pub struct VariableContext(pub Vec<(u64, ArgValue)>);

/// The abstract value of a normalization key.
pub enum KeyView {
    Discriminator,
    Id,
    ServerField(u64, Seq<ArgumentKeyAndValue>),
    ClientPointer(u64, Seq<ArgumentKeyAndValue>),
    InlineFragment(u64),
}

/// The abstract value of a merged selection.
pub enum SelView {
    Scalar { parent: u64, name: u64, arguments: Seq<ArgumentKeyAndValue> },
    Linked {
        parent: u64,
        name: u64,
        map: Seq<(KeyView, SelView)>,
        arguments: Seq<ArgumentKeyAndValue>,
        concrete: Option<u64>,
    },
    ClientObject {
        parent: u64,
        name: u64,
        map: Seq<(KeyView, SelView)>,
        arguments: Seq<ArgumentKeyAndValue>,
        concrete: Option<u64>,
    },
    Inline { refine: u64, map: Seq<(KeyView, SelView)> },
}

pub open spec fn key_view(k: NormalizationKey) -> KeyView {
    match k {
        NormalizationKey::Discriminator => KeyView::Discriminator,
        NormalizationKey::Id => KeyView::Id,
        NormalizationKey::ServerField(n) => KeyView::ServerField(n.name, n.arguments@),
        NormalizationKey::ClientPointer(n) => KeyView::ClientPointer(n.name, n.arguments@),
        NormalizationKey::InlineFragment(o) => KeyView::InlineFragment(o),
    }
}

pub open spec fn sel_view(s: MergedServerSelection) -> SelView
    decreases s, 0int,
{
    match s {
        MergedServerSelection::ScalarField(f) => SelView::Scalar {
            parent: f.parent_object_entity_name,
            name: f.name,
            arguments: f.arguments@,
        },
        MergedServerSelection::LinkedField(f) => SelView::Linked {
            parent: f.parent_object_entity_name,
            name: f.name,
            map: map_view(f.selection_map.0@),
            arguments: f.arguments@,
            concrete: f.concrete_target_entity_name,
        },
        MergedServerSelection::ClientObjectSelectable(f) => SelView::ClientObject {
            parent: f.parent_object_entity_name,
            name: f.name,
            map: map_view(f.selection_map.0@),
            arguments: f.arguments@,
            concrete: f.concrete_target_entity_name,
        },
        MergedServerSelection::InlineFragment(f) => SelView::Inline {
            refine: f.type_to_refine_to,
            map: map_view(f.selection_map.0@),
        },
    }
}

pub open spec fn map_view(m: Seq<(NormalizationKey, MergedServerSelection)>) -> Seq<(KeyView, SelView)>
    decreases m, 1int,
{
    if m.len() == 0 {
        seq![]
    } else {
        map_view(m.subrange(0, m.len() - 1)).push((key_view(m[m.len() - 1].0), sel_view(m[m.len() - 1].1)))
    }
}

/// What an argument becomes in the child's context: a variable the context binds takes its
/// value; anything else stays.
pub open spec fn transform_arg(a: ArgumentKeyAndValue, ctx: Seq<(u64, ArgValue)>) -> ArgumentKeyAndValue {
    match a.value {
        ArgValue::Variable(v) => match binding_from(ctx, v, 0) {
            Some(value) => ArgumentKeyAndValue { key: a.key, value },
            None => a,
        },
        _ => a,
    }
}

/// The value the first binding of `v` gives, from the `k`-th on.
pub open spec fn binding_from(ctx: Seq<(u64, ArgValue)>, v: u64, k: int) -> Option<ArgValue>
    decreases ctx.len() - k,
{
    if k < 0 || k >= ctx.len() {
        None
    } else if ctx[k].0 == v {
        Some(ctx[k].1)
    } else {
        binding_from(ctx, v, k + 1)
    }
}

pub open spec fn transform_args(s: Seq<ArgumentKeyAndValue>, ctx: Seq<(u64, ArgValue)>) -> Seq<ArgumentKeyAndValue> {
    Seq::new(s.len(), |i: int| transform_arg(s[i], ctx))
}

pub open spec fn transform_key(k: KeyView, ctx: Seq<(u64, ArgValue)>) -> KeyView {
    match k {
        KeyView::ServerField(n, a) => KeyView::ServerField(n, transform_args(a, ctx)),
        KeyView::ClientPointer(n, a) => KeyView::ClientPointer(n, transform_args(a, ctx)),
        _ => k,
    }
}

/// The position of the entry with key `k`, from the `j`-th on.
pub open spec fn key_index_from(m: Seq<(KeyView, SelView)>, k: KeyView, j: int) -> Option<int>
    decreases m.len() - j,
{
    if j < 0 || j >= m.len() {
        None
    } else if m[j].0 == k {
        Some(j)
    } else {
        key_index_from(m, k, j + 1)
    }
}

/// No key occurs twice in the map.
pub open spec fn keys_unique(m: Seq<(KeyView, SelView)>) -> bool {
    forall|a: int, b: int| 0 <= a < b < m.len() ==> #[trigger] m[a].0 != #[trigger] m[b].0
}

pub proof fn lemma_key_index_from(m: Seq<(KeyView, SelView)>, k: KeyView, j: int)
    requires
        0 <= j,
    ensures
        key_index_from(m, k, j) is None ==> forall|i: int| j <= i < m.len() ==> #[trigger] m[i].0 != k,
        key_index_from(m, k, j) matches Some(x) ==> j <= x < m.len() && m[x].0 == k,
    decreases m.len() - j,
{
    if j < m.len() && m[j].0 != k {
        lemma_key_index_from(m, k, j + 1);
    }
}

/// Adding an entry under a key the map lacks, or replacing the selection under a key it has,
/// keeps the keys unique.
pub proof fn lemma_unique_push_or_update(m: Seq<(KeyView, SelView)>, k: KeyView, s: SelView)
    requires
        keys_unique(m),
    ensures
        key_index_from(m, k, 0) is None ==> keys_unique(m.push((k, s))),
        key_index_from(m, k, 0) matches Some(j) ==> keys_unique(m.update(j, (m[j].0, s))),
        forall|j: int| 0 <= j < m.len() ==> keys_unique(#[trigger] m.update(j, (m[j].0, s))),
{
    lemma_key_index_from(m, k, 0);
    assert forall|j: int| 0 <= j < m.len() implies keys_unique(#[trigger] m.update(j, (m[j].0, s))) by {
        let u = m.update(j, (m[j].0, s));
        assert forall|a: int, b: int| 0 <= a < b < u.len() implies #[trigger] u[a].0 != #[trigger] u[b].0 by {
            assert(u[a].0 == m[a].0 && u[b].0 == m[b].0);
        }
    }
    if key_index_from(m, k, 0) is None {
        let p = m.push((k, s));
        assert forall|a: int, b: int| 0 <= a < b < p.len() implies #[trigger] p[a].0 != #[trigger] p[b].0 by {
            if b == m.len() {
                assert(m[a].0 != k);
            }
        }
    }
}

/// Merging a child's entries keeps the parent's keys unique.
pub proof fn lemma_merge_entries_unique(parent: Seq<(KeyView, SelView)>, child: Seq<(KeyView, SelView)>, i: int, ctx: Seq<(u64, ArgValue)>)
    requires
        keys_unique(parent),
    ensures
        keys_unique(merge_entries(parent, child, i, ctx)),
    decreases child.len() - i,
{
    if 0 <= i < child.len() {
        let k = transform_key(child[i].0, ctx);
        lemma_unique_push_or_update(parent, k, transform_sel(child[i].1, ctx));
        let next = match key_index_from(parent, k, 0) {
            None => parent.push((k, transform_sel(child[i].1, ctx))),
            Some(j) => parent.update(j, (parent[j].0, merge_sel(parent[j].1, child[i].1, ctx))),
        };
        match key_index_from(parent, k, 0) {
            Some(j) => {
                lemma_key_index_from(parent, k, 0);
                lemma_unique_push_or_update(parent, k, merge_sel(parent[j].1, child[i].1, ctx));
            },
            None => {},
        }
        lemma_merge_entries_unique(next, child, i + 1, ctx);
    }
}

/// Whether some entry of the map is under `k`.
pub open spec fn has_key(m: Seq<(KeyView, SelView)>, k: KeyView) -> bool {
    exists|i: int| 0 <= i < m.len() && #[trigger] m[i].0 == k
}

/// Whether a child's key from the `i`-th on becomes `k` in the parent's context.
pub open spec fn child_key_from(child: Seq<(KeyView, SelView)>, i: int, k: KeyView, ctx: Seq<(u64, ArgValue)>) -> bool {
    exists|j: int| i <= j < child.len() && transform_key(#[trigger] child[j].0, ctx) == k
}

proof fn lemma_has_key_step(m: Seq<(KeyView, SelView)>, k0: KeyView, s: SelView, ctx: Seq<(u64, ArgValue)>)
    ensures
        key_index_from(m, k0, 0) is None ==> forall|k: KeyView| #[trigger] has_key(m.push((k0, s)), k) <==> (has_key(m, k) || k == k0),
        key_index_from(m, k0, 0) matches Some(j) ==> forall|k: KeyView| #[trigger] has_key(m.update(j, (m[j].0, s)), k) <==> (has_key(m, k) || k == k0),
{
    lemma_key_index_from(m, k0, 0);
    match key_index_from(m, k0, 0) {
        None => {
            let p = m.push((k0, s));
            assert forall|k: KeyView| #[trigger] has_key(p, k) <==> (has_key(m, k) || k == k0) by {
                if has_key(p, k) {
                    let i = choose|i: int| 0 <= i < p.len() && #[trigger] p[i].0 == k;
                    if i < m.len() {
                        assert(m[i].0 == k);
                    }
                }
                if has_key(m, k) {
                    let i = choose|i: int| 0 <= i < m.len() && #[trigger] m[i].0 == k;
                    assert(p[i].0 == k);
                }
                if k == k0 {
                    assert(p[m.len() as int].0 == k);
                }
            }
        },
        Some(j) => {
            let u = m.update(j, (m[j].0, s));
            assert forall|k: KeyView| #[trigger] has_key(u, k) <==> (has_key(m, k) || k == k0) by {
                if has_key(u, k) {
                    let i = choose|i: int| 0 <= i < u.len() && #[trigger] u[i].0 == k;
                    assert(m[i].0 == k);
                }
                if has_key(m, k) {
                    let i = choose|i: int| 0 <= i < m.len() && #[trigger] m[i].0 == k;
                    assert(u[i].0 == k);
                }
                if k == k0 {
                    assert(u[j].0 == k);
                }
            }
        },
    }
}

proof fn lemma_merge_keys_from(parent: Seq<(KeyView, SelView)>, child: Seq<(KeyView, SelView)>, i: int, ctx: Seq<(u64, ArgValue)>)
    requires
        0 <= i,
    ensures
        forall|k: KeyView| #[trigger] has_key(merge_entries(parent, child, i, ctx), k) <==> (has_key(parent, k) || child_key_from(child, i, k, ctx)),
    decreases child.len() - i,
{
    if i < child.len() {
        let k0 = transform_key(child[i].0, ctx);
        let next = match key_index_from(parent, k0, 0) {
            None => parent.push((k0, transform_sel(child[i].1, ctx))),
            Some(j) => parent.update(j, (parent[j].0, merge_sel(parent[j].1, child[i].1, ctx))),
        };
        match key_index_from(parent, k0, 0) {
            None => lemma_has_key_step(parent, k0, transform_sel(child[i].1, ctx), ctx),
            Some(j) => lemma_has_key_step(parent, k0, merge_sel(parent[j].1, child[i].1, ctx), ctx),
        }
        lemma_merge_keys_from(next, child, i + 1, ctx);
        assert forall|k: KeyView| #[trigger] child_key_from(child, i, k, ctx) <==> (k == k0 || child_key_from(child, i + 1, k, ctx)) by {
            if child_key_from(child, i, k, ctx) {
                let j = choose|j: int| i <= j < child.len() && transform_key(#[trigger] child[j].0, ctx) == k;
                if j > i {
                    assert(i + 1 <= j < child.len() && transform_key(child[j].0, ctx) == k);
                }
            }
            if k == k0 {
                assert(transform_key(child[i].0, ctx) == k);
            }
            if child_key_from(child, i + 1, k, ctx) {
                let j = choose|j: int| i + 1 <= j < child.len() && transform_key(#[trigger] child[j].0, ctx) == k;
                assert(i <= j < child.len() && transform_key(child[j].0, ctx) == k);
            }
        }
        assert(merge_entries(parent, child, i, ctx) == merge_entries(next, child, i + 1, ctx));
        assert forall|k: KeyView| #[trigger] has_key(merge_entries(parent, child, i, ctx), k) <==> (has_key(parent, k)
            || child_key_from(child, i, k, ctx)) by {
            assert(has_key(merge_entries(next, child, i + 1, ctx), k) <==> (has_key(next, k) || child_key_from(child, i + 1, k, ctx)));
            assert(has_key(next, k) <==> (has_key(parent, k) || k == k0));
            assert(child_key_from(child, i, k, ctx) <==> (k == k0 || child_key_from(child, i + 1, k, ctx)));
        }
    } else {
        assert forall|k: KeyView| !#[trigger] child_key_from(child, i, k, ctx) by {}
    }
}

/// After a child's map is merged into its parent's, a key is in the result exactly when it was
/// in the parent or is one of the child's keys transformed by the parent's variable context.
pub proof fn law_merge_key_set(parent: Seq<(KeyView, SelView)>, child: Seq<(KeyView, SelView)>, ctx: Seq<(u64, ArgValue)>)
    ensures
        forall|k: KeyView|
            #[trigger] has_key(merge_entries(parent, child, 0, ctx), k) <==> (has_key(parent, k) || exists|j: int|
                0 <= j < child.len() && transform_key(#[trigger] child[j].0, ctx) == k),
{
    lemma_merge_keys_from(parent, child, 0, ctx);
}

/// Whether `y` already holds what merging `s` into it would add, all the way down.
pub open spec fn absorbs_sel(y: SelView, s: SelView, ctx: Seq<(u64, ArgValue)>) -> bool
    decreases s, 0int,
{
    match (y, s) {
        (SelView::Scalar { .. }, SelView::Scalar { .. }) => true,
        (SelView::Linked { map, .. }, SelView::Linked { map: sm, .. }) => absorbs_each(map, sm, ctx),
        (SelView::ClientObject { map, .. }, SelView::ClientObject { map: sm, .. }) => absorbs_each(map, sm, ctx),
        (SelView::Inline { map, .. }, SelView::Inline { map: sm, .. }) => absorbs_each(map, sm, ctx),
        _ => false,
    }
}

/// Whether the entry of `m` under `k` holds what merging `s` into it would add.
pub open spec fn absorbs_one(m: Seq<(KeyView, SelView)>, k: KeyView, s: SelView, ctx: Seq<(u64, ArgValue)>) -> bool
    decreases s, 1int,
{
    match key_index_from(m, k, 0) {
        Some(x) => absorbs_sel(m[x].1, s, ctx),
        None => false,
    }
}

/// Whether `m` holds what merging each entry of `c` into it would add.
pub open spec fn absorbs_each(m: Seq<(KeyView, SelView)>, c: Seq<(KeyView, SelView)>, ctx: Seq<(u64, ArgValue)>) -> bool
    decreases c, 2int,
{
    forall|j: int| 0 <= j < c.len() ==> absorbs_one(m, transform_key(#[trigger] c[j].0, ctx), c[j].1, ctx)
}

proof fn lemma_key_index_same_keys(m: Seq<(KeyView, SelView)>, m2: Seq<(KeyView, SelView)>, k: KeyView, j: int)
    requires
        m.len() == m2.len(),
        forall|i: int| 0 <= i < m.len() ==> #[trigger] m2[i].0 == m[i].0,
    ensures
        key_index_from(m2, k, j) == key_index_from(m, k, j),
    decreases m.len() - j,
{
    if 0 <= j < m.len() {
        assert(m2[j].0 == m[j].0);
        lemma_key_index_same_keys(m, m2, k, j + 1);
    }
}

proof fn lemma_key_index_push(m: Seq<(KeyView, SelView)>, e: (KeyView, SelView), k: KeyView, j: int)
    requires
        key_index_from(m, k, j) is Some,
    ensures
        key_index_from(m.push(e), k, j) == key_index_from(m, k, j),
    decreases m.len() - j,
{
    if 0 <= j < m.len() {
        assert(m.push(e)[j] == m[j]);
        if m[j].0 != k {
            lemma_key_index_push(m, e, k, j + 1);
        }
    }
}

/// What holds what merging `s` adds still does after anything is merged into it.
proof fn lemma_absorbs_sel_monotone(y: SelView, s: SelView, t: SelView, ctx: Seq<(u64, ArgValue)>)
    requires
        absorbs_sel(y, s, ctx),
        merge_sel_ok(y, t, ctx),
    ensures
        absorbs_sel(merge_sel(y, t, ctx), s, ctx),
    decreases t, 1int,
{
    match (y, t) {
        (SelView::Linked { map, .. }, SelView::Linked { map: tm, .. }) => {
            let sm = s->Linked_map;
            assert forall|j: int| 0 <= j < sm.len() implies absorbs_one(merge_entries(map, tm, 0, ctx), transform_key(#[trigger] sm[j].0, ctx), sm[j].1, ctx) by {
                lemma_absorbs_one_monotone(map, tm, 0, transform_key(sm[j].0, ctx), sm[j].1, ctx);
            }
        },
        (SelView::ClientObject { map, .. }, SelView::ClientObject { map: tm, .. }) => {
            let sm = s->ClientObject_map;
            assert forall|j: int| 0 <= j < sm.len() implies absorbs_one(merge_entries(map, tm, 0, ctx), transform_key(#[trigger] sm[j].0, ctx), sm[j].1, ctx) by {
                lemma_absorbs_one_monotone(map, tm, 0, transform_key(sm[j].0, ctx), sm[j].1, ctx);
            }
        },
        (SelView::Inline { map, .. }, SelView::Inline { map: tm, .. }) => {
            let sm = s->Inline_map;
            assert forall|j: int| 0 <= j < sm.len() implies absorbs_one(merge_entries(map, tm, 0, ctx), transform_key(#[trigger] sm[j].0, ctx), sm[j].1, ctx) by {
                lemma_absorbs_one_monotone(map, tm, 0, transform_key(sm[j].0, ctx), sm[j].1, ctx);
            }
        },
        _ => {},
    }
}

proof fn lemma_absorbs_one_monotone(
    m: Seq<(KeyView, SelView)>,
    t: Seq<(KeyView, SelView)>,
    i: int,
    k: KeyView,
    s: SelView,
    ctx: Seq<(u64, ArgValue)>,
)
    requires
        absorbs_one(m, k, s, ctx),
        merge_ok(m, t, i, ctx),
    ensures
        absorbs_one(merge_entries(m, t, i, ctx), k, s, ctx),
    decreases t, t.len() - i,
{
    if 0 <= i < t.len() {
        let kt = transform_key(t[i].0, ctx);
        let x = key_index_from(m, k, 0)->Some_0;
        lemma_key_index_from(m, k, 0);
        lemma_key_index_from(m, kt, 0);
        match key_index_from(m, kt, 0) {
            None => {
                let next = m.push((kt, transform_sel(t[i].1, ctx)));
                lemma_key_index_push(m, (kt, transform_sel(t[i].1, ctx)), k, 0);
                assert(next[x] == m[x]);
                lemma_absorbs_one_monotone(next, t, i + 1, k, s, ctx);
            },
            Some(y) => {
                let next = m.update(y, (m[y].0, merge_sel(m[y].1, t[i].1, ctx)));
                lemma_key_index_same_keys(m, next, k, 0);
                if y == x {
                    lemma_absorbs_sel_monotone(m[x].1, s, t[i].1, ctx);
                } else {
                    assert(next[x] == m[x]);
                }
                lemma_absorbs_one_monotone(next, t, i + 1, k, s, ctx);
            },
        }
    }
}

/// What is merged into a selection is then held by it; a transformed selection holds itself.
proof fn lemma_merged_sel_absorbs(y: SelView, s: SelView, ctx: Seq<(u64, ArgValue)>)
    ensures
        merge_sel_ok(y, s, ctx) ==> absorbs_sel(merge_sel(y, s, ctx), s, ctx),
        transform_ok(s, ctx) ==> absorbs_sel(transform_sel(s, ctx), s, ctx),
    decreases s, 1int,
{
    match s {
        SelView::Scalar { .. } => {},
        SelView::Linked { map: sm, .. } => {
            lemma_merged_entries_absorb(seq![], sm, 0, ctx);
            match y {
                SelView::Linked { map, .. } => lemma_merged_entries_absorb(map, sm, 0, ctx),
                _ => {},
            }
        },
        SelView::ClientObject { map: sm, .. } => {
            lemma_merged_entries_absorb(seq![], sm, 0, ctx);
            match y {
                SelView::ClientObject { map, .. } => lemma_merged_entries_absorb(map, sm, 0, ctx),
                _ => {},
            }
        },
        SelView::Inline { map: sm, .. } => {
            lemma_merged_entries_absorb(seq![], sm, 0, ctx);
            match y {
                SelView::Inline { map, .. } => lemma_merged_entries_absorb(map, sm, 0, ctx),
                _ => {},
            }
        },
    }
}

proof fn lemma_merged_entries_absorb(m: Seq<(KeyView, SelView)>, c: Seq<(KeyView, SelView)>, i: int, ctx: Seq<(u64, ArgValue)>)
    requires
        0 <= i,
    ensures
        merge_ok(m, c, i, ctx) ==> forall|j: int|
            i <= j < c.len() ==> absorbs_one(merge_entries(m, c, i, ctx), transform_key(#[trigger] c[j].0, ctx), c[j].1, ctx),
    decreases c, c.len() - i,
{
    if 0 <= i < c.len() && merge_ok(m, c, i, ctx) {
        let k = transform_key(c[i].0, ctx);
        lemma_key_index_from(m, k, 0);
        lemma_merged_sel_absorbs(
            match key_index_from(m, k, 0) {
                Some(x) => m[x].1,
                None => c[i].1,
            },
            c[i].1,
            ctx,
        );
        let next = match key_index_from(m, k, 0) {
            None => m.push((k, transform_sel(c[i].1, ctx))),
            Some(x) => m.update(x, (m[x].0, merge_sel(m[x].1, c[i].1, ctx))),
        };
        match key_index_from(m, k, 0) {
            None => {
                lemma_key_index_from(next, k, 0);
                lemma_key_index_from(next, k, m.len() as int);
                assert(next[m.len() as int].0 == k);
                assert(key_index_from(next, k, 0) == Some(m.len() as int)) by {
                    lemma_first_index_is(next, k, m.len() as int);
                }
            },
            Some(x) => {
                lemma_key_index_same_keys(m, next, k, 0);
            },
        }
        assert(absorbs_one(next, k, c[i].1, ctx));
        assert(merge_ok(next, c, i + 1, ctx));
        assert(merge_entries(m, c, i, ctx) == merge_entries(next, c, i + 1, ctx));
        lemma_absorbs_one_monotone(next, c, i + 1, k, c[i].1, ctx);
        lemma_merged_entries_absorb(next, c, i + 1, ctx);
        assert forall|j: int| i <= j < c.len() implies absorbs_one(merge_entries(m, c, i, ctx), transform_key(#[trigger] c[j].0, ctx), c[j].1, ctx) by {
            if j == i {
                assert(absorbs_one(merge_entries(next, c, i + 1, ctx), k, c[i].1, ctx));
            } else {
                assert(absorbs_one(merge_entries(next, c, i + 1, ctx), transform_key(c[j].0, ctx), c[j].1, ctx));
            }
        }
    }
}

proof fn lemma_first_index_is(m: Seq<(KeyView, SelView)>, k: KeyView, x: int)
    requires
        0 <= x < m.len(),
        m[x].0 == k,
        forall|i: int| 0 <= i < x ==> #[trigger] m[i].0 != k,
    ensures
        key_index_from(m, k, 0) == Some(x),
{
    assert forall|j: int| 0 <= j <= x implies #[trigger] key_index_from(m, k, j) == Some(x) by {
        lemma_first_index_from(m, k, x, j);
    }
    assert(key_index_from(m, k, 0) == Some(x));
}

proof fn lemma_first_index_from(m: Seq<(KeyView, SelView)>, k: KeyView, x: int, j: int)
    requires
        0 <= j <= x < m.len(),
        m[x].0 == k,
        forall|i: int| 0 <= i < x ==> #[trigger] m[i].0 != k,
    ensures
        key_index_from(m, k, j) == Some(x),
    decreases x - j,
{
    if j < x {
        assert(m[j].0 != k);
        lemma_first_index_from(m, k, x, j + 1);
    }
}

/// A map that holds what merging each of a child's entries adds is left as it is by merging
/// that child, and the merge goes through.
proof fn lemma_absorbed_merge_is_identity(m: Seq<(KeyView, SelView)>, c: Seq<(KeyView, SelView)>, i: int, ctx: Seq<(u64, ArgValue)>)
    requires
        0 <= i,
        forall|j: int| i <= j < c.len() ==> absorbs_one(m, transform_key(#[trigger] c[j].0, ctx), c[j].1, ctx),
    ensures
        merge_ok(m, c, i, ctx),
        merge_entries(m, c, i, ctx) == m,
    decreases c, c.len() - i,
{
    if i < c.len() {
        let k = transform_key(c[i].0, ctx);
        assert(absorbs_one(m, k, c[i].1, ctx));
        let x = key_index_from(m, k, 0)->Some_0;
        lemma_key_index_from(m, k, 0);
        lemma_absorbed_sel_is_identity(m[x].1, c[i].1, ctx);
        assert(m.update(x, (m[x].0, merge_sel(m[x].1, c[i].1, ctx))) =~= m);
        lemma_absorbed_merge_is_identity(m, c, i + 1, ctx);
    }
}

proof fn lemma_absorbed_sel_is_identity(y: SelView, s: SelView, ctx: Seq<(u64, ArgValue)>)
    requires
        absorbs_sel(y, s, ctx),
    ensures
        merge_sel_ok(y, s, ctx),
        merge_sel(y, s, ctx) == y,
    decreases s, 1int,
{
    match (y, s) {
        (SelView::Linked { map, .. }, SelView::Linked { map: sm, .. }) => lemma_absorbed_merge_is_identity(map, sm, 0, ctx),
        (SelView::ClientObject { map, .. }, SelView::ClientObject { map: sm, .. }) => lemma_absorbed_merge_is_identity(map, sm, 0, ctx),
        (SelView::Inline { map, .. }, SelView::Inline { map: sm, .. }) => lemma_absorbed_merge_is_identity(map, sm, 0, ctx),
        _ => {},
    }
}

/// Merging the same child map twice gives what merging it once gives, and the second merge
/// goes through wherever the first does.
pub proof fn law_merging_twice_is_merging_once(parent: Seq<(KeyView, SelView)>, child: Seq<(KeyView, SelView)>, ctx: Seq<(u64, ArgValue)>)
    requires
        merge_ok(parent, child, 0, ctx),
    ensures
        merge_ok(merge_entries(parent, child, 0, ctx), child, 0, ctx),
        merge_entries(merge_entries(parent, child, 0, ctx), child, 0, ctx) == merge_entries(parent, child, 0, ctx),
{
    lemma_merged_entries_absorb(parent, child, 0, ctx);
    lemma_absorbed_merge_is_identity(merge_entries(parent, child, 0, ctx), child, 0, ctx);
}

/// Merges the child's entries from the `i`-th on into `parent`, each under its key transformed
/// by the context: a new key gets the child's selection transformed; a key present gets the
/// child's selection merged into what it holds.
pub open spec fn merge_entries(parent: Seq<(KeyView, SelView)>, child: Seq<(KeyView, SelView)>, i: int, ctx: Seq<(u64, ArgValue)>) -> Seq<
    (KeyView, SelView),
>
    decreases child, child.len() - i,
{
    if 0 <= i < child.len() {
        let k = transform_key(child[i].0, ctx);
        let next = match key_index_from(parent, k, 0) {
            None => parent.push((k, transform_sel(child[i].1, ctx))),
            Some(j) => parent.update(j, (parent[j].0, merge_sel(parent[j].1, child[i].1, ctx))),
        };
        merge_entries(next, child, i + 1, ctx)
    } else {
        parent
    }
}

/// A child's selection in the parent's context: its arguments transformed, and its selection
/// map merged into an empty one.
pub open spec fn transform_sel(s: SelView, ctx: Seq<(u64, ArgValue)>) -> SelView
    decreases s, 0int,
{
    match s {
        SelView::Scalar { parent, name, arguments } => SelView::Scalar { parent, name, arguments: transform_args(arguments, ctx) },
        SelView::Linked { parent, name, map, arguments, concrete } => SelView::Linked {
            parent,
            name,
            map: merge_entries(seq![], map, 0, ctx),
            arguments: transform_args(arguments, ctx),
            concrete,
        },
        SelView::ClientObject { parent, name, map, arguments, concrete } => SelView::ClientObject {
            parent,
            name,
            map: merge_entries(seq![], map, 0, ctx),
            arguments: transform_args(arguments, ctx),
            concrete,
        },
        SelView::Inline { refine, map } => SelView::Inline { refine, map: merge_entries(seq![], map, 0, ctx) },
    }
}

/// A child's selection merged into the parent's of the same key: a scalar stays as it is; a
/// linked field, client object or inline fragment gets the child's map merged into its own.
pub open spec fn merge_sel(p: SelView, s: SelView, ctx: Seq<(u64, ArgValue)>) -> SelView
    decreases s, 0int,
{
    match (p, s) {
        (SelView::Linked { parent, name, map, arguments, concrete }, SelView::Linked { map: child_map, .. }) =>
            SelView::Linked { parent, name, map: merge_entries(map, child_map, 0, ctx), arguments, concrete },
        (
            SelView::ClientObject { parent, name, map, arguments, concrete },
            SelView::ClientObject { map: child_map, .. },
        ) => SelView::ClientObject { parent, name, map: merge_entries(map, child_map, 0, ctx), arguments, concrete },
        (SelView::Inline { refine, map }, SelView::Inline { map: child_map, .. }) =>
            SelView::Inline { refine, map: merge_entries(map, child_map, 0, ctx) },
        _ => p,
    }
}

/// Whether merging the child's entries from the `i`-th on into `parent` never meets a key
/// whose selection is of another kind than the child's: a scalar where a linked field is, or a
/// linked field, client object or inline fragment where another kind is, at any depth.
pub open spec fn merge_ok(parent: Seq<(KeyView, SelView)>, child: Seq<(KeyView, SelView)>, i: int, ctx: Seq<(u64, ArgValue)>) -> bool
    decreases child, child.len() - i,
{
    if 0 <= i < child.len() {
        let k = transform_key(child[i].0, ctx);
        match key_index_from(parent, k, 0) {
            None => transform_ok(child[i].1, ctx) && merge_ok(
                parent.push((k, transform_sel(child[i].1, ctx))),
                child,
                i + 1,
                ctx,
            ),
            Some(j) => merge_sel_ok(parent[j].1, child[i].1, ctx) && merge_ok(
                parent.update(j, (parent[j].0, merge_sel(parent[j].1, child[i].1, ctx))),
                child,
                i + 1,
                ctx,
            ),
        }
    } else {
        true
    }
}

pub open spec fn transform_ok(s: SelView, ctx: Seq<(u64, ArgValue)>) -> bool
    decreases s, 0int,
{
    match s {
        SelView::Scalar { .. } => true,
        SelView::Linked { map, .. } => merge_ok(seq![], map, 0, ctx),
        SelView::ClientObject { map, .. } => merge_ok(seq![], map, 0, ctx),
        SelView::Inline { map, .. } => merge_ok(seq![], map, 0, ctx),
    }
}

pub open spec fn merge_sel_ok(p: SelView, s: SelView, ctx: Seq<(u64, ArgValue)>) -> bool
    decreases s, 0int,
{
    match (p, s) {
        (SelView::Scalar { .. }, SelView::Scalar { .. }) => true,
        (SelView::Linked { map, .. }, SelView::Linked { map: child_map, .. }) => merge_ok(map, child_map, 0, ctx),
        (SelView::ClientObject { map, .. }, SelView::ClientObject { map: child_map, .. }) => merge_ok(map, child_map, 0, ctx),
        (SelView::Inline { map, .. }, SelView::Inline { map: child_map, .. }) => merge_ok(map, child_map, 0, ctx),
        _ => false,
    }
}

pub(crate) proof fn lemma_map_view(m: Seq<(NormalizationKey, MergedServerSelection)>)
    ensures
        map_view(m).len() == m.len(),
        forall|i: int| 0 <= i < m.len() ==> #[trigger] map_view(m)[i] == (key_view(m[i].0), sel_view(m[i].1)),
    decreases m.len(),
{
    if m.len() > 0 {
        lemma_map_view(m.subrange(0, m.len() - 1));
    }
}

pub(crate) proof fn lemma_map_view_push(m: Seq<(NormalizationKey, MergedServerSelection)>, x: (NormalizationKey, MergedServerSelection))
    ensures
        map_view(m.push(x)) == map_view(m).push((key_view(x.0), sel_view(x.1))),
{
    assert(m.push(x).subrange(0, m.len() as int) =~= m);
}

pub(crate) fn args_equal(a: &Vec<ArgumentKeyAndValue>, b: &Vec<ArgumentKeyAndValue>) -> (r: bool)
    ensures
        r == (a@ == b@),
{
    if a.len() != b.len() {
        return false;
    }
    let mut i: usize = 0;
    while i < a.len()
        invariant
            a.len() == b.len(),
            i <= a.len(),
            forall|k: int| 0 <= k < i ==> a@[k] == b@[k],
        decreases a.len() - i,
    {
        if a[i] != b[i] {
            return false;
        }
        i += 1;
    }
    proof {
        assert(a@ =~= b@);
    }
    true
}

pub(crate) fn keys_equal(a: &NormalizationKey, b: &NormalizationKey) -> (r: bool)
    ensures
        r == (key_view(*a) == key_view(*b)),
{
    match (a, b) {
        (NormalizationKey::Discriminator, NormalizationKey::Discriminator) => true,
        (NormalizationKey::Id, NormalizationKey::Id) => true,
        (NormalizationKey::ServerField(x), NormalizationKey::ServerField(y)) => x.name == y.name && args_equal(&x.arguments, &y.arguments),
        (NormalizationKey::ClientPointer(x), NormalizationKey::ClientPointer(y)) => x.name == y.name && args_equal(&x.arguments, &y.arguments),
        (NormalizationKey::InlineFragment(x), NormalizationKey::InlineFragment(y)) => *x == *y,
        _ => false,
    }
}

fn binding(ctx: &VariableContext, v: u64) -> (r: Option<ArgValue>)
    ensures
        r == binding_from(ctx.0@, v, 0),
{
    let mut k: usize = 0;
    while k < ctx.0.len()
        invariant
            k <= ctx.0.len(),
            binding_from(ctx.0@, v, 0) == binding_from(ctx.0@, v, k as int),
        decreases ctx.0.len() - k,
    {
        if ctx.0[k].0 == v {
            return Some(ctx.0[k].1);
        }
        k += 1;
    }
    None
}

pub(crate) fn transform_args_exec(args: &Vec<ArgumentKeyAndValue>, ctx: &VariableContext) -> (r: Vec<ArgumentKeyAndValue>)
    ensures
        r@ == transform_args(args@, ctx.0@),
{
    let mut r: Vec<ArgumentKeyAndValue> = Vec::new();
    let mut i: usize = 0;
    while i < args.len()
        invariant
            i <= args.len(),
            r@ == transform_args(args@, ctx.0@).subrange(0, i as int),
        decreases args.len() - i,
    {
        let a = args[i];
        let t = match a.value {
            ArgValue::Variable(v) => match binding(ctx, v) {
                Some(value) => ArgumentKeyAndValue { key: a.key, value },
                None => a,
            },
            _ => a,
        };
        r.push(t);
        proof {
            assert(r@ =~= transform_args(args@, ctx.0@).subrange(0, i + 1));
        }
        i += 1;
    }
    proof {
        assert(transform_args(args@, ctx.0@).subrange(0, args@.len() as int) =~= transform_args(args@, ctx.0@));
    }
    r
}

pub(crate) fn transform_key_exec(k: &NormalizationKey, ctx: &VariableContext) -> (r: NormalizationKey)
    ensures
        key_view(r) == transform_key(key_view(*k), ctx.0@),
{
    match k {
        NormalizationKey::Discriminator => NormalizationKey::Discriminator,
        NormalizationKey::Id => NormalizationKey::Id,
        NormalizationKey::ServerField(n) => NormalizationKey::ServerField(
            NameAndArguments { name: n.name, arguments: transform_args_exec(&n.arguments, ctx) },
        ),
        NormalizationKey::ClientPointer(n) => NormalizationKey::ClientPointer(
            NameAndArguments { name: n.name, arguments: transform_args_exec(&n.arguments, ctx) },
        ),
        NormalizationKey::InlineFragment(o) => NormalizationKey::InlineFragment(*o),
    }
}

pub(crate) fn key_index(m: &MergedSelectionMap, k: &NormalizationKey) -> (r: Option<usize>)
    ensures
        match r {
            Some(j) => j < m.0.len() && key_index_from(map_view(m.0@), key_view(*k), 0) == Some(j as int),
            None => key_index_from(map_view(m.0@), key_view(*k), 0) is None,
        },
{
    proof {
        lemma_map_view(m.0@);
    }
    let ghost mv = map_view(m.0@);
    let mut j: usize = 0;
    while j < m.0.len()
        invariant
            mv == map_view(m.0@),
            mv.len() == m.0.len(),
            forall|i: int| 0 <= i < m.0@.len() ==> #[trigger] mv[i] == (key_view(m.0@[i].0), sel_view(m.0@[i].1)),
            j <= m.0.len(),
            key_index_from(mv, key_view(*k), 0) == key_index_from(mv, key_view(*k), j as int),
        decreases m.0.len() - j,
    {
        proof {
            assert(mv[j as int] == (key_view(m.0@[j as int].0), sel_view(m.0@[j as int].1)));
        }
        if keys_equal(&m.0[j].0, k) {
            return Some(j);
        }
        j += 1;
    }
    None
}

/// A child's selection in the parent's context.
fn transform_selection(s: &MergedServerSelection, ctx: &VariableContext) -> (r: MergedServerSelection)
    requires
        transform_ok(sel_view(*s), ctx.0@),
    ensures
        sel_view(r) == transform_sel(sel_view(*s), ctx.0@),
    decreases *s, 0int,
{
    match s {
        MergedServerSelection::ScalarField(f) => MergedServerSelection::ScalarField(
            MergedScalarFieldSelection {
                parent_object_entity_name: f.parent_object_entity_name,
                name: f.name,
                arguments: transform_args_exec(&f.arguments, ctx),
            },
        ),
        MergedServerSelection::LinkedField(f) => {
            let mut map = MergedSelectionMap(Vec::new());
            transform_and_merge_child_selection_map_into_parent_map(&mut map, &f.selection_map, ctx);
            MergedServerSelection::LinkedField(
                MergedLinkedFieldSelection {
                    parent_object_entity_name: f.parent_object_entity_name,
                    name: f.name,
                    selection_map: map,
                    arguments: transform_args_exec(&f.arguments, ctx),
                    concrete_target_entity_name: f.concrete_target_entity_name,
                },
            )
        },
        MergedServerSelection::ClientObjectSelectable(f) => {
            let mut map = MergedSelectionMap(Vec::new());
            transform_and_merge_child_selection_map_into_parent_map(&mut map, &f.selection_map, ctx);
            MergedServerSelection::ClientObjectSelectable(
                MergedLinkedFieldSelection {
                    parent_object_entity_name: f.parent_object_entity_name,
                    name: f.name,
                    selection_map: map,
                    arguments: transform_args_exec(&f.arguments, ctx),
                    concrete_target_entity_name: f.concrete_target_entity_name,
                },
            )
        },
        MergedServerSelection::InlineFragment(f) => {
            let mut map = MergedSelectionMap(Vec::new());
            transform_and_merge_child_selection_map_into_parent_map(&mut map, &f.selection_map, ctx);
            MergedServerSelection::InlineFragment(
                MergedInlineFragmentSelection { type_to_refine_to: f.type_to_refine_to, selection_map: map },
            )
        },
    }
}

/// A child's selection merged into the parent's selection of the same key.
fn merge_selection(p: MergedServerSelection, s: &MergedServerSelection, ctx: &VariableContext) -> (r: MergedServerSelection)
    requires
        merge_sel_ok(sel_view(p), sel_view(*s), ctx.0@),
    ensures
        sel_view(r) == merge_sel(sel_view(p), sel_view(*s), ctx.0@),
    decreases *s, 0int,
{
    match p {
        MergedServerSelection::ScalarField(f) => MergedServerSelection::ScalarField(f),
        MergedServerSelection::LinkedField(f) => {
            let mut f = f;
            match s {
                MergedServerSelection::LinkedField(c) => {
                    transform_and_merge_child_selection_map_into_parent_map(&mut f.selection_map, &c.selection_map, ctx);
                },
                _ => {},
            }
            MergedServerSelection::LinkedField(f)
        },
        MergedServerSelection::ClientObjectSelectable(f) => {
            let mut f = f;
            match s {
                MergedServerSelection::ClientObjectSelectable(c) => {
                    transform_and_merge_child_selection_map_into_parent_map(&mut f.selection_map, &c.selection_map, ctx);
                },
                _ => {},
            }
            MergedServerSelection::ClientObjectSelectable(f)
        },
        MergedServerSelection::InlineFragment(f) => {
            let mut f = f;
            match s {
                MergedServerSelection::InlineFragment(c) => {
                    transform_and_merge_child_selection_map_into_parent_map(&mut f.selection_map, &c.selection_map, ctx);
                },
                _ => {},
            }
            MergedServerSelection::InlineFragment(f)
        },
    }
}

/// Merges a child's selection map into its parent's, each of the child's keys transformed by
/// the parent's variable context: a key the parent lacks gets the child's selection transformed
/// the same way, all the way down; a key it has gets the child's sub-selections merged into its
/// own. A scalar merged into a scalar changes nothing.
pub fn transform_and_merge_child_selection_map_into_parent_map(
    parent_map: &mut MergedSelectionMap,
    untransformed_child_map: &MergedSelectionMap,
    parent_variable_context: &VariableContext,
)
    requires
        merge_ok(map_view(old(parent_map).0@), map_view(untransformed_child_map.0@), 0, parent_variable_context.0@),
    ensures
        map_view(final(parent_map).0@) == merge_entries(
            map_view(old(parent_map).0@),
            map_view(untransformed_child_map.0@),
            0,
            parent_variable_context.0@,
        ),
        keys_unique(map_view(old(parent_map).0@)) ==> keys_unique(map_view(final(parent_map).0@)),
    decreases untransformed_child_map.0@, 1int,
{
    proof {
        if keys_unique(map_view(parent_map.0@)) {
            lemma_merge_entries_unique(map_view(parent_map.0@), map_view(untransformed_child_map.0@), 0, parent_variable_context.0@);
        }
    }
    let ghost cv = map_view(untransformed_child_map.0@);
    let ghost ctx = parent_variable_context.0@;
    proof {
        lemma_map_view(untransformed_child_map.0@);
    }
    let mut i: usize = 0;
    while i < untransformed_child_map.0.len()
        invariant
            cv == map_view(untransformed_child_map.0@),
            ctx == parent_variable_context.0@,
            cv.len() == untransformed_child_map.0.len(),
            forall|t: int| 0 <= t < cv.len() ==> #[trigger] cv[t] == (key_view(untransformed_child_map.0@[t].0), sel_view(untransformed_child_map.0@[t].1)),
            i <= cv.len(),
            merge_entries(map_view(old(parent_map).0@), cv, 0, ctx) == merge_entries(map_view(parent_map.0@), cv, i as int, ctx),
            merge_ok(map_view(parent_map.0@), cv, i as int, ctx),
        decreases cv.len() - i,
    {
        let entry = &untransformed_child_map.0[i];
        proof {
            assert(cv[i as int] == (key_view(entry.0), sel_view(entry.1)));
            lemma_map_view(parent_map.0@);
        }
        let key = transform_key_exec(&entry.0, parent_variable_context);
        let ghost pv = map_view(parent_map.0@);
        match key_index(parent_map, &key) {
            None => {
                let transformed = transform_selection(&entry.1, parent_variable_context);
                let ghost before = parent_map.0@;
                parent_map.0.push((key, transformed));
                proof {
                    lemma_map_view_push(before, (key, transformed));
                }
            },
            Some(j) => {
                let ghost before = parent_map.0@;
                let (k, p) = parent_map.0.remove(j);
                proof {
                    assert(pv[j as int] == (key_view(k), sel_view(p)));
                }
                let merged = merge_selection(p, &entry.1, parent_variable_context);
                parent_map.0.insert(j, (k, merged));
                proof {
                    lemma_map_view(parent_map.0@);
                    assert(map_view(parent_map.0@) =~= pv.update(j as int, (pv[j as int].0, merge_sel(pv[j as int].1, cv[i as int].1, ctx))));
                }
            },
        }
        i += 1;
    }
}

/// A scalar selection of a reader: its field's name, its arguments, and whether it is marked
/// updatable.
#[derive(Debug, PartialEq, Eq)]
pub struct ScalarSelectionModel {
    pub name: u64,
    pub arguments: Vec<ArgumentKeyAndValue>,
    pub updatable: bool,
}

/// What a merge traversal has met so far: whether any selection was marked updatable, the
/// keys of the linked fields, inline fragments and client pointers from the client field being
/// merged down to where the traversal is, the paths to fields that are refetched, and the
/// client selectables the client field accesses directly.
#[derive(Debug, PartialEq, Eq)]
pub struct TraversalState {
    pub has_updatable: bool,
    pub traversal_path: Vec<NormalizationKey>,
    pub refetch_paths: Vec<(RefetchPathModel, RootRefetchedPathModel)>,
    pub accessible_client_scalar_selectables: Vec<ClientSelectableRef>,
}

impl TraversalState {
    /// A traversal that has met nothing yet.
    pub fn new() -> (r: TraversalState)
        ensures
            state_view(r) == (StateView { has_updatable: false, path: seq![], refetch: seq![], accessible: seq![] }),
    {
        let r = TraversalState {
            has_updatable: false,
            traversal_path: Vec::new(),
            refetch_paths: Vec::new(),
            accessible_client_scalar_selectables: Vec::new(),
        };
        proof {
            assert(keys_view(r.traversal_path@) =~= seq![]);
            assert(refetch_view(r.refetch_paths@) =~= seq![]);
        }
        r
    }
}

/// The interned names a merge treats specially: the typename and the id fields.
#[derive(Clone, Copy, Debug, PartialEq, Eq, Structural)]
pub struct WellKnownNames {
    pub typename: u64,
    pub id: u64,
}

/// The key a scalar selection is merged under: the discriminator for the typename, the id for
/// the id, and otherwise the field with its arguments in the context.
pub open spec fn scalar_key(s: ScalarSelectionModel, ctx: Seq<(u64, ArgValue)>, names: WellKnownNames) -> KeyView {
    scalar_key_of(s.name, s.arguments@, ctx, names)
}

pub open spec fn scalar_key_of(name: u64, arguments: Seq<ArgumentKeyAndValue>, ctx: Seq<(u64, ArgValue)>, names: WellKnownNames) -> KeyView {
    if name == names.typename {
        KeyView::Discriminator
    } else if name == names.id {
        KeyView::Id
    } else {
        KeyView::ServerField(name, transform_args(arguments, ctx))
    }
}

/// Merges a server scalar selection into a selection map: under its key, a scalar field of the
/// parent entity with its arguments in the context, unless that key already holds a scalar. An
/// updatable selection is noted in the traversal state.
pub fn merge_server_scalar_field(
    scalar_field_selection: &ScalarSelectionModel,
    parent_map: &mut MergedSelectionMap,
    variable_context: &VariableContext,
    merge_traversal_state: &mut TraversalState,
    parent_object_entity_name: u64,
    names: &WellKnownNames,
)
    requires
        key_index_from(
            map_view(old(parent_map).0@),
            scalar_key(*scalar_field_selection, variable_context.0@, *names),
            0,
        ) matches Some(j) ==> map_view(old(parent_map).0@)[j].1 is Scalar,
    ensures
        state_view(*final(merge_traversal_state)) == with_updatable(
            state_view(*old(merge_traversal_state)),
            scalar_field_selection.updatable,
        ),
        map_view(final(parent_map).0@) == match key_index_from(
            map_view(old(parent_map).0@),
            scalar_key(*scalar_field_selection, variable_context.0@, *names),
            0,
        ) {
            Some(_) => map_view(old(parent_map).0@),
            None => map_view(old(parent_map).0@).push(
                (
                    scalar_key(*scalar_field_selection, variable_context.0@, *names),
                    SelView::Scalar {
                        parent: parent_object_entity_name,
                        name: scalar_field_selection.name,
                        arguments: transform_args(scalar_field_selection.arguments@, variable_context.0@),
                    },
                ),
            ),
        },
        keys_unique(map_view(old(parent_map).0@)) ==> keys_unique(map_view(final(parent_map).0@)),
{
    proof {
        if keys_unique(map_view(parent_map.0@)) {
            lemma_unique_push_or_update(
                map_view(parent_map.0@),
                scalar_key(*scalar_field_selection, variable_context.0@, *names),
                SelView::Scalar {
                    parent: parent_object_entity_name,
                    name: scalar_field_selection.name,
                    arguments: transform_args(scalar_field_selection.arguments@, variable_context.0@),
                },
            );
        }
    }
    if scalar_field_selection.updatable {
        merge_traversal_state.has_updatable = true;
    }
    let name = scalar_field_selection.name;
    let key = if name == names.typename {
        NormalizationKey::Discriminator
    } else if name == names.id {
        NormalizationKey::Id
    } else {
        NormalizationKey::ServerField(
            NameAndArguments { name, arguments: transform_args_exec(&scalar_field_selection.arguments, variable_context) },
        )
    };
    match key_index(parent_map, &key) {
        Some(_) => {},
        None => {
            let selection = MergedServerSelection::ScalarField(
                MergedScalarFieldSelection {
                    parent_object_entity_name,
                    name,
                    arguments: transform_args_exec(&scalar_field_selection.arguments, variable_context),
                },
            );
            let ghost before = parent_map.0@;
            parent_map.0.push((key, selection));
            proof {
                lemma_map_view_push(before, (key, selection));
            }
        },
    }
}

/// Puts the typename selection of the parent entity under the discriminator, replacing what
/// the discriminator held.
pub fn maybe_add_typename_selection(selections: &mut MergedSelectionMap, parent_object_entity_name: u64, names: &WellKnownNames)
    ensures
        map_view(final(selections).0@) == match key_index_from(map_view(old(selections).0@), KeyView::Discriminator, 0) {
            Some(j) => map_view(old(selections).0@).update(
                j,
                (KeyView::Discriminator, SelView::Scalar { parent: parent_object_entity_name, name: names.typename, arguments: seq![] }),
            ),
            None => map_view(old(selections).0@).push(
                (KeyView::Discriminator, SelView::Scalar { parent: parent_object_entity_name, name: names.typename, arguments: seq![] }),
            ),
        },
        keys_unique(map_view(old(selections).0@)) ==> keys_unique(map_view(final(selections).0@)),
{
    proof {
        if keys_unique(map_view(selections.0@)) {
            lemma_key_index_from(map_view(selections.0@), KeyView::Discriminator, 0);
            lemma_unique_push_or_update(
                map_view(selections.0@),
                KeyView::Discriminator,
                SelView::Scalar { parent: parent_object_entity_name, name: names.typename, arguments: seq![] },
            );
        }
    }
    let selection = MergedServerSelection::ScalarField(
        MergedScalarFieldSelection { parent_object_entity_name, name: names.typename, arguments: Vec::new() },
    );
    let ghost before = selections.0@;
    proof {
        lemma_map_view(before);
    }
    match key_index(selections, &NormalizationKey::Discriminator) {
        Some(j) => {
            selections.0.set(j, (NormalizationKey::Discriminator, selection));
            proof {
                lemma_map_view(selections.0@);
                assert(map_view(selections.0@) =~= map_view(before).update(
                    j as int,
                    (KeyView::Discriminator, SelView::Scalar { parent: parent_object_entity_name, name: names.typename, arguments: seq![] }),
                ));
            }
        },
        None => {
            selections.0.push((NormalizationKey::Discriminator, selection));
            proof {
                lemma_map_view_push(before, (NormalizationKey::Discriminator, selection));
            }
        },
    }
}

/// Whether a selection fits the key it sits under: a server field key holds a scalar or a
/// linked field of its name and arguments, a client pointer key a client object of its name
/// and arguments, an inline fragment key an inline fragment on its type, and the typename and
/// id keys a scalar.
pub open spec fn entry_agrees(k: KeyView, s: SelView) -> bool {
    match k {
        KeyView::ServerField(n, a) => match s {
            SelView::Scalar { name, arguments, .. } => name == n && arguments == a,
            SelView::Linked { name, arguments, .. } => name == n && arguments == a,
            _ => false,
        },
        KeyView::ClientPointer(n, a) => match s {
            SelView::ClientObject { name, arguments, .. } => name == n && arguments == a,
            _ => false,
        },
        KeyView::InlineFragment(t) => match s {
            SelView::Inline { refine, .. } => refine == t,
            _ => false,
        },
        _ => s is Scalar,
    }
}

/// Whether every entry of the map, at every depth, fits its key.
pub open spec fn agrees_deep(m: Seq<(KeyView, SelView)>) -> bool
    decreases m, 1int,
{
    forall|i: int| 0 <= i < m.len() ==> entry_agrees(#[trigger] m[i].0, m[i].1) && sel_agrees_deep(m[i].1)
}

/// Whether every entry of the selection's map, at every depth, fits its key.
pub open spec fn sel_agrees_deep(s: SelView) -> bool
    decreases s, 0int,
{
    match s {
        SelView::Scalar { .. } => true,
        SelView::Linked { map, .. } => agrees_deep(map),
        SelView::ClientObject { map, .. } => agrees_deep(map),
        SelView::Inline { map, .. } => agrees_deep(map),
    }
}

proof fn lemma_transform_sel_agrees(k: KeyView, s: SelView, ctx: Seq<(u64, ArgValue)>)
    requires
        entry_agrees(k, s),
        sel_agrees_deep(s),
        transform_ok(s, ctx),
    ensures
        entry_agrees(transform_key(k, ctx), transform_sel(s, ctx)),
        sel_agrees_deep(transform_sel(s, ctx)),
    decreases s, 1int,
{
    match s {
        SelView::Scalar { .. } => {},
        SelView::Linked { map, .. } => lemma_merge_entries_agree(seq![], map, 0, ctx),
        SelView::ClientObject { map, .. } => lemma_merge_entries_agree(seq![], map, 0, ctx),
        SelView::Inline { map, .. } => lemma_merge_entries_agree(seq![], map, 0, ctx),
    }
}

proof fn lemma_merge_sel_agrees(k: KeyView, p: SelView, s: SelView, ctx: Seq<(u64, ArgValue)>)
    requires
        entry_agrees(k, p),
        sel_agrees_deep(p),
        sel_agrees_deep(s),
        merge_sel_ok(p, s, ctx),
    ensures
        entry_agrees(k, merge_sel(p, s, ctx)),
        sel_agrees_deep(merge_sel(p, s, ctx)),
    decreases s, 1int,
{
    match (p, s) {
        (SelView::Linked { map, .. }, SelView::Linked { map: sm, .. }) => lemma_merge_entries_agree(map, sm, 0, ctx),
        (SelView::ClientObject { map, .. }, SelView::ClientObject { map: sm, .. }) => lemma_merge_entries_agree(map, sm, 0, ctx),
        (SelView::Inline { map, .. }, SelView::Inline { map: sm, .. }) => lemma_merge_entries_agree(map, sm, 0, ctx),
        _ => {},
    }
}

proof fn lemma_merge_entries_agree(parent: Seq<(KeyView, SelView)>, child: Seq<(KeyView, SelView)>, i: int, ctx: Seq<(u64, ArgValue)>)
    requires
        agrees_deep(parent),
        agrees_deep(child),
        merge_ok(parent, child, i, ctx),
    ensures
        agrees_deep(merge_entries(parent, child, i, ctx)),
    decreases child, child.len() - i,
{
    if 0 <= i < child.len() {
        let k = transform_key(child[i].0, ctx);
        assert(entry_agrees(child[i].0, child[i].1) && sel_agrees_deep(child[i].1));
        lemma_key_index_from(parent, k, 0);
        match key_index_from(parent, k, 0) {
            None => {
                lemma_transform_sel_agrees(child[i].0, child[i].1, ctx);
                let next = parent.push((k, transform_sel(child[i].1, ctx)));
                assert forall|t: int| 0 <= t < next.len() implies entry_agrees(#[trigger] next[t].0, next[t].1) && sel_agrees_deep(next[t].1) by {
                    if t < parent.len() {
                        assert(next[t] == parent[t]);
                    }
                }
                lemma_merge_entries_agree(next, child, i + 1, ctx);
            },
            Some(j) => {
                assert(entry_agrees(parent[j].0, parent[j].1) && sel_agrees_deep(parent[j].1));
                lemma_merge_sel_agrees(parent[j].0, parent[j].1, child[i].1, ctx);
                let next = parent.update(j, (parent[j].0, merge_sel(parent[j].1, child[i].1, ctx)));
                assert forall|t: int| 0 <= t < next.len() implies entry_agrees(#[trigger] next[t].0, next[t].1) && sel_agrees_deep(next[t].1) by {
                    if t != j {
                        assert(next[t] == parent[t]);
                    }
                }
                lemma_merge_entries_agree(next, child, i + 1, ctx);
            },
        }
    }
}

/// Merging a child map into its parent, where every selection of both fits the key it sits
/// under, keeps it so at every depth: in particular, a selection added to the parent carries
/// the arguments of its key, which are the child's bound by the context.
pub proof fn law_merged_selections_fit_their_keys(parent: Seq<(KeyView, SelView)>, child: Seq<(KeyView, SelView)>, ctx: Seq<(u64, ArgValue)>)
    requires
        agrees_deep(parent),
        agrees_deep(child),
        merge_ok(parent, child, 0, ctx),
    ensures
        agrees_deep(merge_entries(parent, child, 0, ctx)),
{
    lemma_merge_entries_agree(parent, child, 0, ctx);
}

proof fn lemma_binding_from(ctx: Seq<(u64, ArgValue)>, v: u64, k: int)
    requires
        0 <= k,
    ensures
        (forall|t: int| k <= t < ctx.len() ==> #[trigger] ctx[t].0 != v) ==> binding_from(ctx, v, k) is None,
        forall|t: int|
            k <= t < ctx.len() && #[trigger] ctx[t].0 == v && (forall|u: int| k <= u < t ==> ctx[u].0 != v) ==> binding_from(ctx, v, k)
                == Some(ctx[t].1),
    decreases ctx.len() - k,
{
    if k < ctx.len() {
        lemma_binding_from(ctx, v, k + 1);
        assert forall|t: int|
            k <= t < ctx.len() && #[trigger] ctx[t].0 == v && (forall|u: int| k <= u < t ==> ctx[u].0 != v) implies binding_from(ctx, v, k)
                == Some(ctx[t].1) by {
            if t > k {
                assert(ctx[k].0 != v);
                assert(forall|u: int| k + 1 <= u < t ==> ctx[u].0 != v);
            }
        }
    }
}

/// In a variable context, an argument keeps its name; a variable takes the value of the first
/// binding of it in the context, and stays a variable where the context does not bind it; a
/// literal stays as it is.
pub proof fn law_arguments_bound_by_context(arguments: Seq<ArgumentKeyAndValue>, ctx: Seq<(u64, ArgValue)>)
    ensures
        transform_args(arguments, ctx).len() == arguments.len(),
        forall|i: int| 0 <= i < arguments.len() ==> (#[trigger] transform_args(arguments, ctx)[i]).key == arguments[i].key,
        forall|i: int|
            0 <= i < arguments.len() && !(arguments[i].value is Variable) ==> #[trigger] transform_args(arguments, ctx)[i]
                == arguments[i],
        forall|i: int|
            0 <= i < arguments.len() && (arguments[i].value matches ArgValue::Variable(v) && forall|t: int|
                0 <= t < ctx.len() ==> ctx[t].0 != v) ==> #[trigger] transform_args(arguments, ctx)[i] == arguments[i],
        forall|i: int, t: int|
            0 <= i < arguments.len() && 0 <= t < ctx.len() && (arguments[i].value matches ArgValue::Variable(v) && ctx[t].0 == v
                && forall|u: int| 0 <= u < t ==> ctx[u].0 != v) ==> (#[trigger] transform_args(arguments, ctx)[i]).value
                == (#[trigger] ctx[t]).1,
{
    assert forall|i: int| 0 <= i < arguments.len() implies #[trigger] transform_args(arguments, ctx)[i] == transform_arg(arguments[i], ctx) by {}
    assert forall|i: int, t: int|
        0 <= i < arguments.len() && 0 <= t < ctx.len() && (arguments[i].value matches ArgValue::Variable(v) && ctx[t].0 == v && forall|u: int|
            0 <= u < t ==> ctx[u].0 != v) implies (#[trigger] transform_args(arguments, ctx)[i]).value == (#[trigger] ctx[t]).1 by {
        let v = arguments[i].value->Variable_0;
        lemma_binding_from(ctx, v, 0);
    }
    assert forall|i: int|
        0 <= i < arguments.len() && (arguments[i].value matches ArgValue::Variable(v) && forall|t: int|
            0 <= t < ctx.len() ==> ctx[t].0 != v) implies #[trigger] transform_args(arguments, ctx)[i] == arguments[i] by {
        let v = arguments[i].value->Variable_0;
        lemma_binding_from(ctx, v, 0);
    }
}


/// In a variable context a key keeps its kind and name, a field or client pointer key has its
/// arguments bound as selection arguments are, and the other keys stay as they are.
pub proof fn law_keys_bound_by_context(k: KeyView, ctx: Seq<(u64, ArgValue)>)
    ensures
        k matches KeyView::ServerField(n, a) ==> transform_key(k, ctx) == KeyView::ServerField(n, transform_args(a, ctx)),
        k matches KeyView::ClientPointer(n, a) ==> transform_key(k, ctx) == KeyView::ClientPointer(n, transform_args(a, ctx)),
        !(k is ServerField) && !(k is ClientPointer) ==> transform_key(k, ctx) == k,
{
}


/// Whether `b` starts with the entries of `a`, each under the same key, each selection kept
/// with its own fields and its map kept the same way, all the way down.
pub open spec fn prefix_deep(a: Seq<(KeyView, SelView)>, b: Seq<(KeyView, SelView)>) -> bool
    decreases a, 1int,
{
    a.len() <= b.len() && forall|i: int| 0 <= i < a.len() ==> b[i].0 == (#[trigger] a[i]).0 && sel_prefix_deep(a[i].1, b[i].1)
}

/// Whether `y` is `x` with entries possibly added to its map, all the way down.
pub open spec fn sel_prefix_deep(x: SelView, y: SelView) -> bool
    decreases x, 0int,
{
    match (x, y) {
        (SelView::Scalar { .. }, _) => y == x,
        (SelView::Linked { parent, name, map, arguments, concrete }, SelView::Linked { parent: p2, name: n2, map: m2, arguments: a2, concrete: c2 }) =>
            parent == p2 && name == n2 && arguments == a2 && concrete == c2 && prefix_deep(map, m2),
        (
            SelView::ClientObject { parent, name, map, arguments, concrete },
            SelView::ClientObject { parent: p2, name: n2, map: m2, arguments: a2, concrete: c2 },
        ) => parent == p2 && name == n2 && arguments == a2 && concrete == c2 && prefix_deep(map, m2),
        (SelView::Inline { refine, map }, SelView::Inline { refine: r2, map: m2 }) => refine == r2 && prefix_deep(map, m2),
        _ => false,
    }
}

proof fn lemma_prefix_deep_refl(a: Seq<(KeyView, SelView)>)
    ensures
        prefix_deep(a, a),
    decreases a, 1int,
{
    assert forall|i: int| 0 <= i < a.len() implies a[i].0 == (#[trigger] a[i]).0 && sel_prefix_deep(a[i].1, a[i].1) by {
        lemma_sel_prefix_deep_refl(a[i].1);
    }
}

proof fn lemma_sel_prefix_deep_refl(x: SelView)
    ensures
        sel_prefix_deep(x, x),
    decreases x, 0int,
{
    match x {
        SelView::Scalar { .. } => {},
        SelView::Linked { map, .. } => lemma_prefix_deep_refl(map),
        SelView::ClientObject { map, .. } => lemma_prefix_deep_refl(map),
        SelView::Inline { map, .. } => lemma_prefix_deep_refl(map),
    }
}

proof fn lemma_prefix_deep_trans(a: Seq<(KeyView, SelView)>, b: Seq<(KeyView, SelView)>, c: Seq<(KeyView, SelView)>)
    requires
        prefix_deep(a, b),
        prefix_deep(b, c),
    ensures
        prefix_deep(a, c),
    decreases a, 1int,
{
    assert forall|i: int| 0 <= i < a.len() implies c[i].0 == (#[trigger] a[i]).0 && sel_prefix_deep(a[i].1, c[i].1) by {
        assert(b[i].0 == a[i].0 && sel_prefix_deep(a[i].1, b[i].1));
        assert(c[i].0 == b[i].0 && sel_prefix_deep(b[i].1, c[i].1));
        lemma_sel_prefix_deep_trans(a[i].1, b[i].1, c[i].1);
    }
}

proof fn lemma_sel_prefix_deep_trans(x: SelView, y: SelView, z: SelView)
    requires
        sel_prefix_deep(x, y),
        sel_prefix_deep(y, z),
    ensures
        sel_prefix_deep(x, z),
    decreases x, 0int,
{
    match (x, y, z) {
        (SelView::Linked { map, .. }, SelView::Linked { map: m2, .. }, SelView::Linked { map: m3, .. }) => lemma_prefix_deep_trans(map, m2, m3),
        (SelView::ClientObject { map, .. }, SelView::ClientObject { map: m2, .. }, SelView::ClientObject { map: m3, .. }) =>
            lemma_prefix_deep_trans(map, m2, m3),
        (SelView::Inline { map, .. }, SelView::Inline { map: m2, .. }, SelView::Inline { map: m3, .. }) => lemma_prefix_deep_trans(map, m2, m3),
        _ => {},
    }
}

proof fn lemma_merge_sel_prefix(p: SelView, s: SelView, ctx: Seq<(u64, ArgValue)>)
    requires
        merge_sel_ok(p, s, ctx),
    ensures
        sel_prefix_deep(p, merge_sel(p, s, ctx)),
    decreases s, 1int,
{
    match (p, s) {
        (SelView::Linked { map, .. }, SelView::Linked { map: sm, .. }) => lemma_merge_entries_prefix(map, sm, 0, ctx),
        (SelView::ClientObject { map, .. }, SelView::ClientObject { map: sm, .. }) => lemma_merge_entries_prefix(map, sm, 0, ctx),
        (SelView::Inline { map, .. }, SelView::Inline { map: sm, .. }) => lemma_merge_entries_prefix(map, sm, 0, ctx),
        _ => {},
    }
}

proof fn lemma_merge_entries_prefix(parent: Seq<(KeyView, SelView)>, child: Seq<(KeyView, SelView)>, i: int, ctx: Seq<(u64, ArgValue)>)
    requires
        merge_ok(parent, child, i, ctx),
    ensures
        prefix_deep(parent, merge_entries(parent, child, i, ctx)),
    decreases child, child.len() - i,
{
    if 0 <= i < child.len() {
        let k = transform_key(child[i].0, ctx);
        lemma_key_index_from(parent, k, 0);
        match key_index_from(parent, k, 0) {
            None => {
                let next = parent.push((k, transform_sel(child[i].1, ctx)));
                assert(prefix_deep(parent, next)) by {
                    assert forall|t: int| 0 <= t < parent.len() implies next[t].0 == (#[trigger] parent[t]).0 && sel_prefix_deep(parent[t].1, next[t].1) by {
                        assert(next[t] == parent[t]);
                        lemma_sel_prefix_deep_refl(parent[t].1);
                    }
                }
                lemma_merge_entries_prefix(next, child, i + 1, ctx);
                lemma_prefix_deep_trans(parent, next, merge_entries(next, child, i + 1, ctx));
            },
            Some(j) => {
                let next = parent.update(j, (parent[j].0, merge_sel(parent[j].1, child[i].1, ctx)));
                lemma_merge_sel_prefix(parent[j].1, child[i].1, ctx);
                assert(prefix_deep(parent, next)) by {
                    assert forall|t: int| 0 <= t < parent.len() implies next[t].0 == (#[trigger] parent[t]).0 && sel_prefix_deep(parent[t].1, next[t].1) by {
                        if t != j {
                            assert(next[t] == parent[t]);
                            lemma_sel_prefix_deep_refl(parent[t].1);
                        }
                    }
                }
                lemma_merge_entries_prefix(next, child, i + 1, ctx);
                lemma_prefix_deep_trans(parent, next, merge_entries(next, child, i + 1, ctx));
            },
        }
    } else {
        lemma_prefix_deep_refl(parent);
    }
}

/// Merging a child map keeps everything the parent had: its entries stay first, in order,
/// under the same keys, each selection with its own fields and its map kept the same way, all
/// the way down; merging only adds.
pub proof fn law_merging_keeps_the_parent(parent: Seq<(KeyView, SelView)>, child: Seq<(KeyView, SelView)>, ctx: Seq<(u64, ArgValue)>)
    requires
        merge_ok(parent, child, 0, ctx),
    ensures
        prefix_deep(parent, merge_entries(parent, child, 0, ctx)),
{
    lemma_merge_entries_prefix(parent, child, 0, ctx);
}

} // verus!
