use isograph_parser::accessible_selectables::{
    accessible_client_fields, accessible_client_selectables,
    client_scalar_selectable_selection_set_for_parent_query, ClientScalarSelectionSets, AccessibleSelectable, ClientSelectableId, SelectableEntry,
    SelectableKind, SelectionModel,
};
use isograph_parser::argument_map::{
    remove_field_map_item, ArgumentEntry, ArgumentMap, CreateAdditionalFieldsError as MapError,
    FieldMapItem, ModifiedArgument, PotentiallyModifiedArgument, ServerEntityName,
    ServerSelectableId, ServerSelectableRecord, TypeAnnotationModel, TypeWrapper,
    VariableDefinition,
};
use isograph_parser::supertype_pointers::{
    CreateAdditionalFieldsError, DefinitionLocation, InlineFragmentData, LinkClientField, ReaderScalarSelection,
    SchemaModel, SchemaObject, ServerObjectSelectable,
};
use isograph_parser::Span;

fn object(id: usize, name: &str, concrete_type: Option<usize>, fields: Vec<(&str, DefinitionLocation)>) -> SchemaObject {
    SchemaObject {
        id,
        name: name.to_string(),
        concrete_type,
        encountered_fields: fields.into_iter().map(|(n, l)| (n.to_string(), l)).collect(),
    }
}

fn node_and_user(node_fields: Vec<(&str, DefinitionLocation)>) -> SchemaModel {
    SchemaModel {
        objects: vec![
            object(0, "Node", None, node_fields),
            object(
                1,
                "User",
                Some(1),
                vec![
                    ("__typename", DefinitionLocation::ServerScalar(7)),
                    ("__link", DefinitionLocation::ClientScalar(3)),
                ],
            ),
        ],
        server_object_selectables: vec![],
        client_scalar_selectables: vec![],
    }
}

#[test]
fn a_concrete_subtype_gets_a_pointer_on_each_supertype() {
    let mut schema = node_and_user(vec![("id", DefinitionLocation::ServerScalar(1))]);
    assert_eq!(schema.add_pointers_to_supertypes(&vec![(1, vec![0])]), Ok(()));
    assert_eq!(
        schema.objects[0].encountered_fields,
        vec![
            ("id".to_string(), DefinitionLocation::ServerScalar(1)),
            ("asUser".to_string(), DefinitionLocation::ServerObject(0)),
        ],
    );
    assert_eq!(
        schema.server_object_selectables,
        vec![ServerObjectSelectable {
            description: Some("A client pointer for the User type.".to_string()),
            name: "asUser".to_string(),
            parent_type_id: 1,
            target_object_entity: 1,
            inline_fragment: Some(InlineFragmentData {
                server_object_selectable_id: 0,
                concrete_type: 1,
                reader_selection_set: vec![
                    ReaderScalarSelection { name: "__typename".to_string(), location: DefinitionLocation::ServerScalar(7) },
                    ReaderScalarSelection { name: "__link".to_string(), location: DefinitionLocation::ClientScalar(3) },
                ],
            }),
        }],
    );
}

#[test]
fn an_abstract_subtype_gets_no_pointer() {
    let mut schema = node_and_user(vec![]);
    schema.objects[1].concrete_type = None;
    assert_eq!(schema.add_pointers_to_supertypes(&vec![(1, vec![0])]), Ok(()));
    assert!(schema.objects[0].encountered_fields.is_empty());
    assert!(schema.server_object_selectables.is_empty());
}

#[test]
fn a_pointer_name_already_on_a_supertype_is_field_exists_on_type() {
    let mut schema = node_and_user(vec![("asUser", DefinitionLocation::ServerScalar(4))]);
    assert_eq!(
        schema.add_pointers_to_supertypes(&vec![(1, vec![0])]),
        Err(CreateAdditionalFieldsError::FieldExistsOnType {
            field_name: "asUser".to_string(),
            parent_type: "Node".to_string(),
        }),
    );
    assert_eq!(
        schema.objects[0].encountered_fields,
        vec![("asUser".to_string(), DefinitionLocation::ServerObject(0))],
    );
    assert_eq!(schema.server_object_selectables.len(), 1);
}

fn span(start: u32) -> Span {
    Span::new(start, start + 1)
}

#[test]
fn accessible_client_selectables_come_in_selection_order_through_objects() {
    // On entity 1: 10 server scalar, 11 client scalar, 12 server object to 2, 13 client object to 2.
    // On entity 2: 20 client scalar, 21 server scalar.
    let table = vec![
        SelectableEntry { parent: 1, name: 10, kind: SelectableKind::ServerScalar },
        SelectableEntry { parent: 1, name: 11, kind: SelectableKind::ClientScalar },
        SelectableEntry { parent: 1, name: 12, kind: SelectableKind::ServerObject { target: 2 } },
        SelectableEntry { parent: 1, name: 13, kind: SelectableKind::ClientObject { target: 2 } },
        SelectableEntry { parent: 2, name: 20, kind: SelectableKind::ClientScalar },
        SelectableEntry { parent: 2, name: 21, kind: SelectableKind::ServerScalar },
    ];
    let inner = || vec![
        SelectionModel::Scalar { name: 21, location: span(50) },
        SelectionModel::Scalar { name: 20, location: span(51) },
    ];
    let set = vec![
        SelectionModel::Scalar { name: 10, location: span(0) },
        SelectionModel::Scalar { name: 11, location: span(1) },
        SelectionModel::Object { name: 12, location: span(2), selection_set: inner() },
        SelectionModel::Object { name: 13, location: span(3), selection_set: inner() },
    ];
    assert_eq!(
        accessible_client_selectables(&set, 1, &table),
        vec![
            AccessibleSelectable { id: ClientSelectableId::Scalar { parent: 1, name: 11 }, location: span(1) },
            AccessibleSelectable { id: ClientSelectableId::Scalar { parent: 2, name: 20 }, location: span(51) },
            AccessibleSelectable { id: ClientSelectableId::Object { parent: 1, name: 13 }, location: span(3) },
            AccessibleSelectable { id: ClientSelectableId::Scalar { parent: 2, name: 20 }, location: span(51) },
        ],
    );
}

fn argument(name: &str, inner: ServerEntityName) -> (VariableDefinition, Span) {
    (
        VariableDefinition {
            name: name.to_string(),
            type_: TypeAnnotationModel { wrappers: vec![TypeWrapper::NonNull], inner },
        },
        span(9),
    )
}

fn item(to: &str) -> FieldMapItem {
    FieldMapItem { from: "id".to_string(), to: to.to_string() }
}

fn input_fields() -> Vec<ServerSelectableRecord> {
    vec![
        ServerSelectableRecord { entity: 5, name: "id".to_string(), selectable: Some(ServerSelectableId::Scalar(5)) },
        ServerSelectableRecord { entity: 5, name: "owner".to_string(), selectable: Some(ServerSelectableId::Object(5)) },
        ServerSelectableRecord { entity: 5, name: "broken".to_string(), selectable: None },
        ServerSelectableRecord { entity: 6, name: "other".to_string(), selectable: Some(ServerSelectableId::Scalar(6)) },
    ]
}

#[test]
fn split_to_arg_splits_at_dots() {
    let split = item("input.owner.id").split_to_arg();
    assert_eq!(split.to_argument_name, "input");
    assert_eq!(split.to_field_names, vec!["owner".to_string(), "id".to_string()]);
    let single = item("id").split_to_arg();
    assert_eq!(single.to_argument_name, "id");
    assert!(single.to_field_names.is_empty());
}

#[test]
fn a_scalar_argument_target_removes_the_argument() {
    let mut map = ArgumentMap::new(vec![
        argument("id", ServerEntityName::Scalar(1)),
        argument("input", ServerEntityName::Object(5)),
        argument("last", ServerEntityName::Scalar(2)),
    ]);
    let processed = remove_field_map_item(&mut map, item("id"), 1, 2, 3, &input_fields()).expect("id is a scalar argument");
    assert_eq!(processed.0, item("id"));
    let names: Vec<String> = map
        .arguments
        .iter()
        .map(|a| match &a.item {
            PotentiallyModifiedArgument::Unmodified(v) => v.name.clone(),
            PotentiallyModifiedArgument::Modified(m) => m.name.clone(),
        })
        .collect();
    assert_eq!(names, vec!["last".to_string(), "input".to_string()]);
}

#[test]
fn a_field_target_modifies_the_argument_object() {
    let mut map = ArgumentMap::new(vec![argument("input", ServerEntityName::Object(5))]);
    assert!(remove_field_map_item(&mut map, item("input.id"), 1, 2, 3, &input_fields()).is_ok());
    assert_eq!(
        map.arguments,
        vec![ArgumentEntry {
            item: PotentiallyModifiedArgument::Modified(ModifiedArgument {
                name: "input".to_string(),
                wrappers: vec![TypeWrapper::NonNull],
                field_map: vec![("owner".to_string(), ServerSelectableId::Object(5))],
            }),
            location: span(9),
        }],
    );
}

#[test]
fn field_map_errors_leave_the_arguments_unchanged() {
    let fresh = || ArgumentMap::new(vec![
        argument("input", ServerEntityName::Object(5)),
        argument("id", ServerEntityName::Scalar(1)),
    ]);
    let mut map = fresh();
    assert_eq!(
        remove_field_map_item(&mut map, item("missing"), 1, 2, 3, &input_fields()),
        Err(MapError::PrimaryDirectiveArgumentDoesNotExistOnField {
            primary_object_entity_name: 1,
            mutation_object_entity_name: 2,
            mutation_selectable_name: 3,
            field_name: "missing".to_string(),
        }),
    );
    assert_eq!(map, fresh());
    assert_eq!(
        remove_field_map_item(&mut map, item("input"), 1, 2, 3, &input_fields()),
        Err(MapError::PrimaryDirectiveCannotRemapObject { primary_object_entity_name: 1, field_name: "input".to_string() }),
    );
    assert_eq!(
        remove_field_map_item(&mut map, item("input.owner"), 1, 2, 3, &input_fields()),
        Err(MapError::PrimaryDirectiveCannotRemapObject { primary_object_entity_name: 1, field_name: "owner".to_string() }),
    );
    assert_eq!(
        remove_field_map_item(&mut map, item("input.broken"), 1, 2, 3, &input_fields()),
        Err(MapError::PrimaryDirectiveFieldNotFound { primary_object_entity_name: 1, field_name: "broken".to_string() }),
    );
    assert_eq!(map, fresh());
}

use isograph_parser::merged_selections::{
    transform_and_merge_child_selection_map_into_parent_map, ArgValue, ArgumentKeyAndValue,
    MergedLinkedFieldSelection, MergedScalarFieldSelection, MergedSelectionMap,
    MergedServerSelection, NameAndArguments, NormalizationKey, VariableContext,
};

fn scalar(name: u64, arguments: Vec<ArgumentKeyAndValue>) -> (NormalizationKey, MergedServerSelection) {
    (
        NormalizationKey::ServerField(NameAndArguments { name, arguments: arguments.clone() }),
        MergedServerSelection::ScalarField(MergedScalarFieldSelection { parent_object_entity_name: 1, name, arguments }),
    )
}

fn linked(name: u64, map: Vec<(NormalizationKey, MergedServerSelection)>) -> (NormalizationKey, MergedServerSelection) {
    (
        NormalizationKey::ServerField(NameAndArguments { name, arguments: vec![] }),
        MergedServerSelection::LinkedField(MergedLinkedFieldSelection {
            parent_object_entity_name: 1,
            name,
            selection_map: MergedSelectionMap(map),
            arguments: vec![],
            concrete_target_entity_name: Some(2),
        }),
    )
}

#[test]
fn a_child_map_merges_into_the_parent_with_its_variables_bound() {
    let arg = |value| ArgumentKeyAndValue { key: 9, value };
    let mut parent = MergedSelectionMap(vec![scalar(1, vec![]), linked(2, vec![scalar(3, vec![])])]);
    let child = MergedSelectionMap(vec![
        scalar(1, vec![]),
        linked(2, vec![scalar(4, vec![])]),
        scalar(5, vec![arg(ArgValue::Variable(7))]),
    ]);
    let ctx = VariableContext(vec![(7, ArgValue::Integer(42))]);
    transform_and_merge_child_selection_map_into_parent_map(&mut parent, &child, &ctx);
    assert_eq!(
        parent,
        MergedSelectionMap(vec![
            scalar(1, vec![]),
            linked(2, vec![scalar(3, vec![]), scalar(4, vec![])]),
            scalar(5, vec![arg(ArgValue::Integer(42))]),
        ]),
    );
}

#[test]
fn an_unbound_variable_stays_a_variable() {
    let arg = ArgumentKeyAndValue { key: 9, value: ArgValue::Variable(8) };
    let mut parent = MergedSelectionMap(vec![]);
    let child = MergedSelectionMap(vec![scalar(5, vec![arg])]);
    transform_and_merge_child_selection_map_into_parent_map(&mut parent, &child, &VariableContext(vec![(7, ArgValue::Null)]));
    assert_eq!(parent, MergedSelectionMap(vec![scalar(5, vec![arg])]));
}

use isograph_parser::merged_selections::{
    maybe_add_typename_selection, merge_server_scalar_field, ScalarSelectionModel, TraversalState,
    WellKnownNames,
};

const NAMES: WellKnownNames = WellKnownNames { typename: 100, id: 101 };

#[test]
fn a_server_scalar_is_merged_once_under_its_key() {
    let mut map = MergedSelectionMap(vec![]);
    let mut state = TraversalState::new();
    let ctx = VariableContext(vec![(7, ArgValue::Boolean(true))]);
    let arg = ArgumentKeyAndValue { key: 9, value: ArgValue::Variable(7) };
    let selection = ScalarSelectionModel { name: 5, arguments: vec![arg], updatable: true };
    merge_server_scalar_field(&selection, &mut map, &ctx, &mut state, 1, &NAMES);
    merge_server_scalar_field(&selection, &mut map, &ctx, &mut state, 1, &NAMES);
    let bound = ArgumentKeyAndValue { key: 9, value: ArgValue::Boolean(true) };
    assert_eq!(map, MergedSelectionMap(vec![scalar(5, vec![bound])]));
    assert!(state.has_updatable);
    let id = ScalarSelectionModel { name: 101, arguments: vec![], updatable: false };
    merge_server_scalar_field(&id, &mut map, &ctx, &mut state, 1, &NAMES);
    assert!(matches!(map.0[1].0, NormalizationKey::Id));
}

#[test]
fn the_typename_selection_goes_under_the_discriminator() {
    let mut map = MergedSelectionMap(vec![scalar(5, vec![])]);
    maybe_add_typename_selection(&mut map, 3, &NAMES);
    maybe_add_typename_selection(&mut map, 3, &NAMES);
    assert_eq!(map.0.len(), 2);
    assert_eq!(
        map.0[1],
        (
            NormalizationKey::Discriminator,
            MergedServerSelection::ScalarField(MergedScalarFieldSelection {
                parent_object_entity_name: 3,
                name: 100,
                arguments: vec![],
            }),
        ),
    );
}

#[test]
fn subtypes_take_their_supertypes_client_fields_only() {
    let mut schema = node_and_user(vec![
        ("id", DefinitionLocation::ServerScalar(1)),
        ("MyComponent", DefinitionLocation::ClientScalar(4)),
    ]);
    assert_eq!(schema.add_fields_to_subtypes(&vec![(0, vec![1])]), Ok(()));
    assert_eq!(
        schema.objects[1].encountered_fields,
        vec![
            ("__typename".to_string(), DefinitionLocation::ServerScalar(7)),
            ("__link".to_string(), DefinitionLocation::ClientScalar(3)),
            ("MyComponent".to_string(), DefinitionLocation::ClientScalar(4)),
        ],
    );
}

#[test]
fn a_client_field_already_on_a_subtype_is_field_exists_on_subtype() {
    let mut schema = node_and_user(vec![("__link", DefinitionLocation::ClientScalar(8))]);
    assert_eq!(
        schema.add_fields_to_subtypes(&vec![(0, vec![1])]),
        Err(CreateAdditionalFieldsError::FieldExistsOnSubtype {
            field_name: "__link".to_string(),
            parent_type: "User".to_string(),
        }),
    );
}

#[test]
fn every_object_gets_a_link_field() {
    let mut schema = node_and_user(vec![]);
    schema.objects[1].encountered_fields.truncate(1);
    assert_eq!(schema.add_link_fields(), Ok(()));
    assert_eq!(schema.objects[0].encountered_fields, vec![("__link".to_string(), DefinitionLocation::ClientScalar(0))]);
    assert_eq!(schema.objects[1].encountered_fields[1], ("__link".to_string(), DefinitionLocation::ClientScalar(1)));
    assert_eq!(
        schema.client_scalar_selectables[1],
        LinkClientField {
            description: Some("A store Link for the User type.".to_string()),
            name: "__link".to_string(),
            parent_object_entity_id: 1,
            type_and_field_type: "User".to_string(),
        },
    );
}

#[test]
fn an_existing_link_is_field_exists_on_type() {
    let mut schema = node_and_user(vec![]);
    assert_eq!(
        schema.add_link_fields(),
        Err(CreateAdditionalFieldsError::FieldExistsOnType {
            field_name: "__link".to_string(),
            parent_type: "User".to_string(),
        }),
    );
    assert_eq!(schema.client_scalar_selectables.len(), 2);
}

#[test]
fn a_transferred_selectable_clash_is_field_exists_on_type() {
    let mut schema = node_and_user(vec![("__link", DefinitionLocation::ClientScalar(8))]);
    assert_eq!(
        schema.transfer_supertype_client_selectables_to_subtypes(&vec![(0, vec![1])]),
        Err(CreateAdditionalFieldsError::FieldExistsOnType {
            field_name: "__link".to_string(),
            parent_type: "User".to_string(),
        }),
    );
    let mut schema = node_and_user(vec![("MyComponent", DefinitionLocation::ClientObject(2))]);
    assert_eq!(schema.transfer_supertype_client_selectables_to_subtypes(&vec![(0, vec![1])]), Ok(()));
    assert_eq!(schema.objects[1].encountered_fields[2], ("MyComponent".to_string(), DefinitionLocation::ClientObject(2)));
}

#[test]
fn each_supertype_gets_a_pointer_to_its_subtype() {
    let mut schema = node_and_user(vec![]);
    schema.objects.push(object(2, "Actor", None, vec![]));
    assert_eq!(schema.add_object_selectable_to_subtype_on_supertypes(&vec![(1, vec![0, 2])]), Ok(()));
    assert_eq!(schema.objects[0].encountered_fields, vec![("asUser".to_string(), DefinitionLocation::ServerObject(0))]);
    assert_eq!(schema.objects[2].encountered_fields, vec![("asUser".to_string(), DefinitionLocation::ServerObject(1))]);
    assert_eq!(
        schema.server_object_selectables[1],
        ServerObjectSelectable {
            description: Some("A client pointer for the User type.".to_string()),
            name: "asUser".to_string(),
            parent_type_id: 2,
            target_object_entity: 1,
            inline_fragment: None,
        },
    );
}

#[test]
fn a_compiler_created_pointer_clash_is_reported() {
    let mut schema = node_and_user(vec![("asUser", DefinitionLocation::ClientScalar(1))]);
    assert_eq!(
        schema.add_object_selectable_to_subtype_on_supertypes(&vec![(1, vec![0])]),
        Err(CreateAdditionalFieldsError::CompilerCreatedFieldExistsOnType {
            field_name: "asUser".to_string(),
            parent_type: "Node".to_string(),
        }),
    );
}

#[test]
fn accessible_client_fields_are_the_ids_in_the_same_order() {
    let table = vec![
        SelectableEntry { parent: 1, name: 11, kind: SelectableKind::ClientScalar },
        SelectableEntry { parent: 1, name: 13, kind: SelectableKind::ClientObject { target: 2 } },
        SelectableEntry { parent: 2, name: 20, kind: SelectableKind::ClientScalar },
    ];
    let set = vec![
        SelectionModel::Scalar { name: 11, location: span(1) },
        SelectionModel::Object {
            name: 13,
            location: span(3),
            selection_set: vec![SelectionModel::Scalar { name: 20, location: span(5) }],
        },
    ];
    assert_eq!(
        accessible_client_fields(&set, 1, &table),
        vec![
            ClientSelectableId::Scalar { parent: 1, name: 11 },
            ClientSelectableId::Object { parent: 1, name: 13 },
            ClientSelectableId::Scalar { parent: 2, name: 20 },
        ],
    );
}

#[test]
fn an_imperative_client_field_contributes_its_refetch_selection_set() {
    let reader = vec![SelectionModel::Scalar { name: 1, location: span(0) }];
    let refetch = vec![SelectionModel::Scalar { name: 2, location: span(0) }];
    let imperative = ClientScalarSelectionSets {
        imperatively_loaded: true,
        refetch_selection_set: Some(vec![SelectionModel::Scalar { name: 2, location: span(0) }]),
        reader_selection_set: vec![SelectionModel::Scalar { name: 1, location: span(0) }],
    };
    assert_eq!(client_scalar_selectable_selection_set_for_parent_query(&imperative), &refetch);
    let user_written = ClientScalarSelectionSets {
        imperatively_loaded: false,
        refetch_selection_set: None,
        reader_selection_set: vec![SelectionModel::Scalar { name: 1, location: span(0) }],
    };
    assert_eq!(client_scalar_selectable_selection_set_for_parent_query(&user_written), &reader);
}

#[test]
fn merging_a_child_map_twice_is_merging_it_once() {
    let arg = ArgumentKeyAndValue { key: 9, value: ArgValue::Variable(7) };
    let child = MergedSelectionMap(vec![
        linked(2, vec![scalar(4, vec![arg]), linked(6, vec![scalar(3, vec![])])]),
        scalar(5, vec![arg]),
    ]);
    let ctx = VariableContext(vec![(7, ArgValue::Integer(42))]);
    let mut once = MergedSelectionMap(vec![linked(2, vec![scalar(3, vec![])])]);
    transform_and_merge_child_selection_map_into_parent_map(&mut once, &child, &ctx);
    let mut twice = MergedSelectionMap(vec![linked(2, vec![scalar(3, vec![])])]);
    transform_and_merge_child_selection_map_into_parent_map(&mut twice, &child, &ctx);
    transform_and_merge_child_selection_map_into_parent_map(&mut twice, &child, &ctx);
    assert_eq!(once, twice);
    assert_eq!(once.0.len(), 2);
}
