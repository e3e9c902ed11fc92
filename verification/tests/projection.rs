use std::collections::BTreeMap;

use table_schema::NumberDataType;
use table_schema::SchemaError;
use table_schema::TableDataType;
use table_schema::TableField;
use table_schema::TableSchema;

fn uint64() -> TableDataType {
    TableDataType::Number(NumberDataType::UInt64)
}

fn tuple(members: Vec<(&str, TableDataType)>) -> TableDataType {
    let mut fields_name = Vec::new();
    let mut fields_type = Vec::new();
    for (name, ty) in members {
        fields_name.push(name.to_string());
        fields_type.push(ty);
    }
    TableDataType::Tuple { fields_name, fields_type }
}

fn inner_x() -> TableDataType {
    tuple(vec![("p", uint64()), ("q", TableDataType::String)])
}

fn outer_s() -> TableDataType {
    tuple(vec![("x", inner_x()), ("y", TableDataType::Boolean)])
}

/// Fields `a`, `s`, `m`, `n` with the node identifiers
/// `[0, 1, 1, 1, 2, 3, 4, 4, 4, 5, 6, 6, 6]`.
fn sample() -> TableSchema {
    TableSchema::new(vec![
        TableField::new("a", uint64()),
        TableField::new("s", outer_s()),
        TableField::new(
            "m",
            TableDataType::Mapping(Box::new(tuple(vec![
                ("key", TableDataType::String),
                ("value", uint64()),
            ]))),
        ),
        TableField::new(
            "n",
            TableDataType::Nullable(Box::new(TableDataType::Array(Box::new(
                TableDataType::Boolean,
            )))),
        ),
    ])
}

fn paths(entries: Vec<(usize, Vec<usize>)>) -> BTreeMap<usize, Vec<usize>> {
    entries.into_iter().collect()
}

#[test]
fn sample_schema_is_numbered_as_described() {
    let schema = sample();
    assert_eq!(schema.to_column_ids(), vec![0, 1, 1, 1, 2, 3, 4, 4, 4, 5, 6, 6, 6]);
    assert_eq!(schema.next_column_id(), 7);
    assert_eq!(schema.nodes_preorder().len(), 13);
    assert_eq!(*schema.nodes_preorder()[2], inner_x());
    assert_eq!(*schema.nodes_preorder()[12], TableDataType::Boolean);
}

#[test]
fn path_projection_keeps_the_ids_of_the_source() {
    let schema = sample();
    let all_paths: Vec<Vec<usize>> = vec![
        vec![0],
        vec![1],
        vec![1, 0],
        vec![1, 0, 0],
        vec![1, 0, 1],
        vec![1, 1],
        vec![2],
        vec![2, 0],
        vec![2, 0, 0],
        vec![2, 0, 1],
        vec![3],
        vec![3, 0],
        vec![3, 0, 0],
    ];
    let map: BTreeMap<usize, Vec<usize>> = all_paths.iter().cloned().enumerate().collect();
    let projected = schema.inner_project(&map).unwrap();
    let source_ids = schema.to_column_ids();
    assert_eq!(projected.fields().len(), all_paths.len());
    // the paths above are in visiting order, so the field of the path at
    // place `at` is the node at place `at`
    for (at, field) in projected.fields().iter().enumerate() {
        let ids = field.column_ids();
        assert_eq!(ids, source_ids[at..at + ids.len()].to_vec());
        assert_eq!(field.column_id(), source_ids[at]);
        assert_eq!(field.data_type(), schema.nodes_preorder()[at]);
        for id in field.leaf_column_ids() {
            assert!(schema.to_leaf_column_ids().contains(&id));
        }
    }
    assert_eq!(projected.next_column_id(), 7);
}

#[test]
fn path_projection_joins_the_names_on_the_way() {
    let schema = sample();
    let map = paths(vec![
        (0, vec![1, 0, 1]),
        (1, vec![1, 1]),
        (2, vec![2, 0]),
        (3, vec![2, 0, 1]),
        (4, vec![3, 0]),
        (5, vec![3, 0, 0]),
        (6, vec![0]),
    ]);
    let projected = schema.inner_project(&map).unwrap();
    let expected = vec![
        TableField::new_from_column_id("s:x:q", TableDataType::String, 2),
        TableField::new_from_column_id("s:y", TableDataType::Boolean, 3),
        TableField::new_from_column_id(
            "m:0",
            tuple(vec![("key", TableDataType::String), ("value", uint64())]),
            4,
        ),
        TableField::new_from_column_id("m:0:value", uint64(), 5),
        TableField::new_from_column_id(
            "n:0",
            TableDataType::Array(Box::new(TableDataType::Boolean)),
            6,
        ),
        TableField::new_from_column_id("n:0:0", TableDataType::Boolean, 6),
        TableField::new_from_column_id("a", uint64(), 0),
    ];
    assert_eq!(projected.fields().to_owned(), expected);
}

#[test]
fn path_projection_orders_fields_by_key() {
    let schema = sample();
    let mut map = BTreeMap::new();
    map.insert(30, vec![0]);
    map.insert(7, vec![3]);
    map.insert(19, vec![1, 1]);
    let projected = schema.inner_project(&map).unwrap();
    let names: Vec<&str> = projected.fields().iter().map(|f| f.name().as_str()).collect();
    assert_eq!(names, vec!["n", "s:y", "a"]);
    assert_eq!(projected.to_leaf_column_ids(), vec![6, 3, 0]);
}

#[test]
fn path_projection_may_select_a_node_twice() {
    let schema = sample();
    let map = paths(vec![(0, vec![1, 0]), (1, vec![1, 0]), (2, vec![1, 0, 0])]);
    let projected = schema.inner_project(&map).unwrap();
    assert_eq!(projected.to_column_ids(), vec![1, 1, 2, 1, 1, 2, 1]);
    assert_eq!(projected.to_leaf_column_ids(), vec![1, 2, 1, 2, 1]);
}

#[test]
fn path_projection_of_nothing_is_a_schema_without_fields() {
    let schema = sample();
    let projected = schema.inner_project(&BTreeMap::new()).unwrap();
    assert!(projected.fields().is_empty());
    assert_eq!(projected.next_column_id(), 7);
}

#[test]
fn path_projection_keeps_next_id_and_tombstones() {
    let mut schema = sample();
    schema.drop_column("s").unwrap();
    let projected = schema.inner_project(&paths(vec![(0, vec![1, 0, 1])])).unwrap();
    assert_eq!(
        projected.fields().to_owned(),
        vec![TableField::new_from_column_id("m:0:value", uint64(), 5)]
    );
    assert_eq!(projected.next_column_id(), schema.next_column_id());
    assert_eq!(projected.tombstones().to_owned(), schema.tombstones().to_owned());
    assert_eq!(projected.tombstones()[0], TableField::new_from_column_id("s", outer_s(), 1));
    assert!(projected.is_column_deleted(2));
    // what the projection leaves out is no longer reachable
    assert!(projected.is_column_deleted(0));
    assert!(!projected.is_column_deleted(5));
    assert!(!projected.is_column_deleted(7));
}

#[test]
fn a_path_that_ends_nowhere_is_refused() {
    let schema = sample();
    let invalid: Vec<Vec<usize>> = vec![
        vec![],
        vec![4],
        vec![0, 0],
        vec![1, 2],
        vec![1, 0, 2],
        vec![1, 0, 0, 0],
        vec![2, 1],
        vec![2, 0, 2],
        vec![3, 1],
        vec![3, 0, 1],
        vec![3, 0, 0, 0],
        vec![usize::MAX],
    ];
    for path in invalid {
        assert_eq!(schema.field_at_path(&path), None);
        let map = paths(vec![(0, vec![0]), (1, path), (2, vec![1])]);
        assert_eq!(schema.inner_project(&map).err(), Some(SchemaError::InvalidPath));
    }
    assert_eq!(
        TableSchema::empty().inner_project(&paths(vec![(0, vec![0])])).err(),
        Some(SchemaError::InvalidPath)
    );
}

#[test]
fn field_at_path_gives_the_node_as_a_field() {
    let schema = sample();
    assert_eq!(
        schema.field_at_path(&vec![1, 0]),
        Some(TableField::new_from_column_id("s:x", inner_x(), 1))
    );
    assert_eq!(
        schema.field_at_path(&vec![2, 0, 0]),
        Some(TableField::new_from_column_id("m:0:key", TableDataType::String, 4))
    );
    assert_eq!(schema.field_at_path(&vec![3]), Some(schema.fields()[3].clone()));
}

#[test]
fn field_projection_takes_ids_from_the_nodes() {
    let schema = sample();
    let mut fields = BTreeMap::new();
    fields.insert(1, TableField::new("s", outer_s()));
    fields.insert(2, TableField::new("x", inner_x()));
    fields.insert(4, TableField::new_from_column_id("q", TableDataType::String, 77));
    fields.insert(5, TableField::new("any name", TableDataType::Boolean));
    fields.insert(
        7,
        TableField::new("entries", tuple(vec![("key", TableDataType::String), ("value", uint64())])),
    );
    fields.insert(9, TableField::new("value", uint64()));
    fields.insert(12, TableField::new("flag", TableDataType::Boolean));
    let projected = schema.project_by_fields(&fields).unwrap();
    let expected = vec![
        TableField::new_from_column_id("s", outer_s(), 1),
        TableField::new_from_column_id("x", inner_x(), 1),
        TableField::new_from_column_id("q", TableDataType::String, 2),
        TableField::new_from_column_id("any name", TableDataType::Boolean, 3),
        TableField::new_from_column_id(
            "entries",
            tuple(vec![("key", TableDataType::String), ("value", uint64())]),
            4,
        ),
        TableField::new_from_column_id("value", uint64(), 5),
        TableField::new_from_column_id("flag", TableDataType::Boolean, 6),
    ];
    assert_eq!(projected.fields().to_owned(), expected);
    assert_eq!(projected.next_column_id(), 7);
    let source_ids = schema.to_column_ids();
    for (field, position) in projected.fields().iter().zip(fields.keys()) {
        let ids = field.column_ids();
        assert_eq!(ids, source_ids[*position..*position + ids.len()].to_vec());
    }
}

#[test]
fn field_projection_accepts_a_pruned_type() {
    let schema = sample();
    let mut fields = BTreeMap::new();
    fields.insert(1, TableField::new("s", tuple(vec![("x", tuple(vec![("p", uint64())]))])));
    fields.insert(
        6,
        TableField::new(
            "m",
            TableDataType::Mapping(Box::new(tuple(vec![("key", TableDataType::String)]))),
        ),
    );
    let projected = schema.project_by_fields(&fields).unwrap();
    assert_eq!(projected.field_column_ids(), vec![vec![1, 1, 1], vec![4, 4, 4]]);
    assert_eq!(projected.to_leaf_column_ids(), vec![1, 4]);
}

#[test]
fn field_projection_refuses_a_type_that_does_not_match() {
    let schema = sample();
    let mismatches: Vec<(usize, TableDataType)> = vec![
        (0, TableDataType::Boolean),
        (0, TableDataType::Number(NumberDataType::Int64)),
        (1, inner_x()),
        (1, tuple(vec![("y", TableDataType::Boolean)])),
        (1, tuple(vec![("x", tuple(vec![("q", TableDataType::String)]))])),
        (3, TableDataType::String),
        (6, TableDataType::Array(Box::new(tuple(vec![("key", TableDataType::String)])))),
        (10, TableDataType::Array(Box::new(TableDataType::Boolean))),
        (12, TableDataType::Nullable(Box::new(TableDataType::Boolean))),
    ];
    for (position, ty) in mismatches {
        let mut fields = BTreeMap::new();
        fields.insert(0, TableField::new("a", uint64()));
        fields.insert(position.max(1), TableField::new("f", ty.clone()));
        if position == 0 {
            fields.insert(0, TableField::new("f", ty));
        }
        assert_eq!(schema.project_by_fields(&fields).err(), Some(SchemaError::TypeMismatch));
    }
}

#[test]
fn field_projection_refuses_a_position_without_a_node() {
    let schema = sample();
    let mut fields = BTreeMap::new();
    fields.insert(0, TableField::new("a", uint64()));
    fields.insert(13, TableField::new("f", TableDataType::Boolean));
    assert_eq!(schema.project_by_fields(&fields).err(), Some(SchemaError::InvalidPath));
    // a position without a node is reported before a type that does not match
    let mut fields = BTreeMap::new();
    fields.insert(0, TableField::new("a", TableDataType::String));
    fields.insert(usize::MAX, TableField::new("f", TableDataType::Boolean));
    assert_eq!(schema.project_by_fields(&fields).err(), Some(SchemaError::InvalidPath));
    let mut fields = BTreeMap::new();
    fields.insert(0, TableField::new("a", uint64()));
    assert_eq!(
        TableSchema::empty().project_by_fields(&fields).err(),
        Some(SchemaError::InvalidPath)
    );
}

#[test]
fn field_projection_keeps_next_id_and_tombstones() {
    let mut schema = sample();
    schema.drop_column("a").unwrap();
    let mut fields = BTreeMap::new();
    fields.insert(3, TableField::new("q", TableDataType::String));
    let projected = schema.project_by_fields(&fields).unwrap();
    assert_eq!(
        projected.fields().to_owned(),
        vec![TableField::new_from_column_id("q", TableDataType::String, 2)]
    );
    assert_eq!(projected.next_column_id(), 7);
    assert_eq!(projected.tombstones().to_owned(), schema.tombstones().to_owned());
    let nothing = schema.project_by_fields(&BTreeMap::new()).unwrap();
    assert!(nothing.fields().is_empty());
    assert_eq!(nothing.next_column_id(), 7);
}

#[test]
fn leaf_fields_split_tuples_and_arrays_only() {
    let schema = sample();
    let (ids, leaves) = schema.leaf_fields();
    let expected = vec![
        TableField::new_from_column_id("a", uint64(), 0),
        TableField::new_from_column_id("p", uint64(), 1),
        TableField::new_from_column_id("q", TableDataType::String, 2),
        TableField::new_from_column_id("y", TableDataType::Boolean, 3),
        schema.fields()[2].clone(),
        schema.fields()[3].clone(),
    ];
    assert_eq!(leaves, expected);
    assert_eq!(ids, vec![0, 1, 2, 3, 4, 6]);
    let nested = TableSchema::new(vec![TableField::new(
        "ary",
        TableDataType::Array(Box::new(TableDataType::Array(Box::new(tuple(vec![
            ("l", uint64()),
            ("r", TableDataType::Array(Box::new(TableDataType::Boolean))),
        ]))))),
    )]);
    let (ids, leaves) = nested.leaf_fields();
    assert_eq!(ids, vec![0, 1]);
    assert_eq!(
        leaves,
        vec![
            TableField::new_from_column_id("l", uint64(), 0),
            TableField::new_from_column_id("r:0", TableDataType::Boolean, 1),
        ]
    );
}
