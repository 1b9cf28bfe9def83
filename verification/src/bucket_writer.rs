//! A bucket: columns that are written together.
//!
//! A list or map takes several physical columns: one of lengths in its own place, and behind the
//! primary columns those of its items, each in turn with the columns of its own items behind it.
use std::collections::hash_map::{DefaultHasher, RandomState};
use std::hash::{BuildHasher, Hasher};
use vstd::prelude::*;
use crate::bits::{byte_count, bytes_for};
use crate::bucket_image::{
    columns_fit, clamped, consts_of, counts_of, encodings_of, nulls_of, page_views, pages_of, byte_views, bucket_image,
    PreparedBucket,
};
use crate::codec::put_be;
use crate::dictionary::u8_nats;
use crate::column::{
    all_rows, check_element, child_columns, child_types, consistent, count_columns, downcast_column, element_columns, element_error, element_ok,
    lemma_element_ok,
    element_types, flatten_rows, kept_items, leaf_error, lemma_columns_len, lemma_leaf_fits, lemma_legacy_row, lemma_list_items_kept,
    lemma_map_entries_kept, lemma_no_rows, lemma_rows_len, map_keys, map_values, own_cell, own_cells, picked,
    row_range, rows_below, rows_of, write_typed_value, Column, ColumnValues, Row,
};
use crate::column_writer::{all_values, column_image, joined, lemma_joined_push, lemma_present_push, present, Cells, ColumnImage, ColumnWriter, DictLimits,
    PreparedColumn};
use crate::error::Error;
use crate::types::{is_container, is_container_type, physical_type, width_of, DataType};
use crate::values::{is_value, value_fits, ValueView};

verus! {

/// The part that a child column has in the list or map above it.
#[derive(Clone, Copy, Debug, PartialEq, Eq, Structural)]
pub enum ChildColumnRole {
    ListElement,
    MapKey,
    MapValue,
}

/// A physical column below a list or map.
#[derive(Debug, PartialEq, Eq)]
pub struct ChildColumnMeta {
    pub parent_logical_col: usize,
    pub physical_index: usize,
    pub length_physical_index: usize,
    pub role: ChildColumnRole,
    pub element_type: DataType,
    pub num_elements: usize,
}

impl Clone for ChildColumnMeta {
    fn clone(&self) -> (copy: Self)
        ensures
            copy == *self,
    {
        ChildColumnMeta {
            parent_logical_col: self.parent_logical_col,
            physical_index: self.physical_index,
            length_physical_index: self.length_physical_index,
            role: self.role,
            element_type: self.element_type.duplicate(),
            num_elements: self.num_elements,
        }
    }
}

// ---------------------------------------------------------------- layout

/// The columns below a column of type `dt`, whose lengths stand in the physical column `length`;
/// the first of them is the physical column `next`.
pub open spec fn container_metas(parent: int, length: int, dt: DataType, next: int) -> Seq<ChildColumnMeta>
    decreases dt, 0nat,
{
    match dt {
        DataType::ListOf(element, _) => element_metas(parent, length, ChildColumnRole::ListElement, *element, next),
        DataType::MapOf(key, value, _) => element_metas(parent, length, ChildColumnRole::MapKey, *key, next) + element_metas(
            parent,
            length,
            ChildColumnRole::MapValue,
            *value,
            next + element_types(*key).len(),
        ),
        _ => Seq::empty(),
    }
}

pub open spec fn element_metas(parent: int, length: int, role: ChildColumnRole, dt: DataType, next: int) -> Seq<ChildColumnMeta>
    decreases dt, 1nat,
{
    seq![
        ChildColumnMeta {
            parent_logical_col: parent as usize,
            physical_index: next as usize,
            length_physical_index: length as usize,
            role,
            element_type: dt,
            num_elements: 0,
        },
    ] + container_metas(parent, next, dt, next + 1)
}

/// The types of the columns below the columns `types`.
pub open spec fn all_child_types(types: Seq<DataType>) -> Seq<DataType>
    decreases types.len(),
{
    if types.len() == 0 {
        Seq::empty()
    } else {
        all_child_types(types.drop_last()) + child_types(types.last())
    }
}

/// The types of all physical columns.
pub open spec fn physical_types(types: Seq<DataType>) -> Seq<DataType> {
    Seq::new(types.len(), |i: int| physical_type(types[i])) + all_child_types(types)
}

/// The columns below the first `n` of the columns `types`.
pub open spec fn all_child_metas(types: Seq<DataType>, n: nat) -> Seq<ChildColumnMeta>
    decreases n,
{
    if n == 0 {
        Seq::empty()
    } else {
        all_child_metas(types, (n - 1) as nat) + container_metas(
            n - 1,
            n - 1,
            types[n - 1],
            (types.len() + all_child_types(types.take(n - 1)).len()) as int,
        )
    }
}

/// The physical columns that hold the rows of logical columns.
pub open spec fn all_child_columns(types: Seq<DataType>, rows: Seq<Seq<Row>>) -> Seq<Cells>
    decreases types.len(),
{
    if types.len() == 0 {
        Seq::empty()
    } else {
        all_child_columns(types.drop_last(), rows) + child_columns(types.last(), rows[types.len() - 1])
    }
}

pub open spec fn physical_columns(types: Seq<DataType>, rows: Seq<Seq<Row>>) -> Seq<Cells> {
    Seq::new(types.len(), |i: int| own_cells(rows[i])) + all_child_columns(types, rows)
}

pub open spec fn plain_types(types: Seq<&DataType>) -> Seq<DataType> {
    Seq::new(types.len(), |i: int| *types[i])
}

pub proof fn lemma_all_child_types_push(types: Seq<DataType>, n: int)
    requires
        0 <= n < types.len(),
    ensures
        all_child_types(types.take(n + 1)) == all_child_types(types.take(n)) + child_types(types[n]),
{
    assert(types.take(n + 1).drop_last() =~= types.take(n));
}

pub proof fn lemma_metas_len(parent: int, length: int, role: ChildColumnRole, dt: DataType, next: int)
    ensures
        container_metas(parent, length, dt, next).len() == child_types(dt).len(),
        element_metas(parent, length, role, dt, next).len() == element_types(dt).len(),
    decreases dt,
{
    match dt {
        DataType::ListOf(element, _) => {
            lemma_metas_len(parent, length, ChildColumnRole::ListElement, *element, next);
            lemma_metas_len(parent, next, ChildColumnRole::ListElement, *element, next + 1);
        },
        DataType::MapOf(key, value, _) => {
            lemma_metas_len(parent, length, ChildColumnRole::MapKey, *key, next);
            lemma_metas_len(parent, length, ChildColumnRole::MapValue, *value, next + element_types(*key).len());
            lemma_metas_len(parent, next, ChildColumnRole::MapKey, *key, next + 1);
            lemma_metas_len(parent, next, ChildColumnRole::MapValue, *value, next + 1 + element_types(*key).len());
        },
        _ => {},
    }
}

pub proof fn lemma_all_metas_len(types: Seq<DataType>, n: nat)
    requires
        n <= types.len(),
    ensures
        all_child_metas(types, n).len() == all_child_types(types.take(n as int)).len(),
    decreases n,
{
    if n > 0 {
        lemma_all_metas_len(types, (n - 1) as nat);
        lemma_all_child_types_push(types, n - 1);
        lemma_metas_len(
            n - 1,
            n - 1,
            ChildColumnRole::ListElement,
            types[n - 1],
            (types.len() + all_child_types(types.take(n - 1)).len()) as int,
        );
    }
}

fn expand_container(
    parent_logical: usize,
    length_physical_index: usize,
    dt: &DataType,
    physical_types: &mut Vec<DataType>,
    children: &mut Vec<ChildColumnMeta>,
)
    ensures
        final(physical_types)@ == old(physical_types)@ + child_types(*dt),
        final(children)@ == old(children)@ + container_metas(
            parent_logical as int,
            length_physical_index as int,
            *dt,
            old(physical_types)@.len() as int,
        ),
    decreases dt, 0nat,
{
    let ghost types0 = physical_types@;
    let ghost children0 = children@;
    match dt {
        DataType::ListOf(element, _) => {
            expand_element(
                parent_logical,
                length_physical_index,
                ChildColumnRole::ListElement,
                element,
                physical_types,
                children,
            );
        },
        DataType::MapOf(key, value, _) => {
            expand_element(parent_logical, length_physical_index, ChildColumnRole::MapKey, key, physical_types, children);
            expand_element(
                parent_logical,
                length_physical_index,
                ChildColumnRole::MapValue,
                value,
                physical_types,
                children,
            );
        },
        _ => {},
    }
    assert(physical_types@ =~= types0 + child_types(*dt));
    assert(children@ =~= children0 + container_metas(
        parent_logical as int,
        length_physical_index as int,
        *dt,
        types0.len() as int,
    ));
}

fn expand_element(
    parent_logical: usize,
    length_physical_index: usize,
    role: ChildColumnRole,
    element_type: &DataType,
    physical_types: &mut Vec<DataType>,
    children: &mut Vec<ChildColumnMeta>,
)
    ensures
        final(physical_types)@ == old(physical_types)@ + element_types(*element_type),
        final(children)@ == old(children)@ + element_metas(
            parent_logical as int,
            length_physical_index as int,
            role,
            *element_type,
            old(physical_types)@.len() as int,
        ),
    decreases element_type, 1nat,
{
    let ghost types0 = physical_types@;
    let ghost children0 = children@;
    let child_phys_idx: usize = physical_types.len();
    if is_container(element_type) {
        physical_types.push(DataType::Int32);
    } else {
        physical_types.push(element_type.duplicate());
    }
    children.push(
        ChildColumnMeta {
            parent_logical_col: parent_logical,
            physical_index: child_phys_idx,
            length_physical_index,
            role,
            element_type: element_type.duplicate(),
            num_elements: 0,
        },
    );
    expand_container(parent_logical, child_phys_idx, element_type, physical_types, children);
    assert(physical_types@ =~= types0 + element_types(*element_type));
    assert(children@ =~= children0 + element_metas(
        parent_logical as int,
        length_physical_index as int,
        role,
        *element_type,
        types0.len() as int,
    ));
}

/// The physical columns of logical ones, and which of them stand below lists and maps.
pub fn expand_col_types(col_types: &[&DataType]) -> (expanded: (Vec<DataType>, Vec<ChildColumnMeta>))
    ensures
        expanded.0@ == physical_types(plain_types(col_types@)),
        expanded.1@ == all_child_metas(plain_types(col_types@), col_types@.len()),
{
    let ghost types = plain_types(col_types@);
    let mut expanded: Vec<DataType> = Vec::new();
    let mut i: usize = 0;
    while i < col_types.len()
        invariant
            i <= col_types.len(),
            types == plain_types(col_types@),
            expanded@ == Seq::new(i as nat, |k: int| physical_type(types[k])),
        decreases col_types.len() - i,
    {
        if is_container(col_types[i]) {
            expanded.push(DataType::Int32);
        } else {
            expanded.push(col_types[i].duplicate());
        }
        i += 1;
        assert(expanded@ =~= Seq::new(i as nat, |k: int| physical_type(types[k])));
    }
    let mut children: Vec<ChildColumnMeta> = Vec::new();
    let ghost primary = expanded@;
    let mut n: usize = 0;
    assert(types.take(0) =~= Seq::empty());
    assert(expanded@ =~= primary + all_child_types(types.take(0)));
    while n < col_types.len()
        invariant
            n <= col_types.len(),
            types == plain_types(col_types@),
            primary.len() == types.len(),
            expanded@ == primary + all_child_types(types.take(n as int)),
            children@ == all_child_metas(types, n as nat),
        decreases col_types.len() - n,
    {
        let ghost before = expanded@;
        expand_container(n, n, col_types[n], &mut expanded, &mut children);
        proof {
            lemma_all_child_types_push(types, n as int);
            assert(types[n as int] == *col_types@[n as int]);
            assert(expanded@ =~= primary + all_child_types(types.take(n + 1)));
        }
        n += 1;
    }
    assert(types.take(types.len() as int) =~= types);
    (expanded, children)
}

// ---------------------------------------------------------------- errors

/// A list or map column that is handed over as something else.
pub open spec fn shape_error(dt: DataType, col: Column) -> Option<Error> {
    match dt {
        DataType::ListOf(_, _) => if col.values is ListOf {
            None
        } else {
            Some(Error::ExpectedListArray)
        },
        DataType::MapOf(_, _, _) => if col.values is MapOf {
            None
        } else {
            Some(Error::ExpectedMapArray)
        },
        _ => None,
    }
}

/// What is wrong below the rows `kept` of a list or map; the values of a map come before its keys.
/// The column is logical column `parent`, and the first column below it is physical column `first`.
pub open spec fn child_error(dt: DataType, col: Column, kept: Seq<usize>, parent: int, first: int) -> Option<Error> {
    match (dt, col.values) {
        (DataType::ListOf(element, _), ColumnValues::ListOf { offsets, values }) => element_error(
            *element,
            *values,
            kept_items(offsets@, col.nulls@, kept),
            parent,
            first,
        ),
        (DataType::MapOf(key, value, _), ColumnValues::MapOf { offsets, keys, values }) => {
            let items = kept_items(offsets@, col.nulls@, kept);
            match element_error(*value, *values, items, parent, first + element_types(*key).len()) {
                Some(e) => Some(e),
                None => element_error(*key, *keys, items, parent, first),
            }
        },
        _ => None,
    }
}

/// Nothing is wrong below the rows `kept` of a list or map.
pub open spec fn child_ok(dt: DataType, col: Column, kept: Seq<usize>) -> bool {
    match (dt, col.values) {
        (DataType::ListOf(element, _), ColumnValues::ListOf { offsets, values }) => element_ok(
            *element,
            *values,
            kept_items(offsets@, col.nulls@, kept),
        ),
        (DataType::MapOf(key, value, _), ColumnValues::MapOf { offsets, keys, values }) => {
            let items = kept_items(offsets@, col.nulls@, kept);
            element_ok(*value, *values, items) && element_ok(*key, *keys, items)
        },
        _ => true,
    }
}

proof fn lemma_child_ok(dt: DataType, col: Column, kept: Seq<usize>, parent: int, first: int)
    ensures
        child_ok(dt, col, kept) == (child_error(dt, col, kept, parent, first) is None),
{
    match (dt, col.values) {
        (DataType::ListOf(element, _), ColumnValues::ListOf { offsets, values }) => {
            lemma_element_ok(*element, *values, kept_items(offsets@, col.nulls@, kept), parent, first);
        },
        (DataType::MapOf(key, value, _), ColumnValues::MapOf { offsets, keys, values }) => {
            let items = kept_items(offsets@, col.nulls@, kept);
            lemma_element_ok(*value, *values, items, parent, first + element_types(*key).len());
            lemma_element_ok(*key, *keys, items, parent, first);
        },
        _ => {},
    }
}

pub open spec fn own_error(dt: DataType, col: Column) -> Option<Error> {
    if is_container_type(dt) {
        None
    } else {
        leaf_error(dt, col, row_range(0, col.nulls@.len() as int))
    }
}

/// The first of the first `n` columns that has the wrong shape.
pub open spec fn shapes_error(types: Seq<DataType>, cols: Seq<&Column>, n: nat) -> Option<Error>
    decreases n,
{
    if n == 0 {
        None
    } else {
        match shapes_error(types, cols, (n - 1) as nat) {
            Some(e) => Some(e),
            None => shape_error(types[n - 1], *cols[n - 1]),
        }
    }
}

/// The first of the first `n` columns that has a bad row or type of its own.
pub open spec fn owns_error(types: Seq<DataType>, cols: Seq<&Column>, n: nat) -> Option<Error>
    decreases n,
{
    if n == 0 {
        None
    } else {
        match owns_error(types, cols, (n - 1) as nat) {
            Some(e) => Some(e),
            None => own_error(types[n - 1], *cols[n - 1]),
        }
    }
}

/// The last of the first `n` columns that has something wrong below it.
pub open spec fn children_error(types: Seq<DataType>, cols: Seq<&Column>, n: nat) -> Option<Error>
    decreases n,
{
    if n == 0 {
        None
    } else {
        match child_error(
            types[n - 1],
            *cols[n - 1],
            row_range(0, cols[n - 1].nulls@.len() as int),
            n - 1,
            (types.len() + all_child_types(types.take(n - 1)).len()) as int,
        ) {
            Some(e) => Some(e),
            None => children_error(types, cols, (n - 1) as nat),
        }
    }
}

/// What keeps columns from being written as ones of the given types.
pub open spec fn columns_error(types: Seq<DataType>, cols: Seq<&Column>) -> Option<Error> {
    match shapes_error(types, cols, types.len()) {
        Some(e) => Some(e),
        None => match owns_error(types, cols, types.len()) {
            Some(e) => Some(e),
            None => children_error(types, cols, types.len()),
        },
    }
}

proof fn lemma_shapes_error(types: Seq<DataType>, cols: Seq<&Column>, n: nat, m: nat)
    requires
        n <= m,
        shapes_error(types, cols, n) is Some,
    ensures
        shapes_error(types, cols, m) == shapes_error(types, cols, n),
    decreases m,
{
    if n < m {
        lemma_shapes_error(types, cols, n, (m - 1) as nat);
    }
}

proof fn lemma_owns_error(types: Seq<DataType>, cols: Seq<&Column>, n: nat, m: nat)
    requires
        n <= m,
        owns_error(types, cols, n) is Some,
    ensures
        owns_error(types, cols, m) == owns_error(types, cols, n),
    decreases m,
{
    if n < m {
        lemma_owns_error(types, cols, n, (m - 1) as nat);
    }
}

pub proof fn lemma_no_error(types: Seq<DataType>, cols: Seq<&Column>, n: nat, i: int)
    requires
        0 <= i < n,
    ensures
        shapes_error(types, cols, n) is None ==> shape_error(types[i], *cols[i]) is None,
        owns_error(types, cols, n) is None ==> own_error(types[i], *cols[i]) is None,
        children_error(types, cols, n) is None ==> child_ok(types[i], *cols[i], row_range(0, cols[i].nulls@.len() as int)),
    decreases n,
{
    if i < n - 1 {
        lemma_no_error(types, cols, (n - 1) as nat, i);
    } else {
        lemma_child_ok(
            types[i],
            *cols[i],
            row_range(0, cols[i].nulls@.len() as int),
            i,
            (types.len() + all_child_types(types.take(i)).len()) as int,
        );
    }
}

fn check_shape(dt: &DataType, col: &Column) -> (result: Result<(), Error>)
    ensures
        result matches Ok(_) ==> shape_error(*dt, *col) is None,
        result matches Err(e) ==> shape_error(*dt, *col) == Some(e),
{
    match (dt, &col.values) {
        (DataType::ListOf(_, _), ColumnValues::ListOf { .. }) => Ok(()),
        (DataType::ListOf(_, _), _) => Err(Error::ExpectedListArray),
        (DataType::MapOf(_, _, _), ColumnValues::MapOf { .. }) => Ok(()),
        (DataType::MapOf(_, _, _), _) => Err(Error::ExpectedMapArray),
        _ => Ok(()),
    }
}

fn check_children(dt: &DataType, col: &Column, kept: &Vec<usize>, parent: usize, first: usize) -> (result: Result<(), Error>)
    requires
        consistent(*col),
        rows_below(kept@, col.nulls@.len()),
        first + child_types(*dt).len() <= usize::MAX,
    ensures
        result matches Ok(_) ==> child_error(*dt, *col, kept@, parent as int, first as int) is None,
        result matches Err(e) ==> child_error(*dt, *col, kept@, parent as int, first as int) == Some(e),
{
    match (dt, &col.values) {
        (DataType::ListOf(element, _), ColumnValues::ListOf { offsets, values }) => {
            let items: Vec<usize> = flatten_rows(offsets, &col.nulls, kept, Ghost(values.nulls@.len()));
            check_element(element, values, &items, parent, first)
        },
        (DataType::MapOf(key, value, _), ColumnValues::MapOf { offsets, keys, values }) => {
            let items: Vec<usize> = flatten_rows(offsets, &col.nulls, kept, Ghost(values.nulls@.len()));
            match check_element(value, values, &items, parent, first + count_columns(key)) {
                Ok(_) => check_element(key, keys, &items, parent, first),
                Err(e) => Err(e),
            }
        },
        _ => Ok(()),
    }
}

/// The columns fit together, and all have `rows` rows.
pub open spec fn batch_ok(cols: Seq<&Column>, rows: nat) -> bool {
    forall|i: int| 0 <= i < cols.len() ==> consistent(*#[trigger] cols[i]) && cols[i].nulls@.len() == rows
}

/// How many physical columns stand below a column of type `dt`.
fn count_children_of(dt: &DataType) -> (count: usize)
    requires
        child_types(*dt).len() <= usize::MAX,
    ensures
        count == child_types(*dt).len(),
{
    match dt {
        DataType::ListOf(element, _) => count_columns(element),
        DataType::MapOf(key, value, _) => count_columns(key) + count_columns(value),
        _ => 0,
    }
}

/// Checks that columns can be written as ones of the given types; they take `physical` columns.
fn check_columns(types: &[&DataType], cols: &[&Column], num_rows: usize, physical: usize) -> (result: Result<(), Error>)
    requires
        types@.len() == cols@.len(),
        batch_ok(cols@, num_rows as nat),
        physical == physical_types(plain_types(types@)).len(),
    ensures
        result matches Ok(_) ==> columns_error(plain_types(types@), cols@) is None,
        result matches Err(e) ==> columns_error(plain_types(types@), cols@) == Some(e),
{
    let ghost plain = plain_types(types@);
    let ghost total = types@.len();
    let rows: Vec<usize> = all_rows(num_rows);
    let mut i: usize = 0;
    while i < types.len()
        invariant
            i <= types.len(),
            types@.len() == cols@.len(),
            plain == plain_types(types@),
            total == types@.len(),
            shapes_error(plain, cols@, i as nat) is None,
        decreases types.len() - i,
    {
        assert(plain[i as int] == *types@[i as int]);
        match check_shape(types[i], cols[i]) {
            Ok(_) => {},
            Err(e) => {
                proof {
                    lemma_shapes_error(plain, cols@, (i + 1) as nat, total);
                }
                return Err(e);
            },
        }
        i += 1;
    }
    i = 0;
    while i < types.len()
        invariant
            i <= types.len(),
            types@.len() == cols@.len(),
            plain == plain_types(types@),
            total == types@.len(),
            batch_ok(cols@, num_rows as nat),
            rows@ == row_range(0, num_rows as int),
            shapes_error(plain, cols@, total) is None,
            owns_error(plain, cols@, i as nat) is None,
        decreases types.len() - i,
    {
        assert(plain[i as int] == *types@[i as int]);
        assert(consistent(*cols@[i as int]));
        if !is_container(types[i]) {
            match downcast_column(types[i], cols[i], &rows) {
                Ok(_) => {},
                Err(e) => {
                    proof {
                        lemma_owns_error(plain, cols@, (i + 1) as nat, total);
                    }
                    return Err(e);
                },
            }
        }
        i += 1;
    }
    let mut first: usize = physical;
    assert(plain.take(total as int) =~= plain);
    while i > 0
        invariant
            i <= types.len(),
            types@.len() == cols@.len(),
            plain == plain_types(types@),
            total == types@.len(),
            batch_ok(cols@, num_rows as nat),
            rows@ == row_range(0, num_rows as int),
            first == total + all_child_types(plain.take(i as int)).len(),
            shapes_error(plain, cols@, total) is None,
            owns_error(plain, cols@, total) is None,
            children_error(plain, cols@, i as nat) == children_error(plain, cols@, total),
        decreases i,
    {
        i -= 1;
        assert(plain[i as int] == *types@[i as int]);
        assert(consistent(*cols@[i as int]));
        proof {
            lemma_all_child_types_push(plain, i as int);
        }
        first -= count_children_of(types[i]);
        match check_children(types[i], cols[i], &rows, i, first) {
            Ok(_) => {},
            Err(e) => {
                return Err(e);
            },
        }
    }
    Ok(())
}

// ---------------------------------------------------------------- appending

/// The number of rows that a physical column can have: one of 32 bits, for which the bits of their
/// indexes into a dictionary can be counted.
pub open spec fn max_rows() -> int {
    if usize::MAX / 32 < u32::MAX {
        (usize::MAX / 32) as int
    } else {
        u32::MAX as int
    }
}

pub fn max_column_rows() -> (rows: usize)
    ensures
        rows == max_rows(),
{
    let limit: usize = usize::MAX / 32;
    if limit < u32::MAX as usize {
        limit
    } else {
        u32::MAX as usize
    }
}

/// The bytes of the values of columns.
pub open spec fn value_bytes(columns: Seq<Cells>) -> nat
    decreases columns.len(),
{
    if columns.len() == 0 {
        0
    } else {
        value_bytes(columns.drop_last()) + joined(present(columns.last())).len()
    }
}

/// The columns from `at` on are empty or filled columns of the given types.
pub open spec fn typed(columns: Seq<ColumnWriter>, at: int, types: Seq<DataType>) -> bool {
    &&& 0 <= at
    &&& at + types.len() <= columns.len()
    &&& forall|k: int| 0 <= k < types.len() ==> (#[trigger] columns[at + k]).wf() && columns[at + k].dt() == types[k]
}

/// The columns from `at` on have room for more cells.
pub open spec fn has_room(columns: Seq<ColumnWriter>, at: int, batch: Seq<Cells>) -> bool {
    forall|k: int| 0 <= k < batch.len() ==> (#[trigger] columns[at + k]).cells().len() + batch[k].len() <= max_rows()
}

/// The columns from `at` on have got more cells, and the others are as they were.
pub open spec fn grown(before: Seq<ColumnWriter>, after: Seq<ColumnWriter>, at: int, batch: Seq<Cells>) -> bool {
    &&& after.len() == before.len()
    &&& forall|j: int|
        0 <= j < before.len() ==> if at <= j < at + batch.len() {
            &&& (#[trigger] after[j]).wf()
            &&& after[j].dt() == before[j].dt()
            &&& after[j].dict_limits() == before[j].dict_limits()
            &&& after[j].cells() == before[j].cells() + batch[j - at]
        } else {
            after[j] == before[j]
        }
}

pub proof fn lemma_value_bytes_add(a: Seq<Cells>, b: Seq<Cells>)
    ensures
        value_bytes(a + b) == value_bytes(a) + value_bytes(b),
    decreases b.len(),
{
    if b.len() == 0 {
        assert(a + b =~= a);
    } else {
        assert((a + b).drop_last() =~= a + b.drop_last());
        lemma_value_bytes_add(a, b.drop_last());
    }
}

proof fn lemma_one_column(cells: Cells)
    ensures
        value_bytes(seq![cells]) == joined(present(cells)).len(),
{
    assert(seq![cells].drop_last() =~= Seq::<Cells>::empty());
    assert(value_bytes(Seq::<Cells>::empty()) == 0);
}

proof fn lemma_no_bytes(columns: Seq<Cells>)
    requires
        forall|j: int| 0 <= j < columns.len() ==> #[trigger] columns[j] == Cells::empty(),
    ensures
        value_bytes(columns) == 0,
    decreases columns.len(),
{
    if columns.len() > 0 {
        assert forall|j: int| 0 <= j < columns.drop_last().len() implies #[trigger] columns.drop_last()[j] == Cells::empty() by {
            assert(columns[j] == Cells::empty());
        }
        lemma_no_bytes(columns.drop_last());
        assert(columns[columns.len() - 1] == Cells::empty());
    }
}

/// Columns that grow by one batch and then by the next one behind it grow by both.
proof fn lemma_grown_twice(a: Seq<ColumnWriter>, b: Seq<ColumnWriter>, c: Seq<ColumnWriter>, at: int, first: Seq<Cells>, second: Seq<Cells>)
    requires
        0 <= at,
        at + first.len() + second.len() <= a.len(),
        grown(a, b, at, first),
        grown(b, c, (at + first.len()) as int, second),
    ensures
        grown(a, c, at, first + second),
{
    let both = first + second;
    assert forall|j: int| 0 <= j < a.len() implies if at <= j < at + both.len() {
        &&& (#[trigger] c[j]).wf()
        &&& c[j].dt() == a[j].dt()
        &&& c[j].dict_limits() == a[j].dict_limits()
        &&& c[j].cells() == a[j].cells() + both[j - at]
    } else {
        c[j] == a[j]
    } by {
        assert(b[j] == b[j]);
    }
}

proof fn lemma_typed_after(before: Seq<ColumnWriter>, after: Seq<ColumnWriter>, at: int, batch: Seq<Cells>, start: int, types: Seq<DataType>)
    requires
        grown(before, after, at, batch),
        typed(before, start, types),
    ensures
        typed(after, start, types),
{
    assert forall|k: int| 0 <= k < types.len() implies (#[trigger] after[start + k]).wf() && after[start + k].dt() == types[k] by {
        assert(before[start + k].wf());
    }
}

/// The own shape of the rows `kept` is that of the type.
spec fn own_ok(dt: DataType, col: Column, kept: Seq<usize>) -> bool {
    if is_container_type(dt) {
        shape_error(dt, col) is None
    } else {
        leaf_error(dt, col, kept) is None
    }
}

/// Appends the cells of the rows `kept` of a column to its physical column.
fn append_array_column(column: &mut ColumnWriter, dt: &DataType, col: &Column, kept: &Vec<usize>) -> (size: usize)
    requires
        old(column).wf(),
        old(column).dt() == physical_type(*dt),
        consistent(*col),
        rows_below(kept@, col.nulls@.len()),
        own_ok(*dt, *col, kept@),
        old(column).cells().len() + kept@.len() <= max_rows(),
    ensures
        final(column).wf(),
        final(column).dt() == old(column).dt(),
        final(column).dict_limits() == old(column).dict_limits(),
        final(column).cells() == old(column).cells() + own_cells(picked(rows_of(*dt, *col), kept@)),
        size == clamped(joined(present(own_cells(picked(rows_of(*dt, *col), kept@)))).len()),
{
    let ghost rows = rows_of(*dt, *col);
    let ghost cells = own_cells(picked(rows, kept@));
    let ghost start = column.cells();
    let mut size: usize = 0;
    let mut value: Vec<u8> = Vec::new();
    let mut k: usize = 0;
    proof {
        lemma_rows_len(*dt, *col);
        assert(start =~= start + cells.take(0));
    }
    while k < kept.len()
        invariant
            k <= kept.len(),
            column.wf(),
            column.dt() == physical_type(*dt),
            column.dt() == old(column).dt(),
            column.dict_limits() == old(column).dict_limits(),
            consistent(*col),
            rows_below(kept@, col.nulls@.len()),
            own_ok(*dt, *col, kept@),
            start.len() + kept@.len() <= max_rows(),
            rows == rows_of(*dt, *col),
            rows.len() == col.nulls@.len(),
            cells == own_cells(picked(rows, kept@)),
            column.cells() == start + cells.take(k as int),
            size == clamped(joined(present(cells.take(k as int))).len()),
        decreases kept.len() - k,
    {
        let row: usize = kept[k];
        assert(kept@[k as int] < col.nulls@.len());
        assert(cells.take(k + 1) =~= cells.take(k as int).push(cells[k as int]));
        assert(cells[k as int] == own_cell(rows[row as int]));
        if col.nulls[row] {
            column.append_null();
            proof {
                lemma_present_push(cells.take(k as int), None);
            }
        } else {
            value.clear();
            assert(kept@.contains(row));
            append_own_value(&mut value, dt, col, row, Ghost(kept@));
            assert(value@ =~= cells[k as int]->0);
            column.append_value(value.as_slice());
            size = size.saturating_add(value.len());
            proof {
                lemma_present_push(cells.take(k as int), Some(value@));
                lemma_joined_push(present(cells.take(k as int)), value@);
            }
        }
        assert(column.cells() =~= start + cells.take(k + 1));
        k += 1;
    }
    assert(cells.take(kept@.len() as int) =~= cells);
    size
}

/// Appends the bytes of the value of a leaf, or of the length of a list or map.
fn append_own_value(value: &mut Vec<u8>, dt: &DataType, col: &Column, row: usize, Ghost(kept): Ghost<Seq<usize>>)
    requires
        consistent(*col),
        row < col.nulls@.len(),
        !col.nulls@[row as int],
        kept.contains(row),
        own_ok(*dt, *col, kept),
    ensures
        own_cell(rows_of(*dt, *col)[row as int]) is Some,
        final(value)@ == old(value)@ + own_cell(rows_of(*dt, *col)[row as int])->0,
        is_value(physical_type(*dt), own_cell(rows_of(*dt, *col)[row as int])->0),
{
    proof {
        lemma_rows_len(*dt, *col);
    }
    match (dt, &col.values) {
        (DataType::ListOf(element, _), ColumnValues::ListOf { offsets, values }) => {
            proof {
                lemma_rows_len(**element, **values);
                assert(offsets@[row as int] <= offsets@[row + 1]);
                assert(offsets@[row + 1] <= offsets@[col.nulls@.len() as int]);
                assert(value_fits(DataType::Int32, ValueView::Integer((offsets@[row + 1] - offsets@[row as int]) as i32)));
                crate::values::decode_undoes_encode(
                    DataType::Int32,
                    ValueView::Integer((offsets@[row + 1] - offsets@[row as int]) as i32),
                );
            }
            assert(row + 1 < offsets.len());
            let length: usize = offsets[row + 1] - offsets[row];
            put_be(value, length as u64, 4);
        },
        (DataType::MapOf(_, _, _), ColumnValues::MapOf { offsets, keys, values }) => {
            proof {
                assert(offsets@[row as int] <= offsets@[row + 1]);
                assert(offsets@[row + 1] <= offsets@[col.nulls@.len() as int]);
                assert(value_fits(DataType::Int32, ValueView::Integer((offsets@[row + 1] - offsets@[row as int]) as i32)));
                crate::values::decode_undoes_encode(
                    DataType::Int32,
                    ValueView::Integer((offsets@[row + 1] - offsets@[row as int]) as i32),
                );
            }
            assert(row + 1 < offsets.len());
            let length: usize = offsets[row + 1] - offsets[row];
            put_be(value, length as u64, 4);
        },
        _ => {
            proof {
                if let ColumnValues::LegacyTimestampNanos { millis, nanos, child_nulls } = &col.values {
                    let k = kept.index_of(row);
                    assert(kept[k] == row);
                    lemma_legacy_row(millis@, nanos@, child_nulls@, col.nulls@, kept, k);
                }
                lemma_leaf_fits(*dt, col.values, row as int);
            }
            write_typed_value(value, dt, &col.values, row);
        },
    }
}

/// Appends the rows `kept` of a column that stands below another one.
fn append_element(columns: &mut Vec<ColumnWriter>, at: usize, dt: &DataType, col: &Column, kept: &Vec<usize>) -> (size: usize)
    requires
        typed(old(columns)@, at as int, element_types(*dt)),
        consistent(*col),
        rows_below(kept@, col.nulls@.len()),
        element_ok(*dt, *col, kept@),
        has_room(old(columns)@, at as int, element_columns(*dt, picked(rows_of(*dt, *col), kept@))),
    ensures
        grown(old(columns)@, final(columns)@, at as int, element_columns(*dt, picked(rows_of(*dt, *col), kept@))),
        size == clamped(value_bytes(element_columns(*dt, picked(rows_of(*dt, *col), kept@)))),
    decreases dt, 1nat,
{
    let ghost rows = picked(rows_of(*dt, *col), kept@);
    let ghost batch = element_columns(*dt, rows);
    let ghost before = columns@;
    proof {
        lemma_columns_len(*dt, rows);
    }
    if kept.len() == 0 {
        proof {
            lemma_no_rows(*dt);
            assert(rows =~= Seq::empty());
            lemma_no_bytes(batch);
            assert forall|j: int| at <= j < at + batch.len() implies (#[trigger] columns@[j]).wf() && columns@[j].cells() == before[j].cells()
                + batch[j - at] by {
                assert(before[at + (j - at)].wf());
                assert(before[j].cells() + batch[j - at] =~= before[j].cells());
            }
        }
        return 0;
    }
    assert(columns@[at + 0].wf());
    assert(batch[0] == own_cells(rows));
    let own: usize = append_array_column(&mut columns[at], dt, col, kept);
    let ghost middle = columns@;
    proof {
        assert(grown(before, middle, at as int, seq![own_cells(rows)]));
        lemma_typed_after(before, middle, at as int, seq![own_cells(rows)], at as int, element_types(*dt));
        assert forall|k: int| 0 <= k < child_types(*dt).len() implies (#[trigger] middle[at + 1 + k]).wf() && middle[at + 1 + k].dt()
            == child_types(*dt)[k] by {
            assert(middle[at + (k + 1)].wf());
        }
        assert forall|k: int| 0 <= k < child_columns(*dt, rows).len() implies (#[trigger] middle[at + 1 + k]).cells().len()
            + child_columns(*dt, rows)[k].len() <= max_rows() by {
            assert(before[at + (k + 1)].cells().len() + batch[k + 1].len() <= max_rows());
        }
    }
    assert(at + 1 <= columns.len());
    let below: usize = append_children(columns, at + 1, dt, col, kept);
    proof {
        lemma_grown_twice(before, middle, columns@, at as int, seq![own_cells(rows)], child_columns(*dt, rows));
        lemma_value_bytes_add(seq![own_cells(rows)], child_columns(*dt, rows));
        lemma_one_column(own_cells(rows));
    }
    own.saturating_add(below)
}

/// Appends what stands below the rows `kept` of a column.
fn append_children(columns: &mut Vec<ColumnWriter>, at: usize, dt: &DataType, col: &Column, kept: &Vec<usize>) -> (size: usize)
    requires
        typed(old(columns)@, at as int, child_types(*dt)),
        consistent(*col),
        rows_below(kept@, col.nulls@.len()),
        shape_error(*dt, *col) is None,
        child_ok(*dt, *col, kept@),
        has_room(old(columns)@, at as int, child_columns(*dt, picked(rows_of(*dt, *col), kept@))),
    ensures
        grown(old(columns)@, final(columns)@, at as int, child_columns(*dt, picked(rows_of(*dt, *col), kept@))),
        size == clamped(value_bytes(child_columns(*dt, picked(rows_of(*dt, *col), kept@)))),
    decreases dt, 0nat,
{
    let ghost rows = picked(rows_of(*dt, *col), kept@);
    let ghost before = columns@;
    proof {
        lemma_columns_len(*dt, rows);
    }
    match (dt, &col.values) {
        (DataType::ListOf(element, _), ColumnValues::ListOf { offsets, values }) => {
            let items: Vec<usize> = flatten_rows(offsets, &col.nulls, kept, Ghost(values.nulls@.len()));
            proof {
                lemma_list_items_kept(**element, *dt, *col, kept@);
            }
            append_element(columns, at, element, values, &items)
        },
        (DataType::MapOf(key, value, _), ColumnValues::MapOf { offsets, keys, values }) => {
            let items: Vec<usize> = flatten_rows(offsets, &col.nulls, kept, Ghost(values.nulls@.len()));
            let ghost first = element_columns(**key, map_keys(rows));
            let ghost second = element_columns(**value, map_values(rows));
            proof {
                lemma_map_entries_kept(**key, **value, *dt, *col, kept@);
                lemma_columns_len(**key, map_keys(rows));
                lemma_columns_len(**value, map_values(rows));
                assert(child_columns(*dt, rows) == first + second);
                assert(child_types(*dt) == element_types(**key) + element_types(**value));
                assert forall|k: int| 0 <= k < element_types(**key).len() implies (#[trigger] before[at + k]).wf() && before[at
                    + k].dt() == element_types(**key)[k] by {
                    assert(child_types(*dt)[k] == element_types(**key)[k]);
                }
                assert forall|k: int| 0 <= k < first.len() implies (#[trigger] before[at + k]).cells().len() + first[k].len()
                    <= max_rows() by {
                    assert((first + second)[k] == first[k]);
                }
            }
            assert(at + first.len() + second.len() <= columns.len());
            let width: usize = element_count(key);
            let key_size: usize = append_element(columns, at, key, keys, &items);
            let ghost middle = columns@;
            let ghost next = (at + width) as int;
            proof {
                assert forall|k: int| 0 <= k < element_types(**value).len() implies (#[trigger] middle[next + k]).wf()
                    && middle[next + k].dt() == element_types(**value)[k] by {
                    assert(child_types(*dt)[width + k] == element_types(**value)[k]);
                    assert(before[at + (width + k)].wf());
                }
                assert forall|k: int| 0 <= k < second.len() implies (#[trigger] middle[next + k]).cells().len() + second[k].len()
                    <= max_rows() by {
                    assert((first + second)[width + k] == second[k]);
                    assert(before[at + (width + k)].cells().len() + (first + second)[width + k].len() <= max_rows());
                }
            }
            assert(at + width <= columns.len());
            let value_size: usize = append_element(columns, at + width, value, values, &items);
            proof {
                lemma_grown_twice(before, middle, columns@, at as int, first, second);
                lemma_value_bytes_add(first, second);
            }
            key_size.saturating_add(value_size)
        },
        _ => {
            proof {
                assert(child_columns(*dt, rows) =~= Seq::empty());
            }
            0
        },
    }
}

/// The number of physical columns of a column that stands below another one.
fn element_count(dt: &DataType) -> (count: usize)
    requires
        element_types(*dt).len() <= usize::MAX,
    ensures
        count == element_types(*dt).len(),
    decreases dt, 1nat,
{
    1 + child_count(dt)
}

fn child_count(dt: &DataType) -> (count: usize)
    requires
        child_types(*dt).len() <= usize::MAX,
    ensures
        count == child_types(*dt).len(),
    decreases dt, 0nat,
{
    match dt {
        DataType::ListOf(element, _) => element_count(element),
        DataType::MapOf(key, value, _) => element_count(key) + element_count(value),
        _ => 0,
    }
}

/// The lengths of columns.
pub open spec fn lengths(columns: Seq<Cells>) -> Seq<nat> {
    Seq::new(columns.len(), |k: int| columns[k].len())
}

/// Counts the cells that the rows `kept` of a column below another one take in each physical column.
fn count_element(dt: &DataType, col: &Column, kept: &Vec<usize>, counts: &mut Vec<usize>)
    requires
        consistent(*col),
        rows_below(kept@, col.nulls@.len()),
        element_ok(*dt, *col, kept@),
    ensures
        counts_of(final(counts)@) == counts_of(old(counts)@) + lengths(
            element_columns(*dt, picked(rows_of(*dt, *col), kept@)),
        ),
    decreases dt, 2nat,
{
    let ghost rows = picked(rows_of(*dt, *col), kept@);
    let ghost before = counts_of(counts@);
    if kept.len() == 0 {
        count_nothing(dt, counts);
        proof {
            lemma_no_rows(*dt);
            assert(rows =~= Seq::empty());
            lemma_columns_len(*dt, rows);
            assert(lengths(element_columns(*dt, rows)) =~= Seq::new(element_types(*dt).len(), |k: int| 0nat)) by {
                assert forall|k: int| 0 <= k < element_columns(*dt, rows).len() implies #[trigger] lengths(
                    element_columns(*dt, rows),
                )[k] == 0 by {
                    assert(element_columns(*dt, rows)[k] == Cells::empty());
                }
            }
        }
        return;
    }
    counts.push(kept.len());
    assert(counts_of(counts@) =~= before + seq![own_cells(rows).len()]);
    count_children(dt, col, kept, counts);
    assert(counts_of(counts@) =~= before + lengths(element_columns(*dt, rows)));
}

/// Counts no cells in each physical column of a column below another one.
fn count_nothing(dt: &DataType, counts: &mut Vec<usize>)
    ensures
        counts_of(final(counts)@) == counts_of(old(counts)@) + Seq::new(element_types(*dt).len(), |k: int| 0nat),
    decreases dt,
{
    let ghost before = counts_of(counts@);
    counts.push(0);
    assert(counts_of(counts@) =~= before + seq![0nat]);
    match dt {
        DataType::ListOf(element, _) => {
            count_nothing(element, counts);
        },
        DataType::MapOf(key, value, _) => {
            count_nothing(key, counts);
            count_nothing(value, counts);
        },
        _ => {},
    }
    assert(counts_of(counts@) =~= before + Seq::new(element_types(*dt).len(), |k: int| 0nat));
}

/// Counts the cells that stand below the rows `kept` of a column.
fn count_children(dt: &DataType, col: &Column, kept: &Vec<usize>, counts: &mut Vec<usize>)
    requires
        consistent(*col),
        rows_below(kept@, col.nulls@.len()),
        shape_error(*dt, *col) is None,
        child_ok(*dt, *col, kept@),
    ensures
        counts_of(final(counts)@) == counts_of(old(counts)@) + lengths(
            child_columns(*dt, picked(rows_of(*dt, *col), kept@)),
        ),
    decreases dt, 1nat,
{
    let ghost rows = picked(rows_of(*dt, *col), kept@);
    let ghost before = counts_of(counts@);
    match (dt, &col.values) {
        (DataType::ListOf(element, _), ColumnValues::ListOf { offsets, values }) => {
            let items: Vec<usize> = flatten_rows(offsets, &col.nulls, kept, Ghost(values.nulls@.len()));
            proof {
                lemma_list_items_kept(**element, *dt, *col, kept@);
            }
            count_element(element, values, &items, counts);
        },
        (DataType::MapOf(key, value, _), ColumnValues::MapOf { offsets, keys, values }) => {
            let items: Vec<usize> = flatten_rows(offsets, &col.nulls, kept, Ghost(values.nulls@.len()));
            proof {
                lemma_map_entries_kept(**key, **value, *dt, *col, kept@);
            }
            count_element(key, keys, &items, counts);
            count_element(value, values, &items, counts);
        },
        _ => {},
    }
    assert(counts_of(counts@) =~= before + lengths(child_columns(*dt, rows)));
}

// ---------------------------------------------------------------- the bucket

/// `RandomState::new` of the standard library: a state with a seed of its own. Nothing is claimed of
/// it.
pub assume_specification[ RandomState::new ]() -> RandomState;

/// `BuildHasher::build_hasher` of the standard library: a new hasher. Nothing is claimed of it,
/// since each state is seeded at random.
#[verifier::external_body]
fn new_hasher(state: &RandomState) -> DefaultHasher {
    state.build_hasher()
}

/// A number that spreads the keys of dictionaries; which one makes no difference to what is written.
fn dictionary_seed() -> u64 {
    let state: RandomState = RandomState::new();
    let mut hasher: DefaultHasher = new_hasher(&state);
    hasher.write("paimon-mosaic-u64-dict".as_bytes());
    hasher.finish()
}

/// The columns of a bucket that is stored by pages.
pub struct PagedBucketOutput {
    pub encodings: Vec<u8>,
    pub has_nulls: Vec<bool>,
    pub const_data: Vec<Vec<u8>>,
    pub column_pages: Vec<Option<Vec<u8>>>,
    pub num_primary: usize,
    pub children: Vec<ChildColumnMeta>,
}

/// Columns with more cells.
pub open spec fn appended(columns: Seq<Cells>, batch: Seq<Cells>) -> Seq<Cells> {
    Seq::new(columns.len(), |k: int| columns[k] + batch[k])
}

/// The rows of columns of the given types.
pub open spec fn batch_rows(types: Seq<DataType>, cols: Seq<&Column>) -> Seq<Seq<Row>> {
    Seq::new(types.len(), |i: int| rows_of(types[i], *cols[i]))
}

pub open spec fn cells_of(columns: Seq<ColumnWriter>) -> Seq<Cells> {
    Seq::new(columns.len(), |j: int| columns[j].cells())
}

/// The child columns with their numbers of cells.
pub open spec fn counted(metas: Seq<ChildColumnMeta>, counts: Seq<nat>) -> Seq<ChildColumnMeta> {
    Seq::new(metas.len(), |i: int| ChildColumnMeta { num_elements: counts[i] as usize, ..metas[i] })
}

/// The images of all physical columns.
pub open spec fn bucket_images(types: Seq<DataType>, cells: Seq<Cells>, limits: DictLimits) -> Seq<ColumnImage> {
    Seq::new(cells.len(), |j: int| column_image(cells[j], width_of(physical_types(types)[j]), limits))
}

/// The numbers of cells of the child columns.
pub open spec fn child_counts(types: Seq<DataType>, cells: Seq<Cells>) -> Seq<nat> {
    lengths(cells.skip(types.len() as int))
}

pub struct BucketWriter {
    num_primary: usize,
    columns: Vec<ColumnWriter>,
    children: Vec<ChildColumnMeta>,
    num_rows: usize,
    limits: DictLimits,
    types: Ghost<Seq<DataType>>,
}

impl BucketWriter {
    /// The types of the columns.
    pub closed spec fn types(self) -> Seq<DataType> {
        self.types@
    }

    pub closed spec fn dict_limits(self) -> DictLimits {
        self.limits
    }

    /// The cells of the physical columns.
    pub closed spec fn cells(self) -> Seq<Cells> {
        cells_of(self.columns@)
    }

    /// The number of rows.
    pub closed spec fn rows(self) -> nat {
        self.num_rows as nat
    }

    pub closed spec fn wf(self) -> bool {
        &&& self.limits.wf()
        &&& self.num_primary == self.types@.len()
        &&& self.columns@.len() == physical_types(self.types@).len()
        &&& columns_fit(self.types@.len(), self.columns@.len())
        &&& typed(self.columns@, 0, physical_types(self.types@))
        &&& self.children@ == all_child_metas(self.types@, self.types@.len())
        &&& forall|j: int|
            0 <= j < self.columns@.len() ==> (#[trigger] self.columns@[j]).cells().len() <= max_rows() && self.columns@[j].dict_limits()
                == self.limits
        &&& forall|i: int| 0 <= i < self.types@.len() ==> (#[trigger] self.columns@[i]).cells().len() == self.num_rows
    }

    pub open spec fn images(self) -> Seq<ColumnImage> {
        bucket_images(self.types(), self.cells(), self.dict_limits())
    }

    /// The bytes of the bucket.
    pub open spec fn image(self) -> Seq<u8> {
        bucket_image(self.types().len(), child_counts(self.types(), self.cells()), self.images())
    }

    /// What holds of every bucket writer.
    pub proof fn lemma_wf(self)
        requires
            self.wf(),
        ensures
            self.dict_limits().wf(),
            columns_fit(self.types().len(), physical_types(self.types()).len()),
            self.cells().len() == physical_types(self.types()).len(),
            forall|j: int| 0 <= j < self.cells().len() ==> (#[trigger] self.cells()[j]).len() <= max_rows(),
            forall|i: int| 0 <= i < self.types().len() ==> (#[trigger] self.cells()[i]).len() == self.rows(),
            forall|j: int|
                0 <= j < self.cells().len() ==> all_values(physical_types(self.types())[j], present(#[trigger] self.cells()[j])),
    {
        assert forall|j: int| 0 <= j < self.cells().len() implies all_values(
            physical_types(self.types())[j],
            present(#[trigger] self.cells()[j]),
        ) by {
            assert(self.columns@[0 + j].wf());
            self.columns@[j].lemma_values();
        }
    }

    /// An empty bucket of columns of the given types.
    pub fn new(col_types: &[&DataType], max_dict_total_bytes: usize, max_dict_entries: usize) -> (writer: Self)
        requires
            columns_fit(col_types@.len(), physical_types(plain_types(col_types@)).len()),
        ensures
            writer.wf(),
            writer.types() == plain_types(col_types@),
            writer.rows() == 0,
            writer.cells() == Seq::new(physical_types(plain_types(col_types@)).len(), |j: int| Cells::empty()),
            writer.dict_limits().max_total_bytes == max_dict_total_bytes,
            writer.dict_limits().max_entries == max_entries(max_dict_entries as int),
    {
        let seed: u64 = dictionary_seed();
        let mut limit: usize = usize::MAX / 4 - 1;
        if limit > u32::MAX as usize {
            limit = u32::MAX as usize;
        }
        if limit > max_dict_entries {
            limit = max_dict_entries;
        }
        let limits = DictLimits { max_total_bytes: max_dict_total_bytes, max_entries: limit, seed };
        let (physical, children) = expand_col_types(col_types);
        let mut columns: Vec<ColumnWriter> = Vec::new();
        let mut i: usize = 0;
        while i < physical.len()
            invariant
                i <= physical.len(),
                limits.wf(),
                columns@.len() == i,
                forall|k: int|
                    0 <= k < i ==> (#[trigger] columns@[k]).wf() && columns@[k].dt() == physical@[k] && columns@[k].cells()
                        == Cells::empty() && columns@[k].dict_limits() == limits,
            decreases physical.len() - i,
        {
            columns.push(ColumnWriter::new(physical[i].duplicate(), limits));
            i += 1;
        }
        let writer = BucketWriter {
            num_primary: col_types.len(),
            columns,
            children,
            num_rows: 0,
            limits,
            types: Ghost(plain_types(col_types@)),
        };
        assert(writer.cells() =~= Seq::new(physical_types(plain_types(col_types@)).len(), |j: int| Cells::empty()));
        writer
    }

    pub fn num_primary(&self) -> (count: usize)
        requires
            self.wf(),
        ensures
            count == self.types().len(),
    {
        self.num_primary
    }

    /// The columns below lists and maps, with their numbers of cells.
    pub fn children(&self) -> (children: Vec<ChildColumnMeta>)
        requires
            self.wf(),
        ensures
            children@ == counted(
                all_child_metas(self.types(), self.types().len()),
                child_counts(self.types(), self.cells()),
            ),
    {
        proof {
            lemma_all_metas_len(self.types@, self.types@.len());
            assert(self.types@.take(self.types@.len() as int) =~= self.types@);
        }
        let ghost counts = child_counts(self.types@, self.cells());
        let mut children: Vec<ChildColumnMeta> = Vec::new();
        let mut i: usize = 0;
        while i < self.children.len()
            invariant
                i <= self.children.len(),
                self.wf(),
                self.children@.len() == all_child_types(self.types@).len(),
                counts == child_counts(self.types@, self.cells()),
                children@.len() == i,
                forall|k: int|
                    0 <= k < i ==> #[trigger] children@[k] == (ChildColumnMeta {
                        num_elements: counts[k] as usize,
                        ..self.children@[k]
                    }),
            decreases self.children.len() - i,
        {
            assert(self.columns@[0 + (self.num_primary + i)].wf());
            let mut child: ChildColumnMeta = self.children[i].clone();
            child.num_elements = self.columns[self.num_primary + i].num_rows();
            children.push(child);
            i += 1;
        }
        assert(children@ =~= counted(all_child_metas(self.types@, self.types@.len()), counts));
        children
    }

    /// The physical column `col`.
    pub fn column(&self, col: usize) -> (column: &ColumnWriter)
        requires
            self.wf(),
            col < self.cells().len(),
        ensures
            column.wf(),
            column.dt() == physical_types(self.types())[col as int],
            column.cells() == self.cells()[col as int],
            column.dict_limits() == self.dict_limits(),
    {
        assert(self.columns@[0 + col].wf());
        &self.columns[col]
    }

    pub fn num_rows(&self) -> (rows: usize)
        requires
            self.wf(),
        ensures
            rows == self.rows(),
    {
        self.num_rows
    }

    pub fn is_empty(&self) -> (empty: bool)
        requires
            self.wf(),
        ensures
            empty == (self.rows() == 0),
    {
        self.num_rows == 0
    }

    /// There is room for more cells.
    fn check_room(&self, types: &[&DataType], cols: &[&Column], rows: &Vec<usize>) -> (fits: bool)
        requires
            self.wf(),
            plain_types(types@) == self.types(),
            types@.len() == cols@.len(),
            rows@ == row_range(0, rows@.len() as int),
            batch_ok(cols@, rows@.len()),
            columns_error(self.types(), cols@) is None,
        ensures
            fits == has_room(self.columns@, 0, physical_columns(self.types(), batch_rows(self.types(), cols@))),
    {
        let ghost plain = self.types@;
        let ghost all = batch_rows(plain, cols@);
        let ghost batch = physical_columns(plain, all);
        let mut counts: Vec<usize> = Vec::new();
        let mut i: usize = 0;
        while i < types.len()
            invariant
                i <= types.len(),
                types@.len() == cols@.len(),
                types@.len() == plain.len(),
                all == batch_rows(plain, cols@),
                batch_ok(cols@, rows@.len()),
                counts_of(counts@) == Seq::new(i as nat, |k: int| own_cells(all[k]).len()),
            decreases types.len() - i,
        {
            proof {
                assert(consistent(*cols@[i as int]));
                lemma_rows_len(plain[i as int], *cols@[i as int]);
            }
            let ghost before = counts_of(counts@);
            counts.push(rows.len());
            proof {
                assert(counts_of(counts@) =~= before.push(rows@.len()));
                assert(all[i as int] == rows_of(plain[i as int], *cols@[i as int]));
                assert(own_cells(all[i as int]).len() == rows@.len());
                assert(counts_of(counts@) =~= Seq::new((i + 1) as nat, |k: int| own_cells(all[k]).len()));
            }
            i += 1;
        }
        let ghost primary = counts_of(counts@);
        i = 0;
        assert(plain.take(0) =~= Seq::empty());
        assert(counts_of(counts@) =~= primary + lengths(all_child_columns(plain.take(0), all)));
        while i < types.len()
            invariant
                i <= types.len(),
                types@.len() == cols@.len(),
                plain_types(types@) == plain,
                all == batch_rows(plain, cols@),
                rows@ == row_range(0, rows@.len() as int),
                batch_ok(cols@, rows@.len()),
                columns_error(plain, cols@) is None,
                counts_of(counts@) == primary + lengths(all_child_columns(plain.take(i as int), all)),
            decreases types.len() - i,
        {
            let ghost before = counts_of(counts@);
            proof {
                assert(plain[i as int] == *types@[i as int]);
                assert(consistent(*cols@[i as int]));
                lemma_no_error(plain, cols@, plain.len(), i as int);
                lemma_all_picked(plain[i as int], *cols@[i as int]);
            }
            count_children(types[i], cols[i], rows, &mut counts);
            proof {
                assert(plain.take(i + 1).drop_last() =~= plain.take(i as int));
                assert(counts_of(counts@) =~= primary + lengths(all_child_columns(plain.take(i + 1), all)));
            }
            i += 1;
        }
        proof {
            assert(plain.take(plain.len() as int) =~= plain);
            assert(counts_of(counts@) =~= lengths(batch));
            lemma_batch_len(plain, all);
        }
        let limit: usize = max_column_rows();
        let mut j: usize = 0;
        while j < counts.len()
            invariant
                j <= counts.len(),
                self.wf(),
                counts_of(counts@) == lengths(batch),
                counts@.len() == self.columns@.len(),
                batch == physical_columns(self.types@, batch_rows(self.types@, cols@)),
                limit == max_rows(),
                forall|k: int|
                    0 <= k < j ==> (#[trigger] self.columns@[0 + k]).cells().len() + batch[k].len() <= max_rows(),
            decreases counts.len() - j,
        {
            assert(self.columns@[0 + j].wf());
            assert(counts@[j as int] == counts_of(counts@)[j as int]);
            assert(counts_of(counts@)[j as int] == lengths(batch)[j as int]);
            assert(lengths(batch).len() == batch.len());
            assert(counts@[j as int] == batch[j as int].len());
            assert(self.columns@[j as int].cells().len() <= max_rows());
            if counts[j] > limit - self.columns[j].num_rows() {
                assert(self.columns@[0 + j].cells().len() + batch[j as int].len() > max_rows());
                return false;
            }
            j += 1;
        }
        true
    }

    /// Appends rows to the columns. Says how many bytes of values came in, plus a bit for each
    /// column in each row, rounded up to bytes.
    pub fn write_columns(&mut self, columns: &[&Column], data_types: &[&DataType]) -> (result: Result<usize, Error>)
        requires
            old(self).wf(),
            plain_types(data_types@) == old(self).types(),
            columns@.len() == data_types@.len(),
            columns@.len() > 0,
            batch_ok(columns@, columns@[0].nulls@.len()),
        ensures
            final(self).wf(),
            final(self).types() == old(self).types(),
            final(self).dict_limits() == old(self).dict_limits(),
            ({
                let num_rows = columns@[0].nulls@.len();
                let batch = physical_columns(old(self).types(), batch_rows(old(self).types(), columns@));
                if num_rows == 0 {
                    result == Ok::<usize, Error>(0) && *final(self) == *old(self)
                } else if let Some(e) = columns_error(old(self).types(), columns@) {
                    result == Err::<usize, Error>(e) && *final(self) == *old(self)
                } else if !cells_fit(old(self).cells(), batch) {
                    result == Err::<usize, Error>(Error::TooManyRows) && *final(self) == *old(self)
                } else {
                    &&& result == Ok::<usize, Error>(
                        clamped((value_bytes(batch) + num_rows * bytes_for(columns@.len() as int)) as nat),
                    )
                    &&& final(self).cells() == appended(old(self).cells(), batch)
                    &&& final(self).rows() == old(self).rows() + num_rows
                }
            }),
    {
        let num_rows: usize = columns[0].nulls.len();
        if num_rows == 0 {
            return Ok(0);
        }
        let ghost plain = self.types@;
        let ghost all = batch_rows(plain, columns@);
        let ghost batch = physical_columns(plain, all);
        let ghost before = self.columns@;
        match check_columns(data_types, columns, num_rows, self.columns.len()) {
            Ok(_) => {},
            Err(e) => {
                return Err(e);
            },
        }
        let rows: Vec<usize> = all_rows(num_rows);
        proof {
            lemma_batch_len(plain, all);
            lemma_room(self.columns@, batch);
        }
        if !self.check_room(data_types, columns, &rows) {
            return Err(Error::TooManyRows);
        }
        let mut size: usize = 0;
        let ghost primary = Seq::new(plain.len(), |i: int| own_cells(all[i]));
        let mut i: usize = 0;
        assert(primary.take(0) =~= Seq::empty());
        while i < columns.len()
            invariant
                i <= columns.len(),
                columns@.len() == plain.len(),
                plain_types(data_types@) == plain,
                all == batch_rows(plain, columns@),
                batch == physical_columns(plain, all),
                batch.len() == before.len(),
                primary == Seq::new(plain.len(), |k: int| own_cells(all[k])),
                rows@ == row_range(0, rows@.len() as int),
                batch_ok(columns@, rows@.len()),
                columns_error(plain, columns@) is None,
                typed(before, 0, physical_types(plain)),
                has_room(before, 0, batch),
                before.len() == physical_types(plain).len(),
                self.num_primary == old(self).num_primary,
                self.children == old(self).children,
                self.num_rows == old(self).num_rows,
                self.limits == old(self).limits,
                self.types == old(self).types,
                grown(before, self.columns@, 0, primary.take(i as int)),
                size == clamped(value_bytes(primary.take(i as int))),
            decreases columns.len() - i,
        {
            let ghost middle = self.columns@;
            proof {
                assert(plain[i as int] == *data_types@[i as int]);
                assert(consistent(*columns@[i as int]));
                lemma_no_error(plain, columns@, plain.len(), i as int);
                lemma_all_picked(plain[i as int], *columns@[i as int]);
                assert(before[0 + i].wf());
                assert(physical_types(plain)[i as int] == physical_type(plain[i as int]));
                assert(batch[i as int] == own_cells(all[i as int]));
                assert(before[0 + i].cells().len() + batch[i as int].len() <= max_rows());
                lemma_rows_len(plain[i as int], *columns@[i as int]);
            }
            let written: usize = append_array_column(&mut self.columns[i], data_types[i], columns[i], &rows);
            proof {
                assert(primary.take(i + 1) =~= primary.take(i as int) + seq![primary[i as int]]);
                assert(grown(middle, self.columns@, i as int, seq![primary[i as int]]));
                lemma_grown_twice(before, middle, self.columns@, 0, primary.take(i as int), seq![primary[i as int]]);
                lemma_value_bytes_add(primary.take(i as int), seq![primary[i as int]]);
                lemma_one_column(primary[i as int]);
            }
            size = size.saturating_add(written);
            i += 1;
        }
        i = 0;
        let mut at: usize = columns.len();
        proof {
            assert(plain.take(0) =~= Seq::empty());
            assert(primary.take(primary.len() as int) =~= primary + all_child_columns(plain.take(0), all));
        }
        while i < columns.len()
            invariant
                i <= columns.len(),
                columns@.len() == plain.len(),
                plain_types(data_types@) == plain,
                all == batch_rows(plain, columns@),
                batch == physical_columns(plain, all),
                batch.len() == before.len(),
                primary == Seq::new(plain.len(), |k: int| own_cells(all[k])),
                rows@ == row_range(0, rows@.len() as int),
                batch_ok(columns@, rows@.len()),
                columns_error(plain, columns@) is None,
                typed(before, 0, physical_types(plain)),
                has_room(before, 0, batch),
                before.len() == physical_types(plain).len(),
                self.num_primary == old(self).num_primary,
                self.children == old(self).children,
                self.num_rows == old(self).num_rows,
                self.limits == old(self).limits,
                self.types == old(self).types,
                at == plain.len() + all_child_columns(plain.take(i as int), all).len(),
                grown(before, self.columns@, 0, primary + all_child_columns(plain.take(i as int), all)),
                size == clamped(value_bytes(primary + all_child_columns(plain.take(i as int), all))),
            decreases columns.len() - i,
        {
            let ghost middle = self.columns@;
            let ghost done = primary + all_child_columns(plain.take(i as int), all);
            let ghost next = child_columns(plain[i as int], all[i as int]);
            proof {
                assert(plain[i as int] == *data_types@[i as int]);
                assert(consistent(*columns@[i as int]));
                lemma_no_error(plain, columns@, plain.len(), i as int);
                lemma_all_picked(plain[i as int], *columns@[i as int]);
                lemma_child_place(plain, all, i as int);
                lemma_columns_len(plain[i as int], all[i as int]);
                assert forall|k: int| 0 <= k < child_types(plain[i as int]).len() implies (#[trigger] middle[at + k]).wf()
                    && middle[at + k].dt() == child_types(plain[i as int])[k] by {
                    assert(before[0 + (at + k)].wf());
                    assert(physical_types(plain)[at + k] == child_types(plain[i as int])[k]);
                }
                assert forall|k: int| 0 <= k < next.len() implies (#[trigger] middle[at + k]).cells().len() + next[k].len()
                    <= max_rows() by {
                    assert(before[0 + (at + k)].cells().len() + batch[at + k].len() <= max_rows());
                    assert(batch[at + k] == next[k]);
                }
            }
            let written: usize = append_children(&mut self.columns, at, data_types[i], columns[i], &rows);
            proof {
                assert(plain.take(i + 1).drop_last() =~= plain.take(i as int));
                assert(primary + all_child_columns(plain.take(i + 1), all) =~= done + next);
                lemma_grown_twice(before, middle, self.columns@, 0, done, next);
                lemma_value_bytes_add(done, next);
            }
            size = size.saturating_add(written);
            assert(child_types(plain[i as int]).len() <= self.columns.len());
            at = at + child_count(data_types[i]);
            i += 1;
        }
        proof {
            assert(plain.take(plain.len() as int) =~= plain);
            assert(before[0int + 0int].wf());
            assert(batch[0] == own_cells(all[0]));
            lemma_rows_len(plain[0], *columns@[0]);
            assert(before[0int + 0int].cells().len() + batch[0].len() <= max_rows());
        }
        self.num_rows = self.num_rows + num_rows;
        proof {
            assert forall|j: int| 0 <= j < self.columns@.len() implies (#[trigger] self.columns@[j]).cells().len() <= max_rows()
                && self.columns@[j].dict_limits() == self.limits by {
                assert(before[0 + j].cells().len() + batch[j].len() <= max_rows());
            }
            assert forall|i: int| 0 <= i < plain.len() implies (#[trigger] self.columns@[i]).cells().len() == self.num_rows by {
                assert(batch[i] == own_cells(all[i]));
                assert(consistent(*columns@[i]));
                lemma_rows_len(plain[i], *columns@[i]);
                assert(before[i].cells().len() == old(self).num_rows);
            }
            lemma_typed_after(before, self.columns@, 0, batch, 0, physical_types(plain));
            assert(self.cells() =~= appended(old(self).cells(), batch));
        }
        let flag_bytes: usize = byte_count(columns.len());
        proof {
            vstd::arithmetic::mul::lemma_mul_nonnegative(num_rows as int, flag_bytes as int);
        }
        let flags: usize = match num_rows.checked_mul(flag_bytes) {
            Some(bytes) => bytes,
            None => usize::MAX,
        };
        Ok(size.saturating_add(flags))
    }

    /// Encodes the columns.
    pub fn prepare(&self) -> (prepared: PreparedBucket)
        requires
            self.wf(),
        ensures
            prepared.wf(),
            prepared.num_primary == self.types().len(),
            counts_of(prepared.counts@) == child_counts(self.types(), self.cells()),
            prepared.images() == self.images(),
    {
        let mut columns: Vec<PreparedColumn> = Vec::new();
        let mut counts: Vec<usize> = Vec::new();
        let mut i: usize = 0;
        while i < self.columns.len()
            invariant
                i <= self.columns.len(),
                self.wf(),
                columns@.len() == i,
                forall|k: int| 0 <= k < i ==> (#[trigger] columns@[k])@ == self.columns@[k].image(),
                counts@.len() == (if i <= self.num_primary {
                    0
                } else {
                    i - self.num_primary
                }),
                forall|k: int|
                    0 <= k < counts@.len() ==> #[trigger] counts@[k] == self.columns@[self.num_primary + k].cells().len(),
            decreases self.columns.len() - i,
        {
            assert(self.columns@[0 + i].wf());
            assert(self.columns@[i as int].cells().len() <= max_rows());
            columns.push(self.columns[i].prepare());
            if i >= self.num_primary {
                counts.push(self.columns[i].num_rows());
            }
            i += 1;
        }
        let prepared = PreparedBucket { num_primary: self.num_primary, counts, columns };
        proof {
            assert(prepared.images() =~= self.images()) by {
                assert forall|k: int| 0 <= k < self.images().len() implies #[trigger] prepared.images()[k] == self.images()[k] by {
                    assert(self.columns@[0 + k].wf());
                    assert(columns@[k]@ == self.columns@[k].image());
                }
            }
            assert(counts_of(counts@) =~= child_counts(self.types@, self.cells()));
            assert forall|k: int| 0 <= k < counts@.len() implies #[trigger] counts@[k] <= u32::MAX by {
                assert(self.columns@[self.num_primary + k].cells().len() <= max_rows());
            }
        }
        prepared
    }

    /// How many bytes the bucket takes in one piece.
    pub fn estimated_raw_size(&self) -> (size: usize)
        requires
            self.wf(),
        ensures
            size == (if self.rows() == 0 {
                0
            } else {
                clamped(self.image().len())
            }),
    {
        if self.num_rows == 0 {
            return 0;
        }
        self.prepare().estimated_raw_size()
    }

    /// The bytes of the bucket in one piece; none if it has no rows.
    pub fn finish(&self) -> (out: Vec<u8>)
        requires
            self.wf(),
        ensures
            out@ == (if self.rows() == 0 {
                Seq::empty()
            } else {
                self.image()
            }),
    {
        if self.num_rows == 0 {
            return Vec::new();
        }
        self.prepare().finish()
    }

    /// The columns one by one, each with the page that holds it.
    pub fn finish_paged(&self) -> (paged: PagedBucketOutput)
        requires
            self.wf(),
        ensures
            paged.num_primary == self.types().len(),
            paged.children@ == counted(
                all_child_metas(self.types(), self.types().len()),
                child_counts(self.types(), self.cells()),
            ),
            ({
                let images = if self.rows() == 0 {
                    Seq::empty()
                } else {
                    self.images()
                };
                &&& u8_nats(paged.encodings@) == encodings_of(images)
                &&& paged.has_nulls@ == nulls_of(images)
                &&& byte_views(paged.const_data@) == consts_of(images)
                &&& page_views(paged.column_pages@) == pages_of(images)
            }),
    {
        if self.num_rows == 0 {
            let paged = PagedBucketOutput {
                encodings: Vec::new(),
                has_nulls: Vec::new(),
                const_data: Vec::new(),
                column_pages: Vec::new(),
                num_primary: self.num_primary,
                children: self.children(),
            };
            proof {
                let none = Seq::<ColumnImage>::empty();
                assert(u8_nats(paged.encodings@) =~= encodings_of(none));
                assert(paged.has_nulls@ =~= nulls_of(none));
                assert(byte_views(paged.const_data@) =~= consts_of(none));
                assert(page_views(paged.column_pages@) =~= pages_of(none));
            }
            return paged;
        }
        self.finish_paged_prepared(&self.prepare())
    }

    /// Lays the columns of a prepared bucket out by pages.
    pub fn finish_paged_prepared(&self, prepared: &PreparedBucket) -> (paged: PagedBucketOutput)
        requires
            self.wf(),
        ensures
            paged.num_primary == prepared.num_primary,
            paged.children@ == counted(
                all_child_metas(self.types(), self.types().len()),
                child_counts(self.types(), self.cells()),
            ),
            u8_nats(paged.encodings@) == encodings_of(prepared.images()),
            paged.has_nulls@ == nulls_of(prepared.images()),
            byte_views(paged.const_data@) == consts_of(prepared.images()),
            page_views(paged.column_pages@) == pages_of(prepared.images()),
    {
        PagedBucketOutput {
            encodings: prepared.encodings(),
            has_nulls: prepared.has_nulls(),
            const_data: prepared.const_data(),
            column_pages: prepared.column_pages(),
            num_primary: prepared.num_primary,
            children: self.children(),
        }
    }

    /// Empties the bucket.
    pub fn reset(&mut self)
        requires
            old(self).wf(),
        ensures
            final(self).wf(),
            final(self).types() == old(self).types(),
            final(self).dict_limits() == old(self).dict_limits(),
            final(self).rows() == 0,
            final(self).cells() == Seq::new(old(self).cells().len(), |j: int| Cells::empty()),
    {
        let ghost before = self.columns@;
        let mut i: usize = 0;
        while i < self.columns.len()
            invariant
                i <= self.columns.len(),
                self.columns@.len() == before.len(),
                old(self).wf(),
                before == old(self).columns@,
                self.num_primary == old(self).num_primary,
                self.children == old(self).children,
                self.limits == old(self).limits,
                self.types == old(self).types,
                forall|k: int|
                    0 <= k < i ==> (#[trigger] self.columns@[k]).wf() && self.columns@[k].dt() == before[k].dt()
                        && self.columns@[k].cells() == Cells::empty() && self.columns@[k].dict_limits() == self.limits,
                forall|k: int| i <= k < before.len() ==> #[trigger] self.columns@[k] == before[k],
            decreases self.columns.len() - i,
        {
            assert(self.columns@[i as int] == before[0 + i]);
            assert(before[0 + i].wf());
            self.columns[i].reset();
            i += 1;
        }
        self.num_rows = 0;
        proof {
            assert forall|k: int| 0 <= k < physical_types(self.types@).len() implies (#[trigger] self.columns@[0 + k]).wf()
                && self.columns@[0 + k].dt() == physical_types(self.types@)[k] by {
                assert(before[0 + k].wf());
            }
            assert(self.cells() =~= Seq::new(old(self).cells().len(), |j: int| Cells::empty()));
        }
    }
}

/// The number of dictionary entries that is asked for, as far as the format and memory allow it.
pub open spec fn max_entries(asked: int) -> int {
    let limit = if usize::MAX / 4 - 1 > u32::MAX {
        u32::MAX as int
    } else {
        usize::MAX / 4 - 1
    };
    if limit > asked {
        asked
    } else {
        limit
    }
}

/// No physical column gets more rows than it can have.
pub open spec fn cells_fit(columns: Seq<Cells>, batch: Seq<Cells>) -> bool {
    forall|k: int| 0 <= k < batch.len() ==> (#[trigger] columns[k]).len() + batch[k].len() <= max_rows()
}

proof fn lemma_room(columns: Seq<ColumnWriter>, batch: Seq<Cells>)
    requires
        batch.len() == columns.len(),
    ensures
        has_room(columns, 0, batch) == cells_fit(cells_of(columns), batch),
{
    if cells_fit(cells_of(columns), batch) {
        assert forall|k: int| 0 <= k < batch.len() implies (#[trigger] columns[0 + k]).cells().len() + batch[k].len() <= max_rows() by {
            assert(cells_of(columns)[k].len() + batch[k].len() <= max_rows());
        }
    }
    if has_room(columns, 0, batch) {
        assert forall|k: int| 0 <= k < batch.len() implies (#[trigger] cells_of(columns)[k]).len() + batch[k].len() <= max_rows() by {
            assert(columns[0 + k].cells().len() + batch[k].len() <= max_rows());
        }
    }
}

/// All rows picked are the rows.
proof fn lemma_all_picked(dt: DataType, col: Column)
    ensures
        picked(rows_of(dt, col), row_range(0, col.nulls@.len() as int)) == rows_of(dt, col),
        rows_below(row_range(0, col.nulls@.len() as int), col.nulls@.len()),
{
    lemma_rows_len(dt, col);
    assert(col.nulls.len() == col.nulls@.len());
    assert(picked(rows_of(dt, col), row_range(0, col.nulls@.len() as int)) =~= rows_of(dt, col));
}

pub proof fn lemma_all_child_len(types: Seq<DataType>, rows: Seq<Seq<Row>>)
    ensures
        all_child_columns(types, rows).len() == all_child_types(types).len(),
    decreases types.len(),
{
    if types.len() > 0 {
        lemma_all_child_len(types.drop_last(), rows);
        lemma_columns_len(types.last(), rows[types.len() - 1]);
    }
}

pub proof fn lemma_batch_len(types: Seq<DataType>, rows: Seq<Seq<Row>>)
    ensures
        physical_columns(types, rows).len() == physical_types(types).len(),
{
    lemma_all_child_len(types, rows);
}

/// Where the columns below column `i` stand.
pub proof fn lemma_child_place(types: Seq<DataType>, rows: Seq<Seq<Row>>, i: int)
    requires
        0 <= i < types.len(),
    ensures
        ({
            let at = types.len() + all_child_columns(types.take(i), rows).len();
            &&& at + child_types(types[i]).len() <= physical_types(types).len()
            &&& child_columns(types[i], rows[i]).len() == child_types(types[i]).len()
            &&& forall|k: int|
                0 <= k < child_types(types[i]).len() ==> #[trigger] physical_types(types)[at + k] == child_types(types[i])[k]
            &&& forall|k: int|
                0 <= k < child_types(types[i]).len() ==> #[trigger] physical_columns(types, rows)[at + k] == child_columns(
                    types[i],
                    rows[i],
                )[k]
        }),
    decreases types.len(),
{
    lemma_columns_len(types[i], rows[i]);
    lemma_all_child_len(types.take(i), rows);
    lemma_all_child_len(types, rows);
    lemma_prefix_children(types, rows, i);
    lemma_prefix_children(types, rows, i + 1);
    assert(types.take(i + 1).drop_last() =~= types.take(i));
    let m = all_child_types(types.take(i)).len() as int;
    let at = types.len() + m;
    assert forall|k: int| 0 <= k < child_types(types[i]).len() implies #[trigger] physical_types(types)[at + k] == child_types(
        types[i],
    )[k] by {
        assert(all_child_types(types)[m + k] == all_child_types(types.take(i + 1))[m + k]);
    }
    assert forall|k: int| 0 <= k < child_types(types[i]).len() implies #[trigger] physical_columns(types, rows)[at + k]
        == child_columns(types[i], rows[i])[k] by {
        assert(all_child_columns(types, rows)[m + k] == all_child_columns(types.take(i + 1), rows)[m + k]);
    }
}

proof fn lemma_prefix_children(types: Seq<DataType>, rows: Seq<Seq<Row>>, n: int)
    requires
        0 <= n <= types.len(),
    ensures
        all_child_types(types.take(n)).len() <= all_child_types(types).len(),
        all_child_types(types.take(n)) == all_child_types(types).take(all_child_types(types.take(n)).len() as int),
        all_child_columns(types.take(n), rows).len() <= all_child_columns(types, rows).len(),
        all_child_columns(types.take(n), rows) == all_child_columns(types, rows).take(
            all_child_columns(types.take(n), rows).len() as int,
        ),
    decreases types.len(),
{
    if n == types.len() {
        assert(types.take(n) =~= types);
    } else {
        assert(types.drop_last().take(n) =~= types.take(n));
        lemma_prefix_children(types.drop_last(), rows, n);
    }
}

} // verus!
