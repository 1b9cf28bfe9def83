//! Batches of columns, and what is checked of them before they are written.
use vstd::prelude::*;
use crate::bucket_writer::batch_rows;
use crate::column::{consistent, rows_of, Column, Row};
use crate::const_fill::{count_valid, lemma_rank_bound, lemma_rank_step, rank_of};
use crate::error::{type_text, Error};
use crate::row_group_reader::ColumnBatch;
use crate::schema::{FieldSpec, MosaicSchema};
use crate::types::{same_type, DataType};

verus! {

impl ColumnBatch {
    /// Each field has a column, and the columns have the rows of the batch.
    pub open spec fn wf(&self) -> bool {
        &&& self.fields@.len() == self.columns@.len()
        &&& forall|i: int|
            0 <= i < self.columns@.len() ==> consistent(#[trigger] self.columns@[i]) && self.columns@[i].nulls@.len() == self.num_rows
    }
}

/// How many rows are null.
pub open spec fn null_count(nulls: Seq<bool>) -> int {
    nulls.len() - count_valid(nulls)
}

fn count_nulls(nulls: &Vec<bool>) -> (count: usize)
    ensures
        count == null_count(nulls@),
{
    let mut count: usize = 0;
    let mut r: usize = 0;
    proof {
        lemma_rank_bound(nulls@, 0);
    }
    while r < nulls.len()
        invariant
            r <= nulls@.len(),
            count <= r,
            count == r - rank_of(nulls@, r as int),
        decreases nulls@.len() - r,
    {
        proof {
            lemma_rank_step(nulls@, r as int);
            lemma_rank_bound(nulls@, r as int);
            lemma_rank_bound(nulls@, r + 1);
        }
        if nulls[r] {
            count += 1;
        }
        r += 1;
    }
    proof {
        lemma_rank_bound(nulls@, r as int);
    }
    count
}

/// The first of the first `n` columns that has another name.
pub open spec fn names_error(schema: MosaicSchema, map: Seq<usize>, batch: ColumnBatch, n: nat) -> Option<Error>
    decreases n,
{
    if n == 0 {
        None
    } else {
        match names_error(schema, map, batch, (n - 1) as nat) {
            Some(e) => Some(e),
            None => {
                let expected = schema.columns@[n - 1].name;
                let actual = batch.fields@[map[n - 1] as int].name;
                if actual@ != expected@ {
                    Some(
                        Error::FieldNameMismatch { column: (n - 1) as usize, expected_name: expected, actual_name: actual },
                    )
                } else {
                    None
                }
            },
        }
    }
}

/// The first of the first `n` columns that has another type, or nulls where none may be.
pub open spec fn types_error(schema: MosaicSchema, map: Seq<usize>, batch: ColumnBatch, n: nat) -> Option<Error>
    decreases n,
{
    if n == 0 {
        None
    } else {
        match types_error(schema, map, batch, (n - 1) as nat) {
            Some(e) => Some(e),
            None => {
                let meta = schema.columns@[n - 1];
                let nulls = null_count(batch.columns@[map[n - 1] as int].nulls@);
                if !same_type(batch.fields@[map[n - 1] as int].data_type, meta.data_type) {
                    Some(
                        Error::ColumnTypeMismatch {
                            name: meta.name,
                            expected_type: meta.data_type,
                            actual_type: batch.fields@[map[n - 1] as int].data_type,
                        },
                    )
                } else if !meta.nullable && nulls > 0 {
                    Some(Error::UnexpectedNulls { name: meta.name, nulls: nulls as usize })
                } else {
                    None
                }
            },
        }
    }
}

/// What keeps a batch from being one of the columns of a schema; `map` tells the place of each
/// column in the batch.
pub open spec fn batch_error(schema: MosaicSchema, map: Seq<usize>, batch: ColumnBatch) -> Option<Error> {
    let n = schema.columns@.len();
    if batch.columns@.len() != n {
        Some(Error::ColumnCountMismatch { expected: n as usize, actual: batch.columns@.len() as usize })
    } else {
        match names_error(schema, map, batch, n) {
            Some(e) => Some(e),
            None => types_error(schema, map, batch, n),
        }
    }
}

proof fn lemma_names_error(schema: MosaicSchema, map: Seq<usize>, batch: ColumnBatch, n: nat, m: nat)
    requires
        n <= m,
    ensures
        names_error(schema, map, batch, n) is Some ==> names_error(schema, map, batch, m) == names_error(schema, map, batch, n),
        types_error(schema, map, batch, n) is Some ==> types_error(schema, map, batch, m) == types_error(schema, map, batch, n),
    decreases m,
{
    if n < m {
        lemma_names_error(schema, map, batch, n, (m - 1) as nat);
    }
}

proof fn lemma_null_count(nulls: Seq<bool>)
    ensures
        null_count(nulls) == nulls.filter(|null: bool| null).len(),
        null_count(nulls) > 0 <==> exists|r: int| 0 <= r < nulls.len() && #[trigger] nulls[r],
    decreases nulls.len(),
{
    reveal(Seq::filter);
    if nulls.len() > 0 {
        let front = nulls.drop_last();
        lemma_null_count(front);
        assert(nulls[nulls.len() - 1] == nulls.last());
        if exists|r: int| 0 <= r < nulls.len() && #[trigger] nulls[r] {
            let r = choose|r: int| 0 <= r < nulls.len() && #[trigger] nulls[r];
            if r < front.len() {
                assert(front[r]);
            }
        }
        if null_count(front) > 0 {
            let r = choose|r: int| 0 <= r < front.len() && #[trigger] front[r];
            assert(nulls[r]);
        }
    }
}

proof fn lemma_columns_fit(schema: MosaicSchema, map: Seq<usize>, batch: ColumnBatch, n: nat)
    requires
        batch.wf(),
        n <= schema.columns@.len() == map.len(),
        batch.columns@.len() == map.len(),
        forall|i: int| 0 <= i < map.len() ==> (#[trigger] map[i]) < map.len(),
    ensures
        names_error(schema, map, batch, n) is None <==> forall|g: int|
            0 <= g < n ==> batch.fields@[map[g] as int].name@ == (#[trigger] schema.columns@[g]).name@,
        types_error(schema, map, batch, n) is None <==> forall|g: int|
            0 <= g < n ==> {
                let column = #[trigger] schema.columns@[g];
                &&& same_type(batch.fields@[map[g] as int].data_type, column.data_type)
                &&& !column.nullable ==> forall|r: int|
                    0 <= r < batch.num_rows ==> !#[trigger] batch.columns@[map[g] as int].nulls@[r]
            },
        names_error(schema, map, batch, n) matches Some(e) ==> exists|g: int| #[trigger] is_refused(schema, map, batch, g, e),
        types_error(schema, map, batch, n) matches Some(e) ==> exists|g: int| #[trigger] is_refused(schema, map, batch, g, e),
    decreases n,
{
    if n > 0 {
        let g = n - 1;
        lemma_columns_fit(schema, map, batch, g as nat);
        assert(map[g] < map.len());
        assert(schema.columns.len() == schema.columns@.len());
        assert(batch.columns@[map[g] as int].nulls.len() == batch.num_rows);
        let column = batch.columns@[map[g] as int];
        lemma_null_count(column.nulls@);
        let meta = schema.columns@[g];
        if names_error(schema, map, batch, g as nat) is None {
            if let Some(e) = names_error(schema, map, batch, n) {
                assert(is_refused(schema, map, batch, g, e));
            }
        }
        if types_error(schema, map, batch, g as nat) is None {
            if let Some(e) = types_error(schema, map, batch, n) {
                if same_type(batch.fields@[map[g] as int].data_type, meta.data_type) {
                    let r = choose|r: int| 0 <= r < column.nulls@.len() && #[trigger] column.nulls@[r];
                    assert(column.nulls@[r]);
                    assert(is_unexpected_null(schema, map, batch, g, e));
                } else {
                    assert(is_other_type(schema, map, batch, g, e));
                }
                assert(is_refused(schema, map, batch, g, e));
            }
        }
    }
}

/// The error tells that column `g` of the schema has another name in the batch.
pub open spec fn is_other_name(schema: MosaicSchema, map: Seq<usize>, batch: ColumnBatch, g: int, e: Error) -> bool {
    &&& 0 <= g < schema.columns@.len()
    &&& batch.fields@[map[g] as int].name@ != schema.columns@[g].name@
    &&& e matches Error::FieldNameMismatch { column, expected_name, actual_name } && column == g && expected_name@
        == schema.columns@[g].name@ && actual_name@ == batch.fields@[map[g] as int].name@
}

/// The error tells that column `g` of the schema has another type in the batch.
pub open spec fn is_other_type(schema: MosaicSchema, map: Seq<usize>, batch: ColumnBatch, g: int, e: Error) -> bool {
    &&& 0 <= g < schema.columns@.len()
    &&& !same_type(batch.fields@[map[g] as int].data_type, schema.columns@[g].data_type)
    &&& e matches Error::ColumnTypeMismatch { name, expected_type, actual_type } && name@ == schema.columns@[g].name@ && expected_type
        == schema.columns@[g].data_type && actual_type == batch.fields@[map[g] as int].data_type
}

/// The error tells how many nulls column `g` of the schema has in the batch, where none may be.
pub open spec fn is_unexpected_null(schema: MosaicSchema, map: Seq<usize>, batch: ColumnBatch, g: int, e: Error) -> bool {
    &&& 0 <= g < schema.columns@.len()
    &&& !schema.columns@[g].nullable
    &&& e matches Error::UnexpectedNulls { name, nulls } && name@ == schema.columns@[g].name@ && 0 < nulls
        == batch.columns@[map[g] as int].nulls@.filter(|null: bool| null).len()
}

/// The error tells what is wrong with column `g` of the schema in the batch.
pub open spec fn is_refused(schema: MosaicSchema, map: Seq<usize>, batch: ColumnBatch, g: int, e: Error) -> bool {
    is_other_name(schema, map, batch, g, e) || is_other_type(schema, map, batch, g, e) || is_unexpected_null(schema, map, batch, g, e)
}

/// A batch is taken if and only if it has a column for each column of the schema, with its name and
/// its type, and without a null in any row of a column that may have none. An error tells of a column
/// that is not so.
pub proof fn batches_are_taken_where_they_fit(schema: MosaicSchema, map: Seq<usize>, batch: ColumnBatch)
    requires
        batch.wf(),
        map.len() == schema.columns@.len(),
        forall|i: int| 0 <= i < map.len() ==> (#[trigger] map[i]) < schema.columns@.len(),
    ensures
        batch_error(schema, map, batch) is None <==> {
            &&& batch.columns@.len() == schema.columns@.len()
            &&& forall|g: int|
                0 <= g < schema.columns@.len() ==> {
                    let column = #[trigger] schema.columns@[g];
                    let at = map[g] as int;
                    &&& batch.fields@[at].name@ == column.name@
                    &&& same_type(batch.fields@[at].data_type, column.data_type)
                    &&& !column.nullable ==> forall|r: int| 0 <= r < batch.num_rows ==> !#[trigger] batch.columns@[at].nulls@[r]
                }
        },
        batch_error(schema, map, batch) matches Some(e) ==> (batch.columns@.len() != schema.columns@.len() && e == (
        Error::ColumnCountMismatch { expected: schema.columns@.len() as usize, actual: batch.columns@.len() as usize })) || exists|g: int|
            #[trigger] is_refused(schema, map, batch, g, e),
{
    if batch.columns@.len() == schema.columns@.len() {
        lemma_columns_fit(schema, map, batch, schema.columns@.len());
    }
}

/// Types that are the same are told by the same text, with their time zones, names, null flags and
/// metadata, and each type is the same as itself.
pub proof fn same_types_are_told_alike(a: DataType, b: DataType)
    ensures
        same_type(a, a),
        same_type(a, b) ==> same_type(b, a),
        same_type(a, b) ==> type_text(a) == type_text(b),
    decreases a,
{
    match (a, b) {
        (DataType::ListOf(x, _), DataType::ListOf(y, _)) => {
            same_types_are_told_alike(*x, *y);
        },
        (DataType::MapOf(k, v, _), DataType::MapOf(m, w, _)) => {
            same_types_are_told_alike(*k, *m);
            same_types_are_told_alike(*v, *w);
        },
        _ => {},
    }
    match a {
        DataType::ListOf(x, _) => {
            same_types_are_told_alike(*x, *x);
        },
        DataType::MapOf(k, v, _) => {
            same_types_are_told_alike(*k, *k);
            same_types_are_told_alike(*v, *v);
        },
        _ => {},
    }
}

/// Checks that a batch is one of the columns of a schema.
pub fn validate_batch(schema: &MosaicSchema, batch_col_map: &Vec<usize>, batch: &ColumnBatch) -> (result: Result<(), Error>)
    requires
        batch.wf(),
        batch_col_map@.len() == schema.columns@.len(),
        forall|i: int| 0 <= i < batch_col_map@.len() ==> (#[trigger] batch_col_map@[i]) < schema.columns@.len(),
    ensures
        match batch_error(*schema, batch_col_map@, *batch) {
            Some(e) => result == Err::<(), Error>(e),
            None => result is Ok,
        },
        result is Ok <==> {
            &&& batch.columns@.len() == schema.columns@.len()
            &&& forall|g: int|
                0 <= g < schema.columns@.len() ==> {
                    let column = #[trigger] schema.columns@[g];
                    let at = batch_col_map@[g] as int;
                    &&& batch.fields@[at].name@ == column.name@
                    &&& same_type(batch.fields@[at].data_type, column.data_type)
                    &&& !column.nullable ==> forall|r: int| 0 <= r < batch.num_rows ==> !#[trigger] batch.columns@[at].nulls@[r]
                }
        },
{
    proof {
        batches_are_taken_where_they_fit(*schema, batch_col_map@, *batch);
    }
    let n: usize = schema.columns.len();
    let ghost map = batch_col_map@;
    if batch.columns.len() != n {
        return Err(Error::ColumnCountMismatch { expected: n, actual: batch.columns.len() });
    }
    let mut i: usize = 0;
    while i < n
        invariant
            i <= n,
            n == schema.columns@.len(),
            n == batch.columns@.len(),
            batch.wf(),
            map == batch_col_map@,
            map.len() == n,
            forall|i: int| 0 <= i < map.len() ==> (#[trigger] map[i]) < n,
            names_error(*schema, map, *batch, i as nat) is None,
        decreases n - i,
    {
        proof {
            assert(map[i as int] < n);
            lemma_names_error(*schema, map, *batch, (i + 1) as nat, n as nat);
        }
        let field: &FieldSpec = &batch.fields[batch_col_map[i]];
        let expected: &String = &schema.columns[i].name;
        if !(field.name == *expected) {
            return Err(
                Error::FieldNameMismatch { column: i, expected_name: expected.clone(), actual_name: field.name.clone() },
            );
        }
        i += 1;
    }
    let mut j: usize = 0;
    while j < n
        invariant
            j <= n,
            n == schema.columns@.len(),
            n == batch.columns@.len(),
            batch.wf(),
            map == batch_col_map@,
            map.len() == n,
            forall|i: int| 0 <= i < map.len() ==> (#[trigger] map[i]) < n,
            names_error(*schema, map, *batch, n as nat) is None,
            types_error(*schema, map, *batch, j as nat) is None,
        decreases n - j,
    {
        proof {
            assert(map[j as int] < n);
            lemma_names_error(*schema, map, *batch, (j + 1) as nat, n as nat);
        }
        let at: usize = batch_col_map[j];
        if !batch.fields[at].data_type.is_same(&schema.columns[j].data_type) {
            return Err(
                Error::ColumnTypeMismatch {
                    name: schema.columns[j].name.clone(),
                    expected_type: schema.columns[j].data_type.clone(),
                    actual_type: batch.fields[at].data_type.clone(),
                },
            );
        }
        if !schema.columns[j].nullable {
            let nulls: usize = count_nulls(&batch.columns[at].nulls);
            if nulls > 0 {
                proof {
                    let column = batch.columns@[at as int];
                    lemma_null_count(column.nulls@);
                    let r = choose|r: int| 0 <= r < column.nulls@.len() && #[trigger] column.nulls@[r];
                    assert(batch.columns@[batch_col_map@[j as int] as int].nulls@[r]);
                    assert(schema.columns@[j as int].nullable == false);
                }
                return Err(Error::UnexpectedNulls { name: schema.columns[j].name.clone(), nulls });
            }
        }
        j += 1;
    }
    Ok(())
}

// ---------------------------------------------------------------- columns of a bucket

/// The columns of bucket `b` in a batch.
pub open spec fn bucket_columns_of<'a>(schema: MosaicSchema, map: Seq<usize>, batch: &'a ColumnBatch, b: int) -> Seq<&'a Column> {
    Seq::new(
        schema.bucket_to_global@[b]@.len(),
        |k: int| &batch.columns@[map[schema.bucket_to_global@[b]@[k] as int] as int],
    )
}

/// The rows of each column of a schema in a batch.
pub open spec fn rows_of_batch(schema: MosaicSchema, map: Seq<usize>, batch: ColumnBatch) -> Seq<Seq<Row>> {
    Seq::new(schema.columns@.len(), |g: int| rows_of(schema.columns@[g].data_type, batch.columns@[map[g] as int]))
}

/// The rows of the columns of bucket `b`.
pub open spec fn members_rows(schema: MosaicSchema, rows: Seq<Seq<Row>>, b: int) -> Seq<Seq<Row>> {
    Seq::new(schema.bucket_to_global@[b]@.len(), |k: int| rows[schema.bucket_to_global@[b]@[k] as int])
}

pub proof fn lemma_members_rows(schema: MosaicSchema, map: Seq<usize>, batch: &ColumnBatch, b: int)
    requires
        schema.wf(),
        0 <= b < schema.num_buckets,
    ensures
        batch_rows(schema.bucket_types(b), bucket_columns_of(schema, map, batch, b)) == members_rows(
            schema,
            rows_of_batch(schema, map, *batch),
            b,
        ),
{
    assert(schema.bucket_ok(b));
    assert(batch_rows(schema.bucket_types(b), bucket_columns_of(schema, map, batch, b)) =~= members_rows(
        schema,
        rows_of_batch(schema, map, *batch),
        b,
    ));
}

/// The columns of a bucket in a batch.
pub fn bucket_column_refs<'a>(schema: &MosaicSchema, batch_col_map: &Vec<usize>, batch: &'a ColumnBatch, b: usize) -> (refs: Vec<
    &'a Column,
>)
    requires
        schema.wf(),
        b < schema.num_buckets,
        batch.columns@.len() == schema.columns@.len(),
        batch_col_map@.len() == schema.columns@.len(),
        forall|i: int| 0 <= i < batch_col_map@.len() ==> (#[trigger] batch_col_map@[i]) < schema.columns@.len(),
    ensures
        refs@ == bucket_columns_of(*schema, batch_col_map@, batch, b as int),
{
    let mut refs: Vec<&'a Column> = Vec::new();
    let mut k: usize = 0;
    proof {
        assert(schema.bucket_ok(b as int));
    }
    while k < schema.bucket_to_global[b].len()
        invariant
            schema.bucket_to_global@.len() == schema.num_buckets,
            b < schema.num_buckets,
            k <= schema.bucket_to_global@[b as int]@.len(),
            schema.bucket_ok(b as int),
            batch.columns@.len() == schema.columns@.len(),
            batch_col_map@.len() == schema.columns@.len(),
            forall|i: int| 0 <= i < batch_col_map@.len() ==> (#[trigger] batch_col_map@[i]) < schema.columns@.len(),
            refs@.len() == k,
            forall|i: int| 0 <= i < k ==> #[trigger] refs@[i] == bucket_columns_of(*schema, batch_col_map@, batch, b as int)[i],
        decreases schema.bucket_to_global@[b as int]@.len() - k,
    {
        let g: usize = schema.bucket_to_global[b][k];
        assert(schema.bucket_to_global@[b as int]@[k as int] < schema.columns@.len());
        assert(batch_col_map@[g as int] < schema.columns@.len());
        refs.push(&batch.columns[batch_col_map[g]]);
        k += 1;
    }
    assert(refs@ =~= bucket_columns_of(*schema, batch_col_map@, batch, b as int));
    refs
}

} // verus!
