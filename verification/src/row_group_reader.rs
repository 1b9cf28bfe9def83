//! Reading the rows of a row group.
use std::sync::Arc;
use vstd::prelude::*;
use crate::bucket_reader::{build_all_null_array, lemma_physical_leaves, logical_rows, ColumnPageReader};
use crate::bucket_writer::{expand_col_types, physical_types, plain_types, shape_error};
use crate::column::{consistent, leaf_matches, rows_of, Column, Row};
use crate::encoded_column::{value_views, EncodedColumn, EncodedColumnView};
use crate::error::Error;
use crate::reassemble::{all_assembled, physical_ok, physical_rows, reassemble_list_columns_pub};
use crate::row_group::{page_views, slots_ok, state_views, states_ok, BucketState, BucketStateView};
use crate::schema::{FieldSpec, MosaicSchema};
use crate::types::{is_container, is_container_type, physical_type, DataType};
use crate::values::{copy_values, Value};
use crate::visitor::{all_answered, all_taken, is_visit, takes, ColumnClosure, ColumnVisitor, VisitedColumn};

verus! {

// ---------------------------------------------------------------- places in buckets

/// Column `g` is at place `k` of bucket `b`, and at no later place.
pub open spec fn last_place(buckets: Seq<Vec<usize>>, g: int, b: int, k: int) -> bool {
    &&& 0 <= b < buckets.len()
    &&& 0 <= k < buckets[b]@.len()
    &&& buckets[b]@[k] == g
    &&& forall|c: int, j: int|
        #![trigger buckets[c]@[j]]
        0 <= c < buckets.len() && 0 <= j < buckets[c]@.len() && buckets[c]@[j] == g ==> c < b || (c == b && j <= k)
}

pub open spec fn placed_in(buckets: Seq<Vec<usize>>, g: int) -> bool {
    exists|b: int, k: int| 0 <= b < buckets.len() && 0 <= k < buckets[b]@.len() && #[trigger] buckets[b]@[k] == g
}

/// Column `g` is found at place `k` among the first buckets, up to place `n` of bucket `m`.
spec fn found_before(buckets: Seq<Vec<usize>>, g: int, m: int, n: int, place: usize) -> bool {
    ||| place == usize::MAX && forall|c: int, j: int|
        #![trigger buckets[c]@[j]]
        0 <= c < buckets.len() && 0 <= j < buckets[c]@.len() && (c < m || (c == m && j < n)) ==> buckets[c]@[j] != g
    ||| exists|b: int|
        #![trigger buckets[b]]
        0 <= b < buckets.len() && place < buckets[b]@.len() && (b < m || (b == m && place < n)) && buckets[b]@[place as int] == g
            && forall|c: int, j: int|
            #![trigger buckets[c]@[j]]
            0 <= c < buckets.len() && 0 <= j < buckets[c]@.len() && (c < m || (c == m && j < n)) && buckets[c]@[j] == g ==> c < b || (c
                == b && j <= place)
}

/// Where each column stands in its bucket; `usize::MAX` for a column that is in none.
pub fn build_global_to_local(num_columns: usize, bucket_to_global: &[Vec<usize>]) -> (global_to_local: Vec<usize>)
    ensures
        global_to_local@.len() == num_columns,
        forall|g: int|
            0 <= g < num_columns ==> (#[trigger] global_to_local@[g] == usize::MAX && !placed_in(bucket_to_global@, g)) || exists|b: int|
                #[trigger] last_place(bucket_to_global@, g, b, global_to_local@[g] as int),
{
    let mut global_to_local: Vec<usize> = vec![usize::MAX; num_columns];
    let ghost buckets = bucket_to_global@;
    let mut b: usize = 0;
    while b < bucket_to_global.len()
        invariant
            b <= bucket_to_global@.len(),
            buckets == bucket_to_global@,
            global_to_local@.len() == num_columns,
            forall|g: int| 0 <= g < num_columns ==> found_before(buckets, g, b as int, 0, #[trigger] global_to_local@[g]),
        decreases bucket_to_global@.len() - b,
    {
        let mut k: usize = 0;
        while k < bucket_to_global[b].len()
            invariant
                b < bucket_to_global@.len(),
                buckets == bucket_to_global@,
                k <= buckets[b as int]@.len(),
                global_to_local@.len() == num_columns,
                forall|g: int| 0 <= g < num_columns ==> found_before(buckets, g, b as int, k as int, #[trigger] global_to_local@[g]),
            decreases buckets[b as int]@.len() - k,
        {
            let column: usize = bucket_to_global[b][k];
            let ghost before = global_to_local@;
            if column < num_columns {
                global_to_local.set(column, k);
            }
            proof {
                assert forall|g: int| 0 <= g < num_columns implies found_before(
                    buckets,
                    g,
                    b as int,
                    k + 1,
                    #[trigger] global_to_local@[g],
                ) by {
                    assert(buckets[b as int]@[k as int] == column);
                    if g == column {
                        let own = buckets[b as int];
                        assert(own@[k as int] == g);
                    } else {
                        assert(global_to_local@[g] == before[g]);
                        assert(found_before(buckets, g, b as int, k as int, before[g]));
                    }
                }
            }
            k += 1;
        }
        proof {
            assert forall|g: int| 0 <= g < num_columns implies found_before(buckets, g, b + 1, 0, #[trigger] global_to_local@[g]) by {
                assert(found_before(buckets, g, b as int, k as int, global_to_local@[g]));
            }
        }
        b += 1;
    }
    proof {
        assert forall|g: int| 0 <= g < num_columns implies (#[trigger] global_to_local@[g] == usize::MAX && !placed_in(
            bucket_to_global@,
            g,
        )) || exists|b: int| #[trigger] last_place(bucket_to_global@, g, b, global_to_local@[g] as int) by {
            let place = global_to_local@[g];
            assert(found_before(buckets, g, b as int, 0, place));
            if placed_in(buckets, g) || place != usize::MAX {
                let c = choose|c: int|
                    #![trigger buckets[c]]
                    0 <= c < buckets.len() && place < buckets[c]@.len() && (c < b || (c == b && place < 0)) && buckets[c]@[place as int]
                        == g && forall|d: int, j: int|
                        #![trigger buckets[d]@[j]]
                        0 <= d < buckets.len() && 0 <= j < buckets[d]@.len() && (d < b || (d == b && j < 0)) && buckets[d]@[j] == g ==> d
                            < c || (d == c && j <= place);
                assert(last_place(buckets, g, c, place as int));
            }
        }
    }
    global_to_local
}

// ---------------------------------------------------------------- rows of a bucket

/// The rows of the first `n` physical columns of a bucket; one that was not read is null throughout.
pub open spec fn slot_rows(slots: Seq<Option<EncodedColumnView>>, num_primary: int, num_rows: nat, n: nat) -> Result<Seq<Seq<Row>>, Error>
    decreases n,
{
    if n == 0 {
        Ok(Seq::empty())
    } else {
        match slot_rows(slots, num_primary, num_rows, (n - 1) as nat) {
            Err(e) => Err(e),
            Ok(done) => match slots[n - 1] {
                Some(column) => match column.rows_result() {
                    Err(e) => Err(e),
                    Ok(rows) => Ok(done.push(rows)),
                },
                None => Ok(done.push(null_rows_of(unread_rows(n - 1, num_primary, num_rows)))),
            },
        }
    }
}

/// How many rows a physical column counts for that was not read.
pub open spec fn unread_rows(i: int, num_primary: int, num_rows: nat) -> nat {
    if i < num_primary {
        num_rows
    } else {
        0
    }
}

pub open spec fn null_rows_of(n: nat) -> Seq<Row> {
    Seq::new(n, |i: int| Row::Null)
}

/// The rows of the columns of a bucket.
pub open spec fn bucket_result(types: Seq<DataType>, state: BucketStateView, num_rows: nat) -> Result<Seq<Seq<Row>>, Error> {
    match state {
        BucketStateView::Monolithic { columns, lacks_data } => if lacks_data {
            Err(Error::BucketTruncated)
        } else {
            logical_rows(types, columns)
        },
        BucketStateView::Paged { slots } => match slot_rows(slots, types.len() as int, num_rows, slots.len()) {
            Err(e) => Err(e),
            Ok(physical) => all_assembled(types, physical, types.len()),
        },
    }
}

/// The columns hold the given rows.
pub open spec fn columns_hold(types: Seq<DataType>, columns: Seq<Column>, rows: Seq<Seq<Row>>) -> bool {
    &&& columns.len() == types.len()
    &&& rows.len() == types.len()
    &&& forall|i: int|
        0 <= i < columns.len() ==> consistent(#[trigger] columns[i]) && shape_error(types[i], columns[i]) is None && (
        !is_container_type(types[i]) ==> leaf_matches(types[i], columns[i].values)) && rows_of(types[i], columns[i]) == rows[i]
}

proof fn lemma_slot_rows_error(slots: Seq<Option<EncodedColumnView>>, num_primary: int, num_rows: nat, n: nat, m: nat)
    requires
        n <= m,
        slot_rows(slots, num_primary, num_rows, n) is Err,
    ensures
        slot_rows(slots, num_primary, num_rows, m) == slot_rows(slots, num_primary, num_rows, n),
    decreases m,
{
    if n < m {
        lemma_slot_rows_error(slots, num_primary, num_rows, n, (m - 1) as nat);
    }
}

/// Reads the physical columns of a bucket with slots.
fn read_slots(readers: &Vec<Option<ColumnPageReader>>, physical: &Vec<DataType>, num_primary: usize, num_rows: usize) -> (result: Result<
    Vec<Column>,
    Error,
>)
    requires
        readers@.len() == physical@.len(),
        slots_ok(readers@, physical@),
        forall|j: int| 0 <= j < physical@.len() ==> !is_container_type(#[trigger] physical@[j]),
    ensures
        result matches Ok(columns) ==> physical_ok(physical@, columns@) && slot_rows(
            page_views(readers@),
            num_primary as int,
            num_rows as nat,
            readers@.len(),
        ) == Ok::<Seq<Seq<Row>>, Error>(physical_rows(physical@, columns@)),
        result matches Err(e) ==> slot_rows(page_views(readers@), num_primary as int, num_rows as nat, readers@.len()) == Err::<
            Seq<Seq<Row>>,
            Error,
        >(e),
{
    let ghost slots = page_views(readers@);
    let mut columns: Vec<Column> = Vec::new();
    let mut i: usize = 0;
    assert(physical_rows(physical@, columns@) =~= Seq::empty());
    while i < readers.len()
        invariant
            i <= readers@.len(),
            readers@.len() == physical@.len(),
            slots == page_views(readers@),
            slots_ok(readers@, physical@),
            forall|j: int| 0 <= j < physical@.len() ==> !is_container_type(#[trigger] physical@[j]),
            columns@.len() == i,
            forall|k: int|
                0 <= k < i ==> consistent(#[trigger] columns@[k]) && leaf_matches(physical@[k], columns@[k].values),
            slot_rows(slots, num_primary as int, num_rows as nat, i as nat) == Ok::<Seq<Seq<Row>>, Error>(
                physical_rows(physical@, columns@),
            ),
        decreases readers@.len() - i,
    {
        let ghost before = physical_rows(physical@, columns@);
        let ghost reader_view = slots[i as int];
        assert(!is_container_type(physical@[i as int]));
        match &readers[i] {
            Some(reader) => {
                match reader.read_all() {
                    Ok(column) => {
                        columns.push(column);
                        assert(physical_rows(physical@, columns@) =~= before.push(rows_of(physical@[i as int], column)));
                    },
                    Err(e) => {
                        proof {
                            lemma_slot_rows_error(slots, num_primary as int, num_rows as nat, (i + 1) as nat, slots.len());
                        }
                        return Err(e);
                    },
                }
            },
            None => {
                let rows: usize = if i < num_primary {
                    num_rows
                } else {
                    0
                };
                let column: Column = build_all_null_array(&physical[i], rows);
                assert(rows_of(physical@[i as int], column) =~= null_rows_of(rows as nat));
                columns.push(column);
                assert(physical_rows(physical@, columns@) =~= before.push(rows_of(physical@[i as int], column)));
            },
        }
        i += 1;
    }
    Ok(columns)
}

/// Reads the columns of a bucket.
fn read_bucket(state: &BucketState, refs: &Vec<&DataType>, num_rows: usize) -> (result: Result<Vec<Column>, Error>)
    requires
        state.wf(plain_types(refs@)),
    ensures
        match bucket_result(plain_types(refs@), state@, num_rows as nat) {
            Ok(rows) => result matches Ok(columns) && columns_hold(plain_types(refs@), columns@, rows),
            Err(e) => result == Err::<Vec<Column>, Error>(e),
        },
{
    match state {
        BucketState::Monolithic { reader } => reader.read_all_columns(),
        BucketState::Paged { column_readers } => {
            let (physical, _) = expand_col_types(refs.as_slice());
            proof {
                lemma_physical_leaves(plain_types(refs@));
            }
            assert(plain_types(refs@).len() == refs@.len());
            match read_slots(column_readers, &physical, refs.len(), num_rows) {
                Err(e) => Err(e),
                Ok(columns) => reassemble_list_columns_pub(columns, refs.as_slice()),
            }
        },
    }
}

// ---------------------------------------------------------------- row groups

/// The columns of a row group that were read.
pub struct RowGroupReader {
    bucket_states: Vec<Option<BucketState>>,
    global_to_local: Vec<usize>,
    schema: Arc<MosaicSchema>,
    num_rows: usize,
    projected_columns: Vec<bool>,
    output_order: Vec<usize>,
}

/// Columns with the fields that they are of.
pub struct ColumnBatch {
    pub fields: Vec<FieldSpec>,
    pub columns: Vec<Column>,
    pub num_rows: usize,
}

pub open spec fn schema_types(schema: MosaicSchema) -> Seq<Seq<DataType>> {
    Seq::new(schema.bucket_to_global@.len(), |b: int| schema.bucket_types(b))
}

/// The columns of the first `n` places of an order that a condition holds of, each once.
pub open spec fn listed(order: Seq<usize>, wanted: Seq<bool>, n: nat) -> Seq<usize>
    decreases n,
{
    if n == 0 {
        Seq::empty()
    } else {
        let before = listed(order, wanted, (n - 1) as nat);
        let g = order[n - 1];
        if wanted[g as int] && !before.contains(g) {
            before.push(g)
        } else {
            before
        }
    }
}

/// The columns that are listed are those that are asked for and wanted, each once, in the order in
/// which they are first asked for: whatever is asked for before a column, and is wanted, is listed
/// before it.
pub proof fn columns_are_listed_once(order: Seq<usize>, wanted: Seq<bool>, n: nat)
    requires
        n <= order.len(),
    ensures
        listed(order, wanted, n).no_duplicates(),
        forall|i: int| 0 <= i < n && wanted[#[trigger] order[i] as int] ==> listed(order, wanted, n).contains(order[i]),
        forall|j: int|
            0 <= j < listed(order, wanted, n).len() ==> wanted[#[trigger] listed(order, wanted, n)[j] as int] && exists|p: int|
                0 <= p < n && #[trigger] order[p] == listed(order, wanted, n)[j] && forall|q: int|
                    0 <= q < p && wanted[#[trigger] order[q] as int] ==> listed(order, wanted, n).take(j).contains(order[q]),
    decreases n,
{
    if n > 0 {
        let before = listed(order, wanted, (n - 1) as nat);
        let after = listed(order, wanted, n);
        let g = order[n - 1];
        columns_are_listed_once(order, wanted, (n - 1) as nat);
        assert(before.len() <= after.len());
        assert forall|i: int| 0 <= i < n && wanted[#[trigger] order[i] as int] implies after.contains(order[i]) by {
            if i < n - 1 {
                assert(before.contains(order[i]));
                let j = choose|j: int| 0 <= j < before.len() && before[j] == order[i];
                assert(after[j] == order[i]);
            } else if after.len() > before.len() {
                assert(after[before.len() as int] == g);
            }
        }
        assert forall|j: int| 0 <= j < after.len() implies wanted[#[trigger] after[j] as int] && exists|p: int|
            0 <= p < n && #[trigger] order[p] == after[j] && forall|q: int|
                0 <= q < p && wanted[#[trigger] order[q] as int] ==> after.take(j).contains(order[q]) by {
            if j < before.len() {
                assert(after[j] == before[j]);
                assert(after.take(j) =~= before.take(j));
                let p = choose|p: int|
                    0 <= p < n - 1 && #[trigger] order[p] == before[j] && forall|q: int|
                        0 <= q < p && wanted[#[trigger] order[q] as int] ==> before.take(j).contains(order[q]);
                assert(order[p] == after[j]);
            } else {
                assert(after.take(j) =~= before);
                assert(order[n - 1] == after[j]);
            }
        }
    }
}

impl RowGroupReader {
    pub closed spec fn states(&self) -> Seq<Option<BucketStateView>> {
        state_views(self.bucket_states@)
    }

    pub closed spec fn schema_of(&self) -> MosaicSchema {
        *self.schema
    }

    pub closed spec fn rows(&self) -> nat {
        self.num_rows as nat
    }

    pub closed spec fn projected(&self) -> Seq<bool> {
        self.projected_columns@
    }

    pub closed spec fn order(&self) -> Seq<usize> {
        self.output_order@
    }

    pub closed spec fn wf(&self) -> bool {
        &&& self.schema.wf()
        &&& states_ok(self.bucket_states@, schema_types(*self.schema))
        &&& self.projected_columns@.len() == self.schema.columns@.len()
        &&& forall|i: int| 0 <= i < self.output_order@.len() ==> (#[trigger] self.output_order@[i]) < self.schema.columns@.len()
        &&& self.global_to_local@.len() == self.schema.columns@.len()
        &&& forall|g: int|
            #![trigger self.global_to_local@[g]]
            0 <= g < self.schema.columns@.len() ==> is_place(*self.schema, g, self.global_to_local@[g] as int)
    }

    /// The column of a bucket whose state is known, if it is asked for.
    pub open spec fn available(&self) -> Seq<bool> {
        Seq::new(
            self.schema_of().columns@.len(),
            |g: int| self.projected()[g] && self.states()[self.schema_of().columns@[g].bucket_id as int] is Some,
        )
    }
}

/// Column `g` is at place `k` of its bucket.
pub open spec fn is_place(schema: MosaicSchema, g: int, k: int) -> bool {
    let members = schema.bucket_to_global@[schema.columns@[g].bucket_id as int]@;
    0 <= k < members.len() && members[k] == g
}

/// The place of a column in its bucket.
pub open spec fn place_of(schema: MosaicSchema, g: int) -> int {
    choose|k: int| is_place(schema, g, k)
}

pub proof fn lemma_place(schema: MosaicSchema, g: int, k: int)
    requires
        schema.wf(),
        0 <= g < schema.columns@.len(),
        is_place(schema, g, k),
    ensures
        place_of(schema, g) == k,
        schema.columns@[g].bucket_id < schema.num_buckets,
{
    assert(schema.column_placed(g));
    let b = schema.columns@[g].bucket_id as int;
    assert(schema.bucket_ok(b));
    let members = schema.bucket_to_global@[b]@;
    let j = place_of(schema, g);
    assert(is_place(schema, g, j));
    if j < k {
        assert(members[j] < members[k]);
    } else if k < j {
        assert(members[k] < members[j]);
    }
}

proof fn lemma_local(schema: &MosaicSchema, g: int, b: int, k: int)
    requires
        schema.wf(),
        0 <= g < schema.columns@.len(),
        last_place(schema.bucket_to_global@, g, b, k),
    ensures
        is_place(*schema, g, k),
{
    assert(schema.bucket_ok(b));
    assert(schema.bucket_to_global@[b]@[k] == g);
}

impl RowGroupReader {
    pub(crate) fn new(
        bucket_states: Vec<Option<BucketState>>,
        schema: Arc<MosaicSchema>,
        num_rows: usize,
        projected_columns: Vec<bool>,
        output_order: Vec<usize>,
    ) -> (reader: Self)
        requires
            schema.wf(),
            states_ok(bucket_states@, schema_types(*schema)),
            projected_columns@.len() == schema.columns@.len(),
            forall|i: int| 0 <= i < output_order@.len() ==> (#[trigger] output_order@[i]) < schema.columns@.len(),
        ensures
            reader.wf(),
            reader.states() == state_views(bucket_states@),
            reader.schema_of() == *schema,
            reader.rows() == num_rows,
            reader.projected() == projected_columns@,
            reader.order() == output_order@,
    {
        let global_to_local: Vec<usize> = build_global_to_local(schema.columns.len(), schema.bucket_to_global.as_slice());
        assert forall|g: int|
            #![trigger global_to_local@[g]]
            0 <= g < schema.columns@.len() implies is_place(*schema, g, global_to_local@[g] as int) by {
            assert(schema.column_placed(g));
            let c = schema.columns@[g].bucket_id as int;
            let members = schema.bucket_to_global@[c]@;
            let j = choose|j: int| 0 <= j < members.len() && members[j] == g as usize;
            assert(schema.bucket_to_global@[c]@[j] == g);
            assert(placed_in(schema.bucket_to_global@, g));
            let b = choose|b: int| #[trigger] last_place(schema.bucket_to_global@, g, b, global_to_local@[g] as int);
            lemma_local(&*schema, g, b, global_to_local@[g] as int);
        }
        RowGroupReader { bucket_states, global_to_local, schema, num_rows, projected_columns, output_order }
    }

    pub fn num_rows(&self) -> (rows: usize)
        ensures
            rows == self.rows(),
    {
        self.num_rows
    }

    /// The column as it is stored, or why there is none.
    pub open spec fn stored_column(&self, g: int) -> Result<EncodedColumnView, Error> {
        let schema = self.schema_of();
        let b = schema.columns@[g].bucket_id;
        match self.states()[b as int] {
            None => Err(Error::BucketNotLoaded { bucket: b }),
            Some(BucketStateView::Monolithic { columns, lacks_data }) => Ok(columns[place_of(schema, g)]),
            Some(BucketStateView::Paged { slots }) => match slots[place_of(schema, g)] {
                Some(column) => Ok(column),
                None => Err(Error::ColumnMissingFromPagedBucket { column: g as usize, bucket: b }),
            },
        }
    }

    /// The column as it is stored. Of a list or map it is the one with the lengths.
    pub fn encoded_column(&self, column: usize) -> (result: Result<EncodedColumn<'_>, Error>)
        requires
            self.wf(),
            column < self.schema_of().columns@.len(),
        ensures
            match self.stored_column(column as int) {
                Ok(view) => result matches Ok(encoded) && encoded@ == view && view.wf(),
                Err(e) => result matches Err(x) && x == e,
            },
    {
        let bucket: usize = self.schema.columns[column].bucket_id;
        let local: usize = self.global_to_local[column];
        proof {
            assert(is_place(*self.schema, column as int, self.global_to_local@[column as int] as int));
            lemma_place(self.schema_of(), column as int, local as int);
            assert(self.schema.bucket_ok(bucket as int));
            lemma_state(self.schema_of(), self.bucket_states@, bucket as int);
        }
        match &self.bucket_states[bucket] {
            None => Err(Error::BucketNotLoaded { bucket }),
            Some(state) => match state {
                BucketState::Monolithic { reader } => {
                    assert(reader.columns()[local as int].wf());
                    reader.encoded_column(local)
                },
                BucketState::Paged { column_readers } => {
                    assert(column_readers@[local as int] matches Some(r) ==> r@.readable());
                    assert(page_views(column_readers@)[local as int] is Some == column_readers@[local as int] is Some);
                    match &column_readers[local] {
                        None => Err(Error::ColumnMissingFromPagedBucket { column, bucket }),
                        Some(reader) => Ok(reader.encoded_column()),
                    }
                },
            },
        }
    }

    /// A stored column has the type that the schema tells; of a list or map it is the one of the
    /// lengths.
    pub proof fn stored_type(&self, g: int)
        requires
            self.wf(),
            0 <= g < self.schema_of().columns@.len(),
        ensures
            self.stored_column(g) matches Ok(c) ==> c.wf() && c.dt == physical_type(self.schema_of().columns@[g].data_type),
    {
        let schema = self.schema_of();
        let b = schema.columns@[g].bucket_id as int;
        let k = self.global_to_local@[g] as int;
        assert(is_place(schema, g, k));
        lemma_place(schema, g, k);
        assert(schema.bucket_ok(b));
        lemma_state(schema, self.bucket_states@, b);
        assert(schema.bucket_types(b)[k] == schema.columns@[g].data_type);
        assert(physical_types(schema.bucket_types(b))[k] == physical_type(schema.bucket_types(b)[k]));
        match self.bucket_states@[b] {
            None => {},
            Some(BucketState::Monolithic { reader }) => {
                assert(reader.columns()[k].wf());
            },
            Some(BucketState::Paged { column_readers }) => {
                assert(column_readers@[k] matches Some(r) ==> r@.readable());
            },
        }
    }

    /// The columns that are visited are columns of the schema, and none of them is a list or map
    /// where that is no error.
    pub proof fn visited_columns(&self, n: nat)
        requires
            self.wf(),
            n <= self.order().len(),
        ensures
            forall|k: int|
                0 <= k < listed(self.order(), self.projected(), n).len() ==> (#[trigger] listed(self.order(), self.projected(), n)[k])
                    < self.schema_of().columns@.len() && (self.nested_error() is None ==> !is_container_type(
                    self.schema_of().columns@[listed(self.order(), self.projected(), n)[k] as int].data_type,
                )),
        decreases n,
    {
        if n > 0 {
            self.visited_columns((n - 1) as nat);
            let i = n - 1;
            assert(self.output_order@[i] < self.schema.columns@.len());
            if self.nested_at(i) {
                self.lemma_nested(i);
            }
        }
    }

    pub proof fn lemma_nested(&self, i: int)
        requires
            0 <= i < self.order().len(),
            self.nested_at(i),
        ensures
            self.nested_error() is Some,
        decreases i,
    {
        if self.first_nested(i) {
        } else {
            let j = choose|j: int| 0 <= j < i && #[trigger] self.nested_at(j);
            self.lemma_nested(j);
        }
    }

    /// The entries of the dictionary of a column; nothing of a column without one.
    pub fn take_dictionary(&self, global_col: usize) -> (dictionary: Option<Vec<Value>>)
        requires
            self.wf(),
            global_col < self.schema_of().columns@.len(),
        ensures
            match self.stored_column(global_col as int) {
                Ok(column) => if column.dict.len() == 0 {
                    dictionary is None
                } else {
                    dictionary matches Some(values) && value_views(values@) == column.dict
                },
                Err(_) => dictionary is None,
            },
    {
        let bucket: usize = self.schema.columns[global_col].bucket_id;
        let local: usize = self.global_to_local[global_col];
        proof {
            assert(is_place(*self.schema, global_col as int, self.global_to_local@[global_col as int] as int));
            lemma_place(self.schema_of(), global_col as int, local as int);
            assert(self.schema.bucket_ok(bucket as int));
            lemma_state(self.schema_of(), self.bucket_states@, bucket as int);
        }
        let values: &[Value] = match &self.bucket_states[bucket] {
            None => {
                return None;
            },
            Some(state) => match state {
                BucketState::Monolithic { reader } => reader.dict_values(local),
                BucketState::Paged { column_readers } => {
                    assert(page_views(column_readers@)[local as int] is Some == column_readers@[local as int] is Some);
                    match &column_readers[local] {
                        None => {
                            return None;
                        },
                        Some(reader) => reader.dict_values(),
                    }
                },
            },
        };
        assert(value_views(values@).len() == values@.len());
        if values.len() == 0 {
            None
        } else {
            let copies: Vec<Value> = copy_values(values);
            assert(value_views(copies@) =~= value_views(values@));
            Some(copies)
        }
    }
}

proof fn lemma_state(schema: MosaicSchema, states: Seq<Option<BucketState>>, b: int)
    requires
        schema.wf(),
        states_ok(states, schema_types(schema)),
        0 <= b < schema.num_buckets,
    ensures
        states.len() == schema.num_buckets,
        states[b] matches Some(state) ==> state.wf(schema.bucket_types(b)) && state_views(states)[b] == Some(state@),
        states[b] is None ==> state_views(states)[b] is None,
        physical_types(schema.bucket_types(b)).len() >= schema.bucket_to_global@[b]@.len(),
{
    let state = states[b];
}

// ---------------------------------------------------------------- visiting

impl RowGroupReader {
    /// The columns that are visited: those that are asked for, in the order asked for, each once.
    pub open spec fn visited(&self) -> Seq<usize> {
        listed(self.order(), self.projected(), self.order().len())
    }

    /// Place `i` of the order is the first one of a list or map that is asked for.
    pub open spec fn first_nested(&self, i: int) -> bool {
        &&& 0 <= i < self.order().len()
        &&& self.nested_at(i)
        &&& forall|j: int| 0 <= j < i ==> !#[trigger] self.nested_at(j)
    }

    pub open spec fn nested_at(&self, i: int) -> bool {
        let g = self.order()[i] as int;
        self.projected()[g] && is_container_type(self.schema_of().columns@[g].data_type)
    }

    /// The first list or map that is asked for cannot be handed over as it is stored.
    pub open spec fn nested_error(&self) -> Option<Error> {
        if exists|i: int| #[trigger] self.first_nested(i) {
            let i = choose|i: int| #[trigger] self.first_nested(i);
            Some(Error::NestedEncodedColumn { name: self.schema_of().columns@[self.order()[i] as int].name })
        } else {
            None
        }
    }

    /// The first list or map that is asked for.
    fn find_nested(&self) -> (found: Option<usize>)
        requires
            self.wf(),
        ensures
            match found {
                Some(i) => self.first_nested(i as int),
                None => forall|j: int| 0 <= j < self.order().len() ==> !#[trigger] self.nested_at(j),
            },
    {
        let mut i: usize = 0;
        while i < self.output_order.len()
            invariant
                i <= self.output_order@.len(),
                self.wf(),
                forall|j: int| 0 <= j < i ==> !#[trigger] self.nested_at(j),
            decreases self.output_order@.len() - i,
        {
            let g: usize = self.output_order[i];
            assert(self.output_order@[i as int] < self.schema.columns@.len());
            if self.projected_columns[g] && is_container(&self.schema.columns[g].data_type) {
                assert(self.nested_at(i as int));
                return Some(i);
            }
            assert(!self.nested_at(i as int));
            i += 1;
        }
        None
    }

    /// The columns to visit, in order.
    pub fn visit_order(&self) -> (columns: Vec<usize>)
        requires
            self.wf(),
        ensures
            columns@ == self.visited(),
            forall|k: int| 0 <= k < columns@.len() ==> (#[trigger] columns@[k]) < self.schema_of().columns@.len(),
    {
        let n: usize = self.schema.columns.len();
        let mut seen: Vec<bool> = vec![false; n];
        let mut columns: Vec<usize> = Vec::new();
        let mut i: usize = 0;
        while i < self.output_order.len()
            invariant
                i <= self.output_order@.len(),
                self.wf(),
                n == self.schema.columns@.len(),
                seen@.len() == n,
                columns@ == listed(self.order(), self.projected(), i as nat),
                forall|k: int| 0 <= k < columns@.len() ==> (#[trigger] columns@[k]) < n,
                forall|g: int|
                    0 <= g < n && self.projected()[g] ==> #[trigger] seen@[g] == columns@.contains(g as usize),
            decreases self.output_order@.len() - i,
        {
            let g: usize = self.output_order[i];
            assert(self.output_order@[i as int] < n);
            let ghost before = columns@;
            let ghost seen_before = seen@;
            if !seen[g] {
                seen.set(g, true);
                if self.projected_columns[g] {
                    columns.push(g);
                }
            }
            proof {
                assert forall|h: int| 0 <= h < n && self.projected()[h] implies #[trigger] seen@[h] == columns@.contains(h as usize) by {
                    if columns@.len() > before.len() {
                        assert(columns@[before.len() as int] == g);
                        if before.contains(h as usize) {
                            let k = choose|k: int| 0 <= k < before.len() && before[k] == h as usize;
                            assert(columns@[k] == h as usize);
                        }
                        if h != g && columns@.contains(h as usize) {
                            let k = choose|k: int| 0 <= k < columns@.len() && columns@[k] == h as usize;
                            assert(before[k] == h as usize);
                        }
                    }
                }
            }
            i += 1;
        }
        columns
    }

    /// The columns that are handed over as they are stored, in order; none if there is a list or map
    /// among them.
    pub fn encoded_columns(&self) -> (result: Result<Vec<usize>, Error>)
        requires
            self.wf(),
        ensures
            match self.nested_error() {
                Some(e) => result == Err::<Vec<usize>, Error>(e),
                None => result matches Ok(columns) && columns@ == self.visited() && (forall|k: int|
                    0 <= k < columns@.len() ==> (#[trigger] columns@[k]) < self.schema_of().columns@.len()),
            },
    {
        match self.find_nested() {
            Some(i) => {
                proof {
                    assert(self.first_nested(i as int));
                    assert forall|j: int| #[trigger] self.first_nested(j) implies j == i by {
                        assert(self.nested_at(i as int) && self.nested_at(j));
                    }
                }
                assert(self.output_order@[i as int] < self.schema.columns@.len());
                return Err(Error::NestedEncodedColumn { name: self.schema.columns[self.output_order[i]].name.clone() });
            },
            None => {
                assert forall|j: int| !#[trigger] self.first_nested(j) by {
                    if self.first_nested(j) {
                        assert(self.nested_at(j));
                    }
                }
            },
        }
        Ok(self.visit_order())
    }

    /// The columns of the file.
    pub fn schema(&self) -> (schema: &MosaicSchema)
        requires
            self.wf(),
        ensures
            *schema == self.schema_of(),
    {
        &self.schema
    }

    /// Column `g` as it is handed to a visitor, where it can be.
    pub open spec fn visited_column(&self, g: int) -> Result<VisitedColumn, Error> {
        match self.stored_column(g) {
            Err(e) => Err(e),
            Ok(column) => Ok(
                VisitedColumn {
                    name: self.schema_of().columns@[g].name@,
                    data_type: self.schema_of().columns@[g].data_type,
                    nullable: self.schema_of().columns@[g].nullable,
                    column,
                },
            ),
        }
    }

    /// The columns to hand to a visitor: each that is asked for once, in the order of the requests.
    pub open spec fn handed_columns(&self) -> Seq<Result<VisitedColumn, Error>> {
        Seq::new(self.visited().len(), |k: int| self.visited_column(self.visited()[k] as int))
    }

    /// Hands each column that is asked for to `visitor` as it is stored, once and in order. Lists and
    /// maps are refused before the first one is handed over.
    pub fn visit_encoded_columns_with<V: ColumnVisitor>(&self, visitor: &mut V) -> (result: Result<(), Error>)
        requires
            self.wf(),
            old(visitor).is_ready(),
        ensures
            final(visitor).is_ready(),
            self.nested_error() matches Some(e) ==> result == Err::<(), Error>(e) && *final(visitor) == *old(visitor),
            self.nested_error() is None ==> exists|calls: Seq<(VisitedColumn, Result<(), Error>)>|
                final(visitor).calls() == old(visitor).calls() + calls && all_answered(old(visitor).answers(), calls)
                    && #[trigger] is_visit(self.handed_columns(), calls, Ok::<(), Error>(()), result),
    {
        let columns: Vec<usize> = match self.encoded_columns() {
            Ok(columns) => columns,
            Err(e) => {
                return Err(e);
            },
        };
        let ghost things = self.handed_columns();
        let ghost start = visitor.calls();
        let ghost mut calls: Seq<(VisitedColumn, Result<(), Error>)> = Seq::empty();
        assert(start + calls =~= start);
        let mut k: usize = 0;
        while k < columns.len()
            invariant
                k <= columns@.len(),
                k == calls.len(),
                self.wf(),
                columns@ == self.visited(),
                forall|k: int| 0 <= k < columns@.len() ==> (#[trigger] columns@[k]) < self.schema_of().columns@.len(),
                self.nested_error() is None,
                things == self.handed_columns(),
                visitor.is_ready(),
                start == old(visitor).calls(),
                visitor.calls() == start + calls,
                visitor.answers() == old(visitor).answers(),
                all_answered(old(visitor).answers(), calls),
                all_taken(things, calls),
            decreases columns@.len() - k,
        {
            let g: usize = columns[k];
            assert(columns@[k as int] < self.schema_of().columns@.len());
            assert(things[k as int] == self.visited_column(g as int));
            match self.encoded_column(g) {
                Err(e) => {
                    assert(is_visit(things, calls, Ok::<(), Error>(()), Err(e)));
                    return Err(e);
                },
                Ok(encoded) => {
                    let meta: &crate::schema::ColumnMeta = &self.schema.columns[g];
                    let answer: Result<(), Error> = visitor.visit(meta.name.as_str(), &meta.data_type, meta.nullable, encoded);
                    proof {
                        let before = calls;
                        calls = before.push((things[k as int]->Ok_0, answer));
                        assert(visitor.calls() =~= start + calls);
                        assert forall|j: int| 0 <= j < calls.len() - 1 implies (#[trigger] calls[j]).1 is Ok by {
                            assert(calls[j] == before[j]);
                        }
                        assert forall|j: int| 0 <= j < calls.len() implies things[j] == Ok::<VisitedColumn, Error>((#[trigger] calls[j]).0) by {
                            if j < before.len() {
                                assert(calls[j] == before[j]);
                            }
                        }
                    }
                    match answer {
                        Err(e) => {
                            assert(is_visit(things, calls, Ok::<(), Error>(()), Err(e)));
                            return Err(e);
                        },
                        Ok(_) => {},
                    }
                },
            }
            k += 1;
        }
        assert(is_visit(things, calls, Ok::<(), Error>(()), Ok(())));
        Ok(())
    }

    /// Hands each column that is asked for to a closure, as `visit_encoded_columns_with` does to a
    /// visitor.
    pub fn visit_encoded_columns<F>(&self, visitor: F) -> (result: Result<(), Error>) where
        F: FnMut(&str, &DataType, bool, EncodedColumn<'_>) -> Result<(), Error>,

        requires
            self.wf(),
            forall|name: &str, dt: &DataType, nullable: bool, column: EncodedColumn<'_>|
                call_requires(visitor, (name, dt, nullable, column)),
        ensures
            self.nested_error() matches Some(e) ==> result == Err::<(), Error>(e),
            self.nested_error() is None ==> exists|calls: Seq<(VisitedColumn, Result<(), Error>)>| #[trigger]
                is_visit(self.handed_columns(), calls, Ok::<(), Error>(()), result) && forall|i: int|
                    0 <= i < calls.len() ==> takes(visitor, (#[trigger] calls[i]).0, calls[i].1),
    {
        let mut recorded: ColumnClosure<F> = ColumnClosure::new(visitor);
        let ghost answers = recorded.answers();
        let result: Result<(), Error> = self.visit_encoded_columns_with(&mut recorded);
        proof {
            if self.nested_error() is None {
                let none = Seq::<(VisitedColumn, Result<(), Error>)>::empty();
                let calls = choose|calls: Seq<(VisitedColumn, Result<(), Error>)>|
                    recorded.calls() == none + calls && all_answered(answers, calls) && #[trigger] is_visit(
                        self.handed_columns(),
                        calls,
                        Ok::<(), Error>(()),
                        result,
                    );
                assert forall|i: int| 0 <= i < calls.len() implies takes(visitor, (#[trigger] calls[i]).0, calls[i].1) by {
                    assert(answers(calls[i].0, calls[i].1));
                }
            }
        }
        result
    }
}

// ---------------------------------------------------------------- reading

impl RowGroupReader {
    /// What is wrong with the first `n` buckets that were read.
    pub open spec fn read_error(&self, n: nat) -> Option<Error>
        decreases n,
    {
        if n == 0 {
            None
        } else {
            crate::row_index::first_error(
                self.read_error((n - 1) as nat),
                match self.states()[n - 1] {
                    None => None,
                    Some(state) => match bucket_result(self.schema_of().bucket_types(n - 1), state, self.rows()) {
                        Ok(_) => None,
                        Err(e) => Some(e),
                    },
                },
            )
        }
    }

    /// The rows of column `g`, which was read.
    pub open spec fn column_rows(&self, g: int) -> Seq<Row> {
        let schema = self.schema_of();
        let b = schema.columns@[g].bucket_id as int;
        bucket_result(schema.bucket_types(b), self.states()[b]->0, self.rows())->Ok_0[place_of(schema, g)]
    }

    /// The column holds the rows of column `g`.
    pub open spec fn holds(&self, g: int, column: Column) -> bool {
        let dt = self.schema_of().columns@[g].data_type;
        &&& consistent(column)
        &&& shape_error(dt, column) is None
        &&& !is_container_type(dt) ==> leaf_matches(dt, column.values)
        &&& rows_of(dt, column) == self.column_rows(g)
    }

    /// Column `g` is in one of the first `n` buckets, or in bucket `n` at place `from` or behind it.
    spec fn reached(&self, g: int, n: int, from: int) -> bool {
        let b = self.schema_of().columns@[g].bucket_id as int;
        b < n || (b == n && place_of(self.schema_of(), g) >= from)
    }

    spec fn collected_at(&self, array: Option<Column>, g: int, n: int, from: int) -> bool {
        match array {
            Some(column) => self.available()[g] && self.reached(g, n, from) && self.holds(g, column),
            None => !(self.available()[g] && self.reached(g, n, from)),
        }
    }

    /// The columns that are reached and available are there.
    #[verifier::opaque]
    spec fn collected(&self, arrays: Seq<Option<Column>>, n: int, from: int) -> bool {
        &&& arrays.len() == self.schema_of().columns@.len()
        &&& forall|g: int| 0 <= g < arrays.len() ==> self.collected_at(#[trigger] arrays[g], g, n, from)
    }

    proof fn lemma_read_error(&self, n: nat, m: nat)
        requires
            n <= m,
            self.read_error(n) is Some,
        ensures
            self.read_error(m) == self.read_error(n),
        decreases m,
    {
        if n < m {
            self.lemma_read_error(n, (m - 1) as nat);
        }
    }

    proof fn lemma_placed_column(&self, g: int)
        requires
            self.wf(),
            0 <= g < self.schema_of().columns@.len(),
        ensures
            self.schema_of().columns@[g].bucket_id < self.schema_of().num_buckets,
            is_place(self.schema_of(), g, place_of(self.schema_of(), g)),
    {
        assert(is_place(*self.schema, g, self.global_to_local@[g] as int));
        lemma_place(self.schema_of(), g, self.global_to_local@[g] as int);
    }

    /// Nothing of bucket `n` is reached from behind its last place, and all of it from its first.
    proof fn lemma_bucket_bounds(&self, arrays: Seq<Option<Column>>, n: int, len: int)
        requires
            self.wf(),
            0 <= n < self.schema_of().num_buckets,
            len == self.schema_of().bucket_to_global@[n]@.len(),
        ensures
            self.collected(arrays, n - 1, -1) == self.collected(arrays, n, len),
            self.collected(arrays, n, 0) == self.collected(arrays, n, -1),
    {
        reveal(RowGroupReader::collected);
        if arrays.len() == self.schema_of().columns@.len() {
            assert forall|g: int| 0 <= g < arrays.len() implies self.collected_at(#[trigger] arrays[g], g, n - 1, -1)
                == self.collected_at(arrays[g], g, n, len) && self.collected_at(arrays[g], g, n, 0) == self.collected_at(
                arrays[g],
                g,
                n,
                -1,
            ) by {
                self.lemma_placed_column(g);
            }
            if self.collected(arrays, n, len) {
                assert forall|g: int| 0 <= g < arrays.len() implies self.collected_at(#[trigger] arrays[g], g, n - 1, -1) by {
                    assert(self.collected_at(arrays[g], g, n, len));
                }
            }
            if self.collected(arrays, n - 1, -1) {
                assert forall|g: int| 0 <= g < arrays.len() implies self.collected_at(#[trigger] arrays[g], g, n, len) by {
                    assert(self.collected_at(arrays[g], g, n - 1, -1));
                }
            }
            if self.collected(arrays, n, 0) {
                assert forall|g: int| 0 <= g < arrays.len() implies self.collected_at(#[trigger] arrays[g], g, n, -1) by {
                    assert(self.collected_at(arrays[g], g, n, 0));
                }
            }
            if self.collected(arrays, n, -1) {
                assert forall|g: int| 0 <= g < arrays.len() implies self.collected_at(#[trigger] arrays[g], g, n, 0) by {
                    assert(self.collected_at(arrays[g], g, n, -1));
                }
            }
        }
    }

    /// Nothing of a bucket that was not read is available.
    proof fn lemma_unread_bucket(&self, arrays: Seq<Option<Column>>, n: int)
        requires
            self.wf(),
            0 <= n < self.schema_of().num_buckets,
            self.states()[n] is None,
            self.collected(arrays, n - 1, -1),
        ensures
            self.collected(arrays, n, -1),
    {
        reveal(RowGroupReader::collected);
        assert forall|g: int| 0 <= g < arrays.len() implies self.collected_at(#[trigger] arrays[g], g, n, -1) by {
            assert(self.collected_at(arrays[g], g, n - 1, -1));
            self.lemma_placed_column(g);
        }
    }

    /// One more column of bucket `n` is there, if it is asked for.
    proof fn lemma_collect_one(&self, arrays: Seq<Option<Column>>, after: Seq<Option<Column>>, n: int, k: int)
        requires
            self.wf(),
            0 <= n < self.schema_of().num_buckets,
            0 <= k < self.schema_of().bucket_to_global@[n]@.len(),
            self.collected(arrays, n, k + 1),
            self.states()[n] is Some,
            ({
                let g = self.schema_of().bucket_to_global@[n]@[k] as int;
                if self.projected()[g] {
                    exists|column: Column|
                        after == arrays.update(g, Some(column)) && #[trigger] self.holds(g, column)
                } else {
                    after == arrays
                }
            }),
        ensures
            self.collected(after, n, k),
    {
        reveal(RowGroupReader::collected);
        let schema = self.schema_of();
        let own = schema.bucket_to_global@[n]@[k] as int;
        assert(schema.bucket_ok(n));
        assert(is_place(schema, own, k));
        lemma_place(schema, own, k);
        assert forall|g: int| 0 <= g < after.len() implies self.collected_at(#[trigger] after[g], g, n, k) by {
            self.lemma_placed_column(g);
            if g != own {
                assert(after[g] == arrays[g]);
                assert(self.collected_at(arrays[g], g, n, k + 1));
            } else if !self.projected()[own] {
                assert(self.collected_at(arrays[g], g, n, k + 1));
            }
        }
    }

    /// Puts the columns of a bucket to the places of the columns of the file.
    fn collect_bucket(&self, arrays: &mut Vec<Option<Column>>, b: usize, columns: Vec<Column>, Ghost(rows): Ghost<Seq<Seq<Row>>>)
        requires
            self.wf(),
            b < self.schema_of().num_buckets,
            self.states()[b as int] is Some,
            bucket_result(self.schema_of().bucket_types(b as int), self.states()[b as int]->0, self.rows()) == Ok::<
                Seq<Seq<Row>>,
                Error,
            >(rows),
            columns_hold(self.schema_of().bucket_types(b as int), columns@, rows),
            self.collected(old(arrays)@, b - 1, -1),
        ensures
            self.collected(final(arrays)@, b as int, -1),
    {
        let mut rest: Vec<Column> = columns;
        let ghost types = self.schema_of().bucket_types(b as int);
        let ghost members = self.schema_of().bucket_to_global@[b as int]@;
        proof {
            self.lemma_bucket_bounds(arrays@, b as int, members.len() as int);
        }
        while rest.len() > 0
            invariant
                self.wf(),
                b < self.schema_of().num_buckets,
                self.states()[b as int] is Some,
                types == self.schema_of().bucket_types(b as int),
                members == self.schema_of().bucket_to_global@[b as int]@,
                bucket_result(types, self.states()[b as int]->0, self.rows()) == Ok::<Seq<Seq<Row>>, Error>(rows),
                rest@.len() <= members.len(),
                rows.len() == members.len(),
                forall|i: int|
                    0 <= i < rest@.len() ==> consistent(#[trigger] rest@[i]) && shape_error(types[i], rest@[i]) is None && (
                    !is_container_type(types[i]) ==> leaf_matches(types[i], rest@[i].values)) && rows_of(types[i], rest@[i]) == rows[i],
                self.collected(arrays@, b as int, rest@.len() as int),
            decreases rest@.len(),
        {
            let ghost before = arrays@;
            let k: usize = rest.len() - 1;
            assert(self.schema.bucket_ok(b as int));
            let column: Column = rest.pop().unwrap();
            let g: usize = self.schema.bucket_to_global[b][k];
            assert(members[k as int] < self.schema.columns@.len());
            proof {
                assert(is_place(self.schema_of(), g as int, k as int));
                lemma_place(self.schema_of(), g as int, k as int);
                assert(types[k as int] == self.schema_of().columns@[g as int].data_type);
                assert(before.len() == self.schema_of().columns@.len()) by {
                    reveal(RowGroupReader::collected);
                }
                assert(self.holds(g as int, column));
            }
            if self.projected_columns[g] {
                arrays.set(g, Some(column));
            }
            proof {
                self.lemma_collect_one(before, arrays@, b as int, k as int);
            }
        }
        proof {
            self.lemma_bucket_bounds(arrays@, b as int, members.len() as int);
        }
    }

    /// Reads all columns that are asked for, each to the place of its column of the file.
    fn read_arrays(&self) -> (result: Result<Vec<Option<Column>>, Error>)
        requires
            self.wf(),
        ensures
            result matches Ok(arrays) ==> self.read_error(self.schema_of().num_buckets as nat) is None && self.collected(
                arrays@,
                self.schema_of().num_buckets - 1,
                -1,
            ),
            result matches Err(e) ==> self.read_error(self.schema_of().num_buckets as nat) == Some(e),
    {
        let n: usize = self.schema.columns.len();
        let mut arrays: Vec<Option<Column>> = no_columns(n);
        let num_buckets: usize = self.schema.num_buckets;
        proof {
            reveal(RowGroupReader::collected);
        }
        assert(self.collected(arrays@, -1, -1)) by {
            assert forall|g: int| 0 <= g < arrays@.len() implies self.collected_at(#[trigger] arrays@[g], g, -1, -1) by {}
        }
        let mut b: usize = 0;
        while b < num_buckets
            invariant
                b <= num_buckets,
                self.wf(),
                num_buckets == self.schema_of().num_buckets,
                self.read_error(b as nat) is None,
                self.collected(arrays@, b - 1, -1),
            decreases num_buckets - b,
        {
            proof {
                lemma_state(self.schema_of(), self.bucket_states@, b as int);
                assert(self.schema_of().bucket_ok(b as int));
            }
            match &self.bucket_states[b] {
                None => {
                    proof {
                        self.lemma_unread_bucket(arrays@, b as int);
                    }
                },
                Some(state) => {
                    let refs: Vec<&DataType> = self.schema.bucket_type_refs(b);
                    match read_bucket(state, &refs, self.num_rows) {
                        Err(e) => {
                            proof {
                                self.lemma_read_error((b + 1) as nat, num_buckets as nat);
                            }
                            return Err(e);
                        },
                        Ok(columns) => {
                            let ghost rows = bucket_result(
                                self.schema_of().bucket_types(b as int),
                                state@,
                                self.num_rows as nat,
                            )->Ok_0;
                            self.collect_bucket(&mut arrays, b, columns, Ghost(rows));
                        },
                    }
                },
            }
            b += 1;
        }
        Ok(arrays)
    }

    /// The columns of a batch: those that are asked for and that were read, in the order asked for.
    pub open spec fn batch_columns(&self) -> Seq<usize> {
        listed(self.order(), self.available(), self.order().len())
    }

    /// The batch is the one of the columns that are asked for.
    pub open spec fn is_batch(&self, batch: ColumnBatch) -> bool {
        &&& batch.num_rows == self.rows()
        &&& batch.fields@.len() == self.batch_columns().len()
        &&& batch.columns@.len() == self.batch_columns().len()
        &&& forall|j: int|
            0 <= j < self.batch_columns().len() ==> self.holds(#[trigger] self.batch_columns()[j] as int, batch.columns@[j]) && field_of(
                batch.fields@[j],
                self.schema_of().columns@[self.batch_columns()[j] as int],
            )
    }

    /// Column `g` is column `j` of a batch.
    pub open spec fn stands_in(&self, batch: ColumnBatch, j: int, g: int) -> bool {
        &&& 0 <= j < batch.columns@.len()
        &&& field_of(batch.fields@[j], self.schema_of().columns@[g])
        &&& self.holds(g, batch.columns@[j])
    }

    /// Reads the rows of all columns that are asked for.
    pub fn read_columns(&self) -> (result: Result<ColumnBatch, Error>)
        requires
            self.wf(),
        ensures
            match self.read_error(self.schema_of().num_buckets as nat) {
                Some(e) => result == Err::<ColumnBatch, Error>(e),
                None => result matches Ok(batch) && batch.num_rows == self.rows() && batch.fields@.len()
                    == self.batch_columns().len() && batch.columns@.len() == self.batch_columns().len() && (forall|j: int|
                    0 <= j < self.batch_columns().len() ==> self.holds(
                        #[trigger] self.batch_columns()[j] as int,
                        batch.columns@[j],
                    ) && field_of(batch.fields@[j], self.schema_of().columns@[self.batch_columns()[j] as int])),
            },
            result matches Ok(batch) ==> self.is_batch(batch),
            result matches Ok(batch) ==> forall|i: int|
                0 <= i < self.order().len() && self.projected()[#[trigger] self.order()[i] as int]
                    && self.states()[self.schema_of().columns@[self.order()[i] as int].bucket_id as int] is Some ==> exists|j: int| #[trigger]
                    self.stands_in(batch, j, self.order()[i] as int),
            result matches Ok(batch) ==> batch.columns@.len() <= self.order().to_set().len(),
    {
        let mut arrays: Vec<Option<Column>> = match self.read_arrays() {
            Ok(arrays) => arrays,
            Err(e) => {
                return Err(e);
            },
        };
        let mut fields: Vec<FieldSpec> = Vec::new();
        let mut columns: Vec<Column> = Vec::new();
        let ghost wanted = self.available();
        assert(arrays@.len() == self.schema_of().columns@.len() && forall|g: int|
            0 <= g < arrays@.len() ==> (match #[trigger] arrays@[g] {
                Some(column) => wanted[g] && self.holds(g, column),
                None => !wanted[g],
            })) by {
            reveal(RowGroupReader::collected);
            assert forall|g: int| 0 <= g < arrays@.len() implies (match #[trigger] arrays@[g] {
                Some(column) => wanted[g] && self.holds(g, column),
                None => !wanted[g],
            }) by {
                assert(self.collected_at(arrays@[g], g, self.schema_of().num_buckets - 1, -1));
                self.lemma_placed_column(g);
            }
        }
        let total: usize = arrays.len();
        let mut i: usize = 0;
        while i < self.output_order.len()
            invariant
                i <= self.output_order@.len(),
                self.wf(),
                wanted == self.available(),
                total == arrays@.len(),
                arrays@.len() == self.schema_of().columns@.len(),
                fields@.len() == listed(self.order(), wanted, i as nat).len(),
                columns@.len() == fields@.len(),
                forall|g: int|
                    0 <= g < arrays@.len() ==> (match #[trigger] arrays@[g] {
                        Some(column) => wanted[g] && self.holds(g, column) && !listed(self.order(), wanted, i as nat).contains(
                            g as usize,
                        ),
                        None => !wanted[g] || listed(self.order(), wanted, i as nat).contains(g as usize),
                    }),
                forall|j: int|
                    0 <= j < columns@.len() ==> self.holds(
                        #[trigger] listed(self.order(), wanted, i as nat)[j] as int,
                        columns@[j],
                    ) && field_of(fields@[j], self.schema_of().columns@[listed(self.order(), wanted, i as nat)[j] as int]),
            decreases self.output_order@.len() - i,
        {
            let g: usize = self.output_order[i];
            assert(self.output_order@[i as int] < self.schema.columns@.len());
            let ghost before = arrays@;
            let ghost old_list = listed(self.order(), wanted, i as nat);
            let ghost new_list = listed(self.order(), wanted, (i + 1) as nat);
            let ghost old_columns = columns@;
            let ghost old_fields = fields@;
            let taken: Option<Column> = arrays[g].take();
            assert(arrays@ =~= before.update(g as int, None));
            if let Some(column) = taken {
                let meta: &crate::schema::ColumnMeta = &self.schema.columns[g];
                fields.push(
                    FieldSpec { name: meta.name.clone(), data_type: meta.data_type.duplicate(), nullable: meta.nullable },
                );
                columns.push(column);
            }
            proof {
                assert(before[g as int] == taken);
                if taken is Some {
                    assert(new_list == old_list.push(g));
                    assert(new_list[old_list.len() as int] == g);
                } else {
                    assert(new_list == old_list);
                }
                assert forall|h: int| 0 <= h < arrays@.len() implies (match #[trigger] arrays@[h] {
                    Some(column) => wanted[h] && self.holds(h, column) && !new_list.contains(h as usize),
                    None => !wanted[h] || new_list.contains(h as usize),
                }) by {
                    let was = before[h];
                    if taken is Some && old_list.contains(h as usize) {
                        let q = choose|q: int| 0 <= q < old_list.len() && old_list[q] == h as usize;
                        assert(new_list[q] == h as usize);
                    }
                    if taken is Some && h != g && new_list.contains(h as usize) {
                        let q = choose|q: int| 0 <= q < new_list.len() && new_list[q] == h as usize;
                        assert(old_list[q] == h as usize);
                    }
                }
                assert forall|j: int| 0 <= j < columns@.len() implies self.holds(#[trigger] new_list[j] as int, columns@[j]) && field_of(
                    fields@[j],
                    self.schema_of().columns@[new_list[j] as int],
                ) by {
                    if j < old_columns.len() {
                        assert(new_list[j] == old_list[j]);
                        assert(columns@[j] == old_columns[j] && fields@[j] == old_fields[j]);
                    }
                }
            }
            i += 1;
        }
        let batch: ColumnBatch = ColumnBatch { fields, columns, num_rows: self.num_rows };
        proof {
            let list = self.batch_columns();
            columns_are_listed_once(self.order(), wanted, self.order().len());
            assert forall|i: int|
                0 <= i < self.order().len() && self.projected()[#[trigger] self.order()[i] as int]
                    && self.states()[self.schema_of().columns@[self.order()[i] as int].bucket_id as int] is Some implies exists|j: int| #[trigger]
                self.stands_in(batch, j, self.order()[i] as int) by {
                assert(self.output_order@[i] < self.schema.columns@.len());
                assert(list.contains(self.order()[i]));
                let j = choose|j: int| 0 <= j < list.len() && list[j] == self.order()[i];
                assert(self.stands_in(batch, j, self.order()[i] as int));
            }
            list.unique_seq_to_set();
            assert(list.to_set().subset_of(self.order().to_set())) by {
                assert forall|g: usize| list.to_set().contains(g) implies self.order().to_set().contains(g) by {
                    let j = choose|j: int| 0 <= j < list.len() && list[j] == g;
                    assert(wanted[list[j] as int]);
                }
            }
            vstd::set_lib::lemma_len_subset(list.to_set(), self.order().to_set());
        }
        Ok(batch)
    }
}

/// The field tells of the column.
pub open spec fn field_of(field: FieldSpec, column: crate::schema::ColumnMeta) -> bool {
    field.name@ == column.name@ && field.data_type == column.data_type && field.nullable == column.nullable
}

fn no_columns(n: usize) -> (columns: Vec<Option<Column>>)
    ensures
        columns@.len() == n,
        forall|g: int| 0 <= g < n ==> #[trigger] columns@[g] is None,
{
    let mut columns: Vec<Option<Column>> = Vec::new();
    let mut i: usize = 0;
    while i < n
        invariant
            i <= n,
            columns@.len() == i,
            forall|g: int| 0 <= g < i ==> #[trigger] columns@[g] is None,
        decreases n - i,
    {
        columns.push(None);
        i += 1;
    }
    columns
}

} // verus!
