//! Lists and maps put together again from their physical columns.
use vstd::prelude::*;
use crate::bucket_writer::{all_child_types, lemma_all_child_types_push, physical_types, plain_types, shape_error};
use crate::column::{
    child_types, consistent, element_types, keys_in, leaf_matches, lemma_rows_len, list_items, map_keys, map_values, offsets_ok,
    rows_of, values_in, Column, ColumnValues, Row,
};
use crate::error::Error;
use crate::types::{is_container_type, physical_type, DataType};
use crate::values::ValueView;

verus! {

// ---------------------------------------------------------------- model

/// The length that a row of a column of lengths tells.
pub open spec fn length_of(row: Row) -> int {
    match row {
        Row::Leaf(ValueView::Integer(n)) => n as int,
        _ => 0,
    }
}

/// The sum of the first `n` lengths.
pub open spec fn offset_at(lengths: Seq<Row>, n: nat) -> int
    decreases n,
{
    if n == 0 {
        0
    } else {
        offset_at(lengths, (n - 1) as nat) + length_of(lengths[n - 1])
    }
}

/// The lengths divide `total` items, or a part of them.
pub open spec fn lengths_ok(lengths: Seq<Row>, total: nat) -> bool {
    &&& forall|i: int| 0 <= i < lengths.len() ==> length_of(#[trigger] lengths[i]) >= 0
    &&& offset_at(lengths, lengths.len()) <= total
}

/// The lists that the lengths cut out of the items.
pub open spec fn cut_lists(lengths: Seq<Row>, items: Seq<Row>) -> Seq<Row> {
    Seq::new(
        lengths.len(),
        |i: int|
            if lengths[i] is Null {
                Row::Null
            } else {
                Row::ListOf(items.subrange(offset_at(lengths, i as nat), offset_at(lengths, (i + 1) as nat)))
            },
    )
}

/// The maps that the lengths cut out of the keys and values.
pub open spec fn cut_maps(lengths: Seq<Row>, keys: Seq<Row>, values: Seq<Row>) -> Seq<Row> {
    Seq::new(
        lengths.len(),
        |i: int|
            if lengths[i] is Null {
                Row::Null
            } else {
                Row::MapOf(
                    Seq::new(
                        length_of(lengths[i]) as nat,
                        |j: int| (keys[offset_at(lengths, i as nat) + j], values[offset_at(lengths, i as nat) + j]),
                    ),
                )
            },
    )
}

/// The rows of a column of type `dt` out of those of its own physical column and of the ones below it.
pub open spec fn assembled(dt: DataType, own: Seq<Row>, below: Seq<Seq<Row>>) -> Result<Seq<Row>, Error>
    decreases dt,
{
    match dt {
        DataType::ListOf(element, _) => match assembled(*element, below[0], below.skip(1)) {
            Err(e) => Err(e),
            Ok(items) => if lengths_ok(own, items.len()) {
                Ok(cut_lists(own, items))
            } else {
                Err(Error::CorruptLengths)
            },
        },
        DataType::MapOf(key, value, _) => {
            let split = element_types(*key).len() as int;
            match assembled(*value, below[split], below.skip(split + 1)) {
                Err(e) => Err(e),
                Ok(values) => match assembled(*key, below[0], below.subrange(1, split)) {
                    Err(e) => Err(e),
                    Ok(keys) => if keys.len() == values.len() && lengths_ok(own, values.len()) {
                        Ok(cut_maps(own, keys, values))
                    } else {
                        Err(Error::CorruptLengths)
                    },
                },
            }
        },
        _ => Ok(own),
    }
}

/// The rows of the first `n` logical columns out of those of the physical ones.
pub open spec fn all_assembled(types: Seq<DataType>, physical: Seq<Seq<Row>>, n: nat) -> Result<Seq<Seq<Row>>, Error>
    decreases n,
{
    if n == 0 {
        Ok(Seq::empty())
    } else {
        let at = (types.len() + all_child_types(types.take(n - 1)).len()) as int;
        match all_assembled(types, physical, (n - 1) as nat) {
            Err(e) => Err(e),
            Ok(done) => match assembled(
                types[n - 1],
                physical[n - 1],
                physical.subrange(at, at + child_types(types[n - 1]).len()),
            ) {
                Err(e) => Err(e),
                Ok(rows) => Ok(done.push(rows)),
            },
        }
    }
}

// ---------------------------------------------------------------- lemmas

proof fn lemma_offset_monotone(lengths: Seq<Row>, i: nat, j: nat)
    requires
        i <= j <= lengths.len(),
        forall|k: int| 0 <= k < lengths.len() ==> length_of(#[trigger] lengths[k]) >= 0,
    ensures
        0 <= offset_at(lengths, i) <= offset_at(lengths, j),
    decreases j,
{
    if i < j {
        lemma_offset_monotone(lengths, i, (j - 1) as nat);
        assert(length_of(lengths[j - 1]) >= 0);
    } else if i > 0 {
        lemma_offset_monotone(lengths, (i - 1) as nat, (i - 1) as nat);
        assert(length_of(lengths[i - 1]) >= 0);
    }
}

// ---------------------------------------------------------------- columns

/// A column of lengths.
pub open spec fn lengths_column(col: Column) -> bool {
    consistent(col) && col.values is Int32
}

/// The offsets of the lists whose lengths a column tells.
fn offsets_of(lengths: &Vec<i32>, nulls: &Vec<bool>, total: usize, Ghost(rows): Ghost<Seq<Row>>) -> (result: Option<Vec<usize>>)
    requires
        lengths@.len() == nulls@.len(),
        rows.len() == nulls@.len(),
        forall|i: int|
            0 <= i < rows.len() ==> #[trigger] rows[i] == (if nulls@[i] {
                Row::Null
            } else {
                Row::Leaf(ValueView::Integer(lengths@[i]))
            }),
    ensures
        result is Some == lengths_ok(rows, total as nat),
        result matches Some(offsets) ==> offsets_ok(offsets@, rows.len(), total as nat) && forall|i: int|
            0 <= i <= rows.len() ==> #[trigger] offsets@[i] == offset_at(rows, i as nat),
{
    let mut offsets: Vec<usize> = Vec::new();
    offsets.push(0);
    let mut sum: usize = 0;
    let mut i: usize = 0;
    while i < lengths.len()
        invariant
            i <= lengths.len(),
            lengths@.len() == nulls@.len(),
            rows.len() == nulls@.len(),
            forall|k: int|
                0 <= k < rows.len() ==> #[trigger] rows[k] == (if nulls@[k] {
                    Row::Null
                } else {
                    Row::Leaf(ValueView::Integer(lengths@[k]))
                }),
            offsets@.len() == i + 1,
            sum == offset_at(rows, i as nat),
            sum <= total,
            forall|k: int| 0 <= k < i ==> length_of(#[trigger] rows[k]) >= 0,
            forall|k: int| 0 <= k <= i ==> #[trigger] offsets@[k] == offset_at(rows, k as nat),
        decreases lengths.len() - i,
    {
        let length: i32 = if nulls[i] {
            0
        } else {
            lengths[i]
        };
        assert(rows[i as int] == rows[i as int]);
        assert(length_of(rows[i as int]) == length);
        if length < 0 {
            assert(!lengths_ok(rows, total as nat));
            return None;
        }
        if length as usize > total - sum {
            proof {
                if forall|k: int| 0 <= k < rows.len() ==> length_of(#[trigger] rows[k]) >= 0 {
                    lemma_offset_monotone(rows, (i + 1) as nat, rows.len());
                }
            }
            return None;
        }
        sum = sum + length as usize;
        offsets.push(sum);
        i += 1;
    }
    proof {
        assert forall|a: int, b: int| 0 <= a <= b < offsets@.len() implies offsets@[a] <= offsets@[b] by {
            lemma_offset_monotone(rows, a as nat, b as nat);
        }
        assert forall|k: int| 0 <= k < rows.len() implies (#[trigger] offsets@[k + 1]) - offsets@[k] <= i32::MAX by {
            assert(rows[k] == rows[k]);
            assert(offset_at(rows, (k + 1) as nat) == offset_at(rows, k as nat) + length_of(rows[k]));
        }
    }
    Some(offsets)
}

/// Cuts lists out of the items below them.
fn reassemble_list_array(lengths: Column, values: Column, element: &DataType, dt: &DataType) -> (result: Result<Column, Error>)
    requires
        lengths_column(lengths),
        consistent(values),
        *dt matches DataType::ListOf(e, _) && *e == *element,
    ensures
        ({
            let own = rows_of(DataType::Int32, lengths);
            let items = rows_of(*element, values);
            if lengths_ok(own, items.len()) {
                result matches Ok(col) && consistent(col) && shape_error(*dt, col) is None && rows_of(*dt, col) == cut_lists(own, items)
            } else {
                result == Err::<Column, Error>(Error::CorruptLengths)
            }
        }),
{
    let ghost own = rows_of(DataType::Int32, lengths);
    let ghost items = rows_of(*element, values);
    proof {
        lemma_rows_len(*element, values);
    }
    let total: usize = values.nulls.len();
    match lengths.values {
        ColumnValues::Int32(numbers) => {
            let nulls: Vec<bool> = lengths.nulls;
            match offsets_of(&numbers, &nulls, total, Ghost(own)) {
                None => Err(Error::CorruptLengths),
                Some(offsets) => {
                    let col = Column { values: ColumnValues::ListOf { offsets, values: Box::new(values) }, nulls };
                    proof {
                        assert(rows_of(*dt, col) =~= cut_lists(own, items)) by {
                            assert forall|i: int| 0 <= i < own.len() implies #[trigger] rows_of(*dt, col)[i] == cut_lists(own, items)[i] by {
                                assert(offsets@[i] == offset_at(own, i as nat));
                                assert(offsets@[i + 1] == offset_at(own, (i + 1) as nat));
                                assert(own[i] == own[i]);
                            }
                        }
                    }
                    Ok(col)
                },
            }
        },
        _ => Err(Error::CorruptLengths),
    }
}

/// Cuts maps out of the keys and values below them.
fn reassemble_map_array(lengths: Column, keys: Column, values: Column, key: &DataType, value: &DataType, dt: &DataType) -> (result:
    Result<Column, Error>)
    requires
        lengths_column(lengths),
        consistent(keys),
        consistent(values),
        *dt matches DataType::MapOf(k, v, _) && *k == *key && *v == *value,
    ensures
        ({
            let own = rows_of(DataType::Int32, lengths);
            let ks = rows_of(*key, keys);
            let vs = rows_of(*value, values);
            if ks.len() == vs.len() && lengths_ok(own, vs.len()) {
                result matches Ok(col) && consistent(col) && shape_error(*dt, col) is None && rows_of(*dt, col) == cut_maps(
                    own,
                    ks,
                    vs,
                )
            } else {
                result == Err::<Column, Error>(Error::CorruptLengths)
            }
        }),
{
    let ghost own = rows_of(DataType::Int32, lengths);
    let ghost ks = rows_of(*key, keys);
    let ghost vs = rows_of(*value, values);
    proof {
        lemma_rows_len(*key, keys);
        lemma_rows_len(*value, values);
    }
    let total: usize = values.nulls.len();
    if keys.nulls.len() != total {
        return Err(Error::CorruptLengths);
    }
    match lengths.values {
        ColumnValues::Int32(numbers) => {
            let nulls: Vec<bool> = lengths.nulls;
            match offsets_of(&numbers, &nulls, total, Ghost(own)) {
                None => Err(Error::CorruptLengths),
                Some(offsets) => {
                    let col = Column {
                        values: ColumnValues::MapOf { offsets, keys: Box::new(keys), values: Box::new(values) },
                        nulls,
                    };
                    proof {
                        assert(rows_of(*dt, col) =~= cut_maps(own, ks, vs)) by {
                            assert forall|i: int| 0 <= i < own.len() implies #[trigger] rows_of(*dt, col)[i] == cut_maps(own, ks, vs)[i] by {
                                assert(offsets@[i] == offset_at(own, i as nat));
                                assert(offsets@[i + 1] == offset_at(own, (i + 1) as nat));
                                assert(own[i] == own[i]);
                                assert(offset_at(own, (i + 1) as nat) == offset_at(own, i as nat) + length_of(own[i]));
                                if !(own[i] is Null) {
                                    assert(rows_of(*dt, col)[i]->MapOf_0 =~= cut_maps(own, ks, vs)[i]->MapOf_0);
                                }
                            }
                        }
                    }
                    Ok(col)
                },
            }
        },
        _ => Err(Error::CorruptLengths),
    }
}

/// The rows of physical columns.
pub open spec fn physical_rows(types: Seq<DataType>, columns: Seq<Column>) -> Seq<Seq<Row>> {
    Seq::new(columns.len(), |j: int| rows_of(types[j], columns[j]))
}

/// The columns are ones of physical types.
pub open spec fn physical_ok(types: Seq<DataType>, columns: Seq<Column>) -> bool {
    &&& types.len() == columns.len()
    &&& forall|j: int| 0 <= j < columns.len() ==> consistent(#[trigger] columns[j]) && leaf_matches(types[j], columns[j].values)
}

/// Puts the column together whose own column and those below it stand last; takes them away.
fn reassemble_element(stack: &mut Vec<Column>, dt: &DataType, Ghost(types): Ghost<Seq<DataType>>) -> (result: Result<Column, Error>)
    requires
        physical_ok(types, old(stack)@),
        element_types(*dt).len() <= types.len(),
        types.skip(types.len() - element_types(*dt).len()) == element_types(*dt),
    ensures
        ({
            let n = types.len() - element_types(*dt).len();
            let rows = physical_rows(types, old(stack)@).skip(n);
            match assembled(*dt, rows[0], rows.skip(1)) {
                Ok(r) => result matches Ok(col) && consistent(col) && shape_error(*dt, col) is None && (!is_container_type(*dt)
                    ==> leaf_matches(*dt, col.values)) && rows_of(*dt, col) == r && final(stack)@ == old(stack)@.take(n),
                Err(e) => result == Err::<Column, Error>(e),
            }
        }),
    decreases dt, 1nat,
{
    let ghost n = types.len() - element_types(*dt).len();
    let ghost before = stack@;
    let ghost rows = physical_rows(types, before).skip(n);
    let ghost below_types = types.take(types.len() as int);
    proof {
        assert(element_types(*dt)[0] == physical_type(*dt));
        assert(types[n] == types.skip(n)[0]);
        assert(types.skip(n + 1) =~= child_types(*dt)) by {
            assert forall|k: int| 0 <= k < child_types(*dt).len() implies #[trigger] types.skip(n + 1)[k] == child_types(*dt)[k] by {
                assert(types.skip(n)[k + 1] == element_types(*dt)[k + 1]);
            }
        }
    }
    match dt {
        DataType::ListOf(element, _) => {
            proof {
                assert(physical_rows(types, before).skip(n + 1) =~= rows.skip(1));
                assert(rows.skip(1)[0] == rows[1]);
                assert(rows.skip(1).skip(1) =~= rows.skip(1).skip(1));
            }
            match reassemble_element(stack, element, Ghost(types)) {
                Err(e) => Err(e),
                Ok(items) => {
                    assert(stack@ =~= before.take(n + 1));
                    assert(stack@[n] == before[n]);
                    match stack.pop() {
                        None => Err(Error::CorruptLengths),
                        Some(own) => {
                            assert(stack@ =~= before.take(n));
                            assert(rows[0] == rows_of(DataType::Int32, own));
                            reassemble_list_array(own, items, element, dt)
                        },
                    }
                },
            }
        },
        DataType::MapOf(key, value, _) => {
            let ghost split = element_types(**key).len() as int;
            let ghost below = rows.skip(1);
            proof {
                assert(types.skip(n + 1 + split) =~= element_types(**value)) by {
                    assert forall|k: int| 0 <= k < element_types(**value).len() implies #[trigger] types.skip(n + 1 + split)[k]
                        == element_types(**value)[k] by {
                        assert(types.skip(n + 1)[split + k] == child_types(*dt)[split + k]);
                    }
                }
                assert(physical_rows(types, before).skip(n + 1 + split) =~= below.skip(split));
                assert(below.skip(split)[0] == below[split]);
                assert(below.skip(split).skip(1) =~= below.skip(split + 1));
            }
            match reassemble_element(stack, value, Ghost(types)) {
                Err(e) => Err(e),
                Ok(values) => {
                    let ghost rest_types = types.take(n + 1 + split);
                    proof {
                        assert(stack@ =~= before.take(n + 1 + split));
                        assert(rest_types.skip(n + 1) =~= element_types(**key)) by {
                            assert forall|k: int| 0 <= k < split implies #[trigger] rest_types.skip(n + 1)[k] == element_types(**key)[k] by {
                                assert(types.skip(n + 1)[k] == child_types(*dt)[k]);
                            }
                        }
                        assert(physical_rows(rest_types, stack@).skip(n + 1) =~= below.take(split));
                        assert(below.take(split)[0] == below[0]);
                        assert(below.take(split).skip(1) =~= below.subrange(1, split));
                    }
                    match reassemble_element(stack, key, Ghost(rest_types)) {
                        Err(e) => Err(e),
                        Ok(keys) => {
                            assert(stack@ =~= before.take(n + 1));
                            assert(stack@[n] == before[n]);
                            match stack.pop() {
                                None => Err(Error::CorruptLengths),
                                Some(own) => {
                                    assert(stack@ =~= before.take(n));
                                    assert(rows[0] == rows_of(DataType::Int32, own));
                                    reassemble_map_array(own, keys, values, key, value, dt)
                                },
                            }
                        },
                    }
                },
            }
        },
        _ => {
            proof {
                assert(child_types(*dt) =~= Seq::empty());
                assert(element_types(*dt).len() == 1);
                assert(rows[0] == physical_rows(types, before)[n]);
            }
            match stack.pop() {
                None => Err(Error::CorruptLengths),
                Some(own) => {
                    assert(stack@ =~= before.take(n));
                    assert(own == before[n]);
                    Ok(own)
                },
            }
        },
    }
}

proof fn lemma_prefix_types(types: Seq<DataType>, n: int)
    requires
        0 <= n < types.len(),
    ensures
        all_child_types(types.take(n + 1)) == all_child_types(types.take(n)) + child_types(types[n]),
        all_child_types(types.take(n + 1)).len() <= all_child_types(types).len(),
        all_child_types(types).take(all_child_types(types.take(n + 1)).len() as int) == all_child_types(types.take(n + 1)),
    decreases types.len(),
{
    lemma_all_child_types_push(types, n);
    if n + 1 < types.len() {
        assert(types.drop_last().take(n + 1) =~= types.take(n + 1));
        assert(types.drop_last().take(n) =~= types.take(n));
        lemma_prefix_types(types.drop_last(), n);
    } else {
        assert(types.take(n + 1) =~= types);
    }
}

/// Lengths are all that can be wrong.
proof fn lemma_error_kind(dt: DataType, own: Seq<Row>, below: Seq<Seq<Row>>)
    ensures
        assembled(dt, own, below) matches Err(e) ==> e == Error::CorruptLengths,
    decreases dt,
{
    match dt {
        DataType::ListOf(element, _) => {
            lemma_error_kind(*element, below[0], below.skip(1));
        },
        DataType::MapOf(key, value, _) => {
            let split = element_types(*key).len() as int;
            lemma_error_kind(*value, below[split], below.skip(split + 1));
            lemma_error_kind(*key, below[0], below.subrange(1, split));
        },
        _ => {},
    }
}

proof fn lemma_all_error_kind(types: Seq<DataType>, physical: Seq<Seq<Row>>, n: nat)
    ensures
        all_assembled(types, physical, n) matches Err(e) ==> e == Error::CorruptLengths,
        all_assembled(types, physical, n) matches Ok(done) ==> done.len() == n,
    decreases n,
{
    if n > 0 {
        lemma_all_error_kind(types, physical, (n - 1) as nat);
        let at = (types.len() + all_child_types(types.take(n - 1)).len()) as int;
        lemma_error_kind(types[n - 1], physical[n - 1], physical.subrange(at, at + child_types(types[n - 1]).len()));
    }
}

/// What is put together of column `i`.
spec fn assembled_at(types: Seq<DataType>, physical: Seq<Seq<Row>>, i: int) -> Result<Seq<Row>, Error> {
    let at = (types.len() + all_child_types(types.take(i)).len()) as int;
    assembled(types[i], physical[i], physical.subrange(at, at + child_types(types[i]).len()))
}

proof fn lemma_all_by_one(types: Seq<DataType>, physical: Seq<Seq<Row>>, n: nat)
    requires
        n <= types.len(),
    ensures
        all_assembled(types, physical, n) is Ok == (forall|i: int| 0 <= i < n ==> #[trigger] assembled_at(types, physical, i) is Ok),
        all_assembled(types, physical, n) matches Ok(done) ==> done.len() == n && forall|i: int|
            0 <= i < n ==> #[trigger] done[i] == assembled_at(types, physical, i)->Ok_0,
    decreases n,
{
    if n > 0 {
        lemma_all_by_one(types, physical, (n - 1) as nat);
        let one = assembled_at(types, physical, n - 1);
        if all_assembled(types, physical, n) is Ok {
            assert forall|i: int| 0 <= i < n implies #[trigger] assembled_at(types, physical, i) is Ok by {}
        }
    }
}

/// Puts a primary column together with those below it, which stand last; takes them away.
fn reassemble_primary(own: Column, stack: &mut Vec<Column>, dt: &DataType, Ghost(types): Ghost<Seq<DataType>>) -> (result: Result<
    Column,
    Error,
>)
    requires
        consistent(own),
        leaf_matches(physical_type(*dt), own.values),
        physical_ok(types, old(stack)@),
        child_types(*dt).len() <= types.len(),
        types.skip(types.len() - child_types(*dt).len()) == child_types(*dt),
    ensures
        ({
            let n = types.len() - child_types(*dt).len();
            match assembled(*dt, rows_of(physical_type(*dt), own), physical_rows(types, old(stack)@).skip(n)) {
                Ok(r) => result matches Ok(col) && consistent(col) && shape_error(*dt, col) is None && (!is_container_type(*dt)
                    ==> leaf_matches(*dt, col.values)) && rows_of(*dt, col) == r && final(stack)@ == old(stack)@.take(n),
                Err(e) => result == Err::<Column, Error>(e),
            }
        }),
{
    let ghost n = types.len() - child_types(*dt).len();
    let ghost before = stack@;
    let ghost below = physical_rows(types, before).skip(n);
    match dt {
        DataType::ListOf(element, _) => match reassemble_element(stack, element, Ghost(types)) {
            Err(e) => Err(e),
            Ok(items) => reassemble_list_array(own, items, element, dt),
        },
        DataType::MapOf(key, value, _) => {
            let ghost split = element_types(**key).len() as int;
            proof {
                assert(types.skip(n + split) =~= element_types(**value)) by {
                    assert forall|k: int| 0 <= k < element_types(**value).len() implies #[trigger] types.skip(n + split)[k]
                        == element_types(**value)[k] by {
                        assert(types.skip(n)[split + k] == child_types(*dt)[split + k]);
                    }
                }
                assert(physical_rows(types, before).skip(n + split) =~= below.skip(split));
                assert(below.skip(split)[0] == below[split]);
                assert(below.skip(split).skip(1) =~= below.skip(split + 1));
            }
            match reassemble_element(stack, value, Ghost(types)) {
                Err(e) => Err(e),
                Ok(values) => {
                    let ghost rest_types = types.take(n + split);
                    proof {
                        assert(stack@ =~= before.take(n + split));
                        assert(rest_types.skip(n) =~= element_types(**key)) by {
                            assert forall|k: int| 0 <= k < split implies #[trigger] rest_types.skip(n)[k] == element_types(**key)[k] by {
                                assert(types.skip(n)[k] == child_types(*dt)[k]);
                            }
                        }
                        assert(physical_rows(rest_types, stack@).skip(n) =~= below.take(split));
                        assert(below.take(split)[0] == below[0]);
                        assert(below.take(split).skip(1) =~= below.subrange(1, split));
                    }
                    match reassemble_element(stack, key, Ghost(rest_types)) {
                        Err(e) => Err(e),
                        Ok(keys) => {
                            assert(stack@ =~= before.take(n));
                            reassemble_map_array(own, keys, values, key, value, dt)
                        },
                    }
                },
            }
        },
        _ => {
            assert(child_types(*dt) =~= Seq::empty());
            assert(before.take(n) =~= before);
            Ok(own)
        },
    }
}

/// The columns below column `i` and those before it.
spec fn stack_of(types: Seq<DataType>, all: Seq<Column>, i: int) -> Seq<Column> {
    all.subrange(types.len() as int, (types.len() + all_child_types(types.take(i)).len()) as int)
}

proof fn lemma_stack(types: Seq<DataType>, all: Seq<Column>, i: int)
    requires
        physical_ok(physical_types(types), all),
        0 <= i < types.len(),
    ensures
        ({
            let stack_types = all_child_types(types.take(i + 1));
            let kept = all_child_types(types.take(i)).len() as int;
            let stack = stack_of(types, all, i + 1);
            let at = types.len() + kept;
            &&& kept + child_types(types[i]).len() == stack_types.len()
            &&& stack_types.skip(kept) == child_types(types[i])
            &&& physical_ok(stack_types, stack)
            &&& physical_rows(stack_types, stack).skip(kept) == physical_rows(physical_types(types), all).subrange(
                at,
                at + child_types(types[i]).len(),
            )
            &&& stack.take(kept) == stack_of(types, all, i)
            &&& consistent(all[i])
            &&& leaf_matches(physical_type(types[i]), all[i].values)
            &&& physical_rows(physical_types(types), all)[i] == rows_of(physical_type(types[i]), all[i])
        }),
{
    let phys = physical_types(types);
    let physical = physical_rows(phys, all);
    let count = types.len() as int;
    let kept = all_child_types(types.take(i));
    let stack_types = all_child_types(types.take(i + 1));
    let stack = stack_of(types, all, i + 1);
    lemma_prefix_types(types, i);
    assert(stack_types.skip(kept.len() as int) =~= child_types(types[i]));
    assert forall|j: int| 0 <= j < stack.len() implies consistent(#[trigger] stack[j]) && leaf_matches(
        stack_types[j],
        stack[j].values,
    ) && physical_rows(stack_types, stack)[j] == physical[count + j] by {
        assert(stack[j] == all[count + j]);
        assert(stack_types[j] == all_child_types(types)[j]);
        assert(phys[count + j] == all_child_types(types)[j]);
    }
    assert(physical_rows(stack_types, stack).skip(kept.len() as int) =~= physical.subrange(
        (count + kept.len()) as int,
        (count + kept.len() + child_types(types[i]).len()) as int,
    )) by {
        assert forall|k: int| 0 <= k < child_types(types[i]).len() implies #[trigger] physical_rows(stack_types, stack).skip(
            kept.len() as int,
        )[k] == physical[count + kept.len() + k] by {
            assert(consistent(stack[kept.len() + k]));
        }
    }
    assert(stack.take(kept.len() as int) =~= stack_of(types, all, i));
    assert(phys[i] == physical_type(types[i]));
}

/// The columns from `i` on are put together, the last one first.
spec fn done_ok(types: Seq<DataType>, physical: Seq<Seq<Row>>, reversed: Seq<Column>, i: int) -> bool {
    &&& reversed.len() == types.len() - i
    &&& forall|k: int| i <= k < types.len() ==> #[trigger] one_done(types, physical, reversed[types.len() - 1 - k], k)
}

spec fn one_done(types: Seq<DataType>, physical: Seq<Seq<Row>>, col: Column, k: int) -> bool {
    &&& assembled_at(types, physical, k) is Ok
    &&& consistent(col)
    &&& shape_error(types[k], col) is None
    &&& !is_container_type(types[k]) ==> leaf_matches(types[k], col.values)
    &&& rows_of(types[k], col) == assembled_at(types, physical, k)->Ok_0
}

/// Puts lists and maps together again; gives the logical columns.
pub fn reassemble_list_columns_pub(columns: Vec<Column>, logical_type_refs: &[&DataType]) -> (result: Result<Vec<Column>, Error>)
    requires
        physical_ok(physical_types(plain_types(logical_type_refs@)), columns@),
    ensures
        ({
            let types = plain_types(logical_type_refs@);
            match all_assembled(types, physical_rows(physical_types(types), columns@), types.len()) {
                Ok(rows) => result matches Ok(out) && out@.len() == types.len() && rows.len() == types.len() && forall|i: int|
                    0 <= i < out@.len() ==> consistent(#[trigger] out@[i]) && shape_error(types[i], out@[i]) is None && (
                    !is_container_type(types[i]) ==> leaf_matches(types[i], out@[i].values)) && rows_of(types[i], out@[i]) == rows[i],
                Err(e) => result == Err::<Vec<Column>, Error>(e),
            }
        }),
{
    let ghost types = plain_types(logical_type_refs@);
    let ghost phys = physical_types(types);
    let ghost physical = physical_rows(phys, columns@);
    let ghost all = columns@;
    let count: usize = logical_type_refs.len();
    let mut primary: Vec<Column> = columns;
    let mut stack: Vec<Column> = primary.split_off(count);
    let mut reversed: Vec<Column> = Vec::new();
    let mut i: usize = count;
    proof {
        assert(types.take(types.len() as int) =~= types);
        assert(stack@ =~= stack_of(types, all, count as int));
        assert(primary@ =~= all.take(count as int));
    }
    while i > 0
        invariant
            i <= count,
            count == logical_type_refs@.len(),
            types == plain_types(logical_type_refs@),
            physical == physical_rows(physical_types(types), all),
            all == columns@,
            physical_ok(physical_types(types), all),
            count == types.len(),
            primary@ == all.take(i as int),
            stack@ == stack_of(types, all, i as int),
            done_ok(types, physical, reversed@, i as int),
        decreases i,
    {
        i -= 1;
        let ghost done = reversed@;
        proof {
            lemma_stack(types, all, i as int);
        }
        match primary.pop() {
            None => {
                return Err(Error::CorruptLengths);
            },
            Some(own) => {
                assert(own == all[i as int]);
                assert(primary@ =~= all.take(i as int));
                match reassemble_primary(own, &mut stack, logical_type_refs[i], Ghost(all_child_types(types.take(i + 1)))) {
                    Err(e) => {
                        proof {
                            let at = (types.len() + all_child_types(types.take(i as int)).len()) as int;
                            lemma_error_kind(
                                types[i as int],
                                physical[i as int],
                                physical.subrange(at, at + child_types(types[i as int]).len()),
                            );
                            assert(assembled_at(types, physical, i as int) is Err);
                            lemma_all_by_one(types, physical, types.len());
                            lemma_all_error_kind(types, physical, types.len());
                        }
                        return Err(e);
                    },
                    Ok(col) => {
                        reversed.push(col);
                        proof {
                            assert(one_done(types, physical, col, i as int));
                            assert forall|k: int| i <= k < types.len() implies #[trigger] one_done(
                                types,
                                physical,
                                reversed@[types.len() - 1 - k],
                                k,
                            ) by {
                                if k > i {
                                    assert(one_done(types, physical, done[types.len() - 1 - k], k));
                                    assert(reversed@[types.len() - 1 - k] == done[types.len() - 1 - k]);
                                }
                            }
                        }
                    },
                }
            },
        }
    }
    let ghost backwards = reversed@;
    let mut out: Vec<Column> = Vec::new();
    while reversed.len() > 0
        invariant
            out@.len() + reversed@.len() == backwards.len(),
            reversed@ == backwards.take(reversed@.len() as int),
            forall|k: int| 0 <= k < out@.len() ==> #[trigger] out@[k] == backwards[backwards.len() - 1 - k],
        decreases reversed@.len(),
    {
        match reversed.pop() {
            Some(col) => out.push(col),
            None => {},
        }
    }
    proof {
        assert forall|k: int| 0 <= k < types.len() implies #[trigger] assembled_at(types, physical, k) is Ok by {
            assert(one_done(types, physical, backwards[types.len() - 1 - k], k));
        }
        lemma_all_by_one(types, physical, types.len());
        assert forall|k: int| 0 <= k < out@.len() implies consistent(#[trigger] out@[k]) && shape_error(types[k], out@[k]) is None && (
        !is_container_type(types[k]) ==> leaf_matches(types[k], out@[k].values)) && rows_of(types[k], out@[k]) == all_assembled(
            types,
            physical,
            types.len(),
        )->Ok_0[k] by {
            assert(one_done(types, physical, backwards[types.len() - 1 - k], k));
        }
    }
    Ok(out)
}

// ---------------------------------------------------------------- what lists and maps hold

proof fn lemma_prefix_offset(lengths: Seq<Row>, n: nat)
    requires
        0 < lengths.len(),
        n < lengths.len(),
    ensures
        offset_at(lengths.drop_last(), n) == offset_at(lengths, n),
    decreases n,
{
    if n > 0 {
        lemma_prefix_offset(lengths, (n - 1) as nat);
    }
}

/// Lists hold the items in their order, each list as many as its length tells and a null none. Items
/// that are left over stand behind all others.
pub proof fn lists_share_out_the_items(lengths: Seq<Row>, items: Seq<Row>)
    requires
        lengths_ok(lengths, items.len()),
    ensures
        ({
            let rows = cut_lists(lengths, items);
            &&& rows.len() == lengths.len()
            &&& forall|i: int|
                0 <= i < rows.len() ==> match #[trigger] rows[i] {
                    Row::Null => lengths[i] is Null,
                    Row::ListOf(list) => !(lengths[i] is Null) && list.len() == length_of(lengths[i]),
                    _ => false,
                }
            &&& list_items(rows).len() <= items.len()
            &&& list_items(rows) == items.take(list_items(rows).len() as int)
            &&& list_items(rows).len() == offset_at(lengths, lengths.len())
        }),
    decreases lengths.len(),
{
    let rows = cut_lists(lengths, items);
    assert forall|i: int| 0 <= i < rows.len() implies match #[trigger] rows[i] {
        Row::Null => lengths[i] is Null,
        Row::ListOf(list) => !(lengths[i] is Null) && list.len() == length_of(lengths[i]),
        _ => false,
    } by {
        lemma_offset_monotone(lengths, i as nat, (i + 1) as nat);
        lemma_offset_monotone(lengths, (i + 1) as nat, lengths.len());
    }
    if lengths.len() == 0 {
        assert(list_items(rows) =~= items.take(0));
    } else {
        let front = lengths.drop_last();
        let last: int = lengths.len() - 1;
        lemma_prefix_offset(lengths, last as nat);
        lemma_offset_monotone(lengths, last as nat, lengths.len());
        assert(lengths_ok(front, items.len()));
        lists_share_out_the_items(front, items);
        assert(rows.drop_last() =~= cut_lists(front, items)) by {
            assert forall|i: int| 0 <= i < last implies rows[i] == #[trigger] cut_lists(front, items)[i] by {
                lemma_prefix_offset(lengths, i as nat);
                lemma_prefix_offset(lengths, (i + 1) as nat);
            }
        }
        let (from, to) = (offset_at(lengths, last as nat), offset_at(lengths, lengths.len()));
        assert(items.take(from) + items.subrange(from, to) =~= items.take(to));
        if lengths[last] is Null {
            assert(from == to);
            assert(items.take(from) + Seq::<Row>::empty() =~= items.take(to));
        }
    }
}

/// Maps hold the keys and the values in their order, each map as many as its length tells.
pub proof fn maps_share_out_the_entries(lengths: Seq<Row>, keys: Seq<Row>, values: Seq<Row>)
    requires
        keys.len() == values.len(),
        lengths_ok(lengths, keys.len()),
    ensures
        ({
            let rows = cut_maps(lengths, keys, values);
            let total = offset_at(lengths, lengths.len());
            &&& rows.len() == lengths.len()
            &&& forall|i: int|
                0 <= i < rows.len() ==> match #[trigger] rows[i] {
                    Row::Null => lengths[i] is Null,
                    Row::MapOf(entries) => !(lengths[i] is Null) && entries.len() == length_of(lengths[i]),
                    _ => false,
                }
            &&& 0 <= total <= keys.len()
            &&& map_keys(rows) == keys.take(total)
            &&& map_values(rows) == values.take(total)
        }),
    decreases lengths.len(),
{
    let rows = cut_maps(lengths, keys, values);
    lemma_offset_monotone(lengths, 0, lengths.len());
    assert forall|i: int| 0 <= i < rows.len() implies match #[trigger] rows[i] {
        Row::Null => lengths[i] is Null,
        Row::MapOf(entries) => !(lengths[i] is Null) && entries.len() == length_of(lengths[i]),
        _ => false,
    } by {
        assert(length_of(lengths[i]) >= 0);
    }
    if lengths.len() == 0 {
        assert(map_keys(rows) =~= keys.take(0));
        assert(map_values(rows) =~= values.take(0));
    } else {
        let front = lengths.drop_last();
        let last: int = lengths.len() - 1;
        lemma_prefix_offset(lengths, last as nat);
        lemma_offset_monotone(lengths, last as nat, lengths.len());
        assert(lengths_ok(front, keys.len()));
        maps_share_out_the_entries(front, keys, values);
        assert(rows.drop_last() =~= cut_maps(front, keys, values)) by {
            assert forall|i: int| 0 <= i < last implies rows[i] == #[trigger] cut_maps(front, keys, values)[i] by {
                lemma_prefix_offset(lengths, i as nat);
                if !(lengths[i] is Null) {
                    assert(rows[i]->MapOf_0 =~= cut_maps(front, keys, values)[i]->MapOf_0);
                }
            }
        }
        let (from, to) = (offset_at(lengths, last as nat), offset_at(lengths, lengths.len()));
        if lengths[last] is Null {
            assert(keys.take(from) + Seq::<Row>::empty() =~= keys.take(to));
            assert(values.take(from) + Seq::<Row>::empty() =~= values.take(to));
        } else {
            let entries = rows.last()->MapOf_0;
            assert(keys.take(from) + keys_in(entries) =~= keys.take(to));
            assert(values.take(from) + values_in(entries) =~= values.take(to));
        }
    }
}

} // verus!
