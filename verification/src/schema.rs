//! The columns of a file and the buckets that hold them.
use vstd::prelude::*;
use vstd::utf8::encode_utf8;
use crate::bucket_writer::{expand_col_types, physical_types, plain_types};
use crate::error::Error;
use crate::row_group::dir_size_of;
use crate::format::{assign_bucket, assigned_bucket_is_in_range, buckets_are_balanced, columns_in_bucket};
use crate::sorting::{is_order, precedes, sorted, Comparison};
use crate::types::DataType;

verus! {

/// Columns of these types have a place in one bucket: a number of 32 bits can count the physical ones,
/// and the size of a directory of them can be told.
pub open spec fn bucket_fits(types: Seq<DataType>) -> bool {
    physical_types(types).len() <= u32::MAX && dir_size_of(types) <= usize::MAX
}

/// A column as it is asked for.
pub struct FieldSpec {
    pub name: String,
    pub data_type: DataType,
    pub nullable: bool,
}

/// A column of a file.
pub struct ColumnMeta {
    pub name: String,
    pub data_type: DataType,
    pub nullable: bool,
    pub bucket_id: usize,
}

/// The columns of a file in the order of their names, and the buckets that they are in.
pub struct MosaicSchema {
    pub columns: Vec<ColumnMeta>,
    pub num_buckets: usize,
    pub bucket_to_global: Vec<Vec<usize>>,
    pub original_order: Vec<usize>,
}

// ---------------------------------------------------------------- model

/// The bytes stand in the order of the alphabet.
pub open spec fn bytes_le(a: Seq<u8>, b: Seq<u8>) -> bool
    decreases a.len(),
{
    if a.len() == 0 {
        true
    } else if b.len() == 0 {
        false
    } else {
        a[0] < b[0] || (a[0] == b[0] && bytes_le(a.skip(1), b.skip(1)))
    }
}

pub open spec fn name_le(a: Seq<char>, b: Seq<char>) -> bool {
    bytes_le(encode_utf8(a), encode_utf8(b))
}

/// Column `s` is the field with its bucket.
pub open spec fn column_of(column: ColumnMeta, field: FieldSpec) -> bool {
    column.name@ == field.name@ && column.data_type == field.data_type && column.nullable == field.nullable
}

/// The fields in the order of their names; fields of the same name keep their order.
pub open spec fn by_name(order: Seq<usize>, fields: Seq<FieldSpec>) -> bool {
    forall|a: int, b: int|
        0 <= a <= b < order.len() ==> name_le(fields[#[trigger] order[a] as int].name@, fields[#[trigger] order[b] as int].name@) && (
        fields[order[a] as int].name@ == fields[order[b] as int].name@ ==> order[a] <= order[b])
}

impl MosaicSchema {
    /// The types of the columns of bucket `b`.
    pub open spec fn bucket_types(&self, b: int) -> Seq<DataType> {
        Seq::new(self.bucket_to_global@[b]@.len(), |k: int| self.columns@[self.bucket_to_global@[b]@[k] as int].data_type)
    }

    /// Bucket `b` holds columns that say so, each once.
    pub open spec fn bucket_ok(&self, b: int) -> bool {
        let members = self.bucket_to_global@[b]@;
        &&& forall|k: int|
            0 <= k < members.len() ==> (#[trigger] members[k]) < self.columns@.len() && self.columns@[members[k] as int].bucket_id
                == b
        &&& forall|j: int, k: int| 0 <= j < k < members.len() ==> #[trigger] members[j] < #[trigger] members[k]
        &&& bucket_fits(self.bucket_types(b))
    }

    /// Column `g` is in its bucket.
    pub open spec fn column_placed(&self, g: int) -> bool {
        let b = self.columns@[g].bucket_id;
        b < self.num_buckets && self.bucket_to_global@[b as int]@.contains(g as usize)
    }

    /// Every column is in its bucket.
    pub open spec fn wf(&self) -> bool {
        &&& self.bucket_to_global@.len() == self.num_buckets
        &&& forall|b: int| 0 <= b < self.num_buckets ==> #[trigger] self.bucket_ok(b)
        &&& forall|g: int| 0 <= g < self.columns@.len() ==> #[trigger] self.column_placed(g)
        &&& forall|i: int| 0 <= i < self.original_order@.len() ==> (#[trigger] self.original_order@[i]) < self.columns@.len()
    }
}

// ---------------------------------------------------------------- names

proof fn lemma_bytes_le_total(a: Seq<u8>, b: Seq<u8>)
    ensures
        bytes_le(a, b) || bytes_le(b, a),
    decreases a.len(),
{
    if a.len() > 0 && b.len() > 0 {
        lemma_bytes_le_total(a.skip(1), b.skip(1));
    }
}

proof fn lemma_bytes_le_trans(a: Seq<u8>, b: Seq<u8>, c: Seq<u8>)
    requires
        bytes_le(a, b),
        bytes_le(b, c),
    ensures
        bytes_le(a, c),
    decreases a.len(),
{
    if a.len() > 0 && b.len() > 0 && c.len() > 0 && a[0] == b[0] && b[0] == c[0] {
        lemma_bytes_le_trans(a.skip(1), b.skip(1), c.skip(1));
    }
}

fn name_at_most(a: &String, b: &String) -> (least: bool)
    ensures
        least == name_le(a@, b@),
{
    let x: &[u8] = a.as_str().as_bytes();
    let y: &[u8] = b.as_str().as_bytes();
    let mut i: usize = 0;
    assert(x@.skip(0) =~= x@);
    assert(y@.skip(0) =~= y@);
    while i < x.len() && i < y.len() && x[i] == y[i]
        invariant
            i <= x@.len(),
            i <= y@.len(),
            bytes_le(x@, y@) == bytes_le(x@.skip(i as int), y@.skip(i as int)),
        decreases x.len() - i,
    {
        assert(x@.skip(i as int).skip(1) =~= x@.skip(i + 1));
        assert(y@.skip(i as int).skip(1) =~= y@.skip(i + 1));
        i += 1;
    }
    if i >= x.len() {
        true
    } else if i >= y.len() {
        false
    } else {
        x[i] < y[i]
    }
}

/// Fields by their names.
struct Names<'a> {
    fields: &'a Vec<FieldSpec>,
}

impl<'a> Comparison for Names<'a> {
    closed spec fn count(&self) -> nat {
        self.fields@.len()
    }

    closed spec fn at_most(&self, i: int, j: int) -> bool {
        name_le(self.fields@[i].name@, self.fields@[j].name@)
    }

    proof fn lemma_total(&self, i: int, j: int) {
        lemma_bytes_le_total(encode_utf8(self.fields@[i].name@), encode_utf8(self.fields@[j].name@));
    }

    proof fn lemma_transitive(&self, i: int, j: int, k: int) {
        lemma_bytes_le_trans(
            encode_utf8(self.fields@[i].name@),
            encode_utf8(self.fields@[j].name@),
            encode_utf8(self.fields@[k].name@),
        );
    }

    fn is_at_most(&self, i: usize, j: usize) -> (result: bool) {
        name_at_most(&self.fields[i].name, &self.fields[j].name)
    }
}

/// The order of the fields by their names; fields of the same name keep their order.
pub fn sorted_by_name(fields: &Vec<FieldSpec>) -> (order: Vec<usize>)
    ensures
        is_order(order@, fields@.len()),
        by_name(order@, fields@),
{
    let names: Names<'_> = Names { fields };
    let order: Vec<usize> = sorted(&names, fields.len());
    assert forall|a: int, b: int| 0 <= a <= b < order@.len() implies name_le(
        fields@[#[trigger] order@[a] as int].name@,
        fields@[#[trigger] order@[b] as int].name@,
    ) && (fields@[order@[a] as int].name@ == fields@[order@[b] as int].name@ ==> order@[a] <= order@[b]) by {
        assert(precedes(names, order@[a] as int, order@[b] as int));
        lemma_bytes_le_total(encode_utf8(fields@[order@[a] as int].name@), encode_utf8(fields@[order@[a] as int].name@));
    }
    order
}

// ---------------------------------------------------------------- schemas

/// The bucket of the column at a sorted position.
pub open spec fn bucket_at(position: int, num_columns: int, num_buckets: int) -> int {
    (position * num_buckets) / num_columns
}

/// The first `n` columns, in the order of their names, each in its bucket.
spec fn columns_placed(columns: Seq<ColumnMeta>, fields: Seq<FieldSpec>, order: Seq<usize>, num_buckets: int, n: int) -> bool {
    &&& columns.len() == n
    &&& forall|s: int|
        0 <= s < n ==> column_of(#[trigger] columns[s], fields[order[s] as int]) && columns[s].bucket_id == bucket_at(
            s,
            order.len() as int,
            num_buckets,
        )
}

/// The buckets of the first `n` columns.
pub open spec fn buckets_filled(buckets: Seq<Vec<usize>>, columns: Seq<ColumnMeta>, n: int) -> bool {
    &&& forall|b: int, k: int|
        0 <= b < buckets.len() && 0 <= k < buckets[b]@.len() ==> (#[trigger] buckets[b]@[k]) < n && columns[buckets[b]@[k] as int].bucket_id
            == b
    &&& forall|b: int, j: int, k: int|
        0 <= b < buckets.len() && 0 <= j < k < buckets[b]@.len() ==> #[trigger] buckets[b]@[j] < #[trigger] buckets[b]@[k]
    &&& forall|g: int|
        0 <= g < n ==> (#[trigger] columns[g]).bucket_id < buckets.len() && buckets[columns[g].bucket_id as int]@.contains(g as usize)
}

fn no_members(n: usize) -> (buckets: Vec<Vec<usize>>)
    ensures
        buckets@.len() == n,
        forall|b: int| 0 <= b < n ==> (#[trigger] buckets@[b])@.len() == 0,
{
    let mut buckets: Vec<Vec<usize>> = Vec::new();
    let mut i: usize = 0;
    while i < n
        invariant
            i <= n,
            buckets@.len() == i,
            forall|b: int| 0 <= b < i ==> (#[trigger] buckets@[b])@.len() == 0,
        decreases n - i,
    {
        buckets.push(Vec::new());
        i += 1;
    }
    buckets
}

/// Puts the columns into their buckets.
fn fill_buckets(columns: &Vec<ColumnMeta>, num_buckets: usize) -> (buckets: Vec<Vec<usize>>)
    requires
        forall|g: int| 0 <= g < columns@.len() ==> (#[trigger] columns@[g]).bucket_id < num_buckets,
    ensures
        buckets@.len() == num_buckets,
        buckets_filled(buckets@, columns@, columns@.len() as int),
{
    let mut buckets: Vec<Vec<usize>> = no_members(num_buckets);
    let mut g: usize = 0;
    while g < columns.len()
        invariant
            g <= columns.len(),
            buckets@.len() == num_buckets,
            forall|g: int| 0 <= g < columns@.len() ==> (#[trigger] columns@[g]).bucket_id < num_buckets,
            buckets_filled(buckets@, columns@, g as int),
        decreases columns.len() - g,
    {
        let b: usize = columns[g].bucket_id;
        assert(columns@[g as int].bucket_id < num_buckets);
        let ghost before = buckets@;
        buckets[b].push(g);
        proof {
            let after = buckets@;
            let old_members = before[b as int]@;
            assert(after[b as int]@ == old_members.push(g));
            assert forall|i: int| 0 <= i < after.len() && i != b implies after[i] == before[i] by {}
            assert forall|c: int, k: int| 0 <= c < after.len() && 0 <= k < after[c]@.len() implies (#[trigger] after[c]@[k]) < g + 1
                && columns@[after[c]@[k] as int].bucket_id == c by {
                if c == b {
                    if k < old_members.len() {
                        assert(after[c]@[k] == before[c]@[k]);
                    }
                } else {
                    assert(after[c]@[k] == before[c]@[k]);
                }
            }
            assert forall|c: int, j: int, k: int|
                0 <= c < after.len() && 0 <= j < k < after[c]@.len() implies #[trigger] after[c]@[j] < #[trigger] after[c]@[k] by {
                assert(after[c]@[j] == before[c]@[j]);
                if c != b || k < old_members.len() {
                    assert(after[c]@[k] == before[c]@[k]);
                }
            }
            assert forall|h: int| 0 <= h < g + 1 implies (#[trigger] columns@[h]).bucket_id < after.len()
                && after[columns@[h].bucket_id as int]@.contains(h as usize) by {
                let c = columns@[h].bucket_id as int;
                if h == g {
                    assert(after[c]@[old_members.len() as int] == g);
                } else {
                    assert(before[c]@.contains(h as usize));
                    let k = choose|k: int| 0 <= k < before[c]@.len() && before[c]@[k] == h as usize;
                    assert(after[c]@[k] == h as usize);
                }
            }
        }
        g += 1;
    }
    buckets
}

/// The places of the numbers of an order.
fn places_of(order: &Vec<usize>) -> (places: Vec<usize>)
    requires
        is_order(order@, order@.len()),
    ensures
        places@.len() == order@.len(),
        forall|i: int| 0 <= i < places@.len() ==> (#[trigger] places@[i]) < order@.len() && order@[places@[i] as int] == i,
{
    let n: usize = order.len();
    let mut places: Vec<usize> = vec![0usize; n];
    let mut s: usize = 0;
    while s < n
        invariant
            s <= n == order@.len(),
            is_order(order@, order@.len()),
            places@.len() == n,
            forall|i: int| 0 <= i < n ==> (#[trigger] places@[i]) < n,
            forall|k: int| 0 <= k < s ==> order@[places@[#[trigger] order@[k] as int] as int] == order@[k],
        decreases n - s,
    {
        let ghost before = places@;
        assert(order@[s as int] < n);
        places.set(order[s], s);
        assert forall|k: int| 0 <= k < s + 1 implies order@[places@[#[trigger] order@[k] as int] as int] == order@[k] by {
            if order@[k] != order@[s as int] {
                assert(places@[order@[k] as int] == before[order@[k] as int]);
            }
        }
        s += 1;
    }
    assert forall|i: int| 0 <= i < places@.len() implies (#[trigger] places@[i]) < order@.len() && order@[places@[i] as int] == i by {
        assert(order@.contains(i as usize));
        let k = choose|k: int| 0 <= k < order@.len() && #[trigger] order@[k] == i as usize;
        assert(order@[places@[order@[k] as int] as int] == order@[k]);
    }
    places
}

/// No more buckets than columns, but one at least.
pub open spec fn capped_buckets(num_buckets: int, num_columns: int) -> int {
    if num_columns == 0 {
        1
    } else if num_buckets > num_columns {
        num_columns
    } else {
        num_buckets
    }
}

impl MosaicSchema {
    /// The columns are the fields in the order of their names, spread over the buckets; `map` tells
    /// the place of each column among the fields.
    pub open spec fn lays_out(&self, map: Seq<usize>, fields: Seq<FieldSpec>, num_buckets: int) -> bool {
        &&& self.num_buckets == capped_buckets(num_buckets, fields.len() as int)
        &&& self.bucket_to_global@.len() == self.num_buckets
        &&& is_order(map, fields.len())
        &&& by_name(map, fields)
        &&& self.columns@.len() == fields.len()
        &&& self.original_order@.len() == fields.len()
        &&& forall|s: int|
            0 <= s < fields.len() ==> column_of(#[trigger] self.columns@[s], fields[map[s] as int]) && self.columns@[s].bucket_id
                == bucket_at(s, fields.len() as int, self.num_buckets as int)
        &&& forall|i: int| 0 <= i < fields.len() ==> map[#[trigger] self.original_order@[i] as int] == i
        &&& buckets_filled(self.bucket_to_global@, self.columns@, self.columns@.len() as int)
    }

    /// Some bucket has more columns than have a place in it.
    pub open spec fn is_crowded(&self) -> bool {
        exists|b: int| 0 <= b < self.bucket_to_global@.len() && !bucket_fits(#[trigger] self.bucket_types(b))
    }

    /// The schema of the given fields, and the place of each of its columns among them. There are
    /// no more buckets than columns.
    pub fn from_fields(fields: &Vec<FieldSpec>, num_buckets: usize) -> (result: Result<(Self, Vec<usize>), Error>)
        ensures
            num_buckets == 0 ==> result == Err::<(Self, Vec<usize>), Error>(Error::NoBuckets),
            num_buckets > 0 && fields@.len() * capped_buckets(num_buckets as int, fields@.len() as int) > usize::MAX ==> result == Err::<
                (Self, Vec<usize>),
                Error,
            >(Error::TooManyColumns),
            result matches Ok((schema, map)) ==> schema.wf() && schema.lays_out(map@, fields@, num_buckets as int),
            result matches Err(e) ==> num_buckets == 0 || (e == Error::TooManyColumns && (fields@.len() * capped_buckets(
                num_buckets as int,
                fields@.len() as int,
            ) > usize::MAX || exists|schema: MosaicSchema, map: Seq<usize>|
                #[trigger] schema.lays_out(map, fields@, num_buckets as int) && schema.is_crowded())),
    {
        if num_buckets == 0 {
            return Err(Error::NoBuckets);
        }
        let n: usize = fields.len();
        let ghost asked = num_buckets as int;
        let num_buckets: usize = if n == 0 {
            1
        } else if num_buckets > n {
            n
        } else {
            num_buckets
        };
        if n.checked_mul(num_buckets).is_none() {
            return Err(Error::TooManyColumns);
        }
        let order: Vec<usize> = sorted_by_name(fields);
        let mut columns: Vec<ColumnMeta> = Vec::new();
        let mut s: usize = 0;
        while s < n
            invariant
                s <= n == fields@.len(),
                n * num_buckets <= usize::MAX,
                num_buckets > 0,
                is_order(order@, n as nat),
                columns_placed(columns@, fields@, order@, num_buckets as int, s as int),
                forall|g: int| 0 <= g < columns@.len() ==> (#[trigger] columns@[g]).bucket_id < num_buckets,
            decreases n - s,
        {
            let field: &FieldSpec = &fields[order[s]];
            proof {
                assigned_bucket_is_in_range(s as int, n as int, num_buckets as int);
                assert(s * num_buckets <= n * num_buckets) by (nonlinear_arith)
                    requires
                        s < n,
                        num_buckets > 0,
                ;
            }
            let bucket_id: usize = assign_bucket(s, n, num_buckets);
            columns.push(
                ColumnMeta {
                    name: field.name.clone(),
                    data_type: field.data_type.duplicate(),
                    nullable: field.nullable,
                    bucket_id,
                },
            );
            s += 1;
        }
        let bucket_to_global: Vec<Vec<usize>> = fill_buckets(&columns, num_buckets);
        let original_order: Vec<usize> = places_of(&order);
        let schema = MosaicSchema { columns, num_buckets, bucket_to_global, original_order };
        assert forall|g: int| 0 <= g < schema.columns@.len() implies #[trigger] schema.column_placed(g) by {
            assert(schema.columns@[g].bucket_id < num_buckets);
        }
        assert(schema.lays_out(order@, fields@, asked));
        if !schema.buckets_fit() {
            return Err(Error::TooManyColumns);
        }
        Ok((schema, order))
    }

    /// The types of the columns of a bucket.
    pub fn bucket_type_refs(&self, b: usize) -> (refs: Vec<&DataType>)
        requires
            b < self.bucket_to_global@.len(),
            forall|k: int|
                0 <= k < self.bucket_to_global@[b as int]@.len() ==> (#[trigger] self.bucket_to_global@[b as int]@[k])
                    < self.columns@.len(),
        ensures
            plain_types(refs@) == self.bucket_types(b as int),
    {
        let mut refs: Vec<&DataType> = Vec::new();
        let mut k: usize = 0;
        while k < self.bucket_to_global[b].len()
            invariant
                b < self.bucket_to_global@.len(),
                k <= self.bucket_to_global@[b as int]@.len(),
                forall|k: int|
                    0 <= k < self.bucket_to_global@[b as int]@.len() ==> (#[trigger] self.bucket_to_global@[b as int]@[k])
                        < self.columns@.len(),
                refs@.len() == k,
                forall|i: int| 0 <= i < k ==> *(#[trigger] refs@[i]) == self.bucket_types(b as int)[i],
            decreases self.bucket_to_global@[b as int]@.len() - k,
        {
            refs.push(&self.columns[self.bucket_to_global[b][k]].data_type);
            k += 1;
        }
        assert(plain_types(refs@) =~= self.bucket_types(b as int));
        refs
    }

    /// Copies of the types of the columns of a bucket.
    pub fn bucket_type_copies(&self, b: usize) -> (types: Vec<DataType>)
        requires
            b < self.bucket_to_global@.len(),
            forall|k: int|
                0 <= k < self.bucket_to_global@[b as int]@.len() ==> (#[trigger] self.bucket_to_global@[b as int]@[k])
                    < self.columns@.len(),
        ensures
            types@ == self.bucket_types(b as int),
    {
        let refs: Vec<&DataType> = self.bucket_type_refs(b);
        let mut types: Vec<DataType> = Vec::new();
        let mut k: usize = 0;
        while k < refs.len()
            invariant
                k <= refs@.len(),
                types@.len() == k,
                forall|i: int| 0 <= i < k ==> #[trigger] types@[i] == *refs@[i],
            decreases refs@.len() - k,
        {
            types.push(refs[k].duplicate());
            k += 1;
        }
        assert(types@ =~= plain_types(refs@));
        types
    }

    fn buckets_fit(&self) -> (fit: bool)
        requires
            forall|b: int, k: int|
                0 <= b < self.bucket_to_global@.len() && 0 <= k < self.bucket_to_global@[b]@.len() ==> (
                #[trigger] self.bucket_to_global@[b]@[k]) < self.columns@.len(),
        ensures
            fit == !self.is_crowded(),
    {
        let mut b: usize = 0;
        while b < self.bucket_to_global.len()
            invariant
                b <= self.bucket_to_global@.len(),
                forall|b: int, k: int|
                    0 <= b < self.bucket_to_global@.len() && 0 <= k < self.bucket_to_global@[b]@.len() ==> (
                    #[trigger] self.bucket_to_global@[b]@[k]) < self.columns@.len(),
                forall|c: int| 0 <= c < b ==> bucket_fits(#[trigger] self.bucket_types(c)),
            decreases self.bucket_to_global@.len() - b,
        {
            let refs: Vec<&DataType> = self.bucket_type_refs(b);
            let (physical, children) = expand_col_types(refs.as_slice());
            let head: u128 = if children.len() == 0 {
                0
            } else {
                2 + 4 * children.len() as u128
            };
            if physical.len() > u32::MAX as usize || head + 4 * physical.len() as u128 > usize::MAX as u128 {
                assert(!bucket_fits(self.bucket_types(b as int)));
                return false;
            }
            b += 1;
        }
        true
    }

    /// The first column of the given name.
    pub fn find_column(&self, name: &str) -> (found: Option<usize>)
        ensures
            match found {
                Some(g) => g < self.columns@.len() && self.columns@[g as int].name@ == name@ && forall|h: int|
                    0 <= h < g ==> (#[trigger] self.columns@[h]).name@ != name@,
                None => forall|h: int| 0 <= h < self.columns@.len() ==> (#[trigger] self.columns@[h]).name@ != name@,
            },
    {
        let wanted: String = name.to_owned();
        let mut g: usize = 0;
        while g < self.columns.len()
            invariant
                g <= self.columns@.len(),
                wanted@ == name@,
                forall|h: int| 0 <= h < g ==> (#[trigger] self.columns@[h]).name@ != name@,
            decreases self.columns@.len() - g,
        {
            if self.columns[g].name == wanted {
                return Some(g);
            }
            g += 1;
        }
        None
    }

    /// The columns of the given names.
    pub open spec fn names_found(&self, names: Seq<&str>, indices: Seq<usize>) -> bool {
        &&& indices.len() == names.len()
        &&& forall|i: int|
            0 <= i < names.len() ==> (#[trigger] indices[i]) < self.columns@.len() && self.columns@[indices[i] as int].name@
                == names[i]@ && forall|h: int| 0 <= h < indices[i] ==> (#[trigger] self.columns@[h]).name@ != names[i]@
    }

    pub open spec fn has_column(&self, name: Seq<char>) -> bool {
        exists|h: int| 0 <= h < self.columns@.len() && (#[trigger] self.columns@[h]).name@ == name
    }

    /// There is no column for the name `i`, which the error tells, and there is one for those before it.
    pub open spec fn not_found(&self, names: Seq<&str>, i: int, e: Error) -> bool {
        &&& 0 <= i < names.len()
        &&& !self.has_column(names[i]@)
        &&& e matches Error::ColumnNotFound { name }
        &&& name@ == names[i]@
        &&& forall|j: int| 0 <= j < i ==> self.has_column(#[trigger] names[j]@)
    }

    /// Finds columns by their names; tells the first name that there is no column for.
    pub fn find_columns(&self, names: &[&str]) -> (result: Result<Vec<usize>, Error>)
        ensures
            result matches Ok(indices) ==> self.names_found(names@, indices@),
            result matches Err(e) ==> exists|i: int| #[trigger] self.not_found(names@, i, e),
    {
        let mut indices: Vec<usize> = Vec::new();
        let mut i: usize = 0;
        while i < names.len()
            invariant
                i <= names@.len(),
                indices@.len() == i,
                forall|k: int|
                    0 <= k < i ==> (#[trigger] indices@[k]) < self.columns@.len() && self.columns@[indices@[k] as int].name@
                        == names@[k]@ && forall|h: int| 0 <= h < indices@[k] ==> (#[trigger] self.columns@[h]).name@ != names@[k]@,
                forall|k: int| 0 <= k < i ==> self.has_column(#[trigger] names@[k]@),
            decreases names@.len() - i,
        {
            match self.find_column(names[i]) {
                Some(g) => {
                    assert(self.columns@[g as int].name@ == names@[i as int]@);
                    assert(self.has_column(names@[i as int]@));
                    indices.push(g);
                },
                None => {
                    assert(!self.has_column(names@[i as int]@));
                    let e = Error::ColumnNotFound { name: names[i].to_owned() };
                    assert(self.not_found(names@, i as int, e));
                    return Err(e);
                },
            }
            i += 1;
        }
        Ok(indices)
    }
}

// ---------------------------------------------------------------- laws

/// Numbers that are exactly the first `n` positions of a bucket, in ascending order.
proof fn lemma_members_counted(members: Seq<usize>, bucket: int, num_columns: int, num_buckets: int, n: nat)
    requires
        n <= usize::MAX,
        forall|j: int, k: int| 0 <= j < k < members.len() ==> #[trigger] members[j] < #[trigger] members[k],
        forall|k: int| 0 <= k < members.len() ==> (#[trigger] members[k]) < n && bucket_at(members[k] as int, num_columns, num_buckets) == bucket,
        forall|g: int|
            0 <= g < n && #[trigger] bucket_at(g, num_columns, num_buckets) == bucket ==> members.contains(g as usize),
    ensures
        members.len() == columns_in_bucket(bucket, num_columns, num_buckets, n),
    decreases n,
{
    if n > 0 {
        let last = (n - 1) as usize;
        if bucket_at(n - 1, num_columns, num_buckets) == bucket {
            assert(members.contains(last));
            let at = choose|k: int| 0 <= k < members.len() && members[k] == last;
            if at < members.len() - 1 {
                assert(members[at] < members[at + 1]);
            }
            let rest = members.drop_last();
            assert forall|g: int| 0 <= g < n - 1 && #[trigger] bucket_at(g, num_columns, num_buckets) == bucket implies rest.contains(g as usize) by {
                assert(members.contains(g as usize));
                let k = choose|k: int| 0 <= k < members.len() && members[k] == g as usize;
                assert(rest[k] == g as usize);
            }
            assert forall|k: int| 0 <= k < rest.len() implies (#[trigger] rest[k]) < n - 1 && bucket_at(rest[k] as int, num_columns, num_buckets)
                == bucket by {
                assert(members[k] < members[at]);
            }
            lemma_members_counted(rest, bucket, num_columns, num_buckets, (n - 1) as nat);
        } else {
            assert forall|k: int| 0 <= k < members.len() implies (#[trigger] members[k]) < n - 1 && bucket_at(
                members[k] as int,
                num_columns,
                num_buckets,
            ) == bucket by {}
            lemma_members_counted(members, bucket, num_columns, num_buckets, (n - 1) as nat);
        }
    } else if members.len() > 0 {
        assert(members[0] < n);
    }
}

/// The columns of a schema are spread evenly: no bucket is empty, and each has the number of columns
/// divided by the number of buckets, rounded down or up.
pub proof fn schema_buckets_are_balanced(schema: MosaicSchema, map: Seq<usize>, fields: Seq<FieldSpec>, num_buckets: int, b: int)
    requires
        schema.lays_out(map, fields, num_buckets),
        0 < num_buckets,
        0 < fields.len() <= usize::MAX,
        0 <= b < schema.num_buckets,
    ensures
        0 < fields.len() as int / schema.num_buckets as int <= schema.bucket_to_global@[b]@.len() <= (fields.len() + schema.num_buckets - 1)
            / schema.num_buckets as int <= fields.len() as int / schema.num_buckets as int + 1,
{
    let n = fields.len() as int;
    let members = schema.bucket_to_global@[b]@;
    assert forall|k: int| 0 <= k < members.len() implies (#[trigger] members[k]) < n && bucket_at(
        members[k] as int,
        n,
        schema.num_buckets as int,
    ) == b by {
        assert(schema.bucket_to_global@[b]@[k] < n);
        assert(column_of(schema.columns@[members[k] as int], fields[map[members[k] as int] as int]));
    }
    assert forall|g: int| 0 <= g < n && #[trigger] bucket_at(g, n, schema.num_buckets as int) == b implies members.contains(g as usize) by {
        assert(schema.columns@[g].bucket_id == b);
    }
    assert forall|j: int, k: int| 0 <= j < k < members.len() implies #[trigger] members[j] < #[trigger] members[k] by {
        assert(schema.bucket_to_global@[b]@[j] < schema.bucket_to_global@[b]@[k]);
    }
    lemma_members_counted(members, b, n, schema.num_buckets as int, n as nat);
    buckets_are_balanced(b, n, schema.num_buckets as int);
}

} // verus!
