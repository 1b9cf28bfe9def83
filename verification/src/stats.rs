//! The columns that statistics are kept of.
use vstd::prelude::*;
use crate::error::Error;
use crate::output::OutputFile;
use crate::schema::MosaicSchema;
use crate::sorting::{is_order, precedes, sorted, Comparison};
use crate::writer::MosaicWriter;

verus! {

/// A column of the schema, and its place in the batches that are written.
#[derive(Clone, Copy, Debug, PartialEq, Eq, Structural)]
pub struct StatsColumn {
    pub column: usize,
    pub batch_column: usize,
}

/// The first column of the given name.
pub open spec fn is_first(schema: MosaicSchema, name: Seq<char>, g: int) -> bool {
    &&& 0 <= g < schema.columns@.len()
    &&& schema.columns@[g].name@ == name
    &&& forall|h: int| 0 <= h < g ==> (#[trigger] schema.columns@[h]).name@ != name
}

/// What is wrong with the column of a name: there is none, or no statistics are kept of its type.
pub open spec fn is_name_error(schema: MosaicSchema, supported: Seq<bool>, name: Seq<char>, e: Error) -> bool {
    match e {
        Error::StatsColumnNotFound { name: told } => told@ == name && !schema.has_column(name),
        Error::StatsTypeUnsupported { name: told, data_type } => told@ == name && exists|g: int| #[trigger]
            is_first(schema, name, g) && !supported[g] && data_type == schema.columns@[g].data_type,
        _ => false,
    }
}

/// The names are those of columns that statistics can be kept of; `found` are these columns.
pub open spec fn all_found(schema: MosaicSchema, supported: Seq<bool>, names: Seq<&str>, found: Seq<usize>) -> bool {
    &&& found.len() == names.len()
    &&& forall|i: int|
        0 <= i < found.len() ==> is_first(schema, names[i]@, (#[trigger] found[i]) as int) && supported[found[i] as int]
}

/// The chosen columns are the found ones in the order of the schema, each as often as it was found.
pub open spec fn are_chosen(chosen: Seq<StatsColumn>, found: Seq<usize>) -> bool {
    &&& forall|i: int, j: int| 0 <= i <= j < chosen.len() ==> (#[trigger] chosen[i]).column <= (#[trigger] chosen[j]).column
    &&& exists|order: Seq<usize>| #[trigger] is_order(order, found.len()) && chosen.len() == found.len() && forall|i: int|
        0 <= i < chosen.len() ==> (#[trigger] chosen[i]).column == found[order[i] as int]
}

/// Columns by their places in the schema.
struct Places<'a> {
    columns: &'a Vec<usize>,
}

impl<'a> Comparison for Places<'a> {
    closed spec fn count(&self) -> nat {
        self.columns@.len()
    }

    closed spec fn at_most(&self, i: int, j: int) -> bool {
        self.columns@[i] <= self.columns@[j]
    }

    proof fn lemma_total(&self, i: int, j: int) {
    }

    proof fn lemma_transitive(&self, i: int, j: int, k: int) {
    }

    fn is_at_most(&self, i: usize, j: usize) -> (result: bool) {
        self.columns[i] <= self.columns[j]
    }
}

impl<S: OutputFile> MosaicWriter<S> {
    /// Chooses the columns that statistics are kept of by their names, in the order of the schema.
    /// `supported` tells of each column of the schema whether statistics can be kept of its type.
    pub fn stats_columns(&self, names: &[&str], supported: &[bool]) -> (result: Result<Vec<StatsColumn>, Error>)
        requires
            self.wf(),
            supported@.len() == self.schema_of().columns@.len(),
        ensures
            match result {
                Ok(chosen) => (forall|i: int|
                    0 <= i < chosen@.len() ==> (#[trigger] chosen@[i]).batch_column == self.column_map()[chosen@[i].column as int])
                    && exists|found: Seq<usize>| #[trigger]
                    all_found(self.schema_of(), supported@, names@, found) && are_chosen(chosen@, found),
                Err(e) => exists|i: int|
                    0 <= i < names@.len() && #[trigger] is_name_error(self.schema_of(), supported@, names@[i]@, e) && exists|found: Seq<usize>| #[trigger]
                        all_found(self.schema_of(), supported@, names@.take(i), found),
            },
    {
        let schema: &MosaicSchema = self.schema();
        let mut found: Vec<usize> = Vec::new();
        let mut i: usize = 0;
        while i < names.len()
            invariant
                i <= names@.len(),
                *schema == self.schema_of(),
                supported@.len() == schema.columns@.len(),
                all_found(*schema, supported@, names@.take(i as int), found@),
            decreases names@.len() - i,
        {
            let name: &str = names[i];
            let g: usize = match schema.find_column(name) {
                None => {
                    let e = Error::StatsColumnNotFound { name: name.to_owned() };
                    assert(is_name_error(*schema, supported@, names@[i as int]@, e));
                    return Err(e);
                },
                Some(g) => g,
            };
            assert(is_first(*schema, names@[i as int]@, g as int));
            if !supported[g] {
                let e = Error::StatsTypeUnsupported { name: name.to_owned(), data_type: schema.columns[g].data_type.clone() };
                assert(is_name_error(*schema, supported@, names@[i as int]@, e));
                return Err(e);
            }
            let ghost before = found@;
            found.push(g);
            proof {
                let part = names@.take(i + 1);
                assert forall|k: int| 0 <= k < found@.len() implies is_first(*schema, part[k]@, (#[trigger] found@[k]) as int)
                    && supported@[found@[k] as int] by {
                    if k < before.len() {
                        assert(found@[k] == before[k]);
                        assert(names@.take(i as int)[k] == part[k]);
                    }
                }
            }
            i += 1;
        }
        assert(names@.take(names@.len() as int) =~= names@);
        let places: Places<'_> = Places { columns: &found };
        let order: Vec<usize> = sorted(&places, found.len());
        let map: &Vec<usize> = self.batch_columns();
        let mut chosen: Vec<StatsColumn> = Vec::new();
        let mut k: usize = 0;
        while k < order.len()
            invariant
                k <= order@.len(),
                chosen@.len() == k,
                is_order(order@, found@.len()),
                *schema == self.schema_of(),
                map@ == self.column_map(),
                map@.len() == schema.columns@.len(),
                all_found(*schema, supported@, names@, found@),
                forall|j: int|
                    0 <= j < k ==> (#[trigger] chosen@[j]).column == found@[order@[j] as int] && chosen@[j].batch_column
                        == map@[chosen@[j].column as int],
            decreases order@.len() - k,
        {
            assert(order@[k as int] < found@.len());
            let column: usize = found[order[k]];
            assert(is_first(*schema, names@[order@[k as int] as int]@, column as int));
            chosen.push(StatsColumn { column, batch_column: map[column] });
            k += 1;
        }
        proof {
            assert forall|a: int, b: int| 0 <= a <= b < chosen@.len() implies (#[trigger] chosen@[a]).column <= (#[trigger] chosen@[b]).column by {
                assert(precedes(places, order@[a] as int, order@[b] as int));
            }
            assert(is_order(order@, found@.len()));
            assert(are_chosen(chosen@, found@));
            assert(all_found(self.schema_of(), supported@, names@, found@));
        }
        Ok(chosen)
    }
}

} // verus!
