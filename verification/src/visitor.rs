//! Visitors of dictionaries and of columns, and the calls that they get.
use vstd::prelude::*;
use crate::encoded_column::{EncodedColumn, EncodedColumnView};
use crate::error::Error;
use crate::types::DataType;
use crate::values::{EncodedValueRef, ValueView};

verus! {

/// A visit of things that can be handed over or not: each is handed over once, in order, up to the
/// first that cannot be or that the visitor refuses. `calls` are what was handed over and what the
/// visitor answered. A visit that comes to its end gives `after`.
pub open spec fn is_visit<V, R>(
    things: Seq<Result<V, Error>>,
    calls: Seq<(V, Result<(), Error>)>,
    after: Result<R, Error>,
    result: Result<R, Error>,
) -> bool {
    &&& calls.len() <= things.len()
    &&& forall|i: int| 0 <= i < calls.len() ==> things[i] == Ok::<V, Error>((#[trigger] calls[i]).0)
    &&& forall|i: int| 0 <= i < calls.len() - 1 ==> (#[trigger] calls[i]).1 is Ok
    &&& if calls.len() > 0 && calls.last().1 is Err {
        result == Err::<R, Error>(calls.last().1->Err_0)
    } else if calls.len() < things.len() {
        things[calls.len() as int] is Err && result == Err::<R, Error>(things[calls.len() as int]->Err_0)
    } else {
        result == after
    }
}

/// Things that were handed over so far, each of them taken.
pub open spec fn all_taken<V>(things: Seq<Result<V, Error>>, calls: Seq<(V, Result<(), Error>)>) -> bool {
    &&& calls.len() <= things.len()
    &&& forall|i: int| 0 <= i < calls.len() ==> things[i] == Ok::<V, Error>((#[trigger] calls[i]).0) && calls[i].1 is Ok
}

/// The answers to calls are ones that `answers` allows.
pub open spec fn all_answered<V>(answers: spec_fn(V, Result<(), Error>) -> bool, calls: Seq<(V, Result<(), Error>)>) -> bool {
    forall|i: int| 0 <= i < calls.len() ==> answers((#[trigger] calls[i]).0, calls[i].1)
}

/// A visitor of the entries of a dictionary. Every visitor that is verified says which calls it got.
pub trait EntryVisitor<'a> {
    /// The calls so far: the entries, and what was answered to each.
    open spec fn calls(&self) -> Seq<(ValueView, Result<(), Error>)> {
        Seq::empty()
    }

    /// What may be answered to an entry.
    open spec fn answers(&self) -> spec_fn(ValueView, Result<(), Error>) -> bool {
        |value: ValueView, out: Result<(), Error>| true
    }

    /// The visitor can be called.
    open spec fn is_ready(&self) -> bool {
        true
    }

    fn visit(&mut self, value: EncodedValueRef<'a>) -> (result: Result<(), Error>)
        requires
            old(self).is_ready(),
        ensures
            final(self).is_ready(),
            final(self).answers() == old(self).answers(),
            (old(self).answers())(value@, result),
            final(self).calls() == old(self).calls().push((value@, result)),
    ;
}

/// A column as it is handed to a visitor.
pub struct VisitedColumn {
    pub name: Seq<char>,
    pub data_type: DataType,
    pub nullable: bool,
    pub column: EncodedColumnView,
}

/// A visitor of columns. Every visitor that is verified says which calls it got.
pub trait ColumnVisitor {
    /// The calls so far: the columns, and what was answered to each.
    open spec fn calls(&self) -> Seq<(VisitedColumn, Result<(), Error>)> {
        Seq::empty()
    }

    /// What may be answered to a column.
    open spec fn answers(&self) -> spec_fn(VisitedColumn, Result<(), Error>) -> bool {
        |visited: VisitedColumn, out: Result<(), Error>| true
    }

    /// The visitor can be called.
    open spec fn is_ready(&self) -> bool {
        true
    }

    fn visit(&mut self, name: &str, data_type: &DataType, nullable: bool, column: EncodedColumn<'_>) -> (result: Result<(), Error>)
        requires
            old(self).is_ready(),
        ensures
            final(self).is_ready(),
            final(self).answers() == old(self).answers(),
            (old(self).answers())(
                (VisitedColumn { name: name@, data_type: *data_type, nullable, column: column@ }),
                result,
            ),
            final(self).calls() == old(self).calls().push(
                ((VisitedColumn { name: name@, data_type: *data_type, nullable, column: column@ }), result),
            ),
    ;
}

// ---------------------------------------------------------------- closures

/// The closure may answer `out` when it is handed the entry.
pub open spec fn gives<'a, F: FnMut(EncodedValueRef<'a>) -> Result<(), Error>>(f: F, value: ValueView, out: Result<(), Error>) -> bool {
    exists|v: EncodedValueRef<'a>| v@ == value && #[trigger] call_ensures(f, (v,), out)
}

/// A closure that visits entries, with the calls that it got.
pub struct EntryClosure<'a, F: FnMut(EncodedValueRef<'a>) -> Result<(), Error>> {
    closure: F,
    log: Ghost<Seq<(ValueView, Result<(), Error>)>>,
    values: std::marker::PhantomData<EncodedValueRef<'a>>,
}

impl<'a, F: FnMut(EncodedValueRef<'a>) -> Result<(), Error>> EntryClosure<'a, F> {
    pub fn new(closure: F) -> (visitor: Self)
        requires
            forall|v: EncodedValueRef<'a>| call_requires(closure, (v,)),
        ensures
            visitor.is_ready(),
            visitor.calls() == Seq::<(ValueView, Result<(), Error>)>::empty(),
            visitor.answers() == (|value: ValueView, out: Result<(), Error>| gives(closure, value, out)),
    {
        EntryClosure { closure, log: Ghost(Seq::empty()), values: std::marker::PhantomData }
    }
}

impl<'a, F: FnMut(EncodedValueRef<'a>) -> Result<(), Error>> EntryVisitor<'a> for EntryClosure<'a, F> {
    closed spec fn calls(&self) -> Seq<(ValueView, Result<(), Error>)> {
        self.log@
    }

    closed spec fn answers(&self) -> spec_fn(ValueView, Result<(), Error>) -> bool {
        |value: ValueView, out: Result<(), Error>| gives(self.closure, value, out)
    }

    closed spec fn is_ready(&self) -> bool {
        forall|v: EncodedValueRef<'a>| call_requires(self.closure, (v,))
    }

    fn visit(&mut self, value: EncodedValueRef<'a>) -> (result: Result<(), Error>) {
        let result: Result<(), Error> = (self.closure)(value);
        proof {
            assert(call_ensures(old(self).closure, (value,), result));
            self.log@ = self.log@.push((value@, result));
        }
        result
    }
}

/// The closure may answer `out` when it is handed the column.
pub open spec fn takes<F: FnMut(&str, &DataType, bool, EncodedColumn<'_>) -> Result<(), Error>>(
    f: F,
    visited: VisitedColumn,
    out: Result<(), Error>,
) -> bool {
    exists|name: &str, dt: &DataType, nullable: bool, column: EncodedColumn<'_>|
        visited == (VisitedColumn { name: name@, data_type: *dt, nullable, column: column@ }) && #[trigger] call_ensures(
            f,
            (name, dt, nullable, column),
            out,
        )
}

/// A closure that visits columns, with the calls that it got.
pub struct ColumnClosure<F: FnMut(&str, &DataType, bool, EncodedColumn<'_>) -> Result<(), Error>> {
    closure: F,
    log: Ghost<Seq<(VisitedColumn, Result<(), Error>)>>,
}

impl<F: FnMut(&str, &DataType, bool, EncodedColumn<'_>) -> Result<(), Error>> ColumnClosure<F> {
    pub fn new(closure: F) -> (visitor: Self)
        requires
            forall|name: &str, dt: &DataType, nullable: bool, column: EncodedColumn<'_>|
                call_requires(closure, (name, dt, nullable, column)),
        ensures
            visitor.is_ready(),
            visitor.calls() == Seq::<(VisitedColumn, Result<(), Error>)>::empty(),
            visitor.answers() == (|visited: VisitedColumn, out: Result<(), Error>| takes(closure, visited, out)),
    {
        ColumnClosure { closure, log: Ghost(Seq::empty()) }
    }
}

impl<F: FnMut(&str, &DataType, bool, EncodedColumn<'_>) -> Result<(), Error>> ColumnVisitor for ColumnClosure<F> {
    closed spec fn calls(&self) -> Seq<(VisitedColumn, Result<(), Error>)> {
        self.log@
    }

    closed spec fn answers(&self) -> spec_fn(VisitedColumn, Result<(), Error>) -> bool {
        |visited: VisitedColumn, out: Result<(), Error>| takes(self.closure, visited, out)
    }

    closed spec fn is_ready(&self) -> bool {
        forall|name: &str, dt: &DataType, nullable: bool, column: EncodedColumn<'_>|
            call_requires(self.closure, (name, dt, nullable, column))
    }

    fn visit(&mut self, name: &str, data_type: &DataType, nullable: bool, column: EncodedColumn<'_>) -> (result: Result<(), Error>) {
        let result: Result<(), Error> = (self.closure)(name, data_type, nullable, column);
        proof {
            let visited = VisitedColumn { name: name@, data_type: *data_type, nullable, column: column@ };
            assert(call_ensures(old(self).closure, (name, data_type, nullable, column), result));
            self.log@ = self.log@.push((visited, result));
        }
        result
    }
}

} // verus!
