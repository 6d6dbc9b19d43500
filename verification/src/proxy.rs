//! Row-level read access.
//!
//! A [`Proxy`] binds one row index to one store snapshot and reads single
//! scalars out of it; it never mutates the snapshot.

use crate::bulk::{bulk_fuel, eval, Bulk};
use crate::error::{ErrModel, SoAKitError};
use crate::meta::{DerivedRule, Registry, Validator};
use crate::value::{Val, Value};
use std::rc::Rc;
use vstd::prelude::*;

verus! {

/// A read accessor for one row of one store snapshot.
pub struct Proxy {
    /// The snapshot the row belongs to.
    pub bulk: Rc<Bulk>,
    /// The row index; always below the snapshot's row count.
    pub idx: usize,
}

impl Proxy {
    /// Valid: the snapshot is well-formed and the index is in range.
    pub open spec fn wf(&self) -> bool {
        (*self.bulk).wf() && self.idx < self.bulk.meta.count
    }

    /// Binds a row index to a snapshot; fails with `IndexOutOfBounds` at or
    /// past the row count.
    pub fn new(bulk: Rc<Bulk>, idx: usize) -> (r: Result<Self, SoAKitError>)
        requires
            (*bulk).wf(),
        ensures
            idx >= bulk.meta.count ==> r is Err && r->Err_0@ == (ErrModel::IndexOutOfBounds {
                index: idx,
                max: bulk.meta.count,
            }),
            idx < bulk.meta.count ==> r is Ok && r->Ok_0 == (Proxy { bulk, idx }) && r->Ok_0.wf(),
    {
        if idx >= bulk.count() {
            return Err(SoAKitError::IndexOutOfBounds { index: idx, max: bulk.count() });
        }
        Ok(Proxy { bulk, idx })
    }

    /// Reads the field's column and extracts this row's scalar: the element
    /// at the proxy's index, of the column's primitive kind. Errors from the
    /// read pass through; a non-vector reading is `InvalidArgument`, and an
    /// index at or past the column's own length is `IndexOutOfBounds`.
    pub fn get_field<V: Validator, D: DerivedRule>(
        &self,
        registry: &Registry<V, D>,
        field: &str,
    ) -> (r: Result<Value, SoAKitError>)
        requires
            self.wf(),
            registry.wf(),
        ensures
            ({
                let ev = eval(registry@, *self.bulk, field@, bulk_fuel(*registry));
                &&& ev is Err ==> r is Err && r->Err_0@ == ev->Err_0
                &&& ev is Ok && !(ev->Ok_0 is Vector) ==> r is Err && r->Err_0@ is InvalidArgument
                &&& ev is Ok && ev->Ok_0 is Vector && self.idx < ev->Ok_0->Vector_1.len() ==> r
                    is Ok && r->Ok_0@ == Val::Scalar(ev->Ok_0->Vector_1[self.idx as int])
                &&& ev is Ok && ev->Ok_0 is Vector && self.idx >= ev->Ok_0->Vector_1.len() ==> r
                    is Err && (r->Err_0@ matches ErrModel::IndexOutOfBounds { index, max } && index
                    == self.idx && max == ev->Ok_0->Vector_1.len())
            }),
    {
        let fuel = registry.fields.len();
        let column = match self.bulk.resolve_rec(registry, field, fuel) {
            Ok(v) => v,
            Err(e) => {
                return Err(e);
            },
        };
        column.get_element(self.idx)
    }

    /// The row index this proxy reads.
    pub fn index(&self) -> (r: usize)
        ensures
            r == self.idx,
    {
        self.idx
    }

    /// The snapshot this proxy reads from.
    pub fn bulk(&self) -> (r: &Bulk)
        ensures
            *r == *self.bulk,
    {
        &self.bulk
    }
}

} // verus!
