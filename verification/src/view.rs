//! Partition-level read access.
//!
//! A [`View`] binds a boolean row mask — one entry per row — to one store
//! snapshot, together with the key value the partition was built from. Reads
//! return the masked rows in row order; the snapshot is never mutated.

use crate::bulk::{bulk_fuel, eval, masked_elems, count_true, Bulk};
use crate::error::{ErrModel, SoAKitError};
use crate::meta::{DerivedRule, Registry, Validator};
use crate::value::{Sc, Val, Value};
use std::rc::Rc;
use vstd::prelude::*;
use vstd::view::View as _;

verus! {

/// A read accessor for the masked rows of one store snapshot.
pub struct View {
    /// The value every row of this partition shares.
    pub key: Value,
    /// The row mask; as long as the snapshot's row count.
    pub mask: Vec<bool>,
    /// The snapshot the mask selects from.
    pub parent: Rc<Bulk>,
}

impl View {
    /// Valid: the snapshot is well-formed and the mask covers every row.
    pub open spec fn wf(&self) -> bool {
        (*self.parent).wf() && self.mask@.len() == self.parent.meta.count
    }

    /// Binds a key and mask to a snapshot; fails with `LengthMismatch` when
    /// the mask's length is not the row count.
    pub fn new(key: Value, mask: Vec<bool>, parent: Rc<Bulk>) -> (r: Result<Self, SoAKitError>)
        requires
            (*parent).wf(),
        ensures
            mask@.len() != parent.meta.count ==> r is Err && r->Err_0@ == (ErrModel::LengthMismatch {
                expected: parent.meta.count,
                actual: mask@.len() as usize,
            }),
            mask@.len() == parent.meta.count ==> r is Ok && r->Ok_0 == (View { key, mask, parent })
                && r->Ok_0.wf(),
    {
        if mask.len() != parent.count() {
            return Err(
                SoAKitError::LengthMismatch { expected: parent.count(), actual: mask.len() },
            );
        }
        Ok(View { key, mask, parent })
    }

    /// The number of rows in this partition: the set entries of the mask.
    pub fn count(&self) -> (r: usize)
        ensures
            r == count_true(self.mask@),
    {
        let mut n: usize = 0;
        let mut i: usize = 0;
        while i < self.mask.len()
            invariant
                i <= self.mask@.len(),
                n == count_true(self.mask@.take(i as int)),
                n <= i,
            decreases self.mask@.len() - i,
        {
            proof {
                assert(self.mask@.take(i + 1).drop_last() =~= self.mask@.take(i as int));
            }
            if self.mask[i] {
                n += 1;
            }
            i += 1;
        }
        proof {
            assert(self.mask@.take(self.mask@.len() as int) =~= self.mask@);
        }
        n
    }

    /// True when the partition selects no rows.
    pub fn is_empty(&self) -> (r: bool)
        ensures
            r == (count_true(self.mask@) == 0),
    {
        self.count() == 0
    }

    /// Reads the field's column and keeps the masked rows, in row order.
    /// Errors from the read pass through; a non-vector reading is
    /// `InvalidArgument`.
    pub fn get_field<V: Validator, D: DerivedRule>(
        &self,
        registry: &Registry<V, D>,
        field: &str,
    ) -> (r: Result<Value, SoAKitError>)
        requires
            self.wf(),
            registry.wf(),
        ensures
            ({
                let ev = eval(registry@, *self.parent, field@, bulk_fuel(*registry));
                &&& ev is Err ==> r is Err && r->Err_0@ == ev->Err_0
                &&& ev is Ok && !(ev->Ok_0 is Vector) ==> r is Err && r->Err_0@ is InvalidArgument
                &&& ev is Ok && ev->Ok_0 is Vector ==> r is Ok && r->Ok_0@ == Val::Vector(
                    ev->Ok_0->Vector_0,
                    masked_elems(ev->Ok_0->Vector_1, self.mask@),
                )
            }),
    {
        let fuel = registry.fields.len();
        let column = match self.parent.resolve_rec(registry, field, fuel) {
            Ok(v) => v,
            Err(e) => {
                return Err(e);
            },
        };
        let ghost es = column@->Vector_1;
        let ghost mk = self.mask@;
        match column {
            Value::VectorInt(v) => {
                let mut out: Vec<i64> = Vec::new();
                let mut i: usize = 0;
                while i < v.len()
                    invariant
                        i <= v@.len(),
                        es == column@->Vector_1,
                        mk == self.mask@,
                        es.len() == v@.len(),
                        forall|j: int| 0 <= j < v@.len() ==> es[j] == Sc::I(v@[j]),
                        Seq::new(out@.len(), |t: int| Sc::I(out@[t])) == masked_elems(
                            es.take(i as int),
                            mk,
                        ),
                    decreases v@.len() - i,
                {
                    let ghost o0 = out@;
                    proof {
                        assert(es.take(i + 1).drop_last() =~= es.take(i as int));
                    }
                    if i < self.mask.len() && self.mask[i] {
                        out.push(v[i]);
                    }
                    proof {
                        if i < mk.len() && mk[i as int] {
                            assert(Seq::new(out@.len(), |t: int| Sc::I(out@[t])) =~= Seq::new(
                                o0.len(),
                                |t: int| Sc::I(o0[t]),
                            ).push(Sc::I(v@[i as int])));
                            assert(masked_elems(es.take(i + 1), mk) =~= masked_elems(
                                es.take(i as int),
                                mk,
                            ).push(es[i as int]));
                        } else {
                            assert(masked_elems(es.take(i + 1), mk) =~= masked_elems(
                                es.take(i as int),
                                mk,
                            ));
                        }
                    }
                    i += 1;
                }
                let rv = Value::VectorInt(out);
                proof {
                    assert(es.take(es.len() as int) =~= es);
                    assert(rv@->Vector_1 =~= masked_elems(es, mk));
                }
                Ok(rv)
            },
            Value::VectorFloat(v) => {
                let mut out: Vec<u64> = Vec::new();
                let mut i: usize = 0;
                while i < v.len()
                    invariant
                        i <= v@.len(),
                        es == column@->Vector_1,
                        mk == self.mask@,
                        es.len() == v@.len(),
                        forall|j: int| 0 <= j < v@.len() ==> es[j] == Sc::F(v@[j]),
                        Seq::new(out@.len(), |t: int| Sc::F(out@[t])) == masked_elems(
                            es.take(i as int),
                            mk,
                        ),
                    decreases v@.len() - i,
                {
                    let ghost o0 = out@;
                    proof {
                        assert(es.take(i + 1).drop_last() =~= es.take(i as int));
                    }
                    if i < self.mask.len() && self.mask[i] {
                        out.push(v[i]);
                    }
                    proof {
                        if i < mk.len() && mk[i as int] {
                            assert(Seq::new(out@.len(), |t: int| Sc::F(out@[t])) =~= Seq::new(
                                o0.len(),
                                |t: int| Sc::F(o0[t]),
                            ).push(Sc::F(v@[i as int])));
                            assert(masked_elems(es.take(i + 1), mk) =~= masked_elems(
                                es.take(i as int),
                                mk,
                            ).push(es[i as int]));
                        } else {
                            assert(masked_elems(es.take(i + 1), mk) =~= masked_elems(
                                es.take(i as int),
                                mk,
                            ));
                        }
                    }
                    i += 1;
                }
                let rv = Value::VectorFloat(out);
                proof {
                    assert(es.take(es.len() as int) =~= es);
                    assert(rv@->Vector_1 =~= masked_elems(es, mk));
                }
                Ok(rv)
            },
            Value::VectorBool(v) => {
                let mut out: Vec<bool> = Vec::new();
                let mut i: usize = 0;
                while i < v.len()
                    invariant
                        i <= v@.len(),
                        es == column@->Vector_1,
                        mk == self.mask@,
                        es.len() == v@.len(),
                        forall|j: int| 0 <= j < v@.len() ==> es[j] == Sc::B(v@[j]),
                        Seq::new(out@.len(), |t: int| Sc::B(out@[t])) == masked_elems(
                            es.take(i as int),
                            mk,
                        ),
                    decreases v@.len() - i,
                {
                    let ghost o0 = out@;
                    proof {
                        assert(es.take(i + 1).drop_last() =~= es.take(i as int));
                    }
                    if i < self.mask.len() && self.mask[i] {
                        out.push(v[i]);
                    }
                    proof {
                        if i < mk.len() && mk[i as int] {
                            assert(Seq::new(out@.len(), |t: int| Sc::B(out@[t])) =~= Seq::new(
                                o0.len(),
                                |t: int| Sc::B(o0[t]),
                            ).push(Sc::B(v@[i as int])));
                            assert(masked_elems(es.take(i + 1), mk) =~= masked_elems(
                                es.take(i as int),
                                mk,
                            ).push(es[i as int]));
                        } else {
                            assert(masked_elems(es.take(i + 1), mk) =~= masked_elems(
                                es.take(i as int),
                                mk,
                            ));
                        }
                    }
                    i += 1;
                }
                let rv = Value::VectorBool(out);
                proof {
                    assert(es.take(es.len() as int) =~= es);
                    assert(rv@->Vector_1 =~= masked_elems(es, mk));
                }
                Ok(rv)
            },
            Value::VectorString(v) => {
                let mut out: Vec<String> = Vec::new();
                let mut i: usize = 0;
                while i < v.len()
                    invariant
                        i <= v@.len(),
                        es == column@->Vector_1,
                        mk == self.mask@,
                        es.len() == v@.len(),
                        forall|j: int| 0 <= j < v@.len() ==> es[j] == Sc::S(v@[j]@),
                        Seq::new(out@.len(), |t: int| Sc::S(out@[t]@)) == masked_elems(
                            es.take(i as int),
                            mk,
                        ),
                    decreases v@.len() - i,
                {
                    let ghost o0 = out@;
                    proof {
                        assert(es.take(i + 1).drop_last() =~= es.take(i as int));
                    }
                    if i < self.mask.len() && self.mask[i] {
                        out.push(v[i].clone());
                    }
                    proof {
                        if i < mk.len() && mk[i as int] {
                            assert(Seq::new(out@.len(), |t: int| Sc::S(out@[t]@)) =~= Seq::new(
                                o0.len(),
                                |t: int| Sc::S(o0[t]@),
                            ).push(Sc::S(v@[i as int]@)));
                            assert(masked_elems(es.take(i + 1), mk) =~= masked_elems(
                                es.take(i as int),
                                mk,
                            ).push(es[i as int]));
                        } else {
                            assert(masked_elems(es.take(i + 1), mk) =~= masked_elems(
                                es.take(i as int),
                                mk,
                            ));
                        }
                    }
                    i += 1;
                }
                let rv = Value::VectorString(out);
                proof {
                    assert(es.take(es.len() as int) =~= es);
                    assert(rv@->Vector_1 =~= masked_elems(es, mk));
                }
                Ok(rv)
            },
            _ => Err(
                SoAKitError::InvalidArgument(
                    <String as vstd::string::StringExecFns>::from_str("field value is not a vector"),
                ),
            ),
        }
    }

    /// The key value this partition was built from.
    pub fn key(&self) -> (r: &Value)
        ensures
            *r == self.key,
    {
        &self.key
    }

    /// The row mask.
    pub fn mask(&self) -> (r: &Vec<bool>)
        ensures
            r@ == self.mask@,
    {
        &self.mask
    }

    /// The snapshot this partition selects from.
    pub fn parent(&self) -> (r: &Bulk)
        ensures
            *r == *self.parent,
    {
        &self.parent
    }
}

} // verus!
