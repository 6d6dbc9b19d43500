//! Ready-made validators and derived rules.
//!
//! [`TypeCheck`] covers the common shape predicates (one scalar or vector
//! kind, a non-empty integer vector, or anything). [`ElementwiseAdd`] sums a
//! fixed number of integer-vector dependencies elementwise with wrapping
//! arithmetic, over the shortest of them.

use crate::error::{ErrModel, SoAKitError};
use crate::meta::{DerivedRule, Validator};
use crate::value::{vals_of, Sc, Val, ValKind, Value};
use vstd::prelude::*;
use vstd::string::StringExecFns;

verus! {

/// A shape predicate over values.
#[derive(Clone, Copy, Debug, PartialEq, Eq, Structural)]
pub enum TypeCheck {
    /// Accepts integer scalars.
    ScalarInt,
    /// Accepts float scalars.
    ScalarFloat,
    /// Accepts boolean scalars.
    ScalarBool,
    /// Accepts string scalars.
    ScalarString,
    /// Accepts integer vectors.
    VectorInt,
    /// Accepts float vectors.
    VectorFloat,
    /// Accepts boolean vectors.
    VectorBool,
    /// Accepts string vectors.
    VectorString,
    /// Accepts non-empty integer vectors.
    NonEmptyVectorInt,
    /// Accepts every value.
    Any,
}

impl Validator for TypeCheck {
    open spec fn spec_check(&self, v: Val) -> bool {
        match self {
            TypeCheck::ScalarInt => v is Scalar && v->Scalar_0 is I,
            TypeCheck::ScalarFloat => v is Scalar && v->Scalar_0 is F,
            TypeCheck::ScalarBool => v is Scalar && v->Scalar_0 is B,
            TypeCheck::ScalarString => v is Scalar && v->Scalar_0 is S,
            TypeCheck::VectorInt => v is Vector && v->Vector_0 == ValKind::Int,
            TypeCheck::VectorFloat => v is Vector && v->Vector_0 == ValKind::Float,
            TypeCheck::VectorBool => v is Vector && v->Vector_0 == ValKind::Bool,
            TypeCheck::VectorString => v is Vector && v->Vector_0 == ValKind::Str,
            TypeCheck::NonEmptyVectorInt => v is Vector && v->Vector_0 == ValKind::Int
                && v->Vector_1.len() > 0,
            TypeCheck::Any => true,
        }
    }

    fn check(&self, v: &Value) -> (r: bool)
        ensures
            r == self.spec_check(v@),
    {
        match self {
            TypeCheck::ScalarInt => matches!(v, Value::ScalarInt(_)),
            TypeCheck::ScalarFloat => matches!(v, Value::ScalarFloat(_)),
            TypeCheck::ScalarBool => matches!(v, Value::ScalarBool(_)),
            TypeCheck::ScalarString => matches!(v, Value::ScalarString(_)),
            TypeCheck::VectorInt => matches!(v, Value::VectorInt(_)),
            TypeCheck::VectorFloat => matches!(v, Value::VectorFloat(_)),
            TypeCheck::VectorBool => matches!(v, Value::VectorBool(_)),
            TypeCheck::VectorString => matches!(v, Value::VectorString(_)),
            TypeCheck::NonEmptyVectorInt => match v {
                Value::VectorInt(es) => es.len() > 0,
                _ => false,
            },
            TypeCheck::Any => true,
        }
    }
}

/// True when every argument is an integer vector.
pub open spec fn all_int_vectors(args: Seq<Val>) -> bool {
    forall|i: int|
        0 <= i < args.len() ==> (#[trigger] args[i]) is Vector && args[i]->Vector_0 == ValKind::Int
}

/// The least element count among the argument vectors; 0 with no arguments.
pub open spec fn min_elems(args: Seq<Val>) -> nat
    decreases args.len(),
{
    if args.len() == 0 {
        0
    } else if args.len() == 1 {
        args[0].len()
    } else {
        let m = min_elems(args.drop_first());
        if args[0].len() <= m {
            args[0].len()
        } else {
            m
        }
    }
}

/// The wrapping sum of the first `k` argument vectors at element `j`.
pub open spec fn sum_prefix(args: Seq<Val>, k: int, j: int) -> i64
    decreases k,
{
    if k <= 0 {
        0
    } else {
        vstd::wrapping::i64_specs::wrapping_add(
            sum_prefix(args, k - 1, j),
            args[k - 1]->Vector_1[j]->I_0,
        )
    }
}

/// Sums a fixed number of integer-vector arguments elementwise, with
/// wrapping arithmetic, over the shortest argument.
#[derive(Clone, Copy, Debug, PartialEq, Eq, Structural)]
pub struct ElementwiseAdd {
    /// The number of arguments the rule expects.
    pub arity: usize,
}

impl DerivedRule for ElementwiseAdd {
    open spec fn spec_compute(&self, args: Seq<Val>) -> Result<Val, ErrModel> {
        if args.len() != self.arity {
            Err(ErrModel::InvalidArgument("Wrong number of args"@))
        } else if !all_int_vectors(args) {
            Err(ErrModel::InvalidArgument("Invalid arguments"@))
        } else {
            Ok(
                Val::Vector(
                    ValKind::Int,
                    Seq::new(min_elems(args), |j: int| Sc::I(sum_prefix(args, args.len() as int, j))),
                ),
            )
        }
    }

    fn compute(&self, args: &Vec<Value>) -> (r: Result<Value, SoAKitError>)
        ensures
            crate::meta::res_models(r, self.spec_compute(vals_of(args@))),
    {
        let ghost am = vals_of(args@);
        if args.len() != self.arity {
            let e = SoAKitError::InvalidArgument(String::from_str("Wrong number of args"));
            return Err(e);
        }
        let mut min: usize = 0;
        let mut k: usize = 0;
        while k < args.len()
            invariant
                k <= args@.len(),
                am == vals_of(args@),
                args@.len() == self.arity,
                k == 0 ==> min == 0,
                forall|i: int|
                    0 <= i < k ==> (#[trigger] am[i]) is Vector && am[i]->Vector_0 == ValKind::Int,
                k > 0 ==> (forall|i: int| 0 <= i < k ==> min <= (#[trigger] am[i]).len()),
                k > 0 ==> (exists|i: int| 0 <= i < k && min == (#[trigger] am[i]).len()),
            decreases args@.len() - k,
        {
            match &args[k] {
                Value::VectorInt(es) => {
                    proof {
                        assert(am[k as int].len() == es@.len());
                    }
                    if k == 0 || es.len() < min {
                        min = es.len();
                    }
                    proof {
                        assert(min == am[k as int].len() || (k > 0 && exists|i: int|
                            0 <= i < k && min == (#[trigger] am[i]).len()));
                    }
                },
                _ => {
                    proof {
                        assert(!(am[k as int] is Vector && am[k as int]->Vector_0 == ValKind::Int));
                    }
                    let e = SoAKitError::InvalidArgument(String::from_str("Invalid arguments"));
                    return Err(e);
                },
            }
            k += 1;
        }
        proof {
            lemma_min_elems_props(am);
            if args@.len() > 0 {
                let iw = choose|i: int| 0 <= i < am.len() && min_elems(am) == (#[trigger] am[i]).len();
                let im = choose|i: int| 0 <= i < am.len() && min == (#[trigger] am[i]).len();
                assert(min <= am[iw].len());
                assert(min_elems(am) <= am[im].len());
                assert(min == min_elems(am));
            } else {
                assert(min == 0);
                assert(min_elems(am) == 0);
            }
        }
        let mut out: Vec<i64> = Vec::new();
        let mut j: usize = 0;
        while j < min
            invariant
                am == vals_of(args@),
                min == min_elems(am),
                all_int_vectors(am),
                args@.len() == self.arity,
                j <= min,
                out@.len() == j,
                forall|q: int|
                    0 <= q < j ==> out@[q] == sum_prefix(am, am.len() as int, q),
                min_elems_le(am),
            decreases min - j,
        {
            let mut acc: i64 = 0;
            let mut k2: usize = 0;
            while k2 < args.len()
                invariant
                    am == vals_of(args@),
                    all_int_vectors(am),
                    min == min_elems(am),
                    min_elems_le(am),
                    j < min,
                    k2 <= args@.len(),
                    acc == sum_prefix(am, k2 as int, j as int),
                decreases args@.len() - k2,
            {
                match &args[k2] {
                    Value::VectorInt(es) => {
                        proof {
                            assert(am[k2 as int]->Vector_1.len() == es@.len());
                            assert(min <= am[k2 as int]->Vector_1.len());
                        }
                        acc = acc.wrapping_add(es[j]);
                        proof {
                            assert(am[k2 as int]->Vector_1[j as int] == Sc::I(es@[j as int]));
                        }
                    },
                    _ => {
                        proof {
                            assert(am[k2 as int] is Vector && am[k2 as int]->Vector_0
                                == ValKind::Int);
                            assert(false);
                        }
                    },
                }
                k2 += 1;
            }
            out.push(acc);
            j += 1;
        }
        let r = Value::VectorInt(out);
        proof {
            assert(r@->Vector_1 =~= Seq::new(
                min_elems(am),
                |q: int| Sc::I(sum_prefix(am, am.len() as int, q)),
            ));
        }
        Ok(r)
    }
}

/// The least count is a lower bound on every argument's count.
pub open spec fn min_elems_le(args: Seq<Val>) -> bool {
    forall|i: int| 0 <= i < args.len() ==> min_elems(args) <= (#[trigger] args[i]).len()
}

/// The least count is a lower bound met by some argument.
proof fn lemma_min_elems_props(args: Seq<Val>)
    ensures
        min_elems_le(args),
        args.len() > 0 ==> exists|i: int|
            0 <= i < args.len() && min_elems(args) == (#[trigger] args[i]).len(),
    decreases args.len(),
{
    if args.len() <= 1 {
        if args.len() == 1 {
            assert(min_elems(args) == args[0].len());
        }
    } else {
        let tail = args.drop_first();
        lemma_min_elems_props(tail);
        let iw = choose|i: int| 0 <= i < tail.len() && min_elems(tail) == (#[trigger] tail[i]).len();
        if args[0].len() <= min_elems(tail) {
            assert(min_elems(args) == args[0].len());
        } else {
            assert(min_elems(args) == min_elems(tail));
            assert(args[iw + 1] == tail[iw]);
        }
        assert forall|i: int| 0 <= i < args.len() implies min_elems(args) <= (
        #[trigger] args[i]).len() by {
            if i > 0 {
                assert(tail[i - 1] == args[i]);
                assert(min_elems(tail) <= tail[i - 1].len());
            }
        }
    }
}

} // verus!
