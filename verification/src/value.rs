//! Data values stored in the engine.
//!
//! A [`Value`] is a tagged, rank-aware datum: a scalar (rank 0), a vector
//! (rank 1), or a matrix (rank 2, an ordered sequence of rows). Floating-point
//! data is carried as the IEEE-754 bit pattern of the `f64` it denotes, so
//! that every value — NaN payloads included — round-trips exactly and can be
//! reasoned about as a plain integer.
//!
//! The spec-level mirror is [`Val`]: scalars become [`Sc`] models, vectors
//! become a kind tag plus a sequence of scalar models, and matrices become a
//! sequence of row models.

use crate::error::SoAKitError;
use vstd::prelude::*;
use vstd::string::StringExecFns;

verus! {

broadcast use vstd::std_specs::vec::axiom_vec_index_decreases, vstd::std_specs::vec::axiom_vec_decreases_to_view, vstd::seq::axiom_seq_index_decreases;

/// The primitive kind of a scalar or of a vector's elements.
#[derive(Clone, Copy, Debug, PartialEq, Eq, Structural)]
pub enum ValKind {
    /// 64-bit signed integer.
    Int,
    /// 64-bit IEEE-754 value, carried as its bit pattern.
    Float,
    /// Boolean.
    Bool,
    /// String.
    Str,
}

/// Spec-level model of one scalar.
pub enum Sc {
    /// Integer scalar.
    I(i64),
    /// Float scalar, as its IEEE-754 bit pattern.
    F(u64),
    /// Boolean scalar.
    B(bool),
    /// String scalar, as its character sequence.
    S(Seq<char>),
}

impl Sc {
    /// The primitive kind of this scalar model.
    pub open spec fn kind(self) -> ValKind {
        match self {
            Sc::I(_) => ValKind::Int,
            Sc::F(_) => ValKind::Float,
            Sc::B(_) => ValKind::Bool,
            Sc::S(_) => ValKind::Str,
        }
    }
}

/// Spec-level model of a [`Value`].
pub enum Val {
    /// A single scalar.
    Scalar(Sc),
    /// A vector: its element kind and the sequence of element models.
    Vector(ValKind, Seq<Sc>),
    /// A matrix: the sequence of row models.
    Matrix(Seq<Val>),
}

impl Val {
    /// Rank: 0 for scalars, 1 for vectors, 2 for matrices.
    pub open spec fn rank(self) -> nat {
        match self {
            Val::Scalar(_) => 0,
            Val::Vector(_, _) => 1,
            Val::Matrix(_) => 2,
        }
    }

    /// Length: 1 for scalars, element count for vectors, row count for
    /// matrices.
    pub open spec fn len(self) -> nat {
        match self {
            Val::Scalar(_) => 1,
            Val::Vector(_, es) => es.len(),
            Val::Matrix(rows) => rows.len(),
        }
    }
}

/// A scalar, vector, or matrix value.
#[derive(Debug, PartialEq)]
pub enum Value {
    /// Scalar 64-bit signed integer.
    ScalarInt(i64),
    /// Scalar float, carried as the IEEE-754 bit pattern of an `f64`.
    ScalarFloat(u64),
    /// Scalar boolean.
    ScalarBool(bool),
    /// Scalar string.
    ScalarString(String),
    /// Vector of integers.
    VectorInt(Vec<i64>),
    /// Vector of floats, each carried as an IEEE-754 bit pattern.
    VectorFloat(Vec<u64>),
    /// Vector of booleans.
    VectorBool(Vec<bool>),
    /// Vector of strings.
    VectorString(Vec<String>),
    /// Matrix: each element is a row, itself a [`Value`] (typically a
    /// vector).
    Matrix(Vec<Value>),
}

/// The model of one value.
pub open spec fn value_view(v: Value) -> Val
    decreases v,
    via value_view_decreases
{
    match v {
        Value::ScalarInt(x) => Val::Scalar(Sc::I(x)),
        Value::ScalarFloat(b) => Val::Scalar(Sc::F(b)),
        Value::ScalarBool(b) => Val::Scalar(Sc::B(b)),
        Value::ScalarString(s) => Val::Scalar(Sc::S(s@)),
        Value::VectorInt(es) => Val::Vector(ValKind::Int, Seq::new(es@.len(), |i| Sc::I(es@[i]))),
        Value::VectorFloat(es) => Val::Vector(
            ValKind::Float,
            Seq::new(es@.len(), |i| Sc::F(es@[i])),
        ),
        Value::VectorBool(es) => Val::Vector(ValKind::Bool, Seq::new(es@.len(), |i| Sc::B(es@[i]))),
        Value::VectorString(es) => Val::Vector(
            ValKind::Str,
            Seq::new(es@.len(), |i| Sc::S(es@[i]@)),
        ),
        Value::Matrix(rows) => Val::Matrix(rows_view(rows@)),
    }
}

/// The models of a sequence of matrix rows, elementwise.
pub open spec fn rows_view(rows: Seq<Value>) -> Seq<Val>
    decreases rows,
{
    if rows.len() == 0 {
        Seq::empty()
    } else {
        seq![value_view(rows[0])] + rows_view(rows.drop_first())
    }
}

#[via_fn]
proof fn value_view_decreases(v: Value) {
    if let Value::Matrix(rows) = v {
        assert(decreases_to!(v => rows));
        assert(decreases_to!(rows => rows@));
    }
}

impl View for Value {
    type V = Val;

    open spec fn view(&self) -> Val {
        value_view(*self)
    }
}

/// The model sequence of matrix rows has one entry per row, the row's model.
pub proof fn lemma_rows_view_index(rows: Seq<Value>)
    ensures
        rows_view(rows).len() == rows.len(),
        forall|i: int| 0 <= i < rows.len() ==> rows_view(rows)[i] == value_view(rows[i]),
    decreases rows,
{
    if rows.len() > 0 {
        lemma_rows_view_index(rows.drop_first());
    }
}

/// Rows with equal models, elementwise, have equal model sequences.
pub proof fn lemma_rows_view_pointwise(a: Seq<Value>, b: Seq<Value>)
    requires
        a.len() == b.len(),
        forall|i: int| 0 <= i < a.len() ==> value_view(a[i]) == value_view(b[i]),
    ensures
        rows_view(a) == rows_view(b),
{
    lemma_rows_view_index(a);
    lemma_rows_view_index(b);
    assert(rows_view(a) =~= rows_view(b));
}

/// The models of a sequence of values, elementwise.
pub open spec fn vals_of(s: Seq<Value>) -> Seq<Val> {
    s.map_values(|v: Value| v@)
}

impl Clone for Value {
    /// Clones the value; the copy has the same model.
    fn clone(&self) -> (r: Self)
        ensures
            r@ == self@,
        decreases self,
    {
        match self {
            Value::ScalarInt(x) => Value::ScalarInt(*x),
            Value::ScalarFloat(b) => Value::ScalarFloat(*b),
            Value::ScalarBool(b) => Value::ScalarBool(*b),
            Value::ScalarString(s) => Value::ScalarString(s.clone()),
            Value::VectorInt(v) => {
                let r = Value::VectorInt(v.clone());
                proof {
                    assert(r@->Vector_1 =~= self@->Vector_1);
                }
                r
            },
            Value::VectorFloat(v) => {
                let r = Value::VectorFloat(v.clone());
                proof {
                    assert(r@->Vector_1 =~= self@->Vector_1);
                }
                r
            },
            Value::VectorBool(v) => {
                let r = Value::VectorBool(v.clone());
                proof {
                    assert(r@->Vector_1 =~= self@->Vector_1);
                }
                r
            },
            Value::VectorString(v) => {
                let r = Value::VectorString(v.clone());
                proof {
                    assert(r@->Vector_1 =~= self@->Vector_1);
                }
                r
            },
            Value::Matrix(rows) => {
                let mut out: Vec<Value> = Vec::new();
                let mut i: usize = 0;
                while i < rows.len()
                    invariant
                        (*self) is Matrix,
                        (*self)->Matrix_0 == *rows,
                        i <= rows.len(),
                        out@.len() == i,
                        forall|j: int| 0 <= j < i ==> out@[j]@ == rows@[j]@,
                    decreases rows.len() - i,
                {
                    let row = &rows[i];
                    proof {
                        assert(decreases_to!(*self => (*self)->Matrix_0));
                        assert(decreases_to!(*rows => rows@));
                        assert(decreases_to!(rows@ => rows@[i as int]));
                    }
                    out.push(row.clone());
                    i += 1;
                }
                let r = Value::Matrix(out);
                proof {
                    lemma_rows_view_pointwise(out@, rows@);
                }
                r
            },
        }
    }
}

impl Value {
    /// True for the scalar variants.
    pub fn is_scalar(&self) -> (r: bool)
        ensures
            r == (self@ is Scalar),
    {
        matches!(
            self,
            Value::ScalarInt(_) | Value::ScalarFloat(_) | Value::ScalarBool(_)
                | Value::ScalarString(_),
        )
    }

    /// True for the vector variants.
    pub fn is_vector(&self) -> (r: bool)
        ensures
            r == (self@ is Vector),
    {
        matches!(
            self,
            Value::VectorInt(_) | Value::VectorFloat(_) | Value::VectorBool(_)
                | Value::VectorString(_),
        )
    }

    /// True for the matrix variant.
    pub fn is_matrix(&self) -> (r: bool)
        ensures
            r == (self@ is Matrix),
    {
        matches!(self, Value::Matrix(_))
    }

    /// The rank: 0 for scalars, 1 for vectors, 2 for matrices.
    pub fn rank(&self) -> (r: usize)
        ensures
            r == self@.rank(),
    {
        match self {
            Value::ScalarInt(_) | Value::ScalarFloat(_) | Value::ScalarBool(_)
                | Value::ScalarString(_) => 0,
            Value::VectorInt(_) | Value::VectorFloat(_) | Value::VectorBool(_)
                | Value::VectorString(_) => 1,
            Value::Matrix(_) => 2,
        }
    }

    /// The length: 1 for scalars, element count for vectors, row count for
    /// matrices.
    pub fn len(&self) -> (r: usize)
        ensures
            r == self@.len(),
    {
        match self {
            Value::ScalarInt(_) | Value::ScalarFloat(_) | Value::ScalarBool(_)
                | Value::ScalarString(_) => 1,
            Value::VectorInt(v) => v.len(),
            Value::VectorFloat(v) => v.len(),
            Value::VectorBool(v) => v.len(),
            Value::VectorString(v) => v.len(),
            Value::Matrix(rows) => {
                proof {
                    lemma_rows_view_index(rows@);
                }
                rows.len()
            },
        }
    }

    /// True when the length is 0; scalars are never empty.
    pub fn is_empty(&self) -> (r: bool)
        ensures
            r == (self@.len() == 0),
    {
        self.len() == 0
    }

    /// The shape: `[]` for scalars, `[n]` for vectors, `[rows, first_row_len]`
    /// for non-empty matrices and `[0]` for empty ones.
    pub fn shape(&self) -> (r: Vec<usize>)
        ensures
            self@ is Scalar ==> r@.len() == 0,
            self@ is Vector ==> r@.len() == 1 && r@[0] == self@.len(),
            self@ is Matrix && self@.len() == 0 ==> r@.len() == 1 && r@[0] == 0,
            self@ is Matrix && self@.len() > 0 ==> r@.len() == 2 && r@[0] == self@.len() && r@[1]
                == self@->Matrix_0[0].len(),
    {
        match self {
            Value::ScalarInt(_) | Value::ScalarFloat(_) | Value::ScalarBool(_)
                | Value::ScalarString(_) => Vec::new(),
            Value::VectorInt(v) => {
                let mut r = Vec::new();
                r.push(v.len());
                r
            },
            Value::VectorFloat(v) => {
                let mut r = Vec::new();
                r.push(v.len());
                r
            },
            Value::VectorBool(v) => {
                let mut r = Vec::new();
                r.push(v.len());
                r
            },
            Value::VectorString(v) => {
                let mut r = Vec::new();
                r.push(v.len());
                r
            },
            Value::Matrix(rows) => {
                proof {
                    lemma_rows_view_index(rows@);
                }
                let mut r = Vec::new();
                if rows.len() == 0 {
                    r.push(0);
                } else {
                    r.push(rows.len());
                    r.push(rows[0].len());
                }
                r
            },
        }
    }

    /// Extracts the element at `idx` from a vector, as a scalar of the same
    /// primitive kind. Fails with `IndexOutOfBounds` past the end and with
    /// `InvalidArgument` on a non-vector.
    pub fn get_element(&self, idx: usize) -> (r: Result<Value, SoAKitError>)
        ensures
            self@ is Vector && idx < self@.len() ==> r is Ok && r->Ok_0@ == Val::Scalar(
                self@->Vector_1[idx as int],
            ),
            self@ is Vector && idx >= self@.len() ==> r is Err && r->Err_0@ == (
            crate::error::ErrModel::IndexOutOfBounds { index: idx, max: self.spec_len_usize() }),
            !(self@ is Vector) ==> r is Err && r->Err_0@ is InvalidArgument,
    {
        match self {
            Value::VectorInt(v) => {
                if idx < v.len() {
                    Ok(Value::ScalarInt(v[idx]))
                } else {
                    Err(SoAKitError::IndexOutOfBounds { index: idx, max: v.len() })
                }
            },
            Value::VectorFloat(v) => {
                if idx < v.len() {
                    Ok(Value::ScalarFloat(v[idx]))
                } else {
                    Err(SoAKitError::IndexOutOfBounds { index: idx, max: v.len() })
                }
            },
            Value::VectorBool(v) => {
                if idx < v.len() {
                    Ok(Value::ScalarBool(v[idx]))
                } else {
                    Err(SoAKitError::IndexOutOfBounds { index: idx, max: v.len() })
                }
            },
            Value::VectorString(v) => {
                if idx < v.len() {
                    Ok(Value::ScalarString(v[idx].clone()))
                } else {
                    Err(SoAKitError::IndexOutOfBounds { index: idx, max: v.len() })
                }
            },
            _ => Err(
                SoAKitError::InvalidArgument(String::from_str("get_element only works on vectors")),
            ),
        }
    }

    /// The length as a `usize`; equal to `len()` for values that fit.
    pub open spec fn spec_len_usize(&self) -> usize {
        self@.len() as usize
    }
}

/// The common primitive kind of a non-empty sequence of scalar models, or
/// `None` when the sequence is empty, holds a non-scalar, or mixes kinds.
pub open spec fn scalars_kind(vs: Seq<Val>) -> Option<ValKind> {
    if vs.len() > 0 && vs[0] is Scalar && (forall|i: int|
        0 <= i < vs.len() ==> vs[i] is Scalar && (#[trigger] vs[i])->Scalar_0.kind()
            == vs[0]->Scalar_0.kind()) {
        Some(vs[0]->Scalar_0.kind())
    } else {
        None
    }
}

/// The scalar models inside a sequence of scalar value models.
pub open spec fn sc_models(vs: Seq<Val>) -> Seq<Sc> {
    vs.map_values(|v: Val| v->Scalar_0)
}

/// Packs a homogeneous sequence of scalar values into one vector value of the
/// same primitive kind. Fails with `InvalidArgument` when the sequence is
/// empty, holds a non-scalar, or mixes kinds.
pub fn from_scalars(values: Vec<Value>) -> (r: Result<Value, SoAKitError>)
    ensures
        scalars_kind(vals_of(values@)) is Some ==> r is Ok && r->Ok_0@ == Val::Vector(
            scalars_kind(vals_of(values@))->0,
            sc_models(vals_of(values@)),
        ),
        scalars_kind(vals_of(values@)) is None ==> r is Err && r->Err_0@ is InvalidArgument,
{
    if values.len() == 0 {
        return Err(SoAKitError::InvalidArgument(String::from_str("values cannot be empty")));
    }
    match &values[0] {
        Value::ScalarInt(_) => {
            let mut out: Vec<i64> = Vec::new();
            let mut i: usize = 0;
            while i < values.len()
                invariant
                    i <= values.len(),
                    values.len() > 0,
                    vals_of(values@)[0] is Scalar,
                    vals_of(values@)[0]->Scalar_0.kind() == ValKind::Int,
                    out@.len() == i,
                    forall|j: int|
                        0 <= j < i ==> vals_of(values@)[j] is Scalar && (#[trigger] vals_of(
                            values@,
                        )[j])->Scalar_0 == Sc::I(out@[j]),
                decreases values.len() - i,
            {
                match &values[i] {
                    Value::ScalarInt(x) => out.push(*x),
                    _ => {
                        proof {
                            let vm = vals_of(values@);
                            assert(!(vm[i as int] is Scalar && vm[i as int]->Scalar_0.kind()
                                == vm[0]->Scalar_0.kind()));
                        }
                        return Err(
                            SoAKitError::InvalidArgument(
                                String::from_str("values mix primitive kinds"),
                            ),
                        );
                    },
                }
                i += 1;
            }
            let r = Value::VectorInt(out);
            proof {
                assert(r@->Vector_1 =~= sc_models(vals_of(values@)));
            }
            Ok(r)
        },
        Value::ScalarFloat(_) => {
            let mut out: Vec<u64> = Vec::new();
            let mut i: usize = 0;
            while i < values.len()
                invariant
                    i <= values.len(),
                    values.len() > 0,
                    vals_of(values@)[0] is Scalar,
                    vals_of(values@)[0]->Scalar_0.kind() == ValKind::Float,
                    out@.len() == i,
                    forall|j: int|
                        0 <= j < i ==> vals_of(values@)[j] is Scalar && (#[trigger] vals_of(
                            values@,
                        )[j])->Scalar_0 == Sc::F(out@[j]),
                decreases values.len() - i,
            {
                match &values[i] {
                    Value::ScalarFloat(x) => out.push(*x),
                    _ => {
                        proof {
                            let vm = vals_of(values@);
                            assert(!(vm[i as int] is Scalar && vm[i as int]->Scalar_0.kind()
                                == vm[0]->Scalar_0.kind()));
                        }
                        return Err(
                            SoAKitError::InvalidArgument(
                                String::from_str("values mix primitive kinds"),
                            ),
                        );
                    },
                }
                i += 1;
            }
            let r = Value::VectorFloat(out);
            proof {
                assert(r@->Vector_1 =~= sc_models(vals_of(values@)));
            }
            Ok(r)
        },
        Value::ScalarBool(_) => {
            let mut out: Vec<bool> = Vec::new();
            let mut i: usize = 0;
            while i < values.len()
                invariant
                    i <= values.len(),
                    values.len() > 0,
                    vals_of(values@)[0] is Scalar,
                    vals_of(values@)[0]->Scalar_0.kind() == ValKind::Bool,
                    out@.len() == i,
                    forall|j: int|
                        0 <= j < i ==> vals_of(values@)[j] is Scalar && (#[trigger] vals_of(
                            values@,
                        )[j])->Scalar_0 == Sc::B(out@[j]),
                decreases values.len() - i,
            {
                match &values[i] {
                    Value::ScalarBool(x) => out.push(*x),
                    _ => {
                        proof {
                            let vm = vals_of(values@);
                            assert(!(vm[i as int] is Scalar && vm[i as int]->Scalar_0.kind()
                                == vm[0]->Scalar_0.kind()));
                        }
                        return Err(
                            SoAKitError::InvalidArgument(
                                String::from_str("values mix primitive kinds"),
                            ),
                        );
                    },
                }
                i += 1;
            }
            let r = Value::VectorBool(out);
            proof {
                assert(r@->Vector_1 =~= sc_models(vals_of(values@)));
            }
            Ok(r)
        },
        Value::ScalarString(_) => {
            let mut out: Vec<String> = Vec::new();
            let mut i: usize = 0;
            while i < values.len()
                invariant
                    i <= values.len(),
                    values.len() > 0,
                    vals_of(values@)[0] is Scalar,
                    vals_of(values@)[0]->Scalar_0.kind() == ValKind::Str,
                    out@.len() == i,
                    forall|j: int|
                        0 <= j < i ==> vals_of(values@)[j] is Scalar && (#[trigger] vals_of(
                            values@,
                        )[j])->Scalar_0 == Sc::S(out@[j]@),
                decreases values.len() - i,
            {
                match &values[i] {
                    Value::ScalarString(x) => out.push(x.clone()),
                    _ => {
                        proof {
                            let vm = vals_of(values@);
                            assert(!(vm[i as int] is Scalar && vm[i as int]->Scalar_0.kind()
                                == vm[0]->Scalar_0.kind()));
                        }
                        return Err(
                            SoAKitError::InvalidArgument(
                                String::from_str("values mix primitive kinds"),
                            ),
                        );
                    },
                }
                i += 1;
            }
            let r = Value::VectorString(out);
            proof {
                assert(r@->Vector_1 =~= sc_models(vals_of(values@)));
            }
            Ok(r)
        },
        _ => Err(SoAKitError::InvalidArgument(String::from_str("values must be scalars"))),
    }
}

impl Value {
    /// Concatenates two vector values of the same primitive kind. Fails with
    /// `InvalidArgument` when either side is not a vector or the kinds differ.
    pub fn concat_vector(self, other: &Value) -> (r: Result<Value, SoAKitError>)
        ensures
            self@ is Vector && other@ is Vector && self@->Vector_0 == other@->Vector_0 ==> r is Ok
                && r->Ok_0@ == Val::Vector(self@->Vector_0, self@->Vector_1 + other@->Vector_1),
            !(self@ is Vector && other@ is Vector && self@->Vector_0 == other@->Vector_0) ==> r
                is Err && r->Err_0@ is InvalidArgument,
    {
        match (self, other) {
            (Value::VectorInt(mut a), Value::VectorInt(b)) => {
                let ghost a0 = a@;
                a.extend_from_slice(b.as_slice());
                let r = Value::VectorInt(a);
                proof {
                    assert(r@->Vector_1 =~= Val::Vector(
                        ValKind::Int,
                        Seq::new(a0.len(), |i| Sc::I(a0[i])),
                    )->Vector_1 + other@->Vector_1);
                }
                Ok(r)
            },
            (Value::VectorFloat(mut a), Value::VectorFloat(b)) => {
                let ghost a0 = a@;
                a.extend_from_slice(b.as_slice());
                let r = Value::VectorFloat(a);
                proof {
                    assert(r@->Vector_1 =~= Val::Vector(
                        ValKind::Float,
                        Seq::new(a0.len(), |i| Sc::F(a0[i])),
                    )->Vector_1 + other@->Vector_1);
                }
                Ok(r)
            },
            (Value::VectorBool(mut a), Value::VectorBool(b)) => {
                let ghost a0 = a@;
                a.extend_from_slice(b.as_slice());
                let r = Value::VectorBool(a);
                proof {
                    assert(r@->Vector_1 =~= Val::Vector(
                        ValKind::Bool,
                        Seq::new(a0.len(), |i| Sc::B(a0[i])),
                    )->Vector_1 + other@->Vector_1);
                }
                Ok(r)
            },
            (Value::VectorString(mut a), Value::VectorString(b)) => {
                let ghost a0 = a@;
                let mut i: usize = 0;
                while i < b.len()
                    invariant
                        i <= b.len(),
                        a@.len() == a0.len() + i,
                        forall|j: int| 0 <= j < a0.len() ==> a@[j] == a0[j],
                        forall|j: int| 0 <= j < i ==> a@[a0.len() + j]@ == b@[j]@,
                    decreases b.len() - i,
                {
                    a.push(b[i].clone());
                    i += 1;
                }
                let r = Value::VectorString(a);
                proof {
                    assert(r@->Vector_1 =~= Seq::new(a0.len(), |i| Sc::S(a0[i]@)) + other@->Vector_1);
                }
                Ok(r)
            },
            _ => Err(
                SoAKitError::InvalidArgument(
                    String::from_str("cannot concatenate values of different kinds"),
                ),
            ),
        }
    }
}

/// True when a bit pattern denotes an IEEE-754 double NaN.
pub open spec fn f64_bits_is_nan(b: u64) -> bool {
    (b >> 52) & 0x7ff == 0x7ff && (b & 0xf_ffff_ffff_ffff) != 0
}

/// True when a bit pattern denotes an IEEE-754 double zero of either sign.
pub open spec fn f64_bits_is_zero(b: u64) -> bool {
    b & 0x7fff_ffff_ffff_ffff == 0
}

/// Equality used when a partition mask is built over float data: any NaN
/// matches any NaN, and otherwise the IEEE-754 equality restricted to bit
/// patterns (identical bits, or two zeros of either sign).
pub open spec fn f64_bits_same(a: u64, b: u64) -> bool {
    (f64_bits_is_nan(a) && f64_bits_is_nan(b)) || (!f64_bits_is_nan(a) && !f64_bits_is_nan(b) && (a
        == b || (f64_bits_is_zero(a) && f64_bits_is_zero(b))))
}

/// A monotone integer key for sorting float bit patterns: on non-NaN values
/// its order agrees with the numeric order of the doubles they denote, with
/// the negative zero placed just before the positive one.
pub open spec fn f64_sort_key(b: u64) -> u64 {
    if b >> 63 == 1 {
        !b
    } else {
        b ^ 0x8000_0000_0000_0000
    }
}

/// Exec twin of [`f64_bits_is_nan`].
pub fn f64_bits_is_nan_exec(b: u64) -> (r: bool)
    ensures
        r == f64_bits_is_nan(b),
{
    (b >> 52u64) & 0x7ff == 0x7ff && (b & 0xf_ffff_ffff_ffff) != 0
}

/// Exec twin of [`f64_bits_is_zero`].
pub fn f64_bits_is_zero_exec(b: u64) -> (r: bool)
    ensures
        r == f64_bits_is_zero(b),
{
    b & 0x7fff_ffff_ffff_ffff == 0
}

/// Exec twin of [`f64_bits_same`].
pub fn f64_bits_same_exec(a: u64, b: u64) -> (r: bool)
    ensures
        r == f64_bits_same(a, b),
{
    let an = f64_bits_is_nan_exec(a);
    let bn = f64_bits_is_nan_exec(b);
    (an && bn) || (!an && !bn && (a == b || (f64_bits_is_zero_exec(a) && f64_bits_is_zero_exec(b))))
}

/// Exec twin of [`f64_sort_key`].
pub fn f64_sort_key_exec(b: u64) -> (r: u64)
    ensures
        r == f64_sort_key(b),
{
    if b >> 63u64 == 1 {
        !b
    } else {
        b ^ 0x8000_0000_0000_0000
    }
}

} // verus!
