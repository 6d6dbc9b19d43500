//! Field definitions: validators, derived rules, and the registry.
//!
//! A field is registered once with a validator (a predicate over values),
//! and, for a derived field, an ordered dependency list together with a rule
//! that computes the column from the dependencies' columns. Validators and
//! rules are trait objects of the caller's choosing; each carries a spec-level
//! description of its own behaviour, so contracts over the registry stay
//! exact.

use crate::error::{ErrModel, SoAKitError};
use crate::fieldmap::FieldMap;
use crate::util::valid_field_name;
use crate::value::{vals_of, Val, Value};
use vstd::prelude::*;
use vstd::string::StringExecFns;

verus! {

/// Relates an executable result to its spec-level model.
pub open spec fn res_models(r: Result<Value, SoAKitError>, m: Result<Val, ErrModel>) -> bool {
    match r {
        Ok(v) => m is Ok && v@ == m->Ok_0,
        Err(e) => m is Err && e@ == m->Err_0,
    }
}

/// A predicate over values, chosen at registration time. `spec_check` states
/// which value models the predicate accepts; `check` decides it.
pub trait Validator: Sized {
    /// The predicate, at the model level.
    spec fn spec_check(&self, v: Val) -> bool;

    /// Decides the predicate.
    fn check(&self, v: &Value) -> (r: bool)
        ensures
            r == self.spec_check(v@),
    ;
}

/// A rule computing a derived column from the dependency columns, in their
/// declared order. `spec_compute` states the result for every argument list;
/// `compute` produces it.
pub trait DerivedRule: Sized {
    /// The computed result, at the model level.
    spec fn spec_compute(&self, args: Seq<Val>) -> Result<Val, ErrModel>;

    /// Computes the result.
    fn compute(&self, args: &Vec<Value>) -> (r: Result<Value, SoAKitError>)
        ensures
            res_models(r, self.spec_compute(vals_of(args@))),
    ;
}

/// Everything the registry knows about one field.
pub struct FieldMetadata<V, D> {
    /// The field's validator.
    pub validator: V,
    /// Whether the field is computed from other fields.
    pub is_derived: bool,
    /// For derived fields, the fields this one depends on, in the order the
    /// rule receives them.
    pub dependencies: Vec<String>,
    /// For derived fields, the rule that computes the column.
    pub derived_func: Option<D>,
}

impl<V, D> FieldMetadata<V, D> {
    /// The dependency names, as character sequences, in order.
    pub open spec fn dep_views(&self) -> Seq<Seq<char>> {
        self.dependencies@.map_values(|n: String| n@)
    }

    /// A derived field has dependencies and a rule; a plain field has
    /// neither.
    pub open spec fn wf(&self) -> bool {
        if self.is_derived {
            self.dependencies@.len() > 0 && self.derived_func is Some
        } else {
            self.dependencies@.len() == 0 && self.derived_func is None
        }
    }

    /// Metadata for a plain (stored, non-derived) field.
    pub fn new(validator: V) -> (r: Self)
        ensures
            r == (FieldMetadata {
                validator,
                is_derived: false,
                dependencies: r.dependencies,
                derived_func: None::<D>,
            }),
            r.dependencies@.len() == 0,
            r.wf(),
    {
        FieldMetadata { validator, is_derived: false, dependencies: Vec::new(), derived_func: None }
    }

    /// Metadata for a derived field; the dependency list must be non-empty.
    pub fn new_derived(validator: V, dependencies: Vec<String>, derived_func: D) -> (r: Result<
        Self,
        SoAKitError,
    >)
        ensures
            dependencies@.len() == 0 ==> r is Err && r->Err_0@ is DerivedFieldNoDeps,
            dependencies@.len() > 0 ==> r is Ok && r->Ok_0 == (FieldMetadata {
                validator,
                is_derived: true,
                dependencies,
                derived_func: Some(derived_func),
            }),
            r is Ok ==> r->Ok_0.wf(),
    {
        if dependencies.len() == 0 {
            return Err(
                SoAKitError::DerivedFieldNoDeps(
                    String::from_str("derived field must have dependencies"),
                ),
            );
        }
        Ok(
            FieldMetadata {
                validator,
                is_derived: true,
                dependencies,
                derived_func: Some(derived_func),
            },
        )
    }
}

/// The catalog of field definitions, keyed by field name.
#[verifier::reject_recursive_types(V)]
#[verifier::reject_recursive_types(D)]
pub struct Registry<V, D> {
    /// The fields, in registration order.
    pub fields: FieldMap<FieldMetadata<V, D>>,
}

impl<V, D> View for Registry<V, D> {
    type V = Map<Seq<char>, FieldMetadata<V, D>>;

    open spec fn view(&self) -> Map<Seq<char>, FieldMetadata<V, D>> {
        self.fields@
    }
}

impl<V, D> Registry<V, D> {
    /// The registered names, in registration order.
    pub open spec fn key_views(&self) -> Seq<Seq<char>> {
        self.fields.key_views()
    }

    /// Well-formed: the table is consistent, every name is valid, and every
    /// entry keeps the derived/dependency invariant.
    pub open spec fn wf(&self) -> bool {
        &&& self.fields.wf()
        &&& forall|k: Seq<char>|
            #[trigger] self@.contains_key(k) ==> valid_field_name(k) && self@[k].wf()
    }

    /// True when the field is registered and the value passes its validator.
    pub open spec fn spec_validate(&self, f: Seq<char>, v: Val) -> bool
        where V: Validator
    {
        self@.contains_key(f) && self@[f].validator.spec_check(v)
    }

    /// Creates an empty registry.
    pub fn new() -> (r: Self)
        ensures
            r@ == Map::<Seq<char>, FieldMetadata<V, D>>::empty(),
            r.key_views() == Seq::<Seq<char>>::empty(),
            r.wf(),
    {
        Registry { fields: FieldMap::new() }
    }

    /// Registers a field. Rejects invalid names, duplicates, and
    /// inconsistent derived/dependency arguments; on success the field is
    /// appended to the catalog.
    pub fn register(
        &mut self,
        name: String,
        validator: V,
        is_derived: bool,
        dependencies: Vec<String>,
        derived_func: Option<D>,
    ) -> (r: Result<(), SoAKitError>)
        requires
            old(self).wf(),
        ensures
            final(self).wf(),
            !valid_field_name(name@) ==> r is Err && r->Err_0@ is InvalidArgument,
            valid_field_name(name@) && old(self)@.contains_key(name@) ==> r is Err && r->Err_0@
                == ErrModel::FieldAlreadyExists(name@),
            valid_field_name(name@) && !old(self)@.contains_key(name@) && is_derived
                && dependencies@.len() == 0 ==> r is Err && r->Err_0@ == ErrModel::DerivedFieldNoDeps(
                name@,
            ),
            valid_field_name(name@) && !old(self)@.contains_key(name@) && is_derived
                && dependencies@.len() > 0 && derived_func is None ==> r is Err && r->Err_0@
                is InvalidArgument,
            valid_field_name(name@) && !old(self)@.contains_key(name@) && !is_derived && (
            dependencies@.len() > 0 || derived_func is Some) ==> r is Err && r->Err_0@
                is InvalidArgument,
            r is Err ==> final(self)@ == old(self)@ && final(self).key_views() == old(
                self,
            ).key_views(),
            r is Ok <==> valid_field_name(name@) && !old(self)@.contains_key(name@) && (if is_derived {
                dependencies@.len() > 0 && derived_func is Some
            } else {
                dependencies@.len() == 0 && derived_func is None
            }),
            r is Ok ==> final(self)@ == old(self)@.insert(
                name@,
                (FieldMetadata { validator, is_derived, dependencies, derived_func }),
            ) && final(self).key_views() == old(self).key_views().push(name@),
    {
        let ghost gname = name@;
        if !crate::util::is_valid_field_name(name.as_str()) {
            return Err(SoAKitError::InvalidArgument(String::from_str("invalid field name")));
        }
        proof {
            assert(valid_field_name(gname));
        }
        if self.fields.contains_key(name.as_str()) {
            return Err(SoAKitError::FieldAlreadyExists(name));
        }
        if is_derived {
            if dependencies.len() == 0 {
                return Err(SoAKitError::DerivedFieldNoDeps(name));
            }
            match derived_func {
                Some(func) => {
                    let metadata = FieldMetadata {
                        validator,
                        is_derived: true,
                        dependencies,
                        derived_func: Some(func),
                    };
                    let ghost gmeta = metadata;
                    self.fields.insert(name, metadata);
                    proof {
                        assert(self@ == old(self)@.insert(gname, gmeta));
                        assert(gmeta.wf());
                        assert forall|k: Seq<char>| #[trigger] self@.contains_key(k)
                            implies valid_field_name(k) && self@[k].wf() by {
                            if k == gname {
                                assert(self@[k] == gmeta);
                            } else {
                                assert(old(self)@.contains_key(k));
                                assert(self@[k] == old(self)@[k]);
                            }
                        }
                    }
                    Ok(())
                },
                None => Err(
                    SoAKitError::InvalidArgument(
                        String::from_str("derived field must have a derived function"),
                    ),
                ),
            }
        } else {
            if dependencies.len() > 0 {
                return Err(
                    SoAKitError::InvalidArgument(
                        String::from_str("non-derived field cannot have dependencies"),
                    ),
                );
            }
            match derived_func {
                Some(_) => Err(
                    SoAKitError::InvalidArgument(
                        String::from_str("non-derived field cannot have a derived function"),
                    ),
                ),
                None => {
                    let metadata = FieldMetadata {
                        validator,
                        is_derived: false,
                        dependencies,
                        derived_func: None,
                    };
                    let ghost gmeta = metadata;
                    self.fields.insert(name, metadata);
                    proof {
                        assert(self@ == old(self)@.insert(gname, gmeta));
                        assert(gmeta.wf());
                        assert forall|k: Seq<char>| #[trigger] self@.contains_key(k)
                            implies valid_field_name(k) && self@[k].wf() by {
                            if k == gname {
                                assert(self@[k] == gmeta);
                            } else {
                                assert(old(self)@.contains_key(k));
                                assert(self@[k] == old(self)@[k]);
                            }
                        }
                    }
                    Ok(())
                },
            }
        }
    }

    /// True when the field is registered and the value passes its validator;
    /// false otherwise — never an error.
    pub fn validate(&self, field: &str, value: &Value) -> (r: bool)
        where V: Validator
        ensures
            r == self.spec_validate(field@, value@),
    {
        match self.fields.get(field) {
            Some(meta) => meta.validator.check(value),
            None => false,
        }
    }

    /// Looks up a field's metadata.
    pub fn get_metadata<'a>(&'a self, field: &str) -> (r: Option<&'a FieldMetadata<V, D>>)
        ensures
            match r {
                Some(m) => self@.contains_key(field@) && *m == self@[field@],
                None => !self@.contains_key(field@),
            },
    {
        self.fields.get(field)
    }

    /// True when the field is registered.
    pub fn has_field(&self, field: &str) -> (r: bool)
        ensures
            r == self@.contains_key(field@),
    {
        self.fields.contains_key(field)
    }

    /// The registered names, in registration order.
    pub fn list_fields(&self) -> (r: Vec<String>)
        ensures
            r@.len() == self.key_views().len(),
            forall|i: int| 0 <= i < r@.len() ==> r@[i]@ == self.key_views()[i],
    {
        self.fields.field_names()
    }

    /// The number of registered fields.
    pub fn len(&self) -> (n: usize)
        ensures
            n == self.key_views().len(),
    {
        self.fields.len()
    }

    /// True when nothing is registered.
    pub fn is_empty(&self) -> (r: bool)
        ensures
            r == (self.key_views().len() == 0),
    {
        self.fields.is_empty()
    }
}

impl<V, D> Default for Registry<V, D> {
    /// An empty registry.
    fn default() -> (r: Self)
        ensures
            r@ == Map::<Seq<char>, FieldMetadata<V, D>>::empty(),
            r.key_views() == Seq::<Seq<char>>::empty(),
            r.wf(),
    {
        Registry::new()
    }
}

} // verus!
