//! The record (array-of-objects) form of a store.
//!
//! A record is one row as a map from field name to scalar: the row
//! identifier under `id`, and one entry per non-system column. Encoding a
//! store walks its rows; decoding walks the registry's non-derived fields,
//! validates every record's value, and writes each column once. The byte
//! formats around this live outside the verified library; these two
//! functions carry the logic.

use crate::bulk::Bulk;
use crate::error::{ErrModel, SoAKitError};
use crate::fieldmap::FieldMap;
use crate::meta::{DerivedRule, FieldMetadata, Registry, Validator};
use crate::value::{Sc, Val, Value};
use vstd::prelude::*;
use vstd::seq_lib::*;
use vstd::string::StringExecFns;
use vstd::view::View as _;

verus! {

/// Turns a store into one record per row: the identifier under `id`, and
/// each non-system column's scalar for that row. A data column itself named
/// `id` overrides the identifier entry, as the column write comes second.
#[verifier::rlimit(100)]
pub fn to_records_values(b: &Bulk) -> (r: Vec<FieldMap<Value>>)
    requires
        b.wf(),
    ensures
        r@.len() == b.meta.count,
        forall|i: int| 0 <= i < r@.len() ==> (#[trigger] r@[i]).wf(),
        forall|i: int| 0 <= i < r@.len() ==> (#[trigger] r@[i])@.contains_key("id"@),
        !(b.has_col("id"@) && !crate::util::sys_prefixed("id"@)) ==> (forall|i: int|
            0 <= i < r@.len() ==> (#[trigger] r@[i])@["id"@]@ == Val::Scalar(
                Sc::I(b.meta.id@[i] as i64),
            )),
        forall|i: int, f: Seq<char>|
            0 <= i < r@.len() && b.has_col(f) && !crate::util::sys_prefixed(f)
                ==> #[trigger] r@[i]@.contains_key(f),
        forall|i: int, f: Seq<char>|
            0 <= i < r@.len() && b.has_col(f) && !crate::util::sys_prefixed(f) ==> (
            #[trigger] r@[i]@[f])@ == Val::Scalar(b.col_elems(f)[i]),
{
    let count = b.count();
    let fields: Vec<String> = if b.chunks.len() == 0 {
        Vec::new()
    } else {
        b.chunks[0].columns.field_names()
    };
    let ghost fv = fields@.map_values(|n: String| n@);
    proof {
        if b.chunks@.len() > 0 {
            assert(b.chunks@[0].columns.wf());
            assert(fv =~= b.chunks@[0].columns.key_views());
        }
        assert forall|f: Seq<char>| b.has_col(f) implies fv.contains(f) by {
            assert(b.chunks@[0].columns@.contains_key(f));
            assert(b.chunks@[0].columns.key_views().contains(f));
        }
    }
    let mut flats: Vec<Vec<Value>> = Vec::new();
    let mut k: usize = 0;
    while k < fields.len()
        invariant
            b.wf(),
            count == b.meta.count,
            fv == fields@.map_values(|n: String| n@),
            forall|t: int| 0 <= t < fv.len() ==> b.has_col(#[trigger] fv[t]),
            k <= fv.len(),
            flats@.len() == k,
            forall|t: int| 0 <= t < k ==> (#[trigger] flats@[t])@.len() == count,
            forall|t: int, i: int|
                0 <= t < k && 0 <= i < count ==> (#[trigger] flats@[t]@[i])@ == Val::Scalar(
                    b.col_elems(fv[t])[i],
                ),
        decreases fv.len() - k,
    {
        proof {
            crate::bulk::lemma_col_elems_len(b.chunks@, count as nat, fv[k as int]);
        }
        let flat = b.flat_scalars(fields[k].as_str());
        proof {
            assert forall|i: int|
                0 <= i < count implies (#[trigger] flat@[i])@ == Val::Scalar(
                b.col_elems(fv[k as int])[i],
            ) by {
                assert(crate::value::vals_of(flat@)[i] == crate::bulk::scalar_vals(
                    b.col_elems(fv[k as int]),
                )[i]);
            }
        }
        flats.push(flat);
        k += 1;
    }
    let mut r: Vec<FieldMap<Value>> = Vec::new();
    let mut i: usize = 0;
    while i < count
        invariant
            b.wf(),
            count == b.meta.count,
            fv == fields@.map_values(|n: String| n@),
            forall|t: int| 0 <= t < fv.len() ==> b.has_col(#[trigger] fv[t]),
            forall|t1: int, t2: int| 0 <= t1 < t2 < fv.len() ==> fv[t1] != fv[t2],
            forall|f: Seq<char>| b.has_col(f) ==> fv.contains(f),
            flats@.len() == fv.len(),
            forall|t: int| 0 <= t < fv.len() ==> (#[trigger] flats@[t])@.len() == count,
            forall|t: int, i2: int|
                0 <= t < fv.len() && 0 <= i2 < count ==> (#[trigger] flats@[t]@[i2])@
                    == Val::Scalar(b.col_elems(fv[t])[i2]),
            i <= count,
            r@.len() == i,
            forall|i2: int| 0 <= i2 < i ==> (#[trigger] r@[i2]).wf(),
            forall|i2: int| 0 <= i2 < i ==> (#[trigger] r@[i2])@.contains_key("id"@),
            !(b.has_col("id"@) && !crate::util::sys_prefixed("id"@)) ==> (forall|i2: int|
                0 <= i2 < i ==> (#[trigger] r@[i2])@["id"@]@ == Val::Scalar(
                    Sc::I(b.meta.id@[i2] as i64),
                )),
            forall|i2: int, f: Seq<char>|
                0 <= i2 < i && b.has_col(f) && !crate::util::sys_prefixed(f)
                    ==> #[trigger] r@[i2]@.contains_key(f),
            forall|i2: int, f: Seq<char>|
                0 <= i2 < i && b.has_col(f) && !crate::util::sys_prefixed(f) ==> (
                #[trigger] r@[i2]@[f])@ == Val::Scalar(b.col_elems(f)[i2]),
        decreases count - i,
    {
        let rec = row_record(b, &fields, &flats, i, Ghost(fv));
        r.push(rec);
        i += 1;
    }
    r
}

/// Builds the record for one row.
#[verifier::rlimit(100)]
fn row_record(
    b: &Bulk,
    fields: &Vec<String>,
    flats: &Vec<Vec<Value>>,
    i: usize,
    gfv: Ghost<Seq<Seq<char>>>,
) -> (rec: FieldMap<Value>)
    requires
        b.wf(),
        i < b.meta.count,
        gfv@ == fields@.map_values(|n: String| n@),
        forall|t: int| 0 <= t < gfv@.len() ==> b.has_col(#[trigger] gfv@[t]),
        forall|t1: int, t2: int| 0 <= t1 < t2 < gfv@.len() ==> gfv@[t1] != gfv@[t2],
        forall|f: Seq<char>| b.has_col(f) ==> gfv@.contains(f),
        flats@.len() == gfv@.len(),
        forall|t: int| 0 <= t < gfv@.len() ==> (#[trigger] flats@[t])@.len() == b.meta.count,
        forall|t: int, i2: int|
            0 <= t < gfv@.len() && 0 <= i2 < b.meta.count ==> (#[trigger] flats@[t]@[i2])@
                == Val::Scalar(b.col_elems(gfv@[t])[i2]),
    ensures
        rec.wf(),
        rec@.contains_key("id"@),
        !(b.has_col("id"@) && !crate::util::sys_prefixed("id"@)) ==> rec@["id"@]@ == Val::Scalar(
            Sc::I(b.meta.id@[i as int] as i64),
        ),
        forall|f: Seq<char>|
            b.has_col(f) && !crate::util::sys_prefixed(f) ==> #[trigger] rec@.contains_key(f),
        forall|f: Seq<char>|
            b.has_col(f) && !crate::util::sys_prefixed(f) ==> (#[trigger] rec@[f])@ == Val::Scalar(
                b.col_elems(f)[i as int],
            ),
{
    let ghost fv = gfv@;
    let mut rec: FieldMap<Value> = FieldMap::new();
    let idv = b.meta.id[i];
    rec.insert(String::from_str("id"), Value::ScalarInt(#[verifier::truncate] (idv as i64)));
    let mut k2: usize = 0;
    while k2 < fields.len()
        invariant
            b.wf(),
            i < b.meta.count,
            fv == fields@.map_values(|n: String| n@),
            forall|t: int| 0 <= t < fv.len() ==> b.has_col(#[trigger] fv[t]),
            forall|t1: int, t2: int| 0 <= t1 < t2 < fv.len() ==> fv[t1] != fv[t2],
            flats@.len() == fv.len(),
            forall|t: int| 0 <= t < fv.len() ==> (#[trigger] flats@[t])@.len() == b.meta.count,
            forall|t: int, i2: int|
                0 <= t < fv.len() && 0 <= i2 < b.meta.count ==> (#[trigger] flats@[t]@[i2])@
                    == Val::Scalar(b.col_elems(fv[t])[i2]),
            k2 <= fv.len(),
            rec.wf(),
            rec@.contains_key("id"@),
            (forall|t: int| 0 <= t < k2 ==> fv[t] != "id"@) ==> rec@["id"@]@ == Val::Scalar(
                Sc::I(b.meta.id@[i as int] as i64),
            ),
            forall|t: int|
                0 <= t < k2 && !crate::util::sys_prefixed(fv[t]) ==> #[trigger] rec@.contains_key(
                    fv[t],
                ),
            forall|t: int|
                0 <= t < k2 && !crate::util::sys_prefixed(fv[t]) ==> (#[trigger] rec@[fv[t]])@
                    == Val::Scalar(b.col_elems(fv[t])[i as int]),
        decreases fv.len() - k2,
    {
        let name = &fields[k2];
        proof {
            assert(name@ == fv[k2 as int]);
            assert(flats@[k2 as int]@.len() == b.meta.count);
        }
        let skip = if name.as_str().is_empty() {
            false
        } else {
            name.as_str().get_char(0) == '_'
        };
        proof {
            assert(skip == crate::util::sys_prefixed(fv[k2 as int]));
        }
        if !skip {
            let cell = flats[k2][i].clone();
            proof {
                assert((flats@[k2 as int]@[i as int])@ == Val::Scalar(
                    b.col_elems(fv[k2 as int])[i as int],
                ));
                assert(cell@ == Val::Scalar(b.col_elems(fv[k2 as int])[i as int]));
            }
            let ghost rec0 = rec@;
            rec.insert(name.clone(), cell);
            proof {
                assert((rec@[fv[k2 as int]])@ == Val::Scalar(
                    b.col_elems(fv[k2 as int])[i as int],
                ));
                if forall|t: int| 0 <= t < k2 + 1 ==> fv[t] != "id"@ {
                    assert(fv[k2 as int] != "id"@);
                    assert(rec@["id"@] == rec0["id"@]);
                }
                assert forall|t: int|
                    0 <= t < k2 + 1 && !crate::util::sys_prefixed(fv[t]) implies (
                #[trigger] rec@[fv[t]])@ == Val::Scalar(b.col_elems(fv[t])[i as int]) by {
                    if t < k2 {
                        assert((rec0[fv[t]])@ == Val::Scalar(b.col_elems(fv[t])[i as int]));
                        assert(fv[t] != fv[k2 as int]);
                        assert(rec@[fv[t]] == rec0[fv[t]]);
                    }
                }
                assert forall|t: int|
                    0 <= t < k2 + 1 && !crate::util::sys_prefixed(fv[t])
                    implies #[trigger] rec@.contains_key(fv[t]) by {
                    if t < k2 {
                        assert(rec0.contains_key(fv[t]));
                    }
                }
            }
        }
        k2 += 1;
    }
    proof {
        assert forall|f: Seq<char>|
            b.has_col(f) && !crate::util::sys_prefixed(f) implies (#[trigger] rec@[f])@
            == Val::Scalar(b.col_elems(f)[i as int]) by {
            assert(fv.contains(f));
            let t = choose|t: int| 0 <= t < fv.len() && fv[t] == f;
            assert((rec@[fv[t]])@ == Val::Scalar(b.col_elems(fv[t])[i as int]));
        }
        assert forall|f: Seq<char>|
            b.has_col(f) && !crate::util::sys_prefixed(f) implies #[trigger] rec@.contains_key(
            f,
        ) by {
            assert(fv.contains(f));
            let t = choose|t: int| 0 <= t < fv.len() && fv[t] == f;
            assert(rec@.contains_key(fv[t]));
        }
        if !(b.has_col("id"@) && !crate::util::sys_prefixed("id"@)) {
            assert forall|t: int| 0 <= t < fv.len() implies fv[t] != "id"@ by {
                if fv[t] == "id"@ {
                    assert(b.has_col(fv[t]));
                    reveal_strlit("id");
                    assert(!crate::util::sys_prefixed("id"@));
                }
            }
        }
    }
    rec
}

/// Pulls one field's value out of every record, validating each. Succeeds
/// exactly when every record holds the field with a value its validator
/// accepts.
#[verifier::rlimit(100)]
#[verifier::loop_isolation(false)]
fn collect_column<V: Validator, D: DerivedRule>(
    records: &Vec<FieldMap<Value>>,
    name: &String,
    md: &FieldMetadata<V, D>,
) -> (r: Result<Vec<Value>, SoAKitError>)
    ensures
        r is Ok <==> (forall|i2: int|
            0 <= i2 < records@.len() ==> (#[trigger] records@[i2])@.contains_key(name@)
                && md.validator.spec_check(records@[i2]@[name@]@)),
        r is Ok ==> r->Ok_0@.len() == records@.len(),
        r is Ok ==> (forall|i2: int|
            0 <= i2 < records@.len() ==> (#[trigger] r->Ok_0@[i2])@ == records@[i2]@[name@]@),
        r is Err ==> r->Err_0@ is InvalidArgument,
{
    let mut values: Vec<Value> = Vec::new();
    let mut i: usize = 0;
    while i < records.len()
        invariant
            i <= records@.len(),
            values@.len() == i,
            forall|i2: int| 0 <= i2 < i ==> (#[trigger] records@[i2])@.contains_key(name@),
            forall|i2: int|
                0 <= i2 < i ==> md.validator.spec_check((#[trigger] records@[i2])@[name@]@),
            forall|i2: int|
                0 <= i2 < i ==> (#[trigger] values@[i2])@ == records@[i2]@[name@]@,
        decreases records@.len() - i,
    {
        let rec = &records[i];
        match rec.get(name.as_str()) {
            Some(val) => {
                proof {
                    assert(rec@.contains_key(name@));
                    assert(*val == rec@[name@]);
                    assert(rec@ == records@[i as int]@);
                    assert(records@[i as int]@.contains_key(name@));
                }
                if !md.validator.check(val) {
                    proof {
                        assert(!md.validator.spec_check(records@[i as int]@[name@]@));
                    }
                    return Err(
                        SoAKitError::InvalidArgument(
                            String::from_str("a record value failed validation"),
                        ),
                    );
                }
                let cell = val.clone();
                proof {
                    assert(cell@ == records@[i as int]@[name@]@);
                }
                values.push(cell);
                proof {
                    assert(values@[i as int]@ == records@[i as int]@[name@]@);
                }
            },
            None => {
                proof {
                    assert(!records@[i as int]@.contains_key(name@));
                }
                return Err(
                    SoAKitError::InvalidArgument(
                        String::from_str("a record is missing a field"),
                    ),
                );
            },
        }
        i += 1;
    }
    Ok(values)
}

/// One registered field's demands on a record batch: every record holds the
/// field, every value passes the field's validator, and the values are
/// scalars of one primitive kind.
pub open spec fn records_column_ok<V: Validator, D: DerivedRule>(
    records: Seq<FieldMap<Value>>,
    md: FieldMetadata<V, D>,
    f: Seq<char>,
) -> bool {
    &&& (forall|i: int| 0 <= i < records.len() ==> (#[trigger] records[i])@.contains_key(f))
    &&& (forall|i: int|
        0 <= i < records.len() ==> md.validator.spec_check((#[trigger] records[i])@[f]@))
    &&& crate::value::scalars_kind(Seq::new(records.len(), |i: int| records[i]@[f]@)) is Some
}

/// Builds a store from one record per row: for each non-derived registered
/// field, every record must hold a value that the field's validator
/// accepts; the column is assembled in record order and written once.
/// Succeeds exactly when the batch is non-empty and every non-derived
/// registered field's column is present, valid, and of one scalar kind.
#[verifier::rlimit(100)]
#[verifier::spinoff_prover]
pub fn from_records_values<V: Validator, D: DerivedRule>(
    records: &Vec<FieldMap<Value>>,
    registry: &Registry<V, D>,
) -> (r: Result<Bulk, SoAKitError>)
    requires
        registry.wf(),
    ensures
        r is Ok <==> records@.len() > 0 && (forall|f: Seq<char>|
            #[trigger] registry@.contains_key(f) && !registry@[f].is_derived
                ==> records_column_ok(records@, registry@[f], f)),
        r is Err ==> r->Err_0@ is InvalidArgument,
        r is Ok ==> ({
            let b = r->Ok_0;
            &&& b.wf()
            &&& crate::bulk::cache_ok(b, *registry)
            &&& b.meta.count == records@.len()
            &&& (forall|f: Seq<char>|
                #[trigger] registry@.contains_key(f) && !registry@[f].is_derived ==> b.has_col(f)
                    && b.col_elems(f) == Seq::new(
                    records@.len() as nat,
                    |i: int| records@[i]@[f]@->Scalar_0,
                ))
        }),
{
    let count = records.len();
    if count == 0 {
        return Err(
            SoAKitError::InvalidArgument(
                String::from_str("cannot build a store from no records"),
            ),
        );
    }
    let mut bulk = match Bulk::new(count) {
        Ok(b) => b,
        Err(e) => {
            proof {
                assert(false);
            }
            return Err(e);
        },
    };
    let names = registry.list_fields();
    let ghost nv = names@.map_values(|n: String| n@);
    proof {
        assert(nv =~= registry.key_views());
        assert forall|f: Seq<char>| #[trigger] registry@.contains_key(f) implies nv.contains(
            f,
        ) by {
            assert(registry.fields.wf());
            assert(registry.key_views().contains(f));
        }
    }
    let mut ni: usize = 0;
    while ni < names.len()
        invariant
            registry.wf(),
            count == records@.len(),
            count > 0,
            nv == names@.map_values(|n: String| n@),
            nv == registry.key_views(),
            forall|t1: int, t2: int| 0 <= t1 < t2 < nv.len() ==> nv[t1] != nv[t2],
            forall|t: int| 0 <= t < nv.len() ==> registry@.contains_key(#[trigger] nv[t]),
            ni <= nv.len(),
            bulk.wf(),
            crate::bulk::cache_ok(bulk, *registry),
            bulk.meta.count == count,
            forall|t: int|
                0 <= t < ni && !registry@[nv[t]].is_derived ==> bulk.has_col(#[trigger] nv[t])
                    && bulk.col_elems(nv[t]) == Seq::new(
                    count as nat,
                    |i: int| records@[i]@[nv[t]]@->Scalar_0,
                ),
            forall|f2: Seq<char>|
                #[trigger] bulk.meta.versions@.contains_key(f2) ==> exists|t: int|
                    0 <= t < ni && nv[t] == f2,
            forall|t: int|
                0 <= t < ni && !registry@[nv[t]].is_derived ==> records_column_ok(
                    records@,
                    registry@[#[trigger] nv[t]],
                    nv[t],
                ),
        decreases nv.len() - ni,
    {
        let name = &names[ni];
        let ghost f0 = name@;
        proof {
            assert(f0 == nv[ni as int]);
            assert(registry@.contains_key(f0));
        }
        let md = match registry.get_metadata(name.as_str()) {
            Some(m) => m,
            None => {
                proof {
                    assert(false);
                }
                return Err(SoAKitError::FieldNotFound(name.clone()));
            },
        };
        if !md.is_derived {
            let values = match collect_column(records, name, md) {
                Ok(v) => v,
                Err(e) => {
                    proof {
                        assert(*md == registry@[f0]);
                        assert(exists|i2: int|
                            0 <= i2 < records@.len() && !((#[trigger] records@[i2])@.contains_key(
                                f0,
                            ) && md.validator.spec_check(records@[i2]@[f0]@)));
                        let i0 = choose|i2: int|
                            0 <= i2 < records@.len() && !((#[trigger] records@[i2])@.contains_key(
                                f0,
                            ) && md.validator.spec_check(records@[i2]@[f0]@));
                        assert(!records_column_ok(records@, registry@[f0], f0));
                    }
                    return Err(e);
                },
            };
            proof {
                if bulk.meta.versions@.contains_key(f0) {
                    let t = choose|t: int| 0 <= t < ni && nv[t] == f0;
                    assert(nv[t] == nv[ni as int]);
                    assert(false);
                }
                assert(registry.spec_validate(f0, values@[0]@)) by {
                    assert(values@[0]@ == records@[0]@[f0]@);
                    assert(md.validator.spec_check(records@[0]@[f0]@));
                }
                assert(crate::value::vals_of(values@) =~= Seq::new(
                    count as nat,
                    |i: int| records@[i]@[f0]@,
                ));
            }
            let ghost pre = bulk;
            bulk = match bulk.set(registry, name.as_str(), values) {
                Ok(b) => b,
                Err(e) => {
                    proof {
                        assert(crate::value::scalars_kind(
                            Seq::new(count as nat, |i: int| records@[i]@[f0]@),
                        ) is None);
                        assert(!records_column_ok(records@, registry@[f0], f0));
                        assert(e@ is InvalidArgument);
                    }
                    return Err(e);
                },
            };
            proof {
                assert(records_column_ok(records@, registry@[f0], f0)) by {
                    assert(crate::value::scalars_kind(
                        Seq::new(count as nat, |i: int| records@[i]@[f0]@),
                    ) is Some);
                }
                assert forall|f2: Seq<char>|
                    #[trigger] bulk.meta.versions@.contains_key(f2) implies exists|t: int|
                    0 <= t < ni + 1 && nv[t] == f2 by {
                    if f2 == f0 {
                        assert(nv[ni as int] == f2);
                    } else {
                        assert(pre.meta.versions@.contains_key(f2));
                        let t = choose|t: int| 0 <= t < ni && nv[t] == f2;
                        assert(0 <= t < ni + 1 && nv[t] == f2);
                    }
                }
            }
            proof {
                assert(bulk.col_elems(f0) == crate::value::sc_models(
                    crate::value::vals_of(values@),
                ));
                assert(bulk.col_elems(f0) =~= Seq::new(
                    count as nat,
                    |i: int| records@[i]@[f0]@->Scalar_0,
                ));
                assert forall|t: int|
                    0 <= t < ni + 1 && !registry@[nv[t]].is_derived implies bulk.has_col(
                    #[trigger] nv[t],
                ) && bulk.col_elems(nv[t]) == Seq::new(
                    count as nat,
                    |i: int| records@[i]@[nv[t]]@->Scalar_0,
                ) by {
                    if t < ni {
                        assert(nv[t] != f0);
                        assert(pre.has_col(nv[t]));
                        assert(bulk.col_elems(nv[t]) == pre.col_elems(nv[t]));
                    }
                }
            }
        } else {
            proof {
                assert(*md == registry@[f0]);
                assert forall|t: int|
                    0 <= t < ni + 1 && !registry@[nv[t]].is_derived implies bulk.has_col(
                    #[trigger] nv[t],
                ) && bulk.col_elems(nv[t]) == Seq::new(
                    count as nat,
                    |i: int| records@[i]@[nv[t]]@->Scalar_0,
                ) by {
                    assert(t < ni);
                }
                assert forall|f2: Seq<char>|
                    #[trigger] bulk.meta.versions@.contains_key(f2) implies exists|t: int|
                    0 <= t < ni + 1 && nv[t] == f2 by {
                    let t = choose|t: int| 0 <= t < ni && nv[t] == f2;
                    assert(0 <= t < ni + 1 && nv[t] == f2);
                }
                assert forall|t: int|
                    0 <= t < ni + 1 && !registry@[nv[t]].is_derived implies records_column_ok(
                    records@,
                    registry@[#[trigger] nv[t]],
                    nv[t],
                ) by {
                    assert(t < ni);
                }
            }
        }
        ni += 1;
    }
    proof {
        assert forall|f: Seq<char>|
            #[trigger] registry@.contains_key(f) && !registry@[f].is_derived implies bulk.has_col(
            f,
        ) && bulk.col_elems(f) == Seq::new(
            count as nat,
            |i: int| records@[i]@[f]@->Scalar_0,
        ) by {
            assert(nv.contains(f));
            let t = choose|t: int| 0 <= t < nv.len() && nv[t] == f;
            assert(bulk.has_col(nv[t]));
        }
        assert forall|f: Seq<char>|
            #[trigger] registry@.contains_key(f) && !registry@[f].is_derived
            implies records_column_ok(records@, registry@[f], f) by {
            assert(nv.contains(f));
            let t = choose|t: int| 0 <= t < nv.len() && nv[t] == f;
            assert(records_column_ok(records@, registry@[nv[t]], nv[t]));
        }
    }
    Ok(bulk)
}


} // verus!
