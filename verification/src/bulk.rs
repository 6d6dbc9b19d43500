//! The columnar store: fixed-size tiles, versioned writes, derived-field
//! cache.
//!
//! A [`Bulk`] holds, for a fixed number of rows, one column per set field,
//! split into tiles ([`Chunk`]) of at most [`CHUNK_SIZE`] rows. Every
//! mutation returns a new `Bulk`; the receiver is never changed. Version
//! counters in [`Meta`] record how often each field has been written, and the
//! cache memoizes derived columns together with the dependency versions they
//! were computed from.
//!
//! The heart of the specification is `eval`: the cache-free meaning of
//! reading a field — a stored column is the concatenation of its tile
//! columns, a derived column is its rule applied to the evaluated
//! dependencies, with a fuel bound standing in for the absent cycle check.
//! `get` promises to return exactly `eval`'s answer whether or not it was
//! served from the cache; `cache_ok` is the invariant that makes that true.

use crate::error::{ErrModel, SoAKitError};
use crate::fieldmap::FieldMap;
use crate::meta::{res_models, DerivedRule, FieldMetadata, Registry, Validator};
use crate::value::{sc_models, scalars_kind, vals_of, Sc, Val, ValKind, Value};
use vstd::prelude::*;
use vstd::seq_lib::*;
use vstd::string::StringExecFns;

verus! {

/// Rows per tile. 1024 elements of 8 bytes each keep one column's tile
/// within a small cache working set.
pub const CHUNK_SIZE: usize = 1024;

/// One tile: a contiguous row range, with one vector value per set field.
pub struct Chunk {
    /// Number of rows this tile covers.
    pub len: usize,
    /// One vector value per field, each of length `len`.
    pub columns: FieldMap<Value>,
}

impl Chunk {
    /// An empty tile.
    pub fn new() -> (r: Self)
        ensures
            r.len == 0,
            r.columns@ == Map::<Seq<char>, Value>::empty(),
            r.columns.wf(),
    {
        Chunk { len: 0, columns: FieldMap::new() }
    }
}

impl Default for Chunk {
    /// An empty tile.
    fn default() -> (r: Self)
        ensures
            r.len == 0,
            r.columns@ == Map::<Seq<char>, Value>::empty(),
            r.columns.wf(),
    {
        Chunk::new()
    }
}

/// Row metadata: the fixed row count, the row identifiers, and one version
/// counter per written field.
pub struct Meta {
    /// Number of rows; fixed at creation, always positive.
    pub count: usize,
    /// Row identifiers, `0..count`, never changed after creation.
    pub id: Vec<usize>,
    /// Version counters: absent until a field's first successful write, then
    /// incremented by one on each later write.
    pub versions: FieldMap<u64>,
}

impl Meta {
    /// Metadata for `count` rows; `count` must be positive.
    pub fn new(count: usize) -> (r: Result<Self, SoAKitError>)
        ensures
            count == 0 ==> r is Err && r->Err_0@ is InvalidArgument,
            count > 0 ==> r is Ok && {
                let m = r->Ok_0;
                &&& m.count == count
                &&& m.id@.len() == count
                &&& (forall|i: int| 0 <= i < count ==> m.id@[i] == i)
                &&& m.versions@ == Map::<Seq<char>, u64>::empty()
                &&& m.versions.wf()
                &&& m.versions.key_views() == Seq::<Seq<char>>::empty()
            },
    {
        if count == 0 {
            return Err(
                SoAKitError::InvalidArgument(
                    String::from_str("Bulk count must be greater than 0"),
                ),
            );
        }
        let mut id: Vec<usize> = Vec::new();
        let mut i: usize = 0;
        while i < count
            invariant
                i <= count,
                id@.len() == i,
                forall|j: int| 0 <= j < i ==> id@[j] == j,
            decreases count - i,
        {
            id.push(i);
            i += 1;
        }
        Ok(Meta { count, id, versions: FieldMap::new() })
    }
}

impl Clone for Meta {
    /// Clones the metadata; on well-formed input the copy agrees with the
    /// original field for field.
    fn clone(&self) -> (r: Self)
        ensures
            r.count == self.count,
            r.id@ == self.id@,
            self.versions.wf() ==> {
                &&& r.versions@ == self.versions@
                &&& r.versions.key_views() == self.versions.key_views()
                &&& r.versions.wf()
            },
    {
        let r = Meta { count: self.count, id: self.id.clone(), versions: self.versions.clone() };
        proof {
            assert(r.id@ =~= self.id@);
            if self.versions.wf() {
                assert forall|k: Seq<char>| #[trigger] r.versions@.contains_key(k)
                    implies self.versions@.contains_key(k) && r.versions@[k] == self.versions@[k] by {
                    assert(cloned::<u64>(self.versions@[k], r.versions@[k]));
                }
                assert(r.versions@ =~= self.versions@);
            }
        }
        r
    }
}

/// A memoized derived column: the value, and the dependency versions it was
/// computed from (a fixed placeholder for derived dependencies).
pub struct CacheEntry {
    /// The cached column.
    pub value: Value,
    /// The dependency-version snapshot taken at computation time.
    pub versions: Vec<u64>,
}

impl Clone for CacheEntry {
    /// Clones the entry; the copy has the same model and snapshot.
    fn clone(&self) -> (r: Self)
        ensures
            r.value@ == self.value@,
            r.versions@ == self.versions@,
    {
        let r = CacheEntry { value: self.value.clone(), versions: self.versions.clone() };
        proof {
            assert(r.versions@ =~= self.versions@);
        }
        r
    }
}

/// Number of tiles covering `count` rows.
pub open spec fn num_chunks(count: nat) -> nat {
    (((count - 1) / (CHUNK_SIZE as int)) + 1) as nat
}

/// Rows covered by tile `i`: a full tile, except a shorter last one.
pub open spec fn chunk_len(count: nat, i: int) -> nat {
    if count - i * CHUNK_SIZE >= CHUNK_SIZE {
        CHUNK_SIZE as nat
    } else {
        (count - i * CHUNK_SIZE) as nat
    }
}

/// The concatenation of one field's tile columns, in tile order.
pub open spec fn chunks_col_elems(chunks: Seq<Chunk>, f: Seq<char>) -> Seq<Sc>
    decreases chunks.len(),
{
    if chunks.len() == 0 {
        Seq::empty()
    } else {
        chunks[0].columns@[f]@->Vector_1 + chunks_col_elems(chunks.drop_first(), f)
    }
}

/// The store: row metadata, the tiles, and the derived-field cache.
pub struct Bulk {
    /// Row metadata: count, identifiers, version counters.
    pub meta: Meta,
    /// The tiles, covering `0..count` contiguously; empty until the first
    /// successful write.
    pub chunks: Vec<Chunk>,
    /// Memoized derived columns, keyed by field name.
    pub cache: FieldMap<CacheEntry>,
}

impl Bulk {
    /// True when the field has a stored column.
    pub open spec fn has_col(&self, f: Seq<char>) -> bool {
        self.chunks@.len() > 0 && self.chunks@[0].columns@.contains_key(f)
    }

    /// The stored column's primitive kind.
    pub open spec fn col_kind(&self, f: Seq<char>) -> ValKind {
        self.chunks@[0].columns@[f]@->Vector_0
    }

    /// The stored column's elements over all rows, in row order.
    pub open spec fn col_elems(&self, f: Seq<char>) -> Seq<Sc> {
        chunks_col_elems(self.chunks@, f)
    }

    /// Reading a stored column: its kind and elements, or `FieldNotFound`
    /// when the field was never set.
    pub open spec fn stored_col(&self, f: Seq<char>) -> Result<Val, ErrModel> {
        if self.has_col(f) {
            Ok(Val::Vector(self.col_kind(f), self.col_elems(f)))
        } else {
            Err(ErrModel::FieldNotFound(f))
        }
    }

    /// Structural well-formedness: identifiers are `0..count`; tile
    /// boundaries are the fixed function of `count`; a field is set in every
    /// tile or in none, with one vector of the tile's length and a single
    /// kind; version counters exist exactly for the set fields.
    pub open spec fn wf(&self) -> bool {
        &&& self.meta.count > 0
        &&& self.meta.id@.len() == self.meta.count
        &&& (forall|i: int| 0 <= i < self.meta.count ==> self.meta.id@[i] == i)
        &&& self.meta.versions.wf()
        &&& self.cache.wf()
        &&& (self.chunks@.len() == 0 || self.chunks@.len() == num_chunks(self.meta.count as nat))
        &&& (forall|ci: int|
            0 <= ci < self.chunks@.len() ==> (#[trigger] self.chunks@[ci]).len == chunk_len(
                self.meta.count as nat,
                ci,
            ))
        &&& (forall|ci: int| 0 <= ci < self.chunks@.len() ==> (#[trigger] self.chunks@[ci]).columns.wf())
        &&& (forall|ci: int, f: Seq<char>|
            0 <= ci < self.chunks@.len() ==> ((#[trigger] self.chunks@[ci].columns@.contains_key(f))
                <==> self.has_col(f)))
        &&& (forall|ci: int, f: Seq<char>|
            0 <= ci < self.chunks@.len() && self.chunks@[ci].columns@.contains_key(f) ==> {
                let v = (#[trigger] self.chunks@[ci].columns@[f])@;
                &&& v is Vector
                &&& v->Vector_1.len() == self.chunks@[ci].len
                &&& v->Vector_0 == self.col_kind(f)
            })
        &&& (forall|f: Seq<char>| #[trigger] self.meta.versions@.contains_key(f) <==> self.has_col(f))
    }

    /// Creates a store for `count` rows with no columns; `count` must be
    /// positive.
    pub fn new(count: usize) -> (r: Result<Self, SoAKitError>)
        ensures
            count == 0 ==> r is Err && r->Err_0@ is InvalidArgument,
            count > 0 ==> r is Ok && {
                let b = r->Ok_0;
                &&& b.wf()
                &&& b.meta.count == count
                &&& b.meta.id@.len() == count
                &&& (forall|i: int| 0 <= i < count ==> b.meta.id@[i] == i)
                &&& b.meta.versions@ == Map::<Seq<char>, u64>::empty()
                &&& b.chunks@.len() == 0
                &&& b.cache@ == Map::<Seq<char>, CacheEntry>::empty()
                &&& b.cache.key_views() == Seq::<Seq<char>>::empty()
            },
    {
        let meta = match Meta::new(count) {
            Ok(m) => m,
            Err(e) => {
                return Err(e);
            },
        };
        Ok(Bulk { meta, chunks: Vec::new(), cache: FieldMap::new() })
    }

    /// The number of rows.
    pub fn count(&self) -> (r: usize)
        ensures
            r == self.meta.count,
    {
        self.meta.count
    }

    /// The set fields without the system-prefixed ones, ascending in byte
    /// order; empty before the first write.
    pub fn list_data_fields(&self) -> (r: Vec<String>)
        requires
            self.wf(),
        ensures
            forall|i: int, j: int|
                0 <= i < j < r@.len() ==> crate::util::str_lt(
                    (#[trigger] r@[i])@,
                    (#[trigger] r@[j])@,
                ),
            forall|y: Seq<char>|
                #![trigger crate::util::str_views(r@).contains(y)]
                crate::util::str_views(r@).contains(y) <==> (self.has_col(y)
                    && !crate::util::sys_prefixed(y)),
    {
        let mut r: Vec<String> = Vec::new();
        proof {
            assert(crate::util::str_views(r@) =~= Seq::<Seq<char>>::empty());
        }
        if self.chunks.len() == 0 {
            return r;
        }
        let names = self.chunks[0].columns.field_names();
        let ghost kviews = self.chunks@[0].columns.key_views();
        let mut i: usize = 0;
        while i < names.len()
            invariant
                self.wf(),
                self.chunks@.len() > 0,
                kviews == self.chunks@[0].columns.key_views(),
                names@.len() == kviews.len(),
                forall|t: int| 0 <= t < names@.len() ==> (#[trigger] names@[t])@ == kviews[t],
                i <= names@.len(),
                forall|a: int, b: int|
                    0 <= a < b < r@.len() ==> crate::util::str_lt(
                        (#[trigger] r@[a])@,
                        (#[trigger] r@[b])@,
                    ),
                forall|y: Seq<char>|
                    #![trigger crate::util::str_views(r@).contains(y)]
                    crate::util::str_views(r@).contains(y) <==> (exists|t: int|
                        0 <= t < i && (#[trigger] kviews[t]) == y
                            && !crate::util::sys_prefixed(y)),
            decreases names@.len() - i,
        {
            let name = &names[i];
            let keep = if name.as_str().is_empty() {
                true
            } else {
                name.as_str().get_char(0) != '_'
            };
            proof {
                assert(keep == !crate::util::sys_prefixed(kviews[i as int]));
            }
            let ghost r0 = crate::util::str_views(r@);
            if keep {
                crate::util::insert_sorted_str(&mut r, name);
            }
            proof {
                let rv = crate::util::str_views(r@);
                assert forall|y: Seq<char>|
                    rv.contains(y) <==> (exists|t: int|
                        0 <= t < i + 1 && (#[trigger] kviews[t]) == y
                            && !crate::util::sys_prefixed(y)) by {
                    if rv.contains(y) {
                        if r0.contains(y) {
                            let t = choose|t: int|
                                0 <= t < i && (#[trigger] kviews[t]) == y
                                    && !crate::util::sys_prefixed(y);
                            assert(kviews[t] == y && !crate::util::sys_prefixed(y));
                        } else {
                            assert(keep && y == names@[i as int]@);
                            assert(kviews[i as int] == y);
                        }
                    }
                    if exists|t: int|
                        0 <= t < i + 1 && (#[trigger] kviews[t]) == y && !crate::util::sys_prefixed(
                            y,
                        ) {
                        let t = choose|t: int|
                            0 <= t < i + 1 && (#[trigger] kviews[t]) == y
                                && !crate::util::sys_prefixed(y);
                        if t < i {
                            assert(r0.contains(y));
                        } else {
                            assert(y == names@[i as int]@);
                        }
                    }
                }
            }
            i += 1;
        }
        proof {
            let rv = crate::util::str_views(r@);
            assert forall|y: Seq<char>|
                rv.contains(y) <==> (self.has_col(y) && !crate::util::sys_prefixed(y)) by {
                if rv.contains(y) {
                    let t = choose|t: int|
                        0 <= t < names@.len() && (#[trigger] kviews[t]) == y
                            && !crate::util::sys_prefixed(y);
                    assert(self.chunks@[0].columns@.contains_key(kviews[t]));
                }
                if self.has_col(y) && !crate::util::sys_prefixed(y) {
                    assert(kviews.contains(y));
                    let t = choose|t: int| 0 <= t < kviews.len() && kviews[t] == y;
                    assert(kviews[t] == y);
                }
            }
        }
        r
    }
}

impl Clone for Bulk {
    /// Clones the store. On a well-formed receiver the copy is well-formed
    /// and agrees with the original on the row metadata, every column, and
    /// every cache entry.
    fn clone(&self) -> (r: Self)
        ensures
            self.wf() ==> {
                &&& r.wf()
                &&& r.meta.count == self.meta.count
                &&& r.meta.id@ == self.meta.id@
                &&& r.meta.versions@ == self.meta.versions@
                &&& r.meta.versions.key_views() == self.meta.versions.key_views()
                &&& r.chunks@.len() == self.chunks@.len()
                &&& (forall|f: Seq<char>| r.has_col(f) <==> self.has_col(f))
                &&& (forall|f: Seq<char>|
                    self.has_col(f) ==> r.col_kind(f) == self.col_kind(f) && #[trigger] r.col_elems(
                        f,
                    ) == self.col_elems(f))
                &&& (forall|f: Seq<char>| r.cache@.contains_key(f) <==> self.cache@.contains_key(f))
                &&& (forall|f: Seq<char>|
                    #[trigger] self.cache@.contains_key(f) ==> r.cache@[f].value@
                        == self.cache@[f].value@ && r.cache@[f].versions@
                        == self.cache@[f].versions@)
                &&& r.cache.key_views() == self.cache.key_views()
            },
    {
        let meta = self.meta.clone();
        let cache = self.cache.clone();
        let mut chunks: Vec<Chunk> = Vec::new();
        let mut ci: usize = 0;
        while ci < self.chunks.len()
            invariant
                ci <= self.chunks@.len(),
                chunks@.len() == ci,
                forall|j: int|
                    0 <= j < ci ==> {
                        let c = #[trigger] chunks@[j];
                        let s = self.chunks@[j];
                        &&& c.len == s.len
                        &&& s.columns.wf() ==> {
                            &&& c.columns.wf()
                            &&& c.columns.key_views() == s.columns.key_views()
                            &&& (forall|f: Seq<char>|
                                c.columns@.contains_key(f) <==> s.columns@.contains_key(f))
                            &&& (forall|f: Seq<char>|
                                #[trigger] s.columns@.contains_key(f) ==> c.columns@[f]@
                                    == s.columns@[f]@)
                        }
                    },
            decreases self.chunks@.len() - ci,
        {
            let src = &self.chunks[ci];
            let cols = src.columns.clone();
            proof {
                if src.columns.wf() {
                    assert forall|f: Seq<char>| #[trigger] src.columns@.contains_key(f)
                        implies cols@[f]@ == src.columns@[f]@ by {
                        assert(cloned::<Value>(src.columns@[f], cols@[f]));
                        if src.columns@[f] != cols@[f] {
                            assert(call_ensures(Value::clone, (&src.columns@[f],), cols@[f]));
                        }
                    }
                }
            }
            chunks.push(Chunk { len: src.len, columns: cols });
            ci += 1;
        }
        let r = Bulk { meta, chunks, cache };
        proof {
            if self.wf() {
                assert forall|f: Seq<char>| #[trigger] self.cache@.contains_key(f)
                    implies r.cache@[f].value@ == self.cache@[f].value@ && r.cache@[f].versions@
                    == self.cache@[f].versions@ by {
                    assert(cloned::<CacheEntry>(self.cache@[f], r.cache@[f]));
                    if self.cache@[f] != r.cache@[f] {
                        assert(call_ensures(CacheEntry::clone, (&self.cache@[f],), r.cache@[f]));
                    }
                }
                assert forall|f: Seq<char>|
                    self.has_col(f) implies r.col_kind(f) == self.col_kind(f) && #[trigger] r
                    .col_elems(f) == self.col_elems(f) by {
                    lemma_chunks_col_elems_congruent(r.chunks@, self.chunks@, f);
                }
                assert forall|f: Seq<char>| #[trigger] r.meta.versions@.contains_key(f)
                    implies r.has_col(f) by {
                    assert(self.meta.versions@.contains_key(f));
                }
                assert forall|f: Seq<char>| r.has_col(f) implies #[trigger] r.meta.versions@
                    .contains_key(f) by {
                    assert(self.has_col(f));
                }
            }
        }
        r
    }
}

/// The error reported when the dependency depth bound is exhausted; the
/// bound stands in for the cycle check the registry never performs.
pub open spec fn depth_err() -> ErrModel {
    ErrModel::InvalidArgument("dependency chain is too deep"@)
}

/// The cache-free meaning of reading field `f`: a stored column is the
/// concatenation of its tile columns; a derived column is its rule applied
/// to the dependencies, each read the same way, with `fuel` bounding the
/// depth of derived nesting.
pub open spec fn eval<V: Validator, D: DerivedRule>(
    reg: Map<Seq<char>, FieldMetadata<V, D>>,
    b: Bulk,
    f: Seq<char>,
    fuel: nat,
) -> Result<Val, ErrModel>
    decreases fuel, 0int, 0int,
{
    if !reg.contains_key(f) {
        Err(ErrModel::FieldNotFound(f))
    } else if reg[f].is_derived {
        if fuel == 0 {
            Err(depth_err())
        } else {
            match eval_deps(reg, b, reg[f].dep_views(), (fuel - 1) as nat) {
                Ok(args) => match reg[f].derived_func {
                    Some(rule) => rule.spec_compute(args),
                    None => Err(ErrModel::InvalidArgument("derived field missing function"@)),
                },
                Err(e) => Err(e),
            }
        }
    } else {
        b.stored_col(f)
    }
}

/// Reads a dependency list in order; the first failure wins.
pub open spec fn eval_deps<V: Validator, D: DerivedRule>(
    reg: Map<Seq<char>, FieldMetadata<V, D>>,
    b: Bulk,
    deps: Seq<Seq<char>>,
    fuel: nat,
) -> Result<Seq<Val>, ErrModel>
    decreases fuel, 1int, deps.len(),
{
    if deps.len() == 0 {
        Ok(Seq::empty())
    } else {
        match eval(reg, b, deps[0], fuel) {
            Ok(v) => match eval_deps(reg, b, deps.drop_first(), fuel) {
                Ok(rest) => Ok(seq![v] + rest),
                Err(e) => Err(e),
            },
            Err(e) => Err(e),
        }
    }
}

/// True when `f` is a derived field whose dependency closure, within `fuel`
/// levels of derived nesting, reaches `g`.
pub open spec fn depends_on<V: Validator, D: DerivedRule>(
    reg: Map<Seq<char>, FieldMetadata<V, D>>,
    f: Seq<char>,
    g: Seq<char>,
    fuel: nat,
) -> bool
    decreases fuel, 0int, 0int,
{
    reg.contains_key(f) && reg[f].is_derived && fuel > 0 && deps_depend(
        reg,
        reg[f].dep_views(),
        g,
        (fuel - 1) as nat,
    )
}

/// True when some dependency in the list is `g` or reaches `g`.
pub open spec fn deps_depend<V: Validator, D: DerivedRule>(
    reg: Map<Seq<char>, FieldMetadata<V, D>>,
    deps: Seq<Seq<char>>,
    g: Seq<char>,
    fuel: nat,
) -> bool
    decreases fuel, 1int, deps.len(),
{
    deps.len() > 0 && (deps[0] == g || depends_on(reg, deps[0], g, fuel) || deps_depend(
        reg,
        deps.drop_first(),
        g,
        fuel,
    ))
}

/// True when the two stores agree on field `h`'s stored column.
pub open spec fn cols_agree(a: Bulk, b: Bulk, h: Seq<char>) -> bool {
    &&& (a.has_col(h) <==> b.has_col(h))
    &&& (b.has_col(h) ==> a.col_kind(h) == b.col_kind(h) && a.col_elems(h) == b.col_elems(h))
}

/// True when reading `f` may look at the stored column of `h`: `h` is `f`
/// itself (unless `f` is derived, whose own column is never read) or a
/// transitive dependency.
pub open spec fn eval_reads<V: Validator, D: DerivedRule>(
    reg: Map<Seq<char>, FieldMetadata<V, D>>,
    f: Seq<char>,
    h: Seq<char>,
    fuel: nat,
) -> bool {
    (h == f && !(reg.contains_key(f) && reg[f].is_derived)) || depends_on(reg, f, h, fuel)
}

/// Reading a field sees only the columns it may look at: two stores that
/// agree there read the same.
pub proof fn lemma_eval_frame<V: Validator, D: DerivedRule>(
    reg: Map<Seq<char>, FieldMetadata<V, D>>,
    a: Bulk,
    b: Bulk,
    f: Seq<char>,
    fuel: nat,
)
    requires
        forall|h: Seq<char>| eval_reads(reg, f, h, fuel) ==> cols_agree(a, b, h),
    ensures
        eval(reg, a, f, fuel) == eval(reg, b, f, fuel),
    decreases fuel, 0int, 0int,
{
    if reg.contains_key(f) && reg[f].is_derived {
        if fuel > 0 {
            let deps = reg[f].dep_views();
            assert forall|h: Seq<char>|
                deps_depend(reg, deps, h, (fuel - 1) as nat) implies cols_agree(a, b, h) by {
                assert(depends_on(reg, f, h, fuel));
                assert(eval_reads(reg, f, h, fuel));
            }
            lemma_eval_deps_frame(reg, a, b, deps, (fuel - 1) as nat);
        }
    } else {
        assert(eval_reads(reg, f, f, fuel));
        assert(cols_agree(a, b, f));
    }
}

/// The dependency-list form of the framing lemma.
pub proof fn lemma_eval_deps_frame<V: Validator, D: DerivedRule>(
    reg: Map<Seq<char>, FieldMetadata<V, D>>,
    a: Bulk,
    b: Bulk,
    deps: Seq<Seq<char>>,
    fuel: nat,
)
    requires
        forall|h: Seq<char>| deps_depend(reg, deps, h, fuel) ==> cols_agree(a, b, h),
    ensures
        eval_deps(reg, a, deps, fuel) == eval_deps(reg, b, deps, fuel),
    decreases fuel, 1int, deps.len(),
{
    if deps.len() > 0 {
        assert forall|h: Seq<char>| eval_reads(reg, deps[0], h, fuel) implies cols_agree(a, b, h) by {
            assert(deps_depend(reg, deps, h, fuel));
        }
        lemma_eval_frame(reg, a, b, deps[0], fuel);
        assert forall|h: Seq<char>|
            deps_depend(reg, deps.drop_first(), h, fuel) implies cols_agree(a, b, h) by {
            assert(deps_depend(reg, deps, h, fuel));
        }
        lemma_eval_deps_frame(reg, a, b, deps.drop_first(), fuel);
    }
}

/// Two stores that agree on every column read every field the same.
pub proof fn lemma_eval_same_cols<V: Validator, D: DerivedRule>(
    reg: Map<Seq<char>, FieldMetadata<V, D>>,
    a: Bulk,
    b: Bulk,
    f: Seq<char>,
    fuel: nat,
)
    requires
        forall|h: Seq<char>| cols_agree(a, b, h),
    ensures
        eval(reg, a, f, fuel) == eval(reg, b, f, fuel),
{
    lemma_eval_frame(reg, a, b, f, fuel);
}

/// Splitting a dependency list splits its evaluation; the first failure
/// wins.
pub proof fn lemma_eval_deps_concat<V: Validator, D: DerivedRule>(
    reg: Map<Seq<char>, FieldMetadata<V, D>>,
    b: Bulk,
    s1: Seq<Seq<char>>,
    s2: Seq<Seq<char>>,
    fuel: nat,
)
    ensures
        eval_deps(reg, b, s1 + s2, fuel) == (match eval_deps(reg, b, s1, fuel) {
            Ok(a1) => match eval_deps(reg, b, s2, fuel) {
                Ok(a2) => Ok::<Seq<Val>, ErrModel>(a1 + a2),
                Err(e) => Err(e),
            },
            Err(e) => Err(e),
        }),
    decreases s1.len(),
{
    if s1.len() == 0 {
        assert(s1 + s2 =~= s2);
        assert(Seq::<Val>::empty() + eval_deps(reg, b, s2, fuel)->Ok_0 =~= eval_deps(
            reg,
            b,
            s2,
            fuel,
        )->Ok_0);
    } else {
        let t = s1 + s2;
        assert(t.len() > 0);
        assert(t[0] == s1[0]);
        assert(t.drop_first() =~= s1.drop_first() + s2);
        lemma_eval_deps_concat(reg, b, s1.drop_first(), s2, fuel);
        if eval(reg, b, s1[0], fuel) is Ok && eval_deps(reg, b, s1.drop_first(), fuel) is Ok
            && eval_deps(reg, b, s2, fuel) is Ok {
            let v = eval(reg, b, s1[0], fuel)->Ok_0;
            let a1r = eval_deps(reg, b, s1.drop_first(), fuel)->Ok_0;
            let a2 = eval_deps(reg, b, s2, fuel)->Ok_0;
            assert(seq![v] + (a1r + a2) =~= (seq![v] + a1r) + a2);
        }
    }
}

/// A one-name dependency list evaluates to the one reading, boxed.
pub proof fn lemma_eval_deps_singleton<V: Validator, D: DerivedRule>(
    reg: Map<Seq<char>, FieldMetadata<V, D>>,
    b: Bulk,
    d: Seq<char>,
    fuel: nat,
)
    ensures
        eval_deps(reg, b, seq![d], fuel) == (match eval(reg, b, d, fuel) {
            Ok(v) => Ok::<Seq<Val>, ErrModel>(seq![v]),
            Err(e) => Err(e),
        }),
{
    let s = seq![d];
    assert(s.drop_first() =~= Seq::<Seq<char>>::empty());
    assert(eval_deps(reg, b, Seq::<Seq<char>>::empty(), fuel) == Ok::<Seq<Val>, ErrModel>(
        Seq::empty(),
    ));
    assert(s.len() == 1 && s[0] == d);
    if eval(reg, b, d, fuel) is Ok {
        assert(seq![eval(reg, b, d, fuel)->Ok_0] + Seq::<Val>::empty() =~= seq![
            eval(reg, b, d, fuel)->Ok_0,
        ]);
    }
}

/// The current snapshot element for one dependency: the placeholder for a
/// derived dependency, the real counter for a stored one, nothing when the
/// dependency has no counter.
pub open spec fn snap_of<V: Validator, D: DerivedRule>(
    reg: Map<Seq<char>, FieldMetadata<V, D>>,
    b: Bulk,
    dep: Seq<char>,
) -> Option<u64> {
    if reg.contains_key(dep) && reg[dep].is_derived {
        Some(0u64)
    } else if b.meta.versions@.contains_key(dep) {
        Some(b.meta.versions@[dep])
    } else {
        None
    }
}

/// True when a recorded snapshot equals the dependencies' current snapshot.
pub open spec fn snap_matches<V: Validator, D: DerivedRule>(
    reg: Map<Seq<char>, FieldMetadata<V, D>>,
    b: Bulk,
    deps: Seq<Seq<char>>,
    snap: Seq<u64>,
) -> bool {
    snap.len() == deps.len() && forall|i: int|
        0 <= i < deps.len() ==> Some(#[trigger] snap[i]) == snap_of(reg, b, deps[i])
}

/// The depth bound used by every read: one level per registered field is
/// enough for any acyclic dependency graph.
pub open spec fn bulk_fuel<V, D>(reg: Registry<V, D>) -> nat {
    reg.key_views().len()
}

/// The memoization invariant: every cache entry belongs to a registered
/// derived field, and whenever its recorded snapshot equals the current one,
/// its value is exactly what recomputation would produce.
pub open spec fn cache_ok<V: Validator, D: DerivedRule>(b: Bulk, reg: Registry<V, D>) -> bool {
    forall|f: Seq<char>| #[trigger] b.cache@.contains_key(f) ==> {
        let entry = b.cache@[f];
        &&& reg@.contains_key(f)
        &&& reg@[f].is_derived
        &&& (snap_matches(reg@, b, reg@[f].dep_views(), entry.versions@) ==> eval(
            reg@,
            b,
            f,
            bulk_fuel(reg),
        ) == Ok::<Val, ErrModel>(entry.value@))
    }
}

/// Transfers the memoization invariant to a store that agrees on the
/// columns, the version counters, and the cache entries.
pub proof fn lemma_cache_ok_transfer<V: Validator, D: DerivedRule>(
    a: Bulk,
    b: Bulk,
    reg: Registry<V, D>,
)
    requires
        cache_ok(a, reg),
        forall|h: Seq<char>| cols_agree(a, b, h),
        b.meta.versions@ == a.meta.versions@,
        forall|f: Seq<char>| b.cache@.contains_key(f) <==> a.cache@.contains_key(f),
        forall|f: Seq<char>|
            #[trigger] a.cache@.contains_key(f) ==> b.cache@[f].value@ == a.cache@[f].value@
                && b.cache@[f].versions@ == a.cache@[f].versions@,
    ensures
        cache_ok(b, reg),
{
    assert forall|f: Seq<char>| #[trigger] b.cache@.contains_key(f) implies {
        let entry = b.cache@[f];
        &&& reg@.contains_key(f)
        &&& reg@[f].is_derived
        &&& (snap_matches(reg@, b, reg@[f].dep_views(), entry.versions@) ==> eval(
            reg@,
            b,
            f,
            bulk_fuel(reg),
        ) == Ok::<Val, ErrModel>(entry.value@))
    } by {
        assert(a.cache@.contains_key(f));
        if snap_matches(reg@, b, reg@[f].dep_views(), b.cache@[f].versions@) {
            assert(snap_matches(reg@, a, reg@[f].dep_views(), a.cache@[f].versions@));
            lemma_eval_same_cols(reg@, a, b, f, bulk_fuel(reg));
        }
    }
}

/// Appending one tile appends its column.
pub proof fn lemma_chunks_col_elems_snoc(s: Seq<Chunk>, c: Chunk, f: Seq<char>)
    ensures
        chunks_col_elems(s.push(c), f) == chunks_col_elems(s, f) + c.columns@[f]@->Vector_1,
    decreases s.len(),
{
    if s.len() == 0 {
        assert(s.push(c).drop_first() =~= Seq::<Chunk>::empty());
        assert(chunks_col_elems(Seq::<Chunk>::empty(), f) == Seq::<Sc>::empty());
        assert(c.columns@[f]@->Vector_1 + Seq::<Sc>::empty() =~= c.columns@[f]@->Vector_1);
        assert(chunks_col_elems(s, f) + c.columns@[f]@->Vector_1 =~= c.columns@[f]@->Vector_1);
    } else {
        assert(s.push(c).drop_first() =~= s.drop_first().push(c));
        lemma_chunks_col_elems_snoc(s.drop_first(), c, f);
        assert(s.push(c)[0] == s[0]);
        assert(s[0].columns@[f]@->Vector_1 + (chunks_col_elems(s.drop_first(), f)
            + c.columns@[f]@->Vector_1) =~= (s[0].columns@[f]@->Vector_1 + chunks_col_elems(
            s.drop_first(),
            f,
        )) + c.columns@[f]@->Vector_1);
    }
}

impl Bulk {
    /// Reads a field without touching the cache, mirroring `eval` exactly:
    /// the tile columns concatenated for a stored field, the rule applied to
    /// recursively resolved dependencies for a derived one, with `fuel`
    /// bounding the derived nesting depth.
    pub(crate) fn resolve_rec<V: Validator, D: DerivedRule>(
        &self,
        registry: &Registry<V, D>,
        field: &str,
        fuel: usize,
    ) -> (r: Result<Value, SoAKitError>)
        requires
            self.wf(),
            registry.wf(),
        ensures
            res_models(r, eval(registry@, *self, field@, fuel as nat)),
        decreases fuel,
    {
        let ghost regm = registry@;
        let md = match registry.get_metadata(field) {
            Some(m) => m,
            None => {
                return Err(SoAKitError::FieldNotFound(String::from_str(field)));
            },
        };
        if md.is_derived {
            if fuel == 0 {
                return Err(
                    SoAKitError::InvalidArgument(String::from_str("dependency chain is too deep")),
                );
            }
            let ghost deps = md.dep_views();
            let mut argv: Vec<Value> = Vec::new();
            proof {
                assert(deps.take(0) =~= Seq::<Seq<char>>::empty());
                assert(vals_of(argv@) =~= Seq::<Val>::empty());
            }
            let mut i: usize = 0;
            while i < md.dependencies.len()
                invariant
                    self.wf(),
                    registry.wf(),
                    regm == registry@,
                    regm.contains_key(field@),
                    *md == regm[field@],
                    deps == md.dep_views(),
                    fuel >= 1,
                    i <= md.dependencies@.len(),
                    argv@.len() == i,
                    eval_deps(regm, *self, deps.take(i as int), (fuel - 1) as nat) == Ok::<
                        Seq<Val>,
                        ErrModel,
                    >(vals_of(argv@)),
                decreases md.dependencies@.len() - i,
            {
                let depname = &md.dependencies[i];
                let dr = self.resolve_rec(registry, depname.as_str(), fuel - 1);
                proof {
                    assert(depname@ == deps[i as int]);
                    assert(deps.take(i + 1) =~= deps.take(i as int) + seq![deps[i as int]]);
                    lemma_eval_deps_concat(
                        regm,
                        *self,
                        deps.take(i as int),
                        seq![deps[i as int]],
                        (fuel - 1) as nat,
                    );
                    lemma_eval_deps_singleton(regm, *self, deps[i as int], (fuel - 1) as nat);
                }
                match dr {
                    Ok(v) => {
                        let ghost argv0 = argv@;
                        argv.push(v);
                        proof {
                            assert(vals_of(argv@) =~= vals_of(argv0) + seq![v@]);
                        }
                    },
                    Err(e) => {
                        proof {
                            assert(deps =~= deps.take(i as int) + deps.skip(i as int));
                            lemma_eval_deps_concat(
                                regm,
                                *self,
                                deps.take(i as int),
                                deps.skip(i as int),
                                (fuel - 1) as nat,
                            );
                            assert(deps.skip(i as int).len() > 0);
                            assert(deps.skip(i as int)[0] == deps[i as int]);
                        }
                        return Err(e);
                    },
                }
                i += 1;
            }
            proof {
                assert(deps.take(deps.len() as int) =~= deps);
            }
            match &md.derived_func {
                Some(rule) => rule.compute(&argv),
                None => Err(
                    SoAKitError::InvalidArgument(String::from_str("derived field missing function")),
                ),
            }
        } else {
            self.stored_value(field)
        }
    }

    /// Reassembles a stored column across the tiles, in tile order.
    pub(crate) fn stored_value(&self, field: &str) -> (r: Result<Value, SoAKitError>)
        requires
            self.wf(),
        ensures
            res_models(r, self.stored_col(field@)),
    {
        if self.chunks.len() == 0 {
            return Err(SoAKitError::FieldNotFound(String::from_str(field)));
        }
        let first = match self.chunks[0].columns.get(field) {
            Some(v) => v,
            None => {
                return Err(SoAKitError::FieldNotFound(String::from_str(field)));
            },
        };
        let mut acc = first.clone();
        proof {
            assert(self.chunks@.take(1) =~= Seq::<Chunk>::empty().push(self.chunks@[0]));
            lemma_chunks_col_elems_snoc(Seq::<Chunk>::empty(), self.chunks@[0], field@);
            assert(Seq::<Sc>::empty() + self.chunks@[0].columns@[field@]@->Vector_1 =~= self
                .chunks@[0].columns@[field@]@->Vector_1);
        }
        let mut ci: usize = 1;
        while ci < self.chunks.len()
            invariant
                self.wf(),
                self.has_col(field@),
                1 <= ci <= self.chunks@.len(),
                acc@ == Val::Vector(
                    self.col_kind(field@),
                    chunks_col_elems(self.chunks@.take(ci as int), field@),
                ),
            decreases self.chunks@.len() - ci,
        {
            match self.chunks[ci].columns.get(field) {
                Some(v) => {
                    proof {
                        assert(self.chunks@[ci as int].columns@.contains_key(field@));
                    }
                    let r2 = acc.concat_vector(v);
                    match r2 {
                        Ok(a2) => {
                            acc = a2;
                        },
                        Err(_) => {
                            proof {
                                assert(false);
                            }
                            return Err(SoAKitError::FieldNotFound(String::from_str(field)));
                        },
                    }
                    proof {
                        assert(self.chunks@.take(ci + 1) =~= self.chunks@.take(
                            ci as int,
                        ).push(self.chunks@[ci as int]));
                        lemma_chunks_col_elems_snoc(
                            self.chunks@.take(ci as int),
                            self.chunks@[ci as int],
                            field@,
                        );
                    }
                },
                None => {
                    proof {
                        assert(self.chunks@[ci as int].columns@.contains_key(field@));
                        assert(false);
                    }
                    return Err(SoAKitError::FieldNotFound(String::from_str(field)));
                },
            }
            ci += 1;
        }
        proof {
            assert(self.chunks@.take(self.chunks@.len() as int) =~= self.chunks@);
        }
        Ok(acc)
    }

    /// The dependencies' current version snapshot: the placeholder for
    /// derived dependencies, the stored counter otherwise; `None` when some
    /// stored dependency has no counter yet.
    fn snapshot_now<V: Validator, D: DerivedRule>(
        &self,
        registry: &Registry<V, D>,
        deps: &Vec<String>,
    ) -> (r: Option<Vec<u64>>)
        ensures
            r is Some ==> snap_matches(
                registry@,
                *self,
                deps@.map_values(|n: String| n@),
                r->0@,
            ),
    {
        let ghost dv = deps@.map_values(|n: String| n@);
        let mut out: Vec<u64> = Vec::new();
        let mut i: usize = 0;
        while i < deps.len()
            invariant
                i <= deps@.len(),
                dv == deps@.map_values(|n: String| n@),
                out@.len() == i,
                forall|j: int|
                    0 <= j < i ==> Some(#[trigger] out@[j]) == snap_of(registry@, *self, dv[j]),
            decreases deps@.len() - i,
        {
            let dep = &deps[i];
            let isd = match registry.get_metadata(dep.as_str()) {
                Some(m) => m.is_derived,
                None => false,
            };
            if isd {
                out.push(0);
            } else {
                match self.meta.versions.get(dep.as_str()) {
                    Some(v) => {
                        out.push(*v);
                    },
                    None => {
                        return None;
                    },
                }
            }
            i += 1;
        }
        Some(out)
    }

    /// Reads a field. A stored field is reassembled from its tiles on every
    /// call; a derived field is served from the cache when the recorded
    /// dependency versions still match, and recomputed and re-memoized
    /// otherwise. In either case the result is exactly the cache-free
    /// reading `eval` describes.
    pub fn get<V: Validator, D: DerivedRule>(
        &mut self,
        registry: &Registry<V, D>,
        field: &str,
    ) -> (r: Result<Value, SoAKitError>)
        requires
            old(self).wf(),
            registry.wf(),
            cache_ok(*old(self), *registry),
        ensures
            final(self).wf(),
            cache_ok(*final(self), *registry),
            res_models(r, eval(registry@, *old(self), field@, bulk_fuel(*registry))),
            final(self).meta.count == old(self).meta.count,
            final(self).meta.id@ == old(self).meta.id@,
            final(self).meta.versions@ == old(self).meta.versions@,
            final(self).chunks == old(self).chunks,
            forall|f2: Seq<char>|
                #[trigger] final(self).cache@.contains_key(f2) ==> old(self).cache@.contains_key(f2)
                    || f2 == field@,
            forall|f2: Seq<char>|
                #[trigger] old(self).cache@.contains_key(f2) ==> final(self).cache@.contains_key(
                    f2,
                ),
            forall|f2: Seq<char>|
                f2 != field@ && #[trigger] old(self).cache@.contains_key(f2)
                    ==> final(self).cache@[f2] == old(self).cache@[f2],
    {
        let fuel = registry.fields.len();
        let md = match registry.get_metadata(field) {
            Some(m) => m,
            None => {
                return Err(SoAKitError::FieldNotFound(String::from_str(field)));
            },
        };
        if !md.is_derived {
            return self.resolve_rec(registry, field, fuel);
        }
        let mut cached: Option<Value> = None;
        match self.cache.get(field) {
            Some(entry) => {
                match self.snapshot_now(registry, &md.dependencies) {
                    Some(snap) => {
                        if u64_vecs_equal(&snap, &entry.versions) {
                            proof {
                                assert(self.cache@.contains_key(field@));
                                assert(snap_matches(
                                    registry@,
                                    *self,
                                    registry@[field@].dep_views(),
                                    self.cache@[field@].versions@,
                                ));
                            }
                            cached = Some(entry.value.clone());
                        }
                    },
                    None => {},
                }
            },
            None => {},
        }
        if let Some(v) = cached {
            return Ok(v);
        }
        let computed = match self.resolve_rec(registry, field, fuel) {
            Ok(v) => v,
            Err(e) => {
                return Err(e);
            },
        };
        match self.snapshot_now(registry, &md.dependencies) {
            Some(snap) => {
                let ghost pre = *self;
                self.cache.insert(
                    String::from_str(field),
                    CacheEntry { value: computed.clone(), versions: snap },
                );
                proof {
                    assert forall|h: Seq<char>| cols_agree(pre, *self, h) by {}
                    assert forall|f2: Seq<char>| #[trigger] self.cache@.contains_key(f2) implies {
                        let entry = self.cache@[f2];
                        &&& registry@.contains_key(f2)
                        &&& registry@[f2].is_derived
                        &&& (snap_matches(registry@, *self, registry@[f2].dep_views(), entry.versions@)
                            ==> eval(registry@, *self, f2, bulk_fuel(*registry)) == Ok::<
                            Val,
                            ErrModel,
                        >(entry.value@))
                    } by {
                        lemma_eval_same_cols(registry@, pre, *self, f2, bulk_fuel(*registry));
                        if f2 == field@ {
                            assert(self.cache@[f2].value@ == computed@);
                        } else {
                            assert(pre.cache@.contains_key(f2));
                            assert(self.cache@[f2] == pre.cache@[f2]);
                            if snap_matches(
                                registry@,
                                *self,
                                registry@[f2].dep_views(),
                                self.cache@[f2].versions@,
                            ) {
                                assert(snap_matches(
                                    registry@,
                                    pre,
                                    registry@[f2].dep_views(),
                                    pre.cache@[f2].versions@,
                                ));
                            }
                        }
                    }
                }
                Ok(computed)
            },
            None => Ok(computed),
        }
    }
}

/// Compares two counter vectors for equality.
fn u64_vecs_equal(a: &Vec<u64>, b: &Vec<u64>) -> (r: bool)
    ensures
        r == (a@ == b@),
{
    if a.len() != b.len() {
        return false;
    }
    let mut i: usize = 0;
    while i < a.len()
        invariant
            i <= a@.len(),
            a@.len() == b@.len(),
            forall|j: int| 0 <= j < i ==> a@[j] == b@[j],
        decreases a@.len() - i,
    {
        if a[i] != b[i] {
            return false;
        }
        i += 1;
    }
    proof {
        assert(a@ =~= b@);
    }
    true
}

/// Tile sequences whose columns agree field for field give equal
/// concatenated columns.
pub proof fn lemma_chunks_col_elems_congruent(a: Seq<Chunk>, b: Seq<Chunk>, f: Seq<char>)
    requires
        a.len() == b.len(),
        forall|j: int|
            0 <= j < a.len() ==> (#[trigger] a[j].columns@.contains_key(f)) == b[j].columns@
                .contains_key(f),
        forall|j: int|
            0 <= j < a.len() && b[j].columns@.contains_key(f) ==> (#[trigger] a[j].columns@[f])@
                == b[j].columns@[f]@,
        forall|j: int| 0 <= j < a.len() ==> #[trigger] b[j].columns@.contains_key(f),
    ensures
        chunks_col_elems(a, f) == chunks_col_elems(b, f),
    decreases a.len(),
{
    if a.len() > 0 {
        assert(a.drop_first().len() == b.drop_first().len());
        assert forall|j: int|
            0 <= j < a.drop_first().len() implies (#[trigger] a.drop_first()[j].columns@
            .contains_key(f)) == b.drop_first()[j].columns@.contains_key(f) && b.drop_first()[j]
            .columns@.contains_key(f) by {
            assert(a.drop_first()[j] == a[j + 1]);
            assert(b.drop_first()[j] == b[j + 1]);
        }
        assert forall|j: int|
            0 <= j < a.drop_first().len() && b.drop_first()[j].columns@.contains_key(f) implies (
        #[trigger] a.drop_first()[j].columns@[f])@ == b.drop_first()[j].columns@[f]@ by {
            assert(a.drop_first()[j] == a[j + 1]);
            assert(b.drop_first()[j] == b[j + 1]);
        }
        lemma_chunks_col_elems_congruent(a.drop_first(), b.drop_first(), f);
        assert(a[0].columns@[f]@ == b[0].columns@[f]@);
    }
}


/// A dependency list reaches `g` exactly when some member is `g` or reaches
/// it.
pub proof fn lemma_deps_depend_iff<V: Validator, D: DerivedRule>(
    reg: Map<Seq<char>, FieldMetadata<V, D>>,
    deps: Seq<Seq<char>>,
    g: Seq<char>,
    fuel: nat,
)
    ensures
        deps_depend(reg, deps, g, fuel) <==> exists|i: int|
            0 <= i < deps.len() && ((#[trigger] deps[i]) == g || depends_on(reg, deps[i], g, fuel)),
    decreases deps.len(),
{
    if deps.len() > 0 {
        lemma_deps_depend_iff(reg, deps.drop_first(), g, fuel);
        if deps_depend(reg, deps, g, fuel) {
            if deps[0] == g || depends_on(reg, deps[0], g, fuel) {
                assert(deps[0] == g || depends_on(reg, deps[0], g, fuel));
            } else {
                let i = choose|i: int|
                    0 <= i < deps.drop_first().len() && ((#[trigger] deps.drop_first()[i]) == g
                        || depends_on(reg, deps.drop_first()[i], g, fuel));
                assert(deps[i + 1] == deps.drop_first()[i]);
            }
        }
        if exists|i: int|
            0 <= i < deps.len() && ((#[trigger] deps[i]) == g || depends_on(reg, deps[i], g, fuel)) {
            let i = choose|i: int|
                0 <= i < deps.len() && ((#[trigger] deps[i]) == g || depends_on(
                    reg,
                    deps[i],
                    g,
                    fuel,
                ));
            if i > 0 {
                assert(deps.drop_first()[i - 1] == deps[i]);
            }
        }
    }
}

/// Decides whether derived field `f` transitively depends on `g` within the
/// fuel bound.
fn depends_exec<V: Validator, D: DerivedRule>(
    registry: &Registry<V, D>,
    f: &str,
    g: &str,
    fuel: usize,
) -> (r: bool)
    requires
        registry.wf(),
    ensures
        r == depends_on(registry@, f@, g@, fuel as nat),
    decreases fuel,
{
    let ghost regm = registry@;
    let md = match registry.get_metadata(f) {
        Some(m) => m,
        None => {
            return false;
        },
    };
    if !md.is_derived || fuel == 0 {
        return false;
    }
    let ghost deps = md.dep_views();
    let gs = g.to_owned();
    let mut i: usize = 0;
    let mut found = false;
    while i < md.dependencies.len() && !found
        invariant
            regm == registry@,
            registry.wf(),
            regm.contains_key(f@),
            *md == regm[f@],
            deps == md.dep_views(),
            gs@ == g@,
            fuel >= 1,
            i <= md.dependencies@.len(),
            found ==> exists|j: int|
                0 <= j < deps.len() && ((#[trigger] deps[j]) == g@ || depends_on(
                    regm,
                    deps[j],
                    g@,
                    (fuel - 1) as nat,
                )),
            !found ==> forall|j: int|
                0 <= j < i ==> !((#[trigger] deps[j]) == g@ || depends_on(
                    regm,
                    deps[j],
                    g@,
                    (fuel - 1) as nat,
                )),
        decreases md.dependencies@.len() - i,
    {
        let dep = &md.dependencies[i];
        proof {
            assert(dep@ == deps[i as int]);
        }
        if *dep == gs {
            found = true;
        } else if depends_exec(registry, dep.as_str(), g, fuel - 1) {
            found = true;
        }
        i += 1;
    }
    proof {
        lemma_deps_depend_iff(regm, deps, g@, (fuel - 1) as nat);
    }
    found
}

/// The primitive kind of a scalar value, or `None` for vectors and matrices.
fn scalar_kind_of(v: &Value) -> (r: Option<ValKind>)
    ensures
        v@ is Scalar ==> r == Some(v@->Scalar_0.kind()),
        !(v@ is Scalar) ==> r is None,
{
    match v {
        Value::ScalarInt(_) => Some(ValKind::Int),
        Value::ScalarFloat(_) => Some(ValKind::Float),
        Value::ScalarBool(_) => Some(ValKind::Bool),
        Value::ScalarString(_) => Some(ValKind::Str),
        _ => None,
    }
}

impl Bulk {
    /// Writes one field's column (an immutable update: the receiver is
    /// untouched and a new store is returned). The values — one scalar per
    /// row, all of one primitive kind — are validated through the registry,
    /// packed into the tiles, and the field's version counter is bumped;
    /// every cached derived column that transitively depends on the field is
    /// dropped.
    #[verifier::rlimit(100)]
    pub fn set<V: Validator, D: DerivedRule>(
        &self,
        registry: &Registry<V, D>,
        field: &str,
        values: Vec<Value>,
    ) -> (r: Result<Bulk, SoAKitError>)
        requires
            self.wf(),
            registry.wf(),
            cache_ok(*self, *registry),
        ensures
            !registry@.contains_key(field@) ==> r is Err && r->Err_0@ == ErrModel::FieldNotFound(
                field@,
            ),
            registry@.contains_key(field@) && values@.len() != self.meta.count ==> r is Err
                && r->Err_0@ == (ErrModel::LengthMismatch {
                expected: self.meta.count,
                actual: values@.len() as usize,
            }),
            registry@.contains_key(field@) && values@.len() == self.meta.count
                && !registry.spec_validate(field@, values@[0]@) ==> r is Err && r->Err_0@
                is ValidationFailed,
            registry@.contains_key(field@) && values@.len() == self.meta.count
                && registry.spec_validate(field@, values@[0]@) && scalars_kind(vals_of(values@))
                is None ==> r is Err && r->Err_0@ is InvalidArgument,
            registry@.contains_key(field@) && values@.len() == self.meta.count
                && registry.spec_validate(field@, values@[0]@) && scalars_kind(vals_of(values@))
                is Some && self.meta.versions@.contains_key(field@) && self.meta.versions@[field@]
                == u64::MAX ==> r is Err && r->Err_0@ is InvalidArgument,
            r is Ok <==> registry@.contains_key(field@) && values@.len() == self.meta.count
                && registry.spec_validate(field@, values@[0]@) && scalars_kind(vals_of(values@))
                is Some && !(self.meta.versions@.contains_key(field@) && self.meta.versions@[field@]
                == u64::MAX),
            r is Ok ==> {
                let b = r->Ok_0;
                let newv: u64 = if self.meta.versions@.contains_key(field@) {
                    (self.meta.versions@[field@] + 1) as u64
                } else {
                    1u64
                };
                &&& b.wf()
                &&& cache_ok(b, *registry)
                &&& b.meta.count == self.meta.count
                &&& b.meta.id@ == self.meta.id@
                &&& b.meta.versions@ == self.meta.versions@.insert(field@, newv)
                &&& b.has_col(field@)
                &&& b.col_kind(field@) == scalars_kind(vals_of(values@))->0
                &&& b.col_elems(field@) == sc_models(vals_of(values@))
                &&& (forall|h: Seq<char>| h != field@ ==> (b.has_col(h) <==> self.has_col(h)))
                &&& (forall|h: Seq<char>|
                    h != field@ && self.has_col(h) ==> b.col_kind(h) == self.col_kind(h)
                        && #[trigger] b.col_elems(h) == self.col_elems(h))
                &&& (forall|f2: Seq<char>|
                    #[trigger] b.cache@.contains_key(f2) <==> (self.cache@.contains_key(f2)
                        && !depends_on(registry@, f2, field@, bulk_fuel(*registry))))
                &&& (forall|f2: Seq<char>|
                    #[trigger] b.cache@.contains_key(f2) ==> b.cache@[f2].value@
                        == self.cache@[f2].value@ && b.cache@[f2].versions@
                        == self.cache@[f2].versions@)
            },
    {
        let ghost regm = registry@;
        let ghost gf = field@;
        let count = self.meta.count;
        if !registry.has_field(field) {
            return Err(SoAKitError::FieldNotFound(String::from_str(field)));
        }
        if values.len() != count {
            return Err(
                SoAKitError::LengthMismatch { expected: count, actual: values.len() },
            );
        }
        if !registry.validate(field, &values[0]) {
            return Err(
                SoAKitError::ValidationFailed(String::from_str("value validation failed")),
            );
        }
        let ghost vm = vals_of(values@);
        let ghost sm = sc_models(vm);
        // Bump the version, failing hard on counter overflow.
        let newv: u64 = match self.meta.versions.get(field) {
            Some(v) => {
                if *v == u64::MAX {
                    return Err(
                        SoAKitError::InvalidArgument(String::from_str("version overflow")),
                    );
                }
                *v + 1
            },
            None => 1,
        };
        let mut versions = self.meta.versions.clone();
        proof {
            assert forall|k2: Seq<char>| #[trigger] versions@.contains_key(k2)
                implies self.meta.versions@.contains_key(k2) && versions@[k2]
                == self.meta.versions@[k2] by {
                assert(cloned::<u64>(self.meta.versions@[k2], versions@[k2]));
            }
            assert(versions@ =~= self.meta.versions@);
        }
        versions.insert(String::from_str(field), newv);
        // Build the new tiles: the old columns plus this field's, sliced at
        // the fixed boundaries.
        proof {
            assert(chunks_wf(self.chunks@, count as nat));
        }
        let wcres = with_column(&self.chunks, count, field, &values);
        let ghost gw = wcres;
        let new_chunks = match wcres {
            Ok(c) => c,
            Err(e) => {
                return Err(e);
            },
        };
        proof {
            assert(scalars_kind(vm) is Some);
        }
        let ghost kind = scalars_kind(vm)->0;
        let ghost nc = new_chunks@;
        proof {
            assert(gw is Ok);
            assert(gw->Ok_0@ == nc);
            assert forall|h: Seq<char>|
                h != gf && has_col_s(self.chunks@, h) implies col_kind_s(nc, h) == col_kind_s(
                self.chunks@,
                h,
            ) && #[trigger] chunks_col_elems(nc, h) == chunks_col_elems(self.chunks@, h) by {
                assert(col_kind_s(gw->Ok_0@, h) == col_kind_s(self.chunks@, h)
                    && chunks_col_elems(gw->Ok_0@, h) == chunks_col_elems(self.chunks@, h));
            }
            assert forall|h: Seq<char>|
                h != gf implies (has_col_s(nc, h) <==> has_col_s(self.chunks@, h)) by {
                assert(has_col_s(gw->Ok_0@, h) <==> has_col_s(self.chunks@, h));
            }
            assert(chunks_wf(nc, count as nat));
            assert(has_col_s(nc, gf));
            assert(col_kind_s(nc, gf) == kind);
            assert(chunks_col_elems(nc, gf) == sm);
        }
        // Drop every cached derived column that depends on this field.
        let fuel = registry.fields.len();
        let mut cache = self.cache.clone();
        proof {
            assert forall|f2: Seq<char>| #[trigger] cache@.contains_key(f2)
                implies self.cache@.contains_key(f2) && cache@[f2].value@
                == self.cache@[f2].value@ && cache@[f2].versions@
                == self.cache@[f2].versions@ by {
                assert(cloned::<CacheEntry>(self.cache@[f2], cache@[f2]));
                if self.cache@[f2] != cache@[f2] {
                    assert(call_ensures(CacheEntry::clone, (&self.cache@[f2],), cache@[f2]));
                }
            }
        }
        let names = registry.list_fields();
        let mut ni: usize = 0;
        while ni < names.len()
            invariant
                regm == registry@,
                registry.wf(),
                self.wf(),
                gf == field@,
                fuel == bulk_fuel(*registry),
                names@.len() == registry.key_views().len(),
                forall|t: int| 0 <= t < names@.len() ==> (#[trigger] names@[t])@ == registry.key_views()[t],
                ni <= names@.len(),
                cache.wf(),
                forall|f2: Seq<char>|
                    #[trigger] cache@.contains_key(f2) ==> self.cache@.contains_key(f2)
                        && cache@[f2].value@ == self.cache@[f2].value@ && cache@[f2].versions@
                        == self.cache@[f2].versions@,
                forall|f2: Seq<char>|
                    self.cache@.contains_key(f2) && !(exists|t: int|
                        0 <= t < ni && (#[trigger] names@[t])@ == f2 && depends_on(
                            regm,
                            f2,
                            gf,
                            fuel as nat,
                        )) ==> #[trigger] cache@.contains_key(f2),
                forall|f2: Seq<char>|
                    #[trigger] cache@.contains_key(f2) ==> !(exists|t: int|
                        0 <= t < ni && (#[trigger] names@[t])@ == f2 && depends_on(
                            regm,
                            f2,
                            gf,
                            fuel as nat,
                        )),
            decreases names@.len() - ni,
        {
            let name = &names[ni];
            if depends_exec(registry, name.as_str(), field, fuel) {
                cache.remove(name);
            }
            ni += 1;
        }
        // Assemble the new store.
        let nb = Bulk {
            meta: Meta { count, id: self.meta.id.clone(), versions },
            chunks: new_chunks,
            cache,
        };
        proof {
            assert(nb.meta.id@ =~= self.meta.id@);
            // The new cache holds exactly the entries that do not depend on
            // the written field.
            assert forall|f2: Seq<char>| #[trigger] nb.cache@.contains_key(f2) <==> (
            self.cache@.contains_key(f2) && !depends_on(regm, f2, gf, fuel as nat)) by {
                if self.cache@.contains_key(f2) && !depends_on(regm, f2, gf, fuel as nat) {
                    assert(!(exists|t: int|
                        0 <= t < names@.len() && (#[trigger] names@[t])@ == f2 && depends_on(
                            regm,
                            f2,
                            gf,
                            fuel as nat,
                        )));
                    assert(nb.cache@.contains_key(f2));
                }
                if nb.cache@.contains_key(f2) {
                    assert(self.cache@.contains_key(f2));
                    if depends_on(regm, f2, gf, fuel as nat) {
                        assert(regm.contains_key(f2));
                        assert(registry.fields.wf());
                        assert(registry.key_views().contains(f2));
                        let t = choose|t: int|
                            0 <= t < registry.key_views().len() && registry.key_views()[t] == f2;
                        assert(names@[t]@ == f2);
                        assert(false);
                    }
                }
            }
            // Well-formedness of the new store.
            assert(nb.chunks@ == nc);
            assert(chunks_wf(nb.chunks@, count as nat));
            assert(nb.has_col(gf));
            assert forall|h: Seq<char>| h != gf implies (nb.has_col(h) <==> self.has_col(h)) by {
                assert(has_col_s(nc, h) <==> has_col_s(self.chunks@, h));
            }
            assert forall|h: Seq<char>| #[trigger] nb.meta.versions@.contains_key(h)
                implies nb.has_col(h) by {
                if h != gf {
                    assert(self.meta.versions@.contains_key(h));
                    assert(self.meta.versions@.contains_key(h) <==> self.has_col(h));
                    assert(self.has_col(h));
                }
            }
            assert forall|h: Seq<char>| nb.has_col(h) implies #[trigger] nb.meta.versions@
                .contains_key(h) by {
                if h != gf {
                    assert(self.has_col(h));
                    assert(self.meta.versions@.contains_key(h) <==> self.has_col(h));
                    assert(self.meta.versions@.contains_key(h));
                }
            }
            assert(nb.wf());
            // The written column reads back as the given values.
            assert(nb.col_elems(gf) == sm);
            assert(nb.col_kind(gf) == kind);
            // Other columns are untouched.
            assert forall|h: Seq<char>|
                h != gf && self.has_col(h) implies nb.col_kind(h) == self.col_kind(h)
                && #[trigger] nb.col_elems(h) == self.col_elems(h) by {
                assert(has_col_s(self.chunks@, h));
                assert(col_kind_s(nc, h) == col_kind_s(self.chunks@, h) && chunks_col_elems(
                    nc,
                    h,
                ) == chunks_col_elems(self.chunks@, h));
                assert(nb.col_kind(h) == col_kind_s(nc, h));
                assert(nb.col_elems(h) == chunks_col_elems(nc, h));
            }
            // The memoization invariant survives: a surviving entry depends
            // on none of the changed state.
            assert forall|f2: Seq<char>| #[trigger] nb.cache@.contains_key(f2) implies {
                let entry = nb.cache@[f2];
                &&& regm.contains_key(f2)
                &&& regm[f2].is_derived
                &&& (snap_matches(regm, nb, regm[f2].dep_views(), entry.versions@) ==> eval(
                    regm,
                    nb,
                    f2,
                    bulk_fuel(*registry),
                ) == Ok::<Val, ErrModel>(entry.value@))
            } by {
                assert(self.cache@.contains_key(f2));
                assert(!depends_on(regm, f2, gf, fuel as nat));
                assert(regm.contains_key(f2) && regm[f2].is_derived);
                if snap_matches(regm, nb, regm[f2].dep_views(), nb.cache@[f2].versions@) {
                    let deps2 = regm[f2].dep_views();
                    assert(fuel as nat == bulk_fuel(*registry));
                    assert(registry.fields.wf());
                    assert(registry.key_views().contains(f2));
                    assert(bulk_fuel(*registry) > 0);
                    lemma_deps_depend_iff(regm, deps2, gf, (fuel - 1) as nat);
                    assert forall|t: int| 0 <= t < deps2.len() implies (#[trigger] deps2[t]) != gf by {
                        if deps2[t] == gf {
                            assert(deps_depend(regm, deps2, gf, (fuel - 1) as nat));
                            assert(depends_on(regm, f2, gf, fuel as nat));
                        }
                    }
                    assert forall|t: int|
                        0 <= t < deps2.len() implies Some(#[trigger] nb.cache@[f2].versions@[t])
                        == snap_of(regm, *self, deps2[t]) by {
                        assert(Some(nb.cache@[f2].versions@[t]) == snap_of(regm, nb, deps2[t]));
                        assert(deps2[t] != gf);
                        assert(nb.meta.versions@.contains_key(deps2[t]) == self.meta.versions@
                            .contains_key(deps2[t]));
                        if self.meta.versions@.contains_key(deps2[t]) {
                            assert(nb.meta.versions@[deps2[t]] == self.meta.versions@[deps2[t]]);
                        }
                    }
                    assert(snap_matches(regm, *self, deps2, self.cache@[f2].versions@));
                    assert(eval(regm, *self, f2, bulk_fuel(*registry)) == Ok::<Val, ErrModel>(
                        self.cache@[f2].value@,
                    ));
                    assert forall|h: Seq<char>|
                        eval_reads(regm, f2, h, bulk_fuel(*registry)) implies cols_agree(
                        *self,
                        nb,
                        h,
                    ) by {
                        if h == f2 && !(regm.contains_key(f2) && regm[f2].is_derived) {
                            assert(false);
                        } else {
                            assert(depends_on(regm, f2, h, bulk_fuel(*registry)));
                            assert(h != gf);
                            assert(nb.has_col(h) <==> self.has_col(h));
                        }
                    }
                    lemma_eval_frame(regm, *self, nb, f2, bulk_fuel(*registry));
                }
            }
        }
        proof {
            let newv2: u64 = if self.meta.versions@.contains_key(gf) {
                (self.meta.versions@[gf] + 1) as u64
            } else {
                1u64
            };
            assert(newv == newv2);
            assert(nb.wf());
            assert(cache_ok(nb, *registry));
            assert(nb.meta.count == self.meta.count);
            assert(nb.meta.id@ == self.meta.id@);
            assert(nb.meta.versions@ == self.meta.versions@.insert(gf, newv2));
            assert(nb.has_col(gf));
            assert(nb.col_kind(gf) == scalars_kind(vals_of(values@))->0);
            assert(nb.col_elems(gf) == sc_models(vals_of(values@)));
            assert(forall|h: Seq<char>| h != gf ==> (nb.has_col(h) <==> self.has_col(h)));
            assert(forall|h: Seq<char>|
                h != gf && self.has_col(h) ==> nb.col_kind(h) == self.col_kind(h)
                    && #[trigger] nb.col_elems(h) == self.col_elems(h));
            assert(forall|f2: Seq<char>|
                #[trigger] nb.cache@.contains_key(f2) <==> (self.cache@.contains_key(f2)
                    && !depends_on(registry@, f2, gf, bulk_fuel(*registry))));
            assert(forall|f2: Seq<char>|
                #[trigger] nb.cache@.contains_key(f2) ==> nb.cache@[f2].value@
                    == self.cache@[f2].value@ && nb.cache@[f2].versions@
                    == self.cache@[f2].versions@);
            assert(registry@.contains_key(gf));
            assert(values@.len() == self.meta.count);
            assert(registry.spec_validate(gf, values@[0]@));
            assert(scalars_kind(vals_of(values@)) is Some);
            assert(!(self.meta.versions@.contains_key(gf) && self.meta.versions@[gf] == u64::MAX));
        }
        Ok(nb)
    }
}


/// True when a tile sequence has a stored column for the field.
pub open spec fn has_col_s(chunks: Seq<Chunk>, f: Seq<char>) -> bool {
    chunks.len() > 0 && chunks[0].columns@.contains_key(f)
}

/// The stored column's primitive kind, read from the first tile.
pub open spec fn col_kind_s(chunks: Seq<Chunk>, f: Seq<char>) -> ValKind {
    chunks[0].columns@[f]@->Vector_0
}

/// The tile-sequence part of the store invariant: the fixed boundaries, and
/// per-field consistency across tiles.
pub open spec fn chunks_wf(chunks: Seq<Chunk>, count: nat) -> bool {
    &&& (chunks.len() == 0 || chunks.len() == num_chunks(count))
    &&& (forall|ci: int|
        0 <= ci < chunks.len() ==> (#[trigger] chunks[ci]).len == chunk_len(count, ci))
    &&& (forall|ci: int| 0 <= ci < chunks.len() ==> (#[trigger] chunks[ci]).columns.wf())
    &&& (forall|ci: int, f: Seq<char>|
        0 <= ci < chunks.len() ==> ((#[trigger] chunks[ci].columns@.contains_key(f)) <==> has_col_s(
            chunks,
            f,
        )))
    &&& (forall|ci: int, f: Seq<char>|
        0 <= ci < chunks.len() && chunks[ci].columns@.contains_key(f) ==> {
            let v = (#[trigger] chunks[ci].columns@[f])@;
            &&& v is Vector
            &&& v->Vector_1.len() == chunks[ci].len
            &&& v->Vector_0 == col_kind_s(chunks, f)
        })
}

/// Returns the tile sequence with one field's column replaced (or added):
/// the values, one scalar per row of one primitive kind, sliced at the fixed
/// tile boundaries. Fails with `InvalidArgument` when the values are not
/// scalars of one kind.
#[verifier::rlimit(100)]
fn with_column(base: &Vec<Chunk>, count: usize, field: &str, values: &Vec<Value>) -> (r: Result<
    Vec<Chunk>,
    SoAKitError,
>)
    requires
        count > 0,
        values@.len() == count,
        chunks_wf(base@, count as nat),
    ensures
        scalars_kind(vals_of(values@)) is None ==> r is Err && r->Err_0@ is InvalidArgument,
        scalars_kind(vals_of(values@)) is Some ==> r is Ok,
        r is Ok ==> chunks_wf(r->Ok_0@, count as nat),
        r is Ok ==> r->Ok_0@.len() == num_chunks(count as nat),
        r is Ok ==> has_col_s(r->Ok_0@, field@),
        r is Ok ==> col_kind_s(r->Ok_0@, field@) == scalars_kind(vals_of(values@))->0,
        r is Ok ==> chunks_col_elems(r->Ok_0@, field@) == sc_models(vals_of(values@)),
        r is Ok ==> (forall|h: Seq<char>|
            #![trigger has_col_s(r->Ok_0@, h)]
            #![trigger has_col_s(base@, h)]
            h != field@ ==> (has_col_s(r->Ok_0@, h) <==> has_col_s(base@, h))),
        r is Ok ==> (forall|h: Seq<char>|
            #![trigger chunks_col_elems(r->Ok_0@, h)]
            #![trigger has_col_s(base@, h)]
            h != field@ && has_col_s(base@, h) ==> col_kind_s(r->Ok_0@, h) == col_kind_s(base@, h)
                && chunks_col_elems(r->Ok_0@, h) == chunks_col_elems(base@, h)),
{
    let ghost gf = field@;
    let ghost vm = vals_of(values@);
    let kind = match scalar_kind_of(&values[0]) {
        Some(kd) => kd,
        None => {
            proof {
                assert(!(vm[0] is Scalar));
            }
            return Err(SoAKitError::InvalidArgument(String::from_str("values must be scalars")));
        },
    };
    let mut vi: usize = 1;
    while vi < values.len()
        invariant
            vm == vals_of(values@),
            values@.len() == count,
            count > 0,
            chunks_wf(base@, count as nat),
            vm.len() == count,
            1 <= vi <= values@.len(),
            vm[0] is Scalar,
            kind == vm[0]->Scalar_0.kind(),
            forall|j: int|
                0 <= j < vi ==> (#[trigger] vm[j]) is Scalar && vm[j]->Scalar_0.kind() == kind,
        decreases values@.len() - vi,
    {
        match scalar_kind_of(&values[vi]) {
            Some(kd) => {
                if !(kd == kind) {
                    proof {
                        assert(!((vm[vi as int]) is Scalar && vm[vi as int]->Scalar_0.kind()
                            == vm[0]->Scalar_0.kind()));
                    }
                    return Err(
                        SoAKitError::InvalidArgument(
                            String::from_str("values mix primitive kinds"),
                        ),
                    );
                }
            },
            None => {
                proof {
                    assert(!(vm[vi as int] is Scalar));
                }
                return Err(
                    SoAKitError::InvalidArgument(String::from_str("values must be scalars")),
                );
            },
        }
        vi += 1;
    }
    proof {
        assert(scalars_kind(vm) == Some(kind));
    }
    let ghost sm = sc_models(vm);
    let nchunks: usize = if base.len() == 0 {
        (count - 1) / CHUNK_SIZE + 1
    } else {
        base.len()
    };
    proof {
        vstd::arithmetic::div_mod::lemma_fundamental_div_mod((count - 1) as int, CHUNK_SIZE as int);
        vstd::arithmetic::div_mod::lemma_mod_bound((count - 1) as int, CHUNK_SIZE as int);
        assert(nchunks == num_chunks(count as nat));
    }
    let ghost dq = ((count - 1) as int) / (CHUNK_SIZE as int);
    let ghost rm = ((count - 1) as int) % (CHUNK_SIZE as int);
    let mut new_chunks: Vec<Chunk> = Vec::new();
    let mut start: usize = 0;
    let mut ci: usize = 0;
    proof {
        assert(new_chunks@.take(0) =~= Seq::<Chunk>::empty());
        assert(sm.take(0) =~= Seq::<Sc>::empty());
    }
    while ci < nchunks
        invariant
            vm == vals_of(values@),
            sm == sc_models(vm),
            values@.len() == count,
            count > 0,
            scalars_kind(vm) == Some(kind),
            vm.len() == count,
            sm.len() == count,
            chunks_wf(base@, count as nat),
            forall|j: int|
                0 <= j < count ==> (#[trigger] vm[j]) is Scalar && vm[j]->Scalar_0.kind() == kind,
            gf == field@,
            nchunks == num_chunks(count as nat),
            (count - 1) as int == CHUNK_SIZE * dq + rm,
            0 <= rm < CHUNK_SIZE,
            nchunks == dq + 1,
            base@.len() == 0 || base@.len() == nchunks,
            ci <= nchunks,
            ci < nchunks ==> start == ci * CHUNK_SIZE && start < count,
            ci == nchunks ==> start == count,
            new_chunks@.len() == ci,
            chunks_col_elems(new_chunks@.take(ci as int), gf) == sm.take(start as int),
            forall|j: int|
                0 <= j < ci ==> {
                    let c = #[trigger] new_chunks@[j];
                    &&& c.len == chunk_len(count as nat, j)
                    &&& c.columns.wf()
                    &&& (forall|h: Seq<char>|
                        #[trigger] c.columns@.contains_key(h) <==> (h == gf || (base@.len() > 0
                            && base@[j].columns@.contains_key(h))))
                    &&& (forall|h: Seq<char>|
                        h != gf && #[trigger] c.columns@.contains_key(h) ==> c.columns@[h]@
                            == base@[j].columns@[h]@)
                    &&& c.columns@[gf]@ == Val::Vector(
                        kind,
                        sm.subrange(j * CHUNK_SIZE, j * CHUNK_SIZE + chunk_len(count as nat, j)),
                    )
                },
        decreases nchunks - ci,
    {
        let rows: usize = if count - start >= CHUNK_SIZE {
            CHUNK_SIZE
        } else {
            count - start
        };
        proof {
            assert(rows == chunk_len(count as nat, ci as int));
            assert(start + rows <= count);
        }
        let mut cvals: Vec<Value> = Vec::new();
        let mut j: usize = start;
        while j < start + rows
            invariant
                vm == vals_of(values@),
                values@.len() == count,
                start + rows <= count,
                start <= j <= start + rows,
                cvals@.len() == j - start,
                forall|t: int|
                    0 <= t < j - start ==> (#[trigger] vals_of(cvals@)[t]) == vm[start + t],
            decreases start + rows - j,
        {
            let ghost c0 = cvals@;
            cvals.push(values[j].clone());
            proof {
                assert(vals_of(cvals@) =~= vals_of(c0).push(vm[j as int]));
            }
            j += 1;
        }
        let ghost cvm = vals_of(cvals@);
        proof {
            assert(cvm =~= vm.subrange(start as int, (start + rows) as int));
            assert(rows > 0);
            assert(cvm[0] == vm[start as int]);
            assert forall|t: int|
                0 <= t < cvm.len() implies (#[trigger] cvm[t]) is Scalar && cvm[t]->Scalar_0.kind()
                == cvm[0]->Scalar_0.kind() by {
                assert(cvm[t] == vm[start + t]);
            }
            assert(scalars_kind(cvm) == Some(kind));
        }
        let col = match crate::value::from_scalars(cvals) {
            Ok(v) => v,
            Err(_) => {
                proof {
                    assert(false);
                }
                return Err(
                    SoAKitError::InvalidArgument(String::from_str("values must be scalars")),
                );
            },
        };
        proof {
            assert(sc_models(cvm) =~= sm.subrange(start as int, (start + rows) as int));
        }
        let mut cols = if base.len() == 0 {
            FieldMap::new()
        } else {
            base[ci].columns.clone()
        };
        proof {
            if base@.len() > 0 {
                assert(base@[ci as int].columns.wf());
                assert forall|h: Seq<char>| #[trigger] cols@.contains_key(h) implies cols@[h]@
                    == base@[ci as int].columns@[h]@ by {
                    assert(cloned::<Value>(base@[ci as int].columns@[h], cols@[h]));
                    if base@[ci as int].columns@[h] != cols@[h] {
                        assert(call_ensures(
                            Value::clone,
                            (&base@[ci as int].columns@[h],),
                            cols@[h],
                        ));
                    }
                }
            }
        }
        cols.insert(String::from_str(field), col);
        let ghost prev_take = new_chunks@.take(ci as int);
        new_chunks.push(Chunk { len: rows, columns: cols });
        proof {
            assert(new_chunks@.take(ci + 1) =~= prev_take.push(new_chunks@[ci as int]));
            lemma_chunks_col_elems_snoc(prev_take, new_chunks@[ci as int], gf);
            assert(new_chunks@[ci as int].columns@[gf]@->Vector_1 == sc_models(cvm));
            assert(sm.take((start + rows) as int) =~= sm.take(start as int) + sm.subrange(
                start as int,
                (start + rows) as int,
            ));
        }
        start = start + rows;
        ci += 1;
        proof {
            if ci < nchunks {
                assert(rows == CHUNK_SIZE);
                assert(start == ci * CHUNK_SIZE);
                assert(start < count);
            } else {
                assert(start == count);
            }
        }
    }
    proof {
        assert(new_chunks@.take(nchunks as int) =~= new_chunks@);
        assert(sm.take(count as int) =~= sm);
        let nc = new_chunks@;
        assert(has_col_s(nc, gf));
        assert forall|ci2: int, h: Seq<char>|
            0 <= ci2 < nc.len() implies ((#[trigger] nc[ci2].columns@.contains_key(h)) <==> has_col_s(
            nc,
            h,
        )) by {
            if base@.len() > 0 {
                assert(base@[ci2].columns@.contains_key(h) <==> has_col_s(base@, h));
                assert(base@[0].columns@.contains_key(h) <==> has_col_s(base@, h));
            }
        }
        assert forall|ci2: int, h: Seq<char>|
            0 <= ci2 < nc.len() && nc[ci2].columns@.contains_key(h) implies {
            let v = (#[trigger] nc[ci2].columns@[h])@;
            &&& v is Vector
            &&& v->Vector_1.len() == nc[ci2].len
            &&& v->Vector_0 == col_kind_s(nc, h)
        } by {
            if h == gf {
                assert(nc[ci2].columns@[h]@ == Val::Vector(
                    kind,
                    sm.subrange(
                        ci2 * CHUNK_SIZE,
                        ci2 * CHUNK_SIZE + chunk_len(count as nat, ci2),
                    ),
                ));
                assert(nc[0].columns@[h]@->Vector_0 == kind);
            } else {
                assert(base@.len() > 0);
                assert(base@[ci2].columns@.contains_key(h));
                assert(nc[ci2].columns@[h]@ == base@[ci2].columns@[h]@);
                assert(nc[0].columns@[h]@ == base@[0].columns@[h]@);
                assert(base@[ci2].len == chunk_len(count as nat, ci2));
            }
        }
        assert(chunks_wf(nc, count as nat));
        assert(nc.len() == num_chunks(count as nat));
        assert(chunks_col_elems(nc, gf) == sm);
        assert(col_kind_s(nc, gf) == kind);
        assert forall|h: Seq<char>| h != gf implies (has_col_s(nc, h) <==> has_col_s(
            base@,
            h,
        )) by {
            assert(nc[0].columns@.contains_key(h) <==> (h == gf || (base@.len() > 0
                && base@[0].columns@.contains_key(h))));
        }
        assert forall|h: Seq<char>|
            h != gf && has_col_s(base@, h) implies col_kind_s(nc, h) == col_kind_s(base@, h)
            && #[trigger] chunks_col_elems(nc, h) == chunks_col_elems(base@, h) by {
            assert(base@.len() == nchunks);
            assert forall|j2: int|
                0 <= j2 < nc.len() implies (#[trigger] nc[j2].columns@.contains_key(h))
                == base@[j2].columns@.contains_key(h) && base@[j2].columns@.contains_key(h) by {
                assert(base@[j2].columns@.contains_key(h) <==> has_col_s(base@, h));
            }
            assert forall|j2: int|
                0 <= j2 < nc.len() && base@[j2].columns@.contains_key(h) implies (
            #[trigger] nc[j2].columns@[h])@ == base@[j2].columns@[h]@ by {
                assert(nc[j2].columns@.contains_key(h));
            }
            lemma_chunks_col_elems_congruent(nc, base@, h);
        }
    }
    let r: Result<Vec<Chunk>, SoAKitError> = Ok(new_chunks);
    proof {
        assert(r is Ok);
        assert(r->Ok_0@ == new_chunks@);
        assert(scalars_kind(vals_of(values@)) is Some);
        assert(chunks_wf(r->Ok_0@, count as nat));
        assert(r->Ok_0@.len() == num_chunks(count as nat));
        assert(has_col_s(r->Ok_0@, field@));
        assert(col_kind_s(r->Ok_0@, field@) == scalars_kind(vals_of(values@))->0);
        assert(chunks_col_elems(r->Ok_0@, field@) == sc_models(vals_of(values@)));
        assert(forall|h: Seq<char>|
            h != field@ ==> (has_col_s(r->Ok_0@, h) <==> has_col_s(base@, h)));
        assert(forall|h: Seq<char>|
            h != field@ && has_col_s(base@, h) ==> col_kind_s(r->Ok_0@, h) == col_kind_s(base@, h)
                && #[trigger] chunks_col_elems(r->Ok_0@, h) == chunks_col_elems(base@, h));
    }
    r
}

/// The elements selected by a boolean mask, in order; rows past the mask's
/// end are dropped.
pub open spec fn masked_elems(s: Seq<Sc>, mask: Seq<bool>) -> Seq<Sc>
    decreases s.len(),
{
    if s.len() == 0 {
        Seq::empty()
    } else {
        masked_elems(s.drop_last(), mask) + (if s.len() - 1 < mask.len() && mask[s.len() - 1] {
            seq![s.last()]
        } else {
            Seq::empty()
        })
    }
}

/// The number of set entries in a mask.
pub open spec fn count_true(mask: Seq<bool>) -> nat
    decreases mask.len(),
{
    if mask.len() == 0 {
        0
    } else {
        count_true(mask.drop_last()) + (if mask.last() {
            1nat
        } else {
            0nat
        })
    }
}

impl Bulk {
    /// True when the derived-field cache currently holds an entry for the
    /// field.
    pub fn is_cached(&self, field: &str) -> (r: bool)
        ensures
            r == self.cache@.contains_key(field@),
    {
        self.cache.contains_key(field)
    }

    /// A read accessor bound to one row; fails with `IndexOutOfBounds` at or
    /// past the row count.
    pub fn at(&self, idx: usize) -> (r: Result<crate::proxy::Proxy, SoAKitError>)
        requires
            self.wf(),
        ensures
            idx >= self.meta.count ==> r is Err && r->Err_0@ == (ErrModel::IndexOutOfBounds {
                index: idx,
                max: self.meta.count,
            }),
            idx < self.meta.count ==> r is Ok && {
                let p = r->Ok_0;
                &&& p.idx == idx
                &&& p.wf()
                &&& p.bulk.meta.count == self.meta.count
                &&& (forall|h: Seq<char>| (*p.bulk).has_col(h) <==> self.has_col(h))
                &&& (forall|h: Seq<char>|
                    self.has_col(h) ==> (*p.bulk).col_kind(h) == self.col_kind(h) && #[trigger] (
                    *p.bulk).col_elems(h) == self.col_elems(h))
            },
    {
        if idx >= self.meta.count {
            return Err(SoAKitError::IndexOutOfBounds { index: idx, max: self.meta.count });
        }
        crate::proxy::Proxy::new(std::rc::Rc::new(self.clone()), idx)
    }
}


/// Total rows across a tile sequence, front first.
pub open spec fn lens_sum(chunks: Seq<Chunk>) -> nat
    decreases chunks.len(),
{
    if chunks.len() == 0 {
        0
    } else {
        (chunks[0].len + lens_sum(chunks.drop_first())) as nat
    }
}

/// Tiles cut at the fixed boundaries cover exactly `count` rows.
proof fn lemma_lens_sum(chunks: Seq<Chunk>, count: nat)
    requires
        count > 0,
        chunks.len() == num_chunks(count),
        forall|ci: int| 0 <= ci < chunks.len() ==> (#[trigger] chunks[ci]).len == chunk_len(count, ci),
    ensures
        lens_sum(chunks) == count,
    decreases chunks.len(),
{
    vstd::arithmetic::div_mod::lemma_fundamental_div_mod((count - 1) as int, CHUNK_SIZE as int);
    vstd::arithmetic::div_mod::lemma_mod_bound((count - 1) as int, CHUNK_SIZE as int);
    if count <= CHUNK_SIZE {
        assert(num_chunks(count) == 1) by {
            vstd::arithmetic::div_mod::lemma_fundamental_div_mod_converse_div(
                (count - 1) as int,
                CHUNK_SIZE as int,
                0,
                (count - 1) as int,
            );
        }
        assert(chunks[0].len == count);
        assert(chunks.drop_first().len() == 0);
        assert(lens_sum(chunks.drop_first()) == 0);
        assert(lens_sum(chunks) == count);
    } else {
        let rest = chunks.drop_first();
        let count2 = (count - CHUNK_SIZE) as nat;
        assert(chunks[0].len == CHUNK_SIZE);
        vstd::arithmetic::div_mod::lemma_fundamental_div_mod((count2 - 1) as int, CHUNK_SIZE as int);
        vstd::arithmetic::div_mod::lemma_mod_bound((count2 - 1) as int, CHUNK_SIZE as int);
        let q2 = ((count2 - 1) as int) / (CHUNK_SIZE as int);
        let r2 = ((count2 - 1) as int) % (CHUNK_SIZE as int);
        assert((count - 1) as int == CHUNK_SIZE * (q2 + 1) + r2);
        vstd::arithmetic::div_mod::lemma_fundamental_div_mod_converse_div(
            (count - 1) as int,
            CHUNK_SIZE as int,
            q2 + 1,
            r2,
        );
        assert(num_chunks(count) == num_chunks(count2) + 1);
        assert forall|ci: int|
            0 <= ci < rest.len() implies (#[trigger] rest[ci]).len == chunk_len(count2, ci) by {
            assert(rest[ci] == chunks[ci + 1]);
            assert(chunks[ci + 1].len == chunk_len(count, ci + 1));
            assert(count - (ci + 1) * CHUNK_SIZE == count2 - ci * CHUNK_SIZE);
        }
        lemma_lens_sum(rest, count2);
        assert(lens_sum(chunks) == CHUNK_SIZE + lens_sum(rest));
    }
}

/// A stored column has one element per row.
pub proof fn lemma_col_elems_len(chunks: Seq<Chunk>, count: nat, f: Seq<char>)
    requires
        count > 0,
        chunks_wf(chunks, count),
        has_col_s(chunks, f),
    ensures
        chunks_col_elems(chunks, f).len() == count,
{
    lemma_lens_sum(chunks, count);
    lemma_col_elems_lens_sum(chunks, f);
}

/// A column's length is the tiles' total row count.
proof fn lemma_col_elems_lens_sum(chunks: Seq<Chunk>, f: Seq<char>)
    requires
        forall|ci: int|
            0 <= ci < chunks.len() ==> (#[trigger] chunks[ci]).columns@.contains_key(f)
                && chunks[ci].columns@[f]@ is Vector && chunks[ci].columns@[f]@->Vector_1.len()
                == chunks[ci].len,
    ensures
        chunks_col_elems(chunks, f).len() == lens_sum(chunks),
    decreases chunks.len(),
{
    if chunks.len() > 0 {
        assert forall|ci: int|
            0 <= ci < chunks.drop_first().len() implies (#[trigger] chunks.drop_first()[ci])
            .columns@.contains_key(f) && chunks.drop_first()[ci].columns@[f]@ is Vector
            && chunks.drop_first()[ci].columns@[f]@->Vector_1.len() == chunks.drop_first()[ci].len
             by {
            assert(chunks.drop_first()[ci] == chunks[ci + 1]);
        }
        lemma_col_elems_lens_sum(chunks.drop_first(), f);
    }
}

/// The mask `apply` works with: an empty mask means every row.
pub open spec fn norm_mask(mask: Seq<bool>, count: nat) -> Seq<bool> {
    if mask.len() == 0 {
        Seq::new(count, |i: int| true)
    } else {
        mask
    }
}

/// Scalar models wrapped as value models, elementwise.
pub open spec fn scalar_vals(s: Seq<Sc>) -> Seq<Val> {
    s.map_values(|x: Sc| Val::Scalar(x))
}

/// The sequence with the masked positions replaced, in order, by the next
/// replacement; unmasked positions keep their element.
pub open spec fn splice(s: Seq<Val>, mask: Seq<bool>, outs: Seq<Val>) -> Seq<Val> {
    Seq::new(
        s.len(),
        |t: int|
            if t < mask.len() && mask[t] {
                outs[count_true(mask.take(t)) as int]
            } else {
                s[t]
            },
    )
}

/// Counting set entries distributes over concatenation.
pub proof fn lemma_count_true_concat(a: Seq<bool>, b: Seq<bool>)
    ensures
        count_true(a + b) == count_true(a) + count_true(b),
    decreases b.len(),
{
    if b.len() == 0 {
        assert(a + b =~= a);
    } else {
        assert((a + b).drop_last() =~= a + b.drop_last());
        lemma_count_true_concat(a, b.drop_last());
    }
}

/// A store with an empty cache keeps the memoization invariant for every
/// registry.
pub proof fn lemma_empty_cache_ok<V: Validator, D: DerivedRule>(b: Bulk, reg: Registry<V, D>)
    requires
        b.cache@ == Map::<Seq<char>, CacheEntry>::empty(),
    ensures
        cache_ok(b, reg),
{
}

/// True when some already-handled field name equals `h` and is not
/// system-prefixed.
spec fn touched(fv: Seq<Seq<char>>, fi: int, h: Seq<char>) -> bool {
    exists|t: int| 0 <= t < fi && (#[trigger] fv[t]) == h && !crate::util::sys_prefixed(h)
}

/// The column for `h` after `apply`: some masked subset was passed to the
/// transformation, it answered with one value per selected row, and the
/// answers were spliced back in at the masked positions.
pub open spec fn col_applied<F: Fn(Vec<Value>) -> Result<Vec<Value>, SoAKitError>>(
    b: Bulk,
    func: F,
    nm: Seq<bool>,
    elems_new: Seq<Sc>,
    h: Seq<char>,
) -> bool {
    exists|sub: Vec<Value>, outs: Vec<Value>|
        {
            &&& vals_of(sub@) == scalar_vals(masked_elems(b.col_elems(h), nm))
            &&& #[trigger] call_ensures(func, (sub,), Ok::<Vec<Value>, SoAKitError>(outs))
            &&& outs@.len() == count_true(nm)
            &&& elems_new == sc_models(splice(scalar_vals(b.col_elems(h)), nm, vals_of(outs@)))
        }
}

/// Loop bookkeeping for `apply`: fields not yet handled are untouched.
spec fn untouched_ok(
    b: Bulk,
    cur: Seq<Chunk>,
    vers: Map<Seq<char>, u64>,
    fv: Seq<Seq<char>>,
    fi: int,
) -> bool {
    forall|h: Seq<char>|
        b.has_col(h) && !touched(fv, fi, h) ==> col_kind_s(cur, h) == b.col_kind(h)
            && #[trigger] chunks_col_elems(cur, h) == b.col_elems(h) && vers[h]
            == b.meta.versions@[h]
}

/// Reads one field's facts out of `untouched_ok`.
proof fn untouched_ok_elim(
    b: Bulk,
    cur: Seq<Chunk>,
    vers: Map<Seq<char>, u64>,
    fv: Seq<Seq<char>>,
    fi: int,
    h: Seq<char>,
)
    requires
        untouched_ok(b, cur, vers, fv, fi),
        b.has_col(h),
        !touched(fv, fi, h),
    ensures
        col_kind_s(cur, h) == b.col_kind(h),
        chunks_col_elems(cur, h) == b.col_elems(h),
        vers[h] == b.meta.versions@[h],
{
    assert(chunks_col_elems(cur, h) == b.col_elems(h));
}

/// Reads one field's facts out of `applied_ok`.
proof fn applied_ok_elim<F: Fn(Vec<Value>) -> Result<Vec<Value>, SoAKitError>>(
    b: Bulk,
    func: F,
    nm: Seq<bool>,
    cur: Seq<Chunk>,
    vers: Map<Seq<char>, u64>,
    fv: Seq<Seq<char>>,
    fi: int,
    h: Seq<char>,
)
    requires
        applied_ok(b, func, nm, cur, vers, fv, fi),
        touched(fv, fi, h),
    ensures
        vers[h] == b.meta.versions@[h] + 1,
        col_applied(b, func, nm, chunks_col_elems(cur, h), h),
{
    assert(vers[h] == b.meta.versions@[h] + 1);
}

/// Folds the per-field facts into `applied_ok`.
proof fn applied_ok_intro<F: Fn(Vec<Value>) -> Result<Vec<Value>, SoAKitError>>(
    b: Bulk,
    func: F,
    nm: Seq<bool>,
    cur: Seq<Chunk>,
    vers: Map<Seq<char>, u64>,
    fv: Seq<Seq<char>>,
    fi: int,
)
    requires
        forall|h: Seq<char>|
            touched(fv, fi, h) ==> #[trigger] vers[h] == b.meta.versions@[h] + 1 && col_applied(
                b,
                func,
                nm,
                chunks_col_elems(cur, h),
                h,
            ),
    ensures
        applied_ok(b, func, nm, cur, vers, fv, fi),
{
}

/// One step of `apply`'s bookkeeping: after splicing field `h0` and bumping
/// its counter, the ledger extends to one more handled field.
proof fn apply_step<F: Fn(Vec<Value>) -> Result<Vec<Value>, SoAKitError>>(
    b: Bulk,
    func: F,
    nm: Seq<bool>,
    prev: Seq<Chunk>,
    cur: Seq<Chunk>,
    vb: Map<Seq<char>, u64>,
    vers: Map<Seq<char>, u64>,
    fv: Seq<Seq<char>>,
    fi: int,
    h0: Seq<char>,
    gsub: Vec<Value>,
    outs: Vec<Value>,
    newv: u64,
)
    requires
        applied_ok(b, func, nm, prev, vb, fv, fi),
        untouched_ok(b, prev, vb, fv, fi),
        0 <= fi < fv.len(),
        fv[fi] == h0,
        !crate::util::sys_prefixed(h0),
        forall|t1: int, t2: int| 0 <= t1 < t2 < fv.len() ==> fv[t1] != fv[t2],
        forall|t: int| 0 <= t < fv.len() ==> b.has_col(#[trigger] fv[t]),
        b.has_col(h0),
        forall|h: Seq<char>|
            h != h0 && #[trigger] has_col_s(prev, h) ==> chunks_col_elems(cur, h)
                == chunks_col_elems(prev, h) && col_kind_s(cur, h) == col_kind_s(prev, h),
        forall|h: Seq<char>| #[trigger] has_col_s(prev, h) <==> b.has_col(h),
        vers == vb.insert(h0, newv),
        newv == b.meta.versions@[h0] + 1,
        vals_of(gsub@) == scalar_vals(masked_elems(b.col_elems(h0), nm)),
        call_ensures(func, (gsub,), Ok::<Vec<Value>, SoAKitError>(outs)),
        outs@.len() == count_true(nm),
        chunks_col_elems(cur, h0) == sc_models(
            splice(scalar_vals(b.col_elems(h0)), nm, vals_of(outs@)),
        ),
    ensures
        applied_ok(b, func, nm, cur, vers, fv, fi + 1),
        untouched_ok(b, cur, vers, fv, fi + 1),
{
    assert forall|h: Seq<char>|
        touched(fv, fi + 1, h) implies #[trigger] vers[h] == b.meta.versions@[h] + 1
        && col_applied(b, func, nm, chunks_col_elems(cur, h), h) by {
        if h == h0 {
            assert(col_applied(b, func, nm, chunks_col_elems(cur, h0), h0));
        } else {
            assert(touched(fv, fi, h)) by {
                let t = choose|t: int|
                    0 <= t < fi + 1 && (#[trigger] fv[t]) == h && !crate::util::sys_prefixed(h);
                assert(t != fi);
            }
            applied_ok_elim(b, func, nm, prev, vb, fv, fi, h);
            assert(chunks_col_elems(cur, h) == chunks_col_elems(prev, h)) by {
                assert(touched(fv, fi, h));
                let t = choose|t: int|
                    0 <= t < fi && (#[trigger] fv[t]) == h && !crate::util::sys_prefixed(h);
                assert(b.has_col(fv[t]));
                assert(b.has_col(h));
                assert(has_col_s(prev, h));
            }
        }
    }
    assert forall|h: Seq<char>|
        b.has_col(h) && !touched(fv, fi + 1, h) implies col_kind_s(cur, h) == b.col_kind(h)
        && #[trigger] chunks_col_elems(cur, h) == b.col_elems(h) && vers[h]
        == b.meta.versions@[h] by {
        if h == h0 {
            assert(touched(fv, fi + 1, h));
        }
        assert(h != h0);
        assert(!touched(fv, fi, h)) by {
            if touched(fv, fi, h) {
                let t = choose|t: int|
                    0 <= t < fi && (#[trigger] fv[t]) == h && !crate::util::sys_prefixed(h);
                assert(touched(fv, fi + 1, h));
            }
        }
        untouched_ok_elim(b, prev, vb, fv, fi, h);
        assert(has_col_s(prev, h));
    }
}

/// Loop bookkeeping for `apply`: handled fields are spliced and
/// re-versioned.
spec fn applied_ok<F: Fn(Vec<Value>) -> Result<Vec<Value>, SoAKitError>>(
    b: Bulk,
    func: F,
    nm: Seq<bool>,
    cur: Seq<Chunk>,
    vers: Map<Seq<char>, u64>,
    fv: Seq<Seq<char>>,
    fi: int,
) -> bool {
    forall|h: Seq<char>|
        touched(fv, fi, h) ==> #[trigger] vers[h] == b.meta.versions@[h] + 1 && col_applied(
            b,
            func,
            nm,
            chunks_col_elems(cur, h),
            h,
        )
}

impl Bulk {
    /// One stored column as a flat list of scalars, in row order.
    pub(crate) fn flat_scalars(&self, field: &str) -> (r: Vec<Value>)
        requires
            self.wf(),
            self.has_col(field@),
        ensures
            vals_of(r@) == scalar_vals(self.col_elems(field@)),
            r@.len() == self.col_elems(field@).len(),
    {
        let ghost es = self.col_elems(field@);
        let colv = match self.stored_value(field) {
            Ok(v) => v,
            Err(_) => {
                proof {
                    assert(false);
                }
                return Vec::new();
            },
        };
        let n = colv.len();
        let mut r: Vec<Value> = Vec::new();
        let mut i: usize = 0;
        while i < n
            invariant
                colv@ == Val::Vector(self.col_kind(field@), es),
                n == es.len(),
                i <= n,
                r@.len() == i,
                forall|t: int| 0 <= t < i ==> (#[trigger] vals_of(r@)[t]) == Val::Scalar(es[t]),
            decreases n - i,
        {
            let ghost r0 = r@;
            match colv.get_element(i) {
                Ok(sc) => {
                    r.push(sc);
                },
                Err(_) => {
                    proof {
                        assert(false);
                    }
                },
            }
            proof {
                assert(vals_of(r@) =~= vals_of(r0).push(Val::Scalar(es[i as int])));
            }
            i += 1;
        }
        proof {
            assert(vals_of(r@) =~= scalar_vals(es));
        }
        r
    }

    /// Applies a transformation to the masked rows of every data column (an
    /// immutable update: the receiver is untouched and a new store is
    /// returned). An empty mask means every row. For each non-system column
    /// the masked scalars are passed to `func`, which must return exactly as
    /// many values; they are spliced back in at the masked positions, the
    /// column is re-tiled, and its version counter is bumped. Every cached
    /// derived column is dropped, since every stored column was rewritten.
    #[verifier::rlimit(100)]
    pub fn apply<F: Fn(Vec<Value>) -> Result<Vec<Value>, SoAKitError>>(
        &self,
        mask: &Vec<bool>,
        func: F,
    ) -> (r: Result<Bulk, SoAKitError>)
        requires
            self.wf(),
            forall|s: Vec<Value>| #[trigger] call_requires(func, (s,)),
        ensures
            mask@.len() != 0 && mask@.len() != self.meta.count ==> r is Err && r->Err_0@ == (
            ErrModel::LengthMismatch { expected: self.meta.count, actual: mask@.len() as usize }),
            r is Ok ==> ({
                let b = r->Ok_0;
                let nm = norm_mask(mask@, self.meta.count as nat);
                &&& b.wf()
                &&& b.meta.count == self.meta.count
                &&& b.meta.id@ == self.meta.id@
                &&& b.cache@ == Map::<Seq<char>, CacheEntry>::empty()
                &&& (forall|h: Seq<char>| b.has_col(h) <==> self.has_col(h))
                &&& (forall|h: Seq<char>|
                    #[trigger] b.meta.versions@.contains_key(h) <==> self.meta.versions@
                        .contains_key(h))
                &&& (forall|h: Seq<char>|
                    #[trigger] self.has_col(h) && !crate::util::sys_prefixed(h) ==> b.meta.versions@[h]
                        == self.meta.versions@[h] + 1 && col_applied(
                        *self,
                        func,
                        nm,
                        b.col_elems(h),
                        h,
                    ))
            }),
            self.chunks@.len() == 0 && (mask@.len() == 0 || mask@.len() == self.meta.count)
                ==> r is Ok,
            r is Err && (mask@.len() == 0 || mask@.len() == self.meta.count) ==> (exists|
                h: Seq<char>,
                sub: Vec<Value>,
                out: Result<Vec<Value>, SoAKitError>,
            |
                {
                    let nm = norm_mask(mask@, self.meta.count as nat);
                    &&& #[trigger] call_ensures(func, (sub,), out)
                    &&& self.has_col(h)
                    &&& !crate::util::sys_prefixed(h)
                    &&& vals_of(sub@) == #[trigger] scalar_vals(
                        masked_elems(self.col_elems(h), norm_mask(mask@, self.meta.count as nat)),
                    )
                    &&& match out {
                        Err(e) => r->Err_0 == e,
                        Ok(outs) => {
                            ||| (outs@.len() != count_true(nm) && r->Err_0@ == (
                            ErrModel::LengthMismatch {
                                expected: count_true(nm) as usize,
                                actual: outs@.len() as usize,
                            }))
                            ||| (outs@.len() == count_true(nm) && scalars_kind(
                                splice(scalar_vals(self.col_elems(h)), nm, vals_of(outs@)),
                            ) is None && r->Err_0@ is InvalidArgument)
                            ||| (outs@.len() == count_true(nm) && scalars_kind(
                                splice(scalar_vals(self.col_elems(h)), nm, vals_of(outs@)),
                            ) is Some && self.meta.versions@[h] == u64::MAX && r->Err_0@
                                is InvalidArgument)
                        },
                    }
                }),
    {
        let count = self.meta.count;
        let ghost nm = norm_mask(mask@, count as nat);
        let mut nm_vec: Vec<bool>;
        if mask.len() == 0 {
            nm_vec = Vec::new();
            let mut i: usize = 0;
            while i < count
                invariant
                    i <= count,
                    nm_vec@.len() == i,
                    forall|j: int| 0 <= j < i ==> nm_vec@[j] == true,
                decreases count - i,
            {
                nm_vec.push(true);
                i += 1;
            }
            proof {
                assert(nm_vec@ =~= nm);
            }
        } else {
            if mask.len() != count {
                return Err(
                    SoAKitError::LengthMismatch { expected: count, actual: mask.len() },
                );
            }
            nm_vec = mask.clone();
            proof {
                assert forall|j: int| 0 <= j < nm_vec@.len() implies nm_vec@[j] == mask@[j] by {
                    assert(cloned::<bool>(mask@[j], nm_vec@[j]));
                }
                assert(nm_vec@ =~= nm);
            }
        }
        // The number of selected rows.
        let mut tc: usize = 0;
        let mut i2: usize = 0;
        while i2 < nm_vec.len()
            invariant
                nm_vec@ == nm,
                i2 <= nm.len(),
                tc == count_true(nm.take(i2 as int)),
                tc <= i2,
            decreases nm.len() - i2,
        {
            proof {
                assert(nm.take(i2 + 1).drop_last() =~= nm.take(i2 as int));
            }
            if nm_vec[i2] {
                tc += 1;
            }
            i2 += 1;
        }
        proof {
            assert(nm.take(nm.len() as int) =~= nm);
        }
        // Clone the store, then rewrite every data column in place.
        let whole = self.clone();
        proof {
            assert(whole.wf());
            assert(chunks_wf(whole.chunks@, count as nat));
            assert forall|h: Seq<char>| (has_col_s(whole.chunks@, h) <==> self.has_col(h)) by {
                assert(whole.has_col(h) <==> self.has_col(h));
            }
            assert forall|h: Seq<char>|
                self.has_col(h) implies col_kind_s(whole.chunks@, h) == self.col_kind(h)
                && #[trigger] chunks_col_elems(whole.chunks@, h) == self.col_elems(h) by {
                assert(self.has_col(h));
                assert(whole.col_elems(h) == self.col_elems(h));
                assert(whole.col_kind(h) == self.col_kind(h));
                assert(whole.col_elems(h) == chunks_col_elems(whole.chunks@, h));
            }
            assert(whole.meta.versions@ == self.meta.versions@);
            assert(whole.meta.versions.wf());
        }
        let ghost gchunks0 = whole.chunks@;
        let ghost gvers0 = whole.meta.versions@;
        let meta_moved = whole.meta;
        let mut cur = whole.chunks;
        let mut versions = meta_moved.versions;
        proof {
            assert(cur@ == gchunks0);
            assert(versions@ == gvers0);
            assert(chunks_wf(cur@, count as nat));
            assert forall|h: Seq<char>|
                self.has_col(h) implies col_kind_s(cur@, h) == self.col_kind(h)
                && #[trigger] chunks_col_elems(cur@, h) == self.col_elems(h) && versions@[h]
                == self.meta.versions@[h] by {
                assert(chunks_col_elems(gchunks0, h) == self.col_elems(h));
                assert(self.meta.versions@.contains_key(h));
            }
        }
        let fields: Vec<String> = if self.chunks.len() == 0 {
            Vec::new()
        } else {
            self.chunks[0].columns.field_names()
        };
        let ghost fv = fields@.map_values(|n: String| n@);
        proof {
            if self.chunks@.len() > 0 {
                assert(self.chunks@[0].columns.wf());
                assert(fv =~= self.chunks@[0].columns.key_views());
                assert forall|h: Seq<char>| self.has_col(h) implies fv.contains(h) by {
                    assert(self.chunks@[0].columns@.contains_key(h));
                    assert(self.chunks@[0].columns.key_views().contains(h));
                    let t = choose|t: int|
                        0 <= t < self.chunks@[0].columns.key_views().len() && self.chunks@[0]
                            .columns.key_views()[t] == h;
                    assert(fv[t] == h);
                }
            }
        }
        proof {
            assert(untouched_ok(*self, cur@, versions@, fv, 0int)) by {
                assert forall|h: Seq<char>|
                    self.has_col(h) && !touched(fv, 0int, h) implies col_kind_s(cur@, h)
                    == self.col_kind(h) && #[trigger] chunks_col_elems(cur@, h) == self.col_elems(
                    h,
                ) && versions@[h] == self.meta.versions@[h] by {
                    assert(chunks_col_elems(gchunks0, h) == self.col_elems(h));
                    assert(self.meta.versions@.contains_key(h));
                }
            }
            assert(applied_ok(*self, func, nm, cur@, versions@, fv, 0int)) by {
                assert forall|h: Seq<char>|
                    touched(fv, 0int, h) implies #[trigger] versions@[h]
                    == self.meta.versions@[h] + 1 && col_applied(
                    *self,
                    func,
                    nm,
                    chunks_col_elems(cur@, h),
                    h,
                ) by {
                    let t = choose|t: int|
                        0 <= t < 0 && (#[trigger] fv[t]) == h && !crate::util::sys_prefixed(h);
                    assert(false);
                }
            }
        }
        let mut fi: usize = 0;
        while fi < fields.len()
            invariant
                self.wf(),
                forall|s: Vec<Value>| #[trigger] call_requires(func, (s,)),
                nm == norm_mask(mask@, count as nat),
                count == self.meta.count,
                count > 0,
                nm.len() == count,
                tc == count_true(nm),
                fv == fields@.map_values(|n: String| n@),
                forall|t1: int, t2: int| 0 <= t1 < t2 < fv.len() ==> fv[t1] != fv[t2],
                forall|t: int| 0 <= t < fv.len() ==> self.has_col(#[trigger] fv[t]),
                fv.len() > 0 ==> self.chunks@.len() > 0,
                fi <= fv.len(),
                chunks_wf(cur@, count as nat),
                versions.wf(),
                forall|h: Seq<char>| has_col_s(cur@, h) <==> self.has_col(h),
                forall|h: Seq<char>|
                    #[trigger] versions@.contains_key(h) <==> self.meta.versions@.contains_key(h),
                nm_vec@ == nm,
                // Unhandled or system columns are untouched.
                untouched_ok(*self, cur@, versions@, fv, fi as int),
                // Handled columns are spliced and re-versioned.
                applied_ok(*self, func, nm, cur@, versions@, fv, fi as int),
            decreases fv.len() - fi,
        {
            let name = &fields[fi];
            let ghost h0 = name@;
            proof {
                assert(h0 == fv[fi as int]);
                assert(self.has_col(h0));
            }
            let skip = if name.as_str().is_empty() {
                false
            } else {
                name.as_str().get_char(0) == '_'
            };
            proof {
                assert(skip == crate::util::sys_prefixed(h0));
            }
            if skip {
                proof {
                    assert forall|h: Seq<char>| #![trigger touched(fv, fi + 1, h)]
                        touched(fv, fi + 1, h) implies touched(fv, fi as int, h) by {
                        let t = choose|t: int|
                            0 <= t < fi + 1 && (#[trigger] fv[t]) == h
                                && !crate::util::sys_prefixed(h);
                        if t == fi {
                            assert(false);
                        }
                    }
                    assert(untouched_ok(*self, cur@, versions@, fv, fi + 1)) by {
                        assert forall|h: Seq<char>|
                            self.has_col(h) && !touched(fv, fi + 1, h) implies col_kind_s(cur@, h)
                            == self.col_kind(h) && #[trigger] chunks_col_elems(cur@, h)
                            == self.col_elems(h) && versions@[h] == self.meta.versions@[h] by {
                            untouched_ok_elim(*self, cur@, versions@, fv, fi as int, h);
                        }
                    }
                    assert forall|h: Seq<char>|
                        touched(fv, fi + 1, h) implies #[trigger] versions@[h]
                        == self.meta.versions@[h] + 1 && col_applied(
                        *self,
                        func,
                        nm,
                        chunks_col_elems(cur@, h),
                        h,
                    ) by {
                        assert(touched(fv, fi as int, h));
                        applied_ok_elim(*self, func, nm, cur@, versions@, fv, fi as int, h);
                    }
                    applied_ok_intro(*self, func, nm, cur@, versions@, fv, fi + 1);
                }
            } else {
                let ghost es = self.col_elems(h0);
                proof {
                    lemma_col_elems_len(self.chunks@, count as nat, h0);
                }
                let flat = self.flat_scalars(name.as_str());
                // The masked subset, in row order.
                let mut sub: Vec<Value> = Vec::new();
                let mut j: usize = 0;
                proof {
                    assert(vals_of(sub@) =~= scalar_vals(masked_elems(es.take(0), nm)));
                    assert(es.take(0) =~= Seq::<Sc>::empty());
                }
                while j < flat.len()
                    invariant
                        vals_of(flat@) == scalar_vals(es),
                        flat@.len() == es.len(),
                        es.len() == count,
                        nm.len() == count,
                        nm_vec@ == nm,
                        j <= flat@.len(),
                        vals_of(sub@) == scalar_vals(masked_elems(es.take(j as int), nm)),
                    decreases flat@.len() - j,
                {
                    let ghost s0 = sub@;
                    proof {
                        assert(es.take(j + 1).drop_last() =~= es.take(j as int));
                    }
                    if self.nm_at(&nm_vec, j) {
                        sub.push(flat[j].clone());
                        proof {
                            assert(vals_of(flat@)[j as int] == Val::Scalar(es[j as int]));
                            assert(vals_of(sub@) =~= vals_of(s0).push(Val::Scalar(es[j as int])));
                            assert(masked_elems(es.take(j + 1), nm) =~= masked_elems(
                                es.take(j as int),
                                nm,
                            ).push(es[j as int]));
                            assert(scalar_vals(masked_elems(es.take(j + 1), nm)) =~= scalar_vals(
                                masked_elems(es.take(j as int), nm),
                            ).push(Val::Scalar(es[j as int])));
                        }
                    } else {
                        proof {
                            assert(masked_elems(es.take(j + 1), nm) =~= masked_elems(
                                es.take(j as int),
                                nm,
                            ));
                        }
                    }
                    j += 1;
                }
                proof {
                    assert(es.take(es.len() as int) =~= es);
                }
                let ghost gsub = sub;
                let outs_res = func(sub);
                let ghost gout = outs_res;
                let outs = match outs_res {
                    Ok(o) => o,
                    Err(e) => {
                        proof {
                            assert(call_ensures(func, (gsub,), gout));
                            assert(vals_of(gsub@) == scalar_vals(
                                masked_elems(self.col_elems(h0), nm),
                            ));
                            assert(gout is Err && gout->Err_0 == e);
                        }
                        return Err(e);
                    },
                };
                if outs.len() != tc {
                    proof {
                        assert(call_ensures(func, (gsub,), gout));
                        assert(vals_of(gsub@) == scalar_vals(
                            masked_elems(self.col_elems(h0), nm),
                        ));
                        assert(gout == Ok::<Vec<Value>, SoAKitError>(outs));
                        assert(outs@.len() != count_true(nm));
                    }
                    return Err(
                        SoAKitError::LengthMismatch { expected: tc, actual: outs.len() },
                    );
                }
                // Splice the results back in at the masked positions.
                let mut new_flat: Vec<Value> = Vec::new();
                let mut si: usize = 0;
                let mut j2: usize = 0;
                proof {
                    assert(nm.take(0) =~= Seq::<bool>::empty());
                    assert(count_true(nm.take(0)) == 0);
                }
                while j2 < flat.len()
                    invariant
                        vals_of(flat@) == scalar_vals(es),
                        flat@.len() == es.len(),
                        es.len() == count,
                        nm.len() == count,
                        nm_vec@ == nm,
                        outs@.len() == count_true(nm),
                        outs@.len() == tc,
                        j2 <= flat@.len(),
                        si == count_true(nm.take(j2 as int)),
                        si <= outs@.len(),
                        new_flat@.len() == j2,
                        forall|t: int|
                            0 <= t < j2 ==> (#[trigger] vals_of(new_flat@)[t]) == (if nm[t] {
                                vals_of(outs@)[count_true(nm.take(t)) as int]
                            } else {
                                Val::Scalar(es[t])
                            }),
                    decreases flat@.len() - j2,
                {
                    let ghost nf0 = new_flat@;
                    proof {
                        assert(nm.take(j2 + 1).drop_last() =~= nm.take(j2 as int));
                        if nm[j2 as int] {
                            assert(nm =~= nm.take(j2 + 1) + nm.skip(j2 + 1));
                            lemma_count_true_concat(nm.take(j2 + 1), nm.skip(j2 + 1));
                            assert(count_true(nm.take(j2 + 1)) == si + 1);
                            assert(si < outs@.len());
                        }
                    }
                    if self.nm_at(&nm_vec, j2) {
                        new_flat.push(outs[si].clone());
                        si += 1;
                    } else {
                        new_flat.push(flat[j2].clone());
                        proof {
                            assert(vals_of(flat@)[j2 as int] == Val::Scalar(es[j2 as int]));
                        }
                    }
                    proof {
                        assert(vals_of(new_flat@) =~= vals_of(nf0).push(
                            vals_of(new_flat@)[j2 as int],
                        ));
                    }
                    j2 += 1;
                }
                proof {
                    assert(vals_of(new_flat@) =~= splice(scalar_vals(es), nm, vals_of(outs@)));
                }
                // Re-tile the column.
                let wcres = with_column(&cur, count, name.as_str(), &new_flat);
                let ghost gw = wcres;
                let ghost prev = cur@;
                cur = match wcres {
                    Ok(c) => c,
                    Err(e) => {
                        proof {
                            assert(call_ensures(func, (gsub,), gout));
                            assert(vals_of(gsub@) == scalar_vals(
                                masked_elems(self.col_elems(h0), nm),
                            ));
                            assert(gout == Ok::<Vec<Value>, SoAKitError>(outs));
                            assert(outs@.len() == count_true(nm));
                            assert(scalars_kind(
                                splice(scalar_vals(self.col_elems(h0)), nm, vals_of(outs@)),
                            ) is None);
                            assert(e@ is InvalidArgument);
                        }
                        return Err(e);
                    },
                };
                proof {
                    assert(gw is Ok);
                    assert(gw->Ok_0@ == cur@);
                    assert(scalars_kind(vals_of(new_flat@)) is Some);
                    assert(chunks_wf(cur@, count as nat));
                    assert(chunks_col_elems(cur@, h0) == sc_models(vals_of(new_flat@)));
                }
                // Bump the version counter.
                proof {
                    assert(!touched(fv, fi as int, h0)) by {
                        if touched(fv, fi as int, h0) {
                            let t = choose|t: int|
                                0 <= t < fi && (#[trigger] fv[t]) == h0
                                    && !crate::util::sys_prefixed(h0);
                            assert(fv[t] == fv[fi as int]);
                            assert(false);
                        }
                    }
                    untouched_ok_elim(*self, prev, versions@, fv, fi as int, h0);
                    assert(versions@[h0] == self.meta.versions@[h0]);
                    assert(versions@.contains_key(h0));
                }
                let newv: u64 = match versions.get(name.as_str()) {
                    Some(v) => {
                        if *v == u64::MAX {
                            proof {
                                assert(call_ensures(func, (gsub,), gout));
                                assert(vals_of(gsub@) == scalar_vals(
                                    masked_elems(self.col_elems(h0), nm),
                                ));
                                assert(gout == Ok::<Vec<Value>, SoAKitError>(outs));
                                assert(outs@.len() == count_true(nm));
                                assert(scalars_kind(
                                    splice(scalar_vals(self.col_elems(h0)), nm, vals_of(outs@)),
                                ) is Some);
                                assert(self.meta.versions@[h0] == u64::MAX);
                            }
                            return Err(
                                SoAKitError::InvalidArgument(
                                    String::from_str("version overflow"),
                                ),
                            );
                        }
                        *v + 1
                    },
                    None => {
                        proof {
                            assert(false);
                        }
                        1
                    },
                };
                let ghost vb = versions@;
                versions.insert(name.clone(), newv);
                proof {
                    assert(versions@ == vb.insert(h0, newv));
                    assert(newv == self.meta.versions@[h0] + 1);
                    assert(call_ensures(func, (gsub,), gout));
                    assert(gout == Ok::<Vec<Value>, SoAKitError>(outs));
                    assert(call_ensures(func, (gsub,), Ok::<Vec<Value>, SoAKitError>(outs)));
                    assert forall|h: Seq<char>|
                        h != h0 && #[trigger] has_col_s(prev, h) implies chunks_col_elems(cur@, h)
                        == chunks_col_elems(prev, h) && col_kind_s(cur@, h) == col_kind_s(
                        prev,
                        h,
                    ) by {}
                    assert forall|h: Seq<char>| #[trigger] has_col_s(prev, h) <==> self.has_col(
                        h,
                    ) by {}
                    apply_step(
                        *self,
                        func,
                        nm,
                        prev,
                        cur@,
                        vb,
                        versions@,
                        fv,
                        fi as int,
                        h0,
                        gsub,
                        outs,
                        newv,
                    );
                }
            }
            fi += 1;
        }
        let nb = Bulk {
            meta: Meta { count, id: self.meta.id.clone(), versions },
            chunks: cur,
            cache: FieldMap::new(),
        };
        proof {
            assert(nb.meta.id@ =~= self.meta.id@);
            assert(nb.cache@ =~= Map::<Seq<char>, CacheEntry>::empty());
            assert(chunks_wf(nb.chunks@, count as nat));
            assert forall|h: Seq<char>| #[trigger] nb.meta.versions@.contains_key(h)
                implies nb.has_col(h) by {
                assert(self.meta.versions@.contains_key(h));
                assert(self.has_col(h));
            }
            assert forall|h: Seq<char>| nb.has_col(h) implies #[trigger] nb.meta.versions@
                .contains_key(h) by {
                assert(self.has_col(h));
                assert(self.meta.versions@.contains_key(h));
            }
            assert(nb.wf());
            assert forall|h: Seq<char>|
                #[trigger] self.has_col(h) && !crate::util::sys_prefixed(h) implies touched(
                fv,
                fv.len() as int,
                h,
            ) by {
                assert(fv.contains(h));
                let t = choose|t: int| 0 <= t < fv.len() && fv[t] == h;
                assert((fv[t]) == h);
            }
            assert forall|h: Seq<char>|
                self.has_col(h) && crate::util::sys_prefixed(h) implies nb.col_kind(h)
                == self.col_kind(h) && #[trigger] nb.col_elems(h) == self.col_elems(h)
                && nb.meta.versions@[h] == self.meta.versions@[h] by {
                assert(!touched(fv, fv.len() as int, h)) by {
                    if touched(fv, fv.len() as int, h) {
                        let t = choose|t: int|
                            0 <= t < fv.len() && (#[trigger] fv[t]) == h
                                && !crate::util::sys_prefixed(h);
                        assert(false);
                    }
                }
                untouched_ok_elim(*self, nb.chunks@, nb.meta.versions@, fv, fv.len() as int, h);
            }
            assert forall|h: Seq<char>|
                #[trigger] self.has_col(h) && !crate::util::sys_prefixed(h)
                implies nb.meta.versions@[h] == self.meta.versions@[h] + 1 && col_applied(
                *self,
                func,
                nm,
                nb.col_elems(h),
                h,
            ) by {
                assert(touched(fv, fv.len() as int, h));
                applied_ok_elim(
                    *self,
                    func,
                    nm,
                    nb.chunks@,
                    nb.meta.versions@,
                    fv,
                    fv.len() as int,
                    h,
                );
            }
            assert forall|h: Seq<char>| (nb.has_col(h) <==> self.has_col(h)) by {
                assert(has_col_s(nb.chunks@, h) <==> self.has_col(h));
            }
            assert(nb.meta.count == self.meta.count);
            assert(nb.meta.id@ == self.meta.id@);
            assert(nb.cache@ == Map::<Seq<char>, CacheEntry>::empty());
            assert(forall|h: Seq<char>|
                #[trigger] nb.meta.versions@.contains_key(h) <==> self.meta.versions@.contains_key(
                    h,
                ));
            assert(nm == norm_mask(mask@, self.meta.count as nat));
        }
        let r: Result<Bulk, SoAKitError> = Ok(nb);
        proof {
            let b = r->Ok_0;
            assert forall|h: Seq<char>|
                #[trigger] self.has_col(h) && !crate::util::sys_prefixed(h)
                implies b.meta.versions@[h] == self.meta.versions@[h] + 1 && col_applied(
                *self,
                func,
                nm,
                b.col_elems(h),
                h,
            ) by {
                assert(b.col_elems(h) == chunks_col_elems(b.chunks@, h));
            }
        }
        r
    }

    /// Reads one mask entry.
    fn nm_at(&self, nm_vec: &Vec<bool>, j: usize) -> (r: bool)
        requires
            j < nm_vec@.len(),
        ensures
            r == nm_vec@[j as int],
    {
        nm_vec[j]
    }
}


/// Creates a store for `count` rows; `count` must be positive.
pub fn init(count: usize) -> (r: Result<Bulk, SoAKitError>)
    ensures
        count == 0 ==> r is Err && r->Err_0@ is InvalidArgument,
        count > 0 ==> r is Ok && r->Ok_0.wf() && r->Ok_0.meta.count == count
            && r->Ok_0.chunks@.len() == 0 && r->Ok_0.cache@ == Map::<
            Seq<char>,
            CacheEntry,
        >::empty() && r->Ok_0.meta.versions@ == Map::<Seq<char>, u64>::empty() && (forall|i: int|
            0 <= i < count ==> r->Ok_0.meta.id@[i] == i) && r->Ok_0.meta.id@.len() == count,
{
    Bulk::new(count)
}

/// The round trip: after a successful write of a stored (non-derived)
/// field, reading that field — at any depth bound, from the cache or not —
/// returns exactly the vector of the written scalars, in order. The tile
/// boundaries never show.
pub proof fn lemma_set_then_get<V: Validator, D: DerivedRule>(
    reg: Registry<V, D>,
    b2: Bulk,
    f: Seq<char>,
    vs: Seq<Val>,
    fuel: nat,
)
    requires
        reg@.contains_key(f),
        !reg@[f].is_derived,
        b2.has_col(f),
        scalars_kind(vs) is Some,
        b2.col_kind(f) == scalars_kind(vs)->0,
        b2.col_elems(f) == sc_models(vs),
    ensures
        eval(reg@, b2, f, fuel) == Ok::<Val, ErrModel>(
            Val::Vector(scalars_kind(vs)->0, sc_models(vs)),
        ),
{
}

/// Version discipline: a successful write gives a never-written field the
/// counter 1, and raises an already-written field's counter by exactly one;
/// every other field's counter is untouched.
pub proof fn lemma_set_versions(
    before: Map<Seq<char>, u64>,
    after: Map<Seq<char>, u64>,
    f: Seq<char>,
    newv: u64,
)
    requires
        after == before.insert(f, newv),
        newv == if before.contains_key(f) {
            (before[f] + 1) as u64
        } else {
            1u64
        },
        before.contains_key(f) ==> before[f] < u64::MAX,
    ensures
        after[f] == (if before.contains_key(f) {
            before[f] + 1
        } else {
            1int
        }),
        forall|h: Seq<char>| h != f ==> (#[trigger] after.contains_key(h) <==> before.contains_key(
            h,
        )),
        forall|h: Seq<char>| h != f && before.contains_key(h) ==> #[trigger] after[h] == before[h],
{
}

} // verus!
