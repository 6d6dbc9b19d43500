//! Partitioning a store by a column's distinct values.
//!
//! `partition_by` reads one stored column and returns one [`View`] per
//! distinct value: integers ascending, floats ascending in the IEEE-754
//! order of their bit patterns (any NaN matches any NaN in the masks),
//! booleans always as the pair `true` then `false`, and strings in byte
//! order. Each view carries the key value and the boolean row mask of the
//! rows equal to it.

use crate::bulk::{bulk_fuel, cols_agree, eval, Bulk};
use crate::error::{ErrModel, SoAKitError};
use crate::meta::{DerivedRule, Registry, Validator};
use crate::value::{f64_bits_same, f64_sort_key, f64_bits_same_exec, f64_sort_key_exec, Sc, Val, ValKind, Value};
use crate::view::View;
use std::rc::Rc;
use vstd::prelude::*;
use vstd::view::View as _;

verus! {

/// Shared shape of every view a partition returns: a well-formed view over a
/// well-formed snapshot that agrees with the partitioned store on every
/// column.
pub open spec fn views_common(b: Bulk, views: Seq<View>, n_elems: nat) -> bool {
    forall|i: int|
        0 <= i < views.len() ==> {
            let v = #[trigger] views[i];
            &&& v.wf()
            &&& (*v.parent).wf()
            &&& (*v.parent).meta.count == b.meta.count
            &&& v.mask@.len() == n_elems
            &&& (forall|h: Seq<char>| cols_agree(*v.parent, b, h))
        }
}

/// The distinct integer values of a column, in ascending order.
pub open spec fn int_keys_of(es: Seq<Sc>, keys: Seq<i64>) -> bool {
    &&& (forall|i: int, j: int| 0 <= i < j < keys.len() ==> keys[i] < keys[j])
    &&& (forall|i: int| 0 <= i < keys.len() ==> es.contains(Sc::I(#[trigger] keys[i])))
    &&& (forall|j: int| 0 <= j < es.len() ==> keys.contains((#[trigger] es[j])->I_0))
}

/// An integer partition: one view per distinct value, ascending, each mask
/// marking exactly the rows equal to the key.
pub open spec fn int_partition(es: Seq<Sc>, views: Seq<View>) -> bool {
    exists|keys: Seq<i64>|
        {
            &&& #[trigger] int_keys_of(es, keys)
            &&& views.len() == keys.len()
            &&& (forall|i: int|
                0 <= i < views.len() ==> (#[trigger] views[i]).key@ == Val::Scalar(Sc::I(keys[i]))
                    && (forall|j: int|
                    0 <= j < es.len() ==> views[i].mask@[j] == (es[j] == Sc::I(keys[i]))))
        }
}

/// The distinct float bit patterns of a column, ascending in the IEEE-754
/// total order of their sort keys.
pub open spec fn float_keys_of(es: Seq<Sc>, keys: Seq<u64>) -> bool {
    &&& (forall|i: int, j: int|
        0 <= i < j < keys.len() ==> f64_sort_key(keys[i]) < f64_sort_key(keys[j]))
    &&& (forall|i: int| 0 <= i < keys.len() ==> es.contains(Sc::F(#[trigger] keys[i])))
    &&& (forall|j: int| 0 <= j < es.len() ==> keys.contains((#[trigger] es[j])->F_0))
}

/// A float partition: one view per distinct bit pattern, ascending, each
/// mask marking the rows whose value matches the key (any NaN matches any
/// NaN).
pub open spec fn float_partition(es: Seq<Sc>, views: Seq<View>) -> bool {
    exists|keys: Seq<u64>|
        {
            &&& #[trigger] float_keys_of(es, keys)
            &&& views.len() == keys.len()
            &&& (forall|i: int|
                0 <= i < views.len() ==> (#[trigger] views[i]).key@ == Val::Scalar(Sc::F(keys[i]))
                    && (forall|j: int|
                    0 <= j < es.len() ==> views[i].mask@[j] == f64_bits_same(
                        es[j]->F_0,
                        keys[i],
                    )))
        }
}

/// A boolean partition: always the two views `true` then `false`, whatever
/// the data holds.
pub open spec fn bool_partition(es: Seq<Sc>, views: Seq<View>) -> bool {
    &&& views.len() == 2
    &&& views[0].key@ == Val::Scalar(Sc::B(true))
    &&& views[1].key@ == Val::Scalar(Sc::B(false))
    &&& (forall|j: int| 0 <= j < es.len() ==> (#[trigger] views[0].mask@[j]) == (es[j]->B_0 == true))
    &&& (forall|j: int|
        0 <= j < es.len() ==> (#[trigger] views[1].mask@[j]) == (es[j]->B_0 == false))
}

/// The distinct string values of a column, strictly ascending in byte order.
pub open spec fn str_keys_of(es: Seq<Sc>, keys: Seq<Seq<char>>) -> bool {
    &&& (forall|i: int, j: int|
        0 <= i < j < keys.len() ==> crate::util::str_lt(#[trigger] keys[i], #[trigger] keys[j]))
    &&& (forall|i: int| 0 <= i < keys.len() ==> es.contains(Sc::S(#[trigger] keys[i])))
    &&& (forall|j: int| 0 <= j < es.len() ==> keys.contains((#[trigger] es[j])->S_0))
}

/// A string partition: one view per distinct value, ascending in byte
/// order, each mask marking exactly the rows equal to the key.
pub open spec fn str_partition(es: Seq<Sc>, views: Seq<View>) -> bool {
    exists|keys: Seq<Seq<char>>|
        {
            &&& #[trigger] str_keys_of(es, keys)
            &&& views.len() == keys.len()
            &&& (forall|i: int|
                0 <= i < views.len() ==> (#[trigger] views[i]).key@ == Val::Scalar(Sc::S(keys[i]))
                    && (forall|j: int|
                    0 <= j < es.len() ==> views[i].mask@[j] == (es[j] == Sc::S(keys[i]))))
        }
}

/// Inserts an integer into a strictly ascending list, keeping it strictly
/// ascending; a value already present is left alone.
fn insert_sorted_i64(keys: &mut Vec<i64>, x: i64)
    requires
        forall|i: int, j: int| 0 <= i < j < old(keys)@.len() ==> old(keys)@[i] < old(keys)@[j],
    ensures
        forall|i: int, j: int| 0 <= i < j < final(keys)@.len() ==> final(keys)@[i] < final(keys)@[j],
        forall|y: i64| final(keys)@.contains(y) <==> (old(keys)@.contains(y) || y == x),
{
    let mut p: usize = 0;
    while p < keys.len() && keys[p] < x
        invariant
            p <= keys@.len(),
            keys@ == old(keys)@,
            forall|i: int| 0 <= i < p ==> keys@[i] < x,
        decreases keys@.len() - p,
    {
        p += 1;
    }
    if p < keys.len() && keys[p] == x {
        proof {
            assert forall|y: i64| keys@.contains(y) <==> (old(keys)@.contains(y) || y == x) by {
                if y == x {
                    assert(keys@[p as int] == x);
                }
            }
        }
        return ;
    }
    let ghost pre = keys@;
    keys.insert(p, x);
    proof {
        assert(keys@ =~= pre.subrange(0, p as int) + seq![x] + pre.subrange(
            p as int,
            pre.len() as int,
        ));
        assert forall|i: int, j: int|
            0 <= i < j < keys@.len() implies keys@[i] < keys@[j] by {
            if j < p {
                assert(keys@[i] == pre[i] && keys@[j] == pre[j]);
            } else if i > p {
                assert(keys@[i] == pre[i - 1] && keys@[j] == pre[j - 1]);
            } else if i < p && j == p {
                assert(keys@[i] == pre[i] && keys@[j] == x);
            } else if i == p && j > p {
                assert(keys@[i] == x && keys@[j] == pre[j - 1]);
                assert(!(pre[j - 1] < x));
                assert(pre[j - 1] != x) by {
                    if p < pre.len() {
                        if j - 1 > p {
                            assert(pre[p as int] < pre[j - 1]);
                        }
                        assert(pre[p as int] != x);
                    }
                }
            } else if i < p && j > p {
                assert(keys@[i] == pre[i] && keys@[j] == pre[j - 1]);
                if j - 1 == i {
                } else {
                    assert(pre[i] < pre[j - 1]);
                }
                assert(pre[i] < x);
                assert(!(pre[j - 1] < x));
            }
        }
        assert(pre == old(keys)@);
        assert forall|y: i64| keys@.contains(y) <==> (old(keys)@.contains(y) || y == x) by {
            if keys@.contains(y) {
                let i = choose|i: int| 0 <= i < keys@.len() && keys@[i] == y;
                if i < p {
                    assert(pre[i] == y);
                } else if i > p {
                    assert(pre[i - 1] == y);
                }
            }
            if pre.contains(y) {
                let i = choose|i: int| 0 <= i < pre.len() && pre[i] == y;
                if i < p {
                    assert(keys@[i] == y);
                } else {
                    assert(keys@[i + 1] == y);
                }
            }
            if y == x {
                assert(keys@[p as int] == y);
            }
        }
    }
}

/// Inserts a float bit pattern into a list strictly ascending in the sort
/// key, keeping it so; a pattern already present is left alone.
fn insert_sorted_bits(keys: &mut Vec<u64>, x: u64)
    requires
        forall|i: int, j: int|
            0 <= i < j < old(keys)@.len() ==> f64_sort_key(old(keys)@[i]) < f64_sort_key(
                old(keys)@[j],
            ),
    ensures
        forall|i: int, j: int|
            0 <= i < j < final(keys)@.len() ==> f64_sort_key(final(keys)@[i]) < f64_sort_key(
                final(keys)@[j],
            ),
        forall|y: u64| final(keys)@.contains(y) <==> (old(keys)@.contains(y) || y == x),
{
    let kx = f64_sort_key_exec(x);
    let mut p: usize = 0;
    while p < keys.len() && f64_sort_key_exec(keys[p]) < kx
        invariant
            p <= keys@.len(),
            keys@ == old(keys)@,
            kx == f64_sort_key(x),
            forall|i: int| 0 <= i < p ==> f64_sort_key(keys@[i]) < kx,
        decreases keys@.len() - p,
    {
        p += 1;
    }
    if p < keys.len() && keys[p] == x {
        proof {
            assert forall|y: u64| keys@.contains(y) <==> (old(keys)@.contains(y) || y == x) by {
                if y == x {
                    assert(keys@[p as int] == x);
                }
            }
        }
        return ;
    }
    let ghost pre = keys@;
    keys.insert(p, x);
    proof {
        assert(keys@ =~= pre.subrange(0, p as int) + seq![x] + pre.subrange(
            p as int,
            pre.len() as int,
        ));
        if p < pre.len() {
            let b0 = pre[p as int];
            assert(f64_sort_key(b0) != f64_sort_key(x)) by {
                assert(b0 != x);
                if f64_sort_key(b0) == f64_sort_key(x) {
                    assert(b0 == x) by (bit_vector)
                        requires
                            (if b0 >> 63 == 1 {
                                !b0
                            } else {
                                b0 ^ 0x8000_0000_0000_0000
                            }) == (if x >> 63 == 1 {
                                !x
                            } else {
                                x ^ 0x8000_0000_0000_0000
                            }),
                    ;
                }
            }
        }
        assert forall|i: int, j: int|
            0 <= i < j < keys@.len() implies f64_sort_key(keys@[i]) < f64_sort_key(keys@[j]) by {
            if j < p {
                assert(keys@[i] == pre[i] && keys@[j] == pre[j]);
            } else if i > p {
                assert(keys@[i] == pre[i - 1] && keys@[j] == pre[j - 1]);
            } else if i < p && j == p {
                assert(keys@[i] == pre[i] && keys@[j] == x);
            } else if i == p && j > p {
                assert(keys@[i] == x && keys@[j] == pre[j - 1]);
                assert(!(f64_sort_key(pre[j - 1]) < f64_sort_key(x)));
                if j - 1 > p {
                    assert(f64_sort_key(pre[p as int]) < f64_sort_key(pre[j - 1]));
                }
            } else if i < p && j > p {
                assert(keys@[i] == pre[i] && keys@[j] == pre[j - 1]);
                assert(f64_sort_key(pre[i]) < kx);
                assert(!(f64_sort_key(pre[j - 1]) < kx));
            }
        }
        assert(pre == old(keys)@);
        assert forall|y: u64| keys@.contains(y) <==> (old(keys)@.contains(y) || y == x) by {
            if keys@.contains(y) {
                let i = choose|i: int| 0 <= i < keys@.len() && keys@[i] == y;
                if i < p {
                    assert(pre[i] == y);
                } else if i > p {
                    assert(pre[i - 1] == y);
                }
            }
            if pre.contains(y) {
                let i = choose|i: int| 0 <= i < pre.len() && pre[i] == y;
                if i < p {
                    assert(keys@[i] == y);
                } else {
                    assert(keys@[i + 1] == y);
                }
            }
            if y == x {
                assert(keys@[p as int] == y);
            }
        }
    }
}


/// The scalar models of an integer column.
pub open spec fn int_es(v: Seq<i64>) -> Seq<Sc> {
    Seq::new(v.len(), |j: int| Sc::I(v[j]))
}

/// The scalar models of a float column.
pub open spec fn float_es(v: Seq<u64>) -> Seq<Sc> {
    Seq::new(v.len(), |j: int| Sc::F(v[j]))
}

/// The scalar models of a boolean column.
pub open spec fn bool_es(v: Seq<bool>) -> Seq<Sc> {
    Seq::new(v.len(), |j: int| Sc::B(v[j]))
}

/// The scalar models of a string column.
pub open spec fn str_es(v: Seq<String>) -> Seq<Sc> {
    Seq::new(v.len(), |j: int| Sc::S(v[j]@))
}

/// A fresh snapshot of the store, for a view to hang on to.
fn make_parent(b: &Bulk) -> (r: Rc<Bulk>)
    requires
        b.wf(),
    ensures
        (*r).wf(),
        (*r).meta.count == b.meta.count,
        forall|h: Seq<char>| cols_agree(*r, *b, h),
{
    let c = b.clone();
    proof {
        assert forall|h: Seq<char>| cols_agree(c, *b, h) by {
            if b.has_col(h) {
                assert(c.col_elems(h) == b.col_elems(h));
                assert(c.col_kind(h) == b.col_kind(h));
            }
        }
    }
    Rc::new(c)
}

/// Appending a view of the right shape keeps the shared shape.
proof fn lemma_views_common_push(b: Bulk, views: Seq<View>, v: View, n: nat)
    requires
        views_common(b, views, n),
        v.wf(),
        (*v.parent).wf(),
        (*v.parent).meta.count == b.meta.count,
        v.mask@.len() == n,
        forall|h: Seq<char>| cols_agree(*v.parent, b, h),
    ensures
        views_common(b, views.push(v), n),
{
    assert forall|i: int| 0 <= i < views.push(v).len() implies {
        let w = #[trigger] views.push(v)[i];
        &&& w.wf()
        &&& (*w.parent).wf()
        &&& (*w.parent).meta.count == b.meta.count
        &&& w.mask@.len() == n
        &&& (forall|h: Seq<char>| cols_agree(*w.parent, b, h))
    } by {
        if i < views.len() {
            assert(views.push(v)[i] == views[i]);
        } else {
            assert(views.push(v)[i] == v);
        }
    }
}

impl Bulk {
    /// One view per distinct integer, ascending.
    fn int_views(&self, v: &Vec<i64>) -> (r: Vec<View>)
        requires
            self.wf(),
            v@.len() == self.meta.count,
        ensures
            views_common(*self, r@, v@.len() as nat),
            int_partition(int_es(v@), r@),
    {
        let ghost es = int_es(v@);
        let mut keys: Vec<i64> = Vec::new();
        let mut j: usize = 0;
        while j < v.len()
            invariant
                es == int_es(v@),
                j <= v@.len(),
                forall|i: int, j2: int| 0 <= i < j2 < keys@.len() ==> keys@[i] < keys@[j2],
                forall|y: i64|
                    keys@.contains(y) <==> (exists|t: int| 0 <= t < j && (#[trigger] v@[t]) == y),
            decreases v@.len() - j,
        {
            let ghost k0 = keys@;
            insert_sorted_i64(&mut keys, v[j]);
            proof {
                assert forall|y: i64|
                    keys@.contains(y) <==> (exists|t: int|
                        0 <= t < j + 1 && (#[trigger] v@[t]) == y) by {
                    if keys@.contains(y) {
                        if k0.contains(y) {
                            let t = choose|t: int| 0 <= t < j && (#[trigger] v@[t]) == y;
                            assert(v@[t] == y);
                        } else {
                            assert(v@[j as int] == y);
                        }
                    }
                    if exists|t: int| 0 <= t < j + 1 && (#[trigger] v@[t]) == y {
                        let t = choose|t: int| 0 <= t < j + 1 && (#[trigger] v@[t]) == y;
                        if t < j {
                            assert(k0.contains(y));
                        }
                    }
                }
            }
            j += 1;
        }
        proof {
            assert forall|y: i64| keys@.contains(y) <==> es.contains(Sc::I(y)) by {
                if keys@.contains(y) {
                    let t = choose|t: int| 0 <= t < v@.len() && (#[trigger] v@[t]) == y;
                    assert(es[t] == Sc::I(y));
                }
                if es.contains(Sc::I(y)) {
                    let t = choose|t: int| 0 <= t < es.len() && es[t] == Sc::I(y);
                    assert(v@[t] == y);
                }
            }
        }
        let mut views: Vec<View> = Vec::new();
        let mut i: usize = 0;
        while i < keys.len()
            invariant
                self.wf(),
                es == int_es(v@),
                v@.len() == self.meta.count,
                forall|a: int, b: int| 0 <= a < b < keys@.len() ==> keys@[a] < keys@[b],
                forall|y: i64| keys@.contains(y) <==> es.contains(Sc::I(y)),
                i <= keys@.len(),
                views@.len() == i,
                views_common(*self, views@, v@.len() as nat),
                forall|a: int|
                    0 <= a < i ==> (#[trigger] views@[a]).key@ == Val::Scalar(Sc::I(keys@[a])) && (
                    forall|j2: int|
                        0 <= j2 < es.len() ==> views@[a].mask@[j2] == (es[j2] == Sc::I(keys@[a]))),
            decreases keys@.len() - i,
        {
            let key = keys[i];
            let mut mask: Vec<bool> = Vec::new();
            let mut j2: usize = 0;
            while j2 < v.len()
                invariant
                    es == int_es(v@),
                    j2 <= v@.len(),
                    mask@.len() == j2,
                    forall|t: int| 0 <= t < j2 ==> mask@[t] == (es[t] == Sc::I(key)),
                decreases v@.len() - j2,
            {
                mask.push(v[j2] == key);
                j2 += 1;
            }
            let parent = make_parent(self);
            match View::new(Value::ScalarInt(key), mask, parent) {
                Ok(view) => {
                    proof {
                        lemma_views_common_push(*self, views@, view, v@.len() as nat);
                    }
                    views.push(view);
                },
                Err(_) => {
                    proof {
                        assert(false);
                    }
                },
            }
            i += 1;
        }
        proof {
            assert forall|a: int|
                0 <= a < keys@.len() implies es.contains(Sc::I(#[trigger] keys@[a])) by {
                assert(keys@.contains(keys@[a]));
            }
            assert forall|j2: int|
                0 <= j2 < es.len() implies keys@.contains((#[trigger] es[j2])->I_0) by {
                assert(v@[j2] == es[j2]->I_0);
                assert(es.contains(Sc::I(v@[j2])));
            }
            assert(int_keys_of(es, keys@));
            assert(int_partition(es, views@));
        }
        views
    }

    /// One view per distinct float bit pattern, ascending in the sort-key
    /// order; any NaN matches any NaN in the masks.
    fn float_views(&self, v: &Vec<u64>) -> (r: Vec<View>)
        requires
            self.wf(),
            v@.len() == self.meta.count,
        ensures
            views_common(*self, r@, v@.len() as nat),
            float_partition(float_es(v@), r@),
    {
        let ghost es = float_es(v@);
        let mut keys: Vec<u64> = Vec::new();
        let mut j: usize = 0;
        while j < v.len()
            invariant
                es == float_es(v@),
                j <= v@.len(),
                forall|i: int, j2: int|
                    0 <= i < j2 < keys@.len() ==> f64_sort_key(keys@[i]) < f64_sort_key(keys@[j2]),
                forall|y: u64|
                    keys@.contains(y) <==> (exists|t: int| 0 <= t < j && (#[trigger] v@[t]) == y),
            decreases v@.len() - j,
        {
            let ghost k0 = keys@;
            insert_sorted_bits(&mut keys, v[j]);
            proof {
                assert forall|y: u64|
                    keys@.contains(y) <==> (exists|t: int|
                        0 <= t < j + 1 && (#[trigger] v@[t]) == y) by {
                    if keys@.contains(y) {
                        if k0.contains(y) {
                            let t = choose|t: int| 0 <= t < j && (#[trigger] v@[t]) == y;
                            assert(v@[t] == y);
                        } else {
                            assert(v@[j as int] == y);
                        }
                    }
                    if exists|t: int| 0 <= t < j + 1 && (#[trigger] v@[t]) == y {
                        let t = choose|t: int| 0 <= t < j + 1 && (#[trigger] v@[t]) == y;
                        if t < j {
                            assert(k0.contains(y));
                        }
                    }
                }
            }
            j += 1;
        }
        proof {
            assert forall|y: u64| keys@.contains(y) <==> es.contains(Sc::F(y)) by {
                if keys@.contains(y) {
                    let t = choose|t: int| 0 <= t < v@.len() && (#[trigger] v@[t]) == y;
                    assert(es[t] == Sc::F(y));
                }
                if es.contains(Sc::F(y)) {
                    let t = choose|t: int| 0 <= t < es.len() && es[t] == Sc::F(y);
                    assert(v@[t] == y);
                }
            }
        }
        let mut views: Vec<View> = Vec::new();
        let mut i: usize = 0;
        while i < keys.len()
            invariant
                self.wf(),
                es == float_es(v@),
                v@.len() == self.meta.count,
                forall|a: int, b: int|
                    0 <= a < b < keys@.len() ==> f64_sort_key(keys@[a]) < f64_sort_key(keys@[b]),
                forall|y: u64| keys@.contains(y) <==> es.contains(Sc::F(y)),
                i <= keys@.len(),
                views@.len() == i,
                views_common(*self, views@, v@.len() as nat),
                forall|a: int|
                    0 <= a < i ==> (#[trigger] views@[a]).key@ == Val::Scalar(Sc::F(keys@[a])) && (
                    forall|j2: int|
                        0 <= j2 < es.len() ==> views@[a].mask@[j2] == f64_bits_same(
                            es[j2]->F_0,
                            keys@[a],
                        )),
            decreases keys@.len() - i,
        {
            let key = keys[i];
            let mut mask: Vec<bool> = Vec::new();
            let mut j2: usize = 0;
            while j2 < v.len()
                invariant
                    es == float_es(v@),
                    j2 <= v@.len(),
                    mask@.len() == j2,
                    forall|t: int| 0 <= t < j2 ==> mask@[t] == f64_bits_same(es[t]->F_0, key),
                decreases v@.len() - j2,
            {
                mask.push(f64_bits_same_exec(v[j2], key));
                j2 += 1;
            }
            let parent = make_parent(self);
            match View::new(Value::ScalarFloat(key), mask, parent) {
                Ok(view) => {
                    proof {
                        lemma_views_common_push(*self, views@, view, v@.len() as nat);
                    }
                    views.push(view);
                },
                Err(_) => {
                    proof {
                        assert(false);
                    }
                },
            }
            i += 1;
        }
        proof {
            assert forall|a: int|
                0 <= a < keys@.len() implies es.contains(Sc::F(#[trigger] keys@[a])) by {
                assert(keys@.contains(keys@[a]));
            }
            assert forall|j2: int|
                0 <= j2 < es.len() implies keys@.contains((#[trigger] es[j2])->F_0) by {
                assert(v@[j2] == es[j2]->F_0);
                assert(es.contains(Sc::F(v@[j2])));
            }
            assert(float_keys_of(es, keys@));
            assert(float_partition(es, views@));
        }
        views
    }

    /// Always two views, `true` then `false`.
    fn bool_views(&self, v: &Vec<bool>) -> (r: Vec<View>)
        requires
            self.wf(),
            v@.len() == self.meta.count,
        ensures
            views_common(*self, r@, v@.len() as nat),
            bool_partition(bool_es(v@), r@),
    {
        let ghost es = bool_es(v@);
        let mut views: Vec<View> = Vec::new();
        let mut which = true;
        let mut round: usize = 0;
        while round < 2
            invariant
                self.wf(),
                es == bool_es(v@),
                v@.len() == self.meta.count,
                which == (round == 0),
                round <= 2,
                views@.len() == round,
                views_common(*self, views@, v@.len() as nat),
                round >= 1 ==> views@[0].key@ == Val::Scalar(Sc::B(true)) && (forall|j: int|
                    0 <= j < es.len() ==> (#[trigger] views@[0].mask@[j]) == (es[j]->B_0 == true)),
                round >= 2 ==> views@[1].key@ == Val::Scalar(Sc::B(false)) && (forall|j: int|
                    0 <= j < es.len() ==> (#[trigger] views@[1].mask@[j]) == (es[j]->B_0 == false)),
            decreases 2 - round,
        {
            let mut mask: Vec<bool> = Vec::new();
            let mut j2: usize = 0;
            while j2 < v.len()
                invariant
                    es == bool_es(v@),
                    j2 <= v@.len(),
                    mask@.len() == j2,
                    forall|t: int| 0 <= t < j2 ==> mask@[t] == (es[t]->B_0 == which),
                decreases v@.len() - j2,
            {
                mask.push(v[j2] == which);
                j2 += 1;
            }
            let parent = make_parent(self);
            match View::new(Value::ScalarBool(which), mask, parent) {
                Ok(view) => {
                    proof {
                        lemma_views_common_push(*self, views@, view, v@.len() as nat);
                    }
                    views.push(view);
                },
                Err(_) => {
                    proof {
                        assert(false);
                    }
                },
            }
            which = false;
            round += 1;
        }
        views
    }

    /// One view per distinct string, ascending in byte order.
    #[verifier::rlimit(100)]
    fn str_views(&self, v: &Vec<String>) -> (r: Vec<View>)
        requires
            self.wf(),
            v@.len() == self.meta.count,
        ensures
            views_common(*self, r@, v@.len() as nat),
            str_partition(str_es(v@), r@),
    {
        let ghost es = str_es(v@);
        let ghost vv = crate::util::str_views(v@);
        let mut keys: Vec<String> = Vec::new();
        let mut j: usize = 0;
        proof {
            assert(crate::util::str_views(keys@) =~= Seq::<Seq<char>>::empty());
        }
        while j < v.len()
            invariant
                es == str_es(v@),
                vv == crate::util::str_views(v@),
                j <= v@.len(),
                forall|a: int, b: int|
                    0 <= a < b < keys@.len() ==> crate::util::str_lt(
                        (#[trigger] keys@[a])@,
                        (#[trigger] keys@[b])@,
                    ),
                forall|y: Seq<char>|
                    #![trigger crate::util::str_views(keys@).contains(y)]
                    crate::util::str_views(keys@).contains(y) <==> (exists|t: int|
                        0 <= t < j && (#[trigger] vv[t]) == y),
            decreases v@.len() - j,
        {
            let ghost k0 = crate::util::str_views(keys@);
            crate::util::insert_sorted_str(&mut keys, &v[j]);
            proof {
                let kv = crate::util::str_views(keys@);
                assert forall|y: Seq<char>|
                    kv.contains(y) <==> (exists|t: int|
                        0 <= t < j + 1 && (#[trigger] vv[t]) == y) by {
                    if kv.contains(y) {
                        if k0.contains(y) {
                            let t = choose|t: int| 0 <= t < j && (#[trigger] vv[t]) == y;
                            assert(vv[t] == y);
                        } else {
                            assert(y == v@[j as int]@);
                            assert(vv[j as int] == y);
                        }
                    }
                    if exists|t: int| 0 <= t < j + 1 && (#[trigger] vv[t]) == y {
                        let t = choose|t: int| 0 <= t < j + 1 && (#[trigger] vv[t]) == y;
                        if t < j {
                            assert(k0.contains(y));
                        } else {
                            assert(y == v@[j as int]@);
                        }
                    }
                }
            }
            j += 1;
        }
        let mut views: Vec<View> = Vec::new();
        let mut i: usize = 0;
        while i < keys.len()
            invariant
                self.wf(),
                es == str_es(v@),
                v@.len() == self.meta.count,
                forall|a: int, b: int|
                    0 <= a < b < keys@.len() ==> crate::util::str_lt(
                        (#[trigger] keys@[a])@,
                        (#[trigger] keys@[b])@,
                    ),
                vv == crate::util::str_views(v@),
                forall|y: Seq<char>|
                    #![trigger crate::util::str_views(keys@).contains(y)]
                    crate::util::str_views(keys@).contains(y) <==> (exists|t: int|
                        0 <= t < v@.len() && (#[trigger] vv[t]) == y),
                i <= keys@.len(),
                views@.len() == i,
                views_common(*self, views@, v@.len() as nat),
                forall|a: int|
                    0 <= a < i ==> (#[trigger] views@[a]).key@ == Val::Scalar(Sc::S(keys@[a]@))
                        && (forall|j2: int|
                        0 <= j2 < es.len() ==> views@[a].mask@[j2] == (es[j2] == Sc::S(
                            keys@[a]@,
                        ))),
            decreases keys@.len() - i,
        {
            let key = &keys[i];
            let mut mask: Vec<bool> = Vec::new();
            let mut j2: usize = 0;
            while j2 < v.len()
                invariant
                    es == str_es(v@),
                    key == &keys@[i as int],
                    j2 <= v@.len(),
                    mask@.len() == j2,
                    forall|t: int| 0 <= t < j2 ==> mask@[t] == (es[t] == Sc::S(key@)),
                decreases v@.len() - j2,
            {
                mask.push(v[j2] == *key);
                j2 += 1;
            }
            let parent = make_parent(self);
            match View::new(Value::ScalarString(key.clone()), mask, parent) {
                Ok(view) => {
                    proof {
                        lemma_views_common_push(*self, views@, view, v@.len() as nat);
                    }
                    views.push(view);
                },
                Err(_) => {
                    proof {
                        assert(false);
                    }
                },
            }
            i += 1;
        }
        proof {
            let ghost kv = crate::util::str_views(keys@);
            assert forall|a: int|
                0 <= a < kv.len() implies es.contains(Sc::S(#[trigger] kv[a])) by {
                assert(kv.contains(kv[a]));
                let t = choose|t: int| 0 <= t < v@.len() && (#[trigger] vv[t]) == kv[a];
                assert(es[t] == Sc::S(kv[a]));
            }
            assert forall|j2: int|
                0 <= j2 < es.len() implies kv.contains((#[trigger] es[j2])->S_0) by {
                assert(vv[j2] == es[j2]->S_0);
                assert(kv.contains(vv[j2]));
            }
            assert forall|a: int, b: int|
                0 <= a < b < kv.len() implies crate::util::str_lt(kv[a], kv[b]) by {
                assert(crate::util::str_lt(keys@[a]@, keys@[b]@));
            }
            assert(str_keys_of(es, kv));
            assert forall|a: int|
                0 <= a < views@.len() implies (#[trigger] views@[a]).key@ == Val::Scalar(
                Sc::S(kv[a]),
            ) && (forall|j2: int|
                0 <= j2 < es.len() ==> views@[a].mask@[j2] == (es[j2] == Sc::S(kv[a]))) by {
                assert(views@[a].key@ == Val::Scalar(Sc::S(keys@[a]@)));
            }
            assert(str_partition(es, views@));
        }
        views
    }

    /// Splits the store by one stored, non-system field: one read-only view
    /// per distinct value, each holding its key and row mask over a snapshot
    /// of this store. Integers ascend; floats ascend in the bit-pattern
    /// order, any NaN matching any NaN in the masks; booleans always give
    /// the pair `true` then `false`; strings ascend in byte order.
    pub fn partition_by<V: Validator, D: DerivedRule>(
        &self,
        registry: &Registry<V, D>,
        field: &str,
    ) -> (r: Result<Vec<View>, SoAKitError>)
        requires
            self.wf(),
            registry.wf(),
        ensures
            !(self.has_col(field@) && !crate::util::sys_prefixed(field@)) ==> r is Err
                && r->Err_0@ == ErrModel::FieldNotFound(field@),
            self.has_col(field@) && !crate::util::sys_prefixed(field@) ==> ({
                let ev = eval(registry@, *self, field@, bulk_fuel(*registry));
                &&& (ev is Err ==> r is Err && r->Err_0@ == ev->Err_0)
                &&& (ev is Ok && !(ev->Ok_0 is Vector) ==> r is Err && r->Err_0@
                    is InvalidArgument)
                &&& (ev is Ok && ev->Ok_0 is Vector && ev->Ok_0->Vector_1.len()
                    != self.meta.count ==> r is Err && (r->Err_0@ matches ErrModel::LengthMismatch {
                    expected,
                    actual,
                } && expected == self.meta.count && actual == ev->Ok_0->Vector_1.len()))
                &&& (ev is Ok && ev->Ok_0 is Vector && ev->Ok_0->Vector_1.len()
                    == self.meta.count ==> r is Ok && views_common(
                    *self,
                    r->Ok_0@,
                    ev->Ok_0->Vector_1.len(),
                ) && (match ev->Ok_0->Vector_0 {
                    ValKind::Int => int_partition(ev->Ok_0->Vector_1, r->Ok_0@),
                    ValKind::Float => float_partition(ev->Ok_0->Vector_1, r->Ok_0@),
                    ValKind::Bool => bool_partition(ev->Ok_0->Vector_1, r->Ok_0@),
                    ValKind::Str => str_partition(ev->Ok_0->Vector_1, r->Ok_0@),
                }))
            }),
    {
        let present = self.chunks.len() > 0 && self.chunks[0].columns.contains_key(field)
            && crate::util::is_valid_field_name(field);
        if !present {
            return Err(SoAKitError::FieldNotFound(String::from_str(field)));
        }
        let fuel = registry.fields.len();
        let column = match self.resolve_rec(registry, field, fuel) {
            Ok(c) => c,
            Err(e) => {
                return Err(e);
            },
        };
        let n = column.len();
        if n != self.count() {
            match &column {
                Value::VectorInt(_) | Value::VectorFloat(_) | Value::VectorBool(_)
                    | Value::VectorString(_) => {
                    return Err(
                        SoAKitError::LengthMismatch { expected: self.count(), actual: n },
                    );
                },
                _ => {
                    return Err(
                        SoAKitError::InvalidArgument(
                            String::from_str("partition field must be a vector"),
                        ),
                    );
                },
            }
        }
        match &column {
            Value::VectorInt(v) => Ok(self.int_views(v)),
            Value::VectorFloat(v) => Ok(self.float_views(v)),
            Value::VectorBool(v) => Ok(self.bool_views(v)),
            Value::VectorString(v) => Ok(self.str_views(v)),
            _ => Err(
                SoAKitError::InvalidArgument(
                    String::from_str("partition field must be a vector"),
                ),
            ),
        }
    }
}

} // verus!
