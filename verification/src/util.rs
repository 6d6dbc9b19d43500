//! Field-name rules and free-standing type checks.
//!
//! Field names must be non-empty and must not start with the reserved
//! system-field marker `_`. Names with that prefix are filtered out of every
//! listing the engine returns.

use crate::value::Value;
use vstd::prelude::*;
use vstd::seq_lib::*;
use vstd::string::StrSliceExecFns;

verus! {

/// True when a name carries the reserved system-field prefix `_`.
pub open spec fn sys_prefixed(name: Seq<char>) -> bool {
    name.len() > 0 && name[0] == '_'
}

/// True when a name may be registered: non-empty and not system-prefixed.
pub open spec fn valid_field_name(name: Seq<char>) -> bool {
    name.len() > 0 && name[0] != '_'
}

/// Checks whether a value is a scalar (rank 0).
pub fn is_scalar(value: &Value) -> (r: bool)
    ensures
        r == (value@ is Scalar),
{
    value.is_scalar()
}

/// Checks whether a value is a vector (rank 1).
pub fn is_vector(value: &Value) -> (r: bool)
    ensures
        r == (value@ is Vector),
{
    value.is_vector()
}

/// Checks whether a value is a matrix (rank 2).
pub fn is_matrix(value: &Value) -> (r: bool)
    ensures
        r == (value@ is Matrix),
{
    value.is_matrix()
}

/// Checks that a field name is non-empty and not system-prefixed.
pub fn is_valid_field_name(name: &str) -> (r: bool)
    ensures
        r == valid_field_name(name@),
{
    if name.is_empty() {
        false
    } else {
        name.get_char(0) != '_'
    }
}

/// The views of a sequence of strings, elementwise.
pub open spec fn str_views(s: Seq<String>) -> Seq<Seq<char>> {
    s.map_values(|n: String| n@)
}

/// Lexicographic order on byte sequences: `a` at or before `b`.
pub open spec fn bytes_le(a: Seq<u8>, b: Seq<u8>) -> bool
    decreases a.len(),
{
    if a.len() == 0 {
        true
    } else if b.len() == 0 {
        false
    } else if a[0] < b[0] {
        true
    } else if a[0] > b[0] {
        false
    } else {
        bytes_le(a.drop_first(), b.drop_first())
    }
}

/// Byte order on strings: lexicographic comparison of the UTF-8 encodings.
pub open spec fn str_le(a: Seq<char>, b: Seq<char>) -> bool {
    bytes_le(vstd::utf8::encode_utf8(a), vstd::utf8::encode_utf8(b))
}

/// Strict byte order on strings.
pub open spec fn str_lt(a: Seq<char>, b: Seq<char>) -> bool {
    str_le(a, b) && a != b
}

/// Of two byte sequences, one is at or before the other.
pub proof fn lemma_bytes_le_total(a: Seq<u8>, b: Seq<u8>)
    ensures
        bytes_le(a, b) || bytes_le(b, a),
    decreases a.len(),
{
    if a.len() == 0 {
    } else if b.len() == 0 {
    } else if a[0] == b[0] {
        lemma_bytes_le_total(a.drop_first(), b.drop_first());
    }
}

/// Byte sequences each at or before the other are equal.
pub proof fn lemma_bytes_le_antisym(a: Seq<u8>, b: Seq<u8>)
    requires
        bytes_le(a, b),
        bytes_le(b, a),
    ensures
        a == b,
    decreases a.len(),
{
    if a.len() == 0 {
        assert(b.len() == 0);
        assert(a =~= b);
    } else {
        assert(b.len() != 0);
        assert(a[0] == b[0]);
        lemma_bytes_le_antisym(a.drop_first(), b.drop_first());
        assert(a.len() == b.len());
        assert forall|i: int| 0 <= i < a.len() implies a[i] == b[i] by {
            if i > 0 {
                assert(a.drop_first()[i - 1] == b.drop_first()[i - 1]);
            }
        }
        assert(a =~= b);
    }
}

/// The byte order is transitive.
pub proof fn lemma_bytes_le_trans(a: Seq<u8>, b: Seq<u8>, c: Seq<u8>)
    requires
        bytes_le(a, b),
        bytes_le(b, c),
    ensures
        bytes_le(a, c),
    decreases a.len(),
{
    if a.len() == 0 {
    } else {
        assert(b.len() != 0);
        assert(c.len() != 0);
        if a[0] == b[0] && b[0] == c[0] {
            lemma_bytes_le_trans(a.drop_first(), b.drop_first(), c.drop_first());
        }
    }
}

/// Of two strings, one is at or before the other in byte order.
pub proof fn lemma_str_le_total(a: Seq<char>, b: Seq<char>)
    ensures
        str_le(a, b) || str_le(b, a),
{
    lemma_bytes_le_total(vstd::utf8::encode_utf8(a), vstd::utf8::encode_utf8(b));
}

/// Strings each at or before the other in byte order are equal, since the
/// UTF-8 encoding is injective.
pub proof fn lemma_str_le_antisym(a: Seq<char>, b: Seq<char>)
    requires
        str_le(a, b),
        str_le(b, a),
    ensures
        a == b,
{
    lemma_bytes_le_antisym(vstd::utf8::encode_utf8(a), vstd::utf8::encode_utf8(b));
    vstd::utf8::encode_utf8_decode_utf8(a);
    vstd::utf8::encode_utf8_decode_utf8(b);
}

/// The byte order on strings is transitive.
pub proof fn lemma_str_le_trans(a: Seq<char>, b: Seq<char>, c: Seq<char>)
    requires
        str_le(a, b),
        str_le(b, c),
    ensures
        str_le(a, c),
{
    lemma_bytes_le_trans(
        vstd::utf8::encode_utf8(a),
        vstd::utf8::encode_utf8(b),
        vstd::utf8::encode_utf8(c),
    );
}

/// Dropping an equal prefix from both sides leaves the comparison unchanged.
proof fn lemma_bytes_le_skip(a: Seq<u8>, b: Seq<u8>, i: int)
    requires
        0 <= i <= a.len(),
        i <= b.len(),
        forall|j: int| 0 <= j < i ==> a[j] == b[j],
    ensures
        bytes_le(a, b) == bytes_le(a.skip(i), b.skip(i)),
    decreases i,
{
    if i == 0 {
        assert(a.skip(0) =~= a);
        assert(b.skip(0) =~= b);
    } else {
        assert(a[0] == b[0]);
        lemma_bytes_le_skip(a.drop_first(), b.drop_first(), i - 1);
        assert(a.drop_first().skip(i - 1) =~= a.skip(i));
        assert(b.drop_first().skip(i - 1) =~= b.skip(i));
    }
}

/// Compares two strings in byte order.
pub fn str_le_exec(a: &str, b: &str) -> (r: bool)
    ensures
        r == str_le(a@, b@),
{
    let av = a.as_bytes_vec();
    let bv = b.as_bytes_vec();
    let n: usize = if av.len() < bv.len() {
        av.len()
    } else {
        bv.len()
    };
    let mut i: usize = 0;
    while i < n
        invariant
            i <= n,
            n <= av@.len(),
            n <= bv@.len(),
            n == av@.len() || n == bv@.len(),
            av@ == vstd::utf8::encode_utf8(a@),
            bv@ == vstd::utf8::encode_utf8(b@),
            forall|j: int| 0 <= j < i ==> av@[j] == bv@[j],
        decreases n - i,
    {
        let x = av[i];
        let y = bv[i];
        if x != y {
            proof {
                lemma_bytes_le_skip(av@, bv@, i as int);
                assert(av@.skip(i as int)[0] == x);
                assert(bv@.skip(i as int)[0] == y);
            }
            return x < y;
        }
        i += 1;
    }
    proof {
        lemma_bytes_le_skip(av@, bv@, n as int);
        if av@.len() <= bv@.len() {
            assert(av@.skip(n as int).len() == 0);
        } else {
            assert(bv@.skip(n as int).len() == 0);
            assert(av@.skip(n as int).len() > 0);
        }
    }
    av.len() <= bv.len()
}

/// Inserts a string into a list strictly ascending in byte order, keeping it
/// so; a string already present is left alone.
pub fn insert_sorted_str(keys: &mut Vec<String>, x: &String)
    requires
        forall|i: int, j: int|
            0 <= i < j < old(keys)@.len() ==> str_lt(
                (#[trigger] old(keys)@[i])@,
                (#[trigger] old(keys)@[j])@,
            ),
    ensures
        forall|i: int, j: int|
            0 <= i < j < final(keys)@.len() ==> str_lt(
                (#[trigger] final(keys)@[i])@,
                (#[trigger] final(keys)@[j])@,
            ),
        forall|y: Seq<char>|
            #![trigger str_views(final(keys)@).contains(y)]
            str_views(final(keys)@).contains(y) <==> (str_views(old(keys)@).contains(y) || y
                == x@),
{
    let mut p: usize = 0;
    while p < keys.len() && !str_le_exec(x.as_str(), keys[p].as_str())
        invariant
            p <= keys@.len(),
            keys@ == old(keys)@,
            forall|i: int| 0 <= i < p ==> str_lt((#[trigger] keys@[i])@, x@),
        decreases keys@.len() - p,
    {
        proof {
            lemma_str_le_total(x@, keys@[p as int]@);
            lemma_str_le_total(x@, x@);
        }
        p += 1;
    }
    if p < keys.len() && keys[p] == *x {
        proof {
            assert(keys@[p as int]@ == x@);
            assert forall|y: Seq<char>|
                str_views(keys@).contains(y) <==> (str_views(old(keys)@).contains(y) || y
                    == x@) by {
                if y == x@ {
                    assert(str_views(keys@)[p as int] == x@);
                }
            }
        }
        return ;
    }
    let ghost pre = keys@;
    keys.insert(p, x.clone());
    proof {
        assert(keys@ =~= pre.subrange(0, p as int) + seq![keys@[p as int]] + pre.subrange(
            p as int,
            pre.len() as int,
        ));
        assert(keys@[p as int]@ == x@);
        assert forall|i: int| 0 <= i < p implies keys@[i] == pre[i] by {}
        assert forall|j: int| p < j < keys@.len() implies keys@[j] == pre[j - 1] by {}
        if p < pre.len() {
            assert(str_le(x@, pre[p as int]@));
            assert(pre[p as int]@ != x@) by {
                if pre[p as int]@ == x@ {
                    lemma_str_le_total(x@, x@);
                }
            }
        }
        assert forall|i: int, j: int|
            0 <= i < j < keys@.len() implies str_lt((keys@[i])@, (keys@[j])@) by {
            if j < p {
                assert(str_lt(pre[i]@, pre[j]@));
            } else if i > p {
                assert(str_lt(pre[i - 1]@, pre[j - 1]@));
            } else if i < p && j == p {
                assert(str_lt(pre[i]@, x@));
            } else if i == p && j > p {
                assert(str_le(x@, pre[p as int]@));
                assert(pre[p as int]@ != x@);
                if j - 1 > p {
                    assert(str_lt(pre[p as int]@, pre[j - 1]@));
                    lemma_str_le_trans(x@, pre[p as int]@, pre[j - 1]@);
                    assert(pre[j - 1]@ != x@) by {
                        if pre[j - 1]@ == x@ {
                            lemma_str_le_antisym(x@, pre[p as int]@);
                        }
                    }
                } else {
                    assert(keys@[j] == pre[p as int]);
                }
            } else if i < p && j > p {
                assert(str_lt(pre[i]@, x@));
                assert(str_le(x@, pre[p as int]@));
                if j - 1 > p {
                    assert(str_lt(pre[p as int]@, pre[j - 1]@));
                    lemma_str_le_trans(x@, pre[p as int]@, pre[j - 1]@);
                } else {
                    assert(keys@[j] == pre[p as int]);
                }
                lemma_str_le_trans(pre[i]@, x@, pre[j - 1]@);
                assert(pre[i]@ != pre[j - 1]@) by {
                    if pre[i]@ == pre[j - 1]@ {
                        lemma_str_le_antisym(pre[i]@, x@);
                    }
                }
            }
        }
        assert(pre == old(keys)@);
        assert forall|y: Seq<char>|
            str_views(keys@).contains(y) <==> (str_views(old(keys)@).contains(y) || y == x@) by {
            if str_views(keys@).contains(y) {
                let kv = str_views(keys@);
                let i = choose|i: int| 0 <= i < kv.len() && kv[i] == y;
                if i < p {
                    assert(str_views(pre)[i] == y);
                } else if i > p {
                    assert(str_views(pre)[i - 1] == y);
                }
            }
            if str_views(pre).contains(y) {
                let pv = str_views(pre);
                let i = choose|i: int| 0 <= i < pv.len() && pv[i] == y;
                if i < p {
                    assert(str_views(keys@)[i] == y);
                } else {
                    assert(str_views(keys@)[i + 1] == y);
                }
            }
            if y == x@ {
                assert(str_views(keys@)[p as int] == y);
            }
        }
    }
}

/// Keeps the names without the system prefix, in order.
pub fn filter_system_fields(names: &Vec<String>) -> (r: Vec<String>)
    ensures
        str_views(r@) == str_views(names@).filter(|n: Seq<char>| !sys_prefixed(n)),
{
    let pred = Ghost(|n: Seq<char>| !sys_prefixed(n));
    let mut r: Vec<String> = Vec::new();
    let mut i: usize = 0;
    proof {
        assert(str_views(names@).take(0) =~= Seq::<Seq<char>>::empty());
        reveal_with_fuel(Seq::filter, 1);
        assert(str_views(r@) =~= str_views(names@).take(0).filter(pred@));
    }
    while i < names.len()
        invariant
            i <= names.len(),
            pred@ == (|n: Seq<char>| !sys_prefixed(n)),
            str_views(r@) == str_views(names@).take(i as int).filter(pred@),
        decreases names.len() - i,
    {
        let name = &names[i];
        let keep = if name.as_str().is_empty() {
            true
        } else {
            name.as_str().get_char(0) != '_'
        };
        let ghost r0 = r@;
        if keep {
            r.push(name.clone());
        }
        proof {
            let vs = str_views(names@);
            assert(vs.take(i + 1).drop_last() =~= vs.take(i as int));
            assert(vs.take(i + 1).last() == names@[i as int]@);
            reveal_with_fuel(Seq::filter, 2);
            if keep {
                assert(str_views(r@) =~= str_views(r0).push(names@[i as int]@));
            } else {
                assert(str_views(r@) =~= str_views(r0));
            }
        }
        i += 1;
    }
    proof {
        assert(str_views(names@).take(names@.len() as int) =~= str_views(names@));
    }
    r
}

} // verus!
