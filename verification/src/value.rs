use vstd::prelude::*;

use crate::major_type::head_bytes;
use crate::minor_type::{be64_bytes, spec_size, MinorType};
use vstd::slice::slice_to_vec;
use vstd::string::StrSliceExecFns;
use vstd::utf8::{encode_utf8, valid_utf8};
use crate::error::Error;
use crate::minor_type::minor_value;
use crate::owned::{chunks_payload, wire_bytes, OwnedValue};

verus! {

/// A CBOR key as used in maps decoded without a schema: the value kinds
/// that make sense as keys.
#[derive(Clone, Debug, PartialEq, Eq, PartialOrd, Ord, Hash)]
pub enum ObjectKey {
    /// An integer key.
    Integer(i64),
    /// A byte string key.
    Bytes(Vec<u8>),
    /// A UTF-8 string key.
    String(String),
    /// A boolean key.
    Bool(bool),
    /// No value.
    Null,
}

/// A dynamic CBOR value, used when the shape of a document is not known
/// statically. Floating-point values are kept as the bits of a
/// double-precision float, so equality on them is bit equality.
#[derive(Debug, PartialEq)]
pub enum Value {
    /// An unsigned integer.
    U64(u64),
    /// A signed integer.
    I64(i64),
    /// A byte string.
    Bytes(Vec<u8>),
    /// A UTF-8 string.
    String(String),
    /// An array of values.
    Array(Vec<Value>),
    /// A map from keys to values, in the order the pairs were given;
    /// encoding sorts them canonically.
    Object(Vec<(ObjectKey, Value)>),
    /// A double-precision float, as its raw bits.
    F64(u64),
    /// A boolean.
    Bool(bool),
    /// The absence of a value.
    Null,
}

/// The canonical encoding of a signed integer: major type 0 for
/// non-negative values, major type 1 with argument `-1-i` otherwise,
/// always in the shortest width.
pub open spec fn int_enc(i: i64) -> Seq<u8> {
    if i >= 0 {
        head_bytes(0, spec_size(i as u64))
    } else {
        head_bytes(1, spec_size((-1 - i as int) as u64))
    }
}

/// The canonical encoding of a map key.
pub open spec fn key_enc(k: ObjectKey) -> Seq<u8> {
    match k {
        ObjectKey::Integer(i) => int_enc(i),
        ObjectKey::Bytes(b) => head_bytes(2, spec_size(b@.len() as u64)) + b@,
        ObjectKey::String(s) => head_bytes(3, spec_size(encode_utf8(s@).len() as u64))
            + encode_utf8(s@),
        ObjectKey::Bool(t) => if t {
            seq![0xf5u8]
        } else {
            seq![0xf4u8]
        },
        ObjectKey::Null => seq![0xf6u8],
    }
}

/// Strict lexicographic byte order, as a byte-wise comparison finds it:
/// the first differing byte decides, and a proper prefix comes first.
pub open spec fn lex_lt(a: Seq<u8>, b: Seq<u8>) -> bool
    decreases a,
{
    if b.len() == 0 {
        false
    } else if a.len() == 0 {
        true
    } else if a[0] < b[0] {
        true
    } else if a[0] > b[0] {
        false
    } else {
        lex_lt(a.drop_first(), b.drop_first())
    }
}

/// Inserts an encoded pair into a run sorted by key bytes, after any
/// equal keys already there.
pub open spec fn insert_enc(
    p: (Seq<u8>, Seq<u8>),
    s: Seq<(Seq<u8>, Seq<u8>)>,
) -> Seq<(Seq<u8>, Seq<u8>)>
    decreases s,
{
    if s.len() == 0 {
        seq![p]
    } else if lex_lt(p.0, s[0].0) {
        seq![p] + s
    } else {
        seq![s[0]] + insert_enc(p, s.drop_first())
    }
}

/// Sorts encoded pairs by the lexicographic order of their key bytes,
/// keeping pairs with equal keys in their given order.
pub open spec fn sort_enc(s: Seq<(Seq<u8>, Seq<u8>)>) -> Seq<(Seq<u8>, Seq<u8>)>
    decreases s,
{
    if s.len() == 0 {
        Seq::<(Seq<u8>, Seq<u8>)>::empty()
    } else {
        insert_enc(s.last(), sort_enc(s.drop_last()))
    }
}

/// The bytes of a run of encoded pairs, keys before values.
pub open spec fn flatten_enc(s: Seq<(Seq<u8>, Seq<u8>)>) -> Seq<u8>
    decreases s,
{
    if s.len() == 0 {
        Seq::<u8>::empty()
    } else {
        s[0].0 + s[0].1 + flatten_enc(s.drop_first())
    }
}

/// The canonical encoding of a dynamic value: shortest integer heads,
/// definite lengths, and map pairs sorted by the byte order of their
/// encoded keys.
pub open spec fn value_enc(v: Value) -> Seq<u8>
    decreases v,
{
    match v {
        Value::U64(n) => head_bytes(0, spec_size(n)),
        Value::I64(i) => int_enc(i),
        Value::Bytes(b) => head_bytes(2, spec_size(b@.len() as u64)) + b@,
        Value::String(s) => head_bytes(3, spec_size(encode_utf8(s@).len() as u64)) + encode_utf8(
            s@,
        ),
        Value::Array(els) => head_bytes(4, spec_size(els@.len() as u64)) + value_items_enc(els@),
        Value::Object(ps) => head_bytes(5, spec_size(ps@.len() as u64)) + flatten_enc(
            sort_enc(pairs_enc(ps@)),
        ),
        Value::F64(bits) => seq![0xfbu8] + be64_bytes(bits),
        Value::Bool(t) => if t {
            seq![0xf5u8]
        } else {
            seq![0xf4u8]
        },
        Value::Null => seq![0xf6u8],
    }
}

/// The encodings of a run of array elements, one after the other.
pub open spec fn value_items_enc(els: Seq<Value>) -> Seq<u8>
    decreases els,
{
    if els.len() == 0 {
        Seq::<u8>::empty()
    } else {
        value_enc(els[0]) + value_items_enc(els.drop_first())
    }
}

/// The encoded forms of a run of map pairs, in their given order.
pub open spec fn pairs_enc(ps: Seq<(ObjectKey, Value)>) -> Seq<(Seq<u8>, Seq<u8>)>
    decreases ps,
{
    if ps.len() == 0 {
        Seq::<(Seq<u8>, Seq<u8>)>::empty()
    } else {
        seq![(key_enc(ps[0].0), value_enc(ps[0].1))] + pairs_enc(ps.drop_first())
    }
}

/// Keys appear in non-decreasing lexicographic order.
pub open spec fn sorted_keys(s: Seq<(Seq<u8>, Seq<u8>)>) -> bool {
    forall|i: int, j: int| 0 <= i < j < s.len() ==> !lex_lt(#[trigger] s[j].0, #[trigger] s[i].0)
}

/// The lexicographic byte order is total: of two keys, one comes no
/// later than the other.
pub proof fn lemma_lex_total(a: Seq<u8>, b: Seq<u8>)
    ensures
        lex_lt(a, b) || lex_lt(b, a) || a == b,
    decreases a,
{
    if b.len() == 0 || a.len() == 0 {
        if !lex_lt(a, b) && !lex_lt(b, a) {
            assert(a =~= b);
        }
    } else if a[0] == b[0] {
        lemma_lex_total(a.drop_first(), b.drop_first());
        if !lex_lt(a, b) && !lex_lt(b, a) {
            assert(a.drop_first() == b.drop_first());
            assert(a.len() == b.len());
            assert forall|i: int| 0 <= i < a.len() implies a[i] == b[i] by {
                if i > 0 {
                    assert(a.drop_first()[i - 1] == b.drop_first()[i - 1]);
                }
            }
            assert(a =~= b);
        }
    }
}

/// Inserting into a run sorted by key bytes keeps it sorted.
pub proof fn lemma_insert_enc_sorted(p: (Seq<u8>, Seq<u8>), s: Seq<(Seq<u8>, Seq<u8>)>)
    requires
        sorted_keys(s),
    ensures
        sorted_keys(insert_enc(p, s)),
        insert_enc(p, s).len() == s.len() + 1,
        forall|i: int|
            0 <= i < insert_enc(p, s).len() ==> (#[trigger] insert_enc(p, s)[i]) == p || (exists|
                j: int,
            |
                0 <= j < s.len() && s[j] == insert_enc(p, s)[i]),
    decreases s,
{
    let out = insert_enc(p, s);
    if s.len() == 0 {
    } else if lex_lt(p.0, s[0].0) {
        assert(out =~= seq![p] + s);
        assert forall|i: int, j: int| 0 <= i < j < out.len() implies !lex_lt(
            #[trigger] out[j].0,
            #[trigger] out[i].0,
        ) by {
            assert(out[0] == p);
            if i == 0 {
                assert(out[j] == s[j - 1]);
                if j == 1 {
                    lemma_lex_lt_asym(p.0, s[0].0);
                } else {
                    assert(!lex_lt(s[j - 1].0, s[0].0));
                    lemma_lex_lt_trans_not(p.0, s[0].0, s[j - 1].0);
                    lemma_lex_lt_asym(p.0, s[j - 1].0);
                }
                assert(!lex_lt(out[j].0, out[i].0));
            } else {
                assert(out[i] == s[i - 1]);
                assert(out[j] == s[j - 1]);
                assert(!lex_lt(s[j - 1].0, s[i - 1].0));
                assert(!lex_lt(out[j].0, out[i].0));
            }
        }
        assert forall|i: int| 0 <= i < out.len() implies (#[trigger] out[i]) == p || (exists|
            j: int,
        |
            0 <= j < s.len() && s[j] == out[i]) by {
            if i > 0 {
                assert(s[i - 1] == out[i]);
            }
        }
    } else {
        assert forall|k: int, l: int| 0 <= k < l < s.drop_first().len() implies !lex_lt(
            #[trigger] s.drop_first()[l].0,
            #[trigger] s.drop_first()[k].0,
        ) by {
            assert(s.drop_first()[l] == s[l + 1]);
            assert(s.drop_first()[k] == s[k + 1]);
        }
        lemma_insert_enc_sorted(p, s.drop_first());
        let rest = insert_enc(p, s.drop_first());
        assert(out =~= seq![s[0]] + rest);
        assert forall|i: int, j: int| 0 <= i < j < out.len() implies !lex_lt(
            #[trigger] out[j].0,
            #[trigger] out[i].0,
        ) by {
            if i == 0 {
                assert(out[j] == rest[j - 1]);
                if rest[j - 1] == p {
                    lemma_lex_lt_asym(p.0, s[0].0);
                    lemma_lex_total(p.0, s[0].0);
                    assert(!lex_lt(p.0, s[0].0));
                } else {
                    let jj = choose|jj: int|
                        0 <= jj < s.drop_first().len() && s.drop_first()[jj] == rest[j - 1];
                    assert(s.drop_first()[jj] == s[jj + 1]);
                    assert(!lex_lt(s[jj + 1].0, s[0].0));
                }
            } else {
                assert(out[i] == rest[i - 1]);
                assert(out[j] == rest[j - 1]);
            }
        }
        assert forall|i: int| 0 <= i < out.len() implies (#[trigger] out[i]) == p || (exists|
            j: int,
        |
            0 <= j < s.len() && s[j] == out[i]) by {
            if i == 0 {
                assert(s[0] == out[0]);
            } else {
                assert(out[i] == rest[i - 1]);
                if rest[i - 1] == p {
                } else {
                    let jj = choose|jj: int|
                        0 <= jj < s.drop_first().len() && s.drop_first()[jj] == rest[i - 1];
                    assert(s[jj + 1] == out[i]);
                }
            }
        }
    }
}

/// Two keys cannot each come before the other.
pub proof fn lemma_lex_lt_asym(a: Seq<u8>, b: Seq<u8>)
    ensures
        !(lex_lt(a, b) && lex_lt(b, a)),
    decreases a,
{
    if a.len() > 0 && b.len() > 0 && a[0] == b[0] {
        lemma_lex_lt_asym(a.drop_first(), b.drop_first());
    }
}

/// If `a` comes before `b` and `c` does not come before `b`, then `a`
/// comes before `c`.
pub proof fn lemma_lex_lt_trans_not(a: Seq<u8>, b: Seq<u8>, c: Seq<u8>)
    requires
        lex_lt(a, b),
        !lex_lt(c, b),
    ensures
        lex_lt(a, c),
    decreases a,
{
    if b.len() == 0 {
    } else if a.len() == 0 {
        if c.len() == 0 {
        } else {
            assert(lex_lt(a, c));
        }
    } else {
        if c.len() == 0 {
            assert(lex_lt(c, b));
        } else {
            if a[0] < b[0] {
                if c[0] < a[0] {
                    assert(lex_lt(c, b));
                } else if c[0] == a[0] {
                    if a[0] == b[0] {
                    } else {
                        assert(lex_lt(c, b));
                    }
                }
            } else {
                assert(a[0] == b[0]);
                if c[0] < b[0] {
                    assert(lex_lt(c, b));
                } else if c[0] == b[0] {
                    lemma_lex_lt_trans_not(a.drop_first(), b.drop_first(), c.drop_first());
                }
            }
        }
    }
}

/// Sorting encoded pairs leaves their keys in non-decreasing
/// lexicographic order: the canonical map order of the encoder.
pub proof fn lemma_sort_enc_sorted(s: Seq<(Seq<u8>, Seq<u8>)>)
    ensures
        sorted_keys(sort_enc(s)),
        sort_enc(s).len() == s.len(),
        forall|i: int|
            0 <= i < sort_enc(s).len() ==> exists|j: int|
                0 <= j < s.len() && s[j] == #[trigger] sort_enc(s)[i],
    decreases s,
{
    if s.len() > 0 {
        lemma_sort_enc_sorted(s.drop_last());
        lemma_insert_enc_sorted(s.last(), sort_enc(s.drop_last()));
        let out = sort_enc(s);
        assert forall|i: int| 0 <= i < out.len() implies exists|j: int|
            0 <= j < s.len() && s[j] == #[trigger] out[i] by {
            if out[i] == s.last() {
                assert(s[s.len() - 1] == out[i]);
            } else {
                let sd = sort_enc(s.drop_last());
                let jj = choose|jj: int| 0 <= jj < sd.len() && sd[jj] == out[i];
                let kk = choose|kk: int|
                    0 <= kk < s.drop_last().len() && s.drop_last()[kk] == sd[jj];
                assert(s[kk] == out[i]);
            }
        }
    }
}

/// Every key the canonical encoder writes for a map appears in
/// non-decreasing byte order: the pairs of the encoded form of any
/// object are sorted by their encoded keys.
pub proof fn lemma_object_keys_canonical_order(ps: Seq<(ObjectKey, Value)>)
    ensures
        sorted_keys(sort_enc(pairs_enc(ps))),
        sort_enc(pairs_enc(ps)).len() == ps.len(),
{
    lemma_sort_enc_sorted(pairs_enc(ps));
    lemma_pairs_enc_len(ps);
}

/// A run of pairs encodes to as many encoded pairs.
pub proof fn lemma_pairs_enc_len(ps: Seq<(ObjectKey, Value)>)
    ensures
        pairs_enc(ps).len() == ps.len(),
    decreases ps,
{
    if ps.len() > 0 {
        lemma_pairs_enc_len(ps.drop_first());
    }
}


/// Extending a run of elements by one appends that element's encoding.
pub proof fn lemma_value_items_snoc(els: Seq<Value>, i: int)
    requires
        0 <= i < els.len(),
    ensures
        value_items_enc(els.take(i + 1)) == value_items_enc(els.take(i)) + value_enc(els[i]),
    decreases i,
{
    if i == 0 {
        assert(els.take(1) =~= seq![els[0]]);
        assert(els.take(1).drop_first() =~= Seq::<Value>::empty());
        assert(els.take(0) =~= Seq::<Value>::empty());
        assert(value_items_enc(els.take(i + 1)) =~= value_items_enc(els.take(i)) + value_enc(
            els[i],
        ));
    } else {
        lemma_value_items_snoc(els.drop_first(), i - 1);
        assert(els.take(i + 1).drop_first() =~= els.drop_first().take(i));
        assert(els.take(i).drop_first() =~= els.drop_first().take(i - 1));
        assert(els.take(i + 1)[0] == els[0]);
        assert(els.take(i)[0] == els[0]);
        assert(els.drop_first()[i - 1] == els[i]);
        assert(value_items_enc(els.take(i + 1)) =~= value_items_enc(els.take(i)) + value_enc(
            els[i],
        ));
    }
}

/// Extending a run of pairs by one appends that pair's encoded form.
pub proof fn lemma_pairs_enc_snoc(ps: Seq<(ObjectKey, Value)>, i: int)
    requires
        0 <= i < ps.len(),
    ensures
        pairs_enc(ps.take(i + 1)) == pairs_enc(ps.take(i)) + seq![
            (key_enc(ps[i].0), value_enc(ps[i].1)),
        ],
    decreases i,
{
    if i == 0 {
        assert(ps.take(1) =~= seq![ps[0]]);
        assert(ps.take(1).drop_first() =~= Seq::<(ObjectKey, Value)>::empty());
        assert(ps.take(0) =~= Seq::<(ObjectKey, Value)>::empty());
        assert(pairs_enc(ps.take(i + 1)) =~= pairs_enc(ps.take(i)) + seq![
            (key_enc(ps[i].0), value_enc(ps[i].1)),
        ]);
    } else {
        lemma_pairs_enc_snoc(ps.drop_first(), i - 1);
        assert(ps.take(i + 1).drop_first() =~= ps.drop_first().take(i));
        assert(ps.take(i).drop_first() =~= ps.drop_first().take(i - 1));
        assert(ps.take(i + 1)[0] == ps[0]);
        assert(ps.take(i)[0] == ps[0]);
        assert(ps.drop_first()[i - 1] == ps[i]);
        assert(pairs_enc(ps.take(i + 1)) =~= pairs_enc(ps.take(i)) + seq![
            (key_enc(ps[i].0), value_enc(ps[i].1)),
        ]);
    }
}

/// Extending a run of encoded pairs by one appends its key and value
/// bytes.
pub proof fn lemma_flatten_snoc(s: Seq<(Seq<u8>, Seq<u8>)>, i: int)
    requires
        0 <= i < s.len(),
    ensures
        flatten_enc(s.take(i + 1)) == flatten_enc(s.take(i)) + s[i].0 + s[i].1,
    decreases i,
{
    if i == 0 {
        assert(s.take(1) =~= seq![s[0]]);
        assert(s.take(1).drop_first() =~= Seq::<(Seq<u8>, Seq<u8>)>::empty());
        assert(s.take(0) =~= Seq::<(Seq<u8>, Seq<u8>)>::empty());
        assert(flatten_enc(s.take(i + 1)) =~= flatten_enc(s.take(i)) + s[i].0 + s[i].1);
    } else {
        lemma_flatten_snoc(s.drop_first(), i - 1);
        assert(s.take(i + 1).drop_first() =~= s.drop_first().take(i));
        assert(s.take(i).drop_first() =~= s.drop_first().take(i - 1));
        assert(s.take(i + 1)[0] == s[0]);
        assert(s.take(i)[0] == s[0]);
        assert(s.drop_first()[i - 1] == s[i]);
        assert(flatten_enc(s.take(i + 1)) =~= flatten_enc(s.take(i)) + s[i].0 + s[i].1);
    }
}

/// Compares two byte buffers in lexicographic order.
pub fn lex_lt_bytes(a: &Vec<u8>, b: &Vec<u8>) -> (r: bool)
    ensures
        r == lex_lt(a@, b@),
{
    let an = a.len();
    let bn = b.len();
    let mut i: usize = 0;
    proof {
        assert(a@.skip(0) =~= a@);
        assert(b@.skip(0) =~= b@);
    }
    loop
        invariant
            i <= an,
            i <= bn,
            an == a@.len(),
            bn == b@.len(),
            lex_lt(a@, b@) == lex_lt(a@.skip(i as int), b@.skip(i as int)),
        decreases an - i,
    {
        if i == bn {
            proof {
                assert(b@.skip(i as int) =~= Seq::<u8>::empty());
            }
            return false;
        }
        if i == an {
            proof {
                assert(a@.skip(i as int) =~= Seq::<u8>::empty());
                assert(b@.skip(i as int).len() > 0);
            }
            return true;
        }
        let x = a[i];
        let y = b[i];
        proof {
            assert(a@.skip(i as int)[0] == a@[i as int]);
            assert(b@.skip(i as int)[0] == b@[i as int]);
        }
        if x < y {
            return true;
        }
        if x > y {
            return false;
        }
        proof {
            assert(a@.skip(i as int).drop_first() =~= a@.skip(i + 1));
            assert(b@.skip(i as int).drop_first() =~= b@.skip(i + 1));
        }
        i = i + 1;
    }
}

/// Inserting a pair whose key does not come before the first `idx` keys
/// but comes before the key at `idx` lands it exactly at `idx`.
pub proof fn lemma_insert_enc_at(p: (Seq<u8>, Seq<u8>), s: Seq<(Seq<u8>, Seq<u8>)>, idx: int)
    requires
        0 <= idx <= s.len(),
        forall|k: int| 0 <= k < idx ==> !lex_lt(p.0, (#[trigger] s[k]).0),
        idx < s.len() ==> lex_lt(p.0, s[idx].0),
    ensures
        insert_enc(p, s) == s.take(idx) + seq![p] + s.skip(idx),
    decreases s,
{
    if s.len() == 0 {
        assert(insert_enc(p, s) =~= s.take(0) + seq![p] + s.skip(0));
    } else if lex_lt(p.0, s[0].0) {
        assert(idx == 0);
        assert(s.take(0) =~= Seq::<(Seq<u8>, Seq<u8>)>::empty());
        assert(s.skip(0) =~= s);
        assert(insert_enc(p, s) =~= s.take(0) + seq![p] + s.skip(0));
    } else {
        assert(idx > 0);
        assert forall|k: int| 0 <= k < idx - 1 implies !lex_lt(
            p.0,
            (#[trigger] s.drop_first()[k]).0,
        ) by {
            assert(s.drop_first()[k] == s[k + 1]);
        }
        assert(idx - 1 < s.drop_first().len() ==> lex_lt(p.0, s.drop_first()[idx - 1].0)) by {
            if idx - 1 < s.drop_first().len() {
                assert(s.drop_first()[idx - 1] == s[idx]);
            }
        }
        lemma_insert_enc_at(p, s.drop_first(), idx - 1);
        assert(s.drop_first().take(idx - 1) =~= s.take(idx).drop_first());
        assert(s.drop_first().skip(idx - 1) =~= s.skip(idx));
        assert(insert_enc(p, s) =~= s.take(idx) + seq![p] + s.skip(idx));
    }
}

/// Finds where a key belongs in a run of encoded pairs sorted by key
/// bytes: past every key it does not precede.
fn find_insert_idx(sorted: &Vec<(Vec<u8>, Vec<u8>)>, key: &Vec<u8>) -> (idx: usize)
    ensures
        idx <= sorted@.len(),
        forall|k: int| 0 <= k < idx ==> !lex_lt(key@, (#[trigger] sorted@[k]).0@),
        idx < sorted@.len() ==> lex_lt(key@, sorted@[idx as int].0@),
{
    let n = sorted.len();
    let mut idx: usize = 0;
    while idx < n
        invariant
            idx <= n,
            n == sorted@.len(),
            forall|k: int| 0 <= k < idx ==> !lex_lt(key@, (#[trigger] sorted@[k]).0@),
        decreases n - idx,
    {
        if lex_lt_bytes(key, &sorted[idx].0) {
            return idx;
        }
        idx = idx + 1;
    }
    idx
}

/// Appends the canonical encoding of a map key to a buffer.
pub fn encode_key(k: &ObjectKey, out: &mut Vec<u8>)
    ensures
        final(out)@ == old(out)@ + key_enc(*k),
{
    match k {
        ObjectKey::Integer(i) => {
            if *i >= 0 {
                crate::major_type::push_head_raw(out, 0, MinorType::size64(*i as u64));
            } else {
                crate::major_type::push_head_raw(out, 1, MinorType::size64((-(*i + 1)) as u64));
            }
        }
        ObjectKey::Bytes(b) => {
            crate::major_type::push_head_raw(out, 2, MinorType::size(b.len()));
            out.extend_from_slice(b.as_slice());
            assert(out@ =~= old(out)@ + key_enc(*k));
        }
        ObjectKey::String(s) => {
            let bs = s.as_str().as_bytes_vec();
            crate::major_type::push_head_raw(out, 3, MinorType::size(bs.len()));
            out.extend_from_slice(bs.as_slice());
            assert(out@ =~= old(out)@ + key_enc(*k));
        }
        ObjectKey::Bool(t) => {
            if *t {
                out.push(0xf5);
            } else {
                out.push(0xf4);
            }
            assert(out@ =~= old(out)@ + key_enc(*k));
        }
        ObjectKey::Null => {
            out.push(0xf6);
            assert(out@ =~= old(out)@ + key_enc(*k));
        }
    }
}

/// Appends the encodings of a run of array elements to a buffer.
fn encode_value_items(els: &Vec<Value>, out: &mut Vec<u8>)
    ensures
        final(out)@ == old(out)@ + value_items_enc(els@),
    decreases *els,
{
    let ghost base = out@;
    assert(value_items_enc(els@.take(0)) =~= Seq::<u8>::empty());
    for i in 0..els.len()
        invariant
            out@ == base + value_items_enc(els@.take(i as int)),
    {
        proof {
            assert(decreases_to!(*els => els@));
            assert(decreases_to!(els@ => els@[i as int]));
        }
        encode_value(&els[i], out);
        proof {
            lemma_value_items_snoc(els@, i as int);
            assert(out@ =~= base + value_items_enc(els@.take(i + 1)));
        }
    }
    assert(els@.take(els@.len() as int) =~= els@);
}

/// Encodes each pair of a map into its own key and value buffers, in
/// the order given.
fn encode_pair_buffers(ps: &Vec<(ObjectKey, Value)>) -> (encs: Vec<(Vec<u8>, Vec<u8>)>)
    ensures
        encs@.len() == ps@.len(),
        forall|k: int|
            0 <= k < ps@.len() ==> (#[trigger] encs@[k]).0@ == pairs_enc(ps@)[k].0 && encs@[k].1@
                == pairs_enc(ps@)[k].1,
    decreases *ps,
{
    let mut encs: Vec<(Vec<u8>, Vec<u8>)> = Vec::new();
    for i in 0..ps.len()
        invariant
            encs@.len() == i,
            forall|k: int|
                0 <= k < i ==> (#[trigger] encs@[k]).0@ == pairs_enc(ps@)[k].0 && encs@[k].1@
                    == pairs_enc(ps@)[k].1,
    {
        let mut kb: Vec<u8> = Vec::new();
        encode_key(&ps[i].0, &mut kb);
        let mut vb: Vec<u8> = Vec::new();
        proof {
            assert(decreases_to!(*ps => ps@));
            assert(decreases_to!(ps@ => ps@[i as int]));
        }
        encode_value(&ps[i].1, &mut vb);
        proof {
            lemma_pairs_enc_snoc(ps@, i as int);
            lemma_pairs_enc_len(ps@);
            lemma_pairs_enc_prefix(ps@, i as int);
            assert(pairs_enc(ps@.take(i + 1))[i as int] == (
                key_enc(ps@[i as int].0),
                value_enc(ps@[i as int].1),
            )) by {
                lemma_pairs_enc_len(ps@.take(i as int));
            }
            assert(pairs_enc(ps@)[i as int] == (
                key_enc(ps@[i as int].0),
                value_enc(ps@[i as int].1),
            ));
        }
        encs.push((kb, vb));
    }
    encs
}

/// Appends the canonical encoding of a value to a buffer: shortest
/// integer heads, definite lengths, map pairs sorted by the byte order
/// of their encoded keys.
pub fn encode_value(v: &Value, out: &mut Vec<u8>)
    ensures
        final(out)@ == old(out)@ + value_enc(*v),
    decreases *v,
{
    match v {
        Value::U64(n) => {
            crate::major_type::push_head_raw(out, 0, MinorType::size64(*n));
        }
        Value::I64(i) => {
            if *i >= 0 {
                crate::major_type::push_head_raw(out, 0, MinorType::size64(*i as u64));
            } else {
                crate::major_type::push_head_raw(out, 1, MinorType::size64((-(*i + 1)) as u64));
            }
        }
        Value::Bytes(b) => {
            crate::major_type::push_head_raw(out, 2, MinorType::size(b.len()));
            out.extend_from_slice(b.as_slice());
            assert(out@ =~= old(out)@ + value_enc(*v));
        }
        Value::String(s) => {
            let bs = s.as_str().as_bytes_vec();
            crate::major_type::push_head_raw(out, 3, MinorType::size(bs.len()));
            out.extend_from_slice(bs.as_slice());
            assert(out@ =~= old(out)@ + value_enc(*v));
        }
        Value::Array(els) => {
            crate::major_type::push_head_raw(out, 4, MinorType::size(els.len()));
            proof {
                assert(decreases_to!(*v => *els));
            }
            encode_value_items(els, out);
            assert(out@ =~= old(out)@ + value_enc(*v));
        }
        Value::Object(ps) => {
            crate::major_type::push_head_raw(out, 5, MinorType::size(ps.len()));
            let ghost base = out@;
            proof {
                assert(decreases_to!(*v => *ps));
            }
            let encs = encode_pair_buffers(ps);
            let n = encs.len();
            let mut sorted: Vec<(Vec<u8>, Vec<u8>)> = Vec::new();
            let ghost pe = pairs_enc(ps@);
            proof {
                lemma_pairs_enc_len(ps@);
                assert(sort_enc(pe.take(0)) =~= Seq::<(Seq<u8>, Seq<u8>)>::empty());
            }
            for i in 0..n
                invariant
                    n == encs@.len(),
                    n == pe.len(),
                    forall|k: int|
                        0 <= k < n ==> (#[trigger] encs@[k]).0@ == pe[k].0 && encs@[k].1@
                            == pe[k].1,
                    sorted@.len() == i,
                    forall|k: int|
                        0 <= k < i ==> (#[trigger] sorted@[k]).0@ == sort_enc(
                            pe.take(i as int),
                        )[k].0 && sorted@[k].1@ == sort_enc(pe.take(i as int))[k].1,
                    sorted_keys(sort_enc(pe.take(i as int))),
            {
                let ghost prev = sort_enc(pe.take(i as int));
                proof {
                    lemma_sort_enc_sorted(pe.take(i as int));
                    assert(prev.len() == i);
                    assert((#[trigger] encs@[i as int]).0@ == pe[i as int].0);
                }
                let idx = find_insert_idx(&sorted, &encs[i].0);
                proof {
                    assert forall|k: int| 0 <= k < idx implies !lex_lt(
                        pe[i as int].0,
                        (#[trigger] prev[k]).0,
                    ) by {
                        assert(!lex_lt(encs@[i as int].0@, sorted@[k].0@));
                        assert(sorted@[k].0@ == prev[k].0);
                    }
                    assert(idx < prev.len() ==> lex_lt(pe[i as int].0, prev[idx as int].0));
                    lemma_insert_enc_at(pe[i as int], prev, idx as int);
                    assert(pe.take(i + 1).drop_last() =~= pe.take(i as int));
                    assert(pe.take(i + 1).last() == pe[i as int]);
                    assert(sort_enc(pe.take(i + 1)) == insert_enc(pe[i as int], prev));
                    lemma_sort_enc_sorted(pe.take(i + 1));
                }
                let kb = slice_to_vec(encs[i].0.as_slice());
                let vb = slice_to_vec(encs[i].1.as_slice());
                sorted.insert(idx, (kb, vb));
                proof {
                    let cur = sort_enc(pe.take(i + 1));
                    assert(cur =~= prev.take(idx as int) + seq![pe[i as int]] + prev.skip(
                        idx as int,
                    ));
                    assert forall|k: int| 0 <= k < sorted@.len() implies (#[trigger] sorted@[k]).0@
                        == cur[k].0 && sorted@[k].1@ == cur[k].1 by {
                        if k < idx {
                            assert(cur[k] == prev[k]);
                        } else if k == idx {
                            assert(cur[k] == pe[i as int]);
                        } else {
                            assert(cur[k] == prev[k - 1]);
                        }
                    }
                }
            }
            proof {
                assert(pe.take(pe.len() as int) =~= pe);
                lemma_sort_enc_sorted(pe);
            }
            let ghost fin = sort_enc(pe);
            proof {
                assert(fin.len() == n);
                assert(flatten_enc(fin.take(0)) =~= Seq::<u8>::empty());
            }
            for i in 0..n
                invariant
                    n == sorted@.len(),
                    n == fin.len(),
                    forall|k: int|
                        0 <= k < n ==> (#[trigger] sorted@[k]).0@ == fin[k].0 && sorted@[k].1@
                            == fin[k].1,
                    out@ == base + flatten_enc(fin.take(i as int)),
            {
                out.extend_from_slice(sorted[i].0.as_slice());
                out.extend_from_slice(sorted[i].1.as_slice());
                proof {
                    lemma_flatten_snoc(fin, i as int);
                    assert(out@ =~= base + flatten_enc(fin.take(i + 1)));
                }
            }
            proof {
                assert(fin.take(fin.len() as int) =~= fin);
                lemma_sort_enc_sorted(pe);
                assert(out@ =~= old(out)@ + value_enc(*v));
            }
        }
        Value::F64(bits) => {
            crate::major_type::push_head_raw(out, 7, MinorType::EightBytes(*bits));
            assert(out@ =~= old(out)@ + value_enc(*v));
        }
        Value::Bool(t) => {
            if *t {
                out.push(0xf5);
            } else {
                out.push(0xf4);
            }
            assert(out@ =~= old(out)@ + value_enc(*v));
        }
        Value::Null => {
            out.push(0xf6);
            assert(out@ =~= old(out)@ + value_enc(*v));
        }
    }
}

/// Growing the run of pairs by one keeps the earlier encoded pairs in
/// place.
pub proof fn lemma_pairs_enc_prefix(ps: Seq<(ObjectKey, Value)>, i: int)
    requires
        0 <= i < ps.len(),
    ensures
        forall|k: int|
            0 <= k <= i ==> #[trigger] pairs_enc(ps)[k] == pairs_enc(ps.take(i + 1))[k],
    decreases ps.len() - i,
{
    if i + 1 == ps.len() {
        assert(ps.take(i + 1) =~= ps);
    } else {
        lemma_pairs_enc_prefix(ps, i + 1);
        lemma_pairs_enc_snoc(ps, i + 1);
        lemma_pairs_enc_len(ps.take(i + 1));
        assert forall|k: int| 0 <= k <= i implies #[trigger] pairs_enc(ps)[k] == pairs_enc(
            ps.take(i + 1),
        )[k] by {
            assert(pairs_enc(ps)[k] == pairs_enc(ps.take(i + 2))[k]);
            assert(pairs_enc(ps.take(i + 2)) == pairs_enc(ps.take(i + 1)) + seq![
                (key_enc(ps[i + 1].0), value_enc(ps[i + 1].1)),
            ]);
        }
    }
}

/// The canonical bytes of a value, as a fresh buffer.
pub fn to_vec(value: &Value) -> (r: Vec<u8>)
    ensures
        r@ == value_enc(*value),
{
    let mut out: Vec<u8> = Vec::new();
    encode_value(value, &mut out);
    out
}

/// The canonical bytes of a value, preceded by the self-describe tag
/// 55799 that marks a document as CBOR.
pub fn to_vec_sd(value: &Value) -> (r: Vec<u8>)
    ensures
        r@ == seq![0xd9u8, 0xd9u8, 0xf7u8] + value_enc(*value),
{
    let mut out: Vec<u8> = Vec::new();
    out.push(0xd9);
    out.push(0xd9);
    out.push(0xf7);
    encode_value(value, &mut out);
    proof {
        assert(out@ =~= seq![0xd9u8, 0xd9u8, 0xf7u8] + value_enc(*value));
    }
    out
}


/// What a decoded key says about the wire item it came from.
pub open spec fn key_models(k: ObjectKey, w: OwnedValue) -> bool {
    match w {
        OwnedValue::Unsigned(m) => k matches ObjectKey::Integer(i) && i >= 0 && i as u64
            == minor_value(m),
        OwnedValue::Negative(m) => k matches ObjectKey::Integer(i) && i < 0 && -1 - i as int
            == minor_value(m) as int,
        OwnedValue::Bytes(_, c) => k matches ObjectKey::Bytes(b) && b@ == c@,
        OwnedValue::IndefiniteBytes(cs) => k matches ObjectKey::Bytes(b) && b@ == chunks_payload(
            cs@,
        ),
        OwnedValue::Text(_, c) => k matches ObjectKey::String(s) && encode_utf8(s@) == c@,
        OwnedValue::IndefiniteText(cs) => k matches ObjectKey::String(s) && encode_utf8(s@)
            == chunks_payload(cs@),
        OwnedValue::True => k == ObjectKey::Bool(true),
        OwnedValue::False => k == ObjectKey::Bool(false),
        OwnedValue::Null => k == ObjectKey::Null,
        OwnedValue::Undefined => k == ObjectKey::Null,
        _ => false,
    }
}

/// What a decoded value says about the wire item it came from: integers
/// keep their value, strings their bytes, containers their children in
/// order, floats widen to double-precision bits, and tags fall away.
pub open spec fn value_models(v: Value, w: OwnedValue) -> bool
    decreases w,
{
    match w {
        OwnedValue::Unsigned(m) => v matches Value::U64(n) && n == minor_value(m),
        OwnedValue::Negative(m) => v matches Value::I64(i) && i < 0 && -1 - i as int
            == minor_value(m) as int,
        OwnedValue::Bytes(_, c) => v matches Value::Bytes(b) && b@ == c@,
        OwnedValue::IndefiniteBytes(cs) => v matches Value::Bytes(b) && b@ == chunks_payload(cs@),
        OwnedValue::Text(_, c) => v matches Value::String(s) && encode_utf8(s@) == c@,
        OwnedValue::IndefiniteText(cs) => v matches Value::String(s) && encode_utf8(s@)
            == chunks_payload(cs@),
        OwnedValue::Array(_, els) => v matches Value::Array(vs) && values_model(vs@, els@),
        OwnedValue::IndefiniteArray(els) => v matches Value::Array(vs) && values_model(vs@, els@),
        OwnedValue::Mapping(_, ps) => v matches Value::Object(qs) && object_models(qs@, ps@),
        OwnedValue::IndefiniteMapping(ps) => v matches Value::Object(qs) && object_models(
            qs@,
            ps@,
        ),
        OwnedValue::Tag(_, inner) => value_models(v, *inner),
        OwnedValue::False => v == Value::Bool(false),
        OwnedValue::True => v == Value::Bool(true),
        OwnedValue::Null => v == Value::Null,
        OwnedValue::Undefined => v == Value::Null,
        OwnedValue::HalfFloat(h) => v matches Value::F64(bits) && bits
            == crate::floats::half_to_double_bits(h),
        OwnedValue::SingleFloat(x) => v matches Value::F64(bits) && bits
            == crate::floats::single_to_double_bits(x),
        OwnedValue::DoubleFloat(x) => v == Value::F64(x),
        OwnedValue::Simple(_) => false,
    }
}

/// Element-wise modelling of a run of array elements.
pub open spec fn values_model(vs: Seq<Value>, ws: Seq<OwnedValue>) -> bool
    decreases ws,
{
    if vs.len() != ws.len() {
        false
    } else if ws.len() == 0 {
        true
    } else {
        value_models(vs[0], ws[0]) && values_model(vs.drop_first(), ws.drop_first())
    }
}

/// Pair-wise modelling of a run of map pairs, keys and values alike.
pub open spec fn object_models(qs: Seq<(ObjectKey, Value)>, ps: Seq<(OwnedValue, OwnedValue)>)
    -> bool
    decreases ps,
{
    if qs.len() != ps.len() {
        false
    } else if ps.len() == 0 {
        true
    } else {
        key_models(qs[0].0, ps[0].0) && value_models(qs[0].1, ps[0].1) && object_models(
            qs.drop_first(),
            ps.drop_first(),
        )
    }
}

/// Whether a wire item can land in a key: integers within the 64-bit
/// signed range, strings, booleans, and null.
pub open spec fn key_convertible(w: OwnedValue) -> bool {
    match w {
        OwnedValue::Unsigned(m) => minor_value(m) < 0x8000000000000000,
        OwnedValue::Negative(m) => minor_value(m) < 0x8000000000000000,
        OwnedValue::Bytes(_, _) => true,
        OwnedValue::IndefiniteBytes(_) => true,
        OwnedValue::Text(_, c) => valid_utf8(c@),
        OwnedValue::IndefiniteText(cs) => valid_utf8(chunks_payload(cs@)),
        OwnedValue::True => true,
        OwnedValue::False => true,
        OwnedValue::Null => true,
        OwnedValue::Undefined => true,
        _ => false,
    }
}

/// Whether a wire item can land in a dynamic value: negative integers
/// within the 64-bit signed range, text that is valid UTF-8 all the way
/// down, map keys of key shape, and no unassigned simple values.
pub open spec fn convertible(w: OwnedValue) -> bool
    decreases w,
{
    match w {
        OwnedValue::Unsigned(_) => true,
        OwnedValue::Negative(m) => minor_value(m) < 0x8000000000000000,
        OwnedValue::Bytes(_, _) => true,
        OwnedValue::IndefiniteBytes(_) => true,
        OwnedValue::Text(_, c) => valid_utf8(c@),
        OwnedValue::IndefiniteText(cs) => valid_utf8(chunks_payload(cs@)),
        OwnedValue::Array(_, els) => items_convertible(els@),
        OwnedValue::IndefiniteArray(els) => items_convertible(els@),
        OwnedValue::Mapping(_, ps) => pairs_convertible(ps@),
        OwnedValue::IndefiniteMapping(ps) => pairs_convertible(ps@),
        OwnedValue::Tag(_, inner) => convertible(*inner),
        OwnedValue::False => true,
        OwnedValue::True => true,
        OwnedValue::Null => true,
        OwnedValue::Undefined => true,
        OwnedValue::HalfFloat(_) => true,
        OwnedValue::SingleFloat(_) => true,
        OwnedValue::DoubleFloat(_) => true,
        OwnedValue::Simple(_) => false,
    }
}

/// Every element of a run can land in a dynamic value.
pub open spec fn items_convertible(ws: Seq<OwnedValue>) -> bool
    decreases ws,
{
    if ws.len() == 0 {
        true
    } else {
        convertible(ws[0]) && items_convertible(ws.drop_first())
    }
}

/// Every key has key shape and every value can land in a dynamic value.
pub open spec fn pairs_convertible(ps: Seq<(OwnedValue, OwnedValue)>) -> bool
    decreases ps,
{
    if ps.len() == 0 {
        true
    } else {
        key_convertible(ps[0].0) && convertible(ps[0].1) && pairs_convertible(ps.drop_first())
    }
}

/// Items with the same content are equally convertible.
pub proof fn lemma_same_item_convertible(a: OwnedValue, b: OwnedValue)
    requires
        crate::parse::same_item(a, b),
    ensures
        convertible(a) == convertible(b),
        key_convertible(a) == key_convertible(b),
    decreases a,
{
    match (a, b) {
        (OwnedValue::Array(m1, e1), OwnedValue::Array(m2, e2)) => {
            lemma_same_items_convertible(e1@, e2@);
        }
        (OwnedValue::IndefiniteArray(e1), OwnedValue::IndefiniteArray(e2)) => {
            lemma_same_items_convertible(e1@, e2@);
        }
        (OwnedValue::Mapping(m1, p1), OwnedValue::Mapping(m2, p2)) => {
            lemma_same_pairs_convertible(p1@, p2@);
        }
        (OwnedValue::IndefiniteMapping(p1), OwnedValue::IndefiniteMapping(p2)) => {
            lemma_same_pairs_convertible(p1@, p2@);
        }
        (OwnedValue::IndefiniteBytes(c1), OwnedValue::IndefiniteBytes(c2)) => {
            crate::parse::lemma_same_chunks_payload(c1@, c2@);
        }
        (OwnedValue::IndefiniteText(c1), OwnedValue::IndefiniteText(c2)) => {
            crate::parse::lemma_same_chunks_payload(c1@, c2@);
        }
        (OwnedValue::Tag(m1, i1), OwnedValue::Tag(m2, i2)) => {
            lemma_same_item_convertible(*i1, *i2);
        }
        _ => {}
    }
}

/// Runs of items with the same content are equally convertible.
pub proof fn lemma_same_items_convertible(x: Seq<OwnedValue>, y: Seq<OwnedValue>)
    requires
        crate::parse::same_items(x, y),
    ensures
        items_convertible(x) == items_convertible(y),
    decreases x,
{
    if x.len() > 0 {
        lemma_same_item_convertible(x[0], y[0]);
        lemma_same_items_convertible(x.drop_first(), y.drop_first());
    }
}

/// Runs of pairs with the same content are equally convertible.
pub proof fn lemma_same_pairs_convertible(
    x: Seq<(OwnedValue, OwnedValue)>,
    y: Seq<(OwnedValue, OwnedValue)>,
)
    requires
        crate::parse::same_pairs(x, y),
    ensures
        pairs_convertible(x) == pairs_convertible(y),
    decreases x,
{
    if x.len() > 0 {
        lemma_same_item_convertible(x[0].0, y[0].0);
        lemma_same_item_convertible(x[0].1, y[0].1);
        lemma_same_pairs_convertible(x.drop_first(), y.drop_first());
    }
}

/// Items with the same content are modelled by the same values.
pub proof fn lemma_same_item_value_models(a: OwnedValue, b: OwnedValue, v: Value)
    requires
        crate::parse::same_item(a, b),
    ensures
        value_models(v, a) == value_models(v, b),
    decreases a,
{
    match (a, b) {
        (OwnedValue::Array(m1, e1), OwnedValue::Array(m2, e2)) => {
            match v {
                Value::Array(vs) => {
                    lemma_same_items_values_model(e1@, e2@, vs@);
                }
                _ => {}
            }
        }
        (OwnedValue::IndefiniteArray(e1), OwnedValue::IndefiniteArray(e2)) => {
            match v {
                Value::Array(vs) => {
                    lemma_same_items_values_model(e1@, e2@, vs@);
                }
                _ => {}
            }
        }
        (OwnedValue::Mapping(m1, p1), OwnedValue::Mapping(m2, p2)) => {
            match v {
                Value::Object(qs) => {
                    lemma_same_pairs_object_models(p1@, p2@, qs@);
                }
                _ => {}
            }
        }
        (OwnedValue::IndefiniteMapping(p1), OwnedValue::IndefiniteMapping(p2)) => {
            match v {
                Value::Object(qs) => {
                    lemma_same_pairs_object_models(p1@, p2@, qs@);
                }
                _ => {}
            }
        }
        (OwnedValue::IndefiniteBytes(c1), OwnedValue::IndefiniteBytes(c2)) => {
            crate::parse::lemma_same_chunks_payload(c1@, c2@);
        }
        (OwnedValue::IndefiniteText(c1), OwnedValue::IndefiniteText(c2)) => {
            crate::parse::lemma_same_chunks_payload(c1@, c2@);
        }
        (OwnedValue::Tag(m1, i1), OwnedValue::Tag(m2, i2)) => {
            lemma_same_item_value_models(*i1, *i2, v);
        }
        _ => {}
    }
}

/// Runs of items with the same content are modelled by the same runs of
/// values.
pub proof fn lemma_same_items_values_model(x: Seq<OwnedValue>, y: Seq<OwnedValue>, vs: Seq<Value>)
    requires
        crate::parse::same_items(x, y),
    ensures
        values_model(vs, x) == values_model(vs, y),
    decreases x,
{
    if x.len() > 0 && vs.len() == x.len() {
        lemma_same_item_value_models(x[0], y[0], vs[0]);
        lemma_same_items_values_model(x.drop_first(), y.drop_first(), vs.drop_first());
    }
}

/// Keys with the same content are modelled by the same decoded keys.
pub proof fn lemma_same_item_key_models(a: OwnedValue, b: OwnedValue, k: ObjectKey)
    requires
        crate::parse::same_item(a, b),
    ensures
        key_models(k, a) == key_models(k, b),
{
    match (a, b) {
        (OwnedValue::IndefiniteBytes(c1), OwnedValue::IndefiniteBytes(c2)) => {
            crate::parse::lemma_same_chunks_payload(c1@, c2@);
        }
        (OwnedValue::IndefiniteText(c1), OwnedValue::IndefiniteText(c2)) => {
            crate::parse::lemma_same_chunks_payload(c1@, c2@);
        }
        _ => {}
    }
}

/// Runs of pairs with the same content are modelled by the same decoded
/// pairs.
pub proof fn lemma_same_pairs_object_models(
    x: Seq<(OwnedValue, OwnedValue)>,
    y: Seq<(OwnedValue, OwnedValue)>,
    qs: Seq<(ObjectKey, Value)>,
)
    requires
        crate::parse::same_pairs(x, y),
    ensures
        object_models(qs, x) == object_models(qs, y),
    decreases x,
{
    if x.len() > 0 && qs.len() == x.len() {
        lemma_same_item_key_models(x[0].0, y[0].0, qs[0].0);
        lemma_same_item_value_models(x[0].1, y[0].1, qs[0].1);
        lemma_same_pairs_object_models(x.drop_first(), y.drop_first(), qs.drop_first());
    }
}

/// Relies on the standard library's UTF-8 constructor for `String`: it
/// accepts exactly valid UTF-8 and keeps the bytes as the string's
/// contents.
#[verifier::external_body]
fn string_from_utf8_bytes(v: Vec<u8>) -> (r: Option<String>)
    ensures
        r matches Some(s) ==> encode_utf8(s@) == v@,
        (r is Some) == valid_utf8(v@),
{
    match std::string::String::from_utf8(v) {
        Ok(s) => Some(s),
        Err(_) => None,
    }
}

/// Assembles the chunks of an indefinite-length string into one buffer.
fn concat_chunks(cs: &Vec<(MinorType, Vec<u8>)>) -> (r: Vec<u8>)
    ensures
        r@ == chunks_payload(cs@),
{
    let mut out: Vec<u8> = Vec::new();
    proof {
        assert(chunks_payload(cs@.take(0)) =~= Seq::<u8>::empty());
    }
    for i in 0..cs.len()
        invariant
            out@ == chunks_payload(cs@.take(i as int)),
    {
        out.extend_from_slice(cs[i].1.as_slice());
        proof {
            crate::parse::lemma_chunks_payload_snoc(cs@, i as int);
            assert(out@ =~= chunks_payload(cs@.take(i + 1)));
        }
    }
    proof {
        assert(cs@.take(cs@.len() as int) =~= cs@);
    }
    out
}

/// Converts one wire item into a map key.
fn convert_key(w: &OwnedValue) -> (r: Result<ObjectKey, Error>)
    ensures
        (r is Ok) == key_convertible(*w),
        (r matches Ok(k) ==> key_models(k, *w)),
        ((*w) matches OwnedValue::Unsigned(m) && minor_value(m) >= 0x8000000000000000 ==> r
            == Err::<ObjectKey, Error>(Error::OutOfRange)),
        ((*w) matches OwnedValue::Negative(m) && minor_value(m) >= 0x8000000000000000 ==> r
            == Err::<ObjectKey, Error>(Error::OutOfRange)),
        ((*w) matches OwnedValue::Text(m, c) && !valid_utf8(c@) ==> r == Err::<ObjectKey, Error>(
            Error::InvalidUtf8,
        )),
        ((*w) matches OwnedValue::IndefiniteText(cs) && !valid_utf8(chunks_payload(cs@)) ==> r
            == Err::<ObjectKey, Error>(Error::InvalidUtf8)),
        (!key_convertible(*w) && !((*w) matches OwnedValue::Unsigned(m2) && minor_value(m2)
            >= 0x8000000000000000) && !((*w) matches OwnedValue::Negative(m3) && minor_value(m3)
            >= 0x8000000000000000) && !((*w) matches OwnedValue::Text(m4, c2) && !valid_utf8(c2@))
            && !((*w) matches OwnedValue::IndefiniteText(cs2) && !valid_utf8(
            chunks_payload(cs2@),
        )) ==> r == Err::<ObjectKey, Error>(Error::SchemaMismatch)),
        (r matches Err(e) ==> e == Error::OutOfRange || e == Error::InvalidUtf8 || e
            == Error::SchemaMismatch),
{
    match w {
        OwnedValue::Unsigned(m) => {
            let n = m.value();
            if n < 0x8000000000000000 {
                Ok(ObjectKey::Integer(n as i64))
            } else {
                Err(Error::OutOfRange)
            }
        }
        OwnedValue::Negative(m) => {
            let n = m.value();
            if n < 0x8000000000000000 {
                Ok(ObjectKey::Integer((-1 - (n as i64)) as i64))
            } else {
                Err(Error::OutOfRange)
            }
        }
        OwnedValue::Bytes(_, c) => Ok(ObjectKey::Bytes(slice_to_vec(c.as_slice()))),
        OwnedValue::IndefiniteBytes(cs) => Ok(ObjectKey::Bytes(concat_chunks(cs))),
        OwnedValue::Text(_, c) => {
            match string_from_utf8_bytes(slice_to_vec(c.as_slice())) {
                Some(s) => Ok(ObjectKey::String(s)),
                None => Err(Error::InvalidUtf8),
            }
        }
        OwnedValue::IndefiniteText(cs) => {
            match string_from_utf8_bytes(concat_chunks(cs)) {
                Some(s) => Ok(ObjectKey::String(s)),
                None => Err(Error::InvalidUtf8),
            }
        }
        OwnedValue::True => Ok(ObjectKey::Bool(true)),
        OwnedValue::False => Ok(ObjectKey::Bool(false)),
        OwnedValue::Null => Ok(ObjectKey::Null),
        OwnedValue::Undefined => Ok(ObjectKey::Null),
        _ => Err(Error::SchemaMismatch),
    }
}

/// Converts a run of wire items into dynamic values.
pub(crate) fn convert_items(els: &Vec<OwnedValue>) -> (r: Result<Vec<Value>, Error>)
    ensures
        (r is Ok) == items_convertible(els@),
        (r matches Ok(vs) ==> values_model(vs@, els@)),
        (r matches Err(e) ==> e == Error::OutOfRange || e == Error::InvalidUtf8 || e
            == Error::SchemaMismatch),
    decreases *els,
{
    let mut out: Vec<Value> = Vec::new();
    let n = els.len();
    for i in 0..n
        invariant
            n == els@.len(),
            out@.len() == i,
            items_convertible(els@.take(i as int)),
            values_model(out@, els@.take(i as int)),
    {
        proof {
            assert(decreases_to!(*els => els@));
            assert(decreases_to!(els@ => els@[i as int]));
        }
        match convert_item(&els[i]) {
            Ok(v) => {
                let ghost prev = out@;
                let ghost vv = v;
                out.push(v);
                proof {
                    assert(out@.take(i as int) =~= prev);
                    assert(out@[i as int] == vv);
                    lemma_items_convert_snoc(els@, i as int, out@);
                }
            }
            Err(e) => {
                proof {
                    lemma_items_convertible_break(els@, i as int);
                }
                return Err(e);
            }
        }
    }
    proof {
        assert(els@.take(n as int) =~= els@);
    }
    Ok(out)
}

/// A run stays convertible, and stays modelled, when one more
/// convertible item joins it.
proof fn lemma_items_convert_snoc(els: Seq<OwnedValue>, i: int, vs: Seq<Value>)
    requires
        0 <= i < els.len(),
        items_convertible(els.take(i)),
        convertible(els[i]),
        vs.len() == i + 1,
        values_model(vs.take(i), els.take(i)),
        value_models(vs[i], els[i]),
    ensures
        items_convertible(els.take(i + 1)),
        values_model(vs, els.take(i + 1)),
    decreases i,
{
    if i == 0 {
        assert(els.take(1) =~= seq![els[0]]);
        assert(els.take(1).drop_first() =~= Seq::<OwnedValue>::empty());
        assert(vs.drop_first() =~= Seq::<Value>::empty());
        assert(els.take(1)[0] == els[0]);
        assert(items_convertible(els.take(1).drop_first()));
        assert(values_model(vs.drop_first(), els.take(1).drop_first()));
        assert(convertible(els[0]));
        assert(value_models(vs[0], els[0]));
    } else {
        assert(els.drop_first().take(i - 1) =~= els.take(i).drop_first());
        assert(els.drop_first().take(i) =~= els.take(i + 1).drop_first());
        assert(els.drop_first()[i - 1] == els[i]);
        assert(vs.drop_first().take(i - 1) =~= vs.take(i).drop_first());
        assert(vs.drop_first()[i - 1] == vs[i]);
        assert(els.take(i)[0] == els[0]);
        assert(els.take(i + 1)[0] == els[0]);
        assert(vs.take(i)[0] == vs[0]);
        assert(items_convertible(els.take(i).drop_first()));
        assert(values_model(vs.take(i).drop_first(), els.take(i).drop_first()));
        assert(value_models(vs[0], els[0]));
        lemma_items_convert_snoc(els.drop_first(), i - 1, vs.drop_first());
        assert(items_convertible(els.take(i + 1).drop_first()));
        assert(values_model(vs.drop_first(), els.take(i + 1).drop_first()));
    }
    assert(items_convertible(els.take(i + 1))) by {
        assert(els.take(i + 1).len() == i + 1);
        assert(els.take(i + 1)[0] == els[0]);
        assert(convertible(els[0]));
        assert(items_convertible(els.take(i + 1).drop_first()));
    };
    assert(values_model(vs, els.take(i + 1))) by {
        assert(vs.len() == els.take(i + 1).len());
        assert(els.take(i + 1)[0] == els[0]);
        assert(value_models(vs[0], els[0]));
        assert(values_model(vs.drop_first(), els.take(i + 1).drop_first()));
    };
}

/// A run with an unconvertible item is not convertible.
proof fn lemma_items_convertible_break(els: Seq<OwnedValue>, i: int)
    requires
        0 <= i < els.len(),
        !convertible(els[i]),
    ensures
        !items_convertible(els),
    decreases i,
{
    if i > 0 {
        assert(els.drop_first()[i - 1] == els[i]);
        lemma_items_convertible_break(els.drop_first(), i - 1);
    }
}

/// Converts a run of wire pairs into keys and values.
fn convert_pairs(ps: &Vec<(OwnedValue, OwnedValue)>) -> (r: Result<
    Vec<(ObjectKey, Value)>,
    Error,
>)
    ensures
        (r is Ok) == pairs_convertible(ps@),
        (r matches Ok(qs) ==> object_models(qs@, ps@)),
        (r matches Err(e) ==> e == Error::OutOfRange || e == Error::InvalidUtf8 || e
            == Error::SchemaMismatch),
    decreases *ps,
{
    let mut out: Vec<(ObjectKey, Value)> = Vec::new();
    let n = ps.len();
    for i in 0..n
        invariant
            n == ps@.len(),
            out@.len() == i,
            pairs_convertible(ps@.take(i as int)),
            object_models(out@, ps@.take(i as int)),
    {
        proof {
            assert(decreases_to!(*ps => ps@));
            assert(decreases_to!(ps@ => ps@[i as int]));
        }
        let k = match convert_key(&ps[i].0) {
            Ok(k) => k,
            Err(e) => {
                proof {
                    lemma_pairs_convertible_break(ps@, i as int);
                }
                return Err(e);
            }
        };
        match convert_item(&ps[i].1) {
            Ok(v) => {
                let ghost prev = out@;
                let ghost kk = k;
                let ghost vv = v;
                out.push((k, v));
                proof {
                    assert(out@.take(i as int) =~= prev);
                    assert(out@[i as int] == (kk, vv));
                    lemma_pairs_convert_snoc(ps@, i as int, out@);
                }
            }
            Err(e) => {
                proof {
                    lemma_pairs_convertible_break(ps@, i as int);
                }
                return Err(e);
            }
        }
    }
    proof {
        assert(ps@.take(n as int) =~= ps@);
    }
    Ok(out)
}

/// A run of pairs stays convertible, and stays modelled, when one more
/// convertible pair joins it.
proof fn lemma_pairs_convert_snoc(
    ps: Seq<(OwnedValue, OwnedValue)>,
    i: int,
    qs: Seq<(ObjectKey, Value)>,
)
    requires
        0 <= i < ps.len(),
        pairs_convertible(ps.take(i)),
        key_convertible(ps[i].0),
        convertible(ps[i].1),
        qs.len() == i + 1,
        object_models(qs.take(i), ps.take(i)),
        key_models(qs[i].0, ps[i].0),
        value_models(qs[i].1, ps[i].1),
    ensures
        pairs_convertible(ps.take(i + 1)),
        object_models(qs, ps.take(i + 1)),
    decreases i,
{
    if i == 0 {
        assert(ps.take(1) =~= seq![ps[0]]);
        assert(ps.take(1).drop_first() =~= Seq::<(OwnedValue, OwnedValue)>::empty());
        assert(qs.drop_first() =~= Seq::<(ObjectKey, Value)>::empty());
        assert(ps.take(1)[0] == ps[0]);
        assert(pairs_convertible(ps.take(1).drop_first()));
        assert(object_models(qs.drop_first(), ps.take(1).drop_first()));
        assert(key_convertible(ps[0].0) && convertible(ps[0].1));
        assert(key_models(qs[0].0, ps[0].0) && value_models(qs[0].1, ps[0].1));
    } else {
        assert(ps.drop_first().take(i - 1) =~= ps.take(i).drop_first());
        assert(ps.drop_first().take(i) =~= ps.take(i + 1).drop_first());
        assert(ps.drop_first()[i - 1] == ps[i]);
        assert(qs.drop_first().take(i - 1) =~= qs.take(i).drop_first());
        assert(qs.drop_first()[i - 1] == qs[i]);
        assert(ps.take(i)[0] == ps[0]);
        assert(ps.take(i + 1)[0] == ps[0]);
        assert(qs.take(i)[0] == qs[0]);
        assert(pairs_convertible(ps.take(i).drop_first()));
        assert(object_models(qs.take(i).drop_first(), ps.take(i).drop_first()));
        assert(key_models(qs[0].0, ps[0].0));
        assert(value_models(qs[0].1, ps[0].1));
        lemma_pairs_convert_snoc(ps.drop_first(), i - 1, qs.drop_first());
        assert(pairs_convertible(ps.take(i + 1).drop_first()));
        assert(object_models(qs.drop_first(), ps.take(i + 1).drop_first()));
    }
    assert(pairs_convertible(ps.take(i + 1))) by {
        assert(ps.take(i + 1).len() == i + 1);
        assert(ps.take(i + 1)[0] == ps[0]);
        assert(key_convertible(ps[0].0) && convertible(ps[0].1));
        assert(pairs_convertible(ps.take(i + 1).drop_first()));
    };
    assert(object_models(qs, ps.take(i + 1))) by {
        assert(qs.len() == ps.take(i + 1).len());
        assert(ps.take(i + 1)[0] == ps[0]);
        assert(key_models(qs[0].0, ps[0].0) && value_models(qs[0].1, ps[0].1));
        assert(object_models(qs.drop_first(), ps.take(i + 1).drop_first()));
    };
}

/// A run of pairs with an unconvertible key or value is not convertible.
proof fn lemma_pairs_convertible_break(ps: Seq<(OwnedValue, OwnedValue)>, i: int)
    requires
        0 <= i < ps.len(),
        !key_convertible(ps[i].0) || !convertible(ps[i].1),
    ensures
        !pairs_convertible(ps),
    decreases i,
{
    if i > 0 {
        assert(ps.drop_first()[i - 1] == ps[i]);
        lemma_pairs_convertible_break(ps.drop_first(), i - 1);
    }
}

/// Converts one wire item into a dynamic value. Tags fall away,
/// `undefined` lands as null, and both float widths widen to
/// double-precision bits.
pub fn convert_item(w: &OwnedValue) -> (r: Result<Value, Error>)
    ensures
        (r is Ok) == convertible(*w),
        (r matches Ok(v) ==> value_models(v, *w)),
        ((*w) matches OwnedValue::Negative(m) && minor_value(m) >= 0x8000000000000000 ==> r
            == Err::<Value, Error>(Error::OutOfRange)),
        ((*w) matches OwnedValue::Text(m, c) && !valid_utf8(c@) ==> r == Err::<Value, Error>(
            Error::InvalidUtf8,
        )),
        ((*w) matches OwnedValue::IndefiniteText(cs) && !valid_utf8(chunks_payload(cs@)) ==> r
            == Err::<Value, Error>(Error::InvalidUtf8)),
        ((*w) is Simple ==> r == Err::<Value, Error>(Error::SchemaMismatch)),
        (r matches Err(e) ==> e == Error::OutOfRange || e == Error::InvalidUtf8 || e
            == Error::SchemaMismatch),
    decreases *w,
{
    match w {
        OwnedValue::Unsigned(m) => Ok(Value::U64(m.value())),
        OwnedValue::Negative(m) => {
            let n = m.value();
            if n < 0x8000000000000000 {
                Ok(Value::I64((-1 - (n as i64)) as i64))
            } else {
                Err(Error::OutOfRange)
            }
        }
        OwnedValue::Bytes(_, c) => Ok(Value::Bytes(slice_to_vec(c.as_slice()))),
        OwnedValue::IndefiniteBytes(cs) => Ok(Value::Bytes(concat_chunks(cs))),
        OwnedValue::Text(_, c) => {
            match string_from_utf8_bytes(slice_to_vec(c.as_slice())) {
                Some(s) => Ok(Value::String(s)),
                None => Err(Error::InvalidUtf8),
            }
        }
        OwnedValue::IndefiniteText(cs) => {
            match string_from_utf8_bytes(concat_chunks(cs)) {
                Some(s) => Ok(Value::String(s)),
                None => Err(Error::InvalidUtf8),
            }
        }
        OwnedValue::Array(_, els) => {
            proof {
                assert(decreases_to!(*w => *els));
            }
            match convert_items(els) {
                Ok(vs) => Ok(Value::Array(vs)),
                Err(e) => Err(e),
            }
        }
        OwnedValue::IndefiniteArray(els) => {
            proof {
                assert(decreases_to!(*w => *els));
            }
            match convert_items(els) {
                Ok(vs) => Ok(Value::Array(vs)),
                Err(e) => Err(e),
            }
        }
        OwnedValue::Mapping(_, ps) => {
            proof {
                assert(decreases_to!(*w => *ps));
            }
            match convert_pairs(ps) {
                Ok(qs) => Ok(Value::Object(qs)),
                Err(e) => Err(e),
            }
        }
        OwnedValue::IndefiniteMapping(ps) => {
            proof {
                assert(decreases_to!(*w => *ps));
            }
            match convert_pairs(ps) {
                Ok(qs) => Ok(Value::Object(qs)),
                Err(e) => Err(e),
            }
        }
        OwnedValue::Tag(_, inner) => convert_item(inner),
        OwnedValue::False => Ok(Value::Bool(false)),
        OwnedValue::True => Ok(Value::Bool(true)),
        OwnedValue::Null => Ok(Value::Null),
        OwnedValue::Undefined => Ok(Value::Null),
        OwnedValue::HalfFloat(h) => Ok(Value::F64(crate::floats::half_bits_to_double_bits(*h))),
        OwnedValue::SingleFloat(x) => Ok(
            Value::F64(crate::floats::single_bits_to_double_bits(*x)),
        ),
        OwnedValue::DoubleFloat(x) => Ok(Value::F64(*x)),
        OwnedValue::Simple(_) => Err(Error::SchemaMismatch),
    }
}

/// Decodes one dynamic value from a complete buffer. Wherever a whole,
/// well-formed, convertible item fills the buffer exactly, decoding
/// succeeds and the result is that item's value; bytes beyond a single
/// item are trailing bytes.
pub fn from_slice(bytes: &[u8]) -> (r: Result<Value, Error>)
    ensures
        (r matches Ok(v) ==> exists|w: OwnedValue|
            crate::parse::match_at(bytes@, 0, w) && wire_bytes(w).len() == bytes@.len()
                && #[trigger] value_models(v, w)),
        forall|w: OwnedValue|
            (#[trigger] crate::parse::match_at(bytes@, 0, w)) && wire_bytes(w).len()
                == bytes@.len() && crate::owned::height(w)
                <= crate::parse::DEFAULT_RECURSION_LIMIT && convertible(w) ==> (r matches Ok(v)
                && value_models(v, w)),
        (crate::parse::sp_head(bytes@, 0) matches Err(e) ==> r == Err::<Value, Error>(e)),
        (crate::parse::sp_head(bytes@, 0) matches Ok((mj, m, p)) && mj == 3
            && crate::minor_type::minor_numeric(m) && p + minor_value(m) <= bytes@.len()
            && !valid_utf8(bytes@.subrange(p, p + minor_value(m))) ==> r == Err::<Value, Error>(
            Error::InvalidUtf8,
        )),
        (crate::parse::sp_head(bytes@, 0) matches Ok((mj, m, p)) && mj == 3 && (m is Indefinite)
            && (exists|cs: Seq<(MinorType, Vec<u8>)>|
            crate::parse::chunks_match_at(bytes@, p, 3, cs) && !valid_utf8(chunks_payload(cs)))
            ==> r == Err::<Value, Error>(Error::InvalidUtf8)),
        (exists|w: OwnedValue|
            (#[trigger] crate::parse::match_at(bytes@, 0, w)) && wire_bytes(w).len()
                < bytes@.len() && crate::owned::height(w)
                <= crate::parse::DEFAULT_RECURSION_LIMIT) ==> r == Err::<Value, Error>(
            Error::TrailingBytes,
        ),
        forall|w: OwnedValue|
            (#[trigger] crate::parse::match_at(bytes@, 0, w)) && crate::owned::height(w)
                > crate::parse::DEFAULT_RECURSION_LIMIT ==> r == Err::<Value, Error>(
                Error::RecursionLimit,
            ),
{
    match crate::parse::parse_item(bytes, 0, crate::parse::DEFAULT_RECURSION_LIMIT) {
        Ok((pv, n)) => {
            if n != bytes.len() {
                proof {
                    assert forall|w: OwnedValue|
                        (#[trigger] crate::parse::match_at(bytes@, 0, w)) && wire_bytes(w).len()
                            == bytes@.len() && crate::owned::height(w)
                            <= crate::parse::DEFAULT_RECURSION_LIMIT && convertible(
                            w,
                        ) implies false by {}
                }
                return Err(Error::TrailingBytes);
            }
            proof {
                if exists|w: OwnedValue|
                    (#[trigger] crate::parse::match_at(bytes@, 0, w)) && wire_bytes(w).len()
                        < bytes@.len() && crate::owned::height(w)
                        <= crate::parse::DEFAULT_RECURSION_LIMIT {
                    let w = choose|w: OwnedValue|
                        (#[trigger] crate::parse::match_at(bytes@, 0, w)) && wire_bytes(w).len()
                            < bytes@.len() && crate::owned::height(w)
                            <= crate::parse::DEFAULT_RECURSION_LIMIT;
                    assert(crate::parse::match_at(bytes@, 0, w));
                    assert(false);
                }
            }
            let r = convert_item(&pv);
            proof {
                if r is Ok {
                    assert(crate::parse::match_at(bytes@, 0, pv));
                    assert(wire_bytes(pv).len() == bytes@.len());
                }
                assert forall|w: OwnedValue|
                    (#[trigger] crate::parse::match_at(bytes@, 0, w)) && wire_bytes(w).len()
                        == bytes@.len() && crate::owned::height(w)
                        <= crate::parse::DEFAULT_RECURSION_LIMIT && convertible(w) implies (
                r matches Ok(v) && value_models(v, w)) by {
                    assert(crate::parse::same_item(pv, w));
                    lemma_same_item_convertible(pv, w);
                    match r {
                        Ok(v) => {
                            lemma_same_item_value_models(pv, w, v);
                        }
                        Err(_) => {}
                    }
                }
            }
            r
        }
        Err(e) => {
            proof {
                assert forall|w: OwnedValue|
                    (#[trigger] crate::parse::match_at(bytes@, 0, w)) && wire_bytes(w).len()
                        == bytes@.len() && crate::owned::height(w)
                        <= crate::parse::DEFAULT_RECURSION_LIMIT && convertible(
                        w,
                    ) implies false by {}
                if exists|w: OwnedValue|
                    (#[trigger] crate::parse::match_at(bytes@, 0, w)) && wire_bytes(w).len()
                        < bytes@.len() && crate::owned::height(w)
                        <= crate::parse::DEFAULT_RECURSION_LIMIT {
                    let w = choose|w: OwnedValue|
                        (#[trigger] crate::parse::match_at(bytes@, 0, w)) && wire_bytes(w).len()
                            < bytes@.len() && crate::owned::height(w)
                            <= crate::parse::DEFAULT_RECURSION_LIMIT;
                    assert(crate::parse::match_at(bytes@, 0, w));
                    assert(false);
                }
            }
            Err(e)
        }
    }
}


/// How deeply arrays and maps nest below a dynamic value.
pub open spec fn value_height(v: Value) -> nat
    decreases v,
{
    match v {
        Value::Array(els) => 1 + value_items_height(els@),
        Value::Object(ps) => 1 + value_pairs_height(ps@),
        _ => 0,
    }
}

/// The greatest height among a run of array elements.
pub open spec fn value_items_height(els: Seq<Value>) -> nat
    decreases els,
{
    if els.len() == 0 {
        0
    } else {
        let h = value_height(els[0]);
        let rest = value_items_height(els.drop_first());
        if h >= rest {
            h
        } else {
            rest
        }
    }
}

/// The greatest height among the values of a run of map pairs.
pub open spec fn value_pairs_height(ps: Seq<(ObjectKey, Value)>) -> nat
    decreases ps,
{
    if ps.len() == 0 {
        0
    } else {
        let h = value_height(ps[0].1);
        let rest = value_pairs_height(ps.drop_first());
        if h >= rest {
            h
        } else {
            rest
        }
    }
}

/// A value in the form the decoder itself produces: non-negative
/// integers carried as unsigned, and map pairs already in canonical key
/// order.
pub open spec fn canonical_value(v: Value) -> bool
    decreases v,
{
    match v {
        Value::I64(i) => i < 0,
        Value::Array(els) => canonical_items(els@),
        Value::Object(ps) => canonical_pairs(ps@) && sorted_keys(pairs_enc(ps@)),
        _ => true,
    }
}

/// Every element of a run is in decoder form.
pub open spec fn canonical_items(els: Seq<Value>) -> bool
    decreases els,
{
    if els.len() == 0 {
        true
    } else {
        canonical_value(els[0]) && canonical_items(els.drop_first())
    }
}

/// Every value of a run of pairs is in decoder form.
pub open spec fn canonical_pairs(ps: Seq<(ObjectKey, Value)>) -> bool
    decreases ps,
{
    if ps.len() == 0 {
        true
    } else {
        canonical_value(ps[0].1) && canonical_pairs(ps.drop_first())
    }
}

/// Sorting leaves a run of encoded pairs alone when its keys already
/// stand in order.
pub proof fn lemma_sort_enc_identity(es: Seq<(Seq<u8>, Seq<u8>)>)
    requires
        sorted_keys(es),
    ensures
        sort_enc(es) == es,
    decreases es,
{
    if es.len() > 0 {
        let front = es.drop_last();
        assert forall|i: int, j: int| 0 <= i < j < front.len() implies !lex_lt(
            (#[trigger] front[j]).0,
            (#[trigger] front[i]).0,
        ) by {
            assert(front[j] == es[j]);
            assert(front[i] == es[i]);
        }
        lemma_sort_enc_identity(front);
        assert forall|k: int| 0 <= k < front.len() implies !lex_lt(
            es.last().0,
            (#[trigger] front[k]).0,
        ) by {
            assert(front[k] == es[k]);
            assert(!lex_lt(es[es.len() - 1].0, es[k].0));
        }
        lemma_insert_enc_at(es.last(), front, front.len() as int);
        assert(front.take(front.len() as int) =~= front);
        assert(front.skip(front.len() as int) =~= Seq::<(Seq<u8>, Seq<u8>)>::empty());
        assert(sort_enc(es) =~= es);
    }
}

/// Wire pairs whose keys and values serialize to the entries of a run
/// of encoded pairs serialize, pair after pair, to its flattening.
pub proof fn lemma_pairs_bytes_of_encoded(
    ws: Seq<(OwnedValue, OwnedValue)>,
    es: Seq<(Seq<u8>, Seq<u8>)>,
)
    requires
        ws.len() == es.len(),
        forall|k: int|
            0 <= k < ws.len() ==> wire_bytes((#[trigger] ws[k]).0) == es[k].0 && wire_bytes(
                ws[k].1,
            ) == es[k].1,
    ensures
        crate::owned::pairs_bytes(ws) == flatten_enc(es),
    decreases ws,
{
    if ws.len() > 0 {
        assert forall|k: int|
            0 <= k < ws.drop_first().len() implies wire_bytes(
            (#[trigger] ws.drop_first()[k]).0,
        ) == es.drop_first()[k].0 && wire_bytes(ws.drop_first()[k].1) == es.drop_first()[k].1 by {
            assert(ws.drop_first()[k] == ws[k + 1]);
            assert(es.drop_first()[k] == es[k + 1]);
        }
        lemma_pairs_bytes_of_encoded(ws.drop_first(), es.drop_first());
        assert(crate::owned::pairs_bytes(ws) =~= flatten_enc(es));
    }
}


/// Pointwise facts about a run of wire elements fold into the run
/// predicates: bytes, height, convertibility and modelling all follow
/// element by element.
pub proof fn lemma_items_fold(els: Seq<Value>, ws: Seq<OwnedValue>)
    requires
        ws.len() == els.len(),
        forall|k: int| 0 <= k < ws.len() ==> crate::owned::wf(#[trigger] ws[k]),
        forall|k: int| 0 <= k < ws.len() ==> convertible(#[trigger] ws[k]),
        forall|k: int|
            0 <= k < ws.len() ==> crate::owned::height(#[trigger] ws[k]) <= value_height(els[k]),
        forall|k: int|
            0 <= k < ws.len() ==> (canonical_value(#[trigger] els[k]) ==> wire_bytes(ws[k])
                == value_enc(els[k]) && value_models(els[k], ws[k])),
    ensures
        crate::owned::wf_items(ws),
        items_convertible(ws),
        crate::owned::items_height(ws) <= value_items_height(els),
        canonical_items(els) ==> crate::owned::items_bytes(ws) == value_items_enc(els)
            && values_model(els, ws),
    decreases ws,
{
    if ws.len() > 0 {
        assert forall|k: int| 0 <= k < ws.drop_first().len() implies crate::owned::wf(
            #[trigger] ws.drop_first()[k],
        ) && convertible(ws.drop_first()[k]) && crate::owned::height(ws.drop_first()[k])
            <= value_height(els.drop_first()[k]) && (canonical_value(els.drop_first()[k])
            ==> wire_bytes(ws.drop_first()[k]) == value_enc(els.drop_first()[k]) && value_models(
                els.drop_first()[k],
                ws.drop_first()[k],
            )) by {
            assert(ws.drop_first()[k] == ws[k + 1]);
            assert(els.drop_first()[k] == els[k + 1]);
        }
        lemma_items_fold(els.drop_first(), ws.drop_first());
        if canonical_items(els) {
            assert(crate::owned::items_bytes(ws) =~= value_items_enc(els));
        }
    }
}

/// Pointwise facts about a run of wire pairs fold into the run
/// predicates, keys and values alike.
pub proof fn lemma_pairs_fold(ps: Seq<(ObjectKey, Value)>, ws: Seq<(OwnedValue, OwnedValue)>)
    requires
        ws.len() == ps.len(),
        forall|k: int|
            0 <= k < ws.len() ==> crate::owned::wf((#[trigger] ws[k]).0) && crate::owned::wf(
                ws[k].1,
            ),
        forall|k: int|
            0 <= k < ws.len() ==> key_convertible((#[trigger] ws[k]).0) && convertible(ws[k].1),
        forall|k: int|
            0 <= k < ws.len() ==> crate::owned::height((#[trigger] ws[k]).0) == 0
                && crate::owned::height(ws[k].1) <= value_height(ps[k].1),
        forall|k: int|
            0 <= k < ws.len() ==> wire_bytes((#[trigger] ws[k]).0) == key_enc(ps[k].0)
                && key_models(ps[k].0, ws[k].0),
        forall|k: int|
            0 <= k < ws.len() ==> (canonical_value((#[trigger] ps[k]).1) ==> wire_bytes(ws[k].1)
                == value_enc(ps[k].1) && value_models(ps[k].1, ws[k].1)),
    ensures
        crate::owned::wf_pairs(ws),
        pairs_convertible(ws),
        crate::owned::pairs_height(ws) <= value_pairs_height(ps),
        canonical_pairs(ps) ==> (forall|k: int|
            0 <= k < ws.len() ==> wire_bytes((#[trigger] ws[k]).0) == pairs_enc(ps)[k].0
                && wire_bytes(ws[k].1) == pairs_enc(ps)[k].1) && object_models(ps, ws),
    decreases ws,
{
    lemma_pairs_enc_len(ps);
    if ws.len() > 0 {
        assert forall|k: int|
            0 <= k < ws.drop_first().len() implies crate::owned::wf(
            (#[trigger] ws.drop_first()[k]).0,
        ) && crate::owned::wf(ws.drop_first()[k].1) && key_convertible(ws.drop_first()[k].0)
            && convertible(ws.drop_first()[k].1) && crate::owned::height(ws.drop_first()[k].0)
            == 0 && crate::owned::height(ws.drop_first()[k].1) <= value_height(
            ps.drop_first()[k].1,
        ) && wire_bytes(ws.drop_first()[k].0) == key_enc(ps.drop_first()[k].0) && key_models(
            ps.drop_first()[k].0,
            ws.drop_first()[k].0,
        ) && (canonical_value(ps.drop_first()[k].1) ==> wire_bytes(ws.drop_first()[k].1)
            == value_enc(ps.drop_first()[k].1) && value_models(
            ps.drop_first()[k].1,
            ws.drop_first()[k].1,
        )) by {
            assert(ws.drop_first()[k] == ws[k + 1]);
            assert(ps.drop_first()[k] == ps[k + 1]);
        }
        lemma_pairs_fold(ps.drop_first(), ws.drop_first());
        if canonical_pairs(ps) {
            assert forall|k: int|
                0 <= k < ws.len() implies wire_bytes((#[trigger] ws[k]).0) == pairs_enc(ps)[k].0
                && wire_bytes(ws[k].1) == pairs_enc(ps)[k].1 by {
                if k == 0 {
                    assert(pairs_enc(ps)[0] == (key_enc(ps[0].0), value_enc(ps[0].1)));
                } else {
                    assert(pairs_enc(ps)[k] == pairs_enc(ps.drop_first())[k - 1]);
                    assert(ws[k] == ws.drop_first()[k - 1]);
                    assert(ps[k] == ps.drop_first()[k - 1]);
                }
            }
        }
    }
}

/// Turns a map key into the wire item its canonical encoding spells.
pub fn key_to_wire(k: &ObjectKey) -> (r: OwnedValue)
    ensures
        crate::owned::wf(r),
        key_convertible(r),
        crate::owned::height(r) == 0,
        wire_bytes(r) == key_enc(*k),
        key_models(*k, r),
{
    match k {
        ObjectKey::Integer(i) => {
            if *i >= 0 {
                let r = OwnedValue::Unsigned(MinorType::size64(*i as u64));
                proof {
                    crate::minor_type::lemma_spec_size_value(*i as u64);
                }
                r
            } else {
                let r = OwnedValue::Negative(MinorType::size64((-(*i + 1)) as u64));
                proof {
                    crate::minor_type::lemma_spec_size_value((-1 - *i as int) as u64);
                }
                r
            }
        }
        ObjectKey::Bytes(b) => {
            let c = slice_to_vec(b.as_slice());
            let m = MinorType::size(c.len());
            proof {
                crate::minor_type::lemma_spec_size_value(b@.len() as u64);
            }
            OwnedValue::Bytes(m, c)
        }
        ObjectKey::String(s) => {
            let c = s.as_str().as_bytes_vec();
            let m = MinorType::size(c.len());
            proof {
                broadcast use vstd::utf8::encode_utf8_valid_utf8;

                crate::minor_type::lemma_spec_size_value(encode_utf8(s@).len() as u64);
            }
            OwnedValue::Text(m, c)
        }
        ObjectKey::Bool(t) => {
            if *t {
                proof {
                    assert(wire_bytes(OwnedValue::True) =~= key_enc(*k));
                }
                OwnedValue::True
            } else {
                proof {
                    assert(wire_bytes(OwnedValue::False) =~= key_enc(*k));
                }
                OwnedValue::False
            }
        }
        ObjectKey::Null => {
            proof {
                assert(wire_bytes(OwnedValue::Null) =~= key_enc(*k));
            }
            OwnedValue::Null
        }
    }
}

/// Turns each element of a run into its wire item.
fn values_to_wire_items(els: &Vec<Value>) -> (ws: Vec<OwnedValue>)
    ensures
        ws@.len() == els@.len(),
        forall|k: int| 0 <= k < ws@.len() ==> crate::owned::wf(#[trigger] ws@[k]),
        forall|k: int| 0 <= k < ws@.len() ==> convertible(#[trigger] ws@[k]),
        forall|k: int|
            0 <= k < ws@.len() ==> crate::owned::height(#[trigger] ws@[k]) <= value_height(
                els@[k],
            ),
        forall|k: int|
            0 <= k < ws@.len() ==> (canonical_value(#[trigger] els@[k]) ==> wire_bytes(ws@[k])
                == value_enc(els@[k]) && value_models(els@[k], ws@[k])),
    decreases *els,
{
    let n = els.len();
    let mut ws: Vec<OwnedValue> = Vec::new();
    for i in 0..n
        invariant
            n == els@.len(),
            ws@.len() == i,
            forall|k: int| 0 <= k < i ==> crate::owned::wf(#[trigger] ws@[k]),
            forall|k: int| 0 <= k < i ==> convertible(#[trigger] ws@[k]),
            forall|k: int|
                0 <= k < i ==> crate::owned::height(#[trigger] ws@[k]) <= value_height(els@[k]),
            forall|k: int|
                0 <= k < i ==> (canonical_value(#[trigger] els@[k]) ==> wire_bytes(ws@[k])
                    == value_enc(els@[k]) && value_models(els@[k], ws@[k])),
    {
        proof {
            assert(decreases_to!(*els => els@));
            assert(decreases_to!(els@ => els@[i as int]));
        }
        let w = value_to_wire(&els[i]);
        ws.push(w);
    }
    ws
}

/// Turns each pair of a run into its wire key and wire value.
fn pairs_to_wire(ps: &Vec<(ObjectKey, Value)>) -> (ws: Vec<(OwnedValue, OwnedValue)>)
    ensures
        ws@.len() == ps@.len(),
        forall|k: int|
            0 <= k < ws@.len() ==> crate::owned::wf((#[trigger] ws@[k]).0) && crate::owned::wf(
                ws@[k].1,
            ),
        forall|k: int|
            0 <= k < ws@.len() ==> key_convertible((#[trigger] ws@[k]).0) && convertible(
                ws@[k].1,
            ),
        forall|k: int|
            0 <= k < ws@.len() ==> crate::owned::height((#[trigger] ws@[k]).0) == 0
                && crate::owned::height(ws@[k].1) <= value_height(ps@[k].1),
        forall|k: int|
            0 <= k < ws@.len() ==> wire_bytes((#[trigger] ws@[k]).0) == key_enc(ps@[k].0)
                && key_models(ps@[k].0, ws@[k].0),
        forall|k: int|
            0 <= k < ws@.len() ==> (canonical_value((#[trigger] ps@[k]).1) ==> wire_bytes(
                ws@[k].1,
            ) == value_enc(ps@[k].1) && value_models(ps@[k].1, ws@[k].1)),
    decreases *ps,
{
    let n = ps.len();
    let mut ws: Vec<(OwnedValue, OwnedValue)> = Vec::new();
    for i in 0..n
        invariant
            n == ps@.len(),
            ws@.len() == i,
            forall|k: int|
                0 <= k < i ==> crate::owned::wf((#[trigger] ws@[k]).0) && crate::owned::wf(
                    ws@[k].1,
                ),
            forall|k: int|
                0 <= k < i ==> key_convertible((#[trigger] ws@[k]).0) && convertible(ws@[k].1),
            forall|k: int|
                0 <= k < i ==> crate::owned::height((#[trigger] ws@[k]).0) == 0
                    && crate::owned::height(ws@[k].1) <= value_height(ps@[k].1),
            forall|k: int|
                0 <= k < i ==> wire_bytes((#[trigger] ws@[k]).0) == key_enc(ps@[k].0)
                    && key_models(ps@[k].0, ws@[k].0),
            forall|k: int|
                0 <= k < i ==> (canonical_value((#[trigger] ps@[k]).1) ==> wire_bytes(ws@[k].1)
                    == value_enc(ps@[k].1) && value_models(ps@[k].1, ws@[k].1)),
    {
        let wk = key_to_wire(&ps[i].0);
        proof {
            assert(decreases_to!(*ps => ps@));
            assert(decreases_to!(ps@ => ps@[i as int]));
        }
        let wv = value_to_wire(&ps[i].1);
        ws.push((wk, wv));
    }
    ws
}

/// Turns a dynamic value into a wire item. The item is always
/// well-formed and convertible; when the value is in decoder form, the
/// item's bytes are exactly the value's canonical encoding, and decoding
/// the item gives the value back. Together with the contracts of the
/// encoder and the decoder this closes the round trip: encoding a value
/// in decoder form and decoding the bytes again returns it.
pub fn value_to_wire(v: &Value) -> (r: OwnedValue)
    ensures
        crate::owned::wf(r),
        convertible(r),
        crate::owned::height(r) <= value_height(*v),
        canonical_value(*v) ==> wire_bytes(r) == value_enc(*v) && value_models(*v, r),
    decreases *v,
{
    match v {
        Value::U64(n) => {
            let r = OwnedValue::Unsigned(MinorType::size64(*n));
            proof {
                crate::minor_type::lemma_spec_size_value(*n);
            }
            r
        }
        Value::I64(i) => {
            if *i >= 0 {
                let r = OwnedValue::Unsigned(MinorType::size64(*i as u64));
                proof {
                    crate::minor_type::lemma_spec_size_value(*i as u64);
                }
                r
            } else {
                let r = OwnedValue::Negative(MinorType::size64((-(*i + 1)) as u64));
                proof {
                    crate::minor_type::lemma_spec_size_value((-1 - *i as int) as u64);
                }
                r
            }
        }
        Value::Bytes(b) => {
            let c = slice_to_vec(b.as_slice());
            let m = MinorType::size(c.len());
            proof {
                crate::minor_type::lemma_spec_size_value(b@.len() as u64);
            }
            OwnedValue::Bytes(m, c)
        }
        Value::String(s) => {
            let c = s.as_str().as_bytes_vec();
            let m = MinorType::size(c.len());
            proof {
                broadcast use vstd::utf8::encode_utf8_valid_utf8;

                crate::minor_type::lemma_spec_size_value(encode_utf8(s@).len() as u64);
            }
            OwnedValue::Text(m, c)
        }
        Value::Array(els) => {
            proof {
                assert(decreases_to!(*v => *els));
            }
            let ws = values_to_wire_items(els);
            proof {
                lemma_items_fold(els@, ws@);
                crate::minor_type::lemma_spec_size_value(els@.len() as u64);
            }
            let m = MinorType::size(els.len());
            let r = OwnedValue::Array(m, ws);
            proof {
                if canonical_value(*v) {
                    assert(wire_bytes(r) =~= value_enc(*v));
                }
            }
            r
        }
        Value::Object(ps) => {
            proof {
                assert(decreases_to!(*v => *ps));
            }
            let ws = pairs_to_wire(ps);
            proof {
                lemma_pairs_fold(ps@, ws@);
                crate::minor_type::lemma_spec_size_value(ps@.len() as u64);
            }
            let m = MinorType::size(ps.len());
            let r = OwnedValue::Mapping(m, ws);
            proof {
                if canonical_value(*v) {
                    lemma_pairs_enc_len(ps@);
                    lemma_sort_enc_identity(pairs_enc(ps@));
                    lemma_pairs_bytes_of_encoded(ws@, pairs_enc(ps@));
                    assert(wire_bytes(r) =~= value_enc(*v));
                }
            }
            r
        }
        Value::F64(bits) => {
            let r = OwnedValue::DoubleFloat(*bits);
            proof {
                assert(wire_bytes(r) =~= value_enc(*v));
            }
            r
        }
        Value::Bool(t) => {
            if *t {
                proof {
                    assert(wire_bytes(OwnedValue::True) =~= value_enc(*v));
                }
                OwnedValue::True
            } else {
                proof {
                    assert(wire_bytes(OwnedValue::False) =~= value_enc(*v));
                }
                OwnedValue::False
            }
        }
        Value::Null => {
            proof {
                assert(wire_bytes(OwnedValue::Null) =~= value_enc(*v));
            }
            OwnedValue::Null
        }
    }
}


/// Two dynamic values hold the same content: the same shapes, numbers,
/// bytes and characters, paying no attention to buffer identity.
pub open spec fn same_value(a: Value, b: Value) -> bool
    decreases a,
{
    match (a, b) {
        (Value::U64(x), Value::U64(y)) => x == y,
        (Value::I64(x), Value::I64(y)) => x == y,
        (Value::Bytes(x), Value::Bytes(y)) => x@ == y@,
        (Value::String(x), Value::String(y)) => x@ == y@,
        (Value::Array(x), Value::Array(y)) => same_values(x@, y@),
        (Value::Object(x), Value::Object(y)) => same_object(x@, y@),
        (Value::F64(x), Value::F64(y)) => x == y,
        (Value::Bool(x), Value::Bool(y)) => x == y,
        (Value::Null, Value::Null) => true,
        _ => false,
    }
}

/// Two runs of values hold the same content, element by element.
pub open spec fn same_values(x: Seq<Value>, y: Seq<Value>) -> bool
    decreases x,
{
    if x.len() != y.len() {
        false
    } else if x.len() == 0 {
        true
    } else {
        same_value(x[0], y[0]) && same_values(x.drop_first(), y.drop_first())
    }
}

/// Two runs of pairs hold the same content, keys and values alike.
pub open spec fn same_object(x: Seq<(ObjectKey, Value)>, y: Seq<(ObjectKey, Value)>) -> bool
    decreases x,
{
    if x.len() != y.len() {
        false
    } else if x.len() == 0 {
        true
    } else {
        same_key(x[0].0, y[0].0) && same_value(x[0].1, y[0].1) && same_object(
            x.drop_first(),
            y.drop_first(),
        )
    }
}

/// Two keys hold the same content.
pub open spec fn same_key(a: ObjectKey, b: ObjectKey) -> bool {
    match (a, b) {
        (ObjectKey::Integer(x), ObjectKey::Integer(y)) => x == y,
        (ObjectKey::Bytes(x), ObjectKey::Bytes(y)) => x@ == y@,
        (ObjectKey::String(x), ObjectKey::String(y)) => x@ == y@,
        (ObjectKey::Bool(x), ObjectKey::Bool(y)) => x == y,
        (ObjectKey::Null, ObjectKey::Null) => true,
        _ => false,
    }
}

/// A wire item determines the content of any value that models it: two
/// values modelling the same item hold the same content. Together with
/// the decoder's contract, decoding the encoding of a value in decoder
/// form gives back a value with that value's content.
pub proof fn lemma_value_models_functional(a: Value, b: Value, w: OwnedValue)
    requires
        value_models(a, w),
        value_models(b, w),
    ensures
        same_value(a, b),
    decreases w,
{
    match w {
        OwnedValue::Array(_, els) => {
            match (a, b) {
                (Value::Array(x), Value::Array(y)) => {
                    lemma_values_model_functional(x@, y@, els@);
                }
                _ => {}
            }
        }
        OwnedValue::IndefiniteArray(els) => {
            match (a, b) {
                (Value::Array(x), Value::Array(y)) => {
                    lemma_values_model_functional(x@, y@, els@);
                }
                _ => {}
            }
        }
        OwnedValue::Mapping(_, ps) => {
            match (a, b) {
                (Value::Object(x), Value::Object(y)) => {
                    lemma_object_models_functional(x@, y@, ps@);
                }
                _ => {}
            }
        }
        OwnedValue::IndefiniteMapping(ps) => {
            match (a, b) {
                (Value::Object(x), Value::Object(y)) => {
                    lemma_object_models_functional(x@, y@, ps@);
                }
                _ => {}
            }
        }
        OwnedValue::Tag(_, inner) => {
            lemma_value_models_functional(a, b, *inner);
        }
        OwnedValue::Text(_, c) => {
            match (a, b) {
                (Value::String(x), Value::String(y)) => {
                    vstd::utf8::encode_utf8_decode_utf8(x@);
                    vstd::utf8::encode_utf8_decode_utf8(y@);
                }
                _ => {}
            }
        }
        OwnedValue::IndefiniteText(cs) => {
            match (a, b) {
                (Value::String(x), Value::String(y)) => {
                    vstd::utf8::encode_utf8_decode_utf8(x@);
                    vstd::utf8::encode_utf8_decode_utf8(y@);
                }
                _ => {}
            }
        }
        _ => {}
    }
}

/// A run of wire items determines the content of any run of values that
/// models it.
pub proof fn lemma_values_model_functional(x: Seq<Value>, y: Seq<Value>, ws: Seq<OwnedValue>)
    requires
        values_model(x, ws),
        values_model(y, ws),
    ensures
        same_values(x, y),
    decreases ws,
{
    if ws.len() > 0 {
        lemma_value_models_functional(x[0], y[0], ws[0]);
        lemma_values_model_functional(x.drop_first(), y.drop_first(), ws.drop_first());
    }
}

/// A run of wire pairs determines the content of any run of decoded
/// pairs that models it.
pub proof fn lemma_object_models_functional(
    x: Seq<(ObjectKey, Value)>,
    y: Seq<(ObjectKey, Value)>,
    ps: Seq<(OwnedValue, OwnedValue)>,
)
    requires
        object_models(x, ps),
        object_models(y, ps),
    ensures
        same_object(x, y),
    decreases ps,
{
    if ps.len() > 0 {
        lemma_key_models_functional(x[0].0, y[0].0, ps[0].0);
        lemma_value_models_functional(x[0].1, y[0].1, ps[0].1);
        lemma_object_models_functional(x.drop_first(), y.drop_first(), ps.drop_first());
    }
}

/// A wire item determines the content of any key that models it.
pub proof fn lemma_key_models_functional(a: ObjectKey, b: ObjectKey, w: OwnedValue)
    requires
        key_models(a, w),
        key_models(b, w),
    ensures
        same_key(a, b),
{
    match w {
        OwnedValue::Text(_, _) => {
            match (a, b) {
                (ObjectKey::String(x), ObjectKey::String(y)) => {
                    vstd::utf8::encode_utf8_decode_utf8(x@);
                    vstd::utf8::encode_utf8_decode_utf8(y@);
                }
                _ => {}
            }
        }
        OwnedValue::IndefiniteText(_) => {
            match (a, b) {
                (ObjectKey::String(x), ObjectKey::String(y)) => {
                    vstd::utf8::encode_utf8_decode_utf8(x@);
                    vstd::utf8::encode_utf8_decode_utf8(y@);
                }
                _ => {}
            }
        }
        _ => {}
    }
}


/// A wire item in the canonical form this encoder emits: every argument
/// in its shortest width, every length definite, map keys sorted by the
/// byte order of their encodings, floats at double precision, and none
/// of the shapes the canonical encoder never writes.
pub open spec fn canonical_item(w: OwnedValue) -> bool
    decreases w,
{
    match w {
        OwnedValue::Unsigned(m) => m == spec_size(minor_value(m)),
        OwnedValue::Negative(m) => m == spec_size(minor_value(m)) && minor_value(m)
            < 0x8000000000000000,
        OwnedValue::Bytes(m, c) => m == spec_size(c@.len() as u64),
        OwnedValue::Text(m, c) => m == spec_size(c@.len() as u64),
        OwnedValue::Array(m, els) => m == spec_size(els@.len() as u64) && canonical_wire_items(
            els@,
        ),
        OwnedValue::Mapping(m, ps) => m == spec_size(ps@.len() as u64) && canonical_wire_pairs(
            ps@,
        ) && sorted_wire_keys(ps@),
        OwnedValue::DoubleFloat(_) => true,
        OwnedValue::False => true,
        OwnedValue::True => true,
        OwnedValue::Null => true,
        _ => false,
    }
}

/// Every element of a run is in canonical form.
pub open spec fn canonical_wire_items(ws: Seq<OwnedValue>) -> bool
    decreases ws,
{
    if ws.len() == 0 {
        true
    } else {
        canonical_item(ws[0]) && canonical_wire_items(ws.drop_first())
    }
}

/// Every key and value of a run of pairs is in canonical form.
pub open spec fn canonical_wire_pairs(ps: Seq<(OwnedValue, OwnedValue)>) -> bool
    decreases ps,
{
    if ps.len() == 0 {
        true
    } else {
        canonical_item(ps[0].0) && canonical_item(ps[0].1) && canonical_wire_pairs(
            ps.drop_first(),
        )
    }
}

/// The keys of a run of wire pairs stand in non-decreasing byte order.
pub open spec fn sorted_wire_keys(ps: Seq<(OwnedValue, OwnedValue)>) -> bool {
    forall|i: int, j: int|
        0 <= i < j < ps.len() ==> !lex_lt(
            wire_bytes((#[trigger] ps[j]).0),
            wire_bytes((#[trigger] ps[i]).0),
        )
}

/// A key decoded from a canonical wire item re-encodes to exactly that
/// item's bytes.
pub proof fn lemma_key_models_canonical_reencode(k: ObjectKey, w: OwnedValue)
    requires
        key_models(k, w),
        canonical_item(w),
    ensures
        key_enc(k) == wire_bytes(w),
{
    match (k, w) {
        (ObjectKey::Bool(t), OwnedValue::True) => {
            assert(key_enc(k) =~= wire_bytes(w));
        }
        (ObjectKey::Bool(t), OwnedValue::False) => {
            assert(key_enc(k) =~= wire_bytes(w));
        }
        (ObjectKey::Null, OwnedValue::Null) => {
            assert(key_enc(k) =~= wire_bytes(w));
        }
        _ => {}
    }
}

/// A value decoded from a canonical wire item re-encodes to exactly that
/// item's bytes: together with the decoder's contract, decoding a
/// canonical document and encoding the result reproduces it byte for
/// byte.
#[verifier::rlimit(50)]
#[verifier::spinoff_prover]
pub proof fn lemma_models_canonical_reencode(v: Value, w: OwnedValue)
    requires
        value_models(v, w),
        canonical_item(w),
    ensures
        value_enc(v) == wire_bytes(w),
    decreases w,
{
    match w {
        OwnedValue::Unsigned(m) => {
            assert(value_enc(v) =~= wire_bytes(w));
        }
        OwnedValue::Negative(m) => {
            match v {
                Value::I64(i) => {
                    assert(i < 0);
                    assert(-1 - i as int == minor_value(m) as int);
                    assert(0 <= -1 - i as int <= 0xffffffffffffffff);
                    assert((-1 - i as int) as u64 == minor_value(m));
                    assert(spec_size((-1 - i as int) as u64) == m);
                    assert(value_enc(v) == int_enc(i));
                    assert(int_enc(i) == crate::major_type::head_bytes(
                        1,
                        spec_size((-1 - i as int) as u64),
                    ));
                    assert(value_enc(v) =~= wire_bytes(w));
                }
                _ => {}
            }
        }
        OwnedValue::Bytes(m, c) => {
            assert(value_enc(v) =~= wire_bytes(w));
        }
        OwnedValue::Text(m, c) => {
            assert(value_enc(v) =~= wire_bytes(w));
        }
        OwnedValue::Array(m, els) => {
            match v {
                Value::Array(vs) => {
                    assert(values_model(vs@, els@));
                    assert(vs@.len() == els@.len()) by {
                        if vs@.len() != els@.len() {
                            assert(!values_model(vs@, els@));
                        }
                    }
                    assert(spec_size(vs@.len() as u64) == m);
                    lemma_models_items_reencode(vs@, els@);
                    assert(value_enc(v) =~= wire_bytes(w));
                }
                _ => {}
            }
        }
        OwnedValue::Mapping(m, ps) => {
            match v {
                Value::Object(qs) => {
                    assert(object_models(qs@, ps@));
                    assert(qs@.len() == ps@.len()) by {
                        if qs@.len() != ps@.len() {
                            assert(!object_models(qs@, ps@));
                        }
                    }
                    assert(spec_size(qs@.len() as u64) == m);
                    lemma_models_pairs_reencode(qs@, ps@);
                    lemma_pairs_enc_len(qs@);
                    assert forall|i: int, j: int|
                        0 <= i < j < pairs_enc(qs@).len() implies !lex_lt(
                        (#[trigger] pairs_enc(qs@)[j]).0,
                        (#[trigger] pairs_enc(qs@)[i]).0,
                    ) by {
                        assert(pairs_enc(qs@)[j].0 == wire_bytes(ps@[j].0));
                        assert(pairs_enc(qs@)[i].0 == wire_bytes(ps@[i].0));
                        assert(!lex_lt(wire_bytes(ps@[j].0), wire_bytes(ps@[i].0)));
                    }
                    lemma_sort_enc_identity(pairs_enc(qs@));
                    lemma_pairs_bytes_of_encoded(ps@, pairs_enc(qs@));
                    assert(value_enc(v) =~= wire_bytes(w));
                }
                _ => {}
            }
        }
        OwnedValue::False => {
            assert(value_enc(v) =~= wire_bytes(w));
        }
        OwnedValue::True => {
            assert(value_enc(v) =~= wire_bytes(w));
        }
        OwnedValue::Null => {
            assert(value_enc(v) =~= wire_bytes(w));
        }
        OwnedValue::DoubleFloat(x) => {
            assert(value_enc(v) =~= wire_bytes(w));
        }
        _ => {}
    }
}

/// A run of decoded elements re-encodes to exactly the bytes of the
/// canonical run it came from.
pub proof fn lemma_models_items_reencode(vs: Seq<Value>, ws: Seq<OwnedValue>)
    requires
        values_model(vs, ws),
        canonical_wire_items(ws),
    ensures
        value_items_enc(vs) == crate::owned::items_bytes(ws),
    decreases ws,
{
    if ws.len() > 0 {
        lemma_models_canonical_reencode(vs[0], ws[0]);
        lemma_models_items_reencode(vs.drop_first(), ws.drop_first());
        assert(value_items_enc(vs) =~= crate::owned::items_bytes(ws));
    }
}

/// A run of decoded pairs re-encodes, entry by entry, to the encoded
/// forms of the canonical wire pairs it came from.
pub proof fn lemma_models_pairs_reencode(
    qs: Seq<(ObjectKey, Value)>,
    ps: Seq<(OwnedValue, OwnedValue)>,
)
    requires
        object_models(qs, ps),
        canonical_wire_pairs(ps),
    ensures
        pairs_enc(qs).len() == ps.len(),
        forall|k: int|
            0 <= k < ps.len() ==> (#[trigger] pairs_enc(qs)[k]).0 == wire_bytes(ps[k].0)
                && pairs_enc(qs)[k].1 == wire_bytes(ps[k].1),
    decreases ps,
{
    lemma_pairs_enc_len(qs);
    if ps.len() > 0 {
        lemma_key_models_canonical_reencode(qs[0].0, ps[0].0);
        lemma_models_canonical_reencode(qs[0].1, ps[0].1);
        lemma_models_pairs_reencode(qs.drop_first(), ps.drop_first());
        lemma_pairs_enc_len(qs.drop_first());
        assert forall|k: int|
            0 <= k < ps.len() implies (#[trigger] pairs_enc(qs)[k]).0 == wire_bytes(ps[k].0)
            && pairs_enc(qs)[k].1 == wire_bytes(ps[k].1) by {
            if k == 0 {
                assert(pairs_enc(qs)[0] == (key_enc(qs[0].0), value_enc(qs[0].1)));
            } else {
                assert(pairs_enc(qs)[k] == pairs_enc(qs.drop_first())[k - 1]);
                assert(ps[k] == ps.drop_first()[k - 1]);
                assert(qs.drop_first()[k - 1] == qs[k]);
            }
        }
    }
}

} // verus!
