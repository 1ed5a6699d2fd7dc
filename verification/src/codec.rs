//! The binary codec for tagged records.
//!
//! A record file is one named root node: a tag byte, a big-endian length-
//! prefixed name, the node's entries (each a tag byte, a name, a payload)
//! and a closing end tag. `enc_named` states the exact byte string of a
//! model; `encode_named` produces it and `decode_named` accepts exactly
//! the encodings of well-formed records — every such byte string decodes,
//! and decoding then re-encoding reproduces the file byte for byte.
use vstd::prelude::*;

use crate::nbt::{
    items_model, lemma_entries_model, lemma_entries_wf_index, lemma_items_model,
    lemma_items_wf_index, Compound, CompoundModel, NbtList, Value, ValueModel, MAX_TEXT_LEN,
    TAG_BYTE, TAG_BYTES, TAG_COMPOUND, TAG_DOUBLE, TAG_END, TAG_FLOAT, TAG_INT,
    TAG_INTS, TAG_LIST, TAG_LONG, TAG_LONGS, TAG_SHORT, TAG_TEXT,
};

verus! {

/// Big-endian bytes of a 16-bit value.
pub open spec fn be16(n: u16) -> Seq<u8> {
    seq![(n >> 8) as u8, n as u8]
}

/// Big-endian bytes of a 32-bit value.
pub open spec fn be32(n: u32) -> Seq<u8> {
    seq![(n >> 24) as u8, (n >> 16) as u8, (n >> 8) as u8, n as u8]
}

/// Big-endian bytes of a 64-bit value.
pub open spec fn be64(n: u64) -> Seq<u8> {
    seq![
        (n >> 56) as u8,
        (n >> 48) as u8,
        (n >> 40) as u8,
        (n >> 32) as u8,
        (n >> 24) as u8,
        (n >> 16) as u8,
        (n >> 8) as u8,
        n as u8,
    ]
}

/// The payload bytes of a byte array.
pub open spec fn enc_i8s(s: Seq<i8>) -> Seq<u8> {
    Seq::new(s.len(), |i: int| s[i] as u8)
}

/// The payload bytes of an integer array.
pub open spec fn enc_i32s(s: Seq<i32>) -> Seq<u8>
    decreases s,
{
    if s.len() == 0 {
        Seq::empty()
    } else {
        be32(s[0] as u32) + enc_i32s(s.skip(1))
    }
}

/// The payload bytes of a long array.
pub open spec fn enc_i64s(s: Seq<i64>) -> Seq<u8>
    decreases s,
{
    if s.len() == 0 {
        Seq::empty()
    } else {
        be64(s[0] as u64) + enc_i64s(s.skip(1))
    }
}

/// The payload bytes of a value.
pub open spec fn enc_value(v: ValueModel) -> Seq<u8>
    decreases v,
{
    match v {
        ValueModel::Byte(x) => seq![x as u8],
        ValueModel::Short(x) => be16(x as u16),
        ValueModel::Int(x) => be32(x as u32),
        ValueModel::Long(x) => be64(x as u64),
        ValueModel::Float(b) => be32(b),
        ValueModel::Double(b) => be64(b),
        ValueModel::Bytes(b) => be32(b.len() as u32) + enc_i8s(b),
        ValueModel::Text(t) => be16(t.len() as u16) + t,
        ValueModel::List(elem, items) => seq![elem] + be32(items.len() as u32) + enc_items(items),
        ValueModel::Compound(c) => enc_entries(c.entries) + seq![TAG_END],
        ValueModel::Ints(s) => be32(s.len() as u32) + enc_i32s(s),
        ValueModel::Longs(s) => be32(s.len() as u32) + enc_i64s(s),
    }
}

/// The payload bytes of a list's items, in order.
pub open spec fn enc_items(s: Seq<ValueModel>) -> Seq<u8>
    decreases s,
{
    if s.len() == 0 {
        Seq::empty()
    } else {
        enc_value(s[0]) + enc_items(s.skip(1))
    }
}

/// The bytes of a node's entries: tag, key, payload for each, in order.
pub open spec fn enc_entries(s: Seq<(Seq<u8>, ValueModel)>) -> Seq<u8>
    decreases s,
{
    if s.len() == 0 {
        Seq::empty()
    } else {
        seq![s[0].1.tag()] + be16(s[0].0.len() as u16) + s[0].0 + enc_value(s[0].1) + enc_entries(
            s.skip(1),
        )
    }
}

/// The bytes of a whole record file: one named root node.
pub open spec fn enc_named(name: Seq<u8>, c: CompoundModel) -> Seq<u8> {
    seq![TAG_COMPOUND] + be16(name.len() as u16) + name + enc_value(ValueModel::Compound(c))
}

/// Appending an item appends its payload bytes.
pub proof fn lemma_enc_items_snoc(s: Seq<ValueModel>, v: ValueModel)
    ensures
        enc_items(s.push(v)) == enc_items(s) + enc_value(v),
    decreases s,
{
    let t = s.push(v);
    if s.len() == 0 {
        assert(t[0] == v);
        assert(t.skip(1) =~= Seq::<ValueModel>::empty());
        assert(enc_items(s) + enc_value(v) =~= enc_value(v) + enc_items(t.skip(1)));
    } else {
        assert(t[0] == s[0]);
        assert(t.skip(1) =~= s.skip(1).push(v));
        lemma_enc_items_snoc(s.skip(1), v);
        assert(enc_items(t) == enc_value(s[0]) + enc_items(t.skip(1)));
        assert(enc_items(s) == enc_value(s[0]) + enc_items(s.skip(1)));
        assert(enc_items(t) =~= enc_items(s) + enc_value(v));
    }
}

/// Appending an entry appends its bytes.
pub proof fn lemma_enc_entries_snoc(s: Seq<(Seq<u8>, ValueModel)>, e: (Seq<u8>, ValueModel))
    ensures
        enc_entries(s.push(e)) == enc_entries(s) + seq![e.1.tag()] + be16(e.0.len() as u16) + e.0
            + enc_value(e.1),
    decreases s,
{
    let t = s.push(e);
    if s.len() == 0 {
        assert(t[0] == e);
        assert(t.skip(1) =~= Seq::<(Seq<u8>, ValueModel)>::empty());
        assert(enc_entries(t) =~= enc_entries(s) + seq![e.1.tag()] + be16(e.0.len() as u16) + e.0
            + enc_value(e.1));
    } else {
        assert(t[0] == s[0]);
        assert(t.skip(1) =~= s.skip(1).push(e));
        lemma_enc_entries_snoc(s.skip(1), e);
        assert(enc_entries(t) == seq![t[0].1.tag()] + be16(t[0].0.len() as u16) + t[0].0 + enc_value(
            t[0].1,
        ) + enc_entries(t.skip(1)));
        assert(enc_entries(s) == seq![s[0].1.tag()] + be16(s[0].0.len() as u16) + s[0].0 + enc_value(
            s[0].1,
        ) + enc_entries(s.skip(1)));
        assert(enc_entries(t) =~= enc_entries(s) + seq![e.1.tag()] + be16(e.0.len() as u16) + e.0
            + enc_value(e.1));
    }
}

/// Appending an integer appends its four bytes.
pub proof fn lemma_enc_i32s_snoc(s: Seq<i32>, x: i32)
    ensures
        enc_i32s(s.push(x)) == enc_i32s(s) + be32(x as u32),
    decreases s,
{
    let t = s.push(x);
    if s.len() == 0 {
        assert(t[0] == x);
        assert(t.skip(1) =~= Seq::<i32>::empty());
        assert(enc_i32s(t) =~= enc_i32s(s) + be32(x as u32));
    } else {
        assert(t[0] == s[0]);
        assert(t.skip(1) =~= s.skip(1).push(x));
        lemma_enc_i32s_snoc(s.skip(1), x);
        assert(enc_i32s(t) == be32(s[0] as u32) + enc_i32s(t.skip(1)));
        assert(enc_i32s(s) == be32(s[0] as u32) + enc_i32s(s.skip(1)));
        assert(enc_i32s(t) =~= enc_i32s(s) + be32(x as u32));
    }
}

/// Appending a long appends its eight bytes.
pub proof fn lemma_enc_i64s_snoc(s: Seq<i64>, x: i64)
    ensures
        enc_i64s(s.push(x)) == enc_i64s(s) + be64(x as u64),
    decreases s,
{
    let t = s.push(x);
    if s.len() == 0 {
        assert(t[0] == x);
        assert(t.skip(1) =~= Seq::<i64>::empty());
        assert(enc_i64s(t) =~= enc_i64s(s) + be64(x as u64));
    } else {
        assert(t[0] == s[0]);
        assert(t.skip(1) =~= s.skip(1).push(x));
        lemma_enc_i64s_snoc(s.skip(1), x);
        assert(enc_i64s(t) == be64(s[0] as u64) + enc_i64s(t.skip(1)));
        assert(enc_i64s(s) == be64(s[0] as u64) + enc_i64s(s.skip(1)));
        assert(enc_i64s(t) =~= enc_i64s(s) + be64(x as u64));
    }
}

/// Append the big-endian bytes of a 16-bit value.
fn push_u16(out: &mut Vec<u8>, n: u16)
    ensures
        final(out)@ == old(out)@ + be16(n),
{
    out.push(#[verifier::truncate] ((n >> 8) as u8));
    out.push(#[verifier::truncate] (n as u8));
    proof {
        assert(final(out)@ =~= old(out)@ + be16(n));
    }
}

/// Append the big-endian bytes of a 32-bit value.
fn push_u32(out: &mut Vec<u8>, n: u32)
    ensures
        final(out)@ == old(out)@ + be32(n),
{
    out.push(#[verifier::truncate] ((n >> 24) as u8));
    out.push(#[verifier::truncate] ((n >> 16) as u8));
    out.push(#[verifier::truncate] ((n >> 8) as u8));
    out.push(#[verifier::truncate] (n as u8));
    proof {
        assert(final(out)@ =~= old(out)@ + be32(n));
    }
}

/// Append the big-endian bytes of a 64-bit value.
fn push_u64(out: &mut Vec<u8>, n: u64)
    ensures
        final(out)@ == old(out)@ + be64(n),
{
    out.push(#[verifier::truncate] ((n >> 56) as u8));
    out.push(#[verifier::truncate] ((n >> 48) as u8));
    out.push(#[verifier::truncate] ((n >> 40) as u8));
    out.push(#[verifier::truncate] ((n >> 32) as u8));
    out.push(#[verifier::truncate] ((n >> 24) as u8));
    out.push(#[verifier::truncate] ((n >> 16) as u8));
    out.push(#[verifier::truncate] ((n >> 8) as u8));
    out.push(#[verifier::truncate] (n as u8));
    proof {
        assert(final(out)@ =~= old(out)@ + be64(n));
    }
}

/// Append a copy of the given bytes.
fn push_bytes(out: &mut Vec<u8>, b: &Vec<u8>)
    ensures
        final(out)@ == old(out)@ + b@,
{
    let n = b.len();
    let mut i: usize = 0;
    while i < n
        invariant
            n == b@.len(),
            0 <= i <= n,
            out@ =~= old(out)@ + b@.subrange(0, i as int),
        decreases n - i,
    {
        out.push(b[i]);
        i += 1;
    }
    proof {
        assert(final(out)@ =~= old(out)@ + b@);
    }
}

/// Append the payload bytes of one value.
#[verifier::loop_isolation(false)]
pub fn encode_value(v: &Value, out: &mut Vec<u8>)
    requires
        v.model().wf(),
    ensures
        final(out)@ == old(out)@ + enc_value(v.model()),
    decreases *v,
{
    broadcast use vstd::std_specs::vec::group_vec_axioms;

    match v {
        Value::Byte(x) => {
            out.push(#[verifier::truncate] (*x as u8));
            proof {
                assert(final(out)@ =~= old(out)@ + enc_value(v.model()));
            }
        },
        Value::Short(x) => {
            push_u16(out, #[verifier::truncate] (*x as u16));
        },
        Value::Int(x) => {
            push_u32(out, #[verifier::truncate] (*x as u32));
        },
        Value::Long(x) => {
            push_u64(out, #[verifier::truncate] (*x as u64));
        },
        Value::Float(b) => {
            push_u32(out, *b);
        },
        Value::Double(b) => {
            push_u64(out, *b);
        },
        Value::Bytes(b) => {
            push_u32(out, #[verifier::truncate] (b.len() as u32));
            let ghost mid = out@;
            let n = b.len();
            let mut i: usize = 0;
            while i < n
                invariant
                    n == b@.len(),
                    0 <= i <= n,
                    out@ =~= mid + enc_i8s(b@).subrange(0, i as int),
                decreases n - i,
            {
                out.push(#[verifier::truncate] (b[i] as u8));
                proof {
                    assert(out@ =~= mid + enc_i8s(b@).subrange(0, i + 1));
                }
                i += 1;
            }
            proof {
                assert(enc_i8s(b@).subrange(0, n as int) =~= enc_i8s(b@));
                assert(final(out)@ =~= old(out)@ + enc_value(v.model()));
            }
        },
        Value::Text(t) => {
            push_u16(out, #[verifier::truncate] (t.len() as u16));
            push_bytes(out, t);
            proof {
                assert(final(out)@ =~= old(out)@ + enc_value(v.model()));
            }
        },
        Value::List(l) => {
            out.push(l.elem);
            push_u32(out, #[verifier::truncate] (l.items.len() as u32));
            let ghost mid = out@;
            let ghost m = items_model(l.items@);
            proof {
                lemma_items_model(l.items@);
            }
            let n = l.items.len();
            let mut i: usize = 0;
            while i < n
                invariant
                    n == l.items@.len(),
                    0 <= i <= n,
                    out@ =~= mid + enc_items(m.take(i as int)),
                decreases n - i,
            {
                proof {
                    assert(decreases_to!(l.items => l.items@[i as int]));
                    lemma_items_wf_index(m, l.elem, i as int);
                }
                encode_value(&l.items[i], out);
                proof {
                    lemma_enc_items_snoc(m.take(i as int), m[i as int]);
                    assert(m.take(i as int).push(m[i as int]) =~= m.take(i + 1));
                    assert(out@ =~= mid + enc_items(m.take(i + 1)));
                }
                i += 1;
            }
            proof {
                assert(m.take(n as int) =~= m);
                assert(enc_value(v.model()) =~= seq![l.elem] + be32(l.items@.len() as u32)
                    + enc_items(m));
                assert(final(out)@ =~= old(out)@ + enc_value(v.model()));
            }
        },
        Value::Compound(c) => {
            encode_entries(c, out);
            out.push(TAG_END);
            proof {
                assert(final(out)@ =~= old(out)@ + enc_value(v.model()));
            }
        },
        Value::Ints(s) => {
            push_u32(out, #[verifier::truncate] (s.len() as u32));
            let ghost mid = out@;
            let n = s.len();
            let mut i: usize = 0;
            while i < n
                invariant
                    n == s@.len(),
                    0 <= i <= n,
                    out@ =~= mid + enc_i32s(s@.take(i as int)),
                decreases n - i,
            {
                push_u32(out, #[verifier::truncate] (s[i] as u32));
                proof {
                    lemma_enc_i32s_snoc(s@.take(i as int), s@[i as int]);
                    assert(s@.take(i as int).push(s@[i as int]) =~= s@.take(i + 1));
                    assert(out@ =~= mid + enc_i32s(s@.take(i + 1)));
                }
                i += 1;
            }
            proof {
                assert(s@.take(n as int) =~= s@);
                assert(final(out)@ =~= old(out)@ + enc_value(v.model()));
            }
        },
        Value::Longs(s) => {
            push_u32(out, #[verifier::truncate] (s.len() as u32));
            let ghost mid = out@;
            let n = s.len();
            let mut i: usize = 0;
            while i < n
                invariant
                    n == s@.len(),
                    0 <= i <= n,
                    out@ =~= mid + enc_i64s(s@.take(i as int)),
                decreases n - i,
            {
                push_u64(out, #[verifier::truncate] (s[i] as u64));
                proof {
                    lemma_enc_i64s_snoc(s@.take(i as int), s@[i as int]);
                    assert(s@.take(i as int).push(s@[i as int]) =~= s@.take(i + 1));
                    assert(out@ =~= mid + enc_i64s(s@.take(i + 1)));
                }
                i += 1;
            }
            proof {
                assert(s@.take(n as int) =~= s@);
                assert(final(out)@ =~= old(out)@ + enc_value(v.model()));
            }
        },
    }
}

/// Append the entry bytes of a node, without the closing end tag.
#[verifier::loop_isolation(false)]
pub fn encode_entries(c: &Compound, out: &mut Vec<u8>)
    requires
        c.model().wf(),
    ensures
        final(out)@ == old(out)@ + enc_entries(c.model().entries),
    decreases *c,
{
    broadcast use vstd::std_specs::vec::group_vec_axioms;

    let ghost m = c.model().entries;
    proof {
        lemma_entries_model(c.entries@);
    }
    let n = c.entries.len();
    let mut i: usize = 0;
    while i < n
        invariant
            n == c.entries@.len(),
            0 <= i <= n,
            out@ =~= old(out)@ + enc_entries(m.take(i as int)),
        decreases n - i,
    {
        proof {
            lemma_entries_wf_index(m, i as int);
            assert(decreases_to!(c.entries => c.entries@[i as int]));
        }
        let ghost before = out@;
        let key = &c.entries[i].0;
        let val = &c.entries[i].1;
        out.push(value_tag(val));
        push_u16(out, #[verifier::truncate] (key.len() as u16));
        push_bytes(out, key);
        encode_value(val, out);
        proof {
            lemma_enc_entries_snoc(m.take(i as int), m[i as int]);
            assert(m.take(i as int).push(m[i as int]) =~= m.take(i + 1));
            assert(out@ =~= old(out)@ + enc_entries(m.take(i + 1)));
        }
        i += 1;
    }
    proof {
        assert(m.take(n as int) =~= m);
        assert(final(out)@ =~= old(out)@ + enc_entries(m));
    }
}

/// The tag byte of a value.
pub fn value_tag(v: &Value) -> (r: u8)
    ensures
        r == v.model().tag(),
{
    match v {
        Value::Byte(_) => TAG_BYTE,
        Value::Short(_) => TAG_SHORT,
        Value::Int(_) => TAG_INT,
        Value::Long(_) => TAG_LONG,
        Value::Float(_) => TAG_FLOAT,
        Value::Double(_) => TAG_DOUBLE,
        Value::Bytes(_) => TAG_BYTES,
        Value::Text(_) => TAG_TEXT,
        Value::List(_) => TAG_LIST,
        Value::Compound(_) => TAG_COMPOUND,
        Value::Ints(_) => TAG_INTS,
        Value::Longs(_) => TAG_LONGS,
    }
}

/// Whether the encoding of a well-formed value sits at `pos` of the byte
/// string.
pub open spec fn enc_at(b: Seq<u8>, pos: int, v: ValueModel) -> bool {
    &&& v.wf()
    &&& 0 <= pos
    &&& pos + enc_value(v).len() <= b.len()
    &&& b.subrange(pos, pos + enc_value(v).len()) == enc_value(v)
}

/// Two big-endian bytes determine their 16-bit value.
pub proof fn lemma_be16_injective(a: u16, b: u16)
    ensures
        be16(a) == be16(b) ==> a == b,
{
    if be16(a) == be16(b) {
        assert((a >> 8) as u8 == (b >> 8) as u8 && a as u8 == b as u8) by {
            assert(be16(a)[0] == be16(b)[0]);
            assert(be16(a)[1] == be16(b)[1]);
        }
        assert((a >> 8) as u8 == (b >> 8) as u8 && a as u8 == b as u8 ==> a == b) by (bit_vector);
    }
}

/// Four big-endian bytes determine their 32-bit value.
pub proof fn lemma_be32_injective(a: u32, b: u32)
    ensures
        be32(a) == be32(b) ==> a == b,
{
    if be32(a) == be32(b) {
        assert((a >> 24) as u8 == (b >> 24) as u8 && (a >> 16) as u8 == (b >> 16) as u8 && (a >> 8)
            as u8 == (b >> 8) as u8 && a as u8 == b as u8) by {
            assert(be32(a)[0] == be32(b)[0]);
            assert(be32(a)[1] == be32(b)[1]);
            assert(be32(a)[2] == be32(b)[2]);
            assert(be32(a)[3] == be32(b)[3]);
        }
        assert((a >> 24) as u8 == (b >> 24) as u8 && (a >> 16) as u8 == (b >> 16) as u8 && (a >> 8)
            as u8 == (b >> 8) as u8 && a as u8 == b as u8 ==> a == b) by (bit_vector);
    }
}

/// An integer array's payload spends four bytes per element.
pub proof fn lemma_enc_i32s_len(s: Seq<i32>)
    ensures
        enc_i32s(s).len() == 4 * s.len(),
    decreases s,
{
    if s.len() > 0 {
        lemma_enc_i32s_len(s.skip(1));
    }
}

/// A long array's payload spends eight bytes per element.
pub proof fn lemma_enc_i64s_len(s: Seq<i64>)
    ensures
        enc_i64s(s).len() == 8 * s.len(),
    decreases s,
{
    if s.len() > 0 {
        lemma_enc_i64s_len(s.skip(1));
    }
}

/// A list's payload splits at any item boundary.
pub proof fn lemma_enc_items_split(s: Seq<ValueModel>, j: int)
    requires
        0 <= j <= s.len(),
    ensures
        enc_items(s) == enc_items(s.take(j)) + enc_items(s.skip(j)),
    decreases j,
{
    if j == 0 {
        assert(s.take(0) =~= Seq::<ValueModel>::empty());
        assert(s.skip(0) =~= s);
        assert(enc_items(s) =~= enc_items(s.take(0)) + enc_items(s.skip(0)));
    } else {
        lemma_enc_items_split(s, j - 1);
        assert(s.take(j) =~= s.take(j - 1).push(s[j - 1]));
        lemma_enc_items_snoc(s.take(j - 1), s[j - 1]);
        assert(s.skip(j - 1)[0] == s[j - 1]);
        assert(s.skip(j - 1).skip(1) =~= s.skip(j));
        assert(enc_items(s.skip(j - 1)) == enc_value(s[j - 1]) + enc_items(s.skip(j)));
        assert(enc_items(s) =~= enc_items(s.take(j)) + enc_items(s.skip(j)));
    }
}

/// A node's entry bytes split at any entry boundary.
pub proof fn lemma_enc_entries_split(s: Seq<(Seq<u8>, ValueModel)>, j: int)
    requires
        0 <= j <= s.len(),
    ensures
        enc_entries(s) == enc_entries(s.take(j)) + enc_entries(s.skip(j)),
    decreases j,
{
    if j == 0 {
        assert(s.take(0) =~= Seq::<(Seq<u8>, ValueModel)>::empty());
        assert(s.skip(0) =~= s);
        assert(enc_entries(s) =~= enc_entries(s.take(0)) + enc_entries(s.skip(0)));
    } else {
        lemma_enc_entries_split(s, j - 1);
        assert(s.take(j) =~= s.take(j - 1).push(s[j - 1]));
        lemma_enc_entries_snoc(s.take(j - 1), s[j - 1]);
        assert(s.skip(j - 1)[0] == s[j - 1]);
        assert(s.skip(j - 1).skip(1) =~= s.skip(j));
        assert(enc_entries(s.skip(j - 1)) == seq![s[j - 1].1.tag()] + be16(
            s[j - 1].0.len() as u16,
        ) + s[j - 1].0 + enc_value(s[j - 1].1) + enc_entries(s.skip(j)));
        assert(enc_entries(s) =~= enc_entries(s.take(j)) + enc_entries(s.skip(j)));
    }
}

/// A range known byte for byte passes that knowledge to its sub-ranges.
pub proof fn lemma_sub_sub(b: Seq<u8>, p: int, e: Seq<u8>, a: int, c: int)
    requires
        0 <= p,
        p + e.len() <= b.len(),
        b.subrange(p, p + e.len()) == e,
        0 <= a <= c <= e.len(),
    ensures
        b.subrange(p + a, p + c) == e.subrange(a, c),
        a < e.len() ==> b[p + a] == e[a],
{
    assert(b.subrange(p + a, p + c) =~= e.subrange(a, c)) by {
        assert forall|i: int| 0 <= i < c - a implies b.subrange(p + a, p + c)[i] == e.subrange(
            a,
            c,
        )[i] by {
            assert(b.subrange(p, p + e.len())[a + i] == e[a + i]);
        }
    }
    if a < e.len() {
        assert(b.subrange(p, p + e.len())[a] == e[a]);
    }
}

/// Eight big-endian bytes determine their 64-bit value.
pub proof fn lemma_be64_injective(a: u64, b: u64)
    ensures
        be64(a) == be64(b) ==> a == b,
{
    if be64(a) == be64(b) {
        assert((a >> 56) as u8 == (b >> 56) as u8 && (a >> 48) as u8 == (b >> 48) as u8 && (a >> 40)
            as u8 == (b >> 40) as u8 && (a >> 32) as u8 == (b >> 32) as u8 && (a >> 24) as u8 == (b
            >> 24) as u8 && (a >> 16) as u8 == (b >> 16) as u8 && (a >> 8) as u8 == (b >> 8) as u8
            && a as u8 == b as u8) by {
            assert(be64(a)[0] == be64(b)[0]);
            assert(be64(a)[1] == be64(b)[1]);
            assert(be64(a)[2] == be64(b)[2]);
            assert(be64(a)[3] == be64(b)[3]);
            assert(be64(a)[4] == be64(b)[4]);
            assert(be64(a)[5] == be64(b)[5]);
            assert(be64(a)[6] == be64(b)[6]);
            assert(be64(a)[7] == be64(b)[7]);
        }
        assert((a >> 56) as u8 == (b >> 56) as u8 && (a >> 48) as u8 == (b >> 48) as u8 && (a >> 40)
            as u8 == (b >> 40) as u8 && (a >> 32) as u8 == (b >> 32) as u8 && (a >> 24) as u8 == (b
            >> 24) as u8 && (a >> 16) as u8 == (b >> 16) as u8 && (a >> 8) as u8 == (b >> 8) as u8
            && a as u8 == b as u8 ==> a == b) by (bit_vector);
    }
}

/// Adjacent byte ranges concatenate.
pub proof fn lemma_subrange_split(b: Seq<u8>, i: int, j: int, k: int)
    requires
        0 <= i <= j <= k <= b.len(),
    ensures
        b.subrange(i, k) == b.subrange(i, j) + b.subrange(j, k),
{
    assert(b.subrange(i, k) =~= b.subrange(i, j) + b.subrange(j, k));
}

/// Read two bytes as a big-endian 16-bit value.
fn read_u16(bytes: &Vec<u8>, pos: usize) -> (r: Option<(u16, usize)>)
    ensures
        match r {
            Some((n, end)) => pos + 2 == end && end <= bytes@.len() && bytes@.subrange(
                pos as int,
                end as int,
            ) == be16(n),
            None => true,
        },
        pos + 2 <= bytes@.len() ==> r is Some,
{
    if bytes.len() < 2 || pos > bytes.len() - 2 {
        return None;
    }
    let b0 = bytes[pos];
    let b1 = bytes[pos + 1];
    let n: u16 = ((b0 as u16) << 8) | (b1 as u16);
    proof {
        assert((((b0 as u16) << 8 | (b1 as u16)) >> 8) as u8 == b0 && ((b0 as u16) << 8 | (
        b1 as u16)) as u8 == b1) by (bit_vector);
        assert(bytes@.subrange(pos as int, pos + 2) =~= be16(n));
    }
    Some((n, pos + 2))
}

/// Read four bytes as a big-endian 32-bit value.
fn read_u32(bytes: &Vec<u8>, pos: usize) -> (r: Option<(u32, usize)>)
    ensures
        match r {
            Some((n, end)) => pos + 4 == end && end <= bytes@.len() && bytes@.subrange(
                pos as int,
                end as int,
            ) == be32(n),
            None => true,
        },
        pos + 4 <= bytes@.len() ==> r is Some,
{
    if bytes.len() < 4 || pos > bytes.len() - 4 {
        return None;
    }
    let b0 = bytes[pos];
    let b1 = bytes[pos + 1];
    let b2 = bytes[pos + 2];
    let b3 = bytes[pos + 3];
    let n: u32 = ((b0 as u32) << 24) | ((b1 as u32) << 16) | ((b2 as u32) << 8) | (b3 as u32);
    proof {
        let m = ((b0 as u32) << 24) | ((b1 as u32) << 16) | ((b2 as u32) << 8) | (b3 as u32);
        assert((m >> 24) as u8 == b0 && (m >> 16) as u8 == b1 && (m >> 8) as u8 == b2 && m as u8
            == b3) by (bit_vector)
            requires
                m == ((b0 as u32) << 24) | ((b1 as u32) << 16) | ((b2 as u32) << 8) | (b3 as u32),
        ;
        assert(bytes@.subrange(pos as int, pos + 4) =~= be32(n));
    }
    Some((n, pos + 4))
}

/// Read eight bytes as a big-endian 64-bit value.
fn read_u64(bytes: &Vec<u8>, pos: usize) -> (r: Option<(u64, usize)>)
    ensures
        match r {
            Some((n, end)) => pos + 8 == end && end <= bytes@.len() && bytes@.subrange(
                pos as int,
                end as int,
            ) == be64(n),
            None => true,
        },
        pos + 8 <= bytes@.len() ==> r is Some,
{
    if bytes.len() < 8 || pos > bytes.len() - 8 {
        return None;
    }
    let b0 = bytes[pos];
    let b1 = bytes[pos + 1];
    let b2 = bytes[pos + 2];
    let b3 = bytes[pos + 3];
    let b4 = bytes[pos + 4];
    let b5 = bytes[pos + 5];
    let b6 = bytes[pos + 6];
    let b7 = bytes[pos + 7];
    let n: u64 = ((b0 as u64) << 56) | ((b1 as u64) << 48) | ((b2 as u64) << 40) | ((b3 as u64)
        << 32) | ((b4 as u64) << 24) | ((b5 as u64) << 16) | ((b6 as u64) << 8) | (b7 as u64);
    proof {
        let m = ((b0 as u64) << 56) | ((b1 as u64) << 48) | ((b2 as u64) << 40) | ((b3 as u64)
            << 32) | ((b4 as u64) << 24) | ((b5 as u64) << 16) | ((b6 as u64) << 8) | (b7 as u64);
        assert((m >> 56) as u8 == b0 && (m >> 48) as u8 == b1 && (m >> 40) as u8 == b2 && (m >> 32)
            as u8 == b3 && (m >> 24) as u8 == b4 && (m >> 16) as u8 == b5 && (m >> 8) as u8 == b6
            && m as u8 == b7) by (bit_vector)
            requires
                m == ((b0 as u64) << 56) | ((b1 as u64) << 48) | ((b2 as u64) << 40) | ((b3 as u64)
                    << 32) | ((b4 as u64) << 24) | ((b5 as u64) << 16) | ((b6 as u64) << 8) | (
                b7 as u64),
        ;
        assert(bytes@.subrange(pos as int, pos + 8) =~= be64(n));
    }
    Some((n, pos + 8))
}

/// Read a length-prefixed byte string.
fn read_text(bytes: &Vec<u8>, pos: usize) -> (r: Option<(Vec<u8>, usize)>)
    ensures
        match r {
            Some((t, end)) => pos + 2 <= end && end <= bytes@.len() && t@.len() <= MAX_TEXT_LEN
                && bytes@.subrange(pos as int, end as int) == be16(t@.len() as u16) + t@,
            None => true,
        },
        forall|t0: Seq<u8>|
            (t0.len() < 65536 && pos + 2 + t0.len() <= bytes@.len() && bytes@.subrange(
                pos as int,
                pos + 2 + t0.len(),
            ) == #[trigger] (be16(t0.len() as u16) + t0)) ==> (r matches Some(pr) && pr.1 == pos
                + 2 + t0.len()),
{
    let (n, mut cur) = match read_u16(bytes, pos) {
        Some(v) => v,
        None => {
            proof {
                assert forall|t0: Seq<u8>|
                    !(t0.len() < 65536 && pos + 2 + t0.len() <= bytes@.len() && bytes@.subrange(
                        pos as int,
                        pos + 2 + t0.len(),
                    ) == #[trigger] (be16(t0.len() as u16) + t0)) by {
                    if pos + 2 + t0.len() <= bytes@.len() {
                        assert(pos + 2 <= bytes@.len());
                    }
                }
            }
            return None;
        },
    };
    proof {
        assert forall|t0: Seq<u8>|
            (t0.len() < 65536 && pos + 2 + t0.len() <= bytes@.len() && bytes@.subrange(
                pos as int,
                pos + 2 + t0.len(),
            ) == #[trigger] (be16(t0.len() as u16) + t0)) implies n == t0.len() by {
            let e = be16(t0.len() as u16) + t0;
            lemma_sub_sub(bytes@, pos as int, e, 0, 2);
            assert(e.subrange(0, 2) =~= be16(t0.len() as u16));
            assert(bytes@.subrange(pos as int, pos + 2) == be16(t0.len() as u16));
            lemma_be16_injective(n, t0.len() as u16);
        }
    }
    let count = n as usize;
    let blen = bytes.len();
    if blen - cur < count {
        proof {
            assert forall|t0: Seq<u8>|
                !(t0.len() < 65536 && pos + 2 + t0.len() <= bytes@.len() && bytes@.subrange(
                    pos as int,
                    pos + 2 + t0.len(),
                ) == #[trigger] (be16(t0.len() as u16) + t0)) by {
            }
        }
        return None;
    }
    let mut t: Vec<u8> = Vec::new();
    let start = cur;
    let mut i: usize = 0;
    while i < count
        invariant
            start == pos + 2,
            count == n as usize,
            cur == start + i,
            0 <= i <= count,
            blen == bytes@.len(),
            start + count <= blen,
            t@ =~= bytes@.subrange(start as int, cur as int),
        decreases count - i,
    {
        t.push(bytes[cur]);
        cur += 1;
        i += 1;
        proof {
            assert(t@ =~= bytes@.subrange(start as int, cur as int));
        }
    }
    proof {
        assert(t@.len() == n);
        assert((t@.len() as u16) == n);
        lemma_subrange_split(bytes@, pos as int, start as int, cur as int);
        assert(bytes@.subrange(pos as int, cur as int) =~= be16(t@.len() as u16) + t@);
    }
    Some((t, cur))
}

/// Where a list's encoding sits, its element tag and count head it.
pub proof fn lemma_enc_at_list_header(b: Seq<u8>, pos: int, el: u8, items: Seq<ValueModel>)
    requires
        enc_at(b, pos, ValueModel::List(el, items)),
    ensures
        b[pos] == el,
        b.subrange(pos + 1, pos + 5) == be32(items.len() as u32),
        pos + 5 + enc_items(items).len() <= b.len(),
        items.len() <= 0x7fff_ffff,
{
    let v = ValueModel::List(el, items);
    let e = enc_value(v);
    assert(e.len() == 5 + enc_items(items).len());
    lemma_sub_sub(b, pos, e, 0, 1);
    assert(e[0] == el);
    lemma_sub_sub(b, pos, e, 1, 5);
    assert(e.subrange(1, 5) =~= be32(items.len() as u32));
}

/// Where a list's encoding sits, each item's encoding sits after the
/// header and the items before it.
pub proof fn lemma_enc_at_list_item(b: Seq<u8>, pos: int, el: u8, items: Seq<ValueModel>, i: int)
    requires
        enc_at(b, pos, ValueModel::List(el, items)),
        0 <= i < items.len(),
    ensures
        enc_at(b, pos + 5 + enc_items(items.take(i)).len(), items[i]),
        items[i].tag() == el,
        items[i].wf(),
{
    let v = ValueModel::List(el, items);
    let e = enc_value(v);
    crate::nbt::lemma_items_wf_index(items, el, i);
    lemma_enc_items_split(items, i);
    assert(items.skip(i)[0] == items[i]);
    assert(items.skip(i).skip(1) =~= items.skip(i + 1));
    assert(enc_items(items.skip(i)) == enc_value(items[i]) + enc_items(items.skip(i + 1)));
    let off: int = 5 + enc_items(items.take(i)).len() as int;
    assert(e.len() == 5 + enc_items(items).len());
    lemma_sub_sub(b, pos, e, off, off + enc_value(items[i]).len() as int);
    assert(e.subrange(off, off + enc_value(items[i]).len() as int) =~= enc_value(items[i]));
}

/// Where a node's encoding sits, the byte after its entries is the end
/// tag.
pub proof fn lemma_enc_at_compound_end(b: Seq<u8>, pos: int, cm: CompoundModel)
    requires
        enc_at(b, pos, ValueModel::Compound(cm)),
    ensures
        pos + enc_entries(cm.entries).len() + 1 <= b.len(),
        b[pos + enc_entries(cm.entries).len()] == TAG_END,
{
    let e = enc_value(ValueModel::Compound(cm));
    assert(e.len() == enc_entries(cm.entries).len() + 1);
    lemma_sub_sub(b, pos, e, enc_entries(cm.entries).len() as int, e.len() as int);
    assert(e[enc_entries(cm.entries).len() as int] == TAG_END);
}

/// Where a node's encoding sits, entry `j` sits after the entries before
/// it: its value's tag byte, its length-prefixed key, then its payload.
pub proof fn lemma_enc_at_entry(b: Seq<u8>, pos: int, cm: CompoundModel, j: int)
    requires
        enc_at(b, pos, ValueModel::Compound(cm)),
        0 <= j < cm.entries.len(),
    ensures
        ({
            let off = pos + enc_entries(cm.entries.take(j)).len();
            let key = cm.entries[j].0;
            let val = cm.entries[j].1;
            &&& off + 3 + key.len() + enc_value(val).len() <= b.len()
            &&& b[off] == val.tag()
            &&& b.subrange(off + 1, off + 3 + key.len()) == be16(key.len() as u16) + key
            &&& enc_at(b, off + 3 + key.len(), val)
            &&& key.len() <= MAX_TEXT_LEN
            &&& val.wf()
            &&& enc_entries(cm.entries.take(j + 1)).len() == enc_entries(
                cm.entries.take(j),
            ).len() + 3 + key.len() + enc_value(val).len()
        }),
{
    let e = enc_value(ValueModel::Compound(cm));
    let key = cm.entries[j].0;
    let val = cm.entries[j].1;
    lemma_entries_wf_index(cm.entries, j);
    lemma_enc_entries_split(cm.entries, j);
    assert(cm.entries.skip(j)[0] == cm.entries[j]);
    assert(cm.entries.skip(j).skip(1) =~= cm.entries.skip(j + 1));
    assert(enc_entries(cm.entries.skip(j)) == seq![val.tag()] + be16(key.len() as u16) + key
        + enc_value(val) + enc_entries(cm.entries.skip(j + 1)));
    let off0: int = enc_entries(cm.entries.take(j)).len() as int;
    assert(e.len() == enc_entries(cm.entries).len() + 1);
    lemma_sub_sub(b, pos, e, off0, off0 + 1);
    assert(e[off0] == val.tag());
    lemma_sub_sub(b, pos, e, off0 + 1, off0 + 3 + key.len() as int);
    assert(e.subrange(off0 + 1, off0 + 3 + key.len() as int) =~= be16(key.len() as u16) + key);
    lemma_sub_sub(
        b,
        pos,
        e,
        off0 + 3 + key.len() as int,
        off0 + 3 + key.len() as int + enc_value(val).len() as int,
    );
    assert(e.subrange(
        off0 + 3 + key.len() as int,
        off0 + 3 + key.len() as int + enc_value(val).len() as int,
    ) =~= enc_value(val));
    assert(cm.entries.take(j + 1) =~= cm.entries.take(j).push(cm.entries[j]));
    lemma_enc_entries_snoc(cm.entries.take(j), cm.entries[j]);
}

/// What a value's tag says about the shape and length of its encoding.
pub proof fn lemma_enc_len_by_tag(v: ValueModel)
    ensures
        v.tag() == TAG_BYTE ==> enc_value(v).len() == 1,
        v.tag() == TAG_SHORT ==> enc_value(v).len() == 2,
        v.tag() == TAG_INT ==> enc_value(v).len() == 4,
        v.tag() == TAG_LONG ==> enc_value(v).len() == 8,
        v.tag() == TAG_FLOAT ==> enc_value(v).len() == 4,
        v.tag() == TAG_DOUBLE ==> enc_value(v).len() == 8,
        v.tag() == TAG_BYTES ==> (v matches ValueModel::Bytes(b) && enc_value(v).len() == 4
            + b.len()),
        v.tag() == TAG_TEXT ==> (v matches ValueModel::Text(t) && enc_value(v).len() == 2
            + t.len()),
        v.tag() == TAG_LIST ==> (v matches ValueModel::List(el, items) && enc_value(v).len() == 5
            + enc_items(items).len()),
        v.tag() == TAG_COMPOUND ==> (v matches ValueModel::Compound(cm) && enc_value(v).len() == 1
            + enc_entries(cm.entries).len()),
        v.tag() == TAG_INTS ==> (v matches ValueModel::Ints(s) && enc_value(v).len() == 4 + 4
            * s.len()),
        v.tag() == TAG_LONGS ==> (v matches ValueModel::Longs(s) && enc_value(v).len() == 4 + 8
            * s.len()),
        1 <= v.tag() <= 12,
{
    match v {
        ValueModel::Ints(s) => {
            lemma_enc_i32s_len(s);
        },
        ValueModel::Longs(s) => {
            lemma_enc_i64s_len(s);
        },
        _ => {},
    }
}

/// Parse one value payload of the given tag starting at `pos`.
///
/// On success the consumed bytes are exactly the encoding of the returned
/// value, so re-encoding reproduces them; and wherever the encoding of a
/// well-formed value of this tag sits at `pos`, the parse succeeds and
/// consumes exactly it.
#[verifier::loop_isolation(false)]
#[verifier::rlimit(60)]
pub fn parse_value(bytes: &Vec<u8>, pos: usize, tag: u8) -> (r: Option<(Value, usize)>)
    requires
        pos <= bytes@.len(),
    ensures
        match r {
            Some((v, end)) => pos < end <= bytes@.len() && v.model().wf() && v.model().tag() == tag
                && bytes@.subrange(pos as int, end as int) == enc_value(v.model()),
            None => true,
        },
        forall|v: ValueModel|
            #[trigger] enc_at(bytes@, pos as int, v) && v.tag() == tag ==> (r matches Some(pr)
                && pr.1 == pos + enc_value(v).len()),
    decreases bytes@.len() - pos,
{
    broadcast use vstd::std_specs::vec::group_vec_axioms;

    if tag == TAG_BYTE {
        if pos >= bytes.len() {
            proof {
                assert forall|w: ValueModel|
                    !(#[trigger] enc_at(bytes@, pos as int, w) && w.tag() == tag) by {
                    lemma_enc_len_by_tag(w);
                }
            }
            return None;
        }
        let b = bytes[pos];
        let v = Value::Byte(#[verifier::truncate] (b as i8));
        proof {
            let x = #[verifier::truncate] (b as i8);
            assert((x as u8) == b) by (bit_vector)
                requires
                    x == b as i8,
            ;
            assert(bytes@.subrange(pos as int, pos + 1) =~= enc_value(v.model()));
            assert forall|w: ValueModel|
                #[trigger] enc_at(bytes@, pos as int, w) && w.tag() == tag implies pos + 1 == pos
                    + enc_value(w).len() by {
                lemma_enc_len_by_tag(w);
            }
        }
        Some((v, pos + 1))
    } else if tag == TAG_SHORT {
        let (n, end) = match read_u16(bytes, pos) {
            Some(v) => v,
            None => {
            proof {
                assert forall|w: ValueModel|
                    !(#[trigger] enc_at(bytes@, pos as int, w) && w.tag() == tag) by {
                    lemma_enc_len_by_tag(w);
                }
            }
            return None;
            },
        };
        let v = Value::Short(#[verifier::truncate] (n as i16));
        proof {
            let x = #[verifier::truncate] (n as i16);
            assert((x as u16) == n) by (bit_vector)
                requires
                    x == n as i16,
            ;
            assert forall|w: ValueModel|
                #[trigger] enc_at(bytes@, pos as int, w) && w.tag() == tag implies end as int == pos
                    + enc_value(w).len() by {
                lemma_enc_len_by_tag(w);
            }
        }
        Some((v, end))
    } else if tag == TAG_INT {
        let (n, end) = match read_u32(bytes, pos) {
            Some(v) => v,
            None => {
            proof {
                assert forall|w: ValueModel|
                    !(#[trigger] enc_at(bytes@, pos as int, w) && w.tag() == tag) by {
                    lemma_enc_len_by_tag(w);
                }
            }
            return None;
            },
        };
        let v = Value::Int(#[verifier::truncate] (n as i32));
        proof {
            let x = #[verifier::truncate] (n as i32);
            assert((x as u32) == n) by (bit_vector)
                requires
                    x == n as i32,
            ;
            assert forall|w: ValueModel|
                #[trigger] enc_at(bytes@, pos as int, w) && w.tag() == tag implies end as int == pos
                    + enc_value(w).len() by {
                lemma_enc_len_by_tag(w);
            }
        }
        Some((v, end))
    } else if tag == TAG_LONG {
        let (n, end) = match read_u64(bytes, pos) {
            Some(v) => v,
            None => {
            proof {
                assert forall|w: ValueModel|
                    !(#[trigger] enc_at(bytes@, pos as int, w) && w.tag() == tag) by {
                    lemma_enc_len_by_tag(w);
                }
            }
            return None;
            },
        };
        let v = Value::Long(#[verifier::truncate] (n as i64));
        proof {
            let x = #[verifier::truncate] (n as i64);
            assert((x as u64) == n) by (bit_vector)
                requires
                    x == n as i64,
            ;
            assert forall|w: ValueModel|
                #[trigger] enc_at(bytes@, pos as int, w) && w.tag() == tag implies end as int == pos
                    + enc_value(w).len() by {
                lemma_enc_len_by_tag(w);
            }
        }
        Some((v, end))
    } else if tag == TAG_FLOAT {
        let (n, end) = match read_u32(bytes, pos) {
            Some(v) => v,
            None => {
            proof {
                assert forall|w: ValueModel|
                    !(#[trigger] enc_at(bytes@, pos as int, w) && w.tag() == tag) by {
                    lemma_enc_len_by_tag(w);
                }
            }
            return None;
            },
        };
        proof {
            assert forall|w: ValueModel|
                #[trigger] enc_at(bytes@, pos as int, w) && w.tag() == tag implies end as int == pos
                    + enc_value(w).len() by {
                lemma_enc_len_by_tag(w);
            }
        }
        Some((Value::Float(n), end))
    } else if tag == TAG_DOUBLE {
        let (n, end) = match read_u64(bytes, pos) {
            Some(v) => v,
            None => {
            proof {
                assert forall|w: ValueModel|
                    !(#[trigger] enc_at(bytes@, pos as int, w) && w.tag() == tag) by {
                    lemma_enc_len_by_tag(w);
                }
            }
            return None;
            },
        };
        proof {
            assert forall|w: ValueModel|
                #[trigger] enc_at(bytes@, pos as int, w) && w.tag() == tag implies end as int == pos
                    + enc_value(w).len() by {
                lemma_enc_len_by_tag(w);
            }
        }
        Some((Value::Double(n), end))
    } else if tag == TAG_BYTES {
        let (n, start) = match read_u32(bytes, pos) {
            Some(v) => v,
            None => {
                proof {
                    assert forall|w: ValueModel|
                        !(#[trigger] enc_at(bytes@, pos as int, w) && w.tag() == tag) by {
                        lemma_enc_len_by_tag(w);
                    }
                }
                return None;
            },
        };
        proof {
            assert forall|w: ValueModel|
                #[trigger] enc_at(bytes@, pos as int, w) && w.tag() == tag implies (w matches
                ValueModel::Bytes(bb) && n == bb.len() as u32 && bb.len() <= 0x7fff_ffff && pos + 4
                    + bb.len() <= bytes@.len()) by {
                lemma_enc_len_by_tag(w);
                match w {
                    ValueModel::Bytes(bb) => {
                        lemma_sub_sub(bytes@, pos as int, enc_value(w), 0, 4);
                        assert(enc_value(w).subrange(0, 4) =~= be32(bb.len() as u32));
                        lemma_be32_injective(n, bb.len() as u32);
                    },
                    _ => {},
                }
            }
        }
        if n > 0x7fff_ffff {
            proof {
                assert forall|w: ValueModel|
                    !(#[trigger] enc_at(bytes@, pos as int, w) && w.tag() == tag) by {}
            }
            return None;
        }
        let count = n as usize;
        if bytes.len() - start < count {
            proof {
                assert forall|w: ValueModel|
                    !(#[trigger] enc_at(bytes@, pos as int, w) && w.tag() == tag) by {}
            }
            return None;
        }
        let mut b: Vec<i8> = Vec::new();
        let mut cur = start;
        let mut i: usize = 0;
        while i < count
            invariant
                cur == start + i,
                0 <= i <= count,
                b@.len() == i,
                forall|j: int| 0 <= j < i ==> (#[trigger] b@[j]) as u8 == bytes@[start + j],
            decreases count - i,
        {
            let byt = bytes[cur];
            let x: i8 = #[verifier::truncate] (byt as i8);
            proof {
                assert((x as u8) == byt) by (bit_vector)
                    requires
                        x == byt as i8,
                ;
            }
            b.push(x);
            cur += 1;
            i += 1;
        }
        let v = Value::Bytes(b);
        proof {
            lemma_subrange_split(bytes@, pos as int, start as int, cur as int);
            assert(enc_i8s(b@) =~= bytes@.subrange(start as int, cur as int));
            assert(bytes@.subrange(pos as int, cur as int) =~= enc_value(v.model()));
            assert forall|w: ValueModel|
                #[trigger] enc_at(bytes@, pos as int, w) && w.tag() == tag implies cur as int == pos
                    + enc_value(w).len() by {}
        }
        Some((v, cur))
    } else if tag == TAG_TEXT {
        let (t, end) = match read_text(bytes, pos) {
            Some(v) => v,
            None => {
                proof {
                    assert forall|w: ValueModel|
                        !(#[trigger] enc_at(bytes@, pos as int, w) && w.tag() == tag) by {
                        lemma_enc_len_by_tag(w);
                        if enc_at(bytes@, pos as int, w) && w.tag() == tag {
                            match w {
                                ValueModel::Text(t0) => {
                                    assert(bytes@.subrange(pos as int, pos + 2 + t0.len())
                                        == be16(t0.len() as u16) + t0);
                                },
                                _ => {},
                            }
                        }
                    }
                }
                return None;
            },
        };
        proof {
            assert forall|w: ValueModel|
                #[trigger] enc_at(bytes@, pos as int, w) && w.tag() == tag implies end as int == pos
                    + enc_value(w).len() by {
                lemma_enc_len_by_tag(w);
                match w {
                    ValueModel::Text(t0) => {
                        assert(bytes@.subrange(pos as int, pos + 2 + t0.len()) == be16(
                            t0.len() as u16,
                        ) + t0);
                    },
                    _ => {},
                }
            }
        }
        Some((Value::Text(t), end))
    } else if tag == TAG_LIST {
        if pos >= bytes.len() {
            proof {
                assert forall|w: ValueModel|
                    !(#[trigger] enc_at(bytes@, pos as int, w) && w.tag() == tag) by {
                    lemma_enc_len_by_tag(w);
                }
            }
            return None;
        }
        let elem = bytes[pos];
        let (n, start) = match read_u32(bytes, pos + 1) {
            Some(v) => v,
            None => {
                proof {
                    assert forall|w: ValueModel|
                        !(#[trigger] enc_at(bytes@, pos as int, w) && w.tag() == tag) by {
                        lemma_enc_len_by_tag(w);
                    }
                }
                return None;
            },
        };
        proof {
            assert forall|w: ValueModel|
                #[trigger] enc_at(bytes@, pos as int, w) && w.tag() == tag implies (w matches
                ValueModel::List(el2, items2) && el2 == elem && n == items2.len() as u32
                    && items2.len() <= 0x7fff_ffff) by {
                lemma_enc_len_by_tag(w);
                match w {
                    ValueModel::List(el2, items2) => {
                        lemma_enc_at_list_header(bytes@, pos as int, el2, items2);
                        lemma_be32_injective(n, items2.len() as u32);
                    },
                    _ => {},
                }
            }
        }
        if n > 0x7fff_ffff {
            proof {
                assert forall|w: ValueModel|
                    !(#[trigger] enc_at(bytes@, pos as int, w) && w.tag() == tag) by {}
            }
            return None;
        }
        let count = n as usize;
        let mut items: Vec<Value> = Vec::new();
        let mut cur = start;
        let mut i: usize = 0;
        proof {
            assert forall|w: ValueModel|
                #[trigger] enc_at(bytes@, pos as int, w) && w.tag() == tag implies (w matches
                ValueModel::List(el2, items2) && items2.len() == count && cur as int == pos + 5
                    + enc_items(items2.take(0)).len()) by {
                match w {
                    ValueModel::List(el2, items2) => {
                        assert(items2.take(0) =~= Seq::<ValueModel>::empty());
                    },
                    _ => {},
                }
            }
        }
        while i < count
            invariant
                pos + 5 == start,
                start <= cur <= bytes@.len(),
                0 <= i <= count,
                items@.len() == i,
                forall|j: int|
                    0 <= j < i ==> (#[trigger] items@[j]).model().wf() && items@[j].model().tag()
                        == elem,
                bytes@.subrange(start as int, cur as int) =~= enc_items(items_model(items@)),
                forall|w: ValueModel|
                    #[trigger] enc_at(bytes@, pos as int, w) && w.tag() == tag ==> (w matches
                    ValueModel::List(el2, items2) && el2 == elem && items2.len() == count && i
                        <= items2.len() && cur as int == pos + 5 + enc_items(
                        items2.take(i as int),
                    ).len()),
            decreases count - i,
        {
            let ghost cur0 = cur as int;
            let (v, vend) = match parse_value(bytes, cur, elem) {
                Some(v) => v,
                None => {
                    proof {
                        assert forall|w: ValueModel|
                            !(#[trigger] enc_at(bytes@, pos as int, w) && w.tag() == tag) by {
                            if enc_at(bytes@, pos as int, w) && w.tag() == tag {
                                match w {
                                    ValueModel::List(el2, items2) => {
                                        lemma_enc_at_list_item(
                                            bytes@,
                                            pos as int,
                                            el2,
                                            items2,
                                            i as int,
                                        );
                                        assert(enc_at(bytes@, cur0, items2[i as int]));
                                    },
                                    _ => {},
                                }
                            }
                        }
                    }
                    return None;
                },
            };
            proof {
                let ghost m0 = items_model(items@);
                lemma_items_model(items@);
                lemma_enc_items_snoc(m0, v.model());
                lemma_items_model(items@.push(v));
                assert(items_model(items@.push(v)) =~= m0.push(v.model()));
                lemma_subrange_split(bytes@, start as int, cur as int, vend as int);
                assert forall|w: ValueModel|
                    #[trigger] enc_at(bytes@, pos as int, w) && w.tag() == tag implies (w matches
                    ValueModel::List(el2, items2) && vend as int == pos + 5 + enc_items(
                        items2.take(i + 1),
                    ).len()) by {
                    match w {
                        ValueModel::List(el2, items2) => {
                            lemma_enc_at_list_item(bytes@, pos as int, el2, items2, i as int);
                            assert(enc_at(bytes@, cur0, items2[i as int]));
                            assert(vend as int == cur0 + enc_value(items2[i as int]).len());
                            assert(items2.take(i + 1) =~= items2.take(i as int).push(
                                items2[i as int],
                            ));
                            lemma_enc_items_snoc(items2.take(i as int), items2[i as int]);
                        },
                        _ => {},
                    }
                }
            }
            items.push(v);
            cur = vend;
            i += 1;
        }
        proof {
            lemma_items_model(items@);
            assert forall|j: int|
                0 <= j < items_model(items@).len() implies (#[trigger] items_model(items@)[j]).tag()
                == elem && items_model(items@)[j].wf() by {}
            crate::nbt::lemma_items_wf_intro(items_model(items@), elem);
        }
        let v = Value::List(NbtList { elem, items });
        proof {
            assert(v.model() == ValueModel::List(elem, items_model(items@)));
            lemma_subrange_split(bytes@, pos as int, pos + 1, start as int);
            assert(bytes@.subrange(pos as int, pos + 1) =~= seq![elem]);
            assert(bytes@.subrange(pos as int, cur as int) =~= enc_value(v.model()));
            assert forall|w: ValueModel|
                #[trigger] enc_at(bytes@, pos as int, w) && w.tag() == tag implies cur as int == pos
                    + enc_value(w).len() by {
                lemma_enc_len_by_tag(w);
                match w {
                    ValueModel::List(el2, items2) => {
                        assert(items2.take(items2.len() as int) =~= items2);
                    },
                    _ => {},
                }
            }
        }
        Some((v, cur))
    } else if tag == TAG_COMPOUND {
        let mut c = Compound::new();
        let mut cur = pos;
        proof {
            assert(bytes@.subrange(pos as int, pos as int) =~= enc_entries(c.model().entries));
            assert forall|w: ValueModel|
                #[trigger] enc_at(bytes@, pos as int, w) && w.tag() == tag implies (w matches
                ValueModel::Compound(cm) && c.model().entries.len() <= cm.entries.len()
                    && cur as int == pos + enc_entries(
                    cm.entries.take(c.model().entries.len() as int),
                ).len() && (forall|a: int|
                    0 <= a < c.model().entries.len() ==> (#[trigger] c.model().entries[a]).0
                        == cm.entries[a].0)) by {
                lemma_enc_len_by_tag(w);
                match w {
                    ValueModel::Compound(cm) => {
                        assert(cm.entries.take(0) =~= Seq::<(Seq<u8>, ValueModel)>::empty());
                    },
                    _ => {},
                }
            }
        }
        loop
            invariant
                pos <= cur <= bytes@.len(),
                c.wf(),
                bytes@.subrange(pos as int, cur as int) =~= enc_entries(c.model().entries),
                forall|w: ValueModel|
                    #[trigger] enc_at(bytes@, pos as int, w) && w.tag() == tag ==> (w matches
                    ValueModel::Compound(cm) && c.model().entries.len() <= cm.entries.len()
                        && cur as int == pos + enc_entries(
                        cm.entries.take(c.model().entries.len() as int),
                    ).len() && (forall|a: int|
                        0 <= a < c.model().entries.len() ==> (#[trigger] c.model().entries[a]).0
                            == cm.entries[a].0)),
            decreases bytes@.len() - cur,
        {
            let ghost j = c.model().entries.len() as int;
            let ghost cur0 = cur as int;
            if cur >= bytes.len() {
                proof {
                    assert forall|w: ValueModel|
                        !(#[trigger] enc_at(bytes@, pos as int, w) && w.tag() == tag) by {
                        lemma_enc_len_by_tag(w);
                        if enc_at(bytes@, pos as int, w) && w.tag() == tag {
                            match w {
                                ValueModel::Compound(cm) => {
                                    lemma_enc_entries_split(cm.entries, j);
                                },
                                _ => {},
                            }
                        }
                    }
                }
                return None;
            }
            let t = bytes[cur];
            if t == TAG_END {
                let v = Value::Compound(c);
                proof {
                    lemma_subrange_split(bytes@, pos as int, cur as int, cur + 1);
                    assert(bytes@.subrange(cur as int, cur + 1) =~= seq![TAG_END]);
                    assert(bytes@.subrange(pos as int, cur + 1) =~= enc_value(v.model()));
                    assert forall|w: ValueModel|
                        #[trigger] enc_at(bytes@, pos as int, w) && w.tag() == tag implies cur + 1
                            == pos + enc_value(w).len() by {
                        lemma_enc_len_by_tag(w);
                        match w {
                            ValueModel::Compound(cm) => {
                                if j < cm.entries.len() {
                                    lemma_enc_at_entry(bytes@, pos as int, cm, j);
                                    lemma_enc_len_by_tag(cm.entries[j].1);
                                    assert(bytes@[cur0] == cm.entries[j].1.tag());
                                    assert(false);
                                }
                                assert(cm.entries.take(j) =~= cm.entries);
                            },
                            _ => {},
                        }
                    }
                }
                return Some((v, cur + 1));
            }
            let (key, kend) = match read_text(bytes, cur + 1) {
                Some(v) => v,
                None => {
                    proof {
                        assert forall|w: ValueModel|
                            !(#[trigger] enc_at(bytes@, pos as int, w) && w.tag() == tag) by {
                            if enc_at(bytes@, pos as int, w) && w.tag() == tag {
                                match w {
                                    ValueModel::Compound(cm) => {
                                        if j == cm.entries.len() {
                                            lemma_enc_at_compound_end(bytes@, pos as int, cm);
                                            assert(cm.entries.take(j) =~= cm.entries);
                                        } else {
                                            lemma_enc_at_entry(bytes@, pos as int, cm, j);
                                            assert(bytes@.subrange(
                                                cur0 + 1,
                                                cur0 + 3 + cm.entries[j].0.len(),
                                            ) == be16(cm.entries[j].0.len() as u16)
                                                + cm.entries[j].0);
                                        }
                                    },
                                    _ => {},
                                }
                            }
                        }
                    }
                    return None;
                },
            };
            proof {
                assert forall|w: ValueModel|
                    #[trigger] enc_at(bytes@, pos as int, w) && w.tag() == tag implies (w matches
                    ValueModel::Compound(cm) && j < cm.entries.len() && key@ == cm.entries[j].0
                        && kend as int == cur0 + 3 + cm.entries[j].0.len() && t
                        == cm.entries[j].1.tag()) by {
                    match w {
                        ValueModel::Compound(cm) => {
                            if j == cm.entries.len() {
                                lemma_enc_at_compound_end(bytes@, pos as int, cm);
                                assert(cm.entries.take(j) =~= cm.entries);
                                assert(false);
                            }
                            lemma_enc_at_entry(bytes@, pos as int, cm, j);
                            let kj = cm.entries[j].0;
                            assert(bytes@.subrange(cur0 + 1, cur0 + 3 + kj.len()) == be16(
                                kj.len() as u16,
                            ) + kj);
                            assert(kend as int == cur0 + 3 + kj.len());
                            assert(bytes@.subrange(cur0 + 1, kend as int) == be16(
                                key@.len() as u16,
                            ) + key@);
                            assert(2 + key@.len() == 2 + kj.len());
                            assert(key@ =~= kj) by {
                                assert forall|q: int| 0 <= q < kj.len() implies key@[q]
                                    == kj[q] by {
                                    assert((be16(key@.len() as u16) + key@)[2 + q] == key@[q]);
                                    assert((be16(kj.len() as u16) + kj)[2 + q] == kj[q]);
                                }
                            }
                            assert(bytes@[cur0] == cm.entries[j].1.tag());
                        },
                        _ => {},
                    }
                }
            }
            if c.contains_key(key.as_slice()) {
                proof {
                    assert forall|w: ValueModel|
                        !(#[trigger] enc_at(bytes@, pos as int, w) && w.tag() == tag) by {
                        if enc_at(bytes@, pos as int, w) && w.tag() == tag {
                            match w {
                                ValueModel::Compound(cm) => {
                                    crate::nbt::lemma_lookup_some_index(
                                        c.model().entries,
                                        key@,
                                    );
                                    let a = choose|a: int|
                                        0 <= a < c.model().entries.len() && (
                                        #[trigger] c.model().entries[a]).0 == key@
                                            && crate::nbt::lookup_seq(c.model().entries, key@)
                                            == Some(c.model().entries[a].1);
                                    assert(cm.entries[a].0 == cm.entries[j].0);
                                },
                                _ => {},
                            }
                        }
                    }
                }
                return None;
            }
            let (v, vend) = match parse_value(bytes, kend, t) {
                Some(v) => v,
                None => {
                    proof {
                        assert forall|w: ValueModel|
                            !(#[trigger] enc_at(bytes@, pos as int, w) && w.tag() == tag) by {
                            if enc_at(bytes@, pos as int, w) && w.tag() == tag {
                                match w {
                                    ValueModel::Compound(cm) => {
                                        lemma_enc_at_entry(bytes@, pos as int, cm, j);
                                        assert(enc_at(
                                            bytes@,
                                            cur0 + 3 + cm.entries[j].0.len(),
                                            cm.entries[j].1,
                                        ));
                                    },
                                    _ => {},
                                }
                            }
                        }
                    }
                    return None;
                },
            };
            let ghost m0 = c.model().entries;
            proof {
                lemma_subrange_split(bytes@, pos as int, cur as int, vend as int);
                lemma_subrange_split(bytes@, cur as int, cur + 1, vend as int);
                lemma_subrange_split(bytes@, cur + 1, kend as int, vend as int);
                assert(bytes@.subrange(cur as int, cur + 1) =~= seq![t]);
            }
            c.insert(key, v);
            proof {
                lemma_enc_entries_snoc(m0, c.model().entries.last());
                assert(c.model().entries =~= m0.push(c.model().entries.last()));
                assert(bytes@.subrange(pos as int, vend as int) =~= enc_entries(
                    c.model().entries,
                ));
                assert forall|w: ValueModel|
                    #[trigger] enc_at(bytes@, pos as int, w) && w.tag() == tag implies (w matches
                    ValueModel::Compound(cm) && j + 1 <= cm.entries.len() && vend as int == pos
                        + enc_entries(cm.entries.take(j + 1)).len() && (forall|a: int|
                        0 <= a < j + 1 ==> (#[trigger] c.model().entries[a]).0
                            == cm.entries[a].0)) by {
                    match w {
                        ValueModel::Compound(cm) => {
                            lemma_enc_at_entry(bytes@, pos as int, cm, j);
                            assert(enc_at(bytes@, kend as int, cm.entries[j].1));
                            assert(vend as int == kend as int + enc_value(cm.entries[j].1).len());
                            assert forall|a: int| 0 <= a < j + 1 implies (
                            #[trigger] c.model().entries[a]).0 == cm.entries[a].0 by {
                                if a < j {
                                    assert(c.model().entries[a] == m0[a]);
                                } else {
                                    assert(c.model().entries[a] == (key@, v.model()));
                                }
                            }
                        },
                        _ => {},
                    }
                }
            }
            cur = vend;
        }
    } else if tag == TAG_INTS {
        let (n, start) = match read_u32(bytes, pos) {
            Some(v) => v,
            None => {
                proof {
                    assert forall|w: ValueModel|
                        !(#[trigger] enc_at(bytes@, pos as int, w) && w.tag() == tag) by {
                        lemma_enc_len_by_tag(w);
                    }
                }
                return None;
            },
        };
        proof {
            assert forall|w: ValueModel|
                #[trigger] enc_at(bytes@, pos as int, w) && w.tag() == tag implies (w matches
                ValueModel::Ints(ss) && n == ss.len() as u32 && ss.len() <= 0x7fff_ffff && pos + 4
                    + 4 * ss.len() <= bytes@.len()) by {
                lemma_enc_len_by_tag(w);
                match w {
                    ValueModel::Ints(ss) => {
                        lemma_sub_sub(bytes@, pos as int, enc_value(w), 0, 4);
                        assert(enc_value(w).subrange(0, 4) =~= be32(ss.len() as u32));
                        lemma_be32_injective(n, ss.len() as u32);
                    },
                    _ => {},
                }
            }
        }
        if n > 0x7fff_ffff {
            proof {
                assert forall|w: ValueModel|
                    !(#[trigger] enc_at(bytes@, pos as int, w) && w.tag() == tag) by {}
            }
            return None;
        }
        let count = n as usize;
        let mut s: Vec<i32> = Vec::new();
        let mut cur = start;
        let mut i: usize = 0;
        while i < count
            invariant
                pos + 4 == start,
                start <= cur <= bytes@.len(),
                cur == start + 4 * i,
                0 <= i <= count,
                s@.len() == i,
                bytes@.subrange(start as int, cur as int) =~= enc_i32s(s@),
            decreases count - i,
        {
            let (w, wend) = match read_u32(bytes, cur) {
                Some(v) => v,
                None => {
                    proof {
                        assert forall|w2: ValueModel|
                            !(#[trigger] enc_at(bytes@, pos as int, w2) && w2.tag() == tag) by {}
                    }
                    return None;
                },
            };
            let x: i32 = #[verifier::truncate] (w as i32);
            proof {
                assert((x as u32) == w) by (bit_vector)
                    requires
                        x == w as i32,
                ;
                lemma_enc_i32s_snoc(s@, x);
                lemma_subrange_split(bytes@, start as int, cur as int, wend as int);
            }
            s.push(x);
            cur = wend;
            i += 1;
        }
        let v = Value::Ints(s);
        proof {
            lemma_subrange_split(bytes@, pos as int, start as int, cur as int);
            assert(bytes@.subrange(pos as int, cur as int) =~= enc_value(v.model()));
            assert forall|w: ValueModel|
                #[trigger] enc_at(bytes@, pos as int, w) && w.tag() == tag implies cur as int == pos
                    + enc_value(w).len() by {
                lemma_enc_len_by_tag(w);
            }
        }
        Some((v, cur))
    } else if tag == TAG_LONGS {
        let (n, start) = match read_u32(bytes, pos) {
            Some(v) => v,
            None => {
                proof {
                    assert forall|w: ValueModel|
                        !(#[trigger] enc_at(bytes@, pos as int, w) && w.tag() == tag) by {
                        lemma_enc_len_by_tag(w);
                    }
                }
                return None;
            },
        };
        proof {
            assert forall|w: ValueModel|
                #[trigger] enc_at(bytes@, pos as int, w) && w.tag() == tag implies (w matches
                ValueModel::Longs(ss) && n == ss.len() as u32 && ss.len() <= 0x7fff_ffff && pos + 4
                    + 8 * ss.len() <= bytes@.len()) by {
                lemma_enc_len_by_tag(w);
                match w {
                    ValueModel::Longs(ss) => {
                        lemma_sub_sub(bytes@, pos as int, enc_value(w), 0, 4);
                        assert(enc_value(w).subrange(0, 4) =~= be32(ss.len() as u32));
                        lemma_be32_injective(n, ss.len() as u32);
                    },
                    _ => {},
                }
            }
        }
        if n > 0x7fff_ffff {
            proof {
                assert forall|w: ValueModel|
                    !(#[trigger] enc_at(bytes@, pos as int, w) && w.tag() == tag) by {}
            }
            return None;
        }
        let count = n as usize;
        let mut s: Vec<i64> = Vec::new();
        let mut cur = start;
        let mut i: usize = 0;
        while i < count
            invariant
                pos + 4 == start,
                start <= cur <= bytes@.len(),
                cur == start + 8 * i,
                0 <= i <= count,
                s@.len() == i,
                bytes@.subrange(start as int, cur as int) =~= enc_i64s(s@),
            decreases count - i,
        {
            let (w, wend) = match read_u64(bytes, cur) {
                Some(v) => v,
                None => {
                    proof {
                        assert forall|w2: ValueModel|
                            !(#[trigger] enc_at(bytes@, pos as int, w2) && w2.tag() == tag) by {}
                    }
                    return None;
                },
            };
            let x: i64 = #[verifier::truncate] (w as i64);
            proof {
                assert((x as u64) == w) by (bit_vector)
                    requires
                        x == w as i64,
                ;
                lemma_enc_i64s_snoc(s@, x);
                lemma_subrange_split(bytes@, start as int, cur as int, wend as int);
            }
            s.push(x);
            cur = wend;
            i += 1;
        }
        let v = Value::Longs(s);
        proof {
            lemma_subrange_split(bytes@, pos as int, start as int, cur as int);
            assert(bytes@.subrange(pos as int, cur as int) =~= enc_value(v.model()));
            assert forall|w: ValueModel|
                #[trigger] enc_at(bytes@, pos as int, w) && w.tag() == tag implies cur as int == pos
                    + enc_value(w).len() by {
                lemma_enc_len_by_tag(w);
            }
        }
        Some((v, cur))
    } else {
        proof {
            assert forall|w: ValueModel|
                !(#[trigger] enc_at(bytes@, pos as int, w) && w.tag() == tag) by {
                lemma_enc_len_by_tag(w);
            }
        }
        None
    }
}

/// Decode a whole record file: its root name and root node.
///
/// On success the whole input is exactly the encoding of the result, so
/// re-encoding what was decoded reproduces the file byte for byte; and
/// whenever the input is the encoding of a well-formed record, the decode
/// succeeds.
pub fn decode_named(bytes: &Vec<u8>) -> (r: Option<(Vec<u8>, Compound)>)
    ensures
        match r {
            Some((name, c)) => c.wf() && name@.len() <= MAX_TEXT_LEN && bytes@ == enc_named(
                name@,
                c.model(),
            ),
            None => true,
        },
        (exists|n: Seq<u8>, c: CompoundModel|
            c.wf() && n.len() <= MAX_TEXT_LEN && bytes@ == enc_named(n, c)) ==> r is Some,
{
    let ghost hyp = exists|n: Seq<u8>, c: CompoundModel|
        c.wf() && n.len() <= MAX_TEXT_LEN && bytes@ == enc_named(n, c);
    proof {
        if hyp {
            let (n, c) = choose|n: Seq<u8>, c: CompoundModel|
                c.wf() && n.len() <= MAX_TEXT_LEN && bytes@ == enc_named(n, c);
            let pv = enc_value(ValueModel::Compound(c));
            assert(bytes@.len() == 3 + n.len() + pv.len());
            assert(pv.len() >= 1);
            assert(bytes@[0] == TAG_COMPOUND);
            assert(bytes@.subrange(1, 3 + n.len() as int) =~= be16(n.len() as u16) + n);
            assert(bytes@.subrange(3 + n.len() as int, 3 + n.len() as int + pv.len() as int)
                =~= pv);
            assert(enc_at(bytes@, 3 + n.len() as int, ValueModel::Compound(c)));
        }
    }
    if bytes.len() < 1 || bytes[0] != TAG_COMPOUND {
        proof {
            assert(!hyp);
        }
        return None;
    }
    let (name, nend) = match read_text(bytes, 1) {
        Some(v) => v,
        None => {
            proof {
                assert(!hyp);
            }
            return None;
        },
    };
    proof {
        if hyp {
            let (n, c) = choose|n: Seq<u8>, c: CompoundModel|
                c.wf() && n.len() <= MAX_TEXT_LEN && bytes@ == enc_named(n, c);
            assert(nend as int == 3 + n.len() as int);
        }
    }
    let (v, end) = match parse_value(bytes, nend, TAG_COMPOUND) {
        Some(v) => v,
        None => {
            proof {
                assert(!hyp);
            }
            return None;
        },
    };
    if end != bytes.len() {
        proof {
            assert(!hyp);
        }
        return None;
    }
    match v {
        Value::Compound(c) => {
            proof {
                lemma_subrange_split(bytes@, 0, 1, nend as int);
                lemma_subrange_split(bytes@, 0, nend as int, end as int);
                assert(bytes@.subrange(0, 1) =~= seq![TAG_COMPOUND]);
                assert(bytes@.subrange(0, bytes@.len() as int) =~= bytes@);
                assert(bytes@ =~= enc_named(name@, c.model()));
            }
            Some((name, c))
        },
        _ => {
            proof {
                assert(false);
            }
            None
        },
    }
}

/// The byte string of a whole record file: root tag, name, entries, end tag.
pub fn encode_named(name: &Vec<u8>, c: &Compound) -> (r: Vec<u8>)
    requires
        c.model().wf(),
        name@.len() <= MAX_TEXT_LEN,
    ensures
        r@ == enc_named(name@, c.model()),
{
    let mut out: Vec<u8> = Vec::new();
    out.push(TAG_COMPOUND);
    push_u16(&mut out, #[verifier::truncate] (name.len() as u16));
    push_bytes(&mut out, name);
    let ghost mid = out@;
    encode_entries(c, &mut out);
    out.push(TAG_END);
    proof {
        assert(enc_value(ValueModel::Compound(c.model())) =~= enc_entries(c.model().entries) + seq![
            TAG_END,
        ]);
        assert(out@ =~= enc_named(name@, c.model()));
    }
    out
}

} // verus!
