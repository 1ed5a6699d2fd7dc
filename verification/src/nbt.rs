//! The tagged-record data model: a tree of named values.
//!
//! Inner nodes are maps from byte-string keys to values; keys are unique
//! within a node and insertion order is kept, which the binary codec relies
//! on for byte-exact round trips. Strings carry raw modified-UTF-8 bytes so
//! that values that are not valid UTF-16 survive unchanged, and the two
//! floating-point kinds are carried as their IEEE-754 bit patterns.
//!
//! Every contract speaks of the mathematical model of a record: `ValueModel`
//! trees over sequences, reached through `Value::model` and `Compound::model`.
use vstd::prelude::*;
use vstd::string::StringSliceAdditionalSpecFns;

verus! {

/// One tagged value of a record tree.
pub enum Value {
    Byte(i8),
    Short(i16),
    Int(i32),
    Long(i64),
    /// 32-bit float, carried as its bit pattern.
    Float(u32),
    /// 64-bit float, carried as its bit pattern.
    Double(u64),
    Bytes(Vec<i8>),
    /// A string as raw modified-UTF-8 bytes.
    Text(Vec<u8>),
    List(NbtList),
    Compound(Compound),
    Ints(Vec<i32>),
    Longs(Vec<i64>),
}

/// A list of values that all share one element tag.
pub struct NbtList {
    /// The element tag; arbitrary when the list is empty.
    pub elem: u8,
    pub items: Vec<Value>,
}

/// An inner node: named values with unique keys, in insertion order.
pub struct Compound {
    pub entries: Vec<(Vec<u8>, Value)>,
}

/// The mathematical shape of a value.
#[verifier::ext_equal]
pub enum ValueModel {
    Byte(i8),
    Short(i16),
    Int(i32),
    Long(i64),
    Float(u32),
    Double(u64),
    Bytes(Seq<i8>),
    Text(Seq<u8>),
    List(u8, Seq<ValueModel>),
    Compound(CompoundModel),
    Ints(Seq<i32>),
    Longs(Seq<i64>),
}

/// The mathematical shape of an inner node: its entry sequence.
#[verifier::ext_equal]
pub struct CompoundModel {
    pub entries: Seq<(Seq<u8>, ValueModel)>,
}

pub const TAG_END: u8 = 0;
pub const TAG_BYTE: u8 = 1;
pub const TAG_SHORT: u8 = 2;
pub const TAG_INT: u8 = 3;
pub const TAG_LONG: u8 = 4;
pub const TAG_FLOAT: u8 = 5;
pub const TAG_DOUBLE: u8 = 6;
pub const TAG_BYTES: u8 = 7;
pub const TAG_TEXT: u8 = 8;
pub const TAG_LIST: u8 = 9;
pub const TAG_COMPOUND: u8 = 10;
pub const TAG_INTS: u8 = 11;
pub const TAG_LONGS: u8 = 12;

/// Longest key or string payload the binary format can carry.
pub const MAX_TEXT_LEN: usize = 65535;

/// Longest array or list the binary format can carry.
pub const MAX_SEQ_LEN: usize = 0x7fff_ffff;

impl Value {
    /// The model of this value.
    pub open spec fn model(self) -> ValueModel
        decreases self,
    {
        match self {
            Value::Byte(x) => ValueModel::Byte(x),
            Value::Short(x) => ValueModel::Short(x),
            Value::Int(x) => ValueModel::Int(x),
            Value::Long(x) => ValueModel::Long(x),
            Value::Float(x) => ValueModel::Float(x),
            Value::Double(x) => ValueModel::Double(x),
            Value::Bytes(b) => ValueModel::Bytes(b@),
            Value::Text(t) => ValueModel::Text(t@),
            Value::List(l) => ValueModel::List(l.elem, items_model(l.items@)),
            Value::Compound(c) => ValueModel::Compound(c.model()),
            Value::Ints(v) => ValueModel::Ints(v@),
            Value::Longs(v) => ValueModel::Longs(v@),
        }
    }
}

/// The models of a sequence of values, in order.
pub open spec fn items_model(s: Seq<Value>) -> Seq<ValueModel>
    decreases s,
{
    if s.len() == 0 {
        Seq::empty()
    } else {
        seq![s[0].model()] + items_model(s.skip(1))
    }
}

/// The models of a sequence of entries, in order.
pub open spec fn entries_model(s: Seq<(Vec<u8>, Value)>) -> Seq<(Seq<u8>, ValueModel)>
    decreases s,
{
    if s.len() == 0 {
        Seq::empty()
    } else {
        seq![(s[0].0@, s[0].1.model())] + entries_model(s.skip(1))
    }
}

impl Compound {
    /// The model of this node.
    pub open spec fn model(self) -> CompoundModel
        decreases self,
    {
        CompoundModel { entries: entries_model(self.entries@) }
    }

    /// The value stored under key `k`, if any.
    pub open spec fn lookup(self, k: Seq<u8>) -> Option<ValueModel> {
        self.model().lookup(k)
    }

    pub open spec fn has_key(self, k: Seq<u8>) -> bool {
        self.model().has_key(k)
    }

    /// The node's keys, in entry order.
    pub open spec fn keys(self) -> Seq<Seq<u8>> {
        self.model().keys()
    }

    pub open spec fn wf(self) -> bool {
        self.model().wf()
    }
}

/// `items_model` taken pointwise.
pub proof fn lemma_items_model(s: Seq<Value>)
    ensures
        items_model(s).len() == s.len(),
        forall|i: int| 0 <= i < s.len() ==> #[trigger] items_model(s)[i] == s[i].model(),
    decreases s,
{
    if s.len() > 0 {
        lemma_items_model(s.skip(1));
        assert forall|i: int| 0 <= i < s.len() implies #[trigger] items_model(s)[i]
            == s[i].model() by {
            if i > 0 {
                assert(items_model(s)[i] == items_model(s.skip(1))[i - 1]);
                assert(s.skip(1)[i - 1] == s[i]);
            }
        }
    }
}

/// `entries_model` taken pointwise.
pub proof fn lemma_entries_model(s: Seq<(Vec<u8>, Value)>)
    ensures
        entries_model(s).len() == s.len(),
        forall|i: int|
            0 <= i < s.len() ==> #[trigger] entries_model(s)[i] == (s[i].0@, s[i].1.model()),
    decreases s,
{
    if s.len() > 0 {
        lemma_entries_model(s.skip(1));
        assert forall|i: int| 0 <= i < s.len() implies #[trigger] entries_model(s)[i] == (
        s[i].0@, s[i].1.model()) by {
            if i > 0 {
                assert(entries_model(s)[i] == entries_model(s.skip(1))[i - 1]);
                assert(s.skip(1)[i - 1] == s[i]);
            }
        }
    }
}

impl ValueModel {
    /// The tag byte that classifies this value in the binary format.
    pub open spec fn tag(self) -> u8 {
        match self {
            ValueModel::Byte(_) => TAG_BYTE,
            ValueModel::Short(_) => TAG_SHORT,
            ValueModel::Int(_) => TAG_INT,
            ValueModel::Long(_) => TAG_LONG,
            ValueModel::Float(_) => TAG_FLOAT,
            ValueModel::Double(_) => TAG_DOUBLE,
            ValueModel::Bytes(_) => TAG_BYTES,
            ValueModel::Text(_) => TAG_TEXT,
            ValueModel::List(_, _) => TAG_LIST,
            ValueModel::Compound(_) => TAG_COMPOUND,
            ValueModel::Ints(_) => TAG_INTS,
            ValueModel::Longs(_) => TAG_LONGS,
        }
    }

    /// Well-formed: every nested node has unique keys and every length
    /// fits what the binary format can represent.
    pub open spec fn wf(self) -> bool
        decreases self,
    {
        match self {
            ValueModel::Byte(_) => true,
            ValueModel::Short(_) => true,
            ValueModel::Int(_) => true,
            ValueModel::Long(_) => true,
            ValueModel::Float(_) => true,
            ValueModel::Double(_) => true,
            ValueModel::Bytes(b) => b.len() <= MAX_SEQ_LEN,
            ValueModel::Text(t) => t.len() <= MAX_TEXT_LEN,
            ValueModel::List(elem, items) => items.len() <= MAX_SEQ_LEN && items_wf(items, elem),
            ValueModel::Compound(c) => c.wf(),
            ValueModel::Ints(v) => v.len() <= MAX_SEQ_LEN,
            ValueModel::Longs(v) => v.len() <= MAX_SEQ_LEN,
        }
    }
}

impl CompoundModel {
    /// The value under the first entry whose key is `k`, if any.
    pub open spec fn lookup(self, k: Seq<u8>) -> Option<ValueModel> {
        lookup_seq(self.entries, k)
    }

    pub open spec fn has_key(self, k: Seq<u8>) -> bool {
        self.lookup(k) is Some
    }

    /// The node's keys, in entry order.
    pub open spec fn keys(self) -> Seq<Seq<u8>> {
        self.entries.map(|i: int, e: (Seq<u8>, ValueModel)| e.0)
    }

    /// Well-formed: unique keys, representable lengths, well-formed values.
    pub open spec fn wf(self) -> bool
        decreases self,
    {
        keys_unique(self.entries) && entries_wf(self.entries)
    }
}

/// Every item is well formed and carries the list's element tag.
pub open spec fn items_wf(s: Seq<ValueModel>, elem: u8) -> bool
    decreases s,
{
    s.len() == 0 || (s[0].tag() == elem && s[0].wf() && items_wf(s.skip(1), elem))
}

/// Every entry has a key the format can carry and a well-formed value.
pub open spec fn entries_wf(s: Seq<(Seq<u8>, ValueModel)>) -> bool
    decreases s,
{
    s.len() == 0 || (s[0].0.len() <= MAX_TEXT_LEN && s[0].1.wf() && entries_wf(s.skip(1)))
}

/// No two entries share a key.
pub open spec fn keys_unique(s: Seq<(Seq<u8>, ValueModel)>) -> bool {
    forall|i: int, j: int|
        0 <= i < j < s.len() ==> (#[trigger] s[i]).0 != (#[trigger] s[j]).0
}

/// The value under the first entry whose key is `k`, if any.
pub open spec fn lookup_seq(s: Seq<(Seq<u8>, ValueModel)>, k: Seq<u8>) -> Option<ValueModel>
    decreases s,
{
    if s.len() == 0 {
        None
    } else if s[0].0 == k {
        Some(s[0].1)
    } else {
        lookup_seq(s.skip(1), k)
    }
}

/// Pointwise facts carried by `entries_wf`.
pub proof fn lemma_entries_wf_index(s: Seq<(Seq<u8>, ValueModel)>, i: int)
    requires
        entries_wf(s),
        0 <= i < s.len(),
    ensures
        s[i].0.len() <= MAX_TEXT_LEN,
        s[i].1.wf(),
    decreases s.len(),
{
    if i > 0 {
        lemma_entries_wf_index(s.skip(1), i - 1);
    }
}

/// `entries_wf` from its pointwise facts.
pub proof fn lemma_entries_wf_intro(s: Seq<(Seq<u8>, ValueModel)>)
    requires
        forall|i: int|
            0 <= i < s.len() ==> (#[trigger] s[i]).0.len() <= MAX_TEXT_LEN && s[i].1.wf(),
    ensures
        entries_wf(s),
    decreases s.len(),
{
    if s.len() > 0 {
        lemma_entries_wf_intro(s.skip(1));
    }
}

/// Pointwise facts carried by `items_wf`.
pub proof fn lemma_items_wf_index(s: Seq<ValueModel>, elem: u8, i: int)
    requires
        items_wf(s, elem),
        0 <= i < s.len(),
    ensures
        s[i].tag() == elem,
        s[i].wf(),
    decreases s.len(),
{
    if i > 0 {
        lemma_items_wf_index(s.skip(1), elem, i - 1);
    }
}

/// `items_wf` from its pointwise facts.
pub proof fn lemma_items_wf_intro(s: Seq<ValueModel>, elem: u8)
    requires
        forall|i: int| 0 <= i < s.len() ==> (#[trigger] s[i]).tag() == elem && s[i].wf(),
    ensures
        items_wf(s, elem),
    decreases s.len(),
{
    if s.len() > 0 {
        lemma_items_wf_intro(s.skip(1), elem);
    }
}

/// While no key among the first `n` entries is `k`, the lookup is decided
/// by the remaining entries.
pub proof fn lemma_lookup_skip(s: Seq<(Seq<u8>, ValueModel)>, k: Seq<u8>, n: int)
    requires
        0 <= n <= s.len(),
        forall|i: int| 0 <= i < n ==> (#[trigger] s[i]).0 != k,
    ensures
        lookup_seq(s, k) == lookup_seq(s.skip(n), k),
    decreases n,
{
    if n == 0 {
        assert(s.skip(0) =~= s);
    } else {
        assert(s[0].0 != k);
        assert forall|i: int| 0 <= i < n - 1 implies (#[trigger] s.skip(1)[i]).0 != k by {
            assert(s.skip(1)[i] == s[i + 1]);
        }
        lemma_lookup_skip(s.skip(1), k, n - 1);
        assert(s.skip(1).skip(n - 1) =~= s.skip(n));
    }
}

/// A lookup that hits entry `i`, the first entry with that key.
pub proof fn lemma_lookup_at(s: Seq<(Seq<u8>, ValueModel)>, i: int)
    requires
        0 <= i < s.len(),
        forall|j: int| 0 <= j < i ==> (#[trigger] s[j]).0 != s[i].0,
    ensures
        lookup_seq(s, s[i].0) == Some(s[i].1),
{
    lemma_lookup_skip(s, s[i].0, i);
    assert(s.skip(i)[0] == s[i]);
}

/// A key held by no entry is not found.
pub proof fn lemma_lookup_none(s: Seq<(Seq<u8>, ValueModel)>, k: Seq<u8>)
    requires
        forall|i: int| 0 <= i < s.len() ==> (#[trigger] s[i]).0 != k,
    ensures
        lookup_seq(s, k) is None,
{
    lemma_lookup_skip(s, k, s.len() as int);
}

/// A found key is held by some entry.
pub proof fn lemma_lookup_some_index(s: Seq<(Seq<u8>, ValueModel)>, k: Seq<u8>)
    requires
        lookup_seq(s, k) is Some,
    ensures
        exists|i: int|
            0 <= i < s.len() && (#[trigger] s[i]).0 == k && lookup_seq(s, k) == Some(s[i].1),
    decreases s.len(),
{
    if s[0].0 == k {
        assert(s[0].0 == k && lookup_seq(s, k) == Some(s[0].1));
    } else {
        lemma_lookup_some_index(s.skip(1), k);
        let i = choose|i: int|
            0 <= i < s.skip(1).len() && (#[trigger] s.skip(1)[i]).0 == k && lookup_seq(
                s.skip(1),
                k,
            ) == Some(s.skip(1)[i].1);
        assert(s[i + 1].0 == k && lookup_seq(s, k) == Some(s[i + 1].1));
    }
}

/// Replacing the entry that holds a key rebinds that key and nothing else.
pub proof fn lemma_lookup_update(s: Seq<(Seq<u8>, ValueModel)>, i: int, e: (Seq<u8>, ValueModel))
    requires
        keys_unique(s),
        0 <= i < s.len(),
        s[i].0 == e.0,
    ensures
        forall|k: Seq<u8>|
            #[trigger] lookup_seq(s.update(i, e), k) == if k == e.0 {
                Some(e.1)
            } else {
                lookup_seq(s, k)
            },
{
    let t = s.update(i, e);
    assert forall|k: Seq<u8>|
        #[trigger] lookup_seq(t, k) == if k == e.0 {
            Some(e.1)
        } else {
            lookup_seq(s, k)
        } by {
        if k == e.0 {
            assert forall|j: int| 0 <= j < i implies (#[trigger] t[j]).0 != t[i].0 by {
                assert(t[j] == s[j]);
            }
            assert(t[i] == e);
            lemma_lookup_at(t, i);
        } else {
            if lookup_seq(s, k) is Some {
                lemma_lookup_some_index(s, k);
                let j = choose|j: int|
                    0 <= j < s.len() && (#[trigger] s[j]).0 == k && lookup_seq(s, k) == Some(
                        s[j].1,
                    );
                assert forall|a: int| 0 <= a < j implies (#[trigger] t[a]).0 != t[j].0 by {
                    assert(t[a] == if a == i {
                        e
                    } else {
                        s[a]
                    });
                }
                assert(t[j] == s[j]);
                lemma_lookup_at(t, j);
                assert forall|a: int| 0 <= a < j implies (#[trigger] s[a]).0 != s[j].0 by {}
                lemma_lookup_at(s, j);
            } else {
                assert forall|a: int| 0 <= a < s.len() implies (#[trigger] s[a]).0 != k by {
                    if s[a].0 == k {
                        assert forall|b: int| 0 <= b < a implies (#[trigger] s[b]).0 != s[a].0 by {}
                        lemma_lookup_at(s, a);
                    }
                }
                assert forall|a: int| 0 <= a < t.len() implies (#[trigger] t[a]).0 != k by {
                    assert(t[a] == if a == i {
                        e
                    } else {
                        s[a]
                    });
                }
                lemma_lookup_none(t, k);
            }
        }
    }
}

/// Appending an entry under a fresh key binds that key and nothing else.
pub proof fn lemma_lookup_push(s: Seq<(Seq<u8>, ValueModel)>, e: (Seq<u8>, ValueModel))
    requires
        forall|i: int| 0 <= i < s.len() ==> (#[trigger] s[i]).0 != e.0,
    ensures
        forall|k: Seq<u8>|
            #[trigger] lookup_seq(s.push(e), k) == if k == e.0 {
                Some(e.1)
            } else {
                lookup_seq(s, k)
            },
{
    let t = s.push(e);
    assert forall|k: Seq<u8>|
        #[trigger] lookup_seq(t, k) == if k == e.0 {
            Some(e.1)
        } else {
            lookup_seq(s, k)
        } by {
        if k == e.0 {
            assert forall|j: int| 0 <= j < s.len() implies (#[trigger] t[j]).0 != t[s.len() as int].0
                by {
                assert(t[j] == s[j]);
            }
            assert(t[s.len() as int] == e);
            lemma_lookup_at(t, s.len() as int);
        } else {
            if lookup_seq(s, k) is Some {
                lemma_lookup_some_index(s, k);
                let j = choose|j: int|
                    0 <= j < s.len() && (#[trigger] s[j]).0 == k && lookup_seq(s, k) == Some(
                        s[j].1,
                    );
                lemma_first_match(s, k, j);
                let jf = choose|jf: int|
                    0 <= jf <= j && (#[trigger] s[jf]).0 == k && forall|a: int|
                        0 <= a < jf ==> (#[trigger] s[a]).0 != k;
                assert forall|a: int| 0 <= a < jf implies (#[trigger] t[a]).0 != t[jf].0 by {
                    assert(t[a] == s[a]);
                }
                assert(t[jf] == s[jf]);
                lemma_lookup_at(t, jf);
                lemma_lookup_at(s, jf);
            } else {
                assert forall|a: int| 0 <= a < s.len() implies (#[trigger] s[a]).0 != k by {
                    if s[a].0 == k {
                        lemma_first_match(s, k, a);
                        let jf = choose|jf: int|
                            0 <= jf <= a && (#[trigger] s[jf]).0 == k && forall|b: int|
                                0 <= b < jf ==> (#[trigger] s[b]).0 != k;
                        lemma_lookup_at(s, jf);
                    }
                }
                assert forall|a: int| 0 <= a < t.len() implies (#[trigger] t[a]).0 != k by {
                    assert(t[a] == if a == s.len() as int {
                        e
                    } else {
                        s[a]
                    });
                }
                lemma_lookup_none(t, k);
            }
        }
    }
}

/// Some entry with key `k` at or before `j` is the first such entry.
pub proof fn lemma_first_match(s: Seq<(Seq<u8>, ValueModel)>, k: Seq<u8>, j: int)
    requires
        0 <= j < s.len(),
        s[j].0 == k,
    ensures
        exists|jf: int|
            0 <= jf <= j && (#[trigger] s[jf]).0 == k && forall|a: int|
                0 <= a < jf ==> (#[trigger] s[a]).0 != k,
    decreases j,
{
    if forall|a: int| 0 <= a < j ==> (#[trigger] s[a]).0 != k {
        assert(0 <= j <= j && s[j].0 == k && forall|a: int|
            0 <= a < j ==> (#[trigger] s[a]).0 != k);
    } else {
        let j2 = choose|j2: int| 0 <= j2 < j && (#[trigger] s[j2]).0 == k;
        lemma_first_match(s, k, j2);
        let jf = choose|jf: int|
            0 <= jf <= j2 && (#[trigger] s[jf]).0 == k && forall|a: int|
                0 <= a < jf ==> (#[trigger] s[a]).0 != k;
        assert(0 <= jf <= j && s[jf].0 == k && forall|a: int|
            0 <= a < jf ==> (#[trigger] s[a]).0 != k);
    }
}

/// Removing an entry under a unique key unbinds it and nothing else.
pub proof fn lemma_lookup_remove(s: Seq<(Seq<u8>, ValueModel)>, i: int)
    requires
        keys_unique(s),
        0 <= i < s.len(),
    ensures
        forall|k: Seq<u8>|
            #[trigger] lookup_seq(s.remove(i), k) == if k == s[i].0 {
                None::<ValueModel>
            } else {
                lookup_seq(s, k)
            },
{
    let t = s.remove(i);
    assert forall|k: Seq<u8>|
        #[trigger] lookup_seq(t, k) == if k == s[i].0 {
            None::<ValueModel>
        } else {
            lookup_seq(s, k)
        } by {
        if k == s[i].0 {
            assert forall|a: int| 0 <= a < t.len() implies (#[trigger] t[a]).0 != k by {
                assert(t[a] == if a < i {
                    s[a]
                } else {
                    s[a + 1]
                });
            }
            lemma_lookup_none(t, k);
        } else {
            if lookup_seq(s, k) is Some {
                lemma_lookup_some_index(s, k);
                let j = choose|j: int|
                    0 <= j < s.len() && (#[trigger] s[j]).0 == k && lookup_seq(s, k) == Some(
                        s[j].1,
                    );
                let jt = if j < i {
                    j
                } else {
                    j - 1
                };
                assert(t[jt] == s[j]);
                assert forall|a: int| 0 <= a < jt implies (#[trigger] t[a]).0 != t[jt].0 by {
                    assert(t[a] == if a < i {
                        s[a]
                    } else {
                        s[a + 1]
                    });
                }
                lemma_lookup_at(t, jt);
                assert forall|a: int| 0 <= a < j implies (#[trigger] s[a]).0 != s[j].0 by {}
                lemma_lookup_at(s, j);
            } else {
                assert forall|a: int| 0 <= a < s.len() implies (#[trigger] s[a]).0 != k by {
                    if s[a].0 == k {
                        assert forall|b: int| 0 <= b < a implies (#[trigger] s[b]).0 != s[a].0 by {}
                        lemma_lookup_at(s, a);
                    }
                }
                assert forall|a: int| 0 <= a < t.len() implies (#[trigger] t[a]).0 != k by {
                    assert(t[a] == if a < i {
                        s[a]
                    } else {
                        s[a + 1]
                    });
                }
                lemma_lookup_none(t, k);
            }
        }
    }
}

/// With unique keys, every entry is what its key looks up.
pub proof fn lemma_lookup_at_unique(s: Seq<(Seq<u8>, ValueModel)>, i: int)
    requires
        keys_unique(s),
        0 <= i < s.len(),
    ensures
        lookup_seq(s, s[i].0) == Some(s[i].1),
{
    assert forall|j: int| 0 <= j < i implies (#[trigger] s[j]).0 != s[i].0 by {}
    lemma_lookup_at(s, i);
}

/// A value found in a well-formed node is well formed.
pub proof fn lemma_lookup_wf(c: CompoundModel, k: Seq<u8>)
    requires
        c.wf(),
        c.lookup(k) is Some,
    ensures
        c.lookup(k)->Some_0.wf(),
{
    lemma_lookup_some_index(c.entries, k);
    let i = choose|i: int|
        0 <= i < c.entries.len() && (#[trigger] c.entries[i]).0 == k && lookup_seq(c.entries, k)
            == Some(c.entries[i].1);
    lemma_entries_wf_index(c.entries, i);
}

/// The UTF-8 encoding of a character sequence spends at most four bytes
/// per character.
pub proof fn lemma_encode_utf8_len(chars: Seq<char>)
    ensures
        vstd::utf8::encode_utf8(chars).len() <= 4 * chars.len(),
    decreases chars.len(),
{
    if chars.len() > 0 {
        lemma_encode_utf8_len(chars.drop_first());
        assert(vstd::utf8::encode_scalar(chars[0] as u32).len() <= 4);
    }
}

/// The bytes of a key literal, always short enough for the binary format.
pub fn key(s: &str) -> (r: Vec<u8>)
    requires
        s@.len() <= 16000,
    ensures
        r@ == s.spec_bytes(),
        r@.len() <= MAX_TEXT_LEN,
{
    proof {
        lemma_encode_utf8_len(s@);
    }
    s.as_bytes_vec()
}

/// Byte-wise equality of two byte strings.
pub fn bytes_eq(a: &[u8], b: &[u8]) -> (r: bool)
    ensures
        r == (a@ == b@),
{
    if a.len() != b.len() {
        assert(a@ != b@) by {
            assert(a@.len() != b@.len());
        }
        return false;
    }
    let n = a.len();
    let mut i: usize = 0;
    while i < n
        invariant
            n == a@.len() == b@.len(),
            0 <= i <= n,
            forall|j: int| 0 <= j < i ==> a@[j] == b@[j],
        decreases n - i,
    {
        if a[i] != b[i] {
            return false;
        }
        i += 1;
    }
    assert(a@ =~= b@);
    true
}

impl Compound {
    /// An empty node.
    pub fn new() -> (r: Compound)
        ensures
            r.model().entries.len() == 0,
            r.wf(),
            forall|k: Seq<u8>| r.lookup(k) is None,
    {
        let r = Compound { entries: Vec::new() };
        proof {
            assert forall|k: Seq<u8>| r.lookup(k) is None by {
                lemma_lookup_none(r.model().entries, k);
            }
        }
        r
    }

    /// The index of the entry holding key `k`, scanning in order.
    fn find(&self, k: &[u8]) -> (r: Option<usize>)
        ensures
            self.model().entries.len() == self.entries@.len(),
            match r {
                Some(i) => i < self.entries@.len() && self.model().entries[i as int].0 == k@
                    && forall|j: int| 0 <= j < i ==> (#[trigger] self.model().entries[j]).0 != k@,
                None => forall|j: int|
                    0 <= j < self.entries@.len() ==> (#[trigger] self.model().entries[j]).0 != k@,
            },
    {
        proof {
            lemma_entries_model(self.entries@);
        }
        let n = self.entries.len();
        let mut i: usize = 0;
        while i < n
            invariant
                n == self.entries@.len(),
                n == self.model().entries.len(),
                0 <= i <= n,
                forall|j: int|
                    0 <= j < n ==> (#[trigger] self.model().entries[j]).0 == self.entries@[j].0@,
                forall|j: int| 0 <= j < i ==> (#[trigger] self.model().entries[j]).0 != k@,
            decreases n - i,
        {
            if bytes_eq(self.entries[i].0.as_slice(), k) {
                return Some(i);
            }
            i += 1;
        }
        None
    }

    /// The value under key `k`, if any.
    pub fn get(&self, k: &[u8]) -> (r: Option<&Value>)
        ensures
            match r {
                Some(v) => self.lookup(k@) == Some(v.model()),
                None => self.lookup(k@) is None,
            },
    {
        proof {
            lemma_entries_model(self.entries@);
        }
        match self.find(k) {
            Some(i) => {
                proof {
                    lemma_lookup_at(self.model().entries, i as int);
                }
                Some(&self.entries[i].1)
            },
            None => {
                proof {
                    lemma_lookup_none(self.model().entries, k@);
                }
                None
            },
        }
    }

    pub fn contains_key(&self, k: &[u8]) -> (r: bool)
        ensures
            r == self.has_key(k@),
    {
        self.get(k).is_some()
    }

    /// How many entries the node holds.
    pub fn len(&self) -> (r: usize)
        ensures
            r == self.model().entries.len(),
    {
        proof {
            lemma_entries_model(self.entries@);
        }
        self.entries.len()
    }

    /// Bind `k` to `v`: replace in place when the key is present, append
    /// otherwise.
    pub fn insert(&mut self, k: Vec<u8>, v: Value)
        requires
            old(self).wf(),
            k@.len() <= MAX_TEXT_LEN,
            v.model().wf(),
        ensures
            final(self).wf(),
            forall|k2: Seq<u8>|
                #[trigger] final(self).lookup(k2) == if k2 == k@ {
                    Some(v.model())
                } else {
                    old(self).lookup(k2)
                },
            old(self).has_key(k@) ==> final(self).keys() =~= old(self).keys(),
            !old(self).has_key(k@) ==> final(self).keys() =~= old(self).keys().push(k@),
            !old(self).has_key(k@) ==> final(self).model().entries =~= old(
                self,
            ).model().entries.push((k@, v.model())),
            old(self).has_key(k@) ==> exists|i: int|
                0 <= i < old(self).model().entries.len() && (#[trigger] old(
                    self,
                ).model().entries[i]).0 == k@ && final(self).model().entries =~= old(
                    self,
                ).model().entries.update(i, (k@, v.model())),
    {
        let ghost s = self.model().entries;
        let ghost e = (k@, v.model());
        proof {
            lemma_entries_model(self.entries@);
        }
        let found = self.find(k.as_slice());
        match found {
            Some(i) => {
                proof {
                    lemma_lookup_at(s, i as int);
                }
                self.entries.remove(i);
                self.entries.insert(i, (k, v));
                proof {
                    lemma_entries_model(self.entries@);
                    assert(self.model().entries =~= s.update(i as int, e));
                    lemma_lookup_update(s, i as int, e);
                    assert forall|j: int| 0 <= j < self.model().entries.len() implies (
                    #[trigger] self.model().entries[j]).0.len() <= MAX_TEXT_LEN
                        && self.model().entries[j].1.wf() by {
                        lemma_entries_wf_index(s, j);
                        assert(self.model().entries[j] == if j == i as int {
                            e
                        } else {
                            s[j]
                        });
                    }
                    lemma_entries_wf_intro(self.model().entries);
                    assert(final(self).keys() =~= old(self).keys());
                    assert(s[i as int].0 == k@);
                    assert(self.model().entries =~= s.update(i as int, e));
                }
            },
            None => {
                proof {
                    lemma_lookup_none(s, k@);
                }
                self.entries.push((k, v));
                proof {
                    lemma_entries_model(self.entries@);
                    assert(self.model().entries =~= s.push(e));
                    lemma_lookup_push(s, e);
                    assert forall|a: int, b: int|
                        0 <= a < b < self.model().entries.len() implies (
                    #[trigger] self.model().entries[a]).0 != (#[trigger] self.model().entries[b]).0
                        by {
                        assert(self.model().entries[a] == if a == s.len() as int {
                            e
                        } else {
                            s[a]
                        });
                        assert(self.model().entries[b] == if b == s.len() as int {
                            e
                        } else {
                            s[b]
                        });
                    }
                    assert forall|j: int| 0 <= j < self.model().entries.len() implies (
                    #[trigger] self.model().entries[j]).0.len() <= MAX_TEXT_LEN
                        && self.model().entries[j].1.wf() by {
                        if j < s.len() {
                            lemma_entries_wf_index(s, j);
                        }
                    }
                    lemma_entries_wf_intro(self.model().entries);
                    assert(final(self).keys() =~= old(self).keys().push(k@));
                }
            },
        }
    }

    /// Unbind `k`, handing back the value it held, if any.
    pub fn remove(&mut self, k: &[u8]) -> (r: Option<Value>)
        requires
            old(self).wf(),
        ensures
            final(self).wf(),
            match r {
                Some(v) => old(self).lookup(k@) == Some(v.model()),
                None => old(self).lookup(k@) is None,
            },
            forall|k2: Seq<u8>|
                #[trigger] final(self).lookup(k2) == if k2 == k@ {
                    None::<ValueModel>
                } else {
                    old(self).lookup(k2)
                },
            !old(self).has_key(k@) ==> *final(self) == *old(self),
    {
        let ghost s = self.model().entries;
        proof {
            lemma_entries_model(self.entries@);
        }
        let found = self.find(k);
        match found {
            Some(i) => {
                proof {
                    lemma_lookup_at(s, i as int);
                    lemma_lookup_remove(s, i as int);
                }
                let (_, v) = self.entries.remove(i);
                proof {
                    lemma_entries_model(self.entries@);
                    assert(self.model().entries =~= s.remove(i as int));
                    assert forall|a: int, b: int|
                        0 <= a < b < self.model().entries.len() implies (
                    #[trigger] self.model().entries[a]).0 != (#[trigger] self.model().entries[b]).0
                        by {
                        assert(self.model().entries[a] == if a < i as int {
                            s[a]
                        } else {
                            s[a + 1]
                        });
                        assert(self.model().entries[b] == if b < i as int {
                            s[b]
                        } else {
                            s[b + 1]
                        });
                    }
                    assert forall|j: int| 0 <= j < self.model().entries.len() implies (
                    #[trigger] self.model().entries[j]).0.len() <= MAX_TEXT_LEN
                        && self.model().entries[j].1.wf() by {
                        if j < i as int {
                            lemma_entries_wf_index(s, j);
                        } else {
                            lemma_entries_wf_index(s, j + 1);
                        }
                        assert(self.model().entries[j] == if j < i as int {
                            s[j]
                        } else {
                            s[j + 1]
                        });
                    }
                    lemma_entries_wf_intro(self.model().entries);
                }
                Some(v)
            },
            None => {
                proof {
                    lemma_lookup_none(s, k@);
                }
                None
            },
        }
    }
}

/// A fresh vector with the same contents.
pub fn copy_vec<T: Copy>(v: &Vec<T>) -> (r: Vec<T>)
    ensures
        r@ == v@,
{
    let mut r: Vec<T> = Vec::new();
    let n = v.len();
    let mut i: usize = 0;
    while i < n
        invariant
            n == v@.len(),
            0 <= i <= n,
            r@ =~= v@.subrange(0, i as int),
        decreases n - i,
    {
        r.push(v[i]);
        i += 1;
    }
    proof {
        assert(r@ =~= v@);
    }
    r
}

/// A copy of a value with the same model.
#[verifier::loop_isolation(false)]
pub fn clone_value(v: &Value) -> (r: Value)
    ensures
        r.model() == v.model(),
    decreases *v,
{
    match v {
        Value::Byte(x) => Value::Byte(*x),
        Value::Short(x) => Value::Short(*x),
        Value::Int(x) => Value::Int(*x),
        Value::Long(x) => Value::Long(*x),
        Value::Float(x) => Value::Float(*x),
        Value::Double(x) => Value::Double(*x),
        Value::Bytes(b) => Value::Bytes(copy_vec(b)),
        Value::Text(t) => Value::Text(copy_vec(t)),
        Value::List(l) => {
            let n = l.items.len();
            let mut items: Vec<Value> = Vec::new();
            let mut i: usize = 0;
            while i < n
                invariant
                    n == l.items@.len(),
                    0 <= i <= n,
                    items@.len() == i,
                    forall|j: int|
                        0 <= j < i ==> (#[trigger] items@[j]).model() == l.items@[j].model(),
                decreases n - i,
            {
                proof {
                    broadcast use vstd::std_specs::vec::group_vec_axioms;

                    assert(decreases_to!(l.items => l.items@[i as int]));
                }
                items.push(clone_value(&l.items[i]));
                i += 1;
            }
            proof {
                lemma_items_model(items@);
                lemma_items_model(l.items@);
                assert(items_model(items@) =~= items_model(l.items@));
            }
            Value::List(NbtList { elem: l.elem, items })
        },
        Value::Compound(c) => Value::Compound(clone_compound(c)),
        Value::Ints(x) => Value::Ints(copy_vec(x)),
        Value::Longs(x) => Value::Longs(copy_vec(x)),
    }
}

/// A copy of a node with the same model.
pub fn clone_compound(c: &Compound) -> (r: Compound)
    ensures
        r.model() == c.model(),
    decreases *c,
{
    let n = c.entries.len();
    let mut entries: Vec<(Vec<u8>, Value)> = Vec::new();
    let mut i: usize = 0;
    while i < n
        invariant
            n == c.entries@.len(),
            0 <= i <= n,
            entries@.len() == i,
            forall|j: int|
                0 <= j < i ==> (#[trigger] entries@[j]).0@ == c.entries@[j].0@
                    && entries@[j].1.model() == c.entries@[j].1.model(),
        decreases n - i,
    {
        let key = copy_vec(&c.entries[i].0);
        let val = clone_value(&c.entries[i].1);
        entries.push((key, val));
        i += 1;
    }
    let r = Compound { entries };
    proof {
        lemma_entries_model(r.entries@);
        lemma_entries_model(c.entries@);
        assert(entries_model(r.entries@) =~= entries_model(c.entries@));
        assert(r.model() =~= c.model());
    }
    r
}

} // verus!
