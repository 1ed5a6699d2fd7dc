//! Dimension discovery: which dimensions a world has and how each is
//! generated.
//!
//! Beside the three builtin dimensions, every key of
//! `Data.WorldGenSettings.dimensions` that is not a builtin form names a
//! custom dimension; keys are unique within a node, so each is visited
//! exactly once. A dimension id splits at its first colon into a namespace
//! and a path, with a fixed namespace where the colon is missing, and its
//! generator type is read from its `generator.type` string, with a fixed
//! default where any step is missing.
use vstd::prelude::*;
use vstd::string::StringSliceAdditionalSpecFns;

use crate::nbt::{key, keys_unique, Compound, CompoundModel, Value, ValueModel};

verus! {

/// Whether a dimension key is one of the builtin forms.
pub open spec fn spec_builtin_dim(k: Seq<u8>) -> bool {
    ||| k == "minecraft:overworld".spec_bytes()
    ||| k == "minecraft:the_nether".spec_bytes()
    ||| k == "minecraft:the_end".spec_bytes()
    ||| k == "overworld".spec_bytes()
    ||| k == "the_nether".spec_bytes()
    ||| k == "the_end".spec_bytes()
}

/// Whether a dimension key is one of the builtin forms.
pub fn builtin_dim(k: &[u8]) -> (r: bool)
    ensures
        r == spec_builtin_dim(k@),
{
    proof {
        reveal_strlit("minecraft:overworld");
        reveal_strlit("minecraft:the_nether");
        reveal_strlit("minecraft:the_end");
        reveal_strlit("overworld");
        reveal_strlit("the_nether");
        reveal_strlit("the_end");
    }
    crate::nbt::bytes_eq(k, key("minecraft:overworld").as_slice()) || crate::nbt::bytes_eq(
        k,
        key("minecraft:the_nether").as_slice(),
    ) || crate::nbt::bytes_eq(k, key("minecraft:the_end").as_slice()) || crate::nbt::bytes_eq(
        k,
        key("overworld").as_slice(),
    ) || crate::nbt::bytes_eq(k, key("the_nether").as_slice()) || crate::nbt::bytes_eq(
        k,
        key("the_end").as_slice(),
    )
}

/// The non-builtin keys of a node's entries, in order.
pub open spec fn nonbuiltin_keys(s: Seq<(Seq<u8>, ValueModel)>) -> Seq<Seq<u8>>
    decreases s,
{
    if s.len() == 0 {
        Seq::empty()
    } else {
        (if spec_builtin_dim(s[0].0) {
            Seq::empty()
        } else {
            seq![s[0].0]
        }) + nonbuiltin_keys(s.skip(1))
    }
}

/// Every non-builtin key appears exactly once: the discovered dimensions
/// carry no duplicates when the node's keys are unique.
pub proof fn lemma_nonbuiltin_keys_unique(s: Seq<(Seq<u8>, ValueModel)>)
    requires
        keys_unique(s),
    ensures
        forall|a: int, b: int|
            0 <= a < b < nonbuiltin_keys(s).len() ==> #[trigger] nonbuiltin_keys(s)[a]
                != #[trigger] nonbuiltin_keys(s)[b],
    decreases s,
{
    if s.len() > 0 {
        assert forall|i: int, j: int|
            0 <= i < j < s.skip(1).len() implies (#[trigger] s.skip(1)[i]).0 != (
        #[trigger] s.skip(1)[j]).0 by {
            assert(s.skip(1)[i] == s[i + 1] && s.skip(1)[j] == s[j + 1]);
        }
        lemma_nonbuiltin_keys_unique(s.skip(1));
        lemma_nonbuiltin_keys_member(s.skip(1));
        let t = nonbuiltin_keys(s);
        let t1 = nonbuiltin_keys(s.skip(1));
        if !spec_builtin_dim(s[0].0) {
            assert forall|a: int, b: int| 0 <= a < b < t.len() implies #[trigger] t[a]
                != #[trigger] t[b] by {
                if a == 0 {
                    assert(t[b] == t1[b - 1]);
                    let j = choose|j: int|
                        0 <= j < s.skip(1).len() && (#[trigger] s.skip(1)[j]).0 == t1[b - 1];
                    assert(s[j + 1].0 == t1[b - 1]);
                    assert(s[0].0 != s[j + 1].0);
                } else {
                    assert(t[a] == t1[a - 1] && t[b] == t1[b - 1]);
                }
            }
        } else {
            assert forall|a: int, b: int| 0 <= a < b < t.len() implies #[trigger] t[a]
                != #[trigger] t[b] by {
                assert(t[a] == t1[a] && t[b] == t1[b]);
            }
        }
    }
}

/// Every discovered key is a key of some entry.
pub proof fn lemma_nonbuiltin_keys_member(s: Seq<(Seq<u8>, ValueModel)>)
    ensures
        forall|a: int|
            0 <= a < nonbuiltin_keys(s).len() ==> exists|j: int|
                0 <= j < s.len() && (#[trigger] s[j]).0 == #[trigger] nonbuiltin_keys(s)[a],
    decreases s,
{
    if s.len() > 0 {
        lemma_nonbuiltin_keys_member(s.skip(1));
        let t = nonbuiltin_keys(s);
        let t1 = nonbuiltin_keys(s.skip(1));
        let off: int = if spec_builtin_dim(s[0].0) {
            0
        } else {
            1
        };
        assert forall|a: int| 0 <= a < t.len() implies exists|j: int|
            0 <= j < s.len() && (#[trigger] s[j]).0 == #[trigger] t[a] by {
            if off == 1 && a == 0 {
                assert(s[0].0 == t[0]);
            } else {
                assert(t[a] == t1[a - off]);
                let j = choose|j: int|
                    0 <= j < s.skip(1).len() && (#[trigger] s.skip(1)[j]).0 == t1[a - off];
                assert(s[j + 1].0 == t[a]);
            }
        }
    }
}

/// The dimension registry of the level data, if its path is intact.
pub open spec fn spec_dimensions_node(data: CompoundModel) -> Option<CompoundModel> {
    match data.lookup("WorldGenSettings".spec_bytes()) {
        Some(ValueModel::Compound(wgs)) => match wgs.lookup("dimensions".spec_bytes()) {
            Some(ValueModel::Compound(dims)) => Some(dims),
            _ => None,
        },
        _ => None,
    }
}

/// The custom dimension ids of the level data: every key of
/// `WorldGenSettings.dimensions` that is not a builtin form, in order,
/// each exactly once.
pub fn custom_dimensions(data: &Compound) -> (r: Vec<Vec<u8>>)
    requires
        data.wf(),
    ensures
        match spec_dimensions_node(data.model()) {
            Some(dims) => crate::legacy::names_model(r@) == nonbuiltin_keys(dims.entries),
            None => r@.len() == 0,
        },
{
    proof {
        reveal_strlit("WorldGenSettings");
        reveal_strlit("dimensions");
    }
    let mut r: Vec<Vec<u8>> = Vec::new();
    let wgs = match data.get(key("WorldGenSettings").as_slice()) {
        Some(Value::Compound(w)) => w,
        _ => {
            proof {
                assert(crate::legacy::names_model(r@) =~= Seq::<Seq<u8>>::empty());
            }
            return r;
        },
    };
    proof {
        crate::nbt::lemma_lookup_wf(data.model(), "WorldGenSettings".spec_bytes());
    }
    let dims = match wgs.get(key("dimensions").as_slice()) {
        Some(Value::Compound(d)) => d,
        _ => {
            proof {
                assert(crate::legacy::names_model(r@) =~= Seq::<Seq<u8>>::empty());
            }
            return r;
        },
    };
    proof {
        crate::nbt::lemma_lookup_wf(wgs.model(), "dimensions".spec_bytes());
        crate::nbt::lemma_entries_model(dims.entries@);
    }
    let ghost es = dims.model().entries;
    proof {
        assert(es.skip(0) =~= es);
        assert(crate::legacy::names_model(r@) =~= Seq::<Seq<u8>>::empty());
        assert(nonbuiltin_keys(es) =~= crate::legacy::names_model(r@) + nonbuiltin_keys(
            es.skip(0),
        ));
    }
    let n = dims.entries.len();
    let mut i: usize = 0;
    while i < n
        invariant
            n == dims.entries@.len(),
            n == es.len(),
            es == dims.model().entries,
            forall|j: int|
                0 <= j < es.len() ==> #[trigger] es[j] == (
                    dims.entries@[j].0@,
                    dims.entries@[j].1.model(),
                ),
            0 <= i <= n,
            nonbuiltin_keys(es) =~= crate::legacy::names_model(r@) + nonbuiltin_keys(
                es.skip(i as int),
            ),
        decreases n - i,
    {
        let ghost r0 = r@;
        let k = &dims.entries[i].0;
        if !builtin_dim(k.as_slice()) {
            r.push(crate::nbt::copy_vec(k));
        }
        proof {
            assert(es.skip(i as int)[0] == es[i as int]);
            assert(es.skip(i as int).skip(1) =~= es.skip(i + 1));
            if spec_builtin_dim(es[i as int].0) {
                assert(nonbuiltin_keys(es.skip(i as int)) =~= nonbuiltin_keys(es.skip(i + 1)));
            } else {
                assert(crate::legacy::names_model(r@) =~= crate::legacy::names_model(r0) + seq![
                    es[i as int].0,
                ]);
            }
            assert(nonbuiltin_keys(es) =~= crate::legacy::names_model(r@) + nonbuiltin_keys(
                es.skip(i + 1),
            ));
        }
        i += 1;
    }
    proof {
        assert(es.skip(n as int) =~= Seq::<(Seq<u8>, ValueModel)>::empty());
        assert(crate::legacy::names_model(r@) =~= nonbuiltin_keys(es));
    }
    r
}

/// The generator type of a dimension, read from its registry entry, with
/// the noise generator as the default wherever the path is missing.
pub open spec fn spec_generator_type(data: CompoundModel, dim_id: Seq<u8>) -> Seq<u8> {
    match spec_dimensions_node(data) {
        Some(dims) => match dims.lookup(dim_id) {
            Some(ValueModel::Compound(d)) => match d.lookup("generator".spec_bytes()) {
                Some(ValueModel::Compound(g)) => match g.lookup("type".spec_bytes()) {
                    Some(ValueModel::Text(t)) => t,
                    _ => "minecraft:noise".spec_bytes(),
                },
                _ => "minecraft:noise".spec_bytes(),
            },
            _ => "minecraft:noise".spec_bytes(),
        },
        None => "minecraft:noise".spec_bytes(),
    }
}

/// The generator type of a dimension.
pub fn generator_type(data: &Compound, dim_id: &[u8]) -> (r: Vec<u8>)
    requires
        data.wf(),
    ensures
        r@ == spec_generator_type(data.model(), dim_id@),
        r@.len() <= crate::nbt::MAX_TEXT_LEN,
{
    proof {
        reveal_strlit("WorldGenSettings");
        reveal_strlit("dimensions");
        reveal_strlit("generator");
        reveal_strlit("type");
        reveal_strlit("minecraft:noise");
    }
    match data.get(key("WorldGenSettings").as_slice()) {
        Some(Value::Compound(wgs)) => match wgs.get(key("dimensions").as_slice()) {
            Some(Value::Compound(dims)) => match dims.get(dim_id) {
                Some(Value::Compound(d)) => match d.get(key("generator").as_slice()) {
                    Some(Value::Compound(g)) => match g.get(key("type").as_slice()) {
                        Some(Value::Text(t)) => {
                            proof {
                                crate::nbt::lemma_lookup_wf(data.model(), "WorldGenSettings".spec_bytes());
                                crate::nbt::lemma_lookup_wf(wgs.model(), "dimensions".spec_bytes());
                                crate::nbt::lemma_lookup_wf(dims.model(), dim_id@);
                                crate::nbt::lemma_lookup_wf(d.model(), "generator".spec_bytes());
                                crate::nbt::lemma_lookup_wf(g.model(), "type".spec_bytes());
                            }
                            crate::nbt::copy_vec(t)
                        },
                        _ => key("minecraft:noise"),
                    },
                    _ => key("minecraft:noise"),
                },
                _ => key("minecraft:noise"),
            },
            _ => key("minecraft:noise"),
        },
        _ => key("minecraft:noise"),
    }
}

/// The first colon of a byte string, or a marker where none is.
pub open spec fn colon_ix(s: Seq<u8>) -> int
    decreases s,
{
    if s.len() == 0 {
        -1
    } else if s[0] == 58 {
        0
    } else {
        let r = colon_ix(s.skip(1));
        if r < 0 {
            -1
        } else {
            r + 1
        }
    }
}

/// Split a dimension id at its first colon into a namespace and a path;
/// an id without one lives in the default namespace and is its own path.
pub fn split_dimension_id(id: &[u8]) -> (r: (Vec<u8>, Vec<u8>))
    ensures
        colon_ix(id@) >= 0 ==> r.0@ == id@.take(colon_ix(id@)) && r.1@ == id@.skip(
            colon_ix(id@) + 1,
        ),
        colon_ix(id@) < 0 ==> r.0@ == "minecraft".spec_bytes() && r.1@ == id@,
{
    proof {
        reveal_strlit("minecraft");
    }
    let n = id.len();
    let mut i: usize = 0;
    while i < n
        invariant
            n == id@.len(),
            0 <= i <= n,
            forall|j: int| 0 <= j < i ==> id@[j] != 58,
        decreases n - i,
    {
        if id[i] == 58 {
            proof {
                lemma_colon_ix_at(id@, i as int);
            }
            let mut ns: Vec<u8> = Vec::new();
            let mut j: usize = 0;
            while j < i
                invariant
                    0 <= j <= i < n,
                    n == id@.len(),
                    ns@ =~= id@.take(i as int).take(j as int),
                decreases i - j,
            {
                ns.push(id[j]);
                proof {
                    assert(ns@ =~= id@.take(i as int).take(j + 1));
                }
                j += 1;
            }
            let mut path: Vec<u8> = Vec::new();
            let mut m: usize = i + 1;
            while m < n
                invariant
                    i < n,
                    i + 1 <= m <= n,
                    n == id@.len(),
                    path@ =~= id@.skip(i + 1).take(m - i - 1),
                decreases n - m,
            {
                path.push(id[m]);
                proof {
                    assert(path@ =~= id@.skip(i + 1).take(m - i));
                }
                m += 1;
            }
            proof {
                assert(ns@ =~= id@.take(i as int));
                assert(path@ =~= id@.skip(i + 1));
            }
            return (ns, path);
        }
        i += 1;
    }
    proof {
        lemma_colon_ix_none(id@);
    }
    (key("minecraft"), vstd::slice::slice_to_vec(id))
}

/// A colon at `i` with none before it is the first colon.
proof fn lemma_colon_ix_at(s: Seq<u8>, i: int)
    requires
        0 <= i < s.len(),
        s[i] == 58,
        forall|j: int| 0 <= j < i ==> s[j] != 58,
    ensures
        colon_ix(s) == i,
    decreases i,
{
    if i > 0 {
        assert forall|j: int| 0 <= j < i - 1 implies s.skip(1)[j] != 58 by {
            assert(s.skip(1)[j] == s[j + 1]);
        }
        assert(s.skip(1)[i - 1] == s[i]);
        lemma_colon_ix_at(s.skip(1), i - 1);
    }
}

/// No colon anywhere means no first colon.
proof fn lemma_colon_ix_none(s: Seq<u8>)
    requires
        forall|j: int| 0 <= j < s.len() ==> s[j] != 58,
    ensures
        colon_ix(s) < 0,
    decreases s,
{
    if s.len() > 0 {
        assert forall|j: int| 0 <= j < s.skip(1).len() implies s.skip(1)[j] != 58 by {
            assert(s.skip(1)[j] == s[j + 1]);
        }
        lemma_colon_ix_none(s.skip(1));
    }
}

/// The folder a builtin dimension lives in, under the world folder: the
/// overworld at the root, the nether and the end in their numbered
/// folders.
pub fn builtin_dimension_subdir(dim_id: &[u8]) -> (r: Option<Vec<u8>>)
    ensures
        dim_id@ == "minecraft:overworld".spec_bytes() ==> r is None,
        dim_id@ == "minecraft:the_nether".spec_bytes() ==> match r {
            Some(d) => d@ == "DIM-1".spec_bytes(),
            None => false,
        },
        dim_id@ == "minecraft:the_end".spec_bytes() ==> match r {
            Some(d) => d@ == "DIM1".spec_bytes(),
            None => false,
        },
{
    proof {
        reveal_strlit("minecraft:overworld");
        reveal_strlit("minecraft:the_nether");
        reveal_strlit("minecraft:the_end");
        reveal_strlit("DIM-1");
        reveal_strlit("DIM1");
        assert(vstd::string::is_ascii("minecraft:overworld"));
        assert(vstd::string::is_ascii("minecraft:the_nether"));
        assert(vstd::string::is_ascii("minecraft:the_end"));
        vstd::string::is_ascii_spec_bytes("minecraft:overworld");
        vstd::string::is_ascii_spec_bytes("minecraft:the_nether");
        vstd::string::is_ascii_spec_bytes("minecraft:the_end");
        assert("minecraft:overworld".spec_bytes().len() == 19);
        assert("minecraft:the_nether".spec_bytes().len() == 20);
        assert("minecraft:the_end".spec_bytes().len() == 17);
    }
    if crate::nbt::bytes_eq(dim_id, key("minecraft:the_nether").as_slice()) {
        Some(key("DIM-1"))
    } else if crate::nbt::bytes_eq(dim_id, key("minecraft:the_end").as_slice()) {
        Some(key("DIM1"))
    } else {
        None
    }
}

} // verus!
