//! Byte-level behaviour of the record codec and the gzip file facade.
use world_upgrader::codec::{decode_named, encode_named};
use world_upgrader::gzip::{read_record_file, write_record_file};
use world_upgrader::nbt::{Compound, NbtList, Value};

fn k(s: &str) -> Vec<u8> {
    s.as_bytes().to_vec()
}

fn sample_record() -> Compound {
    let mut inner = Compound::new();
    inner.insert(k("answer"), Value::Byte(42));
    inner.insert(k("short"), Value::Short(-2));
    let mut c = Compound::new();
    c.insert(k("DataVersion"), Value::Int(1343));
    c.insert(k("long"), Value::Long(-1));
    c.insert(k("floatbits"), Value::Float(0x3f80_0000));
    c.insert(k("doublebits"), Value::Double(0x3ff0_0000_0000_0000));
    c.insert(k("bytes"), Value::Bytes(vec![-1, 0, 1]));
    c.insert(k("text"), Value::Text(vec![0xed, 0xa0, 0x80, 0x41]));
    c.insert(
        k("list"),
        Value::List(NbtList { elem: 3, items: vec![Value::Int(7), Value::Int(-7)] }),
    );
    c.insert(k("nested"), Value::Compound(inner));
    c.insert(k("ints"), Value::Ints(vec![i32::MIN, 0, i32::MAX]));
    c.insert(k("longs"), Value::Longs(vec![i64::MIN, 0, i64::MAX]));
    c
}

#[test]
fn encode_then_decode_then_encode_is_byte_identical() {
    let c = sample_record();
    let name = k("root");
    let bytes = encode_named(&name, &c);
    let (name2, c2) = decode_named(&bytes).expect("the encoding must decode");
    assert_eq!(name2, name);
    let bytes2 = encode_named(&name2, &c2);
    assert_eq!(bytes, bytes2);
}

#[test]
fn decode_reads_back_the_same_fields() {
    let c = sample_record();
    let bytes = encode_named(&k(""), &c);
    let (_, c2) = decode_named(&bytes).unwrap();
    match c2.get(b"DataVersion") {
        Some(Value::Int(x)) => assert_eq!(*x, 1343),
        _ => panic!("DataVersion must decode as an int"),
    }
    match c2.get(b"text") {
        Some(Value::Text(t)) => assert_eq!(t, &vec![0xed, 0xa0, 0x80, 0x41]),
        _ => panic!("text must survive byte for byte"),
    }
    match c2.get(b"longs") {
        Some(Value::Longs(v)) => assert_eq!(v, &vec![i64::MIN, 0, i64::MAX]),
        _ => panic!("long arrays must decode"),
    }
}

#[test]
fn known_byte_layout_of_a_tiny_record() {
    let mut c = Compound::new();
    c.insert(k("a"), Value::Byte(1));
    let bytes = encode_named(&k(""), &c);
    assert_eq!(bytes, vec![10, 0, 0, 1, 0, 1, b'a', 1, 0]);
}

#[test]
fn empty_lists_keep_their_element_tag() {
    let mut c = Compound::new();
    c.insert(k("none"), Value::List(NbtList { elem: 0, items: vec![] }));
    c.insert(k("ints"), Value::List(NbtList { elem: 3, items: vec![] }));
    let bytes = encode_named(&k(""), &c);
    let (_, c2) = decode_named(&bytes).unwrap();
    match c2.get(b"ints") {
        Some(Value::List(l)) => {
            assert_eq!(l.elem, 3);
            assert!(l.items.is_empty());
        }
        _ => panic!("the empty list must survive with its tag"),
    }
    assert_eq!(encode_named(&k(""), &c2), bytes);
}

#[test]
fn decode_rejects_garbage_and_duplicates() {
    assert!(decode_named(&vec![]).is_none());
    assert!(decode_named(&vec![9, 9, 9]).is_none());
    // a root with the key `a` bound twice
    let dup = vec![10, 0, 0, 1, 0, 1, b'a', 1, 1, 0, 1, b'a', 2, 0];
    assert!(decode_named(&dup).is_none());
    // trailing bytes after the root are refused
    let mut ok = encode_named(&k(""), &Compound::new());
    assert!(decode_named(&ok).is_some());
    ok.push(0);
    assert!(decode_named(&ok).is_none());
}

#[test]
fn gzip_facade_round_trips_and_detects_raw_files() {
    let c = sample_record();
    let file = write_record_file(&k(""), &c);
    assert_eq!(&file[0..2], &[0x1f, 0x8b]);
    let (_, c2) = read_record_file(&file).expect("a written file must read back");
    let again = write_record_file(&k(""), &c2);
    assert_eq!(file, again);
    // a raw, unwrapped record is read as well
    let raw = encode_named(&k(""), &c);
    let (_, c3) = read_record_file(&raw).expect("raw record files are accepted");
    assert_eq!(encode_named(&k(""), &c3), raw);
}

#[test]
fn unreadable_files_are_refused_not_mangled() {
    // a gzip frame whose payload is not a record
    let mut c = Compound::new();
    c.insert(k("x"), Value::Byte(1));
    let mut file = write_record_file(&k(""), &c);
    let n = file.len();
    file.truncate(n - 1);
    assert!(read_record_file(&file).is_none());
    // a raw byte string that is no record either
    assert!(read_record_file(&vec![1, 2, 3]).is_none());
}

#[test]
fn compound_insert_replaces_in_place_and_remove_unbinds() {
    let mut c = Compound::new();
    c.insert(k("x"), Value::Int(1));
    c.insert(k("y"), Value::Int(2));
    c.insert(k("x"), Value::Int(3));
    assert_eq!(c.len(), 2);
    match c.get(b"x") {
        Some(Value::Int(v)) => assert_eq!(*v, 3),
        _ => panic!("x must hold the replacing value"),
    }
    match c.remove(b"x") {
        Some(Value::Int(v)) => assert_eq!(v, 3),
        _ => panic!("remove must hand the value back"),
    }
    assert!(c.get(b"x").is_none());
    assert!(c.get(b"y").is_some());
}
