use obfuskey::{
    alphabets, BigNat, ByteOrder, FieldInfo, FieldSchema, FieldValues, Obfusbit, ObfusbitSchema, Obfuskey,
    ObfuskeyError, PackedBig, PackedU64, UnpackDataBig, UnpackDataU64,
};

fn field(name: &str, bits: u32) -> FieldSchema {
    FieldSchema { name: name.to_string(), bits }
}

fn small_schema() -> Vec<FieldSchema> {
    vec![field("id", 10), field("type", 2), field("flag", 1)]
}

fn small_values(id: u64, kind: u64, flag: u64) -> FieldValues<u64> {
    let mut values = FieldValues::new();
    values.insert("flag".to_string(), flag);
    values.insert("id".to_string(), id);
    values.insert("type".to_string(), kind);
    values
}

fn big_schema() -> Vec<FieldSchema> {
    vec![field("a", 70), field("b", 60), field("c", 2)]
}

fn big_values() -> FieldValues<BigNat> {
    let mut values = FieldValues::new();
    values.insert("a".to_string(), BigNat::from_u64(1).shl(69).add(&BigNat::from_u64(12345)));
    values.insert("b".to_string(), BigNat::from_u64(1).shl(59).add(&BigNat::from_u64(7)));
    values.insert("c".to_string(), BigNat::from_u64(3));
    values
}

// -----------------------------------------------------------------------------
// Schemas
// -----------------------------------------------------------------------------

#[test]
fn schema_layout() {
    let schema = ObfusbitSchema::new(small_schema()).unwrap();
    assert_eq!(schema.total_bits(), 13);
    assert_eq!(schema.maximum_value().to_u64(), Some(8191));
    assert_eq!(schema.get_field_info("id"), Some(&FieldInfo { bits: 10, shift: 3 }));
    assert_eq!(schema.get_field_info("type"), Some(&FieldInfo { bits: 2, shift: 1 }));
    assert_eq!(schema.get_field_info("flag"), Some(&FieldInfo { bits: 1, shift: 0 }));
    assert_eq!(schema.get_field_info("other"), None);
    assert_eq!(schema.field_names(), vec!["id".to_string(), "type".to_string(), "flag".to_string()]);
    assert_eq!(schema.definition().len(), 3);
    assert_eq!(schema.field_info().len(), 3);
}

#[test]
fn schema_errors() {
    let msg = |r: Result<ObfusbitSchema, ObfuskeyError>| match r {
        Err(ObfuskeyError::SchemaValidationError(m)) => m,
        _ => panic!("expected a SchemaValidationError"),
    };
    assert_eq!(msg(ObfusbitSchema::new(vec![])), "Schema must contain at least one field.");
    assert_eq!(
        msg(ObfusbitSchema::new(vec![field("a", 3), field("b", 0)])),
        "Field 'b' must have a positive number of bits."
    );
    assert_eq!(
        msg(ObfusbitSchema::new(vec![field("a", 3), field("b", 2), field("a", 1)])),
        "Duplicate field name 'a'."
    );
    // the first bad field decides
    assert_eq!(
        msg(ObfusbitSchema::new(vec![field("a", 3), field("a", 0)])),
        "Field 'a' must have a positive number of bits."
    );
}

#[test]
fn value_errors() {
    let schema = ObfusbitSchema::new(small_schema()).unwrap();
    let mut missing = FieldValues::new();
    missing.insert("id".to_string(), 1u64);
    match schema.validate_values_u64(&missing) {
        Err(ObfuskeyError::ValueError(m)) => assert_eq!(m, "Missing required field 'type'."),
        _ => panic!("expected a ValueError"),
    }
    let mut extra = small_values(1, 1, 1);
    extra.insert("more".to_string(), 0);
    match schema.validate_values_u64(&extra) {
        Err(ObfuskeyError::ValueError(m)) => assert_eq!(m, "Unexpected field 'more'."),
        _ => panic!("expected a ValueError"),
    }
    match schema.validate_values_u64(&small_values(1024, 1, 1)) {
        Err(ObfuskeyError::BitOverflowError(m)) => {
            assert_eq!(m, "Value 1024 for field 'id' exceeds 10 bits (max 1023).")
        }
        _ => panic!("expected a BitOverflowError"),
    }
    assert!(schema.validate_values_u64(&small_values(1023, 3, 1)).is_ok());
    let mut big = FieldValues::new();
    big.insert("id".to_string(), BigNat::from_u64(5));
    big.insert("type".to_string(), BigNat::from_u64(4));
    big.insert("flag".to_string(), BigNat::from_u64(0));
    match schema.validate_values_big(&big) {
        Err(ObfuskeyError::BitOverflowError(m)) => {
            assert_eq!(m, "Value 4 for field 'type' exceeds 2 bits (max 3).")
        }
        _ => panic!("expected a BitOverflowError"),
    }
}

// -----------------------------------------------------------------------------
// Packing
// -----------------------------------------------------------------------------

#[test]
fn pack_unpack_u64_law() {
    let mut packer = Obfusbit::new(small_schema(), None).unwrap();
    for (id, kind, flag) in [(0u64, 0u64, 0u64), (1023, 3, 1), (100, 2, 1), (512, 1, 0)] {
        let packed = match packer.pack_u64(&small_values(id, kind, flag), false).unwrap() {
            PackedU64::Int(v) => v,
            PackedU64::Key(_) => panic!("expected an integer"),
        };
        assert_eq!(packed, (id << 3) | (kind << 1) | flag);
        let back = packer.unpack_u64(UnpackDataU64::Int(packed), false).unwrap();
        assert_eq!(*back.get("id").unwrap(), id);
        assert_eq!(*back.get("type").unwrap(), kind);
        assert_eq!(*back.get("flag").unwrap(), flag);
        assert_eq!(back.len(), 3);
    }
}

#[test]
fn pack_unpack_bytes_u64_law() {
    let packer = Obfusbit::new(small_schema(), None).unwrap();
    for order in [ByteOrder::Big, ByteOrder::Little] {
        let bytes = packer.pack_bytes_u64(&small_values(777, 2, 0), order).unwrap();
        assert_eq!(bytes.len(), 2);
        let back = packer.unpack_bytes_u64(&bytes, order).unwrap();
        assert_eq!(*back.get("id").unwrap(), 777);
        assert_eq!(*back.get("type").unwrap(), 2);
        assert_eq!(*back.get("flag").unwrap(), 0);
    }
    match packer.unpack_bytes_u64(&[1, 2, 3], ByteOrder::Big) {
        Err(ObfuskeyError::ValueError(m)) => assert_eq!(m, "Expected 2 bytes, got 3."),
        _ => panic!("expected a ValueError"),
    }
}

#[test]
fn pack_u64_drops_bits_above_64() {
    // 10 + 60 bits: the first field starts at bit 60
    let mut packer = Obfusbit::new(vec![field("hi", 10), field("lo", 60)], None).unwrap();
    let mut values = FieldValues::new();
    values.insert("hi".to_string(), 0b11_1111_1111u64);
    values.insert("lo".to_string(), 5u64);
    match packer.pack_u64(&values, false).unwrap() {
        PackedU64::Int(v) => assert_eq!(v, (0b1111u64 << 60) | 5),
        PackedU64::Key(_) => panic!("expected an integer"),
    }
}

#[test]
fn pack_unpack_big_law() {
    let mut packer = Obfusbit::new(big_schema(), None).unwrap();
    assert_eq!(packer.total_bits(), 132);
    let values = big_values();
    let packed = match packer.pack_big(&values, false).unwrap() {
        PackedBig::Int(v) => v,
        PackedBig::Key(_) => panic!("expected an integer"),
    };
    assert_eq!(packed.to_decimal_string(), "2722258935367507764640566599949463060511");
    let back = packer.unpack_big(UnpackDataBig::Int(packed), false).unwrap();
    for name in ["a", "b", "c"] {
        assert!(back.get(name).unwrap().equals(values.get(name).unwrap()));
    }
}

#[test]
fn pack_unpack_bytes_big_law() {
    let mut packer = Obfusbit::new(big_schema(), None).unwrap();
    let values = big_values();
    let bytes = packer.pack_bytes_big(&values, ByteOrder::Big).unwrap();
    assert_eq!(bytes, vec![8, 0, 0, 0, 0, 0, 0, 12, 14, 96, 0, 0, 0, 0, 0, 0, 31]);
    let little = packer.pack_bytes_big(&values, ByteOrder::Little).unwrap();
    let mut reversed = bytes.clone();
    reversed.reverse();
    assert_eq!(little, reversed);
    let back = packer.unpack_bytes_big(&little, ByteOrder::Little).unwrap();
    for name in ["a", "b", "c"] {
        assert!(back.get(name).unwrap().equals(values.get(name).unwrap()));
    }
    // a zero packs into the full width too
    let mut zeros = FieldValues::new();
    for name in ["a", "b", "c"] {
        zeros.insert(name.to_string(), BigNat::zero());
    }
    assert_eq!(packer.pack_bytes_big(&zeros, ByteOrder::Big).unwrap(), vec![0u8; 17]);
    assert!(matches!(packer.unpack_bytes_big(&[0u8; 16], ByteOrder::Big), Err(ObfuskeyError::ValueError(_))));
}

#[test]
fn pack_unpack_obfuscated_law() {
    let obfuskey = Obfuskey::new(alphabets::BASE62, Some(3), None).unwrap();
    let mut packer = Obfusbit::new(small_schema(), Some(obfuskey)).unwrap();
    let key = match packer.pack_u64(&small_values(100, 2, 1), true).unwrap() {
        PackedU64::Key(k) => k,
        PackedU64::Int(_) => panic!("expected a key"),
    };
    assert_eq!(key, "Xn9");
    let back = packer.unpack_u64(UnpackDataU64::Key(&key), true).unwrap();
    assert_eq!(*back.get("id").unwrap(), 100);

    let obfuskey = Obfuskey::new(alphabets::BASE62, Some(23), None).unwrap();
    let mut packer = Obfusbit::new(big_schema(), Some(obfuskey)).unwrap();
    let values = big_values();
    let key = match packer.pack_big(&values, true).unwrap() {
        PackedBig::Key(k) => k,
        PackedBig::Int(_) => panic!("expected a key"),
    };
    assert_eq!(key.chars().count(), 23);
    let back = packer.unpack_big(UnpackDataBig::Key(&key), true).unwrap();
    for name in ["a", "b", "c"] {
        assert!(back.get(name).unwrap().equals(values.get(name).unwrap()));
    }
}

#[test]
fn packer_errors() {
    let obfuskey = Obfuskey::new(alphabets::BASE62, Some(2), None).unwrap();
    match Obfusbit::new(small_schema(), Some(obfuskey)) {
        Err(ObfuskeyError::MaximumValueError(m)) => {
            assert_eq!(m, "Schema maximum value 8191 exceeds obfuskey maximum value 3843.")
        }
        _ => panic!("expected a MaximumValueError"),
    }
    let mut packer = Obfusbit::new(small_schema(), None).unwrap();
    let value_error = |r: Result<FieldValues<u64>, ObfuskeyError>| match r {
        Err(ObfuskeyError::ValueError(m)) => m,
        _ => panic!("expected a ValueError"),
    };
    assert_eq!(value_error(packer.unpack_u64(UnpackDataU64::Key("abc"), true)), "No obfuskey instance set.");
    assert_eq!(
        value_error(packer.unpack_u64(UnpackDataU64::Int(5), true)),
        "Expected a string key for obfuscated data."
    );
    assert_eq!(
        value_error(packer.unpack_u64(UnpackDataU64::Key("abc"), false)),
        "Expected an integer for non-obfuscated data."
    );
    match packer.pack_u64(&small_values(1, 1, 1), true) {
        Err(ObfuskeyError::ValueError(m)) => assert_eq!(m, "No obfuskey instance set."),
        _ => panic!("expected a ValueError"),
    }
    assert!(matches!(
        packer.unpack_big(UnpackDataBig::Int(BigNat::zero()), true),
        Err(ObfuskeyError::ValueError(_))
    ));
    let schema = ObfusbitSchema::new(small_schema()).unwrap();
    let packer = Obfusbit::from_schema(schema, None).unwrap();
    assert_eq!(packer.maximum_value().to_u64(), Some(8191));
    assert_eq!(packer.schema().total_bits(), 13);
}

#[test]
fn field_values_map() {
    let mut values = FieldValues::new();
    assert_eq!(values.len(), 0);
    values.insert("a".to_string(), 1u64);
    values.insert("b".to_string(), 2u64);
    values.insert("a".to_string(), 3u64);
    assert_eq!(values.len(), 2);
    assert_eq!(values.get("a"), Some(&3));
    assert!(values.contains_key("b"));
    assert!(!values.contains_key("c"));
    assert_eq!(values.names(), vec!["a".to_string(), "b".to_string()]);
    assert_eq!(values.entry_at(1), (&"b".to_string(), &2));
}

#[test]
fn packer_generation_check() {
    let packer = Obfusbit::new(small_schema(), None).unwrap();
    assert!(packer.can_generate());
    let obfuskey = Obfuskey::new(alphabets::BASE62, Some(3), None).unwrap();
    let packer = Obfusbit::new(small_schema(), Some(obfuskey)).unwrap();
    assert!(packer.can_generate());
}
