use connector_agent::types::{CellValue, DataType, Slot};

const ALL_TYPES: [DataType; 4] = [DataType::F64, DataType::U64, DataType::Bool, DataType::OptU64];

#[test]
fn verify_accepts_only_the_same_type() {
    for declared in ALL_TYPES {
        for found in ALL_TYPES {
            assert_eq!(declared.verify(found), declared == found);
        }
    }
}

#[test]
fn verify_keeps_nullable_and_plain_integers_apart() {
    assert!(!DataType::U64.verify(DataType::OptU64));
    assert!(!DataType::OptU64.verify(DataType::U64));
    assert!(DataType::OptU64.verify(DataType::OptU64));
}

#[test]
fn only_the_optional_type_is_nullable() {
    assert!(DataType::OptU64.nullable());
    assert!(!DataType::U64.nullable());
    assert!(!DataType::F64.nullable());
    assert!(!DataType::Bool.nullable());
}

#[test]
fn found_names_the_type_of_a_value() {
    assert_eq!(CellValue::F64(7).found(), DataType::F64);
    assert_eq!(CellValue::U64(7).found(), DataType::U64);
    assert_eq!(CellValue::Bool(true).found(), DataType::Bool);
    assert_eq!(CellValue::OptU64(None).found(), DataType::OptU64);
    assert_eq!(CellValue::OptU64(Some(7)).found(), DataType::OptU64);
}

#[test]
fn to_slot_gives_word_and_presence() {
    assert_eq!(CellValue::U64(42).to_slot(), Slot { word: 42, present: true });
    assert_eq!(CellValue::F64(0x4000_0000_0000_0000).to_slot(), Slot { word: 0x4000_0000_0000_0000, present: true });
    assert_eq!(CellValue::Bool(true).to_slot(), Slot { word: 1, present: true });
    assert_eq!(CellValue::Bool(false).to_slot(), Slot { word: 0, present: true });
    assert_eq!(CellValue::OptU64(Some(9)).to_slot(), Slot { word: 9, present: true });
    assert_eq!(CellValue::OptU64(None).to_slot(), Slot { word: 0, present: false });
}

#[test]
fn read_gives_back_what_to_slot_took() {
    let values = [
        CellValue::F64(1.5f64.to_bits()),
        CellValue::F64(f64::NAN.to_bits()),
        CellValue::U64(0),
        CellValue::U64(u64::MAX),
        CellValue::Bool(true),
        CellValue::Bool(false),
        CellValue::OptU64(None),
        CellValue::OptU64(Some(0)),
        CellValue::OptU64(Some(u64::MAX)),
    ];
    for v in values {
        assert_eq!(v.found().read(v.to_slot()), v);
    }
}

#[test]
fn null_and_present_zero_are_told_apart() {
    let null = CellValue::OptU64(None).to_slot();
    let zero = CellValue::OptU64(Some(0)).to_slot();
    assert_ne!(null, zero);
    assert_eq!(DataType::OptU64.read(null), CellValue::OptU64(None));
    assert_eq!(DataType::OptU64.read(zero), CellValue::OptU64(Some(0)));
}

#[test]
fn a_double_keeps_its_bits() {
    let x = -1234.5678f64;
    match DataType::F64.read(CellValue::F64(x.to_bits()).to_slot()) {
        CellValue::F64(bits) => assert_eq!(f64::from_bits(bits), x),
        other => panic!("not a double: {:?}", other),
    }
}

#[test]
fn read_of_an_untouched_slot() {
    let empty = Slot { word: 0, present: false };
    assert_eq!(DataType::U64.read(empty), CellValue::U64(0));
    assert_eq!(DataType::F64.read(empty), CellValue::F64(0));
    assert_eq!(DataType::Bool.read(empty), CellValue::Bool(false));
    assert_eq!(DataType::OptU64.read(empty), CellValue::OptU64(None));
}
