use mav_param::value::{from_bytewise, into_bytewise};
use mav_param::{Leaf, Value};

#[test]
fn bytewise_round_trips() {
    // Bit-exact round trip through the 4-byte wire slot, for every kind.
    assert_eq!(from_bytewise::<u8>(into_bytewise(0xFAu8)), 0xFA);
    assert_eq!(from_bytewise::<i8>(into_bytewise(-1i8)), -1);
    assert_eq!(from_bytewise::<u16>(into_bytewise(0xBEEFu16)), 0xBEEF);
    assert_eq!(from_bytewise::<i16>(into_bytewise(-12345i16)), -12345);
    assert_eq!(from_bytewise::<u32>(into_bytewise(0xDEADBEEFu32)), 0xDEADBEEF);
    assert_eq!(from_bytewise::<i32>(into_bytewise(i32::MIN)), i32::MIN);
}

#[test]
fn bytewise_is_reinterpretation_not_conversion() {
    // The byte 0xFA occupies the low-order byte of the wire slot: the
    // wire word is 0x000000FA, not the float value 250.0.
    let wire = into_bytewise(0xFAu8);
    assert_eq!(wire, 0x0000_00FA);
    assert_eq!(wire.to_le_bytes()[0], 0xFA);
    assert_ne!(f32::from_bits(wire), 250.0);

    // A negative i8 occupies only its own byte, zero-extended.
    assert_eq!(into_bytewise(-1i8), 0x0000_00FF);

    // A float value crosses the wire as its own bit pattern.
    assert_eq!(
        Value::F32(2.5f32.to_bits()).into_bytewise(),
        2.5f32.to_bits()
    );
}

#[test]
fn value_wire_words() {
    assert_eq!(Value::U8(0xAB).into_bytewise(), 0x0000_00AB);
    assert_eq!(Value::I8(-2).into_bytewise(), 0x0000_00FE);
    assert_eq!(Value::U16(0x1234).into_bytewise(), 0x0000_1234);
    assert_eq!(Value::I16(-1).into_bytewise(), 0x0000_FFFF);
    assert_eq!(Value::U32(0x89AB_CDEF).into_bytewise(), 0x89AB_CDEF);
    assert_eq!(Value::I32(-1).into_bytewise(), 0xFFFF_FFFF);
}

#[test]
fn try_assign_requires_matching_kind() {
    let mut v = Value::U16(7);
    assert!(!v.try_assign(Value::U8(1)));
    assert_eq!(v, Value::U16(7));
    assert!(v.try_assign(Value::U16(9)));
    assert_eq!(v, Value::U16(9));
}

#[test]
fn leaf_get_set() {
    let mut x = 5u8;
    assert_eq!(x.get(), Value::U8(5));
    assert!(!x.set(Value::I8(3)));
    assert_eq!(x, 5);
    assert!(x.set(Value::U8(200)));
    assert_eq!(x, 200);

    let mut y = -3i32;
    assert_eq!(y.get(), Value::I32(-3));
    assert!(y.set(Value::I32(77)));
    assert_eq!(y, 77);
}
