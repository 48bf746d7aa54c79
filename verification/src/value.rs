//! The value codec: the closed set of scalar kinds a parameter may hold,
//! and the bit-exact conversion between each kind and the 4-byte float
//! slot of the wire protocol.

use vstd::prelude::*;

verus! {

/// The value of a parameter: exactly one of the seven supported scalar kinds.
///
/// The wire protocol transmits every parameter inside a single 4-byte
/// little-endian IEEE-754 float slot, reinterpreting raw bytes rather than
/// converting numerically. The `F32` variant therefore carries the raw bit
/// pattern of the float (what `f32::to_bits` yields); this library never
/// interprets it numerically, which keeps every conversion bit-exact.
#[derive(Debug, Clone, Copy, PartialEq, Eq, Structural)]
pub enum Value {
    U8(u8),
    I8(i8),
    U16(u16),
    I16(i16),
    U32(u32),
    I32(i32),
    F32(u32),
}

impl Value {
    /// The 4-byte wire slot for this value: narrower kinds occupy the
    /// low-order bytes, the remaining high-order bytes are zero. This is a
    /// bit-pattern reinterpretation, never a numeric conversion.
    pub open spec fn spec_wire(self) -> u32 {
        match self {
            Value::U8(v) => v as u32,
            Value::I8(v) => (v as u8) as u32,
            Value::U16(v) => v as u32,
            Value::I16(v) => (v as u16) as u32,
            Value::U32(v) => v,
            Value::I32(v) => v as u32,
            Value::F32(bits) => bits,
        }
    }

    /// Whether two values carry the same scalar kind.
    pub open spec fn same_kind(self, other: Value) -> bool {
        match (self, other) {
            (Value::U8(_), Value::U8(_)) => true,
            (Value::I8(_), Value::I8(_)) => true,
            (Value::U16(_), Value::U16(_)) => true,
            (Value::I16(_), Value::I16(_)) => true,
            (Value::U32(_), Value::U32(_)) => true,
            (Value::I32(_), Value::I32(_)) => true,
            (Value::F32(_), Value::F32(_)) => true,
            _ => false,
        }
    }

    /// Get the wire-compatible bytewise representation of this value.
    pub fn into_bytewise(&self) -> (r: u32)
        ensures
            r == self.spec_wire(),
    {
        match *self {
            Value::U8(v) => v as u32,
            Value::I8(v) => (v as u8) as u32,
            Value::U16(v) => v as u32,
            Value::I16(v) => (v as u16) as u32,
            Value::U32(v) => v,
            Value::I32(v) => v as u32,
            Value::F32(bits) => bits,
        }
    }

    /// Overwrite this value with `val`, but only if the kinds match;
    /// otherwise leave it unchanged.
    pub fn try_assign(&mut self, val: Value) -> (r: bool)
        ensures
            r == old(self).same_kind(val),
            r ==> *final(self) == val,
            !r ==> *final(self) == *old(self),
    {
        let matches = match (*self, val) {
            (Value::U8(_), Value::U8(_)) => true,
            (Value::I8(_), Value::I8(_)) => true,
            (Value::U16(_), Value::U16(_)) => true,
            (Value::I16(_), Value::I16(_)) => true,
            (Value::U32(_), Value::U32(_)) => true,
            (Value::I32(_), Value::I32(_)) => true,
            (Value::F32(_), Value::F32(_)) => true,
            _ => false,
        };
        if matches {
            *self = val;
        }
        matches
    }
}

/// A scalar that can stand at a leaf of the parameter tree: it can hand out
/// its current `Value` and accept a new one of the matching kind.
pub trait Leaf: Sized {
    /// The `Value` this scalar corresponds to.
    spec fn spec_value(self) -> Value;

    /// Whether `val` carries this scalar's kind.
    spec fn spec_accepts(val: Value) -> bool;

    /// Read the current value.
    fn get(&self) -> (r: Value)
        ensures
            r == self.spec_value();

    /// Overwrite the scalar if `val` has the matching kind; otherwise
    /// leave it unchanged.
    fn set(&mut self, val: Value) -> (r: bool)
        ensures
            r == Self::spec_accepts(val),
            r ==> final(self).spec_value() == val,
            !r ==> *final(self) == *old(self);
}

/// Scalars that can cross the wire's 4-byte float slot bit-exactly:
/// the scalar's raw little-endian bytes occupy the low-order bytes of the
/// slot and the high-order bytes are zero.
pub trait Floaty: Leaf {
    /// The wire word encoding this scalar.
    spec fn spec_to_wire(self) -> u32;

    /// The scalar encoded by the low-order bytes of a wire word.
    spec fn spec_of_wire(w: u32) -> Self;

    /// Round trip: decoding an encoded scalar is the identity.
    proof fn lemma_wire_round_trip(self)
        ensures
            Self::spec_of_wire(self.spec_to_wire()) == self;

    /// The wire word agrees with the one of the scalar's `Value`.
    proof fn lemma_wire_matches_value(self)
        ensures
            self.spec_to_wire() == self.spec_value().spec_wire();

    fn into_bytewise(self) -> (r: u32)
        ensures
            r == self.spec_to_wire();

    fn from_bytewise(w: u32) -> (r: Self)
        ensures
            r == Self::spec_of_wire(w);
}

/// Converts a float-encoded wire word into the primitive type, extracting
/// the low-order bytes that match the type's width.
pub fn from_bytewise<F: Floaty>(val: u32) -> (r: F)
    ensures
        r == F::spec_of_wire(val),
{
    F::from_bytewise(val)
}

/// Converts a primitive value into its float-encoded wire word.
pub fn into_bytewise<F: Floaty>(val: F) -> (r: u32)
    ensures
        r == val.spec_to_wire(),
{
    val.into_bytewise()
}

/// For every supported primitive kind and every representable value, the
/// bytewise conversion to the wire word and back is the identity.
pub proof fn lemma_bytewise_round_trip<F: Floaty>(val: F)
    ensures
        F::spec_of_wire(val.spec_to_wire()) == val,
{
    val.lemma_wire_round_trip();
}

impl Leaf for u8 {
    open spec fn spec_value(self) -> Value {
        Value::U8(self)
    }

    open spec fn spec_accepts(val: Value) -> bool {
        val is U8
    }

    fn get(&self) -> (r: Value) {
        Value::U8(*self)
    }

    fn set(&mut self, val: Value) -> (r: bool) {
        match val {
            Value::U8(v) => {
                *self = v;
                true
            },
            _ => false,
        }
    }
}

impl Floaty for u8 {
    open spec fn spec_to_wire(self) -> u32 {
        self as u32
    }

    open spec fn spec_of_wire(w: u32) -> Self {
        w as u8
    }

    proof fn lemma_wire_round_trip(self) {
    }

    proof fn lemma_wire_matches_value(self) {
    }

    fn into_bytewise(self) -> (r: u32) {
        self as u32
    }

    fn from_bytewise(w: u32) -> (r: Self) {
        w as u8
    }
}

impl Leaf for i8 {
    open spec fn spec_value(self) -> Value {
        Value::I8(self)
    }

    open spec fn spec_accepts(val: Value) -> bool {
        val is I8
    }

    fn get(&self) -> (r: Value) {
        Value::I8(*self)
    }

    fn set(&mut self, val: Value) -> (r: bool) {
        match val {
            Value::I8(v) => {
                *self = v;
                true
            },
            _ => false,
        }
    }
}

impl Floaty for i8 {
    open spec fn spec_to_wire(self) -> u32 {
        (self as u8) as u32
    }

    open spec fn spec_of_wire(w: u32) -> Self {
        (w as u8) as i8
    }

    proof fn lemma_wire_round_trip(self) {
        assert(((((self as u8) as u32) as u8) as i8) == self) by (bit_vector);
    }

    proof fn lemma_wire_matches_value(self) {
    }

    fn into_bytewise(self) -> (r: u32) {
        (self as u8) as u32
    }

    fn from_bytewise(w: u32) -> (r: Self) {
        (w as u8) as i8
    }
}

impl Leaf for u16 {
    open spec fn spec_value(self) -> Value {
        Value::U16(self)
    }

    open spec fn spec_accepts(val: Value) -> bool {
        val is U16
    }

    fn get(&self) -> (r: Value) {
        Value::U16(*self)
    }

    fn set(&mut self, val: Value) -> (r: bool) {
        match val {
            Value::U16(v) => {
                *self = v;
                true
            },
            _ => false,
        }
    }
}

impl Floaty for u16 {
    open spec fn spec_to_wire(self) -> u32 {
        self as u32
    }

    open spec fn spec_of_wire(w: u32) -> Self {
        w as u16
    }

    proof fn lemma_wire_round_trip(self) {
    }

    proof fn lemma_wire_matches_value(self) {
    }

    fn into_bytewise(self) -> (r: u32) {
        self as u32
    }

    fn from_bytewise(w: u32) -> (r: Self) {
        w as u16
    }
}

impl Leaf for i16 {
    open spec fn spec_value(self) -> Value {
        Value::I16(self)
    }

    open spec fn spec_accepts(val: Value) -> bool {
        val is I16
    }

    fn get(&self) -> (r: Value) {
        Value::I16(*self)
    }

    fn set(&mut self, val: Value) -> (r: bool) {
        match val {
            Value::I16(v) => {
                *self = v;
                true
            },
            _ => false,
        }
    }
}

impl Floaty for i16 {
    open spec fn spec_to_wire(self) -> u32 {
        (self as u16) as u32
    }

    open spec fn spec_of_wire(w: u32) -> Self {
        (w as u16) as i16
    }

    proof fn lemma_wire_round_trip(self) {
        assert(((((self as u16) as u32) as u16) as i16) == self) by (bit_vector);
    }

    proof fn lemma_wire_matches_value(self) {
    }

    fn into_bytewise(self) -> (r: u32) {
        (self as u16) as u32
    }

    fn from_bytewise(w: u32) -> (r: Self) {
        (w as u16) as i16
    }
}

impl Leaf for u32 {
    open spec fn spec_value(self) -> Value {
        Value::U32(self)
    }

    open spec fn spec_accepts(val: Value) -> bool {
        val is U32
    }

    fn get(&self) -> (r: Value) {
        Value::U32(*self)
    }

    fn set(&mut self, val: Value) -> (r: bool) {
        match val {
            Value::U32(v) => {
                *self = v;
                true
            },
            _ => false,
        }
    }
}

impl Floaty for u32 {
    open spec fn spec_to_wire(self) -> u32 {
        self
    }

    open spec fn spec_of_wire(w: u32) -> Self {
        w
    }

    proof fn lemma_wire_round_trip(self) {
    }

    proof fn lemma_wire_matches_value(self) {
    }

    fn into_bytewise(self) -> (r: u32) {
        self
    }

    fn from_bytewise(w: u32) -> (r: Self) {
        w
    }
}

impl Leaf for i32 {
    open spec fn spec_value(self) -> Value {
        Value::I32(self)
    }

    open spec fn spec_accepts(val: Value) -> bool {
        val is I32
    }

    fn get(&self) -> (r: Value) {
        Value::I32(*self)
    }

    fn set(&mut self, val: Value) -> (r: bool) {
        match val {
            Value::I32(v) => {
                *self = v;
                true
            },
            _ => false,
        }
    }
}

impl Floaty for i32 {
    open spec fn spec_to_wire(self) -> u32 {
        self as u32
    }

    open spec fn spec_of_wire(w: u32) -> Self {
        w as i32
    }

    proof fn lemma_wire_round_trip(self) {
        assert((((self as u32) as i32) == self)) by (bit_vector);
    }

    proof fn lemma_wire_matches_value(self) {
    }

    fn into_bytewise(self) -> (r: u32) {
        self as u32
    }

    fn from_bytewise(w: u32) -> (r: Self) {
        w as i32
    }
}

} // verus!
