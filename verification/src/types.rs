//! The closed set of logical types, the cell values that carry them, and the
//! fixed-width slot in which a destination stores one cell.

use vstd::prelude::*;

verus! {

/// The semantic type and nullability of one destination column.
#[derive(Clone, Copy, Debug, PartialEq, Eq, Structural)]
pub enum DataType {
    /// IEEE 754 double, carried as its 64-bit pattern.
    F64,
    /// Unsigned 64-bit integer, never null.
    U64,
    /// Boolean, never null.
    Bool,
    /// Unsigned 64-bit integer that may be null.
    OptU64,
}

/// The traversal order in which a source emits cells.
#[derive(Clone, Copy, Debug, PartialEq, Eq, Structural)]
pub enum DataOrder {
    RowMajor,
    ColumnMajor,
}

/// One typed value on its way from a source to a destination cell.
#[derive(Clone, Copy, Debug, PartialEq, Eq, Structural)]
pub enum CellValue {
    /// A double, as the 64 bits of its IEEE 754 representation.
    F64(u64),
    U64(u64),
    Bool(bool),
    OptU64(Option<u64>),
}

/// What one destination cell holds: a 64-bit word and a presence flag.
#[derive(Clone, Copy, Debug, PartialEq, Eq, Structural)]
pub struct Slot {
    pub word: u64,
    pub present: bool,
}

impl DataType {
    /// Whether a slot declared with this type may receive a value of type `found`.
    pub open spec fn accepts(self, found: DataType) -> bool {
        self == found
    }

    pub open spec fn is_nullable(self) -> bool {
        self == DataType::OptU64
    }

    /// The registry check: a slot of this type takes a raw write of a value
    /// of type `found` exactly when the two types are the same, so that a
    /// nullable and a non-nullable type of the same width stay apart.
    pub fn verify(self, found: DataType) -> (ok: bool)
        ensures
            ok == self.accepts(found),
    {
        self == found
    }

    pub fn nullable(self) -> (b: bool)
        ensures
            b == self.is_nullable(),
    {
        self == DataType::OptU64
    }

    /// The value that a slot stands for in a column of this type.
    pub open spec fn decode(self, slot: Slot) -> CellValue {
        match self {
            DataType::F64 => CellValue::F64(slot.word),
            DataType::U64 => CellValue::U64(slot.word),
            DataType::Bool => CellValue::Bool(slot.word != 0),
            DataType::OptU64 => CellValue::OptU64(
                if slot.present {
                    Some(slot.word)
                } else {
                    None
                },
            ),
        }
    }

    pub fn read(self, slot: Slot) -> (v: CellValue)
        ensures
            v == self.decode(slot),
            v.data_type() == self,
    {
        match self {
            DataType::F64 => CellValue::F64(slot.word),
            DataType::U64 => CellValue::U64(slot.word),
            DataType::Bool => CellValue::Bool(slot.word != 0),
            DataType::OptU64 => CellValue::OptU64(
                if slot.present {
                    Some(slot.word)
                } else {
                    None
                },
            ),
        }
    }
}

impl CellValue {
    /// The logical type that this value carries at run time.
    pub open spec fn data_type(self) -> DataType {
        match self {
            CellValue::F64(_) => DataType::F64,
            CellValue::U64(_) => DataType::U64,
            CellValue::Bool(_) => DataType::Bool,
            CellValue::OptU64(_) => DataType::OptU64,
        }
    }

    /// The slot that a raw write of this value leaves in a cell.
    pub open spec fn encode(self) -> Slot {
        match self {
            CellValue::F64(bits) => Slot { word: bits, present: true },
            CellValue::U64(v) => Slot { word: v, present: true },
            CellValue::Bool(b) => Slot { word: if b { 1 } else { 0 }, present: true },
            CellValue::OptU64(Some(v)) => Slot { word: v, present: true },
            CellValue::OptU64(None) => Slot { word: 0, present: false },
        }
    }

    pub fn found(self) -> (ty: DataType)
        ensures
            ty == self.data_type(),
    {
        match self {
            CellValue::F64(_) => DataType::F64,
            CellValue::U64(_) => DataType::U64,
            CellValue::Bool(_) => DataType::Bool,
            CellValue::OptU64(_) => DataType::OptU64,
        }
    }

    pub fn to_slot(self) -> (slot: Slot)
        ensures
            slot == self.encode(),
    {
        match self {
            CellValue::F64(bits) => Slot { word: bits, present: true },
            CellValue::U64(v) => Slot { word: v, present: true },
            CellValue::Bool(b) => Slot { word: if b { 1 } else { 0 }, present: true },
            CellValue::OptU64(Some(v)) => Slot { word: v, present: true },
            CellValue::OptU64(None) => Slot { word: 0, present: false },
        }
    }
}

/// Reading a slot in a column of the value's own type gives the value back.
pub proof fn lemma_decode_encode(v: CellValue)
    ensures
        v.data_type().decode(v.encode()) == v,
{
}

/// Two values of one type that leave the same slot are the same value; in
/// particular a null and a present value of a nullable type never share a
/// slot.
pub proof fn lemma_encode_injective(a: CellValue, b: CellValue)
    requires
        a.data_type() == b.data_type(),
        a.encode() == b.encode(),
    ensures
        a == b,
{
}

/// A null and a present value are told apart by the slot's presence flag.
pub proof fn lemma_presence_recovered(ty: DataType, v: Option<u64>)
    requires
        ty.is_nullable(),
    ensures
        ty.decode(CellValue::OptU64(v).encode()) == CellValue::OptU64(v),
        CellValue::OptU64(v).encode().present == v.is_some(),
{
}

} // verus!
