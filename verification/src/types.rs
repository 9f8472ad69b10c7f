//! Operand types of the instruction set.
//!
//! Every operand is decoded from one of the byte-wide fields of an instruction
//! word or from its 16-bit wide field, so every type converts from both `u8`
//! and `u16`.

use crate::error::DecompileError;
use vstd::prelude::*;
use vstd::std_specs::convert::FromSpecImpl;
use vstd::std_specs::convert::TryFromSpecImpl;

verus! {

/// A source slot.
#[derive(Debug, Clone, Copy, PartialEq, Eq, Structural)]
pub struct Var(pub u16);

impl From<u8> for Var {
    #[inline(always)]
    fn from(val: u8) -> (r: Self) {
        Var(val as u16)
    }
}

impl FromSpecImpl<u8> for Var {
    open spec fn obeys_from_spec() -> bool {
        true
    }

    open spec fn from_spec(val: u8) -> Self {
        Var(val as u16)
    }
}

impl From<u16> for Var {
    #[inline(always)]
    fn from(val: u16) -> (r: Self) {
        Var(val)
    }
}

impl FromSpecImpl<u16> for Var {
    open spec fn obeys_from_spec() -> bool {
        true
    }

    open spec fn from_spec(val: u16) -> Self {
        Var(val)
    }
}

/// A destination slot.
#[derive(Debug, Clone, Copy, PartialEq, Eq, Structural)]
pub struct Dst(pub u16);

impl From<u8> for Dst {
    #[inline(always)]
    fn from(val: u8) -> (r: Self) {
        Dst(val as u16)
    }
}

impl FromSpecImpl<u8> for Dst {
    open spec fn obeys_from_spec() -> bool {
        true
    }

    open spec fn from_spec(val: u8) -> Self {
        Dst(val as u16)
    }
}

impl From<u16> for Dst {
    #[inline(always)]
    fn from(val: u16) -> (r: Self) {
        Dst(val)
    }
}

impl FromSpecImpl<u16> for Dst {
    open spec fn obeys_from_spec() -> bool {
        true
    }

    open spec fn from_spec(val: u16) -> Self {
        Dst(val)
    }
}

/// The first slot of a range that an instruction reads and writes.
#[derive(Debug, Clone, Copy, PartialEq, Eq, Structural)]
pub struct Base(pub u16);

impl From<u8> for Base {
    #[inline(always)]
    fn from(val: u8) -> (r: Self) {
        Base(val as u16)
    }
}

impl FromSpecImpl<u8> for Base {
    open spec fn obeys_from_spec() -> bool {
        true
    }

    open spec fn from_spec(val: u8) -> Self {
        Base(val as u16)
    }
}

impl From<u16> for Base {
    #[inline(always)]
    fn from(val: u16) -> (r: Self) {
        Base(val)
    }
}

impl FromSpecImpl<u16> for Base {
    open spec fn obeys_from_spec() -> bool {
        true
    }

    open spec fn from_spec(val: u16) -> Self {
        Base(val)
    }
}

/// The first slot of a range that an instruction only reads.
#[derive(Debug, Clone, Copy, PartialEq, Eq, Structural)]
pub struct RBase(pub u16);

impl From<u8> for RBase {
    #[inline(always)]
    fn from(val: u8) -> (r: Self) {
        RBase(val as u16)
    }
}

impl FromSpecImpl<u8> for RBase {
    open spec fn obeys_from_spec() -> bool {
        true
    }

    open spec fn from_spec(val: u8) -> Self {
        RBase(val as u16)
    }
}

impl From<u16> for RBase {
    #[inline(always)]
    fn from(val: u16) -> (r: Self) {
        RBase(val)
    }
}

impl FromSpecImpl<u16> for RBase {
    open spec fn obeys_from_spec() -> bool {
        true
    }

    open spec fn from_spec(val: u16) -> Self {
        RBase(val)
    }
}

/// An upvalue index.
#[derive(Debug, Clone, Copy, PartialEq, Eq, Structural)]
pub struct UV(pub u16);

impl From<u8> for UV {
    #[inline(always)]
    fn from(val: u8) -> (r: Self) {
        UV(val as u16)
    }
}

impl FromSpecImpl<u8> for UV {
    open spec fn obeys_from_spec() -> bool {
        true
    }

    open spec fn from_spec(val: u8) -> Self {
        UV(val as u16)
    }
}

impl From<u16> for UV {
    #[inline(always)]
    fn from(val: u16) -> (r: Self) {
        UV(val)
    }
}

impl FromSpecImpl<u16> for UV {
    open spec fn obeys_from_spec() -> bool {
        true
    }

    open spec fn from_spec(val: u16) -> Self {
        UV(val)
    }
}

/// An index of a string constant.
#[derive(Debug, Clone, Copy, PartialEq, Eq, Structural)]
pub struct Str(pub u16);

impl From<u8> for Str {
    #[inline(always)]
    fn from(val: u8) -> (r: Self) {
        Str(val as u16)
    }
}

impl FromSpecImpl<u8> for Str {
    open spec fn obeys_from_spec() -> bool {
        true
    }

    open spec fn from_spec(val: u8) -> Self {
        Str(val as u16)
    }
}

impl From<u16> for Str {
    #[inline(always)]
    fn from(val: u16) -> (r: Self) {
        Str(val)
    }
}

impl FromSpecImpl<u16> for Str {
    open spec fn obeys_from_spec() -> bool {
        true
    }

    open spec fn from_spec(val: u16) -> Self {
        Str(val)
    }
}

/// An index of a numeric constant.
#[derive(Debug, Clone, Copy, PartialEq, Eq, Structural)]
pub struct Num(pub u16);

impl From<u8> for Num {
    #[inline(always)]
    fn from(val: u8) -> (r: Self) {
        Num(val as u16)
    }
}

impl FromSpecImpl<u8> for Num {
    open spec fn obeys_from_spec() -> bool {
        true
    }

    open spec fn from_spec(val: u8) -> Self {
        Num(val as u16)
    }
}

impl From<u16> for Num {
    #[inline(always)]
    fn from(val: u16) -> (r: Self) {
        Num(val)
    }
}

impl FromSpecImpl<u16> for Num {
    open spec fn obeys_from_spec() -> bool {
        true
    }

    open spec fn from_spec(val: u16) -> Self {
        Num(val)
    }
}

/// An index of a table constant.
#[derive(Debug, Clone, Copy, PartialEq, Eq, Structural)]
pub struct Tab(pub u16);

impl From<u8> for Tab {
    #[inline(always)]
    fn from(val: u8) -> (r: Self) {
        Tab(val as u16)
    }
}

impl FromSpecImpl<u8> for Tab {
    open spec fn obeys_from_spec() -> bool {
        true
    }

    open spec fn from_spec(val: u8) -> Self {
        Tab(val as u16)
    }
}

impl From<u16> for Tab {
    #[inline(always)]
    fn from(val: u16) -> (r: Self) {
        Tab(val)
    }
}

impl FromSpecImpl<u16> for Tab {
    open spec fn obeys_from_spec() -> bool {
        true
    }

    open spec fn from_spec(val: u16) -> Self {
        Tab(val)
    }
}

/// An index of a child prototype constant.
#[derive(Debug, Clone, Copy, PartialEq, Eq, Structural)]
pub struct Func(pub u16);

impl From<u8> for Func {
    #[inline(always)]
    fn from(val: u8) -> (r: Self) {
        Func(val as u16)
    }
}

impl FromSpecImpl<u8> for Func {
    open spec fn obeys_from_spec() -> bool {
        true
    }

    open spec fn from_spec(val: u8) -> Self {
        Func(val as u16)
    }
}

impl From<u16> for Func {
    #[inline(always)]
    fn from(val: u16) -> (r: Self) {
        Func(val)
    }
}

impl FromSpecImpl<u16> for Func {
    open spec fn obeys_from_spec() -> bool {
        true
    }

    open spec fn from_spec(val: u16) -> Self {
        Func(val)
    }
}

/// An index of a foreign-data constant.
#[derive(Debug, Clone, Copy, PartialEq, Eq, Structural)]
pub struct CData(pub u16);

impl From<u8> for CData {
    #[inline(always)]
    fn from(val: u8) -> (r: Self) {
        CData(val as u16)
    }
}

impl FromSpecImpl<u8> for CData {
    open spec fn obeys_from_spec() -> bool {
        true
    }

    open spec fn from_spec(val: u8) -> Self {
        CData(val as u16)
    }
}

impl From<u16> for CData {
    #[inline(always)]
    fn from(val: u16) -> (r: Self) {
        CData(val)
    }
}

impl FromSpecImpl<u16> for CData {
    open spec fn obeys_from_spec() -> bool {
        true
    }

    open spec fn from_spec(val: u16) -> Self {
        CData(val)
    }
}

/// An unsigned literal byte. A wide field keeps its low byte.
#[derive(Debug, Clone, Copy, PartialEq, Eq, Structural)]
pub struct Lit(pub u8);

impl From<u8> for Lit {
    #[inline(always)]
    fn from(val: u8) -> (r: Self) {
        Lit(val)
    }
}

impl FromSpecImpl<u8> for Lit {
    open spec fn obeys_from_spec() -> bool {
        true
    }

    open spec fn from_spec(val: u8) -> Self {
        Lit(val)
    }
}

impl From<u16> for Lit {
    fn from(val: u16) -> (r: Self) {
        Lit((val % 256) as u8)
    }
}

impl FromSpecImpl<u16> for Lit {
    open spec fn obeys_from_spec() -> bool {
        true
    }

    open spec fn from_spec(val: u16) -> Self {
        Lit((val % 256) as u8)
    }
}

/// The two's complement reading of a byte.
pub open spec fn signed_byte(val: u8) -> i8 {
    if val < 128 {
        val as i8
    } else {
        (val - 256) as i8
    }
}

/// A signed literal byte: the field read in two's complement. A wide field
/// keeps its low byte.
#[derive(Debug, Clone, Copy, PartialEq, Eq, Structural)]
pub struct LitS(pub i8);

impl From<u8> for LitS {
    #[inline(always)]
    fn from(val: u8) -> (r: Self) {
        if val < 128 {
            LitS(val as i8)
        } else {
            LitS((val as i16 - 256) as i8)
        }
    }
}

impl FromSpecImpl<u8> for LitS {
    open spec fn obeys_from_spec() -> bool {
        true
    }

    open spec fn from_spec(val: u8) -> Self {
        LitS(signed_byte(val))
    }
}

impl From<u16> for LitS {
    fn from(val: u16) -> (r: Self) {
        LitS::from((val % 256) as u8)
    }
}

impl FromSpecImpl<u16> for LitS {
    open spec fn obeys_from_spec() -> bool {
        true
    }

    open spec fn from_spec(val: u16) -> Self {
        LitS(signed_byte((val % 256) as u8))
    }
}

/// A primitive constant.
#[derive(Debug, Clone, Copy, PartialEq, Eq, Structural)]
pub enum Pri {
    Nil,
    False,
    True,
}

/// The primitive that an operand value stands for: `0` is nil, `1` is false,
/// `2` is true, and no other value is a primitive.
pub open spec fn pri_of(val: int) -> Result<Pri, DecompileError> {
    if val == 0 {
        Ok(Pri::Nil)
    } else if val == 1 {
        Ok(Pri::False)
    } else if val == 2 {
        Ok(Pri::True)
    } else {
        Err(DecompileError::InvalidPriValue)
    }
}

impl TryFrom<u8> for Pri {
    type Error = DecompileError;

    fn try_from(val: u8) -> (r: Result<Self, DecompileError>) {
        match val {
            0 => Ok(Pri::Nil),
            1 => Ok(Pri::False),
            2 => Ok(Pri::True),
            _ => Err(DecompileError::InvalidPriValue),
        }
    }
}

impl TryFromSpecImpl<u8> for Pri {
    open spec fn obeys_try_from_spec() -> bool {
        true
    }

    open spec fn try_from_spec(val: u8) -> Result<Self, DecompileError> {
        pri_of(val as int)
    }
}

impl TryFrom<u16> for Pri {
    type Error = DecompileError;

    fn try_from(val: u16) -> (r: Result<Self, DecompileError>) {
        match val {
            0 => Ok(Pri::Nil),
            1 => Ok(Pri::False),
            2 => Ok(Pri::True),
            _ => Err(DecompileError::InvalidPriValue),
        }
    }
}

impl TryFromSpecImpl<u16> for Pri {
    open spec fn obeys_try_from_spec() -> bool {
        true
    }

    open spec fn try_from_spec(val: u16) -> Result<Self, DecompileError> {
        pri_of(val as int)
    }
}

/// A branch offset, relative to the instruction after the branch.
#[derive(Debug, Clone, Copy, PartialEq, Eq, Structural)]
pub struct Jump(pub i16);

/// The offset that a byte-wide field stands for.
pub open spec fn jump_of_byte(val: u8) -> i16 {
    if val == 0 {
        -0x8000i16
    } else {
        (0x8000 - val) as i16
    }
}

impl From<u8> for Jump {
    #[inline(always)]
    fn from(val: u8) -> (r: Self) {
        if val == 0 {
            Jump(i16::MIN)
        } else {
            Jump((0x8000i32 - val as i32) as i16)
        }
    }
}

impl FromSpecImpl<u8> for Jump {
    open spec fn obeys_from_spec() -> bool {
        true
    }

    open spec fn from_spec(val: u8) -> Self {
        Jump(jump_of_byte(val))
    }
}

impl From<u16> for Jump {
    #[inline(always)]
    fn from(val: u16) -> (r: Self) {
        Jump((val as i32 - 0x8000i32) as i16)
    }
}

impl FromSpecImpl<u16> for Jump {
    open spec fn obeys_from_spec() -> bool {
        true
    }

    open spec fn from_spec(val: u16) -> Self {
        Jump((val - 0x8000) as i16)
    }
}

} // verus!
