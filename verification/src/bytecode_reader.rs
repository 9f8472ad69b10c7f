//! The loader of bytecode dumps.
//!
//! Every reader takes a cursor: a byte slice that it shortens from the front
//! by what it has read. A reader that fails leaves the cursor where it was.

use crate::error::DecompileError;
use crate::graph::Graph;
use crate::resolver::cfg_wf;
use crate::resolver::cfg_of;
use crate::resolver::resolve;
use crate::resolver::Cfg;
use crate::resolver::resolve_basic_blocks;
use crate::resolver::MAX_INSTRUCTIONS;
use crate::resolver::Block;
use crate::resolver::BranchKind;
use byteorder::ByteOrder;
use byteorder::LittleEndian;
use vstd::prelude::*;
use vstd::slice::slice_subrange;
use vstd::slice::slice_to_vec;

verus! {

// bytes that open a dump
pub const BC_HEAD1: u8 = 0x1b;

pub const BC_HEAD2: u8 = 0x4c;

pub const BC_HEAD3: u8 = 0x4a;

pub const BC_VERSION: u8 = 2;

// flags of a dump
pub const BC_F_BE: u32 = 0x01;

pub const BC_F_STRIP: u32 = 0x02;

pub const BC_F_FFI: u32 = 0x04;

pub const BC_F_FR2: u32 = 0x08;

pub const BC_F_KNOWN: u32 = 0x0f;

// type codes of the global constants of a prototype; a string has its length
// added to its code
pub const GC_TYPE_PROTO_CHILD: u32 = 0;

pub const GC_TYPE_TABLE: u32 = 1;

pub const GC_TYPE_I64: u32 = 2;

pub const GC_TYPE_U64: u32 = 3;

pub const GC_TYPE_COMPLEX: u32 = 4;

pub const GC_TYPE_STR: u32 = 5;

// type codes of the keys and values of a constant table
pub const TABLE_ENTRY_TYPE_NIL: u32 = 0;

pub const TABLE_ENTRY_TYPE_FALSE: u32 = 1;

pub const TABLE_ENTRY_TYPE_TRUE: u32 = 2;

pub const TABLE_ENTRY_TYPE_INT: u32 = 3;

pub const TABLE_ENTRY_TYPE_NUM: u32 = 4;

pub const TABLE_ENTRY_TYPE_STR: u32 = 5;

/// A variable-length integer, read from byte `k` of `s` on: each byte gives
/// seven bits, lowest first, and its top bit says that another byte follows.
/// No byte is read at or behind `limit`. The result is the number, not yet
/// cut to any width, and the position behind its last byte.
pub open spec fn uleb_groups(s: Seq<u8>, k: int, limit: int) -> Result<(int, int), DecompileError>
    decreases limit - k,
{
    if k >= limit {
        Err(DecompileError::InvalidULeb128)
    } else if k >= s.len() {
        Err(DecompileError::IO)
    } else if s[k] < 0x80 {
        Ok((s[k] as int, k + 1))
    } else {
        match uleb_groups(s, k + 1, limit) {
            Ok((v, n)) => Ok(((s[k] - 0x80) + 0x80 * v, n)),
            Err(e) => Err(e),
        }
    }
}

/// The variable-length integer at the front of `s`, of at most five bytes,
/// cut to 32 bits, with the number of bytes it takes.
pub open spec fn parse_uleb128(s: Seq<u8>) -> Result<(u32, int), DecompileError> {
    match uleb_groups(s, 0, 5) {
        Ok((v, n)) => Ok(((v % 0x1_0000_0000) as u32, n)),
        Err(e) => Err(e),
    }
}

/// The 33-bit variable-length integer at the front of `s`: its upper 32 bits,
/// its first byte, whose lowest bit is the 33rd, and the number of bytes it
/// takes. The first byte holds the flag bit and six bits of the number.
pub open spec fn parse_uleb128_33(s: Seq<u8>) -> Result<(u32, u8, int), DecompileError> {
    if s.len() == 0 {
        Err(DecompileError::IO)
    } else if s[0] / 2 < 0x40 {
        Ok(((s[0] / 2) as u32, s[0], 1))
    } else {
        match uleb_groups(s, 1, 5) {
            Ok((v, n)) => Ok(((((s[0] / 2) % 0x40 + 0x40 * v) % 0x1_0000_0000) as u32, s[0], n)),
            Err(e) => Err(e),
        }
    }
}

/// The shortest encoding of a number as a variable-length integer.
pub open spec fn encode_uleb128(v: nat) -> Seq<u8>
    decreases v,
{
    if v < 0x80 {
        seq![v as u8]
    } else {
        seq![(v % 0x80 + 0x80) as u8] + encode_uleb128(v / 0x80)
    }
}

/// Two bytes read as a little-endian number.
pub open spec fn le_u16(s: Seq<u8>, at: int) -> u16 {
    (s[at] + 0x100 * s[at + 1]) as u16
}

/// Four bytes read as a little-endian number.
pub open spec fn le_u32(s: Seq<u8>, at: int) -> u32 {
    (s[at] + 0x100 * s[at + 1] + 0x1_0000 * s[at + 2] + 0x100_0000 * s[at + 3]) as u32
}

proof fn lemma_or_is_add(acc: u32, byte: u8, shift: u32)
    by (bit_vector)
    requires
        shift <= 28,
        acc < (1u32 << shift),
    ensures
        (acc | (((byte & 0x7f) as u32) << shift)) as int == (acc as int + ((byte % 0x80) as int)
            * ((1u64 << (shift as u64)) as int)) % 0x1_0000_0000int,
        shift <= 21 ==> (acc | (((byte & 0x7f) as u32) << shift)) < (1u32 << ((shift + 7) as u32)),
        shift <= 21 ==> (acc as int + ((byte % 0x80) as int) * ((1u64 << (shift as u64)) as int))
            < 0x1_0000_0000int,
        (1u64 << ((shift + 7) as u64)) == 0x80 * (1u64 << (shift as u64)),
        (byte & 0x80 == 0) == (byte < 0x80),
{
}

/// What a number read so far and the groups that follow make together:
/// `acc` holds the bits below `weight`, the groups the bits from there on.
spec fn joined(acc: int, weight: int, groups: Result<(int, int), DecompileError>) -> Result<
    (u32, int),
    DecompileError,
> {
    match groups {
        Ok((v, n)) => Ok((((acc + weight * v) % 0x1_0000_0000) as u32, n)),
        Err(e) => Err(e),
    }
}

proof fn lemma_groups_bounds(s: Seq<u8>, k: int, limit: int)
    requires
        0 <= k,
    ensures
        uleb_groups(s, k, limit) matches Ok((v, n)) ==> v >= 0 && k < n <= limit && n <= s.len(),
    decreases limit - k,
{
    if k < limit && k < s.len() && s[k] >= 0x80 {
        lemma_groups_bounds(s, k + 1, limit);
    }
}

proof fn lemma_joined_step(acc: int, weight: int, byte: int, v: int)
    ensures
        acc + weight * ((byte - 0x80) + 0x80 * v) == (acc + (byte - 0x80) * weight) + (0x80
            * weight) * v,
{
    assert(weight * ((byte - 0x80) + 0x80 * v) == (byte - 0x80) * weight + (0x80 * weight) * v)
        by (nonlinear_arith);
}

/// Reads the groups of a variable-length integer from byte `start` of `data`
/// on, onto the bits in `acc`, which lie below bit `shift`.
fn read_groups(data: &[u8], start: usize, acc: u32, shift: u32) -> (r: Result<
    (u32, usize),
    DecompileError,
>)
    requires
        start <= 4,
        shift + 7 * (4 - start) <= 28,
        acc < (1u32 << shift),
    ensures
        match joined(
            acc as int,
            (1u64 << (shift as u64)) as int,
            uleb_groups(data@, start as int, 5),
        ) {
            Ok((v, n)) => r == Ok::<(u32, usize), DecompileError>((v, n as usize)) && start < n
                <= data@.len(),
            Err(e) => r == Err::<(u32, usize), DecompileError>(e),
        },
{
    let mut result = acc;
    let mut sh = shift;
    let mut k: usize = start;
    while k < 5
        invariant
            start <= k <= 5,
            k <= 4 ==> sh + 7 * (4 - k) <= 28 && result < (1u32 << sh),
            joined(
                acc as int,
                (1u64 << (shift as u64)) as int,
                uleb_groups(data@, start as int, 5),
            ) == joined(
                result as int,
                (1u64 << (sh as u64)) as int,
                uleb_groups(data@, k as int, 5),
            ),
        decreases 5 - k,
    {
        if k >= data.len() {
            return Err(DecompileError::IO);
        }
        let byte = data[k];
        proof {
            lemma_or_is_add(result, byte, sh);
            lemma_groups_bounds(data@, k as int + 1, 5);
            if byte >= 0x80 {
                if let Ok((v, n)) = uleb_groups(data@, k as int + 1, 5) {
                    lemma_joined_step(result as int, (1u64 << (sh as u64)) as int, byte as int, v);
                }
            }
        }
        let ghost low = result as int;
        let ghost weight = (1u64 << (sh as u64)) as int;
        result |= ((byte & 0x7f) as u32) << sh;
        if byte & 0x80 == 0 {
            proof {
                assert(byte % 0x80 == byte);
                assert((byte as int) * weight == weight * (byte as int)) by (nonlinear_arith);
                assert(uleb_groups(data@, k as int, 5) == Ok::<(int, int), DecompileError>(
                    (byte as int, k + 1),
                ));
                assert(result as int == (low + weight * (byte as int)) % 0x1_0000_0000);
            }
            return Ok((result, k + 1));
        }
        sh += 7;
        k += 1;
    }
    Err(DecompileError::InvalidULeb128)
}

/// Reads a variable-length integer of at most five bytes.
pub fn read_uleb128<'a>(data: &mut &'a [u8]) -> (r: Result<u32, DecompileError>)
    ensures
        match parse_uleb128(old(data)@) {
            Ok((v, n)) => r == Ok::<u32, DecompileError>(v) && 0 < n <= old(data)@.len()
                && final(data)@ == old(data)@.skip(n),
            Err(e) => r == Err::<u32, DecompileError>(e) && *final(data) == *old(data),
        },
{
    assert(0u32 < (1u32 << 0u32)) by (bit_vector);
    assert((1u64 << 0u64) == 1) by (bit_vector);
    let (value, used) = read_groups(*data, 0, 0, 0)?;
    *data = slice_subrange(*data, used, data.len());
    Ok(value)
}

/// Reads the upper 32 bits of a 33-bit variable-length integer, and hands
/// back its first byte with them: the lowest bit of that byte is the 33rd.
pub fn read_uleb128_33<'a>(data: &mut &'a [u8]) -> (r: Result<(u32, u8), DecompileError>)
    ensures
        match parse_uleb128_33(old(data)@) {
            Ok((v, first, n)) => r == Ok::<(u32, u8), DecompileError>((v, first))
                && 0 < n <= old(data)@.len() && final(data)@ == old(data)@.skip(n),
            Err(e) => r == Err::<(u32, u8), DecompileError>(e) && *final(data) == *old(data),
        },
{
    if data.len() == 0 {
        return Err(DecompileError::IO);
    }
    let first = data[0];
    let mut v = (first as u32) >> 1;
    let mut used: usize = 1;
    assert((first as u32) >> 1 == first / 2) by (bit_vector);
    if v >= 0x40 {
        assert(v & 0x3f == v % 0x40 && (v & 0x3f) < (1u32 << 6u32)) by (bit_vector);
        assert((1u64 << 6u64) == 0x40) by (bit_vector);
        v &= 0x3f;
        let (value, end) = read_groups(*data, 1, v, 6)?;
        v = value;
        used = end;
    }
    *data = slice_subrange(*data, used, data.len());
    Ok((v, first))
}

proof fn lemma_encoding_len(v: nat, bytes: nat)
    requires
        bytes >= 1,
        v < vstd::arithmetic::power::pow(0x80, bytes),
    ensures
        1 <= encode_uleb128(v).len() <= bytes,
    decreases v,
{
    vstd::arithmetic::power::lemma_pow1(0x80);
    if v >= 0x80 {
        assert(bytes >= 2) by {
            if bytes == 1 {
                assert(vstd::arithmetic::power::pow(0x80, 1) == 0x80);
            }
        }
        vstd::arithmetic::power::lemma_pow_adds(0x80, 1, (bytes - 1) as nat);
        assert(vstd::arithmetic::power::pow(0x80, bytes) == 0x80 * vstd::arithmetic::power::pow(
            0x80,
            (bytes - 1) as nat,
        ));
        assert(v / 0x80 < vstd::arithmetic::power::pow(0x80, (bytes - 1) as nat)) by {
            let p = vstd::arithmetic::power::pow(0x80, (bytes - 1) as nat);
            if v / 0x80 >= p {
                assert(0x80 * (v / 0x80) >= 0x80 * p) by (nonlinear_arith)
                    requires
                        v / 0x80 >= p,
                ;
            }
        }
        lemma_encoding_len(v / 0x80, (bytes - 1) as nat);
    }
}

proof fn lemma_groups_of_encoding(before: Seq<u8>, v: nat, after: Seq<u8>, limit: int)
    requires
        before.len() + encode_uleb128(v).len() <= limit,
    ensures
        uleb_groups(before + encode_uleb128(v) + after, before.len() as int, limit) == Ok::<
            (int, int),
            DecompileError,
        >((v as int, (before.len() + encode_uleb128(v).len()) as int)),
    decreases v,
{
    let s = before + encode_uleb128(v) + after;
    let k = before.len() as int;
    assert(s[k] == encode_uleb128(v)[0]);
    if v >= 0x80 {
        let first = seq![(v % 0x80 + 0x80) as u8];
        let longer = before + first;
        assert(s =~= longer + encode_uleb128(v / 0x80) + after);
        lemma_groups_of_encoding(longer, v / 0x80, after, limit);
        assert(v == (v % 0x80) + 0x80 * (v / 0x80));
    }
}

/// A number of 32 bits, encoded in the shortest way and followed by
/// anything, is read back as it was, from one to five bytes.
pub proof fn lemma_uleb128_round_trip(v: u32, rest: Seq<u8>)
    ensures
        1 <= encode_uleb128(v as nat).len() <= 5,
        parse_uleb128(encode_uleb128(v as nat) + rest) == Ok::<(u32, int), DecompileError>(
            (v, encode_uleb128(v as nat).len() as int),
        ),
{
    assert(vstd::arithmetic::power::pow(0x80, 5) == 0x8_0000_0000) by {
        vstd::arithmetic::power::lemma_pow1(0x80);
        vstd::arithmetic::power::lemma_pow_adds(0x80, 1, 1);
        assert(vstd::arithmetic::power::pow(0x80, 2) == 0x4000);
        vstd::arithmetic::power::lemma_pow_adds(0x80, 2, 2);
        assert(vstd::arithmetic::power::pow(0x80, 4) == 0x1000_0000);
        vstd::arithmetic::power::lemma_pow_adds(0x80, 4, 1);
    }
    lemma_encoding_len(v as nat, 5);
    lemma_groups_of_encoding(Seq::empty(), v as nat, rest, 5);
    assert(Seq::<u8>::empty() + encode_uleb128(v as nat) + rest =~= encode_uleb128(v as nat)
        + rest);
}

/// Five bytes that all announce another byte are no number.
pub proof fn lemma_uleb128_sixth_byte(s: Seq<u8>)
    requires
        s.len() >= 5,
        forall|i: int| 0 <= i < 5 ==> s[i] >= 0x80,
    ensures
        parse_uleb128(s) == Err::<(u32, int), DecompileError>(DecompileError::InvalidULeb128),
{
    assert(uleb_groups(s, 5, 5) is Err);
    assert(uleb_groups(s, 4, 5) is Err);
    assert(uleb_groups(s, 3, 5) is Err);
    assert(uleb_groups(s, 2, 5) is Err);
    assert(uleb_groups(s, 1, 5) is Err);
}

/// A 33-bit number of one byte: the byte's upper seven bits are the number,
/// and the byte itself comes back with it.
pub proof fn lemma_uleb128_33_single_byte(first: u8, rest: Seq<u8>)
    requires
        first < 0x80,
    ensures
        parse_uleb128_33(seq![first] + rest) == Ok::<(u32, u8, int), DecompileError>(
            ((first / 2) as u32, first, 1),
        ),
{
    assert((seq![first] + rest)[0] == first);
}

/// A key or value of a constant table.
#[derive(Debug, Clone, PartialEq, Eq)]
pub enum ConstTableVal {
    Nil,
    True,
    False,
    Int(u32),
    /// A floating-point number, as the two halves of its bit pattern.
    Num(u32, u32),
    /// A string, as its bytes.
    Str(Vec<u8>),
}

/// What a key or value of a constant table is.
pub ghost enum ConstTableValView {
    Nil,
    True,
    False,
    Int(u32),
    Num(u32, u32),
    Str(Seq<u8>),
}

impl View for ConstTableVal {
    type V = ConstTableValView;

    open spec fn view(&self) -> ConstTableValView {
        match self {
            ConstTableVal::Nil => ConstTableValView::Nil,
            ConstTableVal::True => ConstTableValView::True,
            ConstTableVal::False => ConstTableValView::False,
            ConstTableVal::Int(v) => ConstTableValView::Int(*v),
            ConstTableVal::Num(lo, hi) => ConstTableValView::Num(*lo, *hi),
            ConstTableVal::Str(bytes) => ConstTableValView::Str(bytes@),
        }
    }
}

/// A table literal: the values of its array part, and the keys and values of
/// its hash part, both in the order of the dump.
#[derive(Debug, Clone, PartialEq, Eq)]
pub struct ConstTable {
    array: Vec<ConstTableVal>,
    hash: Vec<(ConstTableVal, ConstTableVal)>,
}

/// What a table literal is.
pub ghost struct ConstTableView {
    pub array: Seq<ConstTableValView>,
    pub hash: Seq<(ConstTableValView, ConstTableValView)>,
}

impl View for ConstTable {
    type V = ConstTableView;

    closed spec fn view(&self) -> ConstTableView {
        ConstTableView {
            array: self.array@.map_values(|v: ConstTableVal| v@),
            hash: self.hash@.map_values(|kv: (ConstTableVal, ConstTableVal)| (kv.0@, kv.1@)),
        }
    }
}

impl ConstTable {
    /// The array part.
    pub fn array(&self) -> (r: &Vec<ConstTableVal>)
        ensures
            r@.map_values(|v: ConstTableVal| v@) == self@.array,
    {
        &self.array
    }

    /// The hash part.
    pub fn hash(&self) -> (r: &Vec<(ConstTableVal, ConstTableVal)>)
        ensures
            r@.map_values(|kv: (ConstTableVal, ConstTableVal)| (kv.0@, kv.1@)) == self@.hash,
    {
        &self.hash
    }
}

/// A constant of the pool that holds what is no plain number.
#[derive(Debug, Clone, PartialEq, Eq)]
pub enum GlobalConst {
    /// A prototype that was loaded before the one that holds this constant.
    /// The number counts back from it: 0 is the prototype right before.
    ProtoChild(u32),
    Table(ConstTable),
    /// A signed 64-bit integer, as its two halves.
    I64(u32, u32),
    /// An unsigned 64-bit integer, as its two halves.
    U64(u32, u32),
    /// A complex number: the halves of its real and of its imaginary part.
    Complex(u32, u32, u32, u32),
    /// A string, as its bytes.
    Str(Vec<u8>),
}

/// What a constant of that pool is.
pub ghost enum GlobalConstView {
    ProtoChild(u32),
    Table(ConstTableView),
    I64(u32, u32),
    U64(u32, u32),
    Complex(u32, u32, u32, u32),
    Str(Seq<u8>),
}

impl View for GlobalConst {
    type V = GlobalConstView;

    open spec fn view(&self) -> GlobalConstView {
        match self {
            GlobalConst::ProtoChild(back) => GlobalConstView::ProtoChild(*back),
            GlobalConst::Table(table) => GlobalConstView::Table(table@),
            GlobalConst::I64(lo, hi) => GlobalConstView::I64(*lo, *hi),
            GlobalConst::U64(lo, hi) => GlobalConstView::U64(*lo, *hi),
            GlobalConst::Complex(a, b, c, d) => GlobalConstView::Complex(*a, *b, *c, *d),
            GlobalConst::Str(bytes) => GlobalConstView::Str(bytes@),
        }
    }
}

/// A constant of the pool of numbers.
#[derive(Debug, Clone, Copy, PartialEq, Eq, Structural)]
pub enum NumConst {
    Int(u32),
    /// A floating-point number, as the two halves of its bit pattern.
    Num(u32, u32),
}

/// The front of `s` as `n` raw bytes.
pub open spec fn parse_bytes(s: Seq<u8>, n: int) -> Result<(Seq<u8>, int), DecompileError> {
    if s.len() < n {
        Err(DecompileError::IO)
    } else {
        Ok((s.take(n), n))
    }
}

/// Two variable-length integers in a row.
pub open spec fn parse_pair(s: Seq<u8>) -> Result<((u32, u32), int), DecompileError> {
    match parse_uleb128(s) {
        Err(e) => Err(e),
        Ok((a, n)) => match parse_uleb128(s.skip(n)) {
            Err(e) => Err(e),
            Ok((b, m)) => Ok(((a, b), n + m)),
        },
    }
}

/// A key or value of a constant table: a type code, then what the type
/// asks for. A code from 5 on is a string whose length is the code less 5.
pub open spec fn parse_table_val(s: Seq<u8>) -> Result<(ConstTableValView, int), DecompileError> {
    match parse_uleb128(s) {
        Err(e) => Err(e),
        Ok((tp, n)) => if tp == TABLE_ENTRY_TYPE_NIL {
            Ok((ConstTableValView::Nil, n))
        } else if tp == TABLE_ENTRY_TYPE_FALSE {
            Ok((ConstTableValView::False, n))
        } else if tp == TABLE_ENTRY_TYPE_TRUE {
            Ok((ConstTableValView::True, n))
        } else if tp == TABLE_ENTRY_TYPE_INT {
            match parse_uleb128(s.skip(n)) {
                Err(e) => Err(e),
                Ok((v, m)) => Ok((ConstTableValView::Int(v), n + m)),
            }
        } else if tp == TABLE_ENTRY_TYPE_NUM {
            match parse_pair(s.skip(n)) {
                Err(e) => Err(e),
                Ok(((lo, hi), m)) => Ok((ConstTableValView::Num(lo, hi), n + m)),
            }
        } else {
            match parse_bytes(s.skip(n), tp - TABLE_ENTRY_TYPE_STR) {
                Err(e) => Err(e),
                Ok((bytes, m)) => Ok((ConstTableValView::Str(bytes), n + m)),
            }
        },
    }
}

/// `count` values of a constant table in a row.
pub open spec fn parse_table_vals(s: Seq<u8>, count: nat) -> Result<
    (Seq<ConstTableValView>, int),
    DecompileError,
>
    decreases count,
{
    if count == 0 {
        Ok((Seq::empty(), 0))
    } else {
        match parse_table_val(s) {
            Err(e) => Err(e),
            Ok((v, n)) => match parse_table_vals(s.skip(n), (count - 1) as nat) {
                Err(e) => Err(e),
                Ok((rest, m)) => Ok((seq![v] + rest, n + m)),
            },
        }
    }
}

/// `count` pairs of key and value in a row.
pub open spec fn parse_table_pairs(s: Seq<u8>, count: nat) -> Result<
    (Seq<(ConstTableValView, ConstTableValView)>, int),
    DecompileError,
>
    decreases count,
{
    if count == 0 {
        Ok((Seq::empty(), 0))
    } else {
        match parse_table_val(s) {
            Err(e) => Err(e),
            Ok((k, n)) => match parse_table_val(s.skip(n)) {
                Err(e) => Err(e),
                Ok((v, m)) => match parse_table_pairs(s.skip(n + m), (count - 1) as nat) {
                    Err(e) => Err(e),
                    Ok((rest, l)) => Ok((seq![(k, v)] + rest, n + m + l)),
                },
            },
        }
    }
}

/// A constant table: the sizes of its two parts, then the array part, then
/// the hash part.
pub open spec fn parse_const_table(s: Seq<u8>) -> Result<(ConstTableView, int), DecompileError> {
    match parse_pair(s) {
        Err(e) => Err(e),
        Ok(((n_array, n_hash), n)) => match parse_table_vals(s.skip(n), n_array as nat) {
            Err(e) => Err(e),
            Ok((array, m)) => match parse_table_pairs(s.skip(n + m), n_hash as nat) {
                Err(e) => Err(e),
                Ok((hash, l)) => Ok((ConstTableView { array, hash }, n + m + l)),
            },
        },
    }
}

/// Takes `n` bytes off the front of the cursor.
fn take<'a>(data: &mut &'a [u8], n: usize) -> (r: Result<&'a [u8], DecompileError>)
    ensures
        match parse_bytes(old(data)@, n as int) {
            Ok((bytes, used)) => r is Ok && r->Ok_0@ == bytes && used == n
                && final(data)@ == old(data)@.skip(n as int),
            Err(e) => r == Err::<&[u8], DecompileError>(e) && *final(data) == *old(data),
        },
{
    if data.len() < n {
        return Err(DecompileError::IO);
    }
    let bytes = slice_subrange(*data, 0, n);
    *data = slice_subrange(*data, n, data.len());
    proof {
        assert(bytes@ =~= old(data)@.take(n as int));
    }
    Ok(bytes)
}

/// Reads two variable-length integers.
fn read_pair<'a>(data: &mut &'a [u8]) -> (r: Result<(u32, u32), DecompileError>)
    ensures
        match parse_pair(old(data)@) {
            Ok((v, n)) => r == Ok::<(u32, u32), DecompileError>(v) && 0 < n <= old(data)@.len()
                && final(data)@ == old(data)@.skip(n),
            Err(e) => r == Err::<(u32, u32), DecompileError>(e) && *final(data) == *old(data),
        },
{
    let mut cur: &[u8] = *data;
    let a = read_uleb128(&mut cur)?;
    let b = read_uleb128(&mut cur)?;
    proof {
        lemma_skip_skip(old(data)@, parse_uleb128(old(data)@)->Ok_0.1, parse_pair(old(data)@)->Ok_0.1);
    }
    *data = cur;
    Ok((a, b))
}

/// Skipping twice is skipping once to the same place.
proof fn lemma_skip_skip(s: Seq<u8>, n: int, total: int)
    requires
        0 <= n <= total <= s.len(),
    ensures
        s.skip(n).skip(total - n) == s.skip(total),
{
    assert(s.skip(n).skip(total - n) =~= s.skip(total));
}

/// Reads one key or value of a constant table.
pub fn read_prototype_const_table_val<'a>(data: &mut &'a [u8]) -> (r: Result<
    ConstTableVal,
    DecompileError,
>)
    ensures
        match parse_table_val(old(data)@) {
            Ok((v, n)) => r is Ok && r->Ok_0@ == v && 0 < n <= old(data)@.len() && final(data)@
                == old(data)@.skip(n),
            Err(e) => r == Err::<ConstTableVal, DecompileError>(e) && *final(data) == *old(data),
        },
{
    let ghost s = data@;
    let mut cur: &[u8] = *data;
    let tp = read_uleb128(&mut cur)?;
    let ghost n = parse_uleb128(s)->Ok_0.1;
    let val = if tp == TABLE_ENTRY_TYPE_NIL {
        ConstTableVal::Nil
    } else if tp == TABLE_ENTRY_TYPE_FALSE {
        ConstTableVal::False
    } else if tp == TABLE_ENTRY_TYPE_TRUE {
        ConstTableVal::True
    } else if tp == TABLE_ENTRY_TYPE_INT {
        ConstTableVal::Int(read_uleb128(&mut cur)?)
    } else if tp == TABLE_ENTRY_TYPE_NUM {
        let (lo, hi) = read_pair(&mut cur)?;
        ConstTableVal::Num(lo, hi)
    } else {
        let len = tp - TABLE_ENTRY_TYPE_STR;
        let bytes = take(&mut cur, len as usize)?;
        ConstTableVal::Str(slice_to_vec(bytes))
    };
    proof {
        lemma_skip_skip(s, n, parse_table_val(s)->Ok_0.1);
    }
    *data = cur;
    Ok(val)
}

/// A constant of the global pool: a type code, then what the type asks
/// for. `back` is the number of child prototypes that the pool has named
/// before this constant.
pub open spec fn parse_global_const(s: Seq<u8>, back: nat) -> Result<
    (GlobalConstView, int),
    DecompileError,
> {
    match parse_uleb128(s) {
        Err(e) => Err(e),
        Ok((tp, n)) => if tp == GC_TYPE_PROTO_CHILD {
            Ok((GlobalConstView::ProtoChild(back as u32), n))
        } else if tp == GC_TYPE_TABLE {
            match parse_const_table(s.skip(n)) {
                Err(e) => Err(e),
                Ok((table, m)) => Ok((GlobalConstView::Table(table), n + m)),
            }
        } else if tp == GC_TYPE_I64 {
            match parse_pair(s.skip(n)) {
                Err(e) => Err(e),
                Ok(((lo, hi), m)) => Ok((GlobalConstView::I64(lo, hi), n + m)),
            }
        } else if tp == GC_TYPE_U64 {
            match parse_pair(s.skip(n)) {
                Err(e) => Err(e),
                Ok(((lo, hi), m)) => Ok((GlobalConstView::U64(lo, hi), n + m)),
            }
        } else if tp == GC_TYPE_COMPLEX {
            match parse_pair(s.skip(n)) {
                Err(e) => Err(e),
                Ok(((a, b), m)) => match parse_pair(s.skip(n + m)) {
                    Err(e) => Err(e),
                    Ok(((c, d), l)) => Ok((GlobalConstView::Complex(a, b, c, d), n + m + l)),
                },
            }
        } else {
            match parse_bytes(s.skip(n), tp - GC_TYPE_STR) {
                Err(e) => Err(e),
                Ok((bytes, m)) => Ok((GlobalConstView::Str(bytes), n + m)),
            }
        },
    }
}

/// `count` constants of the global pool in a row.
pub open spec fn parse_global_consts(s: Seq<u8>, count: nat, back: nat) -> Result<
    (Seq<GlobalConstView>, int),
    DecompileError,
>
    decreases count,
{
    if count == 0 {
        Ok((Seq::empty(), 0))
    } else {
        match parse_global_const(s, back) {
            Err(e) => Err(e),
            Ok((c, n)) => match parse_global_consts(
                s.skip(n),
                (count - 1) as nat,
                if c is ProtoChild {
                    back + 1
                } else {
                    back
                },
            ) {
                Err(e) => Err(e),
                Ok((rest, m)) => Ok((seq![c] + rest, n + m)),
            },
        }
    }
}

/// A constant of the pool of numbers: a 33-bit integer whose lowest bit says
/// whether a second integer follows, the upper half of a floating-point
/// number.
pub open spec fn parse_num_const(s: Seq<u8>) -> Result<(NumConst, int), DecompileError> {
    match parse_uleb128_33(s) {
        Err(e) => Err(e),
        Ok((lo, first, n)) => if first % 2 == 1 {
            match parse_uleb128(s.skip(n)) {
                Err(e) => Err(e),
                Ok((hi, m)) => Ok((NumConst::Num(lo, hi), n + m)),
            }
        } else {
            Ok((NumConst::Int(lo), n))
        },
    }
}

/// `count` constants of the pool of numbers in a row.
pub open spec fn parse_num_consts(s: Seq<u8>, count: nat) -> Result<
    (Seq<NumConst>, int),
    DecompileError,
>
    decreases count,
{
    if count == 0 {
        Ok((Seq::empty(), 0))
    } else {
        match parse_num_const(s) {
            Err(e) => Err(e),
            Ok((c, n)) => match parse_num_consts(s.skip(n), (count - 1) as nat) {
                Err(e) => Err(e),
                Ok((rest, m)) => Ok((seq![c] + rest, n + m)),
            },
        }
    }
}

/// What has been read and what is still to come make the whole.
spec fn continued<T>(
    done: Seq<T>,
    used: int,
    rest: Result<(Seq<T>, int), DecompileError>,
) -> Result<(Seq<T>, int), DecompileError> {
    match rest {
        Ok((more, n)) => Ok((done + more, used + n)),
        Err(e) => Err(e),
    }
}

proof fn lemma_continued_push<T>(
    done: Seq<T>,
    used: int,
    item: T,
    n: int,
    rest: Result<(Seq<T>, int), DecompileError>,
)
    ensures
        continued(done, used, continued(seq![item], n, rest)) == continued(
            done + seq![item],
            used + n,
            rest,
        ),
{
    if let Ok((more, m)) = rest {
        assert(done + (seq![item] + more) =~= (done + seq![item]) + more);
    }
}

proof fn lemma_continued_skip<T>(
    done: Seq<T>,
    used: int,
    n: int,
    rest: Result<(Seq<T>, int), DecompileError>,
)
    ensures
        continued(
            done,
            used,
            match rest {
                Ok((more, l)) => Ok((more, n + l)),
                Err(e) => Err(e),
            },
        ) == continued(done, used + n, rest),
{
}

/// The views of the values read so far.
spec fn views_of_vals(vals: Seq<ConstTableVal>) -> Seq<ConstTableValView> {
    vals.map_values(|v: ConstTableVal| v@)
}

spec fn views_of_pairs(pairs: Seq<(ConstTableVal, ConstTableVal)>) -> Seq<
    (ConstTableValView, ConstTableValView),
> {
    pairs.map_values(|kv: (ConstTableVal, ConstTableVal)| (kv.0@, kv.1@))
}

/// The views of the constants of a global pool.
pub open spec fn views_of_consts(consts: Seq<GlobalConst>) -> Seq<GlobalConstView> {
    consts.map_values(|c: GlobalConst| c@)
}

fn read_table_vals<'a>(data: &mut &'a [u8], count: u32) -> (r: Result<
    Vec<ConstTableVal>,
    DecompileError,
>)
    ensures
        match parse_table_vals(old(data)@, count as nat) {
            Ok((vals, n)) => r is Ok && views_of_vals(r->Ok_0@) == vals
                && 0 <= n <= old(data)@.len() && final(data)@ == old(data)@.skip(n),
            Err(e) => r == Err::<Vec<ConstTableVal>, DecompileError>(e) && *final(data) == *old(data),
        },
{
    let ghost s = data@;
    let mut cur: &[u8] = *data;
    let mut out: Vec<ConstTableVal> = Vec::new();
    let mut i: u32 = 0;
    let ghost mut used: int = 0;
    proof {
        assert(s.skip(0) =~= s);
        assert(views_of_vals(out@) =~= Seq::empty());
        assert(Seq::<ConstTableValView>::empty() + parse_table_vals(s, count as nat)->Ok_0.0
            =~= parse_table_vals(s, count as nat)->Ok_0.0);
    }
    while i < count
        invariant
            i <= count,
            *data == *old(data),
            s == old(data)@,
            0 <= used <= s.len(),
            cur@ == s.skip(used),
            parse_table_vals(s, count as nat) == continued(
                views_of_vals(out@),
                used,
                parse_table_vals(cur@, (count - i) as nat),
            ),
        decreases count - i,
    {
        let ghost before = cur@;
        let ghost done = views_of_vals(out@);
        let val = read_prototype_const_table_val(&mut cur)?;
        out.push(val);
        i += 1;
        proof {
            let n = parse_table_val(before)->Ok_0.1;
            lemma_skip_skip(s, used, used + n);
            used = used + n;
            assert(views_of_vals(out@) =~= done + seq![val@]);
            if let Ok((rest, m)) = parse_table_vals(cur@, (count - i) as nat) {
                assert((done + seq![val@]) + rest =~= done + (seq![val@] + rest));
            }
        }
    }
    proof {
        assert(views_of_vals(out@) + Seq::<ConstTableValView>::empty() =~= views_of_vals(out@));
    }
    *data = cur;
    Ok(out)
}

fn read_table_pairs<'a>(data: &mut &'a [u8], count: u32) -> (r: Result<
    Vec<(ConstTableVal, ConstTableVal)>,
    DecompileError,
>)
    ensures
        match parse_table_pairs(old(data)@, count as nat) {
            Ok((pairs, n)) => r is Ok && views_of_pairs(r->Ok_0@) == pairs
                && 0 <= n <= old(data)@.len() && final(data)@ == old(data)@.skip(n),
            Err(e) => r == Err::<Vec<(ConstTableVal, ConstTableVal)>, DecompileError>(e)
                && *final(data) == *old(data),
        },
{
    let ghost s = data@;
    let mut cur: &[u8] = *data;
    let mut out: Vec<(ConstTableVal, ConstTableVal)> = Vec::new();
    let mut i: u32 = 0;
    let ghost mut used: int = 0;
    proof {
        assert(s.skip(0) =~= s);
        assert(views_of_pairs(out@) =~= Seq::empty());
        assert(Seq::<(ConstTableValView, ConstTableValView)>::empty() + parse_table_pairs(
            s,
            count as nat,
        )->Ok_0.0 =~= parse_table_pairs(s, count as nat)->Ok_0.0);
    }
    while i < count
        invariant
            i <= count,
            *data == *old(data),
            s == old(data)@,
            0 <= used <= s.len(),
            cur@ == s.skip(used),
            parse_table_pairs(s, count as nat) == continued(
                views_of_pairs(out@),
                used,
                parse_table_pairs(cur@, (count - i) as nat),
            ),
        decreases count - i,
    {
        let ghost before = cur@;
        let ghost done = views_of_pairs(out@);
        let key = read_prototype_const_table_val(&mut cur)?;
        let ghost middle = cur@;
        let val = read_prototype_const_table_val(&mut cur)?;
        let ghost pair = (key@, val@);
        out.push((key, val));
        i += 1;
        proof {
            let n = parse_table_val(before)->Ok_0.1;
            let m = parse_table_val(middle)->Ok_0.1;
            lemma_skip_skip(s, used, used + n);
            lemma_skip_skip(s, used + n, used + n + m);
            lemma_skip_skip(before, n, n + m);
            used = used + n + m;
            assert(views_of_pairs(out@) =~= done + seq![pair]);
            if let Ok((rest, l)) = parse_table_pairs(cur@, (count - i) as nat) {
                assert((done + seq![pair]) + rest =~= done + (seq![pair] + rest));
            }
        }
    }
    proof {
        assert(views_of_pairs(out@) + Seq::<(ConstTableValView, ConstTableValView)>::empty()
            =~= views_of_pairs(out@));
    }
    *data = cur;
    Ok(out)
}

/// Reads a constant table.
fn read_const_table<'a>(data: &mut &'a [u8]) -> (r: Result<ConstTable, DecompileError>)
    ensures
        match parse_const_table(old(data)@) {
            Ok((table, n)) => r is Ok && r->Ok_0@ == table && 0 < n <= old(data)@.len()
                && final(data)@ == old(data)@.skip(n),
            Err(e) => r == Err::<ConstTable, DecompileError>(e) && *final(data) == *old(data),
        },
{
    let ghost s = data@;
    let mut cur: &[u8] = *data;
    let (n_array, n_hash) = read_pair(&mut cur)?;
    let ghost n = parse_pair(s)->Ok_0.1;
    let ghost after_sizes = cur@;
    let array = read_table_vals(&mut cur, n_array)?;
    let ghost m = parse_table_vals(after_sizes, n_array as nat)->Ok_0.1;
    proof {
        lemma_skip_skip(s, n, n + m);
    }
    let hash = read_table_pairs(&mut cur, n_hash)?;
    proof {
        lemma_skip_skip(s, n + m, parse_const_table(s)->Ok_0.1);
    }
    *data = cur;
    Ok(ConstTable { array, hash })
}

/// A prototype: one function of the dump.
#[derive(Debug)]
pub struct ByteCodeProto {
    flags: u8,
    num_params: u8,
    frame_size: u8,
    size_up_values: u8,
    size_global_consts: u32,
    size_num_consts: u32,
    size_bc: u32,
    flow_graph: Graph<Block, BranchKind>,
    bc_raw: Vec<u32>,
    up_values: Vec<u16>,
    global_consts: Vec<GlobalConst>,
    num_consts: Vec<NumConst>,
}

/// What a prototype holds, apart from its control-flow graph.
pub ghost struct ProtoView {
    pub flags: u8,
    pub num_params: u8,
    pub frame_size: u8,
    pub size_up_values: u8,
    pub size_global_consts: u32,
    pub size_num_consts: u32,
    pub size_bc: u32,
    pub bc_raw: Seq<u32>,
    pub up_values: Seq<u16>,
    pub global_consts: Seq<GlobalConstView>,
    pub num_consts: Seq<NumConst>,
}

impl View for ByteCodeProto {
    type V = ProtoView;

    closed spec fn view(&self) -> ProtoView {
        ProtoView {
            flags: self.flags,
            num_params: self.num_params,
            frame_size: self.frame_size,
            size_up_values: self.size_up_values,
            size_global_consts: self.size_global_consts,
            size_num_consts: self.size_num_consts,
            size_bc: self.size_bc,
            bc_raw: self.bc_raw@,
            up_values: self.up_values@,
            global_consts: views_of_consts(self.global_consts@),
            num_consts: self.num_consts@,
        }
    }
}

impl ByteCodeProto {
    /// The control-flow graph, as a mathematical value.
    pub closed spec fn cfg(&self) -> crate::graph::GraphView<Block, BranchKind> {
        self.flow_graph@
    }

    /// The control-flow graph is well formed and partitions the instructions
    /// of the prototype.
    pub closed spec fn wf(&self) -> bool {
        &&& self.flow_graph.wf()
        &&& cfg_wf(cfg_of(self.flow_graph@), self.bc_raw@)
        &&& self.bc_raw@.len() <= MAX_INSTRUCTIONS
    }

    /// The keys of the basic blocks in increasing order.
    pub closed spec fn block_keys(&self) -> Seq<u32> {
        self.flow_graph.key_seq()
    }

    /// What a well-formed prototype guarantees.
    pub proof fn lemma_wf(&self)
        requires
            self.wf(),
        ensures
            cfg_wf(cfg_of(self.cfg()), self@.bc_raw),
            self@.bc_raw.len() <= MAX_INSTRUCTIONS,
            crate::graph::graph_impl::lists_in_order(self.block_keys(), self.cfg().nodes.dom()),
    {
        self.flow_graph.lemma_wf();
    }

    pub fn new() -> (p: Self)
        ensures
            p.wf(),
            p@ == (ProtoView {
                flags: 0,
                num_params: 0,
                frame_size: 0,
                size_up_values: 0,
                size_global_consts: 0,
                size_num_consts: 0,
                size_bc: 0,
                bc_raw: Seq::empty(),
                up_values: Seq::empty(),
                global_consts: Seq::empty(),
                num_consts: Seq::empty(),
            }),
            p.cfg().nodes == Map::<u32, Block>::empty(),
            p.cfg().edges == Seq::<crate::graph::EdgeView<BranchKind>>::empty(),
    {
        let p = ByteCodeProto {
            flags: 0,
            num_params: 0,
            frame_size: 0,
            size_up_values: 0,
            size_global_consts: 0,
            size_num_consts: 0,
            size_bc: 0,
            flow_graph: Graph::new(),
            bc_raw: vec![],
            up_values: vec![],
            global_consts: vec![],
            num_consts: vec![],
        };
        proof {
            assert(views_of_consts(p.global_consts@) =~= Seq::empty());
            assert(p.bc_raw@ =~= Seq::empty());
            assert(p.up_values@ =~= Seq::empty());
            assert(p.num_consts@ =~= Seq::empty());
        }
        p
    }

    pub fn flags(&self) -> (r: u8)
        ensures
            r == self@.flags,
    {
        self.flags
    }

    pub fn num_params(&self) -> (r: u8)
        ensures
            r == self@.num_params,
    {
        self.num_params
    }

    pub fn frame_size(&self) -> (r: u8)
        ensures
            r == self@.frame_size,
    {
        self.frame_size
    }

    /// The instructions.
    pub fn bc_raw(&self) -> (r: &Vec<u32>)
        ensures
            r@ == self@.bc_raw,
    {
        &self.bc_raw
    }

    /// The upvalue descriptors.
    pub fn up_values(&self) -> (r: &Vec<u16>)
        ensures
            r@ == self@.up_values,
    {
        &self.up_values
    }

    /// The pool of constants that are no plain numbers.
    pub fn global_consts(&self) -> (r: &Vec<GlobalConst>)
        ensures
            views_of_consts(r@) == self@.global_consts,
    {
        &self.global_consts
    }

    /// The pool of numbers.
    pub fn num_consts(&self) -> (r: &Vec<NumConst>)
        ensures
            r@ == self@.num_consts,
    {
        &self.num_consts
    }

    /// The control-flow graph of the instructions.
    pub fn basic_block_graph_ref(&self) -> (r: &Graph<Block, BranchKind>)
        ensures
            r@ == self.cfg(),
            r.key_seq() == self.block_keys(),
            self.wf() ==> r.wf(),
    {
        &self.flow_graph
    }
}

/// `count` numbers of two bytes each, lowest byte first.
pub open spec fn le_u16s(s: Seq<u8>, count: int) -> Seq<u16> {
    Seq::new(count as nat, |i: int| le_u16(s, 2 * i))
}

/// `count` numbers of four bytes each, lowest byte first.
pub open spec fn le_u32s(s: Seq<u8>, count: int) -> Seq<u32> {
    Seq::new(count as nat, |i: int| le_u32(s, 4 * i))
}

/// `byteorder::LittleEndian::read_u16_into` on a fresh vector of `count`
/// numbers: number `i` is made of bytes `2 i` and `2 i + 1` of `src`, the
/// first of them the lower one. The call panics unless `src` holds exactly two
/// bytes for every number, which is required here.
#[verifier::external_body]
fn le_halfwords(src: &[u8], count: usize) -> (out: Vec<u16>)
    requires
        src@.len() == 2 * count,
    ensures
        out@ == le_u16s(src@, count as int),
{
    let mut out = vec![0u16; count];
    LittleEndian::read_u16_into(src, &mut out);
    out
}

/// `byteorder::LittleEndian::read_u32_into` on a fresh vector of `count`
/// numbers: number `i` is made of bytes `4 i` to `4 i + 3` of `src`, the
/// first of them the lowest. The call panics unless `src` holds exactly four
/// bytes for every number, which is required here.
#[verifier::external_body]
fn le_words(src: &[u8], count: usize) -> (out: Vec<u32>)
    requires
        src@.len() == 4 * count,
    ensures
        out@ == le_u32s(src@, count as int),
{
    let mut out = vec![0u32; count];
    LittleEndian::read_u32_into(src, &mut out);
    out
}

/// The upvalue descriptors of a prototype: two bytes each.
pub open spec fn parse_up_values(s: Seq<u8>, count: int) -> Result<(Seq<u16>, int), DecompileError> {
    match parse_bytes(s, 2 * count) {
        Err(e) => Err(e),
        Ok((bytes, n)) => Ok((le_u16s(bytes, count), n)),
    }
}

/// The instructions of a prototype: four bytes each, and no more of them
/// than the analysis of control flow takes.
pub open spec fn parse_bytecode(s: Seq<u8>, count: int) -> Result<(Seq<u32>, int), DecompileError> {
    if count > MAX_INSTRUCTIONS {
        Err(DecompileError::IO)
    } else {
        match parse_bytes(s, 4 * count) {
            Err(e) => Err(e),
            Ok((bytes, n)) => Ok((le_u32s(bytes, count), n)),
        }
    }
}

/// Reads the upvalue descriptors of a prototype, as many as its header
/// announced. A prototype that announced none keeps what it has.
pub fn read_prototype_up_values<'a>(data: &mut &'a [u8], bc_proto: &mut ByteCodeProto) -> (r: Result<
    (),
    DecompileError,
>)
    ensures
        match parse_up_values(old(data)@, old(bc_proto)@.size_up_values as int) {
            Ok((values, n)) => r is Ok && 0 <= n <= old(data)@.len() && final(data)@ == old(data)@.skip(
                n,
            ) && final(bc_proto)@
                == (ProtoView {
                up_values: if old(bc_proto)@.size_up_values > 0 {
                    values
                } else {
                    old(bc_proto)@.up_values
                },
                ..old(bc_proto)@
            }) && final(bc_proto).cfg() == old(bc_proto).cfg()
                && (old(bc_proto).wf() ==> final(bc_proto).wf()),
            Err(e) => r == Err::<(), DecompileError>(e) && *final(data) == *old(data)
                && *final(bc_proto) == *old(bc_proto),
        },
{
    if bc_proto.size_up_values > 0 {
        let count = bc_proto.size_up_values as usize;
        let bytes = take(data, 2 * count)?;
        bc_proto.up_values = le_halfwords(bytes, count);
    } else {
        proof {
            assert(data@.skip(0) =~= data@);
        }
    }
    Ok(())
}

/// Reads the instructions of a prototype, as many as its header announced,
/// and builds the control-flow graph of the instructions that the prototype
/// then holds. A prototype that announced no instruction keeps what it has.
#[verifier::rlimit(50)]
pub fn read_prototype_bytecode<'a>(data: &mut &'a [u8], bc_proto: &mut ByteCodeProto) -> (r: Result<
    (),
    DecompileError,
>)
    requires
        old(bc_proto).wf(),
    ensures
        final(bc_proto).wf(),
        match parse_bytecode(old(data)@, old(bc_proto)@.size_bc as int) {
            Ok((code, n)) => {
                let held = if old(bc_proto)@.size_bc > 0 {
                    code
                } else {
                    old(bc_proto)@.bc_raw
                };
                match resolve(held) {
                    Ok(graph) => r is Ok && 0 <= n <= old(data)@.len()
                        && final(data)@ == old(data)@.skip(n) && final(bc_proto)@
                        == (ProtoView { bc_raw: held, ..old(bc_proto)@ }) && cfg_of(
                        final(bc_proto).cfg(),
                    ) == graph && final(bc_proto).cfg().nodes.dom().contains(0),
                    Err(e) => r == Err::<(), DecompileError>(e) && *final(data) == *old(data)
                        && *final(bc_proto) == *old(bc_proto),
                }
            },
            Err(e) => r == Err::<(), DecompileError>(e) && *final(data) == *old(data)
                && *final(bc_proto) == *old(bc_proto),
        },
{
    let mut cur: &[u8] = *data;
    if bc_proto.size_bc > 0 {
        let count = bc_proto.size_bc as usize;
        if count > MAX_INSTRUCTIONS {
            return Err(DecompileError::IO);
        }
        let bytes = take(&mut cur, 4 * count)?;
        let code = le_words(bytes, count);
        match resolve_basic_blocks(code.as_slice()) {
            Ok(graph) => {
                bc_proto.bc_raw = code;
                bc_proto.flow_graph = graph;
            },
            Err(e) => {
                return Err(e);
            },
        }
    } else {
        proof {
            assert(data@.skip(0) =~= data@);
        }
        match resolve_basic_blocks(bc_proto.bc_raw.as_slice()) {
            Ok(graph) => {
                bc_proto.flow_graph = graph;
            },
            Err(e) => {
                return Err(e);
            },
        }
    }
    *data = cur;
    Ok(())
}

/// Reads a constant table and adds it to the global pool of a prototype.
pub fn read_prototype_const_table<'a>(data: &mut &'a [u8], bc_proto: &mut ByteCodeProto) -> (r: Result<
    (),
    DecompileError,
>)
    ensures
        match parse_const_table(old(data)@) {
            Ok((table, n)) => r is Ok && final(data)@ == old(data)@.skip(n) && final(bc_proto)@
                == (ProtoView {
                global_consts: old(bc_proto)@.global_consts.push(GlobalConstView::Table(table)),
                ..old(bc_proto)@
            }) && final(bc_proto).cfg() == old(bc_proto).cfg()
                && (old(bc_proto).wf() ==> final(bc_proto).wf()),
            Err(e) => r == Err::<(), DecompileError>(e) && *final(data) == *old(data)
                && *final(bc_proto) == *old(bc_proto),
        },
{
    let ktab = read_const_table(data)?;
    let ghost before = bc_proto.global_consts@;
    bc_proto.global_consts.push(GlobalConst::Table(ktab));
    proof {
        assert(views_of_consts(bc_proto.global_consts@) =~= views_of_consts(before).push(
            GlobalConstView::Table(ktab@),
        ));
    }
    Ok(())
}

/// Reads one constant of the global pool. `back` is the number of child
/// prototypes that the pool has named so far.
#[verifier::rlimit(50)]
fn read_global_const<'a>(data: &mut &'a [u8], back: u32) -> (r: Result<GlobalConst, DecompileError>)
    ensures
        match parse_global_const(old(data)@, back as nat) {
            Ok((c, n)) => r is Ok && r->Ok_0@ == c && 0 < n <= old(data)@.len() && final(data)@
                == old(data)@.skip(n),
            Err(e) => r == Err::<GlobalConst, DecompileError>(e) && *final(data) == *old(data),
        },
{
    let ghost s = data@;
    let mut cur: &[u8] = *data;
    let tp = read_uleb128(&mut cur)?;
    let ghost n = parse_uleb128(s)->Ok_0.1;
    let ghost after_tag = cur@;
    let val = if tp == GC_TYPE_PROTO_CHILD {
        GlobalConst::ProtoChild(back)
    } else if tp == GC_TYPE_TABLE {
        GlobalConst::Table(read_const_table(&mut cur)?)
    } else if tp == GC_TYPE_I64 {
        let (lo, hi) = read_pair(&mut cur)?;
        GlobalConst::I64(lo, hi)
    } else if tp == GC_TYPE_U64 {
        let (lo, hi) = read_pair(&mut cur)?;
        GlobalConst::U64(lo, hi)
    } else if tp == GC_TYPE_COMPLEX {
        let (a, b) = read_pair(&mut cur)?;
        let ghost m = parse_pair(after_tag)->Ok_0.1;
        proof {
            lemma_skip_skip(s, n, n + m);
        }
        let (c, d) = read_pair(&mut cur)?;
        proof {
            lemma_skip_skip(after_tag, m, m + parse_pair(after_tag.skip(m))->Ok_0.1);
        }
        GlobalConst::Complex(a, b, c, d)
    } else {
        let len = tp - GC_TYPE_STR;
        let bytes = take(&mut cur, len as usize)?;
        GlobalConst::Str(slice_to_vec(bytes))
    };
    proof {
        lemma_skip_skip(s, n, parse_global_const(s, back as nat)->Ok_0.1);
    }
    *data = cur;
    Ok(val)
}

/// Reads the global pool of a prototype, as many constants as its header
/// announced, and adds them to those that the prototype holds. The child
/// prototypes that the pool names are numbered in the order of the pool,
/// from 0.
#[verifier::rlimit(50)]
pub fn read_prototype_global_constants<'a>(
    data: &mut &'a [u8],
    bc_proto: &mut ByteCodeProto,
) -> (r: Result<(), DecompileError>)
    ensures
        match parse_global_consts(old(data)@, old(bc_proto)@.size_global_consts as nat, 0) {
            Ok((consts, n)) => r is Ok && 0 <= n <= old(data)@.len() && final(data)@ == old(data)@.skip(
                n,
            ) && final(bc_proto)@
                == (ProtoView {
                global_consts: old(bc_proto)@.global_consts + consts,
                ..old(bc_proto)@
            }) && final(bc_proto).cfg() == old(bc_proto).cfg()
                && (old(bc_proto).wf() ==> final(bc_proto).wf()),
            Err(e) => r == Err::<(), DecompileError>(e) && *final(data) == *old(data)
                && *final(bc_proto) == *old(bc_proto),
        },
{
    let ghost s = data@;
    let count = bc_proto.size_global_consts;
    let mut cur: &[u8] = *data;
    let mut out: Vec<GlobalConst> = Vec::new();
    let mut i: u32 = 0;
    let mut back: u32 = 0;
    let ghost mut used: int = 0;
    proof {
        assert(s.skip(0) =~= s);
        assert(views_of_consts(out@) =~= Seq::empty());
        assert(Seq::<GlobalConstView>::empty() + parse_global_consts(s, count as nat, 0)->Ok_0.0
            =~= parse_global_consts(s, count as nat, 0)->Ok_0.0);
    }
    while i < count
        invariant
            i <= count,
            back <= i,
            count == old(bc_proto)@.size_global_consts,
            *data == *old(data),
            *bc_proto == *old(bc_proto),
            s == old(data)@,
            0 <= used <= s.len(),
            cur@ == s.skip(used),
            parse_global_consts(s, count as nat, 0) == continued(
                views_of_consts(out@),
                used,
                parse_global_consts(cur@, (count - i) as nat, back as nat),
            ),
        decreases count - i,
    {
        let ghost before = cur@;
        let ghost done = views_of_consts(out@);
        let ghost back0 = back as nat;
        let ghost left = (count - i) as nat;
        let val = read_global_const(&mut cur, back)?;
        let ghost view = val@;
        let ghost n = parse_global_const(before, back0)->Ok_0.1;
        if let GlobalConst::ProtoChild(_) = val {
            back += 1;
        }
        out.push(val);
        i += 1;
        proof {
            lemma_skip_skip(s, used, used + n);
            assert(views_of_consts(out@) =~= done + seq![view]);
            lemma_continued_push(
                done,
                used,
                view,
                n,
                parse_global_consts(cur@, (left - 1) as nat, back as nat),
            );
            used = used + n;
        }
    }
    let ghost held = bc_proto.global_consts@;
    let ghost added = out@;
    bc_proto.global_consts.append(&mut out);
    proof {
        assert(views_of_consts(added) + Seq::<GlobalConstView>::empty() =~= views_of_consts(added));
        assert(views_of_consts(bc_proto.global_consts@) =~= views_of_consts(held) + views_of_consts(
            added,
        ));
    }
    *data = cur;
    Ok(())
}

/// Reads one constant of the pool of numbers.
fn read_num_const<'a>(data: &mut &'a [u8]) -> (r: Result<NumConst, DecompileError>)
    ensures
        match parse_num_const(old(data)@) {
            Ok((c, n)) => r == Ok::<NumConst, DecompileError>(c) && 0 < n <= old(data)@.len()
                && final(data)@ == old(data)@.skip(n),
            Err(e) => r == Err::<NumConst, DecompileError>(e) && *final(data) == *old(data),
        },
{
    let ghost s = data@;
    let mut cur: &[u8] = *data;
    let (lo, first) = read_uleb128_33(&mut cur)?;
    assert(first & 1 == first % 2) by (bit_vector);
    let val = if first & 1 == 1 {
        let hi = read_uleb128(&mut cur)?;
        NumConst::Num(lo, hi)
    } else {
        NumConst::Int(lo)
    };
    proof {
        lemma_skip_skip(s, parse_uleb128_33(s)->Ok_0.2, parse_num_const(s)->Ok_0.1);
    }
    *data = cur;
    Ok(val)
}

/// Reads the pool of numbers of a prototype, as many constants as its header
/// announced, and adds them to those that the prototype holds.
pub fn read_prototype_num_constants<'a>(data: &mut &'a [u8], bc_proto: &mut ByteCodeProto) -> (r:
    Result<(), DecompileError>)
    ensures
        match parse_num_consts(old(data)@, old(bc_proto)@.size_num_consts as nat) {
            Ok((consts, n)) => r is Ok && 0 <= n <= old(data)@.len() && final(data)@ == old(data)@.skip(
                n,
            ) && final(bc_proto)@
                == (ProtoView {
                num_consts: old(bc_proto)@.num_consts + consts,
                ..old(bc_proto)@
            }) && final(bc_proto).cfg() == old(bc_proto).cfg()
                && (old(bc_proto).wf() ==> final(bc_proto).wf()),
            Err(e) => r == Err::<(), DecompileError>(e) && *final(data) == *old(data)
                && *final(bc_proto) == *old(bc_proto),
        },
{
    let ghost s = data@;
    let count = bc_proto.size_num_consts;
    let mut cur: &[u8] = *data;
    let mut out: Vec<NumConst> = Vec::new();
    let mut i: u32 = 0;
    let ghost mut used: int = 0;
    proof {
        assert(s.skip(0) =~= s);
        assert(Seq::<NumConst>::empty() + parse_num_consts(s, count as nat)->Ok_0.0
            =~= parse_num_consts(s, count as nat)->Ok_0.0);
    }
    while i < count
        invariant
            i <= count,
            count == old(bc_proto)@.size_num_consts,
            *data == *old(data),
            *bc_proto == *old(bc_proto),
            s == old(data)@,
            0 <= used <= s.len(),
            cur@ == s.skip(used),
            parse_num_consts(s, count as nat) == continued(
                out@,
                used,
                parse_num_consts(cur@, (count - i) as nat),
            ),
        decreases count - i,
    {
        let ghost before = cur@;
        let ghost done = out@;
        let val = read_num_const(&mut cur)?;
        out.push(val);
        i += 1;
        proof {
            let n = parse_num_const(before)->Ok_0.1;
            lemma_skip_skip(s, used, used + n);
            used = used + n;
            assert(out@ =~= done + seq![val]);
            if let Ok((rest, m)) = parse_num_consts(cur@, (count - i) as nat) {
                assert((done + seq![val]) + rest =~= done + (seq![val] + rest));
            }
        }
    }
    let ghost added = out@;
    bc_proto.num_consts.append(&mut out);
    proof {
        assert(added + Seq::<NumConst>::empty() =~= added);
    }
    *data = cur;
    Ok(())
}

/// A one-byte constant with an even byte is the integer in its upper seven
/// bits.
pub proof fn lemma_num_const_single_byte_int(first: u8, rest: Seq<u8>)
    requires
        first < 0x80,
        first % 2 == 0,
    ensures
        parse_num_const(seq![first] + rest) == Ok::<(NumConst, int), DecompileError>(
            (NumConst::Int((first / 2) as u32), 1),
        ),
{
    lemma_uleb128_33_single_byte(first, rest);
}

/// A constant whose first byte is odd and below `0x80` is a floating-point
/// number: its lower half is in that byte's upper seven bits, and its upper
/// half is the variable-length integer that follows. Without that integer
/// there is no constant.
pub proof fn lemma_num_const_single_byte_num(first: u8, rest: Seq<u8>)
    requires
        first < 0x80,
        first % 2 == 1,
    ensures
        parse_num_const(seq![first] + rest) == match parse_uleb128(rest) {
            Ok((hi, n)) => Ok::<(NumConst, int), DecompileError>(
                (NumConst::Num((first / 2) as u32, hi), 1 + n),
            ),
            Err(e) => Err::<(NumConst, int), DecompileError>(e),
        },
{
    lemma_uleb128_33_single_byte(first, rest);
    assert((seq![first] + rest).skip(1) =~= rest);
}

/// The fixed part of a prototype: four bytes of header and three sizes.
pub open spec fn parse_proto_head(s: Seq<u8>) -> Result<(ProtoView, int), DecompileError> {
    match parse_bytes(s, 4) {
        Err(e) => Err(e),
        Ok((head, _)) => match parse_uleb128(s.skip(4)) {
            Err(e) => Err(e),
            Ok((size_global_consts, a)) => match parse_pair(s.skip(4 + a)) {
                Err(e) => Err(e),
                Ok(((size_num_consts, size_bc), b)) => Ok(
                    (
                        ProtoView {
                            flags: head[0],
                            num_params: head[1],
                            frame_size: head[2],
                            size_up_values: head[3],
                            size_global_consts,
                            size_num_consts,
                            size_bc,
                            bc_raw: Seq::empty(),
                            up_values: Seq::empty(),
                            global_consts: Seq::empty(),
                            num_consts: Seq::empty(),
                        },
                        4 + a + b,
                    ),
                ),
            },
        },
    }
}

/// A prototype up to and with its instructions.
pub open spec fn parse_proto_code(s: Seq<u8>) -> Result<(ProtoView, int), DecompileError> {
    match parse_proto_head(s) {
        Err(e) => Err(e),
        Ok((head, n)) => match parse_bytecode(s.skip(n), head.size_bc as int) {
            Err(e) => Err(e),
            Ok((code, m)) => Ok((ProtoView { bc_raw: code, ..head }, n + m)),
        },
    }
}

/// A whole prototype: the fixed part, the instructions, the upvalue
/// descriptors, the global pool and the pool of numbers. What follows them
/// in a record is not looked at.
pub open spec fn parse_prototype(s: Seq<u8>) -> Result<(ProtoView, int), DecompileError> {
    match parse_proto_code(s) {
        Err(e) => Err(e),
        Ok((code, n)) => match parse_up_values(s.skip(n), code.size_up_values as int) {
            Err(e) => Err(e),
            Ok((up_values, a)) => match parse_global_consts(
                s.skip(n + a),
                code.size_global_consts as nat,
                0,
            ) {
                Err(e) => Err(e),
                Ok((global_consts, b)) => match parse_num_consts(
                    s.skip(n + a + b),
                    code.size_num_consts as nat,
                ) {
                    Err(e) => Err(e),
                    Ok((num_consts, c)) => Ok(
                        (
                            ProtoView { up_values, global_consts, num_consts, ..code },
                            n + a + b + c,
                        ),
                    ),
                },
            },
        }
    }
}

/// A prototype with its control-flow graph: the prototype up to its
/// instructions, the graph of the instructions, and the rest of the
/// prototype, in this order.
pub open spec fn load_prototype(s: Seq<u8>) -> Result<(ProtoView, Cfg, int), DecompileError> {
    match parse_proto_code(s) {
        Err(e) => Err(e),
        Ok((code, _)) => match resolve(code.bc_raw) {
            Err(e) => Err(e),
            Ok(graph) => match parse_prototype(s) {
                Err(e) => Err(e),
                Ok((proto, n)) => Ok((proto, graph, n)),
            },
        },
    }
}

proof fn lemma_code_length(s: Seq<u8>)
    ensures
        parse_proto_code(s) matches Ok((code, _)) ==> code.bc_raw.len() == code.size_bc,
        parse_prototype(s) matches Ok((proto, _)) ==> parse_proto_code(s) is Ok && proto.bc_raw
            == parse_proto_code(s)->Ok_0.0.bc_raw && proto.size_bc == parse_proto_code(
            s,
        )->Ok_0.0.size_bc,
{
}

/// The blocks of a loaded prototype hold, taken together, no more
/// instructions than its header announced, and every block begins at
/// position 0, at the target of a branch, or right behind a branch.
pub proof fn lemma_loaded_blocks_fit(s: Seq<u8>, proto: ByteCodeProto)
    requires
        load_prototype(s) is Ok,
        proto@ == load_prototype(s)->Ok_0.0,
        proto.wf(),
    ensures
        proto@.bc_raw.len() == proto@.size_bc,
        crate::resolver::total_span(
            cfg_of(proto.cfg()),
            proto.block_keys(),
            proto.block_keys().len() as int,
        ) <= proto@.size_bc,
        forall|k: u32| #[trigger]
            cfg_of(proto.cfg()).blocks.dom().contains(k) ==> crate::resolver::is_entry(
                proto@.bc_raw,
                k as int,
            ),
{
    lemma_code_length(s);
    proto.lemma_wf();
    assert(cfg_of(proto.cfg()).blocks.dom() =~= proto.cfg().nodes.dom());
    crate::resolver::lemma_blocks_fit(cfg_of(proto.cfg()), proto@.bc_raw, proto.block_keys());
}

/// Reads a prototype up to and with its instructions, and builds the
/// control-flow graph of the instructions.
#[verifier::rlimit(50)]
fn read_proto_code<'a>(data: &mut &'a [u8]) -> (r: Result<ByteCodeProto, DecompileError>)
    ensures
        match parse_proto_code(old(data)@) {
            Ok((code, n)) => match resolve(code.bc_raw) {
                Ok(graph) => r is Ok && r->Ok_0@ == code && cfg_of(r->Ok_0.cfg()) == graph
                    && r->Ok_0.wf() && r->Ok_0.cfg().nodes.dom().contains(0)
                        && 0 < n <= old(data)@.len() && final(data)@ == old(data)@.skip(n),
                Err(e) => r == Err::<ByteCodeProto, DecompileError>(e) && *final(data) == *old(data),
            },
            Err(e) => r == Err::<ByteCodeProto, DecompileError>(e) && *final(data) == *old(data),
        },
{
    let ghost s = data@;
    let mut cur: &[u8] = *data;
    let head = take(&mut cur, 4)?;
    let mut proto = ByteCodeProto::new();
    proto.flags = head[0];
    proto.num_params = head[1];
    proto.frame_size = head[2];
    proto.size_up_values = head[3];
    proto.size_global_consts = read_uleb128(&mut cur)?;
    let ghost a = parse_uleb128(s.skip(4))->Ok_0.1;
    proof {
        lemma_skip_skip(s, 4, 4 + a);
    }
    let (size_num_consts, size_bc) = read_pair(&mut cur)?;
    proto.size_num_consts = size_num_consts;
    proto.size_bc = size_bc;
    let ghost n0 = parse_proto_head(s)->Ok_0.1;
    proof {
        lemma_skip_skip(s, 4 + a, n0);
        assert(s.take(4)[0] == s[0]);
        assert(proto@ == parse_proto_head(s)->Ok_0.0);
        if size_bc == 0 {
            assert(le_u32s(s.skip(n0).take(0), 0) =~= Seq::<u32>::empty());
            assert(proto@.bc_raw =~= Seq::<u32>::empty());
        }
    }
    read_prototype_bytecode(&mut cur, &mut proto)?;
    proof {
        lemma_skip_skip(s, n0, parse_proto_code(s)->Ok_0.1);
        assert(proto@.bc_raw == parse_proto_code(s)->Ok_0.0.bc_raw);
    }
    *data = cur;
    Ok(proto)
}

/// Reads a prototype. The prototype that is handed in is replaced as a
/// whole; where the reading fails, it stays as it is.
#[verifier::rlimit(50)]
pub fn read_prototype<'a>(data: &mut &'a [u8], bc_proto: &mut ByteCodeProto) -> (r: Result<
    (),
    DecompileError,
>)
    ensures
        match load_prototype(old(data)@) {
            Ok((proto, graph, n)) => r is Ok && final(bc_proto)@ == proto && cfg_of(
                final(bc_proto).cfg(),
            ) == graph && final(data)@ == old(data)@.skip(n) && final(bc_proto).wf()
                && final(bc_proto).cfg().nodes.dom().contains(0),
            Err(e) => r == Err::<(), DecompileError>(e) && *final(data) == *old(data)
                && *final(bc_proto) == *old(bc_proto),
        },
{
    let ghost s = data@;
    let mut cur: &[u8] = *data;
    let mut proto = read_proto_code(&mut cur)?;
    let ghost code = proto@;
    let ghost n1 = parse_proto_code(s)->Ok_0.1;
    read_prototype_up_values(&mut cur, &mut proto)?;
    let ghost n2 = n1 + parse_up_values(s.skip(n1), code.size_up_values as int)->Ok_0.1;
    proof {
        lemma_skip_skip(s, n1, n2);
        assert(proto@.up_values =~= parse_up_values(s.skip(n1), code.size_up_values as int)->Ok_0.0);
    }
    read_prototype_global_constants(&mut cur, &mut proto)?;
    let ghost n3 = n2 + parse_global_consts(
        s.skip(n2),
        code.size_global_consts as nat,
        0,
    )->Ok_0.1;
    proof {
        lemma_skip_skip(s, n2, n3);
        assert(proto@.global_consts =~= parse_global_consts(
            s.skip(n2),
            code.size_global_consts as nat,
            0,
        )->Ok_0.0);
    }
    read_prototype_num_constants(&mut cur, &mut proto)?;
    proof {
        lemma_skip_skip(s, n3, parse_prototype(s)->Ok_0.1);
        assert(proto@.num_consts =~= parse_num_consts(
            s.skip(n3),
            code.size_num_consts as nat,
        )->Ok_0.0);
    }
    *bc_proto = proto;
    *data = cur;
    Ok(())
}

proof fn lemma_val_bounds(s: Seq<u8>)
    ensures
        parse_uleb128(s) matches Ok((_, n)) ==> 0 < n <= s.len(),
{
    lemma_groups_bounds(s, 0, 5);
}

/// A loaded dump: its header and its prototypes, in the order of the dump.
/// A prototype comes behind the prototypes that it names as its children.
#[derive(Debug)]
pub struct ByteCodeDump {
    magic: [u8; 3],
    version: u8,
    flags: u32,
    name: Vec<u8>,
    prototypes: Vec<ByteCodeProto>,
}

/// What the header of a dump says.
pub ghost struct HeaderView {
    pub magic: Seq<u8>,
    pub version: u8,
    pub flags: u32,
    pub name: Seq<u8>,
}

/// The flags that a dump may have: none outside the known ones, and neither
/// the one for big-endian data nor the one for foreign-function data.
pub open spec fn flags_accepted(flags: u32) -> bool {
    flags == 0 || flags == BC_F_STRIP || flags == BC_F_FR2 || flags == BC_F_STRIP + BC_F_FR2
}

/// The flag for a dump without debug information is set.
pub open spec fn stripped(flags: u32) -> bool {
    flags == BC_F_STRIP || flags == BC_F_STRIP + BC_F_FR2
}

/// The header of a dump: three magic bytes, the version, the flags, and the
/// name of the chunk where the dump is not stripped.
pub open spec fn parse_header(s: Seq<u8>) -> Result<(HeaderView, int), DecompileError> {
    if s.len() < 4 {
        Err(DecompileError::IO)
    } else if s[0] != BC_HEAD1 || s[1] != BC_HEAD2 || s[2] != BC_HEAD3 {
        Err(DecompileError::InvalidHeaderBytes("Invalid byte code file magic."))
    } else if s[3] != BC_VERSION {
        Err(DecompileError::InvalidHeaderBytes("Invalid byte code version."))
    } else {
        match parse_uleb128(s.skip(4)) {
            Err(e) => Err(e),
            Ok((flags, a)) => if !flags_accepted(flags) {
                Err(DecompileError::InvalidHeaderBytes("Invalid header flags."))
            } else if stripped(flags) {
                Ok(
                    (
                        HeaderView {
                            magic: s.take(3),
                            version: s[3],
                            flags,
                            name: Seq::empty(),
                        },
                        4 + a,
                    ),
                )
            } else {
                match parse_uleb128(s.skip(4 + a)) {
                    Err(e) => Err(e),
                    Ok((len, b)) => match parse_bytes(s.skip(4 + a + b), len as int) {
                        Err(e) => Err(e),
                        Ok((name, c)) => Ok(
                            (
                                HeaderView { magic: s.take(3), version: s[3], flags, name },
                                4 + a + b + c,
                            ),
                        ),
                    },
                }
            },
        }
    }
}

/// A header that is accepted has the magic bytes and the version of the
/// format, and no flag outside the known ones.
pub proof fn lemma_header_fields(s: Seq<u8>)
    ensures
        parse_header(s) matches Ok((header, n)) ==> header.magic == seq![BC_HEAD1, BC_HEAD2, BC_HEAD3]
            && header.version == BC_VERSION && header.flags <= BC_F_KNOWN && header.flags
            & !BC_F_KNOWN == 0 && 4 < n <= s.len(),
{
    if let Ok((header, n)) = parse_header(s) {
        assert(header.magic =~= seq![BC_HEAD1, BC_HEAD2, BC_HEAD3]);
        let flags = header.flags;
        assert(flags <= 0x0f ==> flags & !0x0fu32 == 0) by (bit_vector);
        lemma_val_bounds(s.skip(4));
        let a = parse_uleb128(s.skip(4))->Ok_0.1;
        lemma_val_bounds(s.skip(4 + a));
    }
}

impl ByteCodeDump {
    /// What the header said.
    pub closed spec fn header(&self) -> HeaderView {
        HeaderView {
            magic: self.magic@,
            version: self.version,
            flags: self.flags,
            name: self.name@,
        }
    }

    /// The prototypes, as mathematical values.
    pub closed spec fn protos(&self) -> Seq<ByteCodeProto> {
        self.prototypes@
    }

    /// Every prototype is well formed, and names as its children only
    /// prototypes that stand before it.
    pub open spec fn wf(&self) -> bool {
        forall|p: int|
            0 <= p < self.protos().len() ==> (#[trigger] self.protos()[p]).wf() && children_within(
                self.protos()[p]@.global_consts,
                p,
            )
    }

    pub fn new() -> (d: Self)
        ensures
            d.wf(),
            d.header() == (HeaderView {
                magic: seq![0u8, 0u8, 0u8],
                version: 0,
                flags: 0,
                name: Seq::empty(),
            }),
            d.protos() == Seq::<ByteCodeProto>::empty(),
    {
        let d = ByteCodeDump {
            magic: [0, 0, 0],
            version: 0,
            flags: 0,
            name: vec![],
            prototypes: vec![],
        };
        proof {
            assert(d.magic@ =~= seq![0u8, 0u8, 0u8]);
            assert(d.name@ =~= Seq::empty());
            assert(d.prototypes@ =~= Seq::empty());
        }
        d
    }

    pub fn magic(&self) -> (r: [u8; 3])
        ensures
            r@ == self.header().magic,
    {
        self.magic
    }

    pub fn version(&self) -> (r: u8)
        ensures
            r == self.header().version,
    {
        self.version
    }

    pub fn flags(&self) -> (r: u32)
        ensures
            r == self.header().flags,
    {
        self.flags
    }

    /// The name of the chunk, as its bytes.
    pub fn name(&self) -> (r: &Vec<u8>)
        ensures
            r@ == self.header().name,
    {
        &self.name
    }

    /// The prototypes in the order of the dump.
    pub fn prototypes(&self) -> (r: &Vec<ByteCodeProto>)
        ensures
            r@ == self.protos(),
    {
        &self.prototypes
    }
}

/// Every child that the pool names lies fewer than `before` prototypes
/// back.
pub open spec fn children_within(consts: Seq<GlobalConstView>, before: int) -> bool {
    forall|c: int|
        0 <= c < consts.len() ==> ((#[trigger] consts[c]) matches GlobalConstView::ProtoChild(back)
            ==> back < before)
}

/// Reads the header of a dump into `bc_dump`, and leaves its prototypes as
/// they are.
#[verifier::rlimit(50)]
pub fn read_header<'a>(file: &mut &'a [u8], bc_dump: &mut ByteCodeDump) -> (r: Result<
    (),
    DecompileError,
>)
    ensures
        match parse_header(old(file)@) {
            Ok((header, n)) => r is Ok && final(file)@ == old(file)@.skip(n)
                && final(bc_dump).header() == header
                && final(bc_dump).protos() == old(bc_dump).protos(),
            Err(e) => r == Err::<(), DecompileError>(e) && *final(file) == *old(file)
                && *final(bc_dump) == *old(bc_dump),
        },
{
    let ghost s = file@;
    let mut cur: &[u8] = *file;
    let arr = take(&mut cur, 4)?;
    if arr[0] != BC_HEAD1 || arr[1] != BC_HEAD2 || arr[2] != BC_HEAD3 {
        return Err(DecompileError::InvalidHeaderBytes("Invalid byte code file magic."));
    }
    if arr[3] != BC_VERSION {
        return Err(DecompileError::InvalidHeaderBytes("Invalid byte code version."));
    }
    let flags = read_uleb128(&mut cur)?;
    let ghost a = parse_uleb128(s.skip(4))->Ok_0.1;
    proof {
        lemma_skip_skip(s, 4, 4 + a);
        assert((flags & !BC_F_KNOWN != 0 || flags & BC_F_FFI != 0 || flags & BC_F_BE != 0) == !(
        flags == 0 || flags == 2 || flags == 8 || flags == 10)) by (bit_vector);
        assert((flags & BC_F_STRIP != 0) == (flags & 2 != 0));
        assert((flags == 0 || flags == 2 || flags == 8 || flags == 10) ==> ((flags & 2 != 0) == (
        flags == 2 || flags == 10))) by (bit_vector);
    }
    if flags & !BC_F_KNOWN != 0 || flags & BC_F_FFI != 0 || flags & BC_F_BE != 0 {
        return Err(DecompileError::InvalidHeaderBytes("Invalid header flags."));
    }
    let mut name: Vec<u8> = Vec::new();
    if flags & BC_F_STRIP == 0 {
        let len = read_uleb128(&mut cur)?;
        let ghost b = parse_uleb128(s.skip(4 + a))->Ok_0.1;
        proof {
            lemma_skip_skip(s, 4 + a, 4 + a + b);
        }
        let bytes = take(&mut cur, len as usize)?;
        name = slice_to_vec(bytes);
        proof {
            lemma_skip_skip(s, 4 + a + b, 4 + a + b + len);
        }
    }
    bc_dump.flags = flags;
    bc_dump.magic = [arr[0], arr[1], arr[2]];
    bc_dump.version = arr[3];
    bc_dump.name = name;
    proof {
        assert(bc_dump.magic@ =~= s.take(3));
    }
    *file = cur;
    Ok(())
}

/// The frame of one record of a dump: a length and that many bytes, or a
/// length of zero, which ends the dump.
pub open spec fn parse_frame(s: Seq<u8>) -> Result<(Option<Seq<u8>>, int), DecompileError> {
    match parse_uleb128(s) {
        Err(e) => Err(e),
        Ok((len, n)) => if len == 0 {
            Ok((None, n))
        } else {
            match parse_bytes(s.skip(n), len as int) {
                Err(e) => Err(e),
                Ok((record, m)) => Ok((Some(record), n + m)),
            }
        },
    }
}

/// The prototype in a record that follows `at` prototypes. It names as its
/// children only prototypes before it.
pub open spec fn load_record(record: Seq<u8>, at: int) -> Result<(ProtoView, Cfg), DecompileError> {
    match load_prototype(record) {
        Err(e) => Err(e),
        Ok((proto, graph, _)) => if children_within(proto.global_consts, at) {
            Ok((proto, graph))
        } else {
            Err(DecompileError::IO)
        },
    }
}

/// The prototypes of a dump, which follow `at` others: one from every
/// record, up to the record that ends the dump. A record that holds no
/// prototype ends the loading with its fault, or is passed over, as `skip`
/// says.
pub open spec fn load_records(s: Seq<u8>, at: int, skip: bool) -> Result<
    (Seq<(ProtoView, Cfg)>, int),
    DecompileError,
>
    decreases s.len(),
{
    match parse_frame(s) {
        Err(e) => Err(e),
        Ok((None, n)) => Ok((Seq::empty(), n)),
        Ok((Some(record), n)) => if 0 < n <= s.len() {
            match load_record(record, at) {
                Err(e) => if skip {
                    match load_records(s.skip(n), at, skip) {
                        Err(e) => Err(e),
                        Ok((rest, l)) => Ok((rest, n + l)),
                    }
                } else {
                    Err(e)
                },
                Ok(item) => match load_records(s.skip(n), at + 1, skip) {
                    Err(e) => Err(e),
                    Ok((rest, l)) => Ok((seq![item] + rest, n + l)),
                },
            }
        } else {
            Err(DecompileError::IO)
        },
    }
}

/// A whole dump: the header, then the prototypes.
pub open spec fn load_dump(s: Seq<u8>, skip: bool) -> Result<
    (HeaderView, Seq<(ProtoView, Cfg)>, int),
    DecompileError,
> {
    match parse_header(s) {
        Err(e) => Err(e),
        Ok((header, n)) => match load_records(s.skip(n), 0, skip) {
            Err(e) => Err(e),
            Ok((protos, m)) => Ok((header, protos, n + m)),
        },
    }
}

/// The prototypes are the ones that were loaded.
pub open spec fn protos_are(protos: Seq<ByteCodeProto>, loaded: Seq<(ProtoView, Cfg)>) -> bool {
    protos.len() == loaded.len() && forall|p: int|
        0 <= p < protos.len() ==> (#[trigger] protos[p])@ == loaded[p].0 && cfg_of(protos[p].cfg())
            == loaded[p].1 && protos[p].cfg().nodes.dom().contains(0)
}

/// Tells whether every child that the prototype names lies fewer than
/// `before` prototypes back.
fn children_in_reach(proto: &ByteCodeProto, before: usize) -> (r: bool)
    ensures
        r == children_within(proto@.global_consts, before as int),
{
    let mut c: usize = 0;
    while c < proto.global_consts.len()
        invariant
            c <= proto.global_consts@.len(),
            forall|i: int|
                0 <= i < c ==> ((#[trigger] proto.global_consts@[i]) matches GlobalConst::ProtoChild(
                    back,
                ) ==> back < before),
        decreases proto.global_consts@.len() - c,
    {
        if let GlobalConst::ProtoChild(back) = &proto.global_consts[c] {
            if *back as usize >= before {
                proof {
                    let views = proto@.global_consts;
                    assert(views[c as int] == proto.global_consts@[c as int]@);
                }
                return false;
            }
        }
        c += 1;
    }
    proof {
        let views = proto@.global_consts;
        assert forall|i: int| 0 <= i < views.len() implies ((
        #[trigger] views[i]) matches GlobalConstView::ProtoChild(back) ==> back < before) by {
            assert(views[i] == proto.global_consts@[i]@);
        }
    }
    true
}

/// Reads the frame of one record: the bytes of the record, or `None` at
/// the record that ends the dump.
fn read_frame<'a>(data: &mut &'a [u8]) -> (r: Result<Option<&'a [u8]>, DecompileError>)
    ensures
        match parse_frame(old(data)@) {
            Ok((record, n)) => r is Ok && 0 < n <= old(data)@.len()
                && final(data)@ == old(data)@.skip(n) && match record {
                Some(bytes) => r->Ok_0 is Some && r->Ok_0->Some_0@ == bytes,
                None => r->Ok_0 is None,
            },
            Err(e) => r == Err::<Option<&[u8]>, DecompileError>(e) && *final(data) == *old(data),
        },
{
    let ghost s = data@;
    let mut cur: &[u8] = *data;
    let proto_len = read_uleb128(&mut cur)?;
    let ghost n = parse_uleb128(s)->Ok_0.1;
    if proto_len == 0 {
        *data = cur;
        return Ok(None);
    }
    let bytes = take(&mut cur, proto_len as usize)?;
    proof {
        lemma_skip_skip(s, n, n + proto_len);
    }
    *data = cur;
    Ok(Some(bytes))
}

/// Loads the prototype in a record that follows `at` prototypes.
#[verifier::rlimit(50)]
fn read_record(bytes: &[u8], at: usize) -> (r: Result<ByteCodeProto, DecompileError>)
    ensures
        match load_record(bytes@, at as int) {
            Ok((proto, graph)) => r is Ok && r->Ok_0@ == proto && cfg_of(r->Ok_0.cfg()) == graph
                && r->Ok_0.wf() && r->Ok_0.cfg().nodes.dom().contains(0) && children_within(
                proto.global_consts,
                at as int,
            ),
            Err(e) => r == Err::<ByteCodeProto, DecompileError>(e),
        },
{
    let mut record: &[u8] = bytes;
    let mut proto = ByteCodeProto::new();
    read_prototype(&mut record, &mut proto)?;
    if !children_in_reach(&proto, at) {
        return Err(DecompileError::IO);
    }
    Ok(proto)
}

/// Loads a dump: the header, then one prototype from every record up to the
/// record of length zero. The first record that holds no prototype ends the
/// loading with its fault.
pub fn read_bytecode_dump<'a>(data: &mut &'a [u8]) -> (r: Result<ByteCodeDump, DecompileError>)
    ensures
        match load_dump(old(data)@, false) {
            Ok((header, protos, n)) => r is Ok && r->Ok_0.wf() && r->Ok_0.header() == header
                && protos_are(r->Ok_0.protos(), protos) && final(data)@ == old(data)@.skip(n),
            Err(e) => r == Err::<ByteCodeDump, DecompileError>(e) && *final(data) == *old(data),
        },
{
    read_bytecode_dump_with(data, false)
}

/// Loads a dump as `read_bytecode_dump` does, and, if `skip` is set, passes
/// over every record that holds no prototype. A dump whose header or whose
/// frames are at fault is not loaded either way.
#[verifier::rlimit(50)]
pub fn read_bytecode_dump_with<'a>(data: &mut &'a [u8], skip: bool) -> (r: Result<
    ByteCodeDump,
    DecompileError,
>)
    ensures
        match load_dump(old(data)@, skip) {
            Ok((header, protos, n)) => r is Ok && r->Ok_0.wf() && r->Ok_0.header() == header
                && protos_are(r->Ok_0.protos(), protos) && final(data)@ == old(data)@.skip(n),
            Err(e) => r == Err::<ByteCodeDump, DecompileError>(e) && *final(data) == *old(data),
        },
{
    let ghost s = data@;
    let mut cur: &[u8] = *data;
    let mut bc_dump = ByteCodeDump::new();
    read_header(&mut cur, &mut bc_dump)?;
    let ghost h = parse_header(s)->Ok_0.1;
    let ghost body = s.skip(h);
    let ghost whole = load_records(body, 0, skip);
    let ghost mut loaded: Seq<(ProtoView, Cfg)> = Seq::empty();
    let ghost mut used: int = 0;
    proof {
        lemma_header_fields(s);
        assert(body.skip(0) =~= body);
        assert(Seq::<(ProtoView, Cfg)>::empty() + whole->Ok_0.0 =~= whole->Ok_0.0);
    }
    loop
        invariant_except_break
            0 <= used <= body.len(),
            cur@ == body.skip(used),
            whole == continued(loaded, used, load_records(cur@, loaded.len() as int, skip)),
        invariant
            *data == *old(data),
            s == old(data)@,
            parse_header(s) matches Ok((header, n)) && n == h && bc_dump.header() == header,
            0 <= h <= s.len(),
            body == s.skip(h),
            whole == load_records(body, 0, skip),
            bc_dump.wf(),
            protos_are(bc_dump.protos(), loaded),
        ensures
            whole matches Ok((all, m)) && all == loaded && cur@ == body.skip(m) && 0 <= m
                <= body.len(),
        decreases cur@.len(),
    {
        let ghost before = cur@;
        let ghost at = loaded.len() as int;
        let ghost protos = bc_dump.protos();
        let ghost n = parse_frame(before)->Ok_0.1;
        let bytes = match read_frame(&mut cur)? {
            Some(bytes) => bytes,
            None => {
                proof {
                    lemma_skip_skip(body, used, used + n);
                    assert(loaded + Seq::<(ProtoView, Cfg)>::empty() =~= loaded);
                }
                break ;
            },
        };
        proof {
            lemma_skip_skip(body, used, used + n);
        }
        match read_record(bytes, bc_dump.prototypes.len()) {
            Ok(proto) => {
                let ghost item = (proto@, cfg_of(proto.cfg()));
                bc_dump.prototypes.push(proto);
                proof {
                    let done = loaded;
                    lemma_continued_push(
                        done,
                        used,
                        item,
                        n,
                        load_records(cur@, at + 1, skip),
                    );
                    loaded = loaded + seq![item];
                    assert forall|p: int| 0 <= p < bc_dump.protos().len() implies (
                    #[trigger] bc_dump.protos()[p])@ == loaded[p].0 && cfg_of(
                        bc_dump.protos()[p].cfg(),
                    ) == loaded[p].1 && bc_dump.protos()[p].cfg().nodes.dom().contains(0) by {
                        if p < done.len() {
                            assert(bc_dump.protos()[p] == protos[p]);
                            assert(loaded[p] == done[p]);
                        }
                    }
                    assert forall|p: int| 0 <= p < bc_dump.protos().len() implies (
                    #[trigger] bc_dump.protos()[p]).wf() && children_within(
                        bc_dump.protos()[p]@.global_consts,
                        p,
                    ) by {
                        if p < done.len() {
                            assert(bc_dump.protos()[p] == protos[p]);
                        }
                    }
                }
            },
            Err(e) => {
                if !skip {
                    return Err(e);
                }
                proof {
                    lemma_continued_skip(loaded, used, n, load_records(cur@, at, skip));
                }
            },
        }
        proof {
            used = used + n;
        }
    }
    proof {
        let m = whole->Ok_0.1;
        lemma_skip_skip(s, h, h + m);
    }
    *data = cur;
    Ok(bc_dump)
}

} // verus!
