use vstd::prelude::*;
use vstd::string::StringSliceAdditionalSpecFns;

use crate::diagnostic::{hex, push_bytes, push_hex, push_repeat, push_str, repeat_byte};

verus! {

/// Why bytes could not be decoded.
#[derive(Clone, Copy, Debug, PartialEq, Eq, Structural)]
pub enum DecodeError {
    InsufficientBytes,
    InvalidOpcode { byte: u8 },
}

/// How a decoding error reads: `insufficient bytes`, or `unknown opcode`
/// and the byte in hexadecimal, right-aligned in four columns.
pub open spec fn decode_error_text(e: DecodeError) -> Seq<u8> {
    match e {
        DecodeError::InsufficientBytes => "insufficient bytes".spec_bytes(),
        DecodeError::InvalidOpcode { byte } => "unknown opcode ".spec_bytes() + if hex(byte as nat).len() < 4 {
            repeat_byte(32, (4 - hex(byte as nat).len()) as nat) + hex(byte as nat)
        } else {
            hex(byte as nat)
        },
    }
}

impl DecodeError {
    /// The message of the error.
    pub fn text(&self) -> (r: Vec<u8>)
        ensures
            r@ == decode_error_text(*self),
    {
        let mut out: Vec<u8> = Vec::new();
        match self {
            DecodeError::InsufficientBytes => push_str(&mut out, "insufficient bytes"),
            DecodeError::InvalidOpcode { byte } => {
                push_str(&mut out, "unknown opcode ");
                let mut digits: Vec<u8> = Vec::new();
                push_hex(&mut digits, *byte as usize);
                assert(digits@ =~= hex(*byte as nat));
                if digits.len() < 4 {
                    push_repeat(&mut out, 32, 4 - digits.len());
                }
                push_bytes(&mut out, digits.as_slice());
            },
        }
        proof {
            assert(out@ =~= decode_error_text(*self));
        }
        out
    }
}

/// A value with a byte encoding.
///
/// `decode` reads from `offset` onward and moves `offset` past every byte it
/// read, also when it then fails.
pub trait Codec: Sized {
    /// The bytes that encode `self`.
    spec fn spec_encoding(self) -> Seq<u8>;

    /// The result of decoding at `offset`, and the offset after it.
    spec fn spec_decode(bytes: Seq<u8>, offset: int) -> (Result<Self, DecodeError>, int);

    fn encode(self, bytes: &mut Vec<u8>)
        ensures
            final(bytes)@ == old(bytes)@ + self.spec_encoding(),
    ;

    fn decode(bytes: &[u8], offset: &mut usize) -> (r: Result<Self, DecodeError>)
        ensures
            (r, *final(offset) as int) == Self::spec_decode(bytes@, *old(offset) as int),
    ;
}

/// Decoding one byte at `offset`.
pub open spec fn decode_byte(bytes: Seq<u8>, offset: int) -> (Result<u8, DecodeError>, int) {
    if 0 <= offset < bytes.len() {
        (Ok(bytes[offset]), offset + 1)
    } else {
        (Err(DecodeError::InsufficientBytes), offset)
    }
}

impl Codec for u8 {
    open spec fn spec_encoding(self) -> Seq<u8> {
        seq![self]
    }

    open spec fn spec_decode(bytes: Seq<u8>, offset: int) -> (Result<u8, DecodeError>, int) {
        decode_byte(bytes, offset)
    }

    fn encode(self, bytes: &mut Vec<u8>) {
        bytes.push(self);
    }

    fn decode(bytes: &[u8], offset: &mut usize) -> (r: Result<u8, DecodeError>) {
        if *offset < bytes.len() {
            let result = bytes[*offset];
            *offset += 1;
            Ok(result)
        } else {
            Err(DecodeError::InsufficientBytes)
        }
    }
}

/// The encoding of a value that fits in `n` bytes, least significant first;
/// higher bits are dropped.
pub open spec fn le_bytes(value: int, n: nat) -> Seq<u8>
    decreases n,
{
    if n == 0 {
        seq![]
    } else {
        seq![(value % 256) as u8] + le_bytes(value / 256, (n - 1) as nat)
    }
}

/// The encoding in `n` bytes is `n` bytes long, whatever the value.
pub proof fn lemma_le_bytes_len(value: int, n: nat)
    ensures
        le_bytes(value, n).len() == n,
    decreases n,
{
    if n > 0 {
        lemma_le_bytes_len(value / 256, (n - 1) as nat);
    }
}

/// Decoding an `n`-byte little-endian value at `offset`.
pub open spec fn decode_le(bytes: Seq<u8>, offset: int, n: nat) -> (Result<int, DecodeError>, int)
    decreases n,
{
    if n == 0 {
        (Ok(0), offset)
    } else if 0 <= offset < bytes.len() {
        let (rest, end) = decode_le(bytes, offset + 1, (n - 1) as nat);
        match rest {
            Ok(high) => (Ok(bytes[offset] + 256 * high), end),
            Err(e) => (Err(e), end),
        }
    } else {
        (Err(DecodeError::InsufficientBytes), offset)
    }
}

/// Decoding a little-endian value at the start of its own encoding gives
/// the value back, when it fits.
pub proof fn lemma_le_roundtrip(value: int, n: nat, prefix: Seq<u8>, suffix: Seq<u8>)
    requires
        0 <= value < pow256(n),
    ensures
        decode_le(prefix + le_bytes(value, n) + suffix, prefix.len() as int, n) == (
            Ok::<int, DecodeError>(value),
            (prefix.len() + n) as int,
        ),
        le_bytes(value, n).len() == n,
    decreases n,
{
    if n > 0 {
        let bytes = prefix + le_bytes(value, n) + suffix;
        let p2 = prefix.push((value % 256) as u8);
        assert(bytes =~= p2 + le_bytes(value / 256, (n - 1) as nat) + suffix);
        assert(value / 256 < pow256((n - 1) as nat)) by (nonlinear_arith)
            requires
                0 <= value < pow256(n),
                pow256(n) == 256 * pow256((n - 1) as nat),
        ;
        lemma_le_roundtrip(value / 256, (n - 1) as nat, p2, suffix);
        assert(bytes[prefix.len() as int] == (value % 256) as u8);
        assert((value % 256) + 256 * (value / 256) == value) by (nonlinear_arith);
    }
}

pub open spec fn pow256(n: nat) -> int
    decreases n,
{
    if n == 0 {
        1
    } else {
        256 * pow256((n - 1) as nat)
    }
}

/// A value encoded in one byte.
#[derive(Debug)]
pub struct U8(pub u8);

impl U8 {
    pub const MAX: usize = 255;
}

impl From<usize> for U8 {
    /// Keeps the low byte of `value`.
    fn from(value: usize) -> (r: Self) {
        U8((value % 256) as u8)
    }
}

impl vstd::std_specs::convert::FromSpecImpl<usize> for U8 {
    open spec fn obeys_from_spec() -> bool {
        true
    }

    open spec fn from_spec(value: usize) -> U8 {
        U8((value % 256) as u8)
    }
}

impl From<U8> for usize {
    fn from(value: U8) -> (r: usize) {
        value.0 as usize
    }
}

impl vstd::std_specs::convert::FromSpecImpl<U8> for usize {
    open spec fn obeys_from_spec() -> bool {
        true
    }

    open spec fn from_spec(value: U8) -> usize {
        value.0 as usize
    }
}

impl U8 {
    pub open spec fn value(self) -> int {
        self.0 as int
    }
}

impl Codec for U8 {
    open spec fn spec_encoding(self) -> Seq<u8> {
        seq![self.0]
    }

    open spec fn spec_decode(bytes: Seq<u8>, offset: int) -> (Result<U8, DecodeError>, int) {
        match decode_byte(bytes, offset) {
            (Ok(b), end) => (Ok(U8(b)), end),
            (Err(e), end) => (Err(e), end),
        }
    }

    fn encode(self, bytes: &mut Vec<u8>) {
        bytes.push(self.0)
    }

    fn decode(bytes: &[u8], offset: &mut usize) -> (r: Result<U8, DecodeError>) {
        Ok(U8(u8::decode(bytes, offset)?))
    }
}

/// A value encoded in two bytes, least significant first.
#[derive(Debug)]
pub struct U16(pub usize);

impl U16 {
    pub const MAX: usize = 65535;

    pub open spec fn value(self) -> int {
        self.0 as int
    }
}

impl From<usize> for U16 {
    fn from(value: usize) -> (r: Self) {
        U16(value)
    }
}

impl vstd::std_specs::convert::FromSpecImpl<usize> for U16 {
    open spec fn obeys_from_spec() -> bool {
        true
    }

    open spec fn from_spec(value: usize) -> U16 {
        U16(value)
    }
}

impl From<U16> for usize {
    fn from(value: U16) -> (r: usize) {
        value.0
    }
}

impl vstd::std_specs::convert::FromSpecImpl<U16> for usize {
    open spec fn obeys_from_spec() -> bool {
        true
    }

    open spec fn from_spec(value: U16) -> usize {
        value.0
    }
}

impl Codec for U16 {
    open spec fn spec_encoding(self) -> Seq<u8> {
        le_bytes(self.0 as int, 2)
    }

    open spec fn spec_decode(bytes: Seq<u8>, offset: int) -> (Result<U16, DecodeError>, int) {
        match decode_le(bytes, offset, 2) {
            (Ok(v), end) => (Ok(U16(v as usize)), end),
            (Err(e), end) => (Err(e), end),
        }
    }

    fn encode(self, bytes: &mut Vec<u8>) {
        bytes.push((self.0 % 256) as u8);
        bytes.push((self.0 / 256 % 256) as u8);
        proof {
            reveal_with_fuel(le_bytes, 3);
            assert(bytes@ =~= old(bytes)@ + le_bytes(self.0 as int, 2));
        }
    }

    fn decode(bytes: &[u8], offset: &mut usize) -> (r: Result<U16, DecodeError>) {
        proof {
            reveal_with_fuel(decode_le, 3);
        }
        let b0 = u8::decode(bytes, offset)? as usize;
        let b1 = u8::decode(bytes, offset)? as usize;
        Ok(U16(b0 + b1 * 256))
    }
}

/// A value encoded in three bytes, least significant first.
#[derive(Debug)]
pub struct U24(pub usize);

impl U24 {
    pub const MAX: usize = 16777215;

    pub open spec fn value(self) -> int {
        self.0 as int
    }
}

impl From<usize> for U24 {
    fn from(value: usize) -> (r: Self) {
        U24(value)
    }
}

impl vstd::std_specs::convert::FromSpecImpl<usize> for U24 {
    open spec fn obeys_from_spec() -> bool {
        true
    }

    open spec fn from_spec(value: usize) -> U24 {
        U24(value)
    }
}

impl From<U24> for usize {
    fn from(value: U24) -> (r: usize) {
        value.0
    }
}

impl vstd::std_specs::convert::FromSpecImpl<U24> for usize {
    open spec fn obeys_from_spec() -> bool {
        true
    }

    open spec fn from_spec(value: U24) -> usize {
        value.0
    }
}

impl Codec for U24 {
    open spec fn spec_encoding(self) -> Seq<u8> {
        le_bytes(self.0 as int, 3)
    }

    open spec fn spec_decode(bytes: Seq<u8>, offset: int) -> (Result<U24, DecodeError>, int) {
        match decode_le(bytes, offset, 3) {
            (Ok(v), end) => (Ok(U24(v as usize)), end),
            (Err(e), end) => (Err(e), end),
        }
    }

    fn encode(self, bytes: &mut Vec<u8>) {
        bytes.push((self.0 % 256) as u8);
        bytes.push((self.0 / 256 % 256) as u8);
        bytes.push((self.0 / 65536 % 256) as u8);
        proof {
            assert(self.0 / 256 / 256 == self.0 / 65536) by (nonlinear_arith);
            reveal_with_fuel(le_bytes, 4);
            assert(bytes@ =~= old(bytes)@ + le_bytes(self.0 as int, 3));
        }
    }

    fn decode(bytes: &[u8], offset: &mut usize) -> (r: Result<U24, DecodeError>) {
        proof {
            reveal_with_fuel(decode_le, 4);
        }
        let b0 = u8::decode(bytes, offset)? as usize;
        let b1 = u8::decode(bytes, offset)? as usize;
        let b2 = u8::decode(bytes, offset)? as usize;
        Ok(U24(b0 + b1 * 256 + b2 * 65536))
    }
}

} // verus!
