//! The binary FSM protocol: a platform independent, byte-order independent
//! encoding of unsigned numbers, strings, booleans, optional strings and data values.
//!
//! Every item starts with a type byte. Its high nibble names the type, its low
//! nibble holds the highest four bits of the number (or string length) that
//! follows in big-endian order. Booleans and "no string" are single type bytes.

use vstd::prelude::*;
use vstd::utf8::*;
use vstd::string::*;
use crate::decimal::{i64_text, parse_i64, float_text, i64_to_text, text_to_i64, is_float_text, lemma_i64_text_roundtrip, lemma_i64_text_utf8, utf8_to_str};

verus! {

/// Type byte of the boolean value `true`.
pub const FSM_PROTOCOL_TYPE_BOOLEAN_TRUE: u8 = 0x11u8;

/// Type byte of the boolean value `false`.
pub const FSM_PROTOCOL_TYPE_BOOLEAN_FALSE: u8 = 0x12u8;

/// Type byte of an absent optional string.
pub const FSM_PROTOCOL_TYPE_OPT_STRING_NONE: u8 = 0x13u8;

/// Number with 4 bits (no additional byte).
pub const FSM_PROTOCOL_TYPE_INT_4BIT: u8 = 0x20u8;

/// Number with 12 bits (one additional byte).
pub const FSM_PROTOCOL_TYPE_INT_12BIT: u8 = 0x30u8;

/// Number with 20 bits (two additional bytes).
pub const FSM_PROTOCOL_TYPE_INT_20BIT: u8 = 0x40u8;

/// Number with 28 bits (three additional bytes).
pub const FSM_PROTOCOL_TYPE_INT_28BIT: u8 = 0x50u8;

/// Number with 36 bits (four additional bytes).
pub const FSM_PROTOCOL_TYPE_INT_36BIT: u8 = 0x60u8;

/// Number with 44 bits (five additional bytes).
pub const FSM_PROTOCOL_TYPE_INT_44BIT: u8 = 0x70u8;

/// Number with 52 bits (six additional bytes).
pub const FSM_PROTOCOL_TYPE_INT_52BIT: u8 = 0x80u8;

/// Number with 60 bits (seven additional bytes).
pub const FSM_PROTOCOL_TYPE_INT_60BIT: u8 = 0x90u8;

/// Number with 68 bits (eight additional bytes).
pub const FSM_PROTOCOL_TYPE_INT_68BIT: u8 = 0xA0u8;

/// String with a length of 4 bits.
pub const FSM_PROTOCOL_TYPE_STRING_LENGTH_4BIT: u8 = 0xB0u8;

/// String with a length of 12 bits.
pub const FSM_PROTOCOL_TYPE_STRING_LENGTH_12BIT: u8 = 0xC0u8;

/// The protocol version, written first into each FSM file.
pub const FSM_PROTOCOL_TYPE_PROTOCOL_VERSION: &'static str = "RUFSM1";

// ---------------------------------------------------------------------------
// The encoding.
// ---------------------------------------------------------------------------

/// `a - b`, but never below zero.
pub open spec fn sat_sub(a: nat, b: nat) -> nat {
    if a >= b {
        (a - b) as nat
    } else {
        0
    }
}

/// The bytes that follow the type byte of a number written with `shift` bits left
/// after the first nibble: the value shifted right by `shift - 8`, `shift - 16`, ...
/// (never below 0), each truncated to a byte.
pub open spec fn tail_bytes(value: u64, shift: nat) -> Seq<u8>
    decreases shift,
{
    if shift == 0 {
        Seq::empty()
    } else {
        let s2 = sat_sub(shift, 8);
        seq![(value >> (s2 as u64)) as u8] + tail_bytes(value, s2)
    }
}

/// A type byte followed by `value` written with `size` bits.
pub open spec fn type_and_value_bytes(type_id: u8, value: u64, size: u8) -> Seq<u8> {
    let shift = sat_sub(size as nat, 4);
    seq![type_id | (((value >> (shift as u64)) as u8) & 0x0Fu8)] + tail_bytes(value, shift)
}

/// The type byte and the bit count with which an unsigned number is written.
pub open spec fn uint_type_and_size(value: u64) -> (u8, u8) {
    if value < 0x10 {
        (FSM_PROTOCOL_TYPE_INT_4BIT, 4u8)
    } else if value < 0x1000 {
        (FSM_PROTOCOL_TYPE_INT_12BIT, 12u8)
    } else if value < 0x10_0000 {
        (FSM_PROTOCOL_TYPE_INT_20BIT, 20u8)
    } else if value < 0x1000_0000 {
        (FSM_PROTOCOL_TYPE_INT_28BIT, 28u8)
    } else if value < 0x10_0000_0000 {
        (FSM_PROTOCOL_TYPE_INT_36BIT, 36u8)
    } else if value < 0x1000_0000_0000 {
        (FSM_PROTOCOL_TYPE_INT_44BIT, 44u8)
    } else if value < 0x10_0000_0000_0000 {
        (FSM_PROTOCOL_TYPE_INT_52BIT, 52u8)
    } else if value < 0x1000_0000_0000_0000 {
        (FSM_PROTOCOL_TYPE_INT_60BIT, 60u8)
    } else {
        (FSM_PROTOCOL_TYPE_INT_68BIT, 64u8)
    }
}

/// The bytes of an unsigned number.
pub open spec fn uint_bytes(value: u64) -> Seq<u8> {
    let (t, size) = uint_type_and_size(value);
    type_and_value_bytes(t, value, size)
}

/// The number of bytes of a string that are written: the length for short strings,
/// the length modulo 4096 for strings of 16 bytes and more.
pub open spec fn written_string_length(len: nat) -> nat {
    if len < 16 {
        len
    } else {
        len % 4096
    }
}

/// A string item made of the given UTF-8 bytes: the length header followed by the
/// (possibly truncated) bytes.
pub open spec fn str_item_bytes(b: Seq<u8>) -> Seq<u8> {
    let header = if b.len() < 16 {
        type_and_value_bytes(FSM_PROTOCOL_TYPE_STRING_LENGTH_4BIT, b.len() as u64, 4)
    } else {
        type_and_value_bytes(FSM_PROTOCOL_TYPE_STRING_LENGTH_12BIT, b.len() as u64, 12)
    };
    header + b.take(written_string_length(b.len()) as int)
}

/// A string can be written unless its written prefix would end inside a character.
pub open spec fn string_writable(s: Seq<char>) -> bool {
    let b = encode_utf8(s);
    b.len() < 4096 || is_char_boundary(b, written_string_length(b.len()) as int)
}

/// The bytes of a string.
pub open spec fn string_bytes(s: Seq<char>) -> Seq<u8> {
    str_item_bytes(encode_utf8(s))
}

/// The single byte of a boolean.
pub open spec fn bool_bytes(b: bool) -> Seq<u8> {
    if b {
        seq![FSM_PROTOCOL_TYPE_BOOLEAN_TRUE]
    } else {
        seq![FSM_PROTOCOL_TYPE_BOOLEAN_FALSE]
    }
}

/// The bytes of an optional string.
pub open spec fn option_string_bytes(s: Option<Seq<char>>) -> Seq<u8> {
    match s {
        Some(v) => string_bytes(v),
        None => seq![FSM_PROTOCOL_TYPE_OPT_STRING_NONE],
    }
}

// ---------------------------------------------------------------------------
// Writing.
// ---------------------------------------------------------------------------

/// Writes the binary FSM format into a byte buffer.
pub struct DefaultProtocolWriter {
    /// The bytes written so far.
    pub writer: Vec<u8>,
}

impl View for DefaultProtocolWriter {
    type V = Seq<u8>;

    open spec fn view(&self) -> Seq<u8> {
        self.writer@
    }
}

impl DefaultProtocolWriter {
    /// A writer that appends to the given bytes.
    pub fn new(writer: Vec<u8>) -> (r: DefaultProtocolWriter)
        ensures
            r@ == writer@,
    {
        DefaultProtocolWriter { writer }
    }

    /// Writes a type byte whose low nibble holds the highest four of `size` bits of
    /// `value`, followed by the remaining bits in big-endian bytes.
    fn write_type_and_value(&mut self, type_id: u8, value: u64, size: u8)
        requires
            size <= 64,
        ensures
            final(self)@ == old(self)@ + type_and_value_bytes(type_id, value, size),
    {
        let mut shift: u8 = size.saturating_sub(4);
        self.writer.push(type_id | (((value >> (shift as u64)) as u8) & 0x0Fu8));
        let ghost target = old(self)@ + type_and_value_bytes(type_id, value, size);
        assert(self.writer@ + tail_bytes(value, shift as nat) =~= target);
        while shift > 0
            invariant
                shift <= 60,
                self.writer@ + tail_bytes(value, shift as nat) == target,
            decreases shift,
        {
            let ghost before = self.writer@;
            let ghost prev = shift as nat;
            shift = shift.saturating_sub(8);
            assert(shift as nat == sat_sub(prev, 8));
            self.writer.push((value >> (shift as u64)) as u8);
            assert(tail_bytes(value, prev) == seq![(value >> (shift as u64)) as u8] + tail_bytes(
                value,
                shift as nat,
            ));
            assert(self.writer@ + tail_bytes(value, shift as nat) =~= before + tail_bytes(
                value,
                prev,
            ));
        }
        assert(tail_bytes(value, 0) =~= Seq::<u8>::empty());
        assert(self.writer@ =~= target);
    }
    /// Appends bytes.
    fn write_bytes(&mut self, b: &[u8])
        ensures
            final(self)@ == old(self)@ + b@,
    {
        let mut i: usize = 0;
        while i < b.len()
            invariant
                i <= b@.len(),
                self@ == old(self)@ + b@.take(i as int),
            decreases b@.len() - i,
        {
            self.writer.push(b[i]);
            i = i + 1;
            assert(self@ =~= old(self)@ + b@.take(i as int));
        }
        assert(b@.take(b@.len() as int) =~= b@);
    }

    /// Writes a string item made of the given UTF-8 bytes.
    fn write_str_bytes(&mut self, b: &[u8])
        ensures
            final(self)@ == old(self)@ + str_item_bytes(b@),
    {
        let mut len = b.len();
        if len < 16 {
            self.write_type_and_value(FSM_PROTOCOL_TYPE_STRING_LENGTH_4BIT, len as u64, 4);
        } else {
            self.write_type_and_value(FSM_PROTOCOL_TYPE_STRING_LENGTH_12BIT, len as u64, 12);
            assert(len & 0x0FFFusize == len % 4096) by (bit_vector);
            len = len & 0x0FFFusize;
        }
        let ghost before = self@;
        self.write_bytes(&b[0..len]);
        assert(b@.subrange(0, len as int) =~= b@.take(written_string_length(b@.len()) as int));
        assert(self@ =~= old(self)@ + str_item_bytes(b@));
    }

    /// Writes the protocol version.
    pub fn write_version(&mut self)
        ensures
            final(self)@ == old(self)@ + str_item_bytes(
                encode_utf8(FSM_PROTOCOL_TYPE_PROTOCOL_VERSION@),
            ),
    {
        self.write_str_bytes(FSM_PROTOCOL_TYPE_PROTOCOL_VERSION.as_bytes());
    }

    /// Writing into a byte buffer needs no flush: nothing to do.
    pub fn close(&mut self)
        ensures
            final(self)@ == old(self)@,
    {
    }

    /// Writes a boolean.
    pub fn write_boolean(&mut self, value: bool)
        ensures
            final(self)@ == old(self)@ + bool_bytes(value),
    {
        self.writer.push(
            if value {
                FSM_PROTOCOL_TYPE_BOOLEAN_TRUE
            } else {
                FSM_PROTOCOL_TYPE_BOOLEAN_FALSE
            },
        );
        assert(self@ =~= old(self)@ + bool_bytes(value));
    }

    /// Writes a string.
    pub fn write_str(&mut self, value: &str)
        requires
            string_writable(value@),
        ensures
            final(self)@ == old(self)@ + string_bytes(value@),
    {
        self.write_str_bytes(value.as_bytes());
    }

    /// Writes an optional string.
    pub fn write_option_string(&mut self, value: &Option<String>)
        requires
            value matches Some(v) ==> string_writable(v@),
        ensures
            final(self)@ == old(self)@ + option_string_bytes(
                match value {
                    Some(v) => Some(v@),
                    None => None,
                },
            ),
    {
        match value {
            Some(v) => {
                self.write_str(v.as_str());
            },
            None => {
                self.writer.push(FSM_PROTOCOL_TYPE_OPT_STRING_NONE);
                assert(self@ =~= old(self)@ + seq![FSM_PROTOCOL_TYPE_OPT_STRING_NONE]);
            },
        }
    }

    /// Writes an unsigned value with the smallest of the number types that holds it.
    pub fn write_uint(&mut self, value: u64)
        ensures
            final(self)@ == old(self)@ + uint_bytes(value),
    {
        if value < 0x10u64 {
            self.write_type_and_value(FSM_PROTOCOL_TYPE_INT_4BIT, value, 4);
        } else if value < 0x1000u64 {
            self.write_type_and_value(FSM_PROTOCOL_TYPE_INT_12BIT, value, 12);
        } else if value < 0x10_0000u64 {
            self.write_type_and_value(FSM_PROTOCOL_TYPE_INT_20BIT, value, 20);
        } else if value < 0x1000_0000u64 {
            self.write_type_and_value(FSM_PROTOCOL_TYPE_INT_28BIT, value, 28);
        } else if value < 0x10_0000_0000u64 {
            self.write_type_and_value(FSM_PROTOCOL_TYPE_INT_36BIT, value, 36);
        } else if value < 0x1000_0000_0000u64 {
            self.write_type_and_value(FSM_PROTOCOL_TYPE_INT_44BIT, value, 44);
        } else if value < 0x10_0000_0000_0000u64 {
            self.write_type_and_value(FSM_PROTOCOL_TYPE_INT_52BIT, value, 52);
        } else if value < 0x1000_0000_0000_0000u64 {
            self.write_type_and_value(FSM_PROTOCOL_TYPE_INT_60BIT, value, 60);
        } else {
            self.write_type_and_value(FSM_PROTOCOL_TYPE_INT_68BIT, value, 64);
        }
    }

    /// Writes an usize value.
    pub fn write_usize(&mut self, value: usize)
        ensures
            final(self)@ == old(self)@ + uint_bytes(value as u64),
    {
        self.write_uint(value as u64)
    }

    /// Writes an unsigned byte (as a number).
    pub fn write_u8(&mut self, value: u8)
        ensures
            final(self)@ == old(self)@ + uint_bytes(value as u64),
    {
        self.write_uint(value as u64)
    }

    /// Writing into a byte buffer never fails.
    pub fn has_error(&self) -> (r: bool)
        ensures
            r == false,
    {
        false
    }

    /// The bytes written so far.
    pub fn get_writer(&self) -> (r: &Vec<u8>)
        ensures
            r@ == self@,
    {
        &self.writer
    }
}

// ---------------------------------------------------------------------------
// Reading.
// ---------------------------------------------------------------------------

/// The state of a reader: the input, the position of the next byte, whether no error
/// occurred yet, and the type, number and string of the last item read.
pub struct ReaderView {
    pub bytes: Seq<u8>,
    pub pos: nat,
    pub ok: bool,
    pub type_id: u8,
    pub number: u64,
    pub string: Seq<char>,
}

/// The number of bytes that follow the type byte of a number type, `None` for other types.
pub open spec fn number_extra_bytes(type_id: u8) -> Option<nat> {
    if type_id == FSM_PROTOCOL_TYPE_INT_4BIT {
        Some(0)
    } else if type_id == FSM_PROTOCOL_TYPE_INT_12BIT {
        Some(1)
    } else if type_id == FSM_PROTOCOL_TYPE_INT_20BIT {
        Some(2)
    } else if type_id == FSM_PROTOCOL_TYPE_INT_28BIT {
        Some(3)
    } else if type_id == FSM_PROTOCOL_TYPE_INT_36BIT {
        Some(4)
    } else if type_id == FSM_PROTOCOL_TYPE_INT_44BIT {
        Some(5)
    } else if type_id == FSM_PROTOCOL_TYPE_INT_52BIT {
        Some(6)
    } else if type_id == FSM_PROTOCOL_TYPE_INT_60BIT {
        Some(7)
    } else if type_id == FSM_PROTOCOL_TYPE_INT_68BIT {
        Some(8)
    } else {
        None
    }
}

/// True for the two string types.
pub open spec fn is_string_type(type_id: u8) -> bool {
    type_id == FSM_PROTOCOL_TYPE_STRING_LENGTH_4BIT || type_id
        == FSM_PROTOCOL_TYPE_STRING_LENGTH_12BIT
}

/// The first error puts the reader into the error state and clears the last item;
/// later errors change nothing.
pub open spec fn rv_error(r: ReaderView) -> ReaderView {
    if r.ok {
        ReaderView { ok: false, type_id: 0, number: 0, string: Seq::empty(), ..r }
    } else {
        r
    }
}

/// Shifts `length` more bytes into the number, big-endian.
pub open spec fn rv_additional(r: ReaderView, length: nat) -> ReaderView
    decreases length,
{
    if length == 0 || !r.ok {
        r
    } else if r.pos < r.bytes.len() {
        rv_additional(
            ReaderView {
                number: (r.number << 8u64) | (r.bytes[r.pos as int] as u64),
                pos: r.pos + 1,
                ..r
            },
            (length - 1) as nat,
        )
    } else {
        rv_error(r)
    }
}

/// Reads `n` bytes as the UTF-8 text of the string.
pub open spec fn rv_read_str(r: ReaderView, n: nat) -> ReaderView {
    if r.pos + n > r.bytes.len() {
        rv_error(r)
    } else {
        let b = r.bytes.subrange(r.pos as int, (r.pos + n) as int);
        if valid_utf8(b) {
            ReaderView { string: decode_utf8(b), pos: r.pos + n, ..r }
        } else {
            rv_error(ReaderView { pos: r.pos + n, ..r })
        }
    }
}

/// Reads the next item's type byte and its number or string.
pub open spec fn rv_type_and_size(r: ReaderView) -> ReaderView {
    if !r.ok {
        r
    } else {
        let r0 = ReaderView { string: Seq::empty(), ..r };
        if r0.pos >= r0.bytes.len() {
            rv_error(r0)
        } else {
            let val = r0.bytes[r0.pos as int];
            let r1 = ReaderView { pos: r0.pos + 1, ..r0 };
            let hi = val & 0xF0u8;
            if hi == 0x10u8 {
                ReaderView { type_id: val, ..r1 }
            } else if number_extra_bytes(hi) is Some {
                rv_additional(
                    ReaderView { type_id: hi, number: (val & 0x0Fu8) as u64, ..r1 },
                    number_extra_bytes(hi)->0,
                )
            } else if hi == FSM_PROTOCOL_TYPE_STRING_LENGTH_4BIT {
                rv_read_str(ReaderView { type_id: hi, number: 0, ..r1 }, (val & 0x0Fu8) as nat)
            } else if hi == FSM_PROTOCOL_TYPE_STRING_LENGTH_12BIT {
                let r2 = ReaderView { type_id: hi, number: 0, ..r1 };
                if r2.pos >= r2.bytes.len() {
                    rv_error(r2)
                } else {
                    rv_read_str(
                        ReaderView { pos: r2.pos + 1, ..r2 },
                        ((val & 0x0Fu8) as nat) * 256 + r2.bytes[r2.pos as int] as nat,
                    )
                }
            } else {
                r1
            }
        }
    }
}

/// Reading an unsigned number: the value, and the reader afterwards.
pub open spec fn rv_read_uint(r: ReaderView) -> (u64, ReaderView) {
    let r1 = rv_type_and_size(r);
    if r1.ok && number_extra_bytes(r1.type_id) is Some {
        (r1.number, r1)
    } else {
        (0, rv_error(r1))
    }
}

/// Reading a string: the text, and the reader afterwards.
pub open spec fn rv_read_string(r: ReaderView) -> (Seq<char>, ReaderView) {
    let r1 = rv_type_and_size(r);
    if r1.ok && is_string_type(r1.type_id) {
        (r1.string, r1)
    } else {
        (Seq::empty(), rv_error(r1))
    }
}

/// Reading an optional string: the text or `None`, and the reader afterwards.
pub open spec fn rv_read_option_string(r: ReaderView) -> (Option<Seq<char>>, ReaderView) {
    if !r.ok {
        (None, r)
    } else {
        let r1 = rv_type_and_size(r);
        if r1.type_id == FSM_PROTOCOL_TYPE_OPT_STRING_NONE {
            (None, r1)
        } else if is_string_type(r1.type_id) {
            (Some(r1.string), r1)
        } else {
            (None, rv_error(r1))
        }
    }
}

/// Reading a boolean: the value, and the reader afterwards.
pub open spec fn rv_read_boolean(r: ReaderView) -> (bool, ReaderView) {
    if !r.ok {
        (false, r)
    } else if r.pos >= r.bytes.len() {
        (false, rv_error(r))
    } else {
        let b = r.bytes[r.pos as int];
        let r1 = ReaderView { pos: r.pos + 1, ..r };
        if b == FSM_PROTOCOL_TYPE_BOOLEAN_TRUE {
            (true, r1)
        } else if b == FSM_PROTOCOL_TYPE_BOOLEAN_FALSE {
            (false, r1)
        } else {
            (false, rv_error(r1))
        }
    }
}

/// The type, number and string of the last item read.
#[derive(Default)]
pub struct TypeAndValue {
    type_id: u8,
    number: u64,
    string: String,
}

/// Reads the binary FSM format from a byte buffer.
pub struct DefaultProtocolReader {
    input: Vec<u8>,
    pos: usize,
    ok: bool,
    type_and_value: TypeAndValue,
}

impl View for DefaultProtocolReader {
    type V = ReaderView;

    closed spec fn view(&self) -> ReaderView {
        ReaderView {
            bytes: self.input@,
            pos: self.pos as nat,
            ok: self.ok,
            type_id: self.type_and_value.type_id,
            number: self.type_and_value.number,
            string: self.type_and_value.string@,
        }
    }
}

impl DefaultProtocolReader {
    #[verifier::type_invariant]
    spec fn inv(&self) -> bool {
        self.pos <= self.input@.len()
    }

    /// A reader at the start of the given bytes.
    pub fn new(reader: Vec<u8>) -> (r: DefaultProtocolReader)
        ensures
            r@ == (ReaderView {
                bytes: reader@,
                pos: 0,
                ok: true,
                type_id: 0,
                number: 0,
                string: Seq::empty(),
            }),
    {
        DefaultProtocolReader {
            input: reader,
            pos: 0,
            ok: true,
            type_and_value: TypeAndValue { type_id: 0, number: 0, string: String::new() },
        }
    }

    /// Puts the reader into the error state (the first error only).
    fn error(&mut self)
        ensures
            final(self)@ == rv_error(old(self)@),
    {
        proof {
            use_type_invariant(&*self);
        }
        if self.ok {
            self.ok = false;
            self.type_and_value.type_id = 0;
            self.type_and_value.number = 0;
            self.type_and_value.string = String::new();
        }
    }

    /// Checks that the last item is a number; puts the reader into the error state if not.
    fn verify_number_type(&mut self) -> (r: bool)
        ensures
            r == (old(self)@.ok && number_extra_bytes(old(self)@.type_id) is Some),
            final(self)@ == if r {
                old(self)@
            } else {
                rv_error(old(self)@)
            },
    {
        if self.ok {
            let t = self.type_and_value.type_id;
            if t == FSM_PROTOCOL_TYPE_INT_4BIT || t == FSM_PROTOCOL_TYPE_INT_12BIT || t
                == FSM_PROTOCOL_TYPE_INT_20BIT || t == FSM_PROTOCOL_TYPE_INT_28BIT || t
                == FSM_PROTOCOL_TYPE_INT_36BIT || t == FSM_PROTOCOL_TYPE_INT_44BIT || t
                == FSM_PROTOCOL_TYPE_INT_52BIT || t == FSM_PROTOCOL_TYPE_INT_60BIT || t
                == FSM_PROTOCOL_TYPE_INT_68BIT {
                true
            } else {
                self.error();
                false
            }
        } else {
            false
        }
    }

    /// Checks that the last item is a string; puts the reader into the error state if not.
    fn verify_string_type(&mut self) -> (r: bool)
        ensures
            r == (old(self)@.ok && is_string_type(old(self)@.type_id)),
            final(self)@ == if r {
                old(self)@
            } else {
                rv_error(old(self)@)
            },
    {
        if self.ok {
            let t = self.type_and_value.type_id;
            if t == FSM_PROTOCOL_TYPE_STRING_LENGTH_4BIT || t
                == FSM_PROTOCOL_TYPE_STRING_LENGTH_12BIT {
                true
            } else {
                self.error();
                false
            }
        } else {
            false
        }
    }

    /// Shifts `length` more bytes into the number.
    fn read_additional_number_bytes(&mut self, length: u8)
        ensures
            final(self)@ == rv_additional(old(self)@, length as nat),
    {
        let ghost orig = length as nat;
        let mut length = length;
        while length > 0 && self.ok
            invariant
                rv_additional(self@, length as nat) == rv_additional(old(self)@, orig),
            decreases length,
        {
            proof {
                use_type_invariant(&*self);
            }
            if self.pos < self.input.len() {
                let value = self.input[self.pos];
                self.type_and_value.number = (self.type_and_value.number << 8u64) | (value as u64);
                self.pos = self.pos + 1;
            } else {
                self.error();
            }
            length = length - 1;
        }
    }
    /// Reads `n` bytes as the UTF-8 text of the string.
    fn read_str(&mut self, n: usize)
        requires
            old(self)@.ok,
        ensures
            final(self)@ == rv_read_str(old(self)@, n as nat),
    {
        proof {
            use_type_invariant(&*self);
        }
        if n > self.input.len() - self.pos {
            self.error();
        } else {
            let end = self.pos + n;
            let found = utf8_to_str(&self.input.as_slice()[self.pos..end]);
            match found {
                Some(text) => {
                    proof {
                        broadcast use vstd::utf8::encode_utf8_decode_utf8;
                        broadcast use vstd::string::to_string_from_display_ensures_for_str;

                        assert(text@ == decode_utf8(encode_utf8(text@)));
                    }
                    self.type_and_value.string = text.to_string();
                    self.pos = end;
                },
                None => {
                    self.pos = end;
                    self.error();
                },
            }
        }
    }

    /// Reads the next item's type byte and its number or string.
    fn read_type_and_size(&mut self)
        ensures
            final(self)@ == rv_type_and_size(old(self)@),
    {
        proof {
            use_type_invariant(&*self);
        }
        if self.ok {
            self.type_and_value.string = String::new();
            if self.pos >= self.input.len() {
                self.error();
                return;
            }
            let val = self.input[self.pos];
            self.pos = self.pos + 1;
            let hi = val & 0xF0u8;
            if hi == 0x10u8 {
                self.type_and_value.type_id = val;
            } else if hi == FSM_PROTOCOL_TYPE_INT_4BIT || hi == FSM_PROTOCOL_TYPE_INT_12BIT || hi
                == FSM_PROTOCOL_TYPE_INT_20BIT || hi == FSM_PROTOCOL_TYPE_INT_28BIT || hi
                == FSM_PROTOCOL_TYPE_INT_36BIT || hi == FSM_PROTOCOL_TYPE_INT_44BIT || hi
                == FSM_PROTOCOL_TYPE_INT_52BIT || hi == FSM_PROTOCOL_TYPE_INT_60BIT || hi
                == FSM_PROTOCOL_TYPE_INT_68BIT {
                self.type_and_value.type_id = hi;
                self.type_and_value.number = (val & 0x0Fu8) as u64;
                let extra: u8 = if hi == FSM_PROTOCOL_TYPE_INT_4BIT {
                    0
                } else if hi == FSM_PROTOCOL_TYPE_INT_12BIT {
                    1
                } else if hi == FSM_PROTOCOL_TYPE_INT_20BIT {
                    2
                } else if hi == FSM_PROTOCOL_TYPE_INT_28BIT {
                    3
                } else if hi == FSM_PROTOCOL_TYPE_INT_36BIT {
                    4
                } else if hi == FSM_PROTOCOL_TYPE_INT_44BIT {
                    5
                } else if hi == FSM_PROTOCOL_TYPE_INT_52BIT {
                    6
                } else if hi == FSM_PROTOCOL_TYPE_INT_60BIT {
                    7
                } else {
                    8
                };
                self.read_additional_number_bytes(extra);
            } else if hi == FSM_PROTOCOL_TYPE_STRING_LENGTH_4BIT {
                self.type_and_value.type_id = hi;
                self.type_and_value.number = 0;
                self.read_str((val & 0x0Fu8) as usize);
            } else if hi == FSM_PROTOCOL_TYPE_STRING_LENGTH_12BIT {
                self.type_and_value.type_id = hi;
                self.type_and_value.number = 0;
                if self.pos >= self.input.len() {
                    self.error();
                } else {
                    let low = self.input[self.pos];
                    self.pos = self.pos + 1;
                    let us: usize = ((val & 0x0Fu8) as usize) * 256 + (low as usize);
                    self.read_str(us);
                }
            }
        }
    }

    /// Reads and verifies the protocol version; an error if it does not match.
    pub fn verify_version(&mut self)
        ensures
            final(self)@ == ({
                let (vs, r1) = rv_read_string(old(self)@);
                if vs != FSM_PROTOCOL_TYPE_PROTOCOL_VERSION@ {
                    rv_error(r1)
                } else {
                    r1
                }
            }),
    {
        let vs = self.read_string();
        proof {
            broadcast use vstd::string::to_string_from_display_ensures_for_str;
        }
        let expected = FSM_PROTOCOL_TYPE_PROTOCOL_VERSION.to_string();
        if vs != expected {
            self.error();
        }
    }

    /// Reading from a byte buffer needs no closing: nothing to do.
    pub fn close(&mut self)
        ensures
            final(self)@ == old(self)@,
    {
    }

    /// Reads a boolean.
    pub fn read_boolean(&mut self) -> (r: bool)
        ensures
            (r, final(self)@) == rv_read_boolean(old(self)@),
    {
        proof {
            use_type_invariant(&*self);
        }
        if self.ok {
            if self.pos >= self.input.len() {
                self.error();
                false
            } else {
                let type_id = self.input[self.pos];
                self.pos = self.pos + 1;
                if type_id == FSM_PROTOCOL_TYPE_BOOLEAN_TRUE {
                    true
                } else if type_id == FSM_PROTOCOL_TYPE_BOOLEAN_FALSE {
                    false
                } else {
                    self.error();
                    false
                }
            }
        } else {
            false
        }
    }

    /// Reads an optional string.
    pub fn read_option_string(&mut self) -> (r: Option<String>)
        ensures
            (match r {
                Some(s) => Some(s@),
                None => None,
            }, final(self)@) == rv_read_option_string(old(self)@),
    {
        if self.ok {
            self.read_type_and_size();
            let t = self.type_and_value.type_id;
            if t == FSM_PROTOCOL_TYPE_OPT_STRING_NONE {
                None
            } else if t == FSM_PROTOCOL_TYPE_STRING_LENGTH_12BIT || t
                == FSM_PROTOCOL_TYPE_STRING_LENGTH_4BIT {
                Some(self.type_and_value.string.clone())
            } else {
                self.error();
                None
            }
        } else {
            None
        }
    }

    /// Reads a string.
    pub fn read_string(&mut self) -> (r: String)
        ensures
            (r@, final(self)@) == rv_read_string(old(self)@),
    {
        self.read_type_and_size();
        if self.verify_string_type() {
            self.type_and_value.string.clone()
        } else {
            String::new()
        }
    }

    /// Reads an usize value.
    pub fn read_usize(&mut self) -> (r: usize)
        ensures
            (r as u64, final(self)@) == ({
                let (v, r1) = rv_read_uint(old(self)@);
                (v as usize as u64, r1)
            }),
    {
        self.read_type_and_size();
        if self.verify_number_type() {
            self.type_and_value.number as usize
        } else {
            0
        }
    }

    /// Reads an unsigned value.
    pub fn read_uint(&mut self) -> (r: u64)
        ensures
            (r, final(self)@) == rv_read_uint(old(self)@),
    {
        self.read_type_and_size();
        if self.verify_number_type() {
            self.type_and_value.number
        } else {
            0
        }
    }

    /// Reads an unsigned value and keeps its lowest byte.
    pub fn read_u8(&mut self) -> (r: u8)
        ensures
            (r, final(self)@) == ({
                let (v, r1) = rv_read_uint(old(self)@);
                (v as u8, r1)
            }),
    {
        let u = self.read_uint();
        u as u8
    }

    /// Reads an unsigned value and keeps its lowest two bytes.
    pub fn read_u16(&mut self) -> (r: u16)
        ensures
            (r, final(self)@) == ({
                let (v, r1) = rv_read_uint(old(self)@);
                (v as u16, r1)
            }),
    {
        let u = self.read_uint();
        u as u16
    }

    /// Reads an unsigned value and keeps its lowest four bytes.
    pub fn read_u32(&mut self) -> (r: u32)
        ensures
            (r, final(self)@) == ({
                let (v, r1) = rv_read_uint(old(self)@);
                (v as u32, r1)
            }),
    {
        let u = self.read_uint();
        u as u32
    }

    /// True once an error occurred.
    pub fn has_error(&self) -> (r: bool)
        ensures
            r == !self@.ok,
    {
        !self.ok
    }
}

// ---------------------------------------------------------------------------
// What a reader gives back of what a writer wrote.
// ---------------------------------------------------------------------------

proof fn lemma_shift_step(v: u64, s: u64)
    requires
        8 <= s <= 56,
    ensures
        ((v >> s) << 8u64) | (((v >> ((s - 8) as u64)) as u8) as u64) == v >> ((s - 8) as u64),
{
    assert(8 <= s <= 56 ==> ((v >> s) << 8u64) | (((v >> ((s - 8) as u64)) as u8) as u64) == v
        >> ((s - 8) as u64)) by (bit_vector);
}

proof fn lemma_type_byte(t: u8, x: u8)
    requires
        t & 0x0Fu8 == 0,
    ensures
        (t | (x & 0x0Fu8)) & 0xF0u8 == t,
        (t | (x & 0x0Fu8)) & 0x0Fu8 == x & 0x0Fu8,
{
    assert(t & 0x0Fu8 == 0 ==> (t | (x & 0x0Fu8)) & 0xF0u8 == t) by (bit_vector);
    assert(t & 0x0Fu8 == 0 ==> (t | (x & 0x0Fu8)) & 0x0Fu8 == x & 0x0Fu8) by (bit_vector);
}

proof fn lemma_low_nibble(v: u64, s: u64)
    requires
        s <= 60,
        v >> s < 16,
    ensures
        (((v >> s) as u8) & 0x0Fu8) as u64 == v >> s,
{
    assert(s <= 60 && v >> s < 16 ==> (((v >> s) as u8) & 0x0Fu8) as u64 == v >> s)
        by (bit_vector);
}

proof fn lemma_tail_bytes_len(v: u64, s: nat)
    requires
        s % 8 == 0,
    ensures
        tail_bytes(v, s).len() == s / 8,
    decreases s,
{
    if s > 0 {
        lemma_tail_bytes_len(v, (s - 8) as nat);
    }
}

#[verifier::spinoff_prover]
proof fn lemma_read_tail(r: ReaderView, v: u64, s: nat)
    requires
        s % 8 == 0,
        s <= 56,
        r.ok,
        r.number == v >> (s as u64),
        r.pos + s / 8 <= r.bytes.len(),
        r.bytes.subrange(r.pos as int, (r.pos + s / 8) as int) == tail_bytes(v, s),
    ensures
        rv_additional(r, s / 8) == (ReaderView { number: v, pos: r.pos + s / 8, ..r }),
    decreases s,
{
    if s == 0 {
        assert(v >> 0u64 == v) by (bit_vector);
    } else {
        let s2 = (s - 8) as nat;
        assert(sat_sub(s, 8) == s2);
        let b = r.bytes[r.pos as int];
        let full = r.bytes.subrange(r.pos as int, (r.pos + s / 8) as int);
        assert(tail_bytes(v, s) == seq![(v >> (s2 as u64)) as u8] + tail_bytes(v, s2));
        assert(b == full[0]);
        assert(b == (v >> (s2 as u64)) as u8);
        lemma_shift_step(v, s as u64);
        let r2 = ReaderView { number: (r.number << 8u64) | (b as u64), pos: r.pos + 1, ..r };
        assert(r2.number == v >> (s2 as u64));
        assert(r2.bytes.subrange(r2.pos as int, (r2.pos + s2 / 8) as int) =~= tail_bytes(v, s2)) by {
            assert(tail_bytes(v, s) =~= seq![b] + tail_bytes(v, s2));
            assert(r.bytes.subrange(r.pos as int, (r.pos + s / 8) as int).subrange(1, (s / 8) as int)
                =~= r2.bytes.subrange(r2.pos as int, (r2.pos + s2 / 8) as int));
        }
        assert(((s / 8) - 1) as nat == s2 / 8);
        lemma_read_tail(r2, v, s2);
    }
}

/// The shift of the highest nibble of a number below 2^60, and facts about it.
proof fn lemma_uint_layout(v: u64)
    requires
        v < 0x1000_0000_0000_0000u64,
    ensures
        ({
            let (t, size) = uint_type_and_size(v);
            let shift = sat_sub(size as nat, 4);
            &&& shift % 8 == 0
            &&& shift <= 56
            &&& size <= 64
            &&& t & 0x0Fu8 == 0
            &&& number_extra_bytes(t) == Some(shift / 8)
            &&& v >> (shift as u64) < 16
        }),
{
    assert(0x20u8 & 0x0Fu8 == 0 && 0x30u8 & 0x0Fu8 == 0 && 0x40u8 & 0x0Fu8 == 0 && 0x50u8
        & 0x0Fu8 == 0 && 0x60u8 & 0x0Fu8 == 0 && 0x70u8 & 0x0Fu8 == 0 && 0x80u8 & 0x0Fu8 == 0
        && 0x90u8 & 0x0Fu8 == 0 && 0xA0u8 & 0x0Fu8 == 0 && 0xB0u8 & 0x0Fu8 == 0 && 0xC0u8
        & 0x0Fu8 == 0) by (bit_vector);
    if v < 0x10u64 {
        assert(v < 0x10u64 ==> v >> 0u64 < 16) by (bit_vector);
    } else if v < 0x1000u64 {
        assert(v < 0x1000u64 ==> v >> 8u64 < 16) by (bit_vector);
    } else if v < 0x10_0000u64 {
        assert(v < 0x10_0000u64 ==> v >> 16u64 < 16) by (bit_vector);
    } else if v < 0x1000_0000u64 {
        assert(v < 0x1000_0000u64 ==> v >> 24u64 < 16) by (bit_vector);
    } else if v < 0x10_0000_0000u64 {
        assert(v < 0x10_0000_0000u64 ==> v >> 32u64 < 16) by (bit_vector);
    } else if v < 0x1000_0000_0000u64 {
        assert(v < 0x1000_0000_0000u64 ==> v >> 40u64 < 16) by (bit_vector);
    } else if v < 0x10_0000_0000_0000u64 {
        assert(v < 0x10_0000_0000_0000u64 ==> v >> 48u64 < 16) by (bit_vector);
    } else {
        assert(v < 0x1000_0000_0000_0000u64 ==> v >> 56u64 < 16) by (bit_vector);
    }
}

/// The bytes at the reader's position start with `a`.
pub open spec fn starts_with(r: ReaderView, a: Seq<u8>) -> bool {
    r.pos + a.len() <= r.bytes.len() && r.bytes.subrange(r.pos as int, (r.pos + a.len()) as int)
        == a
}

/// A number below 2^60 that `write_uint` wrote is read back by `read_uint`, and the
/// reader ends right after it.
pub proof fn lemma_uint_roundtrip(r: ReaderView, v: u64)
    requires
        r.ok,
        v < 0x1000_0000_0000_0000u64,
        starts_with(r, uint_bytes(v)),
    ensures
        rv_read_uint(r).0 == v,
        rv_read_uint(r).1.ok,
        rv_read_uint(r).1.pos == r.pos + uint_bytes(v).len(),
        rv_read_uint(r).1.bytes == r.bytes,
{
    lemma_uint_layout(v);
    let (t, size) = uint_type_and_size(v);
    let shift = sat_sub(size as nat, 4);
    lemma_tail_bytes_len(v, shift);
    let x = (v >> (shift as u64)) as u8;
    let first = t | (x & 0x0Fu8);
    let enc = uint_bytes(v);
    assert(enc == seq![first] + tail_bytes(v, shift));
    assert(r.bytes[r.pos as int] == enc[0]);
    lemma_type_byte(t, x);
    lemma_low_nibble(v, shift as u64);
    let r0 = ReaderView { string: Seq::empty(), ..r };
    let r1 = ReaderView { type_id: t, number: (first & 0x0Fu8) as u64, pos: r.pos + 1, ..r0 };
    assert(r1.number == v >> (shift as u64));
    assert(r1.bytes.subrange(r1.pos as int, (r1.pos + shift / 8) as int) =~= tail_bytes(v, shift)) by {
        assert(enc.subrange(1, enc.len() as int) =~= tail_bytes(v, shift));
        assert(r.bytes.subrange(r.pos as int, (r.pos + enc.len()) as int).subrange(1, enc.len() as int)
            =~= r1.bytes.subrange(r1.pos as int, (r1.pos + shift / 8) as int));
    }
    lemma_read_tail(r1, v, shift);
}

proof fn lemma_length_12bit(len: u64)
    requires
        16 <= len < 4096,
    ensures
        (((((len >> 8u64) as u8) & 0x0Fu8) as nat) * 256 + ((len >> 0u64) as u8) as nat) == len,
{
    assert(16 <= len < 4096 ==> ((((len >> 8u64) as u8) & 0x0Fu8) as u64) * 256 + (((len
        >> 0u64) as u8) as u64) == len) by (bit_vector);
}

/// The string item part after its header is read as the text.
proof fn lemma_read_text(r: ReaderView, s: Seq<char>)
    requires
        r.pos + encode_utf8(s).len() <= r.bytes.len(),
        r.bytes.subrange(r.pos as int, (r.pos + encode_utf8(s).len()) as int) == encode_utf8(s),
    ensures
        rv_read_str(r, encode_utf8(s).len()) == (ReaderView {
            string: s,
            pos: r.pos + encode_utf8(s).len(),
            ..r
        }),
{
    broadcast use vstd::utf8::encode_utf8_valid_utf8, vstd::utf8::encode_utf8_decode_utf8;

}

/// A string of less than 4096 UTF-8 bytes that `write_str` wrote is read back by
/// `read_string`, and the reader ends right after it.
pub proof fn lemma_string_roundtrip(r: ReaderView, s: Seq<char>)
    requires
        r.ok,
        encode_utf8(s).len() < 4096,
        starts_with(r, string_bytes(s)),
    ensures
        rv_read_string(r).0 == s,
        rv_read_string(r).1.ok,
        rv_read_string(r).1.pos == r.pos + string_bytes(s).len(),
        rv_read_string(r).1.bytes == r.bytes,
{
    let b = encode_utf8(s);
    let len = b.len();
    let enc = string_bytes(s);
    assert(b.take(written_string_length(len) as int) =~= b);
    assert(0xB0u8 & 0x0Fu8 == 0 && 0xC0u8 & 0x0Fu8 == 0) by (bit_vector);
    let r0 = ReaderView { string: Seq::empty(), ..r };
    if len < 16 {
        let x = ((len as u64) >> 0u64) as u8;
        assert(enc =~= seq![FSM_PROTOCOL_TYPE_STRING_LENGTH_4BIT | (x & 0x0Fu8)] + b);
        assert(r.bytes[r.pos as int] == enc[0]);
        lemma_type_byte(FSM_PROTOCOL_TYPE_STRING_LENGTH_4BIT, x);
        let lu = len as u64;
        assert(lu >> 0u64 == lu) by (bit_vector);
        lemma_low_nibble(lu, 0);
        let r1 = ReaderView {
            type_id: FSM_PROTOCOL_TYPE_STRING_LENGTH_4BIT,
            number: 0,
            pos: r.pos + 1,
            ..r0
        };
        assert(r1.bytes.subrange(r1.pos as int, (r1.pos + len) as int) =~= b) by {
            assert(r.bytes.subrange(r.pos as int, (r.pos + enc.len()) as int).subrange(
                1,
                enc.len() as int,
            ) =~= r1.bytes.subrange(r1.pos as int, (r1.pos + len) as int));
        }
        lemma_read_text(r1, s);
    } else {
        let x = ((len as u64) >> 8u64) as u8;
        let y = ((len as u64) >> 0u64) as u8;
        assert(sat_sub(12, 4) == 8);
        assert(sat_sub(8, 8) == 0);
        assert(tail_bytes(len as u64, 0) =~= Seq::<u8>::empty());
        assert(tail_bytes(len as u64, 8) =~= seq![y]);
        assert(enc =~= seq![FSM_PROTOCOL_TYPE_STRING_LENGTH_12BIT | (x & 0x0Fu8), y] + b);
        assert(r.bytes[r.pos as int] == enc[0]);
        assert(r.bytes[(r.pos + 1) as int] == enc[1]);
        lemma_type_byte(FSM_PROTOCOL_TYPE_STRING_LENGTH_12BIT, x);
        lemma_length_12bit(len as u64);
        let r2 = ReaderView {
            type_id: FSM_PROTOCOL_TYPE_STRING_LENGTH_12BIT,
            number: 0,
            pos: r.pos + 2,
            ..r0
        };
        assert(r2.bytes.subrange(r2.pos as int, (r2.pos + len) as int) =~= b) by {
            assert(r.bytes.subrange(r.pos as int, (r.pos + enc.len()) as int).subrange(
                2,
                enc.len() as int,
            ) =~= r2.bytes.subrange(r2.pos as int, (r2.pos + len) as int));
        }
        lemma_read_text(r2, s);
    }
}

/// A boolean that `write_boolean` wrote is read back by `read_boolean`.
pub proof fn lemma_boolean_roundtrip(r: ReaderView, v: bool)
    requires
        r.ok,
        starts_with(r, bool_bytes(v)),
    ensures
        rv_read_boolean(r).0 == v,
        rv_read_boolean(r).1.ok,
        rv_read_boolean(r).1.pos == r.pos + bool_bytes(v).len(),
        rv_read_boolean(r).1.bytes == r.bytes,
{
    assert(r.bytes[r.pos as int] == r.bytes.subrange(r.pos as int, (r.pos + 1) as int)[0]);
}

/// An optional string (of less than 4096 UTF-8 bytes) that `write_option_string` wrote is
/// read back by `read_option_string`.
pub proof fn lemma_option_string_roundtrip(r: ReaderView, v: Option<Seq<char>>)
    requires
        r.ok,
        v matches Some(s) ==> encode_utf8(s).len() < 4096,
        starts_with(r, option_string_bytes(v)),
    ensures
        rv_read_option_string(r).0 == v,
        rv_read_option_string(r).1.ok,
        rv_read_option_string(r).1.pos == r.pos + option_string_bytes(v).len(),
        rv_read_option_string(r).1.bytes == r.bytes,
{
    match v {
        Some(s) => {
            lemma_string_roundtrip(r, s);
        },
        None => {
            let enc = option_string_bytes(v);
            assert(r.bytes[r.pos as int] == enc[0]);
            assert(FSM_PROTOCOL_TYPE_OPT_STRING_NONE & 0xF0u8 == 0x10u8) by (bit_vector);
        },
    }
}

// ---------------------------------------------------------------------------
// Data values.
// ---------------------------------------------------------------------------

/// A data value as the protocol carries it. A double is carried by its decimal text
/// (the text that `f64` writes and reads); a map is a list of entries in which a later
/// entry for a key replaces an earlier one.
pub enum DataValue {
    Null(),
    Integer(i64),
    Double(String),
    String(String),
    Boolean(bool),
    Array(Vec<DataValue>),
    Dict(Vec<(String, DataValue)>),
}

/// The mathematical value of a `DataValue`.
pub enum DataModel {
    Null,
    Integer(i64),
    Double(Seq<char>),
    String(Seq<char>),
    Boolean(bool),
    Array(Seq<DataModel>),
    Dict(Seq<(Seq<char>, DataModel)>),
}

impl DataValue {
    /// The mathematical value.
    pub open spec fn model(&self) -> DataModel
        decreases self,
    {
        match self {
            DataValue::Null() => DataModel::Null,
            DataValue::Integer(i) => DataModel::Integer(*i),
            DataValue::Double(t) => DataModel::Double(t@),
            DataValue::String(t) => DataModel::String(t@),
            DataValue::Boolean(b) => DataModel::Boolean(*b),
            DataValue::Array(v) => DataModel::Array(item_models(v@)),
            DataValue::Dict(m) => DataModel::Dict(entry_models(m@)),
        }
    }
}

/// The mathematical values of a sequence of data values.
pub open spec fn item_models(s: Seq<DataValue>) -> Seq<DataModel>
    decreases s,
{
    if s.len() == 0 {
        Seq::empty()
    } else {
        item_models(s.drop_last()).push(s.last().model())
    }
}

/// The mathematical values of a sequence of map entries.
pub open spec fn entry_models(s: Seq<(String, DataValue)>) -> Seq<(Seq<char>, DataModel)>
    decreases s,
{
    if s.len() == 0 {
        Seq::empty()
    } else {
        entry_models(s.drop_last()).push((s.last().0@, s.last().1.model()))
    }
}

/// The bytes of a data value: its variant number (0 null, 1 integer, 2 double, 3 string,
/// 4 boolean, 5 array, 6 map) followed by its content.
pub open spec fn data_bytes(d: DataModel) -> Seq<u8>
    decreases d,
{
    match d {
        DataModel::Null => uint_bytes(0),
        DataModel::Integer(i) => uint_bytes(1) + str_item_bytes(i64_text(i)),
        DataModel::Double(t) => uint_bytes(2) + string_bytes(t),
        DataModel::String(t) => uint_bytes(3) + string_bytes(t),
        DataModel::Boolean(b) => uint_bytes(4) + bool_bytes(b),
        DataModel::Array(items) => uint_bytes(5) + uint_bytes(items.len() as u64) + items_bytes(
            items,
        ),
        DataModel::Dict(entries) => uint_bytes(6) + uint_bytes(entries.len() as u64)
            + entries_bytes(entries),
    }
}

/// The bytes of the values of an array, one after the other.
pub open spec fn items_bytes(s: Seq<DataModel>) -> Seq<u8>
    decreases s,
{
    if s.len() == 0 {
        Seq::empty()
    } else {
        items_bytes(s.drop_last()) + data_bytes(s.last())
    }
}

/// The bytes of the entries of a map: each key followed by its value.
pub open spec fn entries_bytes(s: Seq<(Seq<char>, DataModel)>) -> Seq<u8>
    decreases s,
{
    if s.len() == 0 {
        Seq::empty()
    } else {
        entries_bytes(s.drop_last()) + string_bytes(s.last().0) + data_bytes(s.last().1)
    }
}

/// Every string in the value (keys included) can be written.
pub open spec fn data_writable(d: DataModel) -> bool
    decreases d,
{
    match d {
        DataModel::Double(t) => string_writable(t),
        DataModel::String(t) => string_writable(t),
        DataModel::Array(items) => forall|i: int|
            0 <= i < items.len() ==> data_writable(#[trigger] items[i]),
        DataModel::Dict(entries) => forall|i: int|
            0 <= i < entries.len() ==> string_writable(#[trigger] entries[i].0) && data_writable(
                entries[i].1,
            ),
        _ => true,
    }
}

/// Each item of a writable array is writable.
proof fn lemma_item_writable(im: Seq<DataModel>, j: int)
    requires
        data_writable(DataModel::Array(im)),
        0 <= j < im.len(),
    ensures
        data_writable(im[j]),
{
    let d = DataModel::Array(im);
    assert(d is Array);
    assert(d->Array_0 == im);
    assert(forall|i: int| 0 <= i < im.len() ==> data_writable(#[trigger] im[i]));
    assert(data_writable(im[j]));
}

/// Each entry of a writable dictionary has a writable key and value.
proof fn lemma_entry_writable(em: Seq<(Seq<char>, DataModel)>, j: int)
    requires
        data_writable(DataModel::Dict(em)),
        0 <= j < em.len(),
    ensures
        string_writable(em[j].0) && data_writable(em[j].1),
{
    let d = DataModel::Dict(em);
    assert(d is Dict);
    assert(d->Dict_0 == em);
    assert(forall|i: int|
        0 <= i < em.len() ==> string_writable(#[trigger] em[i].0) && data_writable(em[i].1));
    assert(string_writable(em[j].0));
}

/// The keys and values of a writable dictionary are writable.
proof fn lemma_entries_writable(s: Seq<(String, DataValue)>)
    requires
        data_writable(DataModel::Dict(entry_models(s))),
    ensures
        forall|j: int|
            #![trigger s[j]]
            0 <= j < s.len() ==> string_writable(s[j].0@) && data_writable(s[j].1.model()),
{
    lemma_entry_models(s);
    let em = entry_models(s);
    assert forall|j: int| #![trigger s[j]] 0 <= j < s.len() implies string_writable(s[j].0@)
        && data_writable(s[j].1.model()) by {
        assert(em[j] == (s[j].0@, s[j].1.model()));
        lemma_entry_writable(em, j);
    }
}

proof fn lemma_item_models(s: Seq<DataValue>)
    ensures
        item_models(s).len() == s.len(),
        forall|i: int| 0 <= i < s.len() ==> #[trigger] item_models(s)[i] == s[i].model(),
    decreases s.len(),
{
    if s.len() > 0 {
        lemma_item_models(s.drop_last());
        assert forall|i: int| 0 <= i < s.len() implies #[trigger] item_models(s)[i]
            == s[i].model() by {
            if i < s.len() - 1 {
                assert(s.drop_last()[i] == s[i]);
            }
        }
    }
}

proof fn lemma_entry_models(s: Seq<(String, DataValue)>)
    ensures
        entry_models(s).len() == s.len(),
        forall|i: int|
            0 <= i < s.len() ==> #[trigger] entry_models(s)[i] == (s[i].0@, s[i].1.model()),
    decreases s.len(),
{
    if s.len() > 0 {
        lemma_entry_models(s.drop_last());
        assert forall|i: int| 0 <= i < s.len() implies #[trigger] entry_models(s)[i] == (
        s[i].0@,
        s[i].1.model(),
        ) by {
            if i < s.len() - 1 {
                assert(s.drop_last()[i] == s[i]);
            }
        }
    }
}

impl DefaultProtocolWriter {
    /// Writes a data value.
    #[verifier::spinoff_prover]
    pub fn write_data_value(&mut self, value: &DataValue)
        requires
            data_writable(value.model()),
        ensures
            final(self)@ == old(self)@ + data_bytes(value.model()),
        decreases value,
    {
        match value {
            DataValue::Null() => {
                self.write_u8(0);
            },
            DataValue::Integer(v) => {
                self.write_u8(1);
                let text = i64_to_text(*v);
                self.write_str_bytes(text.as_slice());
                assert(self@ =~= old(self)@ + data_bytes(value.model()));
            },
            DataValue::Double(t) => {
                self.write_u8(2);
                self.write_str(t.as_str());
                assert(self@ =~= old(self)@ + data_bytes(value.model()));
            },
            DataValue::String(t) => {
                self.write_u8(3);
                self.write_str(t.as_str());
                assert(self@ =~= old(self)@ + data_bytes(value.model()));
            },
            DataValue::Boolean(b) => {
                self.write_u8(4);
                self.write_boolean(*b);
                assert(self@ =~= old(self)@ + data_bytes(value.model()));
            },
            DataValue::Array(items) => {
                proof {
                    lemma_item_models(items@);
                }
                self.write_u8(5);
                self.write_usize(items.len());
                let ghost start = self@;
                proof {
                    assert forall|j: int| 0 <= j < items@.len() implies data_writable(
                        #[trigger] items@[j].model(),
                    ) by {
                        let im = item_models(items@);
                        assert(value.model() == DataModel::Array(im));
                        lemma_item_writable(im, j);
                        assert(im[j] == items@[j].model());
                    }
                }
                let mut i: usize = 0;
                while i < items.len()
                    invariant
                        i <= items@.len(),
                        forall|j: int|
                            0 <= j < items@.len() ==> data_writable(#[trigger] items@[j].model()),
                        item_models(items@).len() == items@.len(),
                        forall|j: int|
                            0 <= j < items@.len() ==> #[trigger] item_models(items@)[j]
                                == items@[j].model(),
                        self@ == start + items_bytes(item_models(items@.take(i as int))),
                        *value === DataValue::Array(*items),
                    decreases items@.len() - i,
                {
                    proof {
                        assert(data_writable(items@[i as int].model()));
                        assert(decreases_to!(*value => value->Array_0));
                        assert(decreases_to!(*items => items@));
                        assert(decreases_to!(items@ => items@[i as int]));
                    }
                    self.write_data_value(&items[i]);
                    proof {
                        let t = items@.take(i + 1);
                        assert(t.drop_last() =~= items@.take(i as int));
                        assert(t.last() == items@[i as int]);
                        let x = item_models(t);
                        assert(x.drop_last() =~= item_models(items@.take(i as int)));
                        assert(x.last() == items@[i as int].model());
                        assert(items_bytes(x) == items_bytes(x.drop_last()) + data_bytes(x.last()));
                    }
                    i = i + 1;
                }
                proof {
                    assert(items@.take(items@.len() as int) =~= items@);
                }
                assert(self@ =~= old(self)@ + data_bytes(value.model()));
            },
            DataValue::Dict(entries) => {
                proof {
                    lemma_entry_models(entries@);
                }
                self.write_u8(6);
                self.write_usize(entries.len());
                let ghost start = self@;
                proof {
                    assert(value.model() == DataModel::Dict(entry_models(entries@)));
                    lemma_entries_writable(entries@);
                }
                let mut i: usize = 0;
                while i < entries.len()
                    invariant
                        i <= entries@.len(),
                        forall|j: int|
                            #![trigger entries@[j]]
                            0 <= j < entries@.len() ==> string_writable(entries@[j].0@)
                                && data_writable(entries@[j].1.model()),
                        entry_models(entries@).len() == entries@.len(),
                        forall|j: int|
                            0 <= j < entries@.len() ==> #[trigger] entry_models(entries@)[j] == (
                            entries@[j].0@,
                            entries@[j].1.model(),
                            ),
                        self@ == start + entries_bytes(entry_models(entries@.take(i as int))),
                        *value === DataValue::Dict(*entries),
                    decreases entries@.len() - i,
                {
                    proof {
                        assert(string_writable(entries@[i as int].0@) && data_writable(
                            entries@[i as int].1.model(),
                        ));
                        assert(decreases_to!(*value => value->Dict_0));
                        assert(decreases_to!(*entries => entries@));
                        assert(decreases_to!(entries@ => entries@[i as int]));
                        assert(decreases_to!(entries@[i as int] => entries@[i as int].1));
                    }
                    self.write_str(entries[i].0.as_str());
                    self.write_data_value(&entries[i].1);
                    proof {
                        let t = entries@.take(i + 1);
                        assert(t.drop_last() =~= entries@.take(i as int));
                        assert(t.last() == entries@[i as int]);
                        let x = entry_models(t);
                        assert(x.drop_last() =~= entry_models(entries@.take(i as int)));
                        assert(x.last() == (entries@[i as int].0@, entries@[i as int].1.model()));
                        assert(entries_bytes(x) == entries_bytes(x.drop_last()) + string_bytes(
                            x.last().0,
                        ) + data_bytes(x.last().1));
                    }
                    i = i + 1;
                }
                proof {
                    assert(entries@.take(entries@.len() as int) =~= entries@);
                }
                assert(self@ =~= old(self)@ + data_bytes(value.model()));
            },
        }
    }
}

/// The bytes left to read.
pub open spec fn remaining(r: ReaderView) -> nat {
    if r.pos <= r.bytes.len() {
        (r.bytes.len() - r.pos) as nat
    } else {
        0
    }
}

/// Puts an entry into a map: replaces the value of the first entry with the same key,
/// or adds the entry at the end.
pub open spec fn dict_put(s: Seq<(Seq<char>, DataModel)>, k: Seq<char>, v: DataModel) -> Seq<
    (Seq<char>, DataModel),
>
    decreases s.len(),
{
    if s.len() == 0 {
        seq![(k, v)]
    } else if s[0].0 == k {
        seq![(k, v)] + s.drop_first()
    } else {
        seq![s[0]] + dict_put(s.drop_first(), k, v)
    }
}

/// The map that putting the given entries in order gives.
pub open spec fn dict_from(s: Seq<(Seq<char>, DataModel)>) -> Seq<(Seq<char>, DataModel)>
    decreases s.len(),
{
    if s.len() == 0 {
        Seq::empty()
    } else {
        dict_put(dict_from(s.drop_last()), s.last().0, s.last().1)
    }
}

/// Reading a data value: the value, and the reader afterwards. A reader only moves
/// forward; the comparisons of the bytes left are there to make that visible.
pub open spec fn rv_read_data(r: ReaderView) -> (DataModel, ReaderView)
    decreases remaining(r), 0nat, 0nat,
{
    let (w, r1) = rv_read_uint(r);
    let what = w as u8;
    if what == 0 {
        (DataModel::Null, r1)
    } else if what == 1 {
        let (t, r2) = rv_read_string(r1);
        match parse_i64(encode_utf8(t)) {
            Some(v) => (DataModel::Integer(v), r2),
            None => (DataModel::Null, rv_error(r2)),
        }
    } else if what == 2 {
        let (t, r2) = rv_read_string(r1);
        if float_text(encode_utf8(t)) {
            (DataModel::Double(t), r2)
        } else {
            (DataModel::Null, rv_error(r2))
        }
    } else if what == 3 {
        let (t, r2) = rv_read_string(r1);
        (DataModel::String(t), r2)
    } else if what == 4 {
        let (b, r2) = rv_read_boolean(r1);
        (DataModel::Boolean(b), r2)
    } else if what == 5 {
        let (n, r2) = rv_read_uint(r1);
        if remaining(r2) < remaining(r) {
            let (items, r3) = rv_read_items(r2, n as usize as nat);
            (DataModel::Array(items), r3)
        } else {
            (DataModel::Array(Seq::empty()), r2)
        }
    } else if what == 6 {
        let (n, r2) = rv_read_uint(r1);
        if remaining(r2) < remaining(r) {
            let (entries, r3) = rv_read_entries(r2, n as usize as nat);
            (DataModel::Dict(dict_from(entries)), r3)
        } else {
            (DataModel::Dict(Seq::empty()), r2)
        }
    } else {
        (DataModel::Null, rv_error(r1))
    }
}

/// Reading up to `n` values of an array; reading stops after an error.
pub open spec fn rv_read_items(r: ReaderView, n: nat) -> (Seq<DataModel>, ReaderView)
    decreases remaining(r), 1nat, n,
{
    if n == 0 || !r.ok {
        (Seq::empty(), r)
    } else {
        let (d, r1) = rv_read_data(r);
        if remaining(r1) <= remaining(r) {
            let (rest, r2) = rv_read_items(r1, (n - 1) as nat);
            (seq![d] + rest, r2)
        } else {
            (seq![d], r1)
        }
    }
}

/// Reading up to `n` entries (key and value) of a map, in order; reading stops after an error.
pub open spec fn rv_read_entries(r: ReaderView, n: nat) -> (Seq<(Seq<char>, DataModel)>, ReaderView)
    decreases remaining(r), 1nat, n,
{
    if n == 0 || !r.ok {
        (Seq::empty(), r)
    } else {
        let (k, r1) = rv_read_string(r);
        if remaining(r1) <= remaining(r) {
            let (d, r2) = rv_read_data(r1);
            if remaining(r2) <= remaining(r1) {
                let (rest, r3) = rv_read_entries(r2, (n - 1) as nat);
                (seq![(k, d)] + rest, r3)
            } else {
                (seq![(k, d)], r2)
            }
        } else {
            (Seq::empty(), r1)
        }
    }
}

/// Reading more number bytes keeps the input and never moves back or past the end.
proof fn lemma_additional_mono(r: ReaderView, length: nat)
    requires
        r.pos <= r.bytes.len(),
    ensures
        rv_additional(r, length).bytes == r.bytes,
        r.pos <= rv_additional(r, length).pos <= r.bytes.len(),
    decreases length,
{
    if length > 0 && r.ok && r.pos < r.bytes.len() {
        lemma_additional_mono(
            ReaderView {
                number: (r.number << 8u64) | (r.bytes[r.pos as int] as u64),
                pos: r.pos + 1,
                ..r
            },
            (length - 1) as nat,
        );
    }
}

/// The reads of single items keep the input, never move back or past the end, and a
/// number other than 0 was read from at least one byte.
proof fn lemma_item_reads_mono(r: ReaderView)
    requires
        r.pos <= r.bytes.len(),
    ensures
        rv_type_and_size(r).bytes == r.bytes,
        r.pos <= rv_type_and_size(r).pos <= r.bytes.len(),
        rv_read_uint(r).1.bytes == r.bytes,
        r.pos <= rv_read_uint(r).1.pos <= r.bytes.len(),
        rv_read_uint(r).0 != 0 ==> remaining(rv_read_uint(r).1) < remaining(r),
        rv_read_string(r).1.bytes == r.bytes,
        r.pos <= rv_read_string(r).1.pos <= r.bytes.len(),
        rv_read_boolean(r).1.bytes == r.bytes,
        r.pos <= rv_read_boolean(r).1.pos <= r.bytes.len(),
{
    if r.ok && r.pos < r.bytes.len() {
        let r0 = ReaderView { string: Seq::empty(), ..r };
        let val = r0.bytes[r0.pos as int];
        let r1 = ReaderView { pos: r0.pos + 1, ..r0 };
        let hi = val & 0xF0u8;
        if number_extra_bytes(hi) is Some {
            lemma_additional_mono(
                ReaderView { type_id: hi, number: (val & 0x0Fu8) as u64, ..r1 },
                number_extra_bytes(hi)->0,
            );
        }
    }
}

/// Reading data values keeps the input and never moves back or past the end.
proof fn lemma_data_mono(r: ReaderView)
    requires
        r.pos <= r.bytes.len(),
    ensures
        rv_read_data(r).1.bytes == r.bytes,
        r.pos <= rv_read_data(r).1.pos <= r.bytes.len(),
    decreases remaining(r), 0nat, 0nat,
{
    lemma_item_reads_mono(r);
    let (w, r1) = rv_read_uint(r);
    lemma_item_reads_mono(r1);
    let what = w as u8;
    if what == 5 || what == 6 {
        let (n, r2) = rv_read_uint(r1);
        if remaining(r2) < remaining(r) {
            if what == 5 {
                lemma_items_mono(r2, n as usize as nat);
            } else {
                lemma_entries_mono(r2, n as usize as nat);
            }
        }
    }
}

proof fn lemma_items_mono(r: ReaderView, n: nat)
    requires
        r.pos <= r.bytes.len(),
    ensures
        rv_read_items(r, n).1.bytes == r.bytes,
        r.pos <= rv_read_items(r, n).1.pos <= r.bytes.len(),
    decreases remaining(r), 1nat, n,
{
    if n > 0 && r.ok {
        lemma_data_mono(r);
        let (d, r1) = rv_read_data(r);
        lemma_items_mono(r1, (n - 1) as nat);
    }
}

proof fn lemma_entries_mono(r: ReaderView, n: nat)
    requires
        r.pos <= r.bytes.len(),
    ensures
        rv_read_entries(r, n).1.bytes == r.bytes,
        r.pos <= rv_read_entries(r, n).1.pos <= r.bytes.len(),
    decreases remaining(r), 1nat, n,
{
    if n > 0 && r.ok {
        lemma_item_reads_mono(r);
        let (k, r1) = rv_read_string(r);
        lemma_data_mono(r1);
        let (d, r2) = rv_read_data(r1);
        lemma_entries_mono(r2, (n - 1) as nat);
    }
}

/// Putting an entry replaces the first entry with the same key, or appends it.
proof fn lemma_dict_put(s: Seq<(Seq<char>, DataModel)>, k: Seq<char>, v: DataModel, j: int)
    requires
        0 <= j <= s.len(),
        forall|i: int| 0 <= i < j ==> s[i].0 != k,
        j < s.len() ==> s[j].0 == k,
    ensures
        dict_put(s, k, v) == if j < s.len() {
            s.update(j, (k, v))
        } else {
            s.push((k, v))
        },
    decreases s.len(),
{
    if s.len() > 0 && j > 0 {
        lemma_dict_put(s.drop_first(), k, v, j - 1);
        if j < s.len() {
            assert(dict_put(s, k, v) =~= s.update(j, (k, v)));
        } else {
            assert(dict_put(s, k, v) =~= s.push((k, v)));
        }
    } else if s.len() > 0 {
        assert(dict_put(s, k, v) =~= s.update(j, (k, v)));
    }
}

/// Puts an entry into a map held as a list of entries.
fn put_entry(entries: &mut Vec<(String, DataValue)>, k: String, v: DataValue)
    ensures
        entry_models(final(entries)@) == dict_put(entry_models(old(entries)@), k@, v.model()),
{
    proof {
        lemma_entry_models(entries@);
    }
    let ghost km = k@;
    let ghost vm = v.model();
    let ghost old_models = entry_models(entries@);
    let mut j: usize = 0;
    while j < entries.len()
        invariant
            j <= entries@.len(),
            entries@ == old(entries)@,
            old_models == entry_models(entries@),
            old_models.len() == entries@.len(),
            forall|i: int|
                0 <= i < entries@.len() ==> #[trigger] old_models[i] == (
                entries@[i].0@,
                entries@[i].1.model(),
                ),
            forall|i: int| 0 <= i < j ==> old_models[i].0 != km,
            km == k@,
            vm == v.model(),
        decreases entries@.len() - j,
    {
        if entries[j].0 == k {
            proof {
                lemma_dict_put(old_models, km, vm, j as int);
            }
            entries.set(j, (k, v));
            proof {
                lemma_entry_models(entries@);
                assert(entries@[j as int].0@ == km);
                assert(entries@[j as int].1.model() == vm);
                assert forall|i: int| 0 <= i < entries@.len() && i != j implies entries@[i]
                    == old(entries)@[i] by {}
                assert(entry_models(entries@) =~= old_models.update(j as int, (km, vm)));
            }
            return;
        }
        assert(old_models[j as int].0 != km);
        j = j + 1;
    }
    proof {
        lemma_dict_put(old_models, km, vm, j as int);
    }
    entries.push((k, v));
    proof {
        lemma_entry_models(entries@);
        assert(entry_models(entries@) =~= old_models.push((km, vm)));
    }
}

impl DefaultProtocolReader {
    /// Reads a data value.
    pub fn read_data_value(&mut self) -> (r: DataValue)
        ensures
            (r.model(), final(self)@) == rv_read_data(old(self)@),
        decreases remaining(old(self)@), 0nat, 0nat,
    {
        proof {
            use_type_invariant(&*self);
            lemma_item_reads_mono(self@);
        }
        let ghost r0 = self@;
        let what = self.read_u8();
        let ghost r1 = self@;
        proof {
            use_type_invariant(&*self);
            lemma_item_reads_mono(r1);
        }
        if what == 0 {
            DataValue::Null()
        } else if what == 1 {
            let rv = self.read_string();
            proof {
                broadcast use vstd::utf8::encode_utf8_decode_utf8;

            }
            match text_to_i64(rv.as_str().as_bytes()) {
                Some(val) => DataValue::Integer(val),
                None => {
                    self.error();
                    DataValue::Null()
                },
            }
        } else if what == 2 {
            let rv = self.read_string();
            if is_float_text(rv.as_str().as_bytes()) {
                DataValue::Double(rv)
            } else {
                self.error();
                DataValue::Null()
            }
        } else if what == 3 {
            DataValue::String(self.read_string())
        } else if what == 4 {
            DataValue::Boolean(self.read_boolean())
        } else if what == 5 {
            let len = self.read_usize();
            let ghost r2 = self@;
            proof {
                use_type_invariant(&*self);
                assert(remaining(r2) < remaining(r0));
            }
            let mut val: Vec<DataValue> = Vec::new();
            let mut k: usize = 0;
            while k < len && self.ok
                invariant
                    k <= len,
                    self@.bytes == r0.bytes,
                    self@.pos <= self@.bytes.len(),
                    remaining(self@) <= remaining(r2),
                    remaining(r2) < remaining(r0),
                    rv_read_items(r2, len as nat).0 == item_models(val@) + rv_read_items(
                        self@,
                        (len - k) as nat,
                    ).0,
                    rv_read_items(r2, len as nat).1 == rv_read_items(self@, (len - k) as nat).1,
                    r0 == old(self)@,
                decreases len - k,
            {
                proof {
                    use_type_invariant(&*self);
                    lemma_data_mono(self@);
                }
                let ghost cur = self@;
                let item = self.read_data_value();
                proof {
                    let m = (len - k) as nat;
                    let (rest, end) = rv_read_items(self@, (m - 1) as nat);
                    assert(rv_read_items(cur, m) == (seq![item.model()] + rest, end));
                    assert((val@.push(item)).drop_last() =~= val@);
                    assert(item_models(val@.push(item)) == item_models(val@).push(item.model()));
                    assert(item_models(val@) + (seq![item.model()] + rest) =~= item_models(
                        val@,
                    ).push(item.model()) + rest);
                }
                val.push(item);
                k = k + 1;
            }
            DataValue::Array(val)
        } else if what == 6 {
            let len = self.read_usize();
            let ghost r2 = self@;
            proof {
                use_type_invariant(&*self);
                assert(remaining(r2) < remaining(r0));
            }
            let mut val: Vec<(String, DataValue)> = Vec::new();
            let ghost mut raw: Seq<(Seq<char>, DataModel)> = Seq::empty();
            let mut k: usize = 0;
            while k < len && self.ok
                invariant
                    k <= len,
                    self@.bytes == r0.bytes,
                    self@.pos <= self@.bytes.len(),
                    remaining(self@) <= remaining(r2),
                    remaining(r2) < remaining(r0),
                    rv_read_entries(r2, len as nat).0 == raw + rv_read_entries(
                        self@,
                        (len - k) as nat,
                    ).0,
                    rv_read_entries(r2, len as nat).1 == rv_read_entries(self@, (len - k) as nat).1,
                    entry_models(val@) == dict_from(raw),
                    r0 == old(self)@,
                decreases len - k,
            {
                proof {
                    use_type_invariant(&*self);
                    lemma_item_reads_mono(self@);
                }
                let ghost cur = self@;
                let key = self.read_string();
                proof {
                    use_type_invariant(&*self);
                    lemma_data_mono(self@);
                }
                let item = self.read_data_value();
                proof {
                    let pair = (key@, item.model());
                    let m = (len - k) as nat;
                    let (rest, end) = rv_read_entries(self@, (m - 1) as nat);
                    assert(rv_read_entries(cur, m) == (seq![pair] + rest, end));
                    assert((raw.push(pair)).drop_last() =~= raw);
                    assert(raw + (seq![pair] + rest) =~= raw.push(pair) + rest);
                    raw = raw.push(pair);
                }
                put_entry(&mut val, key, item);
                k = k + 1;
            }
            DataValue::Dict(val)
        } else {
            self.error();
            DataValue::Null()
        }
    }
}

/// Data values that a reader gives back as written: strings and keys of less than 4096
/// UTF-8 bytes, double texts that `f64` accepts, maps without repeated keys, and arrays
/// and maps of fewer than 2^60 entries that fit in `usize`.
pub open spec fn data_roundtrips(d: DataModel) -> bool
    decreases d,
{
    match d {
        DataModel::Double(t) => encode_utf8(t).len() < 4096 && float_text(encode_utf8(t)),
        DataModel::String(t) => encode_utf8(t).len() < 4096,
        DataModel::Array(items) => items.len() < 0x1000_0000_0000_0000 && items.len()
            <= usize::MAX && forall|i: int|
            0 <= i < items.len() ==> data_roundtrips(#[trigger] items[i]),
        DataModel::Dict(entries) => entries.len() < 0x1000_0000_0000_0000 && entries.len()
            <= usize::MAX && (forall|i: int|
            0 <= i < entries.len() ==> encode_utf8(#[trigger] entries[i].0).len() < 4096
                && data_roundtrips(entries[i].1)) && (forall|i: int, j: int|
            0 <= i < j < entries.len() ==> #[trigger] entries[i].0 != #[trigger] entries[j].0),
        _ => true,
    }
}


proof fn lemma_starts_with_split(r: ReaderView, a: Seq<u8>, b: Seq<u8>)
    requires
        starts_with(r, a + b),
    ensures
        starts_with(r, a),
        starts_with(ReaderView { pos: r.pos + a.len(), ..r }, b),
{
    let whole = r.bytes.subrange(r.pos as int, (r.pos + a.len() + b.len()) as int);
    assert(whole.subrange(0, a.len() as int) =~= r.bytes.subrange(
        r.pos as int,
        (r.pos + a.len()) as int,
    ));
    assert((a + b).subrange(0, a.len() as int) =~= a);
    assert(whole.subrange(a.len() as int, (a.len() + b.len()) as int) =~= r.bytes.subrange(
        (r.pos + a.len()) as int,
        (r.pos + a.len() + b.len()) as int,
    ));
    assert((a + b).subrange(a.len() as int, (a.len() + b.len()) as int) =~= b);
}

proof fn lemma_items_bytes_front(s: Seq<DataModel>)
    requires
        s.len() > 0,
    ensures
        items_bytes(s) == data_bytes(s[0]) + items_bytes(s.drop_first()),
    decreases s.len(),
{
    if s.len() == 1 {
        assert(s.drop_last() =~= Seq::<DataModel>::empty());
        assert(s.drop_first() =~= Seq::<DataModel>::empty());
        assert(items_bytes(Seq::<DataModel>::empty()) =~= Seq::<u8>::empty());
        assert(s.last() == s[0]);
        assert(items_bytes(s) =~= data_bytes(s[0]));
    } else {
        lemma_items_bytes_front(s.drop_last());
        assert(s.drop_last().drop_first() =~= s.drop_first().drop_last());
        assert(s.drop_first().last() == s.last());
        assert(items_bytes(s) =~= data_bytes(s[0]) + items_bytes(s.drop_first()));
    }
}

proof fn lemma_entries_bytes_front(s: Seq<(Seq<char>, DataModel)>)
    requires
        s.len() > 0,
    ensures
        entries_bytes(s) == string_bytes(s[0].0) + data_bytes(s[0].1) + entries_bytes(
            s.drop_first(),
        ),
    decreases s.len(),
{
    if s.len() == 1 {
        assert(s.drop_last() =~= Seq::<(Seq<char>, DataModel)>::empty());
        assert(s.drop_first() =~= Seq::<(Seq<char>, DataModel)>::empty());
        assert(entries_bytes(Seq::<(Seq<char>, DataModel)>::empty()) =~= Seq::<u8>::empty());
        assert(s.last() == s[0]);
        assert(entries_bytes(s) =~= string_bytes(s[0].0) + data_bytes(s[0].1));
    } else {
        lemma_entries_bytes_front(s.drop_last());
        assert(s.drop_last().drop_first() =~= s.drop_first().drop_last());
        assert(s.drop_first().last() == s.last());
        assert(entries_bytes(s) =~= string_bytes(s[0].0) + data_bytes(s[0].1) + entries_bytes(
            s.drop_first(),
        ));
    }
}

/// A map without repeated keys is what putting its entries in order gives.
proof fn lemma_dict_from_distinct(s: Seq<(Seq<char>, DataModel)>)
    requires
        forall|i: int, j: int| 0 <= i < j < s.len() ==> #[trigger] s[i].0 != #[trigger] s[j].0,
    ensures
        dict_from(s) == s,
    decreases s.len(),
{
    if s.len() > 0 {
        let p = s.drop_last();
        assert forall|i: int, j: int| 0 <= i < j < p.len() implies #[trigger] p[i].0
            != #[trigger] p[j].0 by {
            assert(p[i] == s[i] && p[j] == s[j]);
        }
        lemma_dict_from_distinct(p);
        assert forall|i: int| 0 <= i < p.len() implies p[i].0 != s.last().0 by {
            assert(p[i] == s[i]);
        }
        lemma_dict_put(p, s.last().0, s.last().1, p.len() as int);
        assert(p.push(s.last()) =~= s);
    }
}

proof fn lemma_nat_digits_len(n: nat, k: nat)
    requires
        n < pow10(k),
        k >= 1,
    ensures
        crate::decimal::nat_digits(n).len() <= k,
    decreases k,
{
    if n >= 10 {
        assert(n / 10 < pow10((k - 1) as nat)) by {
            assert(pow10(k) == 10 * pow10((k - 1) as nat));
        }
        if k >= 2 {
            lemma_nat_digits_len(n / 10, (k - 1) as nat);
        } else {
            assert(pow10(0) == 1);
        }
    }
}

/// 10 to the power of `k`.
pub open spec fn pow10(k: nat) -> nat
    decreases k,
{
    if k == 0 {
        1
    } else {
        10 * pow10((k - 1) as nat)
    }
}

proof fn lemma_i64_text_short(v: i64)
    ensures
        i64_text(v).len() <= 20,
{
    assert(pow10(19) == 10_000_000_000_000_000_000nat) by {
        reveal_with_fuel(pow10, 20);
    }
    if v < 0 {
        lemma_nat_digits_len((-(v as int)) as nat, 19);
    } else {
        lemma_nat_digits_len(v as nat, 19);
    }
}

/// A data value that `write_data_value` wrote is read back by `read_data_value`, and the
/// reader ends right after it.
#[verifier::spinoff_prover]
pub proof fn lemma_data_roundtrip(r: ReaderView, d: DataModel)
    requires
        r.ok,
        data_roundtrips(d),
        starts_with(r, data_bytes(d)),
    ensures
        rv_read_data(r).0 == d,
        rv_read_data(r).1.ok,
        rv_read_data(r).1.pos == r.pos + data_bytes(d).len(),
        rv_read_data(r).1.bytes == r.bytes,
    decreases d,
{
    broadcast use vstd::utf8::decode_utf8_encode_utf8;

    let w: u64 = match d {
        DataModel::Null => 0,
        DataModel::Integer(_) => 1,
        DataModel::Double(_) => 2,
        DataModel::String(_) => 3,
        DataModel::Boolean(_) => 4,
        DataModel::Array(_) => 5,
        DataModel::Dict(_) => 6,
    };
    let rest = data_bytes(d).subrange(uint_bytes(w).len() as int, data_bytes(d).len() as int);
    assert(data_bytes(d) =~= uint_bytes(w) + rest);
    lemma_starts_with_split(r, uint_bytes(w), rest);
    lemma_uint_roundtrip(r, w);
    lemma_item_reads_mono(r);
    let r1 = rv_read_uint(r).1;
    assert(starts_with(r1, rest));
    assert(w as u8 == w);
    match d {
        DataModel::Null => {},
        DataModel::Integer(v) => {
            let b = i64_text(v);
            lemma_i64_text_utf8(v);
            lemma_i64_text_short(v);
            let t = decode_utf8(b);
            assert(encode_utf8(t) == b);
            assert(string_bytes(t) == str_item_bytes(b));
            assert(rest =~= string_bytes(t));
            lemma_string_roundtrip(r1, t);
            lemma_i64_text_roundtrip(v);
        },
        DataModel::Double(t) => {
            assert(rest =~= string_bytes(t));
            lemma_string_roundtrip(r1, t);
        },
        DataModel::String(t) => {
            assert(rest =~= string_bytes(t));
            lemma_string_roundtrip(r1, t);
        },
        DataModel::Boolean(b) => {
            assert(rest =~= bool_bytes(b));
            lemma_boolean_roundtrip(r1, b);
        },
        DataModel::Array(items) => {
            let n = items.len() as u64;
            let tail = items_bytes(items);
            assert(rest =~= uint_bytes(n) + tail);
            lemma_starts_with_split(r1, uint_bytes(n), tail);
            lemma_uint_roundtrip(r1, n);
            lemma_item_reads_mono(r1);
            let r2 = rv_read_uint(r1).1;
            assert(starts_with(r2, tail));
            assert(n as usize as nat == items.len());
            lemma_items_roundtrip(r2, items);
        },
        DataModel::Dict(entries) => {
            let n = entries.len() as u64;
            let tail = entries_bytes(entries);
            assert(rest =~= uint_bytes(n) + tail);
            lemma_starts_with_split(r1, uint_bytes(n), tail);
            lemma_uint_roundtrip(r1, n);
            lemma_item_reads_mono(r1);
            let r2 = rv_read_uint(r1).1;
            assert(starts_with(r2, tail));
            assert(n as usize as nat == entries.len());
            lemma_entries_roundtrip(r2, entries);
            lemma_dict_from_distinct(entries);
        },
    }
}

proof fn lemma_items_roundtrip(r: ReaderView, items: Seq<DataModel>)
    requires
        r.ok,
        forall|i: int| 0 <= i < items.len() ==> data_roundtrips(#[trigger] items[i]),
        starts_with(r, items_bytes(items)),
    ensures
        rv_read_items(r, items.len()).0 == items,
        rv_read_items(r, items.len()).1.ok,
        rv_read_items(r, items.len()).1.pos == r.pos + items_bytes(items).len(),
        rv_read_items(r, items.len()).1.bytes == r.bytes,
    decreases items,
{
    if items.len() > 0 {
        lemma_items_bytes_front(items);
        let first = data_bytes(items[0]);
        let others = items_bytes(items.drop_first());
        lemma_starts_with_split(r, first, others);
        assert(data_roundtrips(items[0]));
        lemma_data_roundtrip(r, items[0]);
        let r1 = rv_read_data(r).1;
        assert(starts_with(r1, others));
        assert forall|i: int| 0 <= i < items.drop_first().len() implies data_roundtrips(
            #[trigger] items.drop_first()[i],
        ) by {
            assert(items.drop_first()[i] == items[i + 1]);
        }
        lemma_items_roundtrip(r1, items.drop_first());
        assert(seq![items[0]] + items.drop_first() =~= items);
    } else {
        assert(items_bytes(items) =~= Seq::<u8>::empty());
    }
}

#[verifier::spinoff_prover]
proof fn lemma_entries_roundtrip(r: ReaderView, entries: Seq<(Seq<char>, DataModel)>)
    requires
        r.ok,
        forall|i: int|
            0 <= i < entries.len() ==> encode_utf8(#[trigger] entries[i].0).len() < 4096
                && data_roundtrips(entries[i].1),
        starts_with(r, entries_bytes(entries)),
    ensures
        rv_read_entries(r, entries.len()).0 == entries,
        rv_read_entries(r, entries.len()).1.ok,
        rv_read_entries(r, entries.len()).1.pos == r.pos + entries_bytes(entries).len(),
        rv_read_entries(r, entries.len()).1.bytes == r.bytes,
    decreases entries,
{
    if entries.len() > 0 {
        lemma_entries_bytes_front(entries);
        let key = string_bytes(entries[0].0);
        let value = data_bytes(entries[0].1);
        let others = entries_bytes(entries.drop_first());
        assert(key + value + others =~= key + (value + others));
        lemma_starts_with_split(r, key, value + others);
        assert(encode_utf8(entries[0].0).len() < 4096);
        lemma_string_roundtrip(r, entries[0].0);
        let r1 = rv_read_string(r).1;
        assert(starts_with(r1, value + others));
        lemma_starts_with_split(r1, value, others);
        lemma_data_roundtrip(r1, entries[0].1);
        let r2 = rv_read_data(r1).1;
        assert(starts_with(r2, others));
        assert forall|i: int| 0 <= i < entries.drop_first().len() implies encode_utf8(
            #[trigger] entries.drop_first()[i].0,
        ).len() < 4096 && data_roundtrips(entries.drop_first()[i].1) by {
            assert(entries.drop_first()[i] == entries[i + 1]);
        }
        lemma_entries_roundtrip(r2, entries.drop_first());
        assert(seq![(entries[0].0, entries[0].1)] + entries.drop_first() =~= entries);
    } else {
        assert(entries_bytes(entries) =~= Seq::<u8>::empty());
    }
}

} // verus!
