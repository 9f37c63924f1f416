//! An append-only byte sink with the format's primitive writes, each the
//! mirror image of the matching read. Writing never fails.
use crate::wire::{
    be16_bytes, be32_bytes, be64_bytes, i32s_bytes, i64s_bytes, i8s_bytes, string_bytes,
};
use vstd::prelude::*;
use vstd::utf8::encode_utf8;

verus! {

pub struct NbtWriter {
    pub data: Vec<u8>,
}

impl NbtWriter {
    pub fn new() -> (w: NbtWriter)
        ensures
            w.data@ == Seq::<u8>::empty(),
    {
        NbtWriter { data: Vec::new() }
    }

    /// The bytes written so far.
    pub fn get_data(self) -> (r: Vec<u8>)
        ensures
            r@ == self.data@,
    {
        self.data
    }

    pub fn write_u8(&mut self, value: u8)
        ensures
            final(self).data@ == old(self).data@.push(value),
    {
        self.data.push(value);
    }

    pub fn write_i8(&mut self, value: i8)
        ensures
            final(self).data@ == old(self).data@.push(value as u8),
    {
        self.write_u8(value as u8);
    }

    /// Writes a big-endian unsigned 16-bit number, the form of a string's length.
    pub fn write_u16(&mut self, value: u16)
        ensures
            final(self).data@ == old(self).data@ + be16_bytes(value),
    {
        self.data.push((value >> 8u16) as u8);
        self.data.push(value as u8);
        assert(self.data@ =~= old(self).data@ + be16_bytes(value));
    }

    pub fn write_i16(&mut self, value: i16)
        ensures
            final(self).data@ == old(self).data@ + be16_bytes(value as u16),
    {
        self.write_u16(value as u16);
    }

    /// Writes a big-endian unsigned 32-bit number.
    pub fn write_u32(&mut self, value: u32)
        ensures
            final(self).data@ == old(self).data@ + be32_bytes(value),
    {
        self.data.push((value >> 24u32) as u8);
        self.data.push((value >> 16u32) as u8);
        self.data.push((value >> 8u32) as u8);
        self.data.push(value as u8);
        assert(self.data@ =~= old(self).data@ + be32_bytes(value));
    }

    pub fn write_i32(&mut self, value: i32)
        ensures
            final(self).data@ == old(self).data@ + be32_bytes(value as u32),
    {
        self.write_u32(value as u32);
    }

    /// Writes a big-endian unsigned 64-bit number.
    pub fn write_u64(&mut self, value: u64)
        ensures
            final(self).data@ == old(self).data@ + be64_bytes(value),
    {
        self.data.push((value >> 56u64) as u8);
        self.data.push((value >> 48u64) as u8);
        self.data.push((value >> 40u64) as u8);
        self.data.push((value >> 32u64) as u8);
        self.data.push((value >> 24u64) as u8);
        self.data.push((value >> 16u64) as u8);
        self.data.push((value >> 8u64) as u8);
        self.data.push(value as u8);
        assert(self.data@ =~= old(self).data@ + be64_bytes(value));
    }

    pub fn write_i64(&mut self, value: i64)
        ensures
            final(self).data@ == old(self).data@ + be64_bytes(value as u64),
    {
        self.write_u64(value as u64);
    }

    /// Writes the bit pattern of an IEEE-754 binary32 number, big-endian.
    pub fn write_f32_bits(&mut self, bits: u32)
        ensures
            final(self).data@ == old(self).data@ + be32_bytes(bits),
    {
        self.write_u32(bits);
    }

    /// Writes the bit pattern of an IEEE-754 binary64 number, big-endian.
    pub fn write_f64_bits(&mut self, bits: u64)
        ensures
            final(self).data@ == old(self).data@ + be64_bytes(bits),
    {
        self.write_u64(bits);
    }

    /// Writes the elements of a byte array, without a length.
    pub fn write_i8_array(&mut self, value: &Vec<i8>)
        ensures
            final(self).data@ == old(self).data@ + i8s_bytes(value@),
    {
        let mut i: usize = 0;
        while i < value.len()
            invariant
                i <= value@.len(),
                self.data@ == old(self).data@ + i8s_bytes(value@.take(i as int)),
            decreases value@.len() - i,
        {
            self.write_i8(value[i]);
            i = i + 1;
            assert(i8s_bytes(value@.take(i as int)) =~= i8s_bytes(value@.take(i - 1)).push(
                value@[i - 1] as u8,
            ));
        }
        assert(value@.take(i as int) =~= value@);
    }

    /// Writes the elements of an int array, without a length.
    pub fn write_i32_array(&mut self, value: &Vec<i32>)
        ensures
            final(self).data@ == old(self).data@ + i32s_bytes(value@),
    {
        let mut i: usize = 0;
        while i < value.len()
            invariant
                i <= value@.len(),
                self.data@ == old(self).data@ + i32s_bytes(value@.take(i as int)),
            decreases value@.len() - i,
        {
            self.write_i32(value[i]);
            i = i + 1;
            assert(value@.take(i as int).drop_last() =~= value@.take(i - 1));
        }
        assert(value@.take(i as int) =~= value@);
    }

    /// Writes the elements of a long array, without a length.
    pub fn write_i64_array(&mut self, value: &Vec<i64>)
        ensures
            final(self).data@ == old(self).data@ + i64s_bytes(value@),
    {
        let mut i: usize = 0;
        while i < value.len()
            invariant
                i <= value@.len(),
                self.data@ == old(self).data@ + i64s_bytes(value@.take(i as int)),
            decreases value@.len() - i,
        {
            self.write_i64(value[i]);
            i = i + 1;
            assert(value@.take(i as int).drop_last() =~= value@.take(i - 1));
        }
        assert(value@.take(i as int) =~= value@);
    }

    /// Writes a string: its UTF-8 byte length in two bytes, then the bytes.
    pub fn write_string(&mut self, value: &str)
        requires
            encode_utf8(value@).len() <= u16::MAX,
        ensures
            final(self).data@ == old(self).data@ + string_bytes(value@),
    {
        let bytes = value.as_bytes();
        self.write_u16(bytes.len() as u16);
        let ghost mid = self.data@;
        let mut i: usize = 0;
        while i < bytes.len()
            invariant
                i <= bytes@.len(),
                self.data@ == mid + bytes@.take(i as int),
            decreases bytes@.len() - i,
        {
            self.data.push(bytes[i]);
            i = i + 1;
            assert(self.data@ =~= mid + bytes@.take(i as int));
        }
        assert(bytes@.take(i as int) =~= bytes@);
        assert(self.data@ =~= old(self).data@ + string_bytes(value@));
    }
}

} // verus!
