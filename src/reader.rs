//! A forward cursor over an immutable byte buffer, with the format's
//! primitive reads. A read that would pass the end of the buffer fails and
//! leaves the cursor where it was.
use crate::error::Error;
use crate::wire::{be16_at, be32_at, be64_at, i32s_at, i64s_at, i8s_at};
use vstd::prelude::*;
use vstd::utf8::*;

verus! {

/// Relies on `String::from_utf8`: it accepts a byte vector exactly when the
/// bytes are valid UTF-8, and the string then holds the characters they encode.
#[verifier::external_body]
fn string_from_utf8(bytes: Vec<u8>) -> (r: Option<String>)
    ensures
        match r {
            Some(s) => valid_utf8(bytes@) && s@ == decode_utf8(bytes@),
            None => !valid_utf8(bytes@),
        },
{
    String::from_utf8(bytes).ok()
}

pub struct NbtReader<'a> {
    pub data: &'a [u8],
    pub cursor: usize,
}

impl<'a> NbtReader<'a> {
    /// Whether `n` more bytes can be read from the cursor on.
    pub open spec fn has(&self, n: int) -> bool {
        self.cursor + n <= self.data@.len()
    }

    /// The error of a read that would pass the end of the buffer.
    pub open spec fn end_error(&self) -> Error {
        Error::UnexpectedEndOfInput { offset: self.cursor }
    }

    pub fn new(data: &'a [u8]) -> (r: NbtReader<'a>)
        ensures
            r.data@ == data@,
            r.cursor == 0,
    {
        NbtReader { data, cursor: 0 }
    }

    /// Moves the cursor `n` bytes back.
    pub fn roll_back(&mut self, n: usize)
        requires
            n <= old(self).cursor,
        ensures
            final(self).data == old(self).data,
            final(self).cursor == old(self).cursor - n,
    {
        self.cursor = self.cursor - n;
    }

    /// Moves the cursor `n` bytes on.
    pub fn roll_down(&mut self, n: usize)
        requires
            old(self).cursor + n <= usize::MAX,
        ensures
            final(self).data == old(self).data,
            final(self).cursor == old(self).cursor + n,
    {
        self.cursor = self.cursor + n;
    }

    fn available(&self, n: usize) -> (r: bool)
        ensures
            r == self.has(n as int),
    {
        self.cursor <= self.data.len() && self.data.len() - self.cursor >= n
    }

    pub fn read_u8(&mut self) -> (r: Result<u8, Error>)
        ensures
            final(self).data == old(self).data,
            old(self).has(1) ==> r == Ok::<u8, Error>(old(self).data@[old(self).cursor as int])
                && final(self).cursor == old(self).cursor + 1,
            !old(self).has(1) ==> r == Err::<u8, Error>(old(self).end_error()) && final(self).cursor
                == old(self).cursor,
    {
        if !self.available(1) {
            return Err(Error::UnexpectedEndOfInput { offset: self.cursor });
        }
        let value = self.data[self.cursor];
        self.cursor = self.cursor + 1;
        Ok(value)
    }

    pub fn read_i8(&mut self) -> (r: Result<i8, Error>)
        ensures
            final(self).data == old(self).data,
            old(self).has(1) ==> r == Ok::<i8, Error>(
                old(self).data@[old(self).cursor as int] as i8,
            ) && final(self).cursor == old(self).cursor + 1,
            !old(self).has(1) ==> r == Err::<i8, Error>(old(self).end_error()) && final(self).cursor
                == old(self).cursor,
    {
        match self.read_u8() {
            Ok(b) => Ok(b as i8),
            Err(e) => Err(e),
        }
    }

    /// Reads a big-endian unsigned 16-bit number, the form of a string's length.
    pub fn read_u16(&mut self) -> (r: Result<u16, Error>)
        ensures
            final(self).data == old(self).data,
            old(self).has(2) ==> r == Ok::<u16, Error>(
                be16_at(old(self).data@, old(self).cursor as int),
            ) && final(self).cursor == old(self).cursor + 2,
            !old(self).has(2) ==> r == Err::<u16, Error>(old(self).end_error())
                && final(self).cursor == old(self).cursor,
    {
        if !self.available(2) {
            return Err(Error::UnexpectedEndOfInput { offset: self.cursor });
        }
        let c = self.cursor;
        let value = ((self.data[c] as u16) << 8u16) | (self.data[c + 1] as u16);
        self.cursor = c + 2;
        Ok(value)
    }

    pub fn read_i16(&mut self) -> (r: Result<i16, Error>)
        ensures
            final(self).data == old(self).data,
            old(self).has(2) ==> r == Ok::<i16, Error>(
                be16_at(old(self).data@, old(self).cursor as int) as i16,
            ) && final(self).cursor == old(self).cursor + 2,
            !old(self).has(2) ==> r == Err::<i16, Error>(old(self).end_error())
                && final(self).cursor == old(self).cursor,
    {
        match self.read_u16() {
            Ok(v) => Ok(v as i16),
            Err(e) => Err(e),
        }
    }

    /// Reads a big-endian unsigned 32-bit number.
    pub fn read_u32(&mut self) -> (r: Result<u32, Error>)
        ensures
            final(self).data == old(self).data,
            old(self).has(4) ==> r == Ok::<u32, Error>(
                be32_at(old(self).data@, old(self).cursor as int),
            ) && final(self).cursor == old(self).cursor + 4,
            !old(self).has(4) ==> r == Err::<u32, Error>(old(self).end_error())
                && final(self).cursor == old(self).cursor,
    {
        if !self.available(4) {
            return Err(Error::UnexpectedEndOfInput { offset: self.cursor });
        }
        let c = self.cursor;
        let value = ((self.data[c] as u32) << 24u32) | ((self.data[c + 1] as u32) << 16u32) | ((
        self.data[c + 2] as u32) << 8u32) | (self.data[c + 3] as u32);
        self.cursor = c + 4;
        Ok(value)
    }

    pub fn read_i32(&mut self) -> (r: Result<i32, Error>)
        ensures
            final(self).data == old(self).data,
            old(self).has(4) ==> r == Ok::<i32, Error>(
                be32_at(old(self).data@, old(self).cursor as int) as i32,
            ) && final(self).cursor == old(self).cursor + 4,
            !old(self).has(4) ==> r == Err::<i32, Error>(old(self).end_error())
                && final(self).cursor == old(self).cursor,
    {
        match self.read_u32() {
            Ok(v) => Ok(v as i32),
            Err(e) => Err(e),
        }
    }

    /// Reads a big-endian unsigned 64-bit number.
    pub fn read_u64(&mut self) -> (r: Result<u64, Error>)
        ensures
            final(self).data == old(self).data,
            old(self).has(8) ==> r == Ok::<u64, Error>(
                be64_at(old(self).data@, old(self).cursor as int),
            ) && final(self).cursor == old(self).cursor + 8,
            !old(self).has(8) ==> r == Err::<u64, Error>(old(self).end_error())
                && final(self).cursor == old(self).cursor,
    {
        if !self.available(8) {
            return Err(Error::UnexpectedEndOfInput { offset: self.cursor });
        }
        let c = self.cursor;
        let d = self.data;
        let value = ((d[c] as u64) << 56u64) | ((d[c + 1] as u64) << 48u64) | ((d[c + 2] as u64)
            << 40u64) | ((d[c + 3] as u64) << 32u64) | ((d[c + 4] as u64) << 24u64) | ((d[c
            + 5] as u64) << 16u64) | ((d[c + 6] as u64) << 8u64) | (d[c + 7] as u64);
        self.cursor = c + 8;
        Ok(value)
    }

    pub fn read_i64(&mut self) -> (r: Result<i64, Error>)
        ensures
            final(self).data == old(self).data,
            old(self).has(8) ==> r == Ok::<i64, Error>(
                be64_at(old(self).data@, old(self).cursor as int) as i64,
            ) && final(self).cursor == old(self).cursor + 8,
            !old(self).has(8) ==> r == Err::<i64, Error>(old(self).end_error())
                && final(self).cursor == old(self).cursor,
    {
        match self.read_u64() {
            Ok(v) => Ok(v as i64),
            Err(e) => Err(e),
        }
    }

    /// Reads the bit pattern of a big-endian IEEE-754 binary32 number.
    pub fn read_f32_bits(&mut self) -> (r: Result<u32, Error>)
        ensures
            final(self).data == old(self).data,
            old(self).has(4) ==> r == Ok::<u32, Error>(
                be32_at(old(self).data@, old(self).cursor as int),
            ) && final(self).cursor == old(self).cursor + 4,
            !old(self).has(4) ==> r == Err::<u32, Error>(old(self).end_error())
                && final(self).cursor == old(self).cursor,
    {
        self.read_u32()
    }

    /// Reads the bit pattern of a big-endian IEEE-754 binary64 number.
    pub fn read_f64_bits(&mut self) -> (r: Result<u64, Error>)
        ensures
            final(self).data == old(self).data,
            old(self).has(8) ==> r == Ok::<u64, Error>(
                be64_at(old(self).data@, old(self).cursor as int),
            ) && final(self).cursor == old(self).cursor + 8,
            !old(self).has(8) ==> r == Err::<u64, Error>(old(self).end_error())
                && final(self).cursor == old(self).cursor,
    {
        self.read_u64()
    }

    /// Reads `len` signed bytes.
    pub fn read_i8_array(&mut self, len: usize) -> (r: Result<Vec<i8>, Error>)
        ensures
            final(self).data == old(self).data,
            old(self).has(len as int) ==> (r matches Ok(v) && v@ == i8s_at(
                old(self).data@,
                old(self).cursor as int,
                len as nat,
            ) && final(self).cursor == old(self).cursor + len),
            !old(self).has(len as int) ==> r == Err::<Vec<i8>, Error>(old(self).end_error())
                && final(self).cursor == old(self).cursor,
    {
        if !self.available(len) {
            return Err(Error::UnexpectedEndOfInput { offset: self.cursor });
        }
        let start = self.cursor;
        let mut value: Vec<i8> = Vec::new();
        let mut i: usize = 0;
        while i < len
            invariant
                start + len <= self.data.len(),
                i <= len,
                value@ == i8s_at(self.data@, start as int, i as nat),
            decreases len - i,
        {
            value.push(self.data[start + i] as i8);
            i = i + 1;
            assert(value@ =~= i8s_at(self.data@, start as int, i as nat));
        }
        self.cursor = start + len;
        Ok(value)
    }

    /// Reads `len` big-endian 32-bit ints.
    pub fn read_i32_array(&mut self, len: usize) -> (r: Result<Vec<i32>, Error>)
        ensures
            final(self).data == old(self).data,
            old(self).has(4 * len) ==> (r matches Ok(v) && v@ == i32s_at(
                old(self).data@,
                old(self).cursor as int,
                len as nat,
            ) && final(self).cursor == old(self).cursor + 4 * len),
            !old(self).has(4 * len) ==> r == Err::<Vec<i32>, Error>(old(self).end_error())
                && final(self).cursor == old(self).cursor,
    {
        if !(self.cursor <= self.data.len() && (self.data.len() - self.cursor) / 4 >= len) {
            return Err(Error::UnexpectedEndOfInput { offset: self.cursor });
        }
        let start = self.cursor;
        let ghost d = self.data@;
        let mut value: Vec<i32> = Vec::new();
        let mut i: usize = 0;
        while i < len
            invariant
                self.data@ == d,
                start + 4 * len <= d.len(),
                self.cursor == start + 4 * i,
                i <= len,
                value@ == i32s_at(d, start as int, i as nat),
            decreases len - i,
        {
            let x = self.read_i32();
            match x {
                Ok(x) => value.push(x),
                Err(_) => {
                    proof {
                        assert(false);
                    }
                },
            }
            i = i + 1;
            assert(value@ =~= i32s_at(d, start as int, i as nat));
        }
        Ok(value)
    }

    /// Reads `len` big-endian 64-bit longs.
    pub fn read_i64_array(&mut self, len: usize) -> (r: Result<Vec<i64>, Error>)
        ensures
            final(self).data == old(self).data,
            old(self).has(8 * len) ==> (r matches Ok(v) && v@ == i64s_at(
                old(self).data@,
                old(self).cursor as int,
                len as nat,
            ) && final(self).cursor == old(self).cursor + 8 * len),
            !old(self).has(8 * len) ==> r == Err::<Vec<i64>, Error>(old(self).end_error())
                && final(self).cursor == old(self).cursor,
    {
        if !(self.cursor <= self.data.len() && (self.data.len() - self.cursor) / 8 >= len) {
            return Err(Error::UnexpectedEndOfInput { offset: self.cursor });
        }
        let start = self.cursor;
        let ghost d = self.data@;
        let mut value: Vec<i64> = Vec::new();
        let mut i: usize = 0;
        while i < len
            invariant
                self.data@ == d,
                start + 8 * len <= d.len(),
                self.cursor == start + 8 * i,
                i <= len,
                value@ == i64s_at(d, start as int, i as nat),
            decreases len - i,
        {
            let x = self.read_i64();
            match x {
                Ok(x) => value.push(x),
                Err(_) => {
                    proof {
                        assert(false);
                    }
                },
            }
            i = i + 1;
            assert(value@ =~= i64s_at(d, start as int, i as nat));
        }
        Ok(value)
    }

    /// Reads `len` bytes as a UTF-8 string.
    pub fn read_string(&mut self, len: usize) -> (r: Result<String, Error>)
        ensures
            final(self).data == old(self).data,
            !old(self).has(len as int) ==> r == Err::<String, Error>(old(self).end_error())
                && final(self).cursor == old(self).cursor,
            old(self).has(len as int) ==> ({
                let bytes = old(self).data@.subrange(
                    old(self).cursor as int,
                    old(self).cursor + len,
                );
                if !valid_utf8(bytes) {
                    r == Err::<String, Error>(
                        Error::InvalidUtf8 { offset: old(self).cursor, len },
                    ) && final(self).cursor == old(self).cursor
                } else {
                    r matches Ok(s) && s@ == decode_utf8(bytes) && final(self).cursor
                        == old(self).cursor + len
                }
            }),
    {
        if !self.available(len) {
            return Err(Error::UnexpectedEndOfInput { offset: self.cursor });
        }
        let start = self.cursor;
        let mut bytes: Vec<u8> = Vec::new();
        let mut i: usize = 0;
        while i < len
            invariant
                start + len <= self.data.len(),
                i <= len,
                bytes@ == self.data@.subrange(start as int, start + i),
            decreases len - i,
        {
            bytes.push(self.data[start + i]);
            i = i + 1;
            assert(bytes@ =~= self.data@.subrange(start as int, start + i));
        }
        match string_from_utf8(bytes) {
            Some(s) => {
                self.cursor = start + len;
                Ok(s)
            },
            None => Err(Error::InvalidUtf8 { offset: start, len }),
        }
    }
}

} // verus!
