//! Goldleaf command blocks: fixed-size blocks that start with the
//! `GLCI` magic on the way in and with `GLCO` on the way out.

use vstd::prelude::*;
use crate::buffer::lemma_read_back_u32;
use crate::buffer::{
    LeReader, LeWriter, utf8_text, read_end, string_bytes_at, string_end_at, string_frame, u32_at,
    u32_le, u64_at, u64_le,
};

verus! {

pub const BLOCK_SIZE: usize = 0x1000;

pub const INPUT_MAGIC: u32 = 0x49434C47;

pub const OUTPUT_MAGIC: u32 = 0x4F434C47;

pub const RESULT_SUCCESS: u32 = 0;

pub const RESULT_EXCEPTION: u32 = 0xBAF1;

pub const RESULT_INVALID_INDEX: u32 = 0xBAF2;

pub const RESULT_INVALID_FILE_MODE: u32 = 0xBAF3;

pub const RESULT_SELECTION_CANCELLED: u32 = 0xBAF4;

pub const RESULT_UNKNOWN_COMMAND: u32 = 0xBAF5;

pub const INVALID_COMMAND_ID: u32 = 0;

pub const PATH_TYPE_INVALID: u32 = 0;

pub const PATH_TYPE_FILE: u32 = 1;

pub const PATH_TYPE_DIRECTORY: u32 = 2;

pub const FILE_MODE_READ: u32 = 1;

pub const FILE_MODE_WRITE: u32 = 2;

pub const FILE_MODE_APPEND: u32 = 3;

/// The header of a response: the output magic and a result code.
pub open spec fn response_header(rc: u32) -> Seq<u8> {
    u32_le(OUTPUT_MAGIC) + u32_le(rc)
}

/// `data` padded with zeros up to `len` bytes; longer data is left whole.
pub open spec fn padded(data: Seq<u8>, len: nat) -> Seq<u8> {
    if data.len() < len {
        data + Seq::new((len - data.len()) as nat, |i: int| 0u8)
    } else {
        data
    }
}

/// `data` padded with zeros up to `len` bytes (it is left whole when it is
/// already that long).
pub fn pad_to(data: Vec<u8>, len: usize) -> (r: Vec<u8>)
    ensures
        r@ == padded(data@, len as nat),
{
    let mut v = data;
    if v.len() < len {
        let ghost start = v@;
        while v.len() < len
            invariant
                start.len() <= v@.len() <= len,
                v@ == start + Seq::new((v@.len() - start.len()) as nat, |i: int| 0u8),
            decreases len - v@.len(),
        {
            v.push(0u8);
            assert(v@ =~= start + Seq::new((v@.len() - start.len()) as nat, |i: int| 0u8));
        }
    }
    v
}

/// A received block being read, and the response being written.
pub struct CommandBlock {
    reader: LeReader,
    writer: LeWriter,
}

impl CommandBlock {
    /// The bytes of the received block.
    pub closed spec fn input(self) -> Seq<u8> {
        self.reader.bytes()
    }

    /// How much of the received block has been read.
    pub closed spec fn cursor(self) -> nat {
        self.reader.position()
    }

    /// The response written so far.
    pub closed spec fn output(self) -> Seq<u8> {
        self.writer.buf@
    }

    pub fn from(inner: Vec<u8>) -> (b: Self)
        ensures
            b.input() == inner@,
            b.cursor() == 0,
            b.cursor() <= b.input().len(),
            b.output() == Seq::<u8>::empty(),
    {
        CommandBlock { reader: LeReader::new(inner), writer: LeWriter::new(BLOCK_SIZE) }
    }

    /// Reads the magic; when it is `GLCI`, reads and returns the command id.
    pub fn validate(&mut self) -> (r: Option<u32>)
        ensures
            final(self).input() == old(self).input(),
            old(self).cursor() <= final(self).cursor() <= final(self).input().len(),
            final(self).output() == old(self).output(),
            ({
                let data = old(self).input();
                let p = old(self).cursor();
                let after_magic = read_end(data, p, 4);
                if u32_at(data, p) == INPUT_MAGIC {
                    &&& r == Some(u32_at(data, after_magic))
                    &&& final(self).cursor() == read_end(data, after_magic, 4)
                } else {
                    &&& r.is_none()
                    &&& final(self).cursor() == after_magic
                }
            }),
    {
        let magic = self.reader.read_u32();
        if magic == INPUT_MAGIC {
            Some(self.reader.read_u32())
        } else {
            None
        }
    }

    pub fn read_u32(&mut self) -> (r: u32)
        ensures
            r == u32_at(old(self).input(), old(self).cursor()),
            final(self).cursor() == read_end(old(self).input(), old(self).cursor(), 4),
            old(self).cursor() <= final(self).cursor() <= final(self).input().len(),
            final(self).input() == old(self).input(),
            final(self).output() == old(self).output(),
    {
        self.reader.read_u32()
    }

    pub fn read_u64(&mut self) -> (r: u64)
        ensures
            r == u64_at(old(self).input(), old(self).cursor()),
            final(self).cursor() == read_end(old(self).input(), old(self).cursor(), 8),
            old(self).cursor() <= final(self).cursor() <= final(self).input().len(),
            final(self).input() == old(self).input(),
            final(self).output() == old(self).output(),
    {
        self.reader.read_u64()
    }

    pub fn read_string(&mut self) -> (s: String)
        ensures
            s@ == utf8_text(string_bytes_at(old(self).input(), old(self).cursor())),
            final(self).cursor() == string_end_at(old(self).input(), old(self).cursor()),
            old(self).cursor() <= final(self).cursor() <= final(self).input().len(),
            final(self).input() == old(self).input(),
            final(self).output() == old(self).output(),
    {
        self.reader.read_string()
    }

    pub fn write_u32(&mut self, v: u32)
        ensures
            final(self).output() == old(self).output() + u32_le(v),
            final(self).input() == old(self).input(),
            final(self).cursor() == old(self).cursor(),
    {
        self.writer.push_u32(v);
    }

    pub fn write_u64(&mut self, v: u64)
        ensures
            final(self).output() == old(self).output() + u64_le(v),
            final(self).input() == old(self).input(),
            final(self).cursor() == old(self).cursor(),
    {
        self.writer.push_u64(v);
    }

    pub fn write_string(&mut self, s: &str)
        ensures
            final(self).output() == old(self).output() + string_frame(s@),
            final(self).input() == old(self).input(),
            final(self).cursor() == old(self).cursor(),
    {
        self.writer.push_string(s);
    }

    /// Starts a successful response.
    pub fn response_start(&mut self)
        ensures
            final(self).output() == old(self).output() + response_header(RESULT_SUCCESS),
            final(self).input() == old(self).input(),
            final(self).cursor() == old(self).cursor(),
    {
        self.writer.push_u32(OUTPUT_MAGIC);
        self.writer.push_u32(RESULT_SUCCESS);
        assert(self.writer.buf@ =~= old(self).writer.buf@ + response_header(RESULT_SUCCESS));
    }

    /// The block to send: the response padded with zeros to a full block.
    pub fn response_end(&self) -> (r: Vec<u8>)
        ensures
            r@ == padded(self.output(), BLOCK_SIZE as nat),
    {
        let mut copy: Vec<u8> = Vec::new();
        let mut i: usize = 0;
        while i < self.writer.buf.len()
            invariant
                i <= self.writer.buf@.len(),
                copy@ == self.writer.buf@.take(i as int),
            decreases self.writer.buf@.len() - i,
        {
            copy.push(self.writer.buf[i]);
            i += 1;
            assert(copy@ =~= self.writer.buf@.take(i as int));
        }
        assert(self.writer.buf@.take(self.writer.buf@.len() as int) == self.writer.buf@);
        pad_to(copy, BLOCK_SIZE)
    }

    /// A successful response with no payload.
    pub fn respond_empty(&mut self)
        ensures
            final(self).output() == old(self).output() + response_header(RESULT_SUCCESS),
            final(self).input() == old(self).input(),
            final(self).cursor() == old(self).cursor(),
    {
        self.response_start();
    }

    /// A failed response with result code `rc`.
    pub fn respond_failure(&mut self, rc: u32)
        ensures
            final(self).output() == old(self).output() + response_header(rc),
            final(self).input() == old(self).input(),
            final(self).cursor() == old(self).cursor(),
    {
        self.writer.push_u32(OUTPUT_MAGIC);
        self.writer.push_u32(rc);
        assert(self.writer.buf@ =~= old(self).writer.buf@ + response_header(rc));
    }
}


/// A response that fits in a block is sent as one whole block that starts
/// with the output magic and then the result code.
pub proof fn lemma_sent_block(rc: u32, payload: Seq<u8>)
    requires
        8 + payload.len() <= BLOCK_SIZE,
    ensures
        padded(response_header(rc) + payload, BLOCK_SIZE as nat).len() == BLOCK_SIZE,
        u32_at(padded(response_header(rc) + payload, BLOCK_SIZE as nat), 0) == OUTPUT_MAGIC,
        u32_at(padded(response_header(rc) + payload, BLOCK_SIZE as nat), 4) == rc,
{
    let data = padded(response_header(rc) + payload, BLOCK_SIZE as nat);
    let tail = payload + Seq::new((BLOCK_SIZE - 8 - payload.len()) as nat, |i: int| 0u8);
    assert(data =~= Seq::<u8>::empty() + u32_le(OUTPUT_MAGIC) + (u32_le(rc) + tail));
    lemma_read_back_u32(Seq::<u8>::empty(), OUTPUT_MAGIC, u32_le(rc) + tail);
    assert(data =~= u32_le(OUTPUT_MAGIC) + u32_le(rc) + tail);
    lemma_read_back_u32(u32_le(OUTPUT_MAGIC), rc, tail);
}

} // verus!
