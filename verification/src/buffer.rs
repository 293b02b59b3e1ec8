//! Little-endian reader and writer for Goldleaf's binary protocol.
//!
//! A reader walks over bytes it owns; reading past the end yields what is
//! there and zeros for the rest. A writer appends.

use vstd::prelude::*;
use vstd::utf8::{decode_utf8, encode_utf8, valid_utf8};

verus! {

broadcast use vstd::utf8::encode_utf8_valid_utf8, vstd::utf8::encode_utf8_decode_utf8;

/// The little-endian value of four bytes.
pub open spec fn le_u32_of(b: Seq<u8>) -> u32
    recommends
        b.len() == 4,
{
    (b[0] + 256 * b[1] + 65536 * b[2] + 16777216 * b[3]) as u32
}

/// The little-endian value of eight bytes.
pub open spec fn le_u64_of(b: Seq<u8>) -> u64
    recommends
        b.len() == 8,
{
    (b[0] + 256 * b[1] + 65536 * b[2] + 16777216 * b[3] + 4294967296 * b[4] + 1099511627776
        * b[5] + 281474976710656 * b[6] + 72057594037927936 * b[7]) as u64
}

/// The four little-endian bytes of `v`.
pub open spec fn u32_le(v: u32) -> Seq<u8> {
    seq![
        (v % 256) as u8,
        ((v / 256) % 256) as u8,
        ((v / 65536) % 256) as u8,
        ((v / 16777216) % 256) as u8,
    ]
}

/// The eight little-endian bytes of `v`.
pub open spec fn u64_le(v: u64) -> Seq<u8> {
    seq![
        (v % 256) as u8,
        ((v / 256) % 256) as u8,
        ((v / 65536) % 256) as u8,
        ((v / 16777216) % 256) as u8,
        ((v / 4294967296) % 256) as u8,
        ((v / 1099511627776) % 256) as u8,
        ((v / 281474976710656) % 256) as u8,
        ((v / 72057594037927936) % 256) as u8,
    ]
}

/// `b` followed by zeros up to length `n`.
pub open spec fn zero_fill(b: Seq<u8>, n: nat) -> Seq<u8> {
    b + Seq::new((n - b.len()) as nat, |i: int| 0u8)
}

/// The end of a read of `n` bytes at `pos`: it stops at the end of `data`.
pub open spec fn read_end(data: Seq<u8>, pos: nat, n: nat) -> nat {
    if pos + n <= data.len() {
        pos + n
    } else {
        data.len()
    }
}

/// The bytes that a read of `n` bytes at `pos` takes.
pub open spec fn taken(data: Seq<u8>, pos: nat, n: nat) -> Seq<u8> {
    data.subrange(pos as int, read_end(data, pos, n) as int)
}

/// The value of a `u32` read at `pos`.
pub open spec fn u32_at(data: Seq<u8>, pos: nat) -> u32 {
    le_u32_of(zero_fill(taken(data, pos, 4), 4))
}

/// The value of a `u64` read at `pos`.
pub open spec fn u64_at(data: Seq<u8>, pos: nat) -> u64 {
    le_u64_of(zero_fill(taken(data, pos, 8), 8))
}

/// The bytes of a string read at `pos`: a `u32` length, then that many bytes.
pub open spec fn string_bytes_at(data: Seq<u8>, pos: nat) -> Seq<u8> {
    taken(data, read_end(data, pos, 4), u32_at(data, pos) as nat)
}

/// The position after a string read at `pos`.
pub open spec fn string_end_at(data: Seq<u8>, pos: nat) -> nat {
    read_end(data, read_end(data, pos, 4), u32_at(data, pos) as nat)
}

/// How a string is framed on the wire: its UTF-8 length as a `u32`
/// (wrapping past `u32::MAX`), then its UTF-8 bytes.
pub open spec fn string_frame(s: Seq<char>) -> Seq<u8> {
    u32_le(encode_utf8(s).len() as u32) + encode_utf8(s)
}

/// The characters that `String::from_utf8_lossy` makes of `bytes`.
pub uninterp spec fn lossy_utf8(bytes: Seq<u8>) -> Seq<char>;

/// `String::from_utf8_lossy`: the bytes as a string, every invalid sequence
/// replaced by U+FFFD. Stated: the result is `lossy_utf8` of the bytes, and
/// on valid UTF-8 it is the decoded text. What replaces an invalid sequence
/// is left unsaid.
#[verifier::external_body]
fn from_utf8_lossy(bytes: &[u8]) -> (s: String)
    ensures
        s@ == lossy_utf8(bytes@),
        valid_utf8(bytes@) ==> s@ == decode_utf8(bytes@),
{
    String::from_utf8_lossy(bytes).into_owned()
}

/// The text that bytes are read as: the decoded characters when the bytes
/// are valid UTF-8, else what `String::from_utf8_lossy` makes of them.
pub open spec fn utf8_text(bytes: Seq<u8>) -> Seq<char> {
    if valid_utf8(bytes) {
        decode_utf8(bytes)
    } else {
        lossy_utf8(bytes)
    }
}

/// A cursor over owned bytes.
pub struct LeReader {
    data: Vec<u8>,
    pos: usize,
}

impl LeReader {
    #[verifier::type_invariant]
    spec fn inv(self) -> bool {
        self.pos <= self.data@.len()
    }

    /// The bytes being read.
    pub closed spec fn bytes(self) -> Seq<u8> {
        self.data@
    }

    /// How many bytes have been consumed.
    pub closed spec fn position(self) -> nat {
        self.pos as nat
    }

    pub fn new(data: Vec<u8>) -> (r: Self)
        ensures
            r.bytes() == data@,
            r.position() == 0,
            r.position() <= r.bytes().len(),
    {
        LeReader { data, pos: 0 }
    }

    pub fn read_u32(&mut self) -> (r: u32)
        ensures
            r == u32_at(old(self).bytes(), old(self).position()),
            final(self).bytes() == old(self).bytes(),
            final(self).position() == read_end(old(self).bytes(), old(self).position(), 4),
            old(self).position() <= final(self).position() <= final(self).bytes().len(),
    {
        proof {
            use_type_invariant(&*self);
        }
        let mut b: Vec<u8> = vec![0u8, 0u8, 0u8, 0u8];
        self.read_into(&mut b);
        proof {
            let t = taken(old(self).bytes(), old(self).position(), 4);
            assert(seq![0u8, 0u8, 0u8, 0u8].skip(t.len() as int) =~= Seq::new(
                (4 - t.len()) as nat,
                |i: int| 0u8,
            ));
            assert(b@ =~= zero_fill(t, 4));
        }
        let v: u32 = b[0] as u32 + 256 * (b[1] as u32) + 65536 * (b[2] as u32) + 16777216 * (
        b[3] as u32);
        v
    }

    pub fn read_u64(&mut self) -> (r: u64)
        ensures
            r == u64_at(old(self).bytes(), old(self).position()),
            final(self).bytes() == old(self).bytes(),
            final(self).position() == read_end(old(self).bytes(), old(self).position(), 8),
            old(self).position() <= final(self).position() <= final(self).bytes().len(),
    {
        proof {
            use_type_invariant(&*self);
        }
        let mut b: Vec<u8> = vec![0u8, 0u8, 0u8, 0u8, 0u8, 0u8, 0u8, 0u8];
        self.read_into(&mut b);
        proof {
            let t = taken(old(self).bytes(), old(self).position(), 8);
            assert(seq![0u8, 0u8, 0u8, 0u8, 0u8, 0u8, 0u8, 0u8].skip(t.len() as int) =~= Seq::new(
                (8 - t.len()) as nat,
                |i: int| 0u8,
            ));
            assert(b@ =~= zero_fill(t, 8));
        }
        let v: u64 = b[0] as u64 + 256 * (b[1] as u64) + 65536 * (b[2] as u64) + 16777216 * (
        b[3] as u64) + 4294967296 * (b[4] as u64) + 1099511627776 * (b[5] as u64)
            + 281474976710656 * (b[6] as u64) + 72057594037927936 * (b[7] as u64);
        v
    }

    /// The next `len` bytes, or as many as are left.
    pub fn read_bytes(&mut self, len: usize) -> (out: Vec<u8>)
        ensures
            out@ == taken(old(self).bytes(), old(self).position(), len as nat),
            final(self).bytes() == old(self).bytes(),
            final(self).position() == read_end(old(self).bytes(), old(self).position(), len as nat),
            old(self).position() <= final(self).position() <= final(self).bytes().len(),
    {
        proof {
            use_type_invariant(&*self);
        }
        let end = if len <= self.data.len() - self.pos {
            self.pos + len
        } else {
            self.data.len()
        };
        let mut out: Vec<u8> = Vec::new();
        let mut i: usize = self.pos;
        while i < end
            invariant
                self.pos <= i <= end <= self.data@.len(),
                out@ == self.data@.subrange(self.pos as int, i as int),
            decreases end - i,
        {
            out.push(self.data[i]);
            i += 1;
            assert(out@ =~= self.data@.subrange(self.pos as int, i as int));
        }
        self.pos = end;
        out
    }

    /// A `u32` length, then that many bytes as UTF-8 (invalid sequences
    /// become U+FFFD).
    pub fn read_string(&mut self) -> (s: String)
        ensures
            s@ == utf8_text(string_bytes_at(old(self).bytes(), old(self).position())),
            final(self).bytes() == old(self).bytes(),
            final(self).position() == string_end_at(old(self).bytes(), old(self).position()),
            old(self).position() <= final(self).position() <= final(self).bytes().len(),
    {
        proof {
            use_type_invariant(&*self);
        }
        let len = self.read_u32() as usize;
        let raw = self.read_bytes(len);
        from_utf8_lossy(raw.as_slice())
    }

    /// Copies as many of the next bytes as fit into `dst`; the rest of `dst`
    /// is left as it was.
    fn read_into(&mut self, dst: &mut Vec<u8>)
        ensures
            final(dst)@ == taken(old(self).bytes(), old(self).position(), old(dst)@.len())
                + old(dst)@.skip(
                taken(old(self).bytes(), old(self).position(), old(dst)@.len()).len() as int,
            ),
            final(self).bytes() == old(self).bytes(),
            final(self).position() == read_end(
                old(self).bytes(),
                old(self).position(),
                old(dst)@.len(),
            ),
    {
        proof {
            use_type_invariant(&*self);
        }
        let n = dst.len();
        let avail = self.data.len() - self.pos;
        if avail == 0 {
            assert(dst@ =~= taken(self.data@, self.pos as nat, n as nat) + dst@.skip(0));
            return;
        }
        let take = if n < avail {
            n
        } else {
            avail
        };
        let pos = self.pos;
        let dlen = self.data.len();
        let mut i: usize = 0;
        while i < take
            invariant
                i <= take <= n == dst@.len() == old(dst)@.len(),
                pos + take <= self.data@.len(),
                dlen == self.data@.len(),
                self.data@ == old(self).data@,
                self.pos == pos,
                forall|j: int| 0 <= j < i ==> dst@[j] == self.data@[pos + j],
                forall|j: int| i <= j < n ==> dst@[j] == old(dst)@[j],
            decreases take - i,
        {
            dst.set(i, self.data[pos + i]);
            i += 1;
        }
        proof {
            let t = taken(self.data@, pos as nat, n as nat);
            assert(read_end(self.data@, pos as nat, n as nat) == pos + take);
            assert(t.len() == take);
            assert forall|j: int| 0 <= j < n implies dst@[j] == (t + old(dst)@.skip(
                take as int,
            ))[j] by {
                let rest = old(dst)@.skip(take as int);
                if j < take {
                    assert(t[j] == self.data@[pos + j]);
                    assert((t + rest)[j] == t[j]);
                } else {
                    assert(rest[j - take] == old(dst)@[j]);
                    assert((t + rest)[j] == rest[j - take]);
                }
            }
            assert(dst@ =~= t + old(dst)@.skip(take as int));
        }
        self.pos = self.pos + take;
    }
}

/// An append-only byte buffer.
pub struct LeWriter {
    pub buf: Vec<u8>,
}

impl LeWriter {
    pub fn new(capacity: usize) -> (w: Self)
        ensures
            w.buf@ == Seq::<u8>::empty(),
    {
        LeWriter { buf: Vec::with_capacity(capacity) }
    }

    pub fn push_u32(&mut self, v: u32)
        ensures
            final(self).buf@ == old(self).buf@ + u32_le(v),
    {
        self.buf.push((v % 256) as u8);
        self.buf.push(((v / 256) % 256) as u8);
        self.buf.push(((v / 65536) % 256) as u8);
        self.buf.push(((v / 16777216) % 256) as u8);
        assert(self.buf@ =~= old(self).buf@ + u32_le(v));
    }

    pub fn push_u64(&mut self, v: u64)
        ensures
            final(self).buf@ == old(self).buf@ + u64_le(v),
    {
        self.buf.push((v % 256) as u8);
        self.buf.push(((v / 256) % 256) as u8);
        self.buf.push(((v / 65536) % 256) as u8);
        self.buf.push(((v / 16777216) % 256) as u8);
        self.buf.push(((v / 4294967296) % 256) as u8);
        self.buf.push(((v / 1099511627776) % 256) as u8);
        self.buf.push(((v / 281474976710656) % 256) as u8);
        self.buf.push(((v / 72057594037927936) % 256) as u8);
        assert(self.buf@ =~= old(self).buf@ + u64_le(v));
    }

    pub fn push_bytes(&mut self, v: &[u8])
        ensures
            final(self).buf@ == old(self).buf@ + v@,
    {
        let mut i: usize = 0;
        while i < v.len()
            invariant
                i <= v@.len(),
                self.buf@ == old(self).buf@ + v@.take(i as int),
            decreases v@.len() - i,
        {
            self.buf.push(v[i]);
            i += 1;
            assert(self.buf@ =~= old(self).buf@ + v@.take(i as int));
        }
        assert(v@.take(v@.len() as int) == v@);
    }

    /// The UTF-8 length as a `u32`, then the UTF-8 bytes.
    pub fn push_string(&mut self, s: &str)
        ensures
            final(self).buf@ == old(self).buf@ + string_frame(s@),
    {
        let raw = s.as_bytes();
        self.push_u32(raw.len() as u32);
        self.push_bytes(raw);
        assert(self.buf@ =~= old(self).buf@ + string_frame(s@));
    }
}

/// A `u32` written little-endian reads back as itself.
pub proof fn lemma_u32_roundtrip(v: u32)
    ensures
        u32_le(v).len() == 4,
        le_u32_of(u32_le(v)) == v,
{
    let b = u32_le(v);
    assert((v % 256) + 256 * ((v / 256) % 256) + 65536 * ((v / 65536) % 256) + 16777216 * ((v
        / 16777216) % 256) == v) by (bit_vector);
}

/// A `u64` written little-endian reads back as itself.
pub proof fn lemma_u64_roundtrip(v: u64)
    ensures
        u64_le(v).len() == 8,
        le_u64_of(u64_le(v)) == v,
{
    assert((v % 256) + 256 * ((v / 256) % 256) + 65536 * ((v / 65536) % 256) + 16777216 * ((v
        / 16777216) % 256) + 4294967296 * ((v / 4294967296) % 256) + 1099511627776 * ((v
        / 1099511627776) % 256) + 281474976710656 * ((v / 281474976710656) % 256)
        + 72057594037927936 * ((v / 72057594037927936) % 256) == v) by (bit_vector);
}


/// A reader reads a `u32` back from the place where a writer put it,
/// whatever stands before and after it.
pub proof fn lemma_read_back_u32(prefix: Seq<u8>, v: u32, suffix: Seq<u8>)
    ensures
        u32_at(prefix + u32_le(v) + suffix, prefix.len()) == v,
        read_end(prefix + u32_le(v) + suffix, prefix.len(), 4) == prefix.len() + 4,
{
    let data = prefix + u32_le(v) + suffix;
    lemma_u32_roundtrip(v);
    assert(taken(data, prefix.len(), 4) =~= u32_le(v));
    assert(zero_fill(u32_le(v), 4) =~= u32_le(v));
}

/// A reader reads a `u64` back from the place where a writer put it.
pub proof fn lemma_read_back_u64(prefix: Seq<u8>, v: u64, suffix: Seq<u8>)
    ensures
        u64_at(prefix + u64_le(v) + suffix, prefix.len()) == v,
        read_end(prefix + u64_le(v) + suffix, prefix.len(), 8) == prefix.len() + 8,
{
    let data = prefix + u64_le(v) + suffix;
    lemma_u64_roundtrip(v);
    assert(taken(data, prefix.len(), 8) =~= u64_le(v));
    assert(zero_fill(u64_le(v), 8) =~= u64_le(v));
}

/// A reader reads a string back from the place where a writer framed it,
/// as long as its UTF-8 length fits the `u32` prefix.
pub proof fn lemma_read_back_string(prefix: Seq<u8>, s: Seq<char>, suffix: Seq<u8>)
    requires
        encode_utf8(s).len() <= u32::MAX,
    ensures
        string_bytes_at(prefix + string_frame(s) + suffix, prefix.len()) == encode_utf8(s),
        valid_utf8(string_bytes_at(prefix + string_frame(s) + suffix, prefix.len())),
        decode_utf8(string_bytes_at(prefix + string_frame(s) + suffix, prefix.len())) == s,
        string_end_at(prefix + string_frame(s) + suffix, prefix.len()) == prefix.len()
            + string_frame(s).len(),
{
    let e = encode_utf8(s);
    let n = e.len() as u32;
    let data = prefix + string_frame(s) + suffix;
    assert(data =~= prefix + u32_le(n) + (e + suffix));
    lemma_read_back_u32(prefix, n, e + suffix);
    assert(n as nat == e.len());
    let p4 = prefix.len() + 4;
    assert(read_end(data, p4, n as nat) == p4 + e.len());
    assert(taken(data, p4, n as nat) =~= e);
}

} // verus!
