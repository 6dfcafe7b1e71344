//! The narrow byte-stream capability the codec needs: read exactly so many
//! bytes, or write them all, and fail distinctly otherwise. Implemented here
//! over in-memory data; any other source or sink can implement it too.

use vstd::prelude::*;

use byteorder::{BigEndian, ByteOrder};

verus! {

/// Why a read or a write did not go through.
#[derive(Clone, Copy, Debug, PartialEq, Eq, Structural)]
pub enum Error {
    /// The source ran out before the requested bytes were read.
    UnexpectedEof,
    /// The sink took fewer bytes than it was handed.
    WriteFailed,
}

/// A number of four bytes, most significant first.
pub open spec fn be_value(bytes: Seq<u8>) -> int {
    bytes[0] * 0x100_0000 + bytes[1] * 0x1_0000 + bytes[2] * 0x100 + bytes[3]
}

/// The four bytes of a number, most significant first.
pub open spec fn be_bytes(n: u32) -> Seq<u8> {
    seq![
        (n / 0x100_0000) as u8,
        ((n / 0x1_0000) % 0x100) as u8,
        ((n / 0x100) % 0x100) as u8,
        (n % 0x100) as u8,
    ]
}

pub proof fn lemma_be_round_trip(n: u32)
    ensures
        be_bytes(n).len() == 4,
        be_value(be_bytes(n)) == n,
{
    assert((n / 0x100_0000) as u8 as int * 0x100_0000 + ((n / 0x1_0000) % 0x100) as u8 as int
        * 0x1_0000 + ((n / 0x100) % 0x100) as u8 as int * 0x100 + (n % 0x100) as u8 as int == n)
        by (bit_vector);
}

/// `after` is `before` followed by a first part of `data`: none of it, some
/// of it, or all of it.
pub open spec fn extends_with_part(before: Seq<u8>, after: Seq<u8>, data: Seq<u8>) -> bool {
    &&& before.len() <= after.len() <= before.len() + data.len()
    &&& after == before + data.take(after.len() - before.len())
}

/// A first part of `b` after all of `a` is a first part of `a + b`.
pub proof fn lemma_part_after_whole(before: Seq<u8>, a: Seq<u8>, b: Seq<u8>, after: Seq<u8>)
    requires
        extends_with_part(before + a, after, b),
    ensures
        extends_with_part(before, after, a + b),
{
    let k = after.len() - before.len() - a.len();
    assert((a + b).take(a.len() + k) =~= a + b.take(k));
    assert(after =~= before + (a + b).take(after.len() - before.len()));
}

/// A first part of `a` is a first part of `a + b`.
pub proof fn lemma_part_of_longer(before: Seq<u8>, a: Seq<u8>, b: Seq<u8>, after: Seq<u8>)
    requires
        extends_with_part(before, after, a),
    ensures
        extends_with_part(before, after, a + b),
{
    let k = after.len() - before.len();
    assert((a + b).take(k) =~= a.take(k));
}

/// Relies on byteorder's `BigEndian::read_u32`: the four bytes read as one
/// number, most significant first.
#[verifier::external_body]
fn u32_from_be(bytes: &[u8; 4]) -> (r: u32)
    ensures
        r as int == be_value(bytes@),
{
    BigEndian::read_u32(bytes)
}

/// Relies on byteorder's `BigEndian::write_u32`: the number written as four
/// bytes, most significant first.
#[verifier::external_body]
pub(crate) fn u32_to_be(n: u32) -> (r: [u8; 4])
    ensures
        r@ == be_bytes(n),
{
    let mut buf = [0u8; 4];
    BigEndian::write_u32(&mut buf, n);
    buf
}

/// A source of bytes.
pub trait Read {
    /// The bytes this source will still hand out, in order.
    spec fn pending(&self) -> Seq<u8>;

    /// Whether a read of this source fails only for want of pending bytes.
    spec fn faultless(&self) -> bool;

    /// Fills `buf` with the next `buf.len()` bytes, or fails.
    fn read_exact(&mut self, buf: &mut [u8]) -> (r: Result<(), Error>)
        ensures
            final(buf)@.len() == old(buf)@.len(),
            r is Ok ==> {
                &&& old(buf)@.len() <= old(self).pending().len()
                &&& final(buf)@ == old(self).pending().take(old(buf)@.len() as int)
                &&& final(self).pending() == old(self).pending().skip(old(buf)@.len() as int)
            },
            old(self).faultless() ==> {
                &&& final(self).faultless()
                &&& (r is Ok <==> old(buf)@.len() <= old(self).pending().len())
                &&& (r is Err ==> r == Err::<(), Error>(Error::UnexpectedEof))
                &&& (r is Err ==> final(self).pending() == old(self).pending() && final(buf)@
                    == old(buf)@)
            },
    ;

    /// Reads one byte.
    fn read_u8(&mut self) -> (r: Result<u8, Error>)
        ensures
            r is Ok ==> {
                &&& 1 <= old(self).pending().len()
                &&& r->Ok_0 == old(self).pending()[0]
                &&& final(self).pending() == old(self).pending().skip(1)
            },
            old(self).faultless() ==> {
                &&& final(self).faultless()
                &&& (r is Ok <==> 1 <= old(self).pending().len())
                &&& (r is Err ==> r == Err::<u8, Error>(Error::UnexpectedEof))
                &&& (r is Err ==> final(self).pending() == old(self).pending())
            },
    {
        let mut buf = [0u8; 1];
        match self.read_exact(&mut buf) {
            Ok(()) => Ok(buf[0]),
            Err(e) => Err(e),
        }
    }

    /// Reads a big-endian 32-bit number.
    fn read_u32(&mut self) -> (r: Result<u32, Error>)
        ensures
            r is Ok ==> {
                &&& 4 <= old(self).pending().len()
                &&& r->Ok_0 as int == be_value(old(self).pending().take(4))
                &&& final(self).pending() == old(self).pending().skip(4)
            },
            old(self).faultless() ==> {
                &&& final(self).faultless()
                &&& (r is Ok <==> 4 <= old(self).pending().len())
                &&& (r is Err ==> r == Err::<u32, Error>(Error::UnexpectedEof))
                &&& (r is Err ==> final(self).pending() == old(self).pending())
            },
    {
        let mut buf = [0u8; 4];
        match self.read_exact(&mut buf) {
            Ok(()) => Ok(u32_from_be(&buf)),
            Err(e) => Err(e),
        }
    }
}

/// A sink of bytes.
pub trait Write {
    /// The bytes this sink has taken so far, in order.
    spec fn written(&self) -> Seq<u8>;

    /// Whether every write to this sink goes through.
    spec fn faultless(&self) -> bool;

    /// Writes all of `buf`, or fails having taken at most a first part of it.
    fn write_all(&mut self, buf: &[u8]) -> (r: Result<(), Error>)
        ensures
            r is Ok ==> final(self).written() == old(self).written() + buf@,
            r is Err ==> extends_with_part(old(self).written(), final(self).written(), buf@),
            old(self).faultless() ==> r is Ok && final(self).faultless(),
    ;

    /// Writes one byte.
    fn write_u8(&mut self, n: u8) -> (r: Result<(), Error>)
        ensures
            r is Ok ==> final(self).written() == old(self).written().push(n),
            r is Err ==> extends_with_part(old(self).written(), final(self).written(), seq![n]),
            old(self).faultless() ==> r is Ok && final(self).faultless(),
    {
        let buf = [n];
        proof {
            assert(buf@ =~= seq![n]);
        }
        self.write_all(&buf)
    }

    /// Writes a 32-bit number, most significant byte first.
    fn write_u32(&mut self, n: u32) -> (r: Result<(), Error>)
        ensures
            r is Ok ==> final(self).written() == old(self).written() + be_bytes(n),
            r is Err ==> extends_with_part(
                old(self).written(),
                final(self).written(),
                be_bytes(n),
            ),
            old(self).faultless() ==> r is Ok && final(self).faultless(),
    {
        let buf = u32_to_be(n);
        self.write_all(&buf)
    }
}

impl<'a> Read for &'a [u8] {
    open spec fn pending(&self) -> Seq<u8> {
        (*self)@
    }

    open spec fn faultless(&self) -> bool {
        true
    }

    #[verifier::rlimit(40)]
    fn read_exact(&mut self, buf: &mut [u8]) -> (r: Result<(), Error>) {
        let data: &'a [u8] = *self;
        if buf.len() > data.len() {
            return Err(Error::UnexpectedEof);
        }
        let n = buf.len();
        let mut i: usize = 0;
        while i < n
            invariant
                n == buf@.len(),
                n <= data@.len(),
                0 <= i <= n,
                buf@.len() == old(buf)@.len(),
                forall|j: int| 0 <= j < i ==> buf@[j] == data@[j],
            decreases n - i,
        {
            buf[i] = data[i];
            i += 1;
        }
        proof {
            assert(buf@ =~= data@.take(n as int));
        }
        let (_, rest) = data.split_at(n);
        *self = rest;
        proof {
            assert(rest@ =~= data@.skip(n as int));
        }
        Ok(())
    }
}

impl Write for Vec<u8> {
    open spec fn written(&self) -> Seq<u8> {
        self@
    }

    open spec fn faultless(&self) -> bool {
        true
    }

    fn write_all(&mut self, buf: &[u8]) -> (r: Result<(), Error>) {
        let ghost start = self@;
        let mut i: usize = 0;
        while i < buf.len()
            invariant
                0 <= i <= buf@.len(),
                self@ == start + buf@.take(i as int),
            decreases buf@.len() - i,
        {
            self.push(buf[i]);
            i += 1;
            proof {
                assert(self@ =~= start + buf@.take(i as int));
            }
        }
        proof {
            assert(buf@.take(buf@.len() as int) =~= buf@);
        }
        Ok(())
    }
}

/// In-memory data with a position where the next read or write begins.
#[derive(Clone, Debug)]
pub struct Cursor<T> {
    inner: T,
    pos: u64,
}

impl<T> Cursor<T> {
    pub closed spec fn inner_value(&self) -> T {
        self.inner
    }

    pub closed spec fn spec_position(&self) -> u64 {
        self.pos
    }

    pub fn new(inner: T) -> (r: Cursor<T>)
        ensures
            r.inner_value() == inner,
            r.spec_position() == 0,
    {
        Cursor { pos: 0, inner }
    }

    pub fn into_inner(self) -> (r: T)
        ensures
            r == self.inner_value(),
    {
        self.inner
    }

    pub fn get_ref(&self) -> (r: &T)
        ensures
            *r == self.inner_value(),
    {
        &self.inner
    }

    pub fn get_mut(&mut self) -> (r: &mut T)
        ensures
            *r == old(self).inner_value(),
            final(self).inner_value() == *final(r),
            final(self).spec_position() == old(self).spec_position(),
    {
        &mut self.inner
    }

    pub fn position(&self) -> (r: u64)
        ensures
            r == self.spec_position(),
    {
        self.pos
    }

    pub fn set_position(&mut self, pos: u64)
        ensures
            final(self).inner_value() == old(self).inner_value(),
            final(self).spec_position() == pos,
    {
        self.pos = pos;
    }
}

/// Where reading resumes in data of `len` bytes: the position, or the end if
/// the position lies beyond it.
pub open spec fn resume_at(pos: u64, len: nat) -> int {
    if pos < len {
        pos as int
    } else {
        len as int
    }
}

impl Cursor<Vec<u8>> {
    /// Index of the first byte not yet read.
    fn get_buf(&self) -> (r: usize)
        ensures
            r as int == resume_at(self.pos, self.inner@.len()),
    {
        if self.pos < self.inner.len() as u64 {
            self.pos as usize
        } else {
            self.inner.len()
        }
    }
}

impl Read for Cursor<Vec<u8>> {
    /// What follows the position, or nothing if the position lies beyond the
    /// end.
    open spec fn pending(&self) -> Seq<u8> {
        self.inner_value()@.skip(resume_at(self.spec_position(), self.inner_value()@.len()))
    }

    open spec fn faultless(&self) -> bool {
        true
    }

    #[verifier::rlimit(40)]
    fn read_exact(&mut self, buf: &mut [u8]) -> (r: Result<(), Error>) {
        let start = self.get_buf();
        let n = buf.len();
        let len = self.inner.len();
        if n > len - start {
            return Err(Error::UnexpectedEof);
        }
        let mut i: usize = 0;
        while i < n
            invariant
                n == buf@.len(),
                start + n <= len,
                len == self.inner@.len(),
                0 <= i <= n,
                buf@.len() == old(buf)@.len(),
                forall|j: int| 0 <= j < i ==> buf@[j] == self.inner@[start + j],
            decreases n - i,
        {
            buf[i] = self.inner[start + i];
            i += 1;
        }
        let ghost before = self.inner@.skip(start as int);
        proof {
            assert(buf@ =~= before.take(n as int));
        }
        self.pos = (start + n) as u64;
        proof {
            assert(self.inner@.skip(resume_at(self.pos, self.inner@.len())) =~= before.skip(
                n as int,
            ));
        }
        Ok(())
    }
}

impl<'a> Read for Cursor<&'a [u8]> {
    /// What follows the position, or nothing if the position lies beyond the
    /// end.
    open spec fn pending(&self) -> Seq<u8> {
        self.inner_value()@.skip(resume_at(self.spec_position(), self.inner_value()@.len()))
    }

    open spec fn faultless(&self) -> bool {
        true
    }

    #[verifier::rlimit(40)]
    fn read_exact(&mut self, buf: &mut [u8]) -> (r: Result<(), Error>) {
        let len = self.inner.len();
        let start = if self.pos < len as u64 {
            self.pos as usize
        } else {
            len
        };
        let n = buf.len();
        if n > len - start {
            return Err(Error::UnexpectedEof);
        }
        let mut i: usize = 0;
        while i < n
            invariant
                n == buf@.len(),
                start + n <= len,
                len == self.inner@.len(),
                0 <= i <= n,
                buf@.len() == old(buf)@.len(),
                forall|j: int| 0 <= j < i ==> buf@[j] == self.inner@[start + j],
            decreases n - i,
        {
            buf[i] = self.inner[start + i];
            i += 1;
        }
        let ghost before = self.inner@.skip(start as int);
        proof {
            assert(buf@ =~= before.take(n as int));
        }
        self.pos = (start + n) as u64;
        proof {
            assert(self.inner@.skip(resume_at(self.pos, self.inner@.len())) =~= before.skip(
                n as int,
            ));
        }
        Ok(())
    }
}

impl<'a> Write for Cursor<&'a mut [u8]> {
    /// What precedes the position, or the whole slice if the position lies
    /// beyond the end.
    open spec fn written(&self) -> Seq<u8> {
        self.inner_value()@.take(resume_at(self.spec_position(), self.inner_value()@.len()))
    }

    /// A write fails when the slice is full.
    open spec fn faultless(&self) -> bool {
        false
    }

    /// Copies `buf` in at the position, as much of it as fits, and moves the
    /// position past it; fails with `WriteFailed` if not all of it fits.
    #[verifier::rlimit(40)]
    fn write_all(&mut self, buf: &[u8]) -> (r: Result<(), Error>)
        ensures
            ({
                let len = old(self).inner_value()@.len();
                let start = resume_at(old(self).spec_position(), len);
                let fits = buf@.len() <= len - start;
                let k = if fits {
                    buf@.len() as int
                } else {
                    len - start
                };
                &&& (r is Ok <==> fits)
                &&& (r is Err ==> r == Err::<(), Error>(Error::WriteFailed))
                &&& final(self).spec_position() == start + k
                &&& final(self).inner_value()@ == old(self).inner_value()@.take(start) + buf@.take(
                    k,
                ) + old(self).inner_value()@.skip(start + k)
            }),
    {
        let len = self.inner.len();
        let start = if self.pos < len as u64 {
            self.pos as usize
        } else {
            len
        };
        let n = buf.len();
        let room = len - start;
        let k = if n <= room {
            n
        } else {
            room
        };
        let ghost before = self.inner@;
        let mut i: usize = 0;
        while i < k
            invariant
                k <= n,
                n == buf@.len(),
                start + k <= len,
                len == self.inner@.len(),
                len == before.len(),
                0 <= i <= k,
                self.pos == old(self).pos,
                forall|j: int| 0 <= j < start ==> self.inner@[j] == before[j],
                forall|j: int| start + k <= j < len ==> self.inner@[j] == before[j],
                forall|j: int| 0 <= j < i ==> self.inner@[start + j] == buf@[j],
            decreases k - i,
        {
            self.inner[start + i] = buf[i];
            i += 1;
        }
        self.pos = (start + k) as u64;
        proof {
            assert(self.inner@ =~= before.take(start as int) + buf@.take(k as int) + before.skip(
                start + k,
            ));
            assert(self.inner@.take(resume_at(self.pos, self.inner@.len())) =~= before.take(
                start as int,
            ) + buf@.take(k as int));
        }
        if k < n {
            return Err(Error::WriteFailed);
        }
        proof {
            assert(buf@.take(k as int) =~= buf@);
        }
        Ok(())
    }
}

} // verus!
