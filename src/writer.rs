//! Output that is buffered per task and emitted as one unit: a header line
//! followed by everything written, and nothing at all where nothing was written.

use vstd::prelude::*;
use vstd::utf8::encode_utf8;

verus! {

/// The bytes of `s` followed by a line feed.
pub open spec fn header_line(s: Seq<char>) -> Seq<u8> {
    encode_utf8(s) + seq![10u8]
}

fn header_bytes(header: &String) -> (r: Vec<u8>)
    ensures
        r@ == header_line(header@),
{
    let b = header.as_str().as_bytes();
    let mut r: Vec<u8> = Vec::new();
    let mut i: usize = 0;
    while i < b.len()
        invariant
            b@ == encode_utf8(header@),
            i <= b@.len(),
            r@ == b@.take(i as int),
        decreases b@.len() - i,
    {
        r.push(b[i]);
        i = i + 1;
        assert(r@ =~= b@.take(i as int));
    }
    r.push(10u8);
    assert(r@ =~= header_line(header@));
    r
}

/// Buffers what one task writes, and hands it out as one unit headed by
/// `header`, so that units of different tasks never interleave.
pub struct SynchronizedWriter {
    header: String,
    buf: Vec<u8>,
}

impl SynchronizedWriter {
    pub closed spec fn header(&self) -> Seq<char> {
        self.header@
    }

    /// What has been written and not yet flushed.
    pub closed spec fn pending(&self) -> Seq<u8> {
        self.buf@
    }

    pub fn new(header: String) -> (r: Self)
        ensures
            r.header() == header@,
            r.pending() == Seq::<u8>::empty(),
    {
        SynchronizedWriter { header, buf: Vec::new() }
    }

    /// Buffers `buf`; nothing is emitted yet.
    pub fn write(&mut self, buf: &[u8]) -> (r: usize)
        ensures
            r == buf@.len(),
            final(self).header() == old(self).header(),
            final(self).pending() == old(self).pending() + buf@,
    {
        let mut i: usize = 0;
        while i < buf.len()
            invariant
                i <= buf@.len(),
                self.header@ == old(self).header@,
                self.buf@ == old(self).buf@ + buf@.take(i as int),
            decreases buf@.len() - i,
        {
            self.buf.push(buf[i]);
            i = i + 1;
            assert(self.buf@ =~= old(self).buf@ + buf@.take(i as int));
        }
        assert(buf@.take(buf@.len() as int) =~= buf@);
        buf.len()
    }

    /// Takes the unit to emit: the header line and everything buffered, or
    /// nothing where nothing was buffered. The buffer is empty afterwards.
    pub fn flush(&mut self) -> (r: Vec<u8>)
        ensures
            final(self).header() == old(self).header(),
            final(self).pending() == Seq::<u8>::empty(),
            old(self).pending().len() == 0 ==> r@ == Seq::<u8>::empty(),
            old(self).pending().len() > 0 ==> r@ == header_line(old(self).header())
                + old(self).pending(),
    {
        if self.buf.len() == 0 {
            return Vec::new();
        }
        let mut unit = header_bytes(&self.header);
        unit.append(&mut self.buf);
        unit
    }
}

/// Writes a header line before the first thing written to `writer`, and no
/// header at all where nothing is written.
pub struct LazyWriter<W> {
    writer: W,
    header: String,
    has_printed_header: bool,
}

impl<W> LazyWriter<W> {
    pub closed spec fn header(&self) -> Seq<char> {
        self.header@
    }

    pub closed spec fn has_printed_header(&self) -> bool {
        self.has_printed_header
    }

    pub closed spec fn writer(&self) -> W {
        self.writer
    }

    pub fn new(writer: W, header: String) -> (r: Self)
        ensures
            r.writer() == writer,
            r.header() == header@,
            !r.has_printed_header(),
    {
        LazyWriter { writer, header, has_printed_header: false }
    }

    /// The bytes that writing `buf` sends to the inner writer: the header line
    /// first, the first time only, then `buf`.
    pub fn write(&mut self, buf: &[u8]) -> (r: Vec<u8>)
        ensures
            final(self).header() == old(self).header(),
            final(self).writer() == old(self).writer(),
            final(self).has_printed_header(),
            !old(self).has_printed_header() ==> r@ == header_line(old(self).header()) + buf@,
            old(self).has_printed_header() ==> r@ == buf@,
    {
        let mut out: Vec<u8> = if self.has_printed_header {
            Vec::new()
        } else {
            header_bytes(&self.header)
        };
        self.has_printed_header = true;
        let ghost start = out@;
        let mut i: usize = 0;
        while i < buf.len()
            invariant
                i <= buf@.len(),
                out@ == start + buf@.take(i as int),
            decreases buf@.len() - i,
        {
            out.push(buf[i]);
            i = i + 1;
            assert(out@ =~= start + buf@.take(i as int));
        }
        assert(buf@.take(buf@.len() as int) =~= buf@);
        out
    }

    /// The inner writer.
    pub fn get_mut(&mut self) -> (r: &mut W)
        ensures
            *r == old(self).writer(),
    {
        &mut self.writer
    }
}

} // verus!
