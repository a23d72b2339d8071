//! A reader and a writer over a log's bytes that keep count of their offset.
use vstd::prelude::*;
use crate::codec::NEWLINE;

verus! {

/// The length of the first line of `d`, its newline included; all of `d`
/// when it holds no newline.
pub open spec fn line_len(d: Seq<u8>) -> nat
    decreases d.len(),
{
    if d.len() == 0 {
        0
    } else if d[0] == NEWLINE {
        1
    } else {
        1 + line_len(d.drop_first())
    }
}

/// The bytes of `d` from offset `pos` on.
pub open spec fn rest_from(d: Seq<u8>, pos: int) -> Seq<u8> {
    if pos < d.len() {
        d.subrange(pos, d.len() as int)
    } else {
        Seq::empty()
    }
}

proof fn lemma_line_len_step(d: Seq<u8>, j: int)
    requires
        0 <= j < d.len(),
    ensures
        d[j] == NEWLINE ==> line_len(d.subrange(j, d.len() as int)) == 1,
        d[j] != NEWLINE ==> line_len(d.subrange(j, d.len() as int)) == 1 + line_len(
            d.subrange(j + 1, d.len() as int),
        ),
{
    assert(d.subrange(j, d.len() as int).drop_first() =~= d.subrange(j + 1, d.len() as int));
}

/// A non-empty run of bytes has a first line of at least one byte, and the
/// line lies within it.
pub proof fn lemma_line_len_bounds(d: Seq<u8>)
    ensures
        line_len(d) <= d.len(),
        d.len() > 0 ==> line_len(d) >= 1,
    decreases d.len(),
{
    if d.len() > 0 && d[0] != NEWLINE {
        lemma_line_len_bounds(d.drop_first());
    }
}

/// Bytes after a newline do not change the first line.
pub proof fn lemma_line_len_append(d: Seq<u8>, e: Seq<u8>)
    requires
        d.len() > 0,
        d.last() == NEWLINE,
    ensures
        line_len(d + e) == line_len(d),
    decreases d.len(),
{
    if d[0] != NEWLINE {
        assert((d + e).drop_first() =~= d.drop_first() + e);
        lemma_line_len_append(d.drop_first(), e);
    }
}

/// A line whose only newline is its last byte is its own first line.
pub proof fn lemma_line_len_of_line(d: Seq<u8>)
    requires
        d.len() > 0,
        d.last() == NEWLINE,
        forall|j: int| 0 <= j < d.len() - 1 ==> d[j] != NEWLINE,
    ensures
        line_len(d) == d.len(),
    decreases d.len(),
{
    if d[0] != NEWLINE {
        lemma_line_len_of_line(d.drop_first());
    }
}

/// Reads a log's bytes, tracking the offset of the next byte to be produced.
pub struct TrackingBufReader {
    data: Vec<u8>,
    pos: u64,
}

impl TrackingBufReader {
    pub closed spec fn data(&self) -> Seq<u8> {
        self.data@
    }

    pub closed spec fn pos(&self) -> u64 {
        self.pos
    }

    /// A reader over the bytes `data`, at offset 0.
    pub fn new(data: Vec<u8>) -> (r: TrackingBufReader)
        ensures
            r.data() == data@,
            r.pos() == 0,
    {
        TrackingBufReader { data, pos: 0 }
    }

    /// The offset of the next byte to be read.
    pub fn position(&self) -> (r: u64)
        ensures
            r == self.pos(),
    {
        self.pos
    }

    /// The number of bytes that the log holds.
    pub fn len(&self) -> (r: u64)
        ensures
            r == self.data().len(),
    {
        self.data.len() as u64
    }

    /// Moves to the absolute offset `pos`.
    pub fn seek(&mut self, pos: u64) -> (r: u64)
        ensures
            r == pos,
            final(self).pos() == pos,
            final(self).data() == old(self).data(),
    {
        self.pos = pos;
        pos
    }

    /// Appends to `buf` the bytes up to and including the next newline (up to
    /// the end where there is none) and moves past them. Returns how many
    /// bytes it read: 0 at the end.
    pub fn read_line(&mut self, buf: &mut Vec<u8>) -> (n: usize)
        ensures
            n == line_len(rest_from(old(self).data(), old(self).pos() as int)),
            final(buf)@ == old(buf)@ + rest_from(old(self).data(), old(self).pos() as int).take(
                n as int,
            ),
            final(self).pos() == old(self).pos() + n,
            final(self).data() == old(self).data(),
    {
        let len = self.data.len();
        if self.pos >= len as u64 {
            return 0;
        }
        let start = self.pos as usize;
        let ghost d = self.data@;
        let mut j: usize = start;
        let mut found = false;
        while j < len && !found
            invariant
                len == d.len(),
                d == self.data@,
                start <= j <= len,
                start < len,
                start == old(self).pos(),
                d == old(self).data(),
                forall|x: int| start <= x < j - 1 ==> d[x] != NEWLINE,
                found ==> j > start && d[j - 1] == NEWLINE,
                !found ==> (forall|x: int| start <= x < j ==> d[x] != NEWLINE),
                found ==> line_len(d.subrange(start as int, len as int)) == j - start,
                !found ==> line_len(d.subrange(start as int, len as int)) == (j - start) + line_len(
                    d.subrange(j as int, len as int),
                ),
                buf@ == old(buf)@ + d.subrange(start as int, j as int),
            decreases len - j,
        {
            let b = self.data[j];
            proof {
                lemma_line_len_step(d, j as int);
            }
            buf.push(b);
            j = j + 1;
            assert(buf@ =~= old(buf)@ + d.subrange(start as int, j as int));
            if b == NEWLINE {
                found = true;
            }
        }
        proof {
            if !found {
                assert(d.subrange(j as int, len as int) =~= Seq::<u8>::empty());
            }
            assert(rest_from(d, start as int).take((j - start) as int) =~= d.subrange(
                start as int,
                j as int,
            ));
        }
        self.pos = j as u64;
        j - start
    }

    /// Reads up to `n` bytes from the current offset and moves past them.
    pub fn read(&mut self, n: usize) -> (r: Vec<u8>)
        ensures
            r@ == rest_from(old(self).data(), old(self).pos() as int).take(
                if n <= rest_from(old(self).data(), old(self).pos() as int).len() {
                    n as int
                } else {
                    rest_from(old(self).data(), old(self).pos() as int).len() as int
                },
            ),
            final(self).pos() == old(self).pos() + r@.len(),
            final(self).data() == old(self).data(),
    {
        let len = self.data.len();
        let mut out: Vec<u8> = Vec::new();
        if self.pos >= len as u64 {
            assert(out@ =~= rest_from(self.data@, self.pos as int).take(0));
            return out;
        }
        let start = self.pos as usize;
        let end: usize = if n <= len - start {
            start + n
        } else {
            len
        };
        let mut j: usize = start;
        while j < end
            invariant
                start <= j <= end <= len,
                len == self.data@.len(),
                out@ == self.data@.subrange(start as int, j as int),
            decreases end - j,
        {
            out.push(self.data[j]);
            j = j + 1;
            assert(out@ =~= self.data@.subrange(start as int, j as int));
        }
        assert(out@ =~= rest_from(self.data@, start as int).take((end - start) as int));
        self.pos = end as u64;
        out
    }

    /// The `length` bytes from offset `start`, or fewer where the log ends
    /// first. The offset does not move.
    pub fn read_at(&self, start: u64, length: u64) -> (r: Vec<u8>)
        ensures
            r@ == (if start >= self.data().len() {
                Seq::<u8>::empty()
            } else if start + length <= self.data().len() {
                self.data().subrange(start as int, start + length)
            } else {
                self.data().subrange(start as int, self.data().len() as int)
            }),
            start + length <= self.data().len() ==> r@ == self.data().subrange(
                start as int,
                start + length,
            ),
    {
        let len = self.data.len();
        let mut out: Vec<u8> = Vec::new();
        if start >= len as u64 {
            assert(out@ =~= Seq::<u8>::empty());
            assert(start + length <= self.data@.len() ==> out@ =~= self.data@.subrange(
                start as int,
                start + length,
            ));
            return out;
        }
        let s = start as usize;
        let end: usize = if length <= (len - s) as u64 {
            s + length as usize
        } else {
            len
        };
        let mut j: usize = s;
        while j < end
            invariant
                s <= j <= end <= len,
                len == self.data@.len(),
                out@ == self.data@.subrange(s as int, j as int),
            decreases end - j,
        {
            out.push(self.data[j]);
            j = j + 1;
            assert(out@ =~= self.data@.subrange(s as int, j as int));
        }
        out
    }

    /// The log grew by `bytes` at its end.
    pub fn append(&mut self, bytes: &[u8])
        ensures
            final(self).data() == old(self).data() + bytes@,
            final(self).pos() == old(self).pos(),
    {
        let mut i: usize = 0;
        while i < bytes.len()
            invariant
                i <= bytes@.len(),
                self.pos == old(self).pos(),
                self.data@ == old(self).data() + bytes@.subrange(0, i as int),
            decreases bytes@.len() - i,
        {
            self.data.push(bytes[i]);
            i = i + 1;
            assert(self.data@ =~= old(self).data() + bytes@.subrange(0, i as int));
        }
        assert(bytes@.subrange(0, i as int) =~= bytes@);
    }
}

/// Buffers bytes for the end of a log, tracking the offset at which the next
/// byte will land.
pub struct TrackingBufWriter {
    buffer: Vec<u8>,
    pos: u64,
}

impl TrackingBufWriter {
    pub closed spec fn buffered(&self) -> Seq<u8> {
        self.buffer@
    }

    pub closed spec fn pos(&self) -> u64 {
        self.pos
    }

    /// A writer for a log that already holds `end` bytes.
    pub fn new(end: u64) -> (r: TrackingBufWriter)
        ensures
            r.pos() == end,
            r.buffered() == Seq::<u8>::empty(),
    {
        TrackingBufWriter { buffer: Vec::new(), pos: end }
    }

    /// The offset at which the next byte will land.
    pub fn position(&self) -> (r: u64)
        ensures
            r == self.pos(),
    {
        self.pos
    }

    /// Buffers all of `buf` and advances the offset by its length.
    pub fn write(&mut self, buf: &[u8]) -> (r: usize)
        requires
            old(self).pos() + buf@.len() <= u64::MAX,
        ensures
            r == buf@.len(),
            final(self).buffered() == old(self).buffered() + buf@,
            final(self).pos() == old(self).pos() + buf@.len(),
    {
        let mut i: usize = 0;
        while i < buf.len()
            invariant
                i <= buf@.len(),
                self.pos == old(self).pos(),
                self.buffer@ == old(self).buffered() + buf@.subrange(0, i as int),
            decreases buf@.len() - i,
        {
            self.buffer.push(buf[i]);
            i = i + 1;
            assert(self.buffer@ =~= old(self).buffered() + buf@.subrange(0, i as int));
        }
        assert(buf@.subrange(0, i as int) =~= buf@);
        self.pos = self.pos + buf.len() as u64;
        buf.len()
    }

    /// Hands over the buffered bytes, in order, and empties the buffer.
    pub fn flush(&mut self) -> (r: Vec<u8>)
        ensures
            r@ == old(self).buffered(),
            final(self).buffered() == Seq::<u8>::empty(),
            final(self).pos() == old(self).pos(),
    {
        let mut out: Vec<u8> = Vec::new();
        out.append(&mut self.buffer);
        out
    }
}

} // verus!
