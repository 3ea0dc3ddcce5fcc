//! A bounded, cursor-based buffer over one 512-byte datagram.
use vstd::prelude::*;
use crate::error::DnsError;
use vstd::slice::slice_subrange;

verus! {

/// Capacity of a wire buffer, the classic UDP message limit.
pub const BUF_SIZE: usize = 512;

/// The big-endian value of two bytes.
pub open spec fn be16(b0: u8, b1: u8) -> int {
    b0 as int * 256 + b1 as int
}

/// The big-endian value of four bytes.
pub open spec fn be32(b0: u8, b1: u8, b2: u8, b3: u8) -> int {
    be16(b0, b1) * 65536 + be16(b2, b3)
}

/// The two bytes of `v`, most significant first.
pub open spec fn u16_bytes(v: u16) -> Seq<u8> {
    seq![(v / 256) as u8, (v % 256) as u8]
}

/// The four bytes of `v`, most significant first.
pub open spec fn u32_bytes(v: u32) -> Seq<u8> {
    u16_bytes((v / 65536) as u16) + u16_bytes((v % 65536) as u16)
}

/// `b` is `a` with `w` written over it from position `p` on.
pub open spec fn spliced(a: Seq<u8>, b: Seq<u8>, p: int, w: Seq<u8>) -> bool {
    0 <= p && p + w.len() <= a.len() && b == a.take(p) + w + a.skip(p + w.len())
}

/// ASCII lower-casing of one byte.
pub open spec fn lower(b: u8) -> u8 {
    if 65 <= b <= 90 {
        (b + 32) as u8
    } else {
        b
    }
}

/// ASCII lower-casing of a byte string.
pub open spec fn lower_seq(s: Seq<u8>) -> Seq<u8> {
    s.map_values(|b: u8| lower(b))
}

/// The byte `.` that separates labels in a written-out name.
pub const DOT: u8 = 46;

/// Labels joined by dots, with no leading or trailing dot.
pub open spec fn join_labels(ls: Seq<Seq<u8>>) -> Seq<u8>
    decreases ls.len(),
{
    if ls.len() == 0 {
        seq![]
    } else if ls.len() == 1 {
        ls[0]
    } else {
        join_labels(ls.drop_last()) + seq![DOT] + ls.last()
    }
}

/// Length of the label that starts at `i`: the bytes up to the next dot or the end.
pub open spec fn label_len(s: Seq<u8>, i: int) -> nat
    decreases s.len() - i,
{
    if i < 0 || i >= s.len() || s[i] == DOT {
        0
    } else {
        1 + label_len(s, i + 1)
    }
}

/// The dot-separated labels of `s` from position `start` on.
pub open spec fn labels_from(s: Seq<u8>, start: int) -> Seq<Seq<u8>>
    decreases s.len() - start,
{
    if start < 0 || start > s.len() {
        seq![]
    } else {
        let n = label_len(s, start);
        if start + n >= s.len() {
            seq![s.subrange(start, s.len() as int)]
        } else {
            seq![s.subrange(start, start + n)] + labels_from(s, start + n + 1)
        }
    }
}

/// The labels of a dotted name: `"a.b"` has two, `""` has one empty label.
pub open spec fn labels_of(s: Seq<u8>) -> Seq<Seq<u8>> {
    labels_from(s, 0)
}

/// Each label fits the six-bit length field.
pub open spec fn labels_fit(ls: Seq<Seq<u8>>) -> bool {
    forall|i: int| 0 <= i < ls.len() ==> #[trigger] ls[i].len() <= 63
}

/// Length-prefixed labels, without the terminating zero.
pub open spec fn wire_labels(ls: Seq<Seq<u8>>) -> Seq<u8>
    decreases ls.len(),
{
    if ls.len() == 0 {
        seq![]
    } else {
        seq![ls[0].len() as u8] + ls[0] + wire_labels(ls.drop_first())
    }
}

/// The uncompressed wire form of a dotted name.
pub open spec fn wire_name(s: Seq<u8>) -> Seq<u8> {
    wire_labels(labels_of(s)) + seq![0u8]
}

/// The big-endian 16-bit word at `p`.
pub open spec fn u16_at(b: Seq<u8>, p: int) -> u16 {
    be16(b[p], b[p + 1]) as u16
}

/// The big-endian 32-bit word at `p`.
pub open spec fn u32_at(b: Seq<u8>, p: int) -> u32 {
    be32(b[p], b[p + 1], b[p + 2], b[p + 3]) as u32
}

/// Most compression pointers followed while reading one name.
pub const MAX_JUMPS: usize = 5;

/// Reads a possibly compressed name at `p` in `b`, after `jumps` pointers were
/// followed. Gives the lower-cased labels and the position where reading of
/// the enclosing message resumes: past the terminating zero, or past the
/// first pointer met.
pub open spec fn read_name(b: Seq<u8>, p: int, jumps: int) -> Result<(Seq<Seq<u8>>, int), DnsError>
    decreases 6 - jumps, 512 - p,
{
    if jumps > 5 {
        Err(DnsError::JumpLimit)
    } else if p < 0 || p >= 512 || b.len() != 512 {
        Err(DnsError::EndOfBuffer)
    } else {
        let len = b[p];
        if len >= 0xC0 {
            if p + 1 >= 512 {
                Err(DnsError::EndOfBuffer)
            } else {
                let target = (len - 0xC0) * 256 + b[p + 1];
                match read_name(b, target, jumps + 1) {
                    Ok((ls, _)) => Ok((ls, p + 2)),
                    Err(e) => Err(e),
                }
            }
        } else if len == 0 {
            Ok((seq![], p + 1))
        } else if p + 1 + len >= 512 {
            Err(DnsError::EndOfBuffer)
        } else {
            match read_name(b, p + 1 + len, jumps) {
                Ok((ls, end)) => Ok((seq![lower_seq(b.subrange(p + 1, p + 1 + len))] + ls, end)),
                Err(e) => Err(e),
            }
        }
    }
}

/// The name that starts at `p`, as a dotted byte string, and where reading resumes.
pub open spec fn name_at(b: Seq<u8>, p: int) -> Result<(Seq<u8>, int), DnsError> {
    match read_name(b, p, 0) {
        Ok((ls, end)) => Ok((join_labels(ls), end)),
        Err(e) => Err(e),
    }
}

/// Raw bytes of one DNS datagram, with a read/write cursor.
pub struct BytePacketBuffer {
    pub buf: [u8; 512],
    pub pos: usize,
}

impl BytePacketBuffer {
    /// The cursor never passes the end of the buffer.
    pub open spec fn wf(&self) -> bool {
        self.pos <= BUF_SIZE
    }

    /// Contents as a sequence of bytes.
    pub open spec fn bytes(&self) -> Seq<u8> {
        self.buf@
    }

    /// A zeroed buffer with the cursor at the start.
    pub fn new() -> (r: BytePacketBuffer)
        ensures
            r.wf(),
            r.pos == 0,
            r.bytes() == Seq::new(512, |i: int| 0u8),
    {
        let r = BytePacketBuffer { buf: [0u8; 512], pos: 0 };
        assert(r.bytes() =~= Seq::new(512, |i: int| 0u8));
        r
    }

    /// The current cursor.
    pub fn pos(&self) -> (r: usize)
        ensures
            r == self.pos,
    {
        self.pos
    }

    /// Moves the cursor forward by `steps`; fails if that passes the end.
    pub fn steps(&mut self, steps: usize) -> (r: Result<(), DnsError>)
        requires
            old(self).wf(),
        ensures
            final(self).wf(),
            final(self).buf == old(self).buf,
            r.is_ok() == (old(self).pos + steps <= BUF_SIZE),
            r.is_ok() ==> final(self).pos == old(self).pos + steps,
            r.is_err() ==> r == Err::<(), DnsError>(DnsError::EndOfBuffer) && final(self).pos == old(self).pos,
    {
        if steps > BUF_SIZE - self.pos {
            return Err(DnsError::EndOfBuffer);
        }
        self.pos = self.pos + steps;
        Ok(())
    }

    /// Moves the cursor to `pos`; fails if that is past the end.
    pub fn seek(&mut self, pos: usize) -> (r: Result<(), DnsError>)
        requires
            old(self).wf(),
        ensures
            final(self).wf(),
            final(self).buf == old(self).buf,
            r.is_ok() == (pos <= BUF_SIZE),
            r.is_ok() ==> final(self).pos == pos,
            r.is_err() ==> r == Err::<(), DnsError>(DnsError::EndOfBuffer) && final(self).pos == old(self).pos,
    {
        if pos > BUF_SIZE {
            return Err(DnsError::EndOfBuffer);
        }
        self.pos = pos;
        Ok(())
    }

    /// Reads one byte at the cursor and moves past it.
    pub fn read(&mut self) -> (r: Result<u8, DnsError>)
        requires
            old(self).wf(),
        ensures
            final(self).wf(),
            final(self).buf == old(self).buf,
            r.is_ok() == (old(self).pos < BUF_SIZE),
            r.is_ok() ==> r == Ok::<u8, DnsError>(old(self).bytes()[old(self).pos as int])
                && final(self).pos == old(self).pos + 1,
            r.is_err() ==> r == Err::<u8, DnsError>(DnsError::EndOfBuffer) && final(self).pos == old(self).pos,
    {
        if self.pos >= BUF_SIZE {
            return Err(DnsError::EndOfBuffer);
        }
        let b = self.buf[self.pos];
        self.pos = self.pos + 1;
        Ok(b)
    }

    /// The byte at `pos`, without moving the cursor.
    pub fn get(&self, pos: usize) -> (r: Result<u8, DnsError>)
        ensures
            r.is_ok() == (pos < BUF_SIZE),
            r.is_ok() ==> r == Ok::<u8, DnsError>(self.bytes()[pos as int]),
            r.is_err() ==> r == Err::<u8, DnsError>(DnsError::EndOfBuffer),
    {
        if pos >= BUF_SIZE {
            return Err(DnsError::EndOfBuffer);
        }
        Ok(self.buf[pos])
    }

    /// The `len` bytes from `start`, without moving the cursor; fails unless
    /// they end before the last byte of the buffer.
    pub fn get_range(&self, start: usize, len: usize) -> (r: Result<&[u8], DnsError>)
        ensures
            r.is_ok() == (start + len < BUF_SIZE),
            r.is_ok() ==> r.unwrap()@ == self.bytes().subrange(start as int, start + len),
            r.is_err() ==> r == Err::<&[u8], DnsError>(DnsError::EndOfBuffer),
    {
        if start >= BUF_SIZE || len >= BUF_SIZE - start {
            return Err(DnsError::EndOfBuffer);
        }
        let all = self.buf.as_slice();
        Ok(slice_subrange(all, start, start + len))
    }

    /// Reads a big-endian 16-bit word and moves past it.
    pub fn read_u16(&mut self) -> (r: Result<u16, DnsError>)
        requires
            old(self).wf(),
        ensures
            final(self).wf(),
            final(self).buf == old(self).buf,
            r.is_ok() == (old(self).pos + 2 <= BUF_SIZE),
            r.is_ok() ==> r.unwrap() == be16(old(self).bytes()[old(self).pos as int], old(self).bytes()[old(self).pos + 1])
                && final(self).pos == old(self).pos + 2,
            r.is_err() ==> r == Err::<u16, DnsError>(DnsError::EndOfBuffer) && final(self).pos == old(self).pos,
    {
        if self.pos >= BUF_SIZE - 1 {
            return Err(DnsError::EndOfBuffer);
        }
        let hi = self.read()?;
        let lo = self.read()?;
        Ok((hi as u16) * 256 + (lo as u16))
    }

    /// Reads a big-endian 32-bit word and moves past it.
    pub fn read_u32(&mut self) -> (r: Result<u32, DnsError>)
        requires
            old(self).wf(),
        ensures
            final(self).wf(),
            final(self).buf == old(self).buf,
            r.is_ok() == (old(self).pos + 4 <= BUF_SIZE),
            r.is_ok() ==> r.unwrap() == be32(
                old(self).bytes()[old(self).pos as int],
                old(self).bytes()[old(self).pos + 1],
                old(self).bytes()[old(self).pos + 2],
                old(self).bytes()[old(self).pos + 3],
            ) && final(self).pos == old(self).pos + 4,
            r.is_err() ==> r == Err::<u32, DnsError>(DnsError::EndOfBuffer) && final(self).pos == old(self).pos,
    {
        if self.pos >= BUF_SIZE - 3 {
            return Err(DnsError::EndOfBuffer);
        }
        let hi = self.read_u16()?;
        let lo = self.read_u16()?;
        Ok((hi as u32) * 65536 + (lo as u32))
    }

    /// Reads the possibly compressed name at the cursor, appending its
    /// lower-cased, dot-joined labels to `outstr`. On success the cursor moves
    /// past the name, or past the first compression pointer if there is one.
    pub fn read_qname(&mut self, outstr: &mut Vec<u8>) -> (r: Result<(), DnsError>)
        requires
            old(self).wf(),
        ensures
            final(self).wf(),
            final(self).buf == old(self).buf,
            match name_at(old(self).bytes(), old(self).pos as int) {
                Ok((name, end)) => r.is_ok() && final(self).pos == end
                    && final(outstr)@ == old(outstr)@ + name,
                Err(e) => r == Err::<(), DnsError>(e) && final(self).pos == old(self).pos,
            },
    {
        let ghost b = self.bytes();
        let ghost p0 = self.pos as int;
        let ghost start_out = outstr@;
        let ghost mut acc: Seq<Seq<u8>> = seq![];
        let mut p: usize = self.pos;
        let mut jumped = false;
        let mut first_end: usize = 0;
        let mut jumps: usize = 0;
        let mut any_label = false;
        assert(acc + seq![] =~= acc);
        loop
            invariant
                self.wf(),
                self.buf == old(self).buf,
                old(self).buf@ == b,
                self.pos == p0,
                old(self).pos == p0,
                old(outstr)@ == start_out,
                b.len() == 512,
                p < 65536,
                jumps <= 6,
                first_end <= 512,
                any_label == (acc.len() > 0),
                outstr@ == start_out + join_labels(acc),
                read_name(b, p0, 0) == match read_name(b, p as int, jumps as int) {
                    Ok((ls, end)) => Ok((acc + ls, if jumped { first_end as int } else { end })),
                    Err(e) => Err::<(Seq<Seq<u8>>, int), DnsError>(e),
                },
            decreases 6 - jumps, 512 - p,
        {
            if jumps > MAX_JUMPS {
                return Err(DnsError::JumpLimit);
            }
            let len = match self.get(p) {
                Ok(v) => v,
                Err(e) => return Err(e),
            };
            if len >= 0xC0 {
                let second = match self.get(p + 1) {
                    Ok(v) => v,
                    Err(e) => return Err(e),
                };
                if !jumped {
                    first_end = p + 2;
                }
                p = (len - 0xC0) as usize * 256 + second as usize;
                jumped = true;
                jumps = jumps + 1;
            } else if len == 0 {
                proof {
                    assert(acc + seq![] =~= acc);
                }
                if !jumped {
                    self.seek(p + 1)?;
                } else {
                    self.seek(first_end)?;
                }
                return Ok(());
            } else {
                let label = match self.get_range(p + 1, len as usize) {
                    Ok(v) => v,
                    Err(e) => return Err(e),
                };
                let ghost l = lower_seq(label@);
                if any_label {
                    outstr.push(DOT);
                }
                push_lower(outstr, label);
                proof {
                    let na = acc.push(l);
                    assert(na.drop_last() =~= acc);
                    if acc.len() == 0 {
                        assert(outstr@ =~= start_out + join_labels(na));
                    } else {
                        assert(outstr@ =~= start_out + join_labels(na));
                    }
                    let rest = read_name(b, p + 1 + len, jumps as int);
                    if let Ok((ls, end)) = rest {
                        assert(acc + (seq![l] + ls) =~= na + ls);
                    }
                    acc = na;
                }
                any_label = true;
                p = p + 1 + len as usize;
            }
        }
    }

    /// Writes one byte at the cursor and moves past it.
    pub fn write(&mut self, val: u8) -> (r: Result<(), DnsError>)
        requires
            old(self).wf(),
        ensures
            final(self).wf(),
            r.is_ok() == (old(self).pos < BUF_SIZE),
            r.is_ok() ==> final(self).bytes() == old(self).bytes().update(old(self).pos as int, val)
                && final(self).pos == old(self).pos + 1,
            r.is_err() ==> r == Err::<(), DnsError>(DnsError::EndOfBuffer) && *final(self) == *old(self),
    {
        if self.pos >= BUF_SIZE {
            return Err(DnsError::EndOfBuffer);
        }
        self.buf[self.pos] = val;
        self.pos = self.pos + 1;
        Ok(())
    }

    /// Writes `w` at the cursor, which must leave room for it.
    fn write_all(&mut self, w: &[u8])
        requires
            old(self).wf(),
            old(self).pos + w@.len() <= BUF_SIZE,
        ensures
            final(self).wf(),
            final(self).pos == old(self).pos + w@.len(),
            spliced(old(self).bytes(), final(self).bytes(), old(self).pos as int, w@),
    {
        let ghost a = self.bytes();
        let ghost p0 = self.pos as int;
        let mut i: usize = 0;
        assert(a =~= a.take(p0) + w@.take(0) + a.skip(p0));
        while i < w.len()
            invariant
                self.wf(),
                p0 + w@.len() <= BUF_SIZE,
                i <= w@.len(),
                self.pos == p0 + i,
                a.len() == 512,
                spliced(a, self.bytes(), p0, w@.take(i as int)),
            decreases w@.len() - i,
        {
            let _ = self.write(w[i]);
            i = i + 1;
            assert(self.bytes() =~= a.take(p0) + w@.take(i as int) + a.skip(p0 + i));
        }
        assert(w@.take(i as int) =~= w@);
    }

    /// Writes a big-endian 16-bit word at the cursor; fails, writing nothing,
    /// unless both bytes fit.
    pub fn write_u16(&mut self, val: u16) -> (r: Result<(), DnsError>)
        requires
            old(self).wf(),
        ensures
            final(self).wf(),
            r.is_ok() == (old(self).pos + 2 <= BUF_SIZE),
            r.is_ok() ==> spliced(old(self).bytes(), final(self).bytes(), old(self).pos as int, u16_bytes(val))
                && final(self).pos == old(self).pos + 2,
            r.is_err() ==> r == Err::<(), DnsError>(DnsError::EndOfBuffer) && *final(self) == *old(self),
    {
        if self.pos > BUF_SIZE - 2 {
            return Err(DnsError::EndOfBuffer);
        }
        let w: [u8; 2] = [(val / 256) as u8, (val % 256) as u8];
        assert(w@ =~= u16_bytes(val));
        self.write_all(w.as_slice());
        Ok(())
    }

    /// Writes a big-endian 32-bit word at the cursor; fails, writing nothing,
    /// unless all four bytes fit.
    pub fn write_u32(&mut self, val: u32) -> (r: Result<(), DnsError>)
        requires
            old(self).wf(),
        ensures
            final(self).wf(),
            r.is_ok() == (old(self).pos + 4 <= BUF_SIZE),
            r.is_ok() ==> spliced(old(self).bytes(), final(self).bytes(), old(self).pos as int, u32_bytes(val))
                && final(self).pos == old(self).pos + 4,
            r.is_err() ==> r == Err::<(), DnsError>(DnsError::EndOfBuffer) && *final(self) == *old(self),
    {
        if self.pos > BUF_SIZE - 4 {
            return Err(DnsError::EndOfBuffer);
        }
        let hi = val / 65536;
        let lo = val % 65536;
        let w: [u8; 4] = [(hi / 256) as u8, (hi % 256) as u8, (lo / 256) as u8, (lo % 256) as u8];
        assert(w@ =~= u32_bytes(val));
        self.write_all(w.as_slice());
        Ok(())
    }

    /// Writes `qname` as length-prefixed labels and a terminating zero, with no
    /// compression. Fails, writing nothing, if the encoding (two bytes more than
    /// the name) does not fit; fails if a label is longer than 63 bytes.
    pub fn write_qname(&mut self, qname: &[u8]) -> (r: Result<(), DnsError>)
        requires
            old(self).wf(),
        ensures
            final(self).wf(),
            wire_name(qname@).len() == qname@.len() + 2,
            old(self).pos + qname@.len() + 2 > BUF_SIZE ==> r == Err::<(), DnsError>(DnsError::EndOfBuffer)
                && *final(self) == *old(self),
            old(self).pos + qname@.len() + 2 <= BUF_SIZE ==> {
                &&& r.is_ok() == labels_fit(labels_of(qname@))
                &&& r.is_err() ==> r == Err::<(), DnsError>(DnsError::LabelTooLong)
                &&& r.is_ok() ==> spliced(old(self).bytes(), final(self).bytes(), old(self).pos as int, wire_name(qname@))
                    && final(self).pos == old(self).pos + wire_name(qname@).len()
            },
    {
        proof {
            lemma_wire_len(qname@, 0);
        }
        if qname.len() > BUF_SIZE || self.pos + qname.len() + 2 > BUF_SIZE {
            return Err(DnsError::EndOfBuffer);
        }
        let ghost s = qname@;
        let ghost a = self.bytes();
        let ghost p0 = self.pos as int;
        let ghost mut w: Seq<u8> = seq![];
        let mut start: usize = 0;
        proof {
            lemma_wire_len(s, 0);
            assert(a =~= a.take(p0) + w + a.skip(p0));
            assert(wire_labels(labels_of(s)) =~= w + wire_labels(labels_from(s, 0)));
        }
        loop
            invariant
                self.wf(),
                a.len() == 512,
                p0 == old(self).pos,
                a == old(self).bytes(),
                s == qname@,
                wire_name(s).len() == s.len() + 2,
                start <= s.len(),
                self.pos == p0 + w.len(),
                w.len() == start,
                p0 + w.len() + s.len() - start + 2 <= BUF_SIZE,
                spliced(a, self.bytes(), p0, w),
                wire_labels(labels_of(s)) == w + wire_labels(labels_from(s, start as int)),
                labels_fit(labels_of(s)) == labels_fit(labels_from(s, start as int)),
            decreases s.len() - start,
        {
            let mut j: usize = start;
            while j < qname.len() && qname[j] != DOT
                invariant
                    start <= j <= s.len(),
                    s == qname@,
                    start + label_len(s, start as int) == j + label_len(s, j as int),
                decreases s.len() - j,
            {
                j = j + 1;
            }
            let n = j - start;
            let ghost l = s.subrange(start as int, j as int);
            let ghost rest = labels_from(s, start as int);
            proof {
                lemma_label_len(s, start as int);
                assert(rest[0] == l);
                assert(rest.len() >= 1);
            }
            if n > 63 {
                proof {
                    assert(!labels_fit(rest));
                }
                return Err(DnsError::LabelTooLong);
            }
            let ghost b1 = self.bytes();
            let _ = self.write(n as u8);
            proof {
                assert(self.bytes() =~= b1.take(p0 + w.len()) + seq![n as u8] + b1.skip(p0 + w.len() + 1));
                lemma_splice_chain(a, b1, self.bytes(), p0, w, seq![n as u8]);
                w = w + seq![n as u8];
            }
            let ghost b2 = self.bytes();
            self.write_all(slice_subrange(qname, start, j));
            proof {
                lemma_splice_chain(a, b2, self.bytes(), p0, w, l);
                w = w + l;
            }
            if j >= qname.len() {
                let ghost b3 = self.bytes();
                let _ = self.write(0);
                proof {
                    assert(self.bytes() =~= b3.take(p0 + w.len()) + seq![0u8] + b3.skip(p0 + w.len() + 1));
                    lemma_splice_chain(a, b3, self.bytes(), p0, w, seq![0u8]);
                    assert(rest =~= seq![l]);
                    assert(rest.drop_first() =~= Seq::<Seq<u8>>::empty());
                    assert(wire_labels(rest.drop_first()) =~= Seq::<u8>::empty());
                    assert(wire_labels(rest) =~= seq![n as u8] + l);
                    assert(labels_fit(rest));
                    assert(wire_labels(labels_of(s)) + seq![0u8] =~= w + seq![0u8]);
                }
                return Ok(());
            }
            proof {
                let next = labels_from(s, j + 1);
                assert(rest =~= seq![l] + next);
                assert(rest.drop_first() =~= next);
                assert(wire_labels(labels_of(s)) =~= w + wire_labels(next));
                lemma_wire_len(s, j + 1);
                assert(labels_fit(rest) == labels_fit(next)) by {
                    if labels_fit(next) {
                        assert forall|i: int| 0 <= i < rest.len() implies #[trigger] rest[i].len() <= 63 by {
                            if i > 0 {
                                assert(rest[i] == next[i - 1]);
                            }
                        }
                    }
                    if labels_fit(rest) {
                        assert forall|i: int| 0 <= i < next.len() implies #[trigger] next[i].len() <= 63 by {
                            assert(rest[i + 1] == next[i]);
                        }
                    }
                }
            }
            start = j + 1;
        }
    }

    /// Overwrites the byte at `pos` without moving the cursor.
    fn set(&mut self, pos: usize, val: u8) -> (r: Result<(), DnsError>)
        requires
            old(self).wf(),
        ensures
            final(self).wf(),
            final(self).pos == old(self).pos,
            r.is_ok() == (pos < BUF_SIZE),
            r.is_ok() ==> final(self).bytes() == old(self).bytes().update(pos as int, val),
            r.is_err() ==> r == Err::<(), DnsError>(DnsError::EndOfBuffer) && *final(self) == *old(self),
    {
        if pos >= BUF_SIZE {
            return Err(DnsError::EndOfBuffer);
        }
        self.buf[pos] = val;
        Ok(())
    }

    /// Overwrites the big-endian 16-bit word at `pos` without moving the
    /// cursor; fails, writing nothing, unless both bytes lie in the buffer.
    pub fn set_u16(&mut self, pos: usize, val: u16) -> (r: Result<(), DnsError>)
        requires
            old(self).wf(),
        ensures
            final(self).wf(),
            final(self).pos == old(self).pos,
            r.is_ok() == (pos + 2 <= BUF_SIZE),
            r.is_ok() ==> spliced(old(self).bytes(), final(self).bytes(), pos as int, u16_bytes(val)),
            r.is_err() ==> r == Err::<(), DnsError>(DnsError::EndOfBuffer) && *final(self) == *old(self),
    {
        if pos > BUF_SIZE - 2 {
            return Err(DnsError::EndOfBuffer);
        }
        let ghost a = self.bytes();
        let _ = self.set(pos, (val / 256) as u8);
        let _ = self.set(pos + 1, (val % 256) as u8);
        assert(self.bytes() =~= a.take(pos as int) + u16_bytes(val) + a.skip(pos + 2));
        Ok(())
    }
}

/// Where the label at `i` ends, and that it holds no dot.
pub proof fn lemma_label_len(s: Seq<u8>, i: int)
    requires
        0 <= i <= s.len(),
    ensures
        i + label_len(s, i) <= s.len(),
        forall|k: int| i <= k < i + label_len(s, i) ==> s[k] != DOT,
        i + label_len(s, i) < s.len() ==> s[i + label_len(s, i)] == DOT,
    decreases s.len() - i,
{
    if i < s.len() && s[i] != DOT {
        lemma_label_len(s, i + 1);
    }
}

/// A name of `n` bytes takes `n + 1` bytes as length-prefixed labels.
pub proof fn lemma_wire_len(s: Seq<u8>, start: int)
    requires
        0 <= start <= s.len(),
    ensures
        wire_labels(labels_from(s, start)).len() == s.len() - start + 1,
        labels_from(s, start).len() >= 1,
    decreases s.len() - start,
{
    lemma_label_len(s, start);
    let n = label_len(s, start);
    let ls = labels_from(s, start);
    if start + n >= s.len() {
        assert(ls.drop_first() =~= Seq::<Seq<u8>>::empty());
        assert(wire_labels(ls.drop_first()).len() == 0);
    } else {
        lemma_wire_len(s, start + n + 1);
        assert(ls.drop_first() =~= labels_from(s, start + n + 1));
    }
}

/// Two writes in a row are one write of their concatenation.
pub proof fn lemma_splice_chain(a: Seq<u8>, b: Seq<u8>, c: Seq<u8>, p: int, w: Seq<u8>, v: Seq<u8>)
    requires
        spliced(a, b, p, w),
        spliced(b, c, p + w.len(), v),
    ensures
        spliced(a, c, p, w + v),
{
    assert(c =~= a.take(p) + (w + v) + a.skip(p + (w + v).len()));
}

/// A well-formed lower-case name: at most 255 bytes, every label between 1
/// and 63 bytes long and already lower-cased.
pub open spec fn valid_name(s: Seq<u8>) -> bool {
    s.len() <= 255 && valid_labels(labels_of(s))
}

/// Every label is between 1 and 63 bytes long and already lower-cased.
pub open spec fn valid_labels(ls: Seq<Seq<u8>>) -> bool {
    forall|i: int| 0 <= i < ls.len() ==> 1 <= #[trigger] ls[i].len() <= 63 && lower_seq(ls[i]) == ls[i]
}

/// Joining a first label to at least one more puts a dot between them.
proof fn lemma_join_prepend(l: Seq<u8>, rest: Seq<Seq<u8>>)
    requires
        rest.len() >= 1,
    ensures
        join_labels(seq![l] + rest) == l + seq![DOT] + join_labels(rest),
    decreases rest.len(),
{
    let all = seq![l] + rest;
    assert(all.last() == rest.last());
    if rest.len() == 1 {
        assert(all.drop_last() =~= seq![l]);
        assert(join_labels(seq![l]) == l);
        assert(join_labels(rest) == rest[0]);
        assert(join_labels(all) =~= l + seq![DOT] + join_labels(rest));
    } else {
        lemma_join_prepend(l, rest.drop_last());
        assert(all.drop_last() =~= seq![l] + rest.drop_last());
        assert(join_labels(rest) == join_labels(rest.drop_last()) + seq![DOT] + rest.last());
        assert(join_labels(all) =~= l + seq![DOT] + join_labels(rest));
    }
}

/// Joining the labels of a name from `start` on gives that part of the name back.
proof fn lemma_join_labels_from(s: Seq<u8>, start: int)
    requires
        0 <= start <= s.len(),
    ensures
        join_labels(labels_from(s, start)) == s.subrange(start, s.len() as int),
    decreases s.len() - start,
{
    lemma_label_len(s, start);
    let n = label_len(s, start);
    if start + n < s.len() {
        let next = labels_from(s, start + n + 1);
        lemma_join_labels_from(s, start + n + 1);
        lemma_wire_len(s, start + n + 1);
        lemma_join_prepend(s.subrange(start, start + n), next);
        assert(s.subrange(start, s.len() as int) =~= s.subrange(start, start + n) + seq![DOT]
            + s.subrange(start + n + 1, s.len() as int));
    }
}

/// Reading the labels written from `start` on gives them back, with reading
/// resuming past the terminating zero.
proof fn lemma_read_labels(s: Seq<u8>, b: Seq<u8>, p: int, start: int, j: int)
    requires
        0 <= start <= s.len(),
        0 <= j <= 5,
        b.len() == 512,
        0 <= p,
        p + s.len() + 2 <= 512,
        valid_labels(labels_from(s, start)),
        b.subrange(p + start, p + s.len() + 2) == wire_labels(labels_from(s, start)) + seq![0u8],
    ensures
        read_name(b, p + start, j) == Ok::<(Seq<Seq<u8>>, int), DnsError>((labels_from(s, start), p + s.len() + 2)),
    decreases s.len() - start,
{
    lemma_label_len(s, start);
    lemma_wire_len(s, start);
    let n = label_len(s, start) as int;
    let ls = labels_from(s, start);
    let l = ls[0];
    let q = p + start;
    let w = wire_labels(ls) + seq![0u8];
    assert(wire_labels(ls) == seq![l.len() as u8] + l + wire_labels(ls.drop_first()));
    assert(l.len() == n);
    assert(b[q] == w[0]);
    assert(b[q] == n as u8);
    assert(b.subrange(q + 1, q + 1 + n) =~= l) by {
        assert forall|k: int| 0 <= k < n implies b.subrange(q + 1, q + 1 + n)[k] == l[k] by {
            assert(b[q + 1 + k] == w[1 + k]);
        }
    }
    if start + n >= s.len() {
        assert(ls.drop_first() =~= Seq::<Seq<u8>>::empty());
        assert(b[q + 1 + n] == w[1 + n]);
        assert(read_name(b, q + 1 + n, j) == Ok::<(Seq<Seq<u8>>, int), DnsError>((seq![], q + n + 2)));
        assert(seq![lower_seq(l)] + Seq::<Seq<u8>>::empty() =~= ls);
    } else {
        let next = labels_from(s, start + n + 1);
        assert(ls =~= seq![l] + next);
        assert(ls.drop_first() =~= next);
        assert(valid_labels(next)) by {
            assert forall|i: int| 0 <= i < next.len() implies 1 <= #[trigger] next[i].len() <= 63
                && lower_seq(next[i]) == next[i] by {
                assert(next[i] == ls[i + 1]);
            }
        }
        let tail = wire_labels(next) + seq![0u8];
        lemma_wire_len(s, start + n + 1);
        assert(w =~= seq![n as u8] + l + tail);
        assert(b.subrange(p + start + n + 1, p + s.len() + 2) =~= tail) by {
            let sub = b.subrange(p + start + n + 1, p + s.len() + 2);
            assert(sub.len() == tail.len());
            assert forall|k: int| 0 <= k < tail.len() implies #[trigger] sub[k] == tail[k] by {
                assert(sub[k] == b[q + (n + 1 + k)]);
                assert(w[n + 1 + k] == tail[k]);
                assert(b.subrange(q, p + s.len() + 2)[n + 1 + k] == b[q + (n + 1 + k)]);
                assert(b[q + (n + 1 + k)] == w[n + 1 + k]);
            }
        }
        lemma_read_labels(s, b, p, start + n + 1, j);
    }
}

/// A well-formed name written without compression reads back as itself, and
/// reading resumes right after it.
pub proof fn lemma_name_round_trip(s: Seq<u8>, b: Seq<u8>, p: int)
    requires
        valid_name(s),
        b.len() == 512,
        0 <= p,
        p + s.len() + 2 <= 512,
        b.subrange(p, p + s.len() + 2) == wire_name(s),
    ensures
        wire_name(s).len() == s.len() + 2,
        name_at(b, p) == Ok::<(Seq<u8>, int), DnsError>((s, p + s.len() + 2)),
{
    lemma_wire_len(s, 0);
    lemma_read_labels(s, b, p, 0, 0);
    lemma_join_labels_from(s, 0);
    assert(s.subrange(0, s.len() as int) =~= s);
}

/// With fewer pointers already followed, a name that read successfully reads the same.
proof fn lemma_read_name_fewer_jumps(b: Seq<u8>, p: int, j: int)
    requires
        0 <= j,
        read_name(b, p, j + 1).is_ok(),
    ensures
        read_name(b, p, j) == read_name(b, p, j + 1),
    decreases 6 - j, 512 - p,
{
    if j + 1 <= 5 && 0 <= p < 512 && b.len() == 512 {
        let len = b[p];
        if len >= 0xC0 {
            let target = (len - 0xC0) * 256 + b[p + 1];
            lemma_read_name_fewer_jumps(b, target, j + 1);
        } else if len != 0 {
            lemma_read_name_fewer_jumps(b, p + 1 + len, j);
        }
    }
}

/// A compression pointer to a name that reads with at most four pointers of
/// its own reads as that same name, and reading resumes exactly two bytes past
/// the pointer, not past the name it points to.
pub proof fn lemma_pointer_reads_target(b: Seq<u8>, p: int, q: int)
    requires
        b.len() == 512,
        0 <= p,
        p + 1 < 512,
        b[p] >= 0xC0,
        q == (b[p] - 0xC0) * 256 + b[p + 1],
        read_name(b, q, 1).is_ok(),
    ensures
        name_at(b, p).is_ok(),
        name_at(b, q).is_ok(),
        name_at(b, p).unwrap().0 == name_at(b, q).unwrap().0,
        name_at(b, p).unwrap().1 == p + 2,
{
    lemma_read_name_fewer_jumps(b, q, 0);
}

/// A compression pointer to a well-formed name written out in full reads as
/// that name, and reading resumes two bytes past the pointer.
pub proof fn lemma_pointer_to_written_name(s: Seq<u8>, b: Seq<u8>, p: int, q: int)
    requires
        valid_name(s),
        b.len() == 512,
        0 <= q,
        q + s.len() + 2 <= 512,
        b.subrange(q, q + s.len() + 2) == wire_name(s),
        0 <= p,
        p + 1 < 512,
        b[p] >= 0xC0,
        q == (b[p] - 0xC0) * 256 + b[p + 1],
    ensures
        name_at(b, p) == Ok::<(Seq<u8>, int), DnsError>((s, p + 2)),
{
    lemma_wire_len(s, 0);
    lemma_read_labels(s, b, q, 0, 1);
    lemma_join_labels_from(s, 0);
    assert(s.subrange(0, s.len() as int) =~= s);
}

/// The lower-cased byte.
fn lower_byte(b: u8) -> (r: u8)
    ensures
        r == lower(b),
{
    if 65 <= b && b <= 90 {
        b + 32
    } else {
        b
    }
}

/// Appends the lower-cased bytes of `src` to `out`.
fn push_lower(out: &mut Vec<u8>, src: &[u8])
    ensures
        final(out)@ == old(out)@ + lower_seq(src@),
{
    let ghost start = out@;
    let mut i: usize = 0;
    while i < src.len()
        invariant
            i <= src@.len(),
            out@ == start + lower_seq(src@.take(i as int)),
        decreases src@.len() - i,
    {
        let c = lower_byte(src[i]);
        out.push(c);
        i = i + 1;
        assert(lower_seq(src@.take(i as int)) =~= lower_seq(src@.take(i - 1)).push(c));
    }
    assert(src@.take(i as int) =~= src@);
}

} // verus!
