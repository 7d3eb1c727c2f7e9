//! A buffered reader over any [`ByteSource`], batching physical reads into an
//! internal buffer so that small logical reads stay cheap.

use vstd::prelude::*;

use crate::source::ByteSource;
use crate::source::MemSource;
use crate::source::TransportError;
use crate::source::min_int;

verus! {

/// Adds buffering to any reader.
///
/// A physical read is issued only when the buffer holds no unread byte, and
/// it asks for up to one full buffer (`capacity` bytes) at a time; a logical
/// read that is at least as large as the whole buffer bypasses it entirely.
/// Buffered but unread bytes are forfeited when the reader is discarded.
pub struct BufReader<R> {
    inner: R,
    buffer: Vec<u8>,
    pos: usize,
    capacity: usize,
}

impl<R: ByteSource> BufReader<R> {
    pub closed spec fn wf(&self) -> bool {
        &&& self.pos <= self.buffer.len()
        &&& self.inner.wf()
    }

    /// The buffered bytes not yet handed out.
    pub closed spec fn buffered(&self) -> Seq<u8> {
        self.buffer@.skip(self.pos as int)
    }

    /// All bytes still to come: buffered ones first, then the source's.
    pub open spec fn remaining(&self) -> Seq<u8> {
        self.buffered() + self.source().stream()
    }

    pub closed spec fn capacity_spec(&self) -> nat {
        self.capacity as nat
    }

    pub closed spec fn source(&self) -> R {
        self.inner
    }

    pub fn with_capacity(capacity: usize, inner: R) -> (r: BufReader<R>)
        requires
            inner.wf(),
        ensures
            r.wf(),
            r.buffered() == Seq::<u8>::empty(),
            r.remaining() == inner.stream(),
            r.capacity_spec() == capacity,
            r.source() == inner,
    {
        let r = BufReader { inner, buffer: Vec::new(), pos: 0, capacity };
        proof {
            assert(r.buffered() =~= Seq::<u8>::empty());
            assert(r.remaining() =~= r.inner.stream());
        }
        r
    }

    /// Returns the internally buffered data without trying to fill the buffer.
    pub fn buffer(&self) -> (r: &[u8])
        requires
            self.wf(),
        ensures
            r@ == self.buffered(),
    {
        vstd::slice::slice_subrange(self.buffer.as_slice(), self.pos, self.buffer.len())
    }

    /// Invalidates all data in the internal buffer.
    pub fn discard_buffer(&mut self)
        requires
            old(self).wf(),
        ensures
            final(self).wf(),
            final(self).buffered() == Seq::<u8>::empty(),
            final(self).source() == old(self).source(),
            final(self).capacity_spec() == old(self).capacity_spec(),
    {
        self.pos = 0;
        self.buffer = Vec::new();
        proof {
            assert(self.buffered() =~= Seq::<u8>::empty());
        }
    }

    /// If the buffer is empty, issue one physical read to refill it; report
    /// the transport's error if that read fails.
    pub fn fill_buf(&mut self) -> (r: Result<(), TransportError>)
        requires
            old(self).wf(),
        ensures
            final(self).wf(),
            final(self).capacity_spec() == old(self).capacity_spec(),
            final(self).source().greedy() == old(self).source().greedy(),
            final(self).source().infallible() == old(self).source().infallible(),
            final(self).source().reads() <= old(self).source().reads() + 1,
            old(self).source().infallible() ==> r is Ok,
            old(self).buffered().len() > 0 ==> *final(self) == *old(self),
            final(self).remaining().len() <= old(self).remaining().len(),
            match r {
                Ok(()) => {
                    &&& final(self).remaining() == old(self).remaining()
                    &&& (old(self).buffered().len() == 0 ==> {
                        &&& (old(self).source().greedy() ==> final(self).source().reads() == old(
                            self,
                        ).source().reads() + 1)
                        &&& final(self).buffered().len() <= old(self).capacity_spec()
                        &&& final(self).buffered().len() <= old(self).source().stream().len()
                        &&& (final(self).buffered().len() == 0 ==> old(self).capacity_spec() == 0
                            || old(self).source().stream().len() == 0)
                        &&& (old(self).source().greedy() ==> final(self).buffered().len() == (
                        if old(self).capacity_spec() <= old(self).source().stream().len() {
                            old(self).capacity_spec() as int
                        } else {
                            old(self).source().stream().len() as int
                        }))
                    })
                },
                Err(_) => old(self).buffered().len() == 0 && final(self).buffered().len() == 0,
            },
    {
        if self.pos >= self.buffer.len() {
            proof {
                assert(old(self).buffered().len() == 0);
                assert(old(self).remaining() =~= old(self).inner.stream());
            }
            match self.inner.read(self.capacity) {
                Ok(v) => {
                    self.buffer = v;
                    self.pos = 0;
                    proof {
                        assert(self.buffered() =~= self.buffer@);
                        assert(self.remaining() =~= old(self).inner.stream());
                    }
                    Ok(())
                },
                Err(e) => Err(e),
            }
        } else {
            Ok(())
        }
    }

    /// Advances past `amt` buffered bytes, clamped to what is buffered.
    pub fn consume(&mut self, amt: usize)
        requires
            old(self).wf(),
        ensures
            final(self).wf(),
            final(self).capacity_spec() == old(self).capacity_spec(),
            final(self).source() == old(self).source(),
            final(self).buffered() == (if amt <= old(self).buffered().len() {
                old(self).buffered().skip(amt as int)
            } else {
                Seq::<u8>::empty()
            }),
    {
        let avail = self.buffer.len() - self.pos;
        if amt < avail {
            self.pos = self.pos + amt;
            proof {
                assert(self.buffered() =~= old(self).buffered().skip(amt as int));
            }
        } else {
            self.pos = self.buffer.len();
            proof {
                assert(self.buffered() =~= Seq::<u8>::empty());
                if amt <= old(self).buffered().len() {
                    assert(old(self).buffered().skip(amt as int) =~= Seq::<u8>::empty());
                }
            }
        }
    }

    /// Reads up to `max` bytes. Buffered bytes are served without touching
    /// the source; an empty buffer triggers exactly one physical read, going
    /// straight to the source when `max` spans a whole buffer.
    pub fn read(&mut self, max: usize) -> (r: Result<Vec<u8>, TransportError>)
        requires
            old(self).wf(),
        ensures
            final(self).wf(),
            final(self).capacity_spec() == old(self).capacity_spec(),
            final(self).source().greedy() == old(self).source().greedy(),
            final(self).source().infallible() == old(self).source().infallible(),
            final(self).source().reads() <= old(self).source().reads() + 1,
            old(self).source().infallible() ==> r is Ok,
            old(self).buffered().len() > 0 ==> final(self).source() == old(self).source(),
            final(self).remaining().len() <= old(self).remaining().len(),
            match r {
                Ok(v) => {
                    &&& v.len() <= max
                    &&& v.len() <= old(self).remaining().len()
                    &&& v@ == old(self).remaining().take(v.len() as int)
                    &&& final(self).remaining() == old(self).remaining().skip(v.len() as int)
                    &&& (v.len() == 0 ==> max == 0 || old(self).remaining().len() == 0)
                    &&& (old(self).buffered().len() > 0 ==> v.len() == (
                    if max <= old(self).buffered().len() {
                        max as int
                    } else {
                        old(self).buffered().len() as int
                    }))
                    &&& (old(self).buffered().len() == 0 ==> {
                        &&& (old(self).source().greedy() ==> final(self).source().reads() == old(
                            self,
                        ).source().reads() + 1)
                        &&& old(self).source().stream().len() - final(self).source().stream().len()
                            <= old(self).pull_size(max)
                        &&& (old(self).source().greedy() ==> old(self).source().stream().len()
                            - final(self).source().stream().len() == min_int(
                            old(self).pull_size(max) as int,
                            old(self).source().stream().len() as int,
                        ))
                        &&& (old(self).source().greedy() && max > 0 ==> v.len() == min_int(
                            max as int,
                            min_int(
                                old(self).pull_size(max) as int,
                                old(self).source().stream().len() as int,
                            ),
                        ))
                    })
                },
                Err(_) => old(self).buffered().len() == 0 && final(self).buffered().len() == 0,
            },
    {
        if self.pos >= self.buffer.len() && max >= self.capacity {
            proof {
                assert(old(self).buffered().len() == 0);
                assert(old(self).remaining() =~= old(self).inner.stream());
            }
            let res = self.inner.read(max);
            self.discard_buffer();
            proof {
                assert(self.remaining() =~= self.inner.stream());
            }
            return res;
        }
        match self.fill_buf() {
            Err(e) => Err(e),
            Ok(()) => {
                let avail = self.buffer.len() - self.pos;
                let k = if max < avail {
                    max
                } else {
                    avail
                };
                let mut v: Vec<u8> = Vec::new();
                let mut i: usize = 0;
                while i < k
                    invariant
                        i <= k,
                        k <= self.buffer.len() - self.pos,
                        self.pos + k <= self.buffer.len(),
                        v@ =~= self.buffer@.subrange(self.pos as int, self.pos + i),
                    decreases k - i,
                {
                    v.push(self.buffer[self.pos + i]);
                    i += 1;
                }
                proof {
                    assert(v@ =~= self.buffered().take(k as int));
                }
                let ghost mid = *self;
                self.consume(k);
                proof {
                    assert(mid.remaining().take(k as int) =~= mid.buffered().take(k as int));
                    assert(self.remaining() =~= mid.remaining().skip(k as int));
                }
                Ok(v)
            },
        }
    }

    /// How many bytes one physical read may pull for a logical read of `max`
    /// bytes: a whole buffer, or `max` itself when that bypasses the buffer.
    pub open spec fn pull_size(&self, max: usize) -> nat {
        if max >= self.capacity_spec() {
            max as nat
        } else {
            self.capacity_spec()
        }
    }
}

impl<R: ByteSource> ByteSource for BufReader<R> {
    open spec fn wf(&self) -> bool {
        BufReader::wf(self)
    }

    open spec fn stream(&self) -> Seq<u8> {
        self.remaining()
    }

    open spec fn reads(&self) -> nat {
        self.source().reads()
    }

    open spec fn greedy(&self) -> bool {
        false
    }

    open spec fn infallible(&self) -> bool {
        self.source().infallible()
    }

    fn read(&mut self, max: usize) -> (r: Result<Vec<u8>, TransportError>) {
        BufReader::read(self, max)
    }
}

/// Drains the first `n` bytes of `data` through a fresh `BufReader` of the
/// given capacity, one logical byte at a time, and reports how many physical
/// reads the source saw. However the `n` logical reads fall, the buffer is
/// refilled whole, so the source sees at most one physical read per
/// `capacity` bytes delivered: never more than `(n + capacity - 1) / capacity`.
pub fn buffered_byte_reads(data: Vec<u8>, capacity: usize, n: usize) -> (r: (Vec<u8>, u64))
    requires
        1 <= capacity,
        n <= data.len(),
    ensures
        r.0@ == data@.take(n as int),
        r.1 as int <= (n as int + capacity as int - 1) / (capacity as int),
{
    let ghost d = data@;
    let src = MemSource::new(data);
    let mut br = BufReader::with_capacity(capacity, src);
    let mut out: Vec<u8> = Vec::new();
    let mut i: usize = 0;
    proof {
        assert(br.remaining() =~= d.skip(0));
    }
    while i < n
        invariant
            i <= n,
            n <= d.len(),
            1 <= capacity,
            out.len() == i,
            out@ =~= d.take(i as int),
            br.wf(),
            br.capacity_spec() == capacity,
            br.source().greedy(),
            br.source().infallible(),
            br.remaining() =~= d.skip(i as int),
            d.len() - br.source().stream().len() == min_int(
                d.len() as int,
                br.source().reads() * capacity as int,
            ),
            br.source().reads() == 0 || (br.source().reads() - 1) * capacity < n,
        decreases n - i,
    {
        let ghost pre = br;
        match br.read(1) {
            Ok(v) => {
                proof {
                    if pre.buffered().len() == 0 {
                        assert(pre.source().stream().len() == d.len() - i);
                        assert(pre.source().reads() * capacity as int == i as int) by {
                            assert(min_int(
                                d.len() as int,
                                pre.source().reads() * capacity as int,
                            ) == i as int);
                        }
                        assert(pre.pull_size(1) == capacity as nat);
                        assert(br.source().reads() == pre.source().reads() + 1);
                        assert(d.len() - br.source().stream().len() == min_int(
                            d.len() as int,
                            (pre.source().reads() + 1) * capacity as int,
                        )) by {
                            assert((pre.source().reads() + 1) * capacity as int
                                == pre.source().reads() * capacity as int + capacity as int)
                                by (nonlinear_arith);
                        }
                    }
                    assert(v.len() == 1);
                    assert(v@[0] == d.skip(i as int)[0]);
                    assert(d.skip(i as int)[0] == d[i as int]);
                }
                out.push(v[0]);
                i += 1;
                proof {
                    assert(out@ =~= d.take(i as int));
                    assert(br.remaining() =~= d.skip(i as int));
                }
            },
            Err(_) => {
                proof {
                    assert(false);
                }
            },
        }
    }
    let made = br.inner.reads_made();
    proof {
        let rds = br.source().reads() as int;
        let c = capacity as int;
        if rds > 0 {
            assert((rds - 1) * c < n as int);
            assert(rds <= (n as int + c - 1) / c) by (nonlinear_arith)
                requires
                    (rds - 1) * c < n as int,
                    c >= 1,
            ;
        }
    }
    (out, made)
}

} // verus!
