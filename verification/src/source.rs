//! The abstract byte-stream transport the client reads responses from,
//! and an in-memory implementation of it.

use vstd::prelude::*;

verus! {

/// The smaller of two mathematical integers.
pub open spec fn min_int(a: int, b: int) -> int {
    if a <= b {
        a
    } else {
        b
    }
}

/// A failure reported by the underlying transport, carried as a plain code.
#[derive(Clone, Copy, PartialEq, Eq, Debug, Structural)]
pub struct TransportError {
    pub code: i32,
}

/// A source of ordered bytes: the read half of a transport connection.
///
/// `stream()` is the sequence of bytes the source will still deliver, in
/// order, before the peer closes; `reads()` counts the physical reads issued
/// so far. A `greedy()` source always hands out as many bytes per read as
/// were requested, up to the end of the stream; a network socket is free not
/// to be greedy and may split the same stream into arbitrary chunks.
pub trait ByteSource: Sized {
    spec fn wf(&self) -> bool;

    spec fn stream(&self) -> Seq<u8>;

    spec fn reads(&self) -> nat;

    spec fn greedy(&self) -> bool;

    spec fn infallible(&self) -> bool;

    /// Issue one physical read for up to `max` bytes. An empty result with
    /// `max > 0` means the stream has ended.
    fn read(&mut self, max: usize) -> (r: Result<Vec<u8>, TransportError>)
        requires
            old(self).wf(),
        ensures
            final(self).wf(),
            final(self).greedy() == old(self).greedy(),
            final(self).infallible() == old(self).infallible(),
            final(self).reads() <= old(self).reads() + 1,
            old(self).infallible() ==> r is Ok,
            match r {
                Ok(v) => {
                    &&& v.len() <= max
                    &&& v.len() <= old(self).stream().len()
                    &&& v@ == old(self).stream().take(v.len() as int)
                    &&& final(self).stream() == old(self).stream().skip(v.len() as int)
                    &&& (old(self).greedy() ==> final(self).reads() == old(self).reads() + 1)
                    &&& (v.len() == 0 ==> max == 0 || old(self).stream().len() == 0)
                    &&& (old(self).greedy() ==> v.len() == if (max as int) <= old(
                        self,
                    ).stream().len() {
                        max as int
                    } else {
                        old(self).stream().len() as int
                    })
                },
                Err(_) => final(self).stream().len() <= old(self).stream().len(),
            },
    ;
}

/// Byte-at-a-time access on top of any [`ByteSource`]: `None` is the end of
/// the stream, `Some(Ok(b))` the next byte, `Some(Err(_))` a transport error.
pub trait BytesIter: ByteSource {
    fn next_byte(&mut self) -> (r: Option<Result<u8, TransportError>>)
        requires
            old(self).wf(),
        ensures
            final(self).wf(),
            final(self).greedy() == old(self).greedy(),
            final(self).infallible() == old(self).infallible(),
            final(self).reads() <= old(self).reads() + 1,
            old(self).infallible() ==> !(r matches Some(Err(_))),
            match r {
                None => {
                    &&& old(self).stream().len() == 0
                    &&& final(self).stream() == old(self).stream()
                },
                Some(Ok(b)) => {
                    &&& old(self).stream().len() > 0
                    &&& b == old(self).stream()[0]
                    &&& final(self).stream() == old(self).stream().skip(1)
                },
                Some(Err(_)) => final(self).stream().len() <= old(self).stream().len(),
            },
    ;
}

impl<R: ByteSource> BytesIter for R {
    fn next_byte(&mut self) -> (r: Option<Result<u8, TransportError>>) {
        match self.read(1) {
            Ok(v) => {
                if v.len() == 0 {
                    proof {
                        assert(self.stream() =~= old(self).stream());
                    }
                    None
                } else {
                    Some(Ok(v[0]))
                }
            },
            Err(e) => Some(Err(e)),
        }
    }
}

/// An in-memory [`ByteSource`], delivering a fixed byte vector. It is greedy
/// and never fails, and it counts its physical reads, so it doubles as the
/// reference source for reasoning about buffering behaviour.
pub struct MemSource {
    pub data: Vec<u8>,
    pub pos: usize,
    pub phys_reads: u64,
    pub phys_reads_count: Ghost<nat>,
}

impl MemSource {
    pub fn new(data: Vec<u8>) -> (r: MemSource)
        ensures
            r.wf(),
            r.stream() == data@,
            r.reads() == 0,
            r.greedy(),
    {
        MemSource { data, pos: 0, phys_reads: 0, phys_reads_count: Ghost(0nat) }
    }

    /// How many physical reads were issued, saturating at `u64::MAX`.
    pub fn reads_made(&self) -> (r: u64)
        requires
            self.wf(),
        ensures
            r as nat <= self.reads(),
            self.reads() < u64::MAX as nat ==> r as nat == self.reads(),
    {
        self.phys_reads
    }
}

impl ByteSource for MemSource {
    open spec fn wf(&self) -> bool {
        &&& self.pos <= self.data.len()
        &&& (self.phys_reads_count@ < u64::MAX as nat ==> self.phys_reads as nat
            == self.phys_reads_count@)
        &&& self.phys_reads as nat <= self.phys_reads_count@
    }

    open spec fn stream(&self) -> Seq<u8> {
        self.data@.skip(self.pos as int)
    }

    open spec fn reads(&self) -> nat {
        self.phys_reads_count@
    }

    open spec fn greedy(&self) -> bool {
        true
    }

    open spec fn infallible(&self) -> bool {
        true
    }

    fn read(&mut self, max: usize) -> (r: Result<Vec<u8>, TransportError>) {
        let remaining = self.data.len() - self.pos;
        let k = if max < remaining {
            max
        } else {
            remaining
        };
        let mut v: Vec<u8> = Vec::new();
        let mut i: usize = 0;
        while i < k
            invariant
                i <= k,
                k <= self.data.len() - self.pos,
                v@ =~= self.data@.subrange(self.pos as int, self.pos + i),
                self == old(self),
            decreases k - i,
        {
            v.push(self.data[self.pos + i]);
            i += 1;
        }
        self.pos = self.pos + k;
        if self.phys_reads < u64::MAX {
            self.phys_reads = self.phys_reads + 1;
        }
        proof {
            self.phys_reads_count@ = self.phys_reads_count@ + 1;
        }
        proof {
            assert(v@ =~= old(self).stream().take(k as int));
            assert(final(self).stream() =~= old(self).stream().skip(k as int));
        }
        Ok(v)
    }
}

} // verus!
