//! Newline framing for the byte stream a transport carries: bytes go
//! in as they arrive, complete records come out one line at a time,
//! and a partial line waits for more input.

use vstd::prelude::*;

verus! {

pub const B_NEWLINE: u8 = 0x0a;

/// The position of the first record delimiter, if one has arrived.
pub open spec fn first_nl_from(s: Seq<u8>, i: int) -> Option<int>
    decreases s.len() - i,
{
    if i < 0 || i >= s.len() {
        Option::None
    } else if s[i] == B_NEWLINE {
        Option::Some(i)
    } else {
        first_nl_from(s, i + 1)
    }
}

/// Buffers an incoming byte stream and yields newline-delimited frames.
pub struct FrameBuffer {
    buf: Vec<u8>,
}

impl FrameBuffer {
    pub closed spec fn view(&self) -> Seq<u8> {
        self.buf@
    }

    pub fn new() -> (r: FrameBuffer)
        ensures
            r@ == Seq::<u8>::empty(),
    {
        let r = FrameBuffer { buf: Vec::new() };
        proof {
            assert(r.buf@ =~= Seq::<u8>::empty());
        }
        r
    }

    /// Appends bytes as they arrive from the medium.
    pub fn push_bytes(&mut self, chunk: &[u8])
        ensures
            final(self)@ == old(self)@ + chunk@,
    {
        let mut k: usize = 0;
        while k < chunk.len()
            invariant
                k <= chunk@.len(),
                self.buf@ == old(self).buf@ + chunk@.subrange(0, k as int),
            decreases chunk@.len() - k,
        {
            self.buf.push(chunk[k]);
            proof {
                assert(self.buf@ =~= old(self).buf@ + chunk@.subrange(0, k + 1));
            }
            k = k + 1;
        }
        proof {
            assert(chunk@.subrange(0, chunk@.len() as int) =~= chunk@);
        }
    }

    /// Takes the next complete record off the front, without its
    /// delimiter; `None` while no delimiter has arrived, so a streaming
    /// reader waits instead of failing.
    pub fn take_frame(&mut self) -> (r: Option<Vec<u8>>)
        ensures
            match first_nl_from(old(self)@, 0) {
                Option::Some(ix) => match r {
                    Option::Some(f) => f@ == old(self)@.subrange(0, ix) && final(self)@
                        == old(self)@.subrange(ix + 1, old(self)@.len() as int),
                    Option::None => false,
                },
                Option::None => r is None && final(self)@ == old(self)@,
            },
    {
        let n = self.buf.len();
        let mut k: usize = 0;
        while k < n
            invariant
                k <= n,
                n == self.buf@.len(),
                self == old(self),
                first_nl_from(self.buf@, 0) == first_nl_from(self.buf@, k as int),
                forall|m: int| 0 <= m < k ==> self.buf@[m] != B_NEWLINE,
            decreases n - k,
        {
            if self.buf[k] == B_NEWLINE {
                let mut f: Vec<u8> = Vec::new();
                let mut m: usize = 0;
                while m < k
                    invariant
                        m <= k < self.buf@.len(),
                        self == old(self),
                        f@ == self.buf@.subrange(0, m as int),
                    decreases k - m,
                {
                    f.push(self.buf[m]);
                    proof {
                        assert(f@ =~= self.buf@.subrange(0, m + 1));
                    }
                    m = m + 1;
                }
                let mut rest: Vec<u8> = Vec::new();
                let mut p: usize = k + 1;
                while p < n
                    invariant
                        k + 1 <= p <= n,
                        n == self.buf@.len(),
                        self == old(self),
                        rest@ == self.buf@.subrange(k + 1, p as int),
                    decreases n - p,
                {
                    rest.push(self.buf[p]);
                    proof {
                        assert(rest@ =~= self.buf@.subrange(k + 1, p + 1));
                    }
                    p = p + 1;
                }
                self.buf = rest;
                return Some(f);
            }
            k = k + 1;
        }
        None
    }
}

} // verus!
