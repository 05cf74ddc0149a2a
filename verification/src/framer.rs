//! Incremental framer for the length-prefixed binary protocol: the
//! primary wire form, since an explicit size removes any ambiguity
//! about delimiter bytes inside a payload.

use vstd::prelude::*;
use vstd::bytes::{spec_u16_from_le_bytes, u16_from_le_bytes};

use crate::protocol::header_size;
use crate::text::{byte_runs, lemma_byte_runs_drop_first, lemma_byte_runs_push};

verus! {

/// The whole length of the frame at the head of a byte run: the
/// declared 16-bit size, but never less than the header itself, so
/// that a corrupt size cannot stall the stream.
pub open spec fn head_frame_len(b: Seq<u8>) -> int
    recommends
        b.len() >= header_size(),
{
    let sz = spec_u16_from_le_bytes(b.take(2)) as int;
    if sz < header_size() {
        header_size()
    } else {
        sz
    }
}

/// Whether a byte run starts with one whole frame.
pub open spec fn head_frame_ready(b: Seq<u8>) -> bool {
    b.len() >= header_size() && head_frame_len(b) <= b.len()
}

/// The whole frames at the front of a byte run, in order.
pub open spec fn frames_of(b: Seq<u8>) -> Seq<Seq<u8>>
    decreases b.len(),
{
    if head_frame_ready(b) {
        seq![b.take(head_frame_len(b))] + frames_of(b.skip(head_frame_len(b)))
    } else {
        Seq::empty()
    }
}

/// The bytes after the last whole frame: the partial tail.
pub open spec fn frames_rest(b: Seq<u8>) -> Seq<u8>
    decreases b.len(),
{
    if head_frame_ready(b) {
        frames_rest(b.skip(head_frame_len(b)))
    } else {
        b
    }
}

/// Chunking law for the binary framer: feeding a stream in two chunks
/// recovers exactly the frames of the concatenation, in order, with
/// the same partial tail; a frame sliced across the boundary is
/// reassembled, never re-split.
pub proof fn lemma_frames_split(a: Seq<u8>, b: Seq<u8>)
    ensures
        frames_of(a + b) == frames_of(a) + frames_of(frames_rest(a) + b),
        frames_rest(a + b) == frames_rest(frames_rest(a) + b),
    decreases a.len(),
{
    if head_frame_ready(a) {
        let n = head_frame_len(a);
        assert((a + b).take(2) =~= a.take(2));
        assert((a + b).take(n) =~= a.take(n));
        assert((a + b).skip(n) =~= a.skip(n) + b);
        lemma_frames_split(a.skip(n), b);
        assert(frames_of(a + b) =~= frames_of(a) + frames_of(frames_rest(a) + b));
    } else {
        if b.len() == 0 {
            assert(a + b =~= a);
        }
        assert(frames_rest(a) =~= a);
        assert(frames_of(a + b) =~= frames_of(a) + frames_of(frames_rest(a) + b));
    }
}

/// Incremental byte-stream segmenter: buffers pushed chunks and cuts
/// them into whole frames as soon as each declared size is covered.
pub struct FrameDecoder {
    frames: std::collections::VecDeque<Vec<u8>>,
    pending: Vec<u8>,
}

impl FrameDecoder {
    /// The whole frames extracted and not yet popped, oldest first.
    pub closed spec fn frames_view(&self) -> Seq<Seq<u8>> {
        byte_runs(self.frames@)
    }

    /// The buffered bytes of the still-incomplete tail frame.
    pub closed spec fn pending_view(&self) -> Seq<u8> {
        self.pending@
    }

    /// The pending tail never itself holds a whole frame.
    pub open spec fn wf(&self) -> bool {
        !head_frame_ready(self.pending_view())
    }

    pub fn new() -> (r: Self)
        ensures
            r.wf(),
            r.frames_view() == Seq::<Seq<u8>>::empty(),
            r.pending_view() == Seq::<u8>::empty(),
    {
        let r = FrameDecoder { frames: std::collections::VecDeque::new(), pending: Vec::new() };
        proof {
            assert(r.frames_view() =~= Seq::<Seq<u8>>::empty());
        }
        r
    }

    pub fn len(&self) -> (r: usize)
        ensures
            r == self.frames_view().len(),
    {
        self.frames.len()
    }

    pub fn is_empty(&self) -> (r: bool)
        ensures
            r == (self.frames_view().len() == 0),
    {
        self.frames.len() == 0
    }

    pub fn clear(&mut self)
        ensures
            final(self).wf(),
            final(self).frames_view() == Seq::<Seq<u8>>::empty(),
            final(self).pending_view() == Seq::<u8>::empty(),
    {
        self.frames.clear();
        self.pending.clear();
        proof {
            assert(self.frames_view() =~= Seq::<Seq<u8>>::empty());
        }
    }

    /// Appends newly received bytes and cuts every frame whose
    /// declared size is now covered; the remainder stays pending.
    pub fn push(&mut self, data: &[u8])
        requires
            old(self).wf(),
        ensures
            final(self).wf(),
            final(self).frames_view() == old(self).frames_view() + frames_of(
                old(self).pending_view() + data@,
            ),
            final(self).pending_view() == frames_rest(old(self).pending_view() + data@),
    {
        let ghost full = old(self).pending_view() + data@;
        let ghost old_frames = old(self).frames_view();

        let mut i: usize = 0;
        while i < data.len()
            invariant
                i <= data@.len(),
                self.pending@ == old(self).pending_view() + data@.take(i as int),
                self.frames@ == old(self).frames@,
                self.pending@.len() == old(self).pending_view().len() + i,
            decreases data@.len() - i,
        {
            self.pending.push(data[i]);
            proof {
                assert(old(self).pending_view() + data@.take(i + 1) =~= (old(
                    self,
                ).pending_view() + data@.take(i as int)).push(data@[i as int]));
            }
            i = i + 1;
        }
        proof {
            assert(data@.take(data@.len() as int) =~= data@);
            assert(self.pending@ == full);
        }

        loop
            invariant
                full == old(self).pending_view() + data@,
                old_frames == old(self).frames_view(),
                self.frames_view() + frames_of(self.pending_view()) =~= old_frames + frames_of(
                    full,
                ),
                frames_rest(self.pending_view()) == frames_rest(full),
            decreases self.pending@.len(),
        {
            if self.pending.len() < 3 {
                proof {
                    assert(frames_of(self.pending_view()) =~= Seq::<Seq<u8>>::empty());
                    assert(self.frames_view() =~= old_frames + frames_of(full));
                }
                return ;
            }
            let size_bytes = vstd::slice::slice_subrange(self.pending.as_slice(), 0, 2);
            proof {
                assert(size_bytes@ =~= self.pending@.take(2));
            }
            let declared = u16_from_le_bytes(size_bytes);
            let flen: usize = if declared < 3 {
                3
            } else {
                declared as usize
            };
            proof {
                assert(flen == head_frame_len(self.pending_view()));
            }
            if flen > self.pending.len() {
                proof {
                    assert(!head_frame_ready(self.pending_view()));
                    assert(frames_of(self.pending_view()) =~= Seq::<Seq<u8>>::empty());
                    assert(self.frames_view() =~= old_frames + frames_of(full));
                }
                return ;
            }
            // The head frame is whole: cut it off the pending buffer.
            let ghost before = self.pending_view();
            let mut frame: Vec<u8> = Vec::new();
            let mut k: usize = 0;
            while k < flen
                invariant
                    k <= flen,
                    flen <= self.pending@.len(),
                    self.pending@ == before,
                    frame@ == before.take(k as int),
                decreases flen - k,
            {
                frame.push(self.pending[k]);
                proof {
                    assert(before.take(k + 1) =~= before.take(k as int).push(before[k as int]));
                }
                k = k + 1;
            }
            let mut rest: Vec<u8> = Vec::new();
            let mut k2: usize = flen;
            while k2 < self.pending.len()
                invariant
                    flen <= k2 <= self.pending@.len(),
                    self.pending@ == before,
                    rest@ == before.subrange(flen as int, k2 as int),
                decreases self.pending@.len() - k2,
            {
                rest.push(self.pending[k2]);
                proof {
                    assert(before.subrange(flen as int, k2 + 1) =~= before.subrange(
                        flen as int,
                        k2 as int,
                    ).push(before[k2 as int]));
                }
                k2 = k2 + 1;
            }
            proof {
                assert(frame@ =~= before.take(flen as int));
                assert(rest@ =~= before.skip(flen as int));
                lemma_byte_runs_push(self.frames@, frame);
                assert(frames_of(before) == seq![before.take(flen as int)] + frames_of(
                    before.skip(flen as int),
                ));
            }
            self.frames.push_back(frame);
            self.pending = rest;
            proof {
                assert(self.frames_view() + frames_of(self.pending_view()) =~= old_frames
                    + frames_of(full));
            }
        }
    }

    /// Returns the oldest whole frame, in arrival order; the pending
    /// tail is never surfaced.
    pub fn pop(&mut self) -> (r: Option<Vec<u8>>)
        requires
            old(self).wf(),
        ensures
            final(self).wf(),
            final(self).pending_view() == old(self).pending_view(),
            old(self).frames_view().len() > 0 ==> (r matches Some(f) && f@ == old(
                self,
            ).frames_view()[0] && final(self).frames_view() == old(
                self,
            ).frames_view().drop_first()),
            old(self).frames_view().len() == 0 ==> r is None && final(self).frames_view() == old(
                self,
            ).frames_view(),
    {
        proof {
            if self.frames@.len() > 0 {
                lemma_byte_runs_drop_first(self.frames@);
            }
        }
        self.frames.pop_front()
    }
}

} // verus!
