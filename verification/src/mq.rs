//! A model of multi-queue block requests and the tag set that tracks them
//! while they are in flight.
//!
//! A request is identified, while outstanding, by the pair of its hardware
//! queue index and its tag.  The tag set is the lookup table from that pair
//! to the request, which the reply path uses to find the request a reply
//! completes.

use vstd::prelude::*;

use crate::errno::Error;

verus! {

/// One buffer of a request, as the byte lengths of its contiguous segments.
#[verifier::ext_equal]
pub struct Bio {
    pub segments: Vec<u32>,
}

/// Where a request stands in its lifecycle.
#[derive(Clone, Copy, Debug, PartialEq, Eq, Structural)]
pub enum ReqState {
    /// Handed to the driver, not yet dispatched.
    New,
    /// Dispatch has begun; the timeout clock is running.
    Started,
    /// Completion has been signalled with a final status.
    Ended,
}

/// One block I/O request, together with the driver's private data `D`.
#[verifier::ext_equal]
pub struct Request<D> {
    /// The command kind (read, write, flush, trim, or something else).
    pub command: u32,
    /// The tag identifying this request within its hardware queue.
    pub tag: i32,
    /// The first 512-byte sector the request addresses.
    pub sector: u64,
    /// The data buffers, split into contiguous segments.
    pub bios: Vec<Bio>,
    /// The driver's private per-request data.
    pub data: D,
    /// Lifecycle state.
    pub state: ReqState,
    /// The final status, once the request has ended.
    pub outcome: Option<Result<(), Error>>,
}

/// The sum of the segment lengths of one buffer.
pub open spec fn seg_sum(s: Seq<u32>) -> int
    decreases s.len(),
{
    if s.len() == 0 {
        0
    } else {
        seg_sum(s.drop_last()) + s.last()
    }
}

/// The total payload size of a request, over all buffers.
pub open spec fn payload_of(bios: Seq<Bio>) -> int
    decreases bios.len(),
{
    if bios.len() == 0 {
        0
    } else {
        payload_of(bios.drop_last()) + seg_sum(bios.last().segments@)
    }
}

pub proof fn lemma_seg_sum_take(s: Seq<u32>, i: int)
    requires
        0 <= i < s.len(),
    ensures
        seg_sum(s.take(i + 1)) == seg_sum(s.take(i)) + s[i],
{
    assert(s.take(i + 1).drop_last() =~= s.take(i));
    assert(s.take(i + 1).last() == s[i]);
}

pub proof fn lemma_payload_take(bios: Seq<Bio>, i: int)
    requires
        0 <= i < bios.len(),
    ensures
        payload_of(bios.take(i + 1)) == payload_of(bios.take(i)) + seg_sum(bios[i].segments@),
{
    assert(bios.take(i + 1).drop_last() =~= bios.take(i));
    assert(bios.take(i + 1).last() == bios[i]);
}

pub proof fn lemma_seg_sum_nonneg(s: Seq<u32>)
    ensures
        seg_sum(s) >= 0,
    decreases s.len(),
{
    if s.len() > 0 {
        lemma_seg_sum_nonneg(s.drop_last());
    }
}

pub proof fn lemma_payload_nonneg(bios: Seq<Bio>)
    ensures
        payload_of(bios) >= 0,
    decreases bios.len(),
{
    if bios.len() > 0 {
        lemma_payload_nonneg(bios.drop_last());
        lemma_seg_sum_nonneg(bios.last().segments@);
    }
}

/// A prefix of the buffers carries at most the whole payload.
pub proof fn lemma_payload_prefix(bios: Seq<Bio>, i: int)
    requires
        0 <= i <= bios.len(),
    ensures
        payload_of(bios.take(i)) <= payload_of(bios),
    decreases bios.len() - i,
{
    if i == bios.len() {
        assert(bios.take(i) =~= bios);
    } else {
        lemma_payload_take(bios, i);
        lemma_seg_sum_nonneg(bios[i].segments@);
        lemma_payload_prefix(bios, i + 1);
    }
}

/// A prefix of one buffer's segments carries at most the whole buffer.
pub proof fn lemma_seg_sum_prefix(s: Seq<u32>, i: int)
    requires
        0 <= i <= s.len(),
    ensures
        seg_sum(s.take(i)) <= seg_sum(s),
    decreases s.len() - i,
{
    if i == s.len() {
        assert(s.take(i) =~= s);
    } else {
        lemma_seg_sum_take(s, i);
        lemma_seg_sum_prefix(s, i + 1);
    }
}

impl<D> Request<D> {
    /// The command kind of the request.
    pub fn command(&self) -> (r: u32)
        ensures
            r == self.command,
    {
        self.command
    }

    /// The tag of the request.
    pub fn tag(&self) -> (r: i32)
        ensures
            r == self.tag,
    {
        self.tag
    }

    /// The first sector the request addresses.
    pub fn sector(&self) -> (r: u64)
        ensures
            r == self.sector,
    {
        self.sector
    }

    /// A reference to the driver's private per-request data.
    pub fn data_ref(&self) -> (r: &D)
        ensures
            *r == self.data,
    {
        &self.data
    }

    /// Marks the request as being processed; the block layer starts its
    /// timeout clock here.
    pub fn start(&mut self)
        requires
            old(self).state is New,
        ensures
            *final(self) == (Request { state: ReqState::Started, ..*old(self) }),
    {
        self.state = ReqState::Started;
    }

    /// Signals completion with `status`.  A request ends at most once: a
    /// second call changes nothing and reports failure, as the loser of the
    /// completion race.
    pub fn end(&mut self, status: Result<(), Error>) -> (ended: bool)
        ensures
            ended == !(old(self).state is Ended),
            ended ==> *final(self) == (Request {
                state: ReqState::Ended,
                outcome: Some(status),
                ..*old(self)
            }),
            !ended ==> *final(self) == *old(self),
    {
        match self.state {
            ReqState::Ended => false,
            _ => {
                self.state = ReqState::Ended;
                self.outcome = Some(status);
                true
            },
        }
    }

    /// The total payload size of the request in bytes.
    pub fn payload_bytes(&self) -> (r: u32)
        requires
            payload_of(self.bios@) <= u32::MAX,
        ensures
            r == payload_of(self.bios@),
    {
        let mut total: u64 = 0;
        let mut b: usize = 0;
        proof {
            assert(self.bios@.take(0) =~= Seq::<Bio>::empty());
        }
        while b < self.bios.len()
            invariant
                0 <= b <= self.bios@.len(),
                total == payload_of(self.bios@.take(b as int)),
                payload_of(self.bios@) <= u32::MAX,
            decreases self.bios@.len() - b,
        {
            let segs = &self.bios[b].segments;
            let mut s: usize = 0;
            proof {
                assert(segs@.take(0) =~= Seq::<u32>::empty());
            }
            while s < segs.len()
                invariant
                    0 <= s <= segs@.len(),
                    segs@ == self.bios@[b as int].segments@,
                    0 <= b < self.bios@.len(),
                    total == payload_of(self.bios@.take(b as int)) + seg_sum(segs@.take(s as int)),
                    payload_of(self.bios@) <= u32::MAX,
                decreases segs@.len() - s,
            {
                proof {
                    lemma_seg_sum_take(segs@, s as int);
                    lemma_seg_sum_prefix(segs@, s as int + 1);
                    lemma_payload_take(self.bios@, b as int);
                    lemma_payload_prefix(self.bios@, b as int + 1);
                    lemma_payload_nonneg(self.bios@.take(b as int));
                    lemma_seg_sum_nonneg(segs@.take(s as int));
                }
                total = total + segs[s] as u64;
                s = s + 1;
            }
            proof {
                lemma_payload_take(self.bios@, b as int);
                assert(segs@.take(s as int) =~= segs@);
            }
            b = b + 1;
        }
        proof {
            assert(self.bios@.take(b as int) =~= self.bios@);
            lemma_payload_nonneg(self.bios@);
        }
        total as u32
    }
}

/// The table of in-flight requests, indexed by hardware queue and tag.
#[verifier::ext_equal]
pub struct TagSet<D> {
    /// Number of hardware queues.
    pub nr_hw_queues: u32,
    /// Number of tags per hardware queue.
    pub num_tags: u32,
    /// In-flight requests, row-major by hardware queue.
    pub slots: Vec<Option<Request<D>>>,
}

impl<D> TagSet<D> {
    /// The table covers exactly its advertised queue and tag range.
    pub open spec fn wf(self) -> bool {
        self.slots@.len() == self.nr_hw_queues * self.num_tags
    }

    /// The in-flight request at `(hctx, tag)`, if the pair is in range and
    /// a request is outstanding there.
    pub open spec fn slot_of(self, hctx: int, tag: int) -> Option<Request<D>> {
        if 0 <= hctx < self.nr_hw_queues && 0 <= tag < self.num_tags {
            self.slots@[hctx * self.num_tags + tag]
        } else {
            None
        }
    }

    /// Creates a tag set with no request outstanding.
    pub fn new(nr_hw_queues: u32, num_tags: u32) -> (r: TagSet<D>)
        requires
            nr_hw_queues * num_tags <= usize::MAX,
        ensures
            r.wf(),
            r.nr_hw_queues == nr_hw_queues,
            r.num_tags == num_tags,
            forall|h: int, t: int| #[trigger] r.slot_of(h, t) is None,
    {
        let want: usize = (nr_hw_queues as usize) * (num_tags as usize);
        let mut slots: Vec<Option<Request<D>>> = Vec::new();
        while slots.len() < want
            invariant
                slots@.len() <= want,
                forall|i: int| 0 <= i < slots@.len() ==> #[trigger] slots@[i] is None,
            decreases want - slots.len(),
        {
            slots.push(None);
        }
        let r = TagSet { nr_hw_queues, num_tags, slots };
        proof {
            assert forall|h: int, t: int| #[trigger] r.slot_of(h, t) is None by {
                if 0 <= h < nr_hw_queues && 0 <= t < num_tags {
                    lemma_index_in_bounds(h, t, nr_hw_queues as int, num_tags as int);
                }
            }
        }
        r
    }

    /// Looks up the in-flight request for `(hctx, tag)`.
    pub fn tag_to_rq(&self, hctx: u32, tag: u32) -> (r: Option<&Request<D>>)
        requires
            self.wf(),
        ensures
            r is Some <==> self.slot_of(hctx as int, tag as int) is Some,
            r matches Some(rq) ==> self.slot_of(hctx as int, tag as int) == Some(*rq),
    {
        if hctx < self.nr_hw_queues && tag < self.num_tags {
            proof {
                lemma_index_in_bounds(
                    hctx as int,
                    tag as int,
                    self.nr_hw_queues as int,
                    self.num_tags as int,
                );
            }
            let _n: usize = self.slots.len();
            let i: usize = (hctx as usize) * (self.num_tags as usize) + (tag as usize);
            self.slots[i].as_ref()
        } else {
            None
        }
    }

    /// Stores `rq` as the in-flight request for `(hctx, tag)`.
    pub fn install(&mut self, hctx: u32, tag: u32, rq: Request<D>)
        requires
            old(self).wf(),
            hctx < old(self).nr_hw_queues,
            tag < old(self).num_tags,
        ensures
            final(self).wf(),
            final(self).nr_hw_queues == old(self).nr_hw_queues,
            final(self).num_tags == old(self).num_tags,
            final(self).slot_of(hctx as int, tag as int) == Some(rq),
            forall|h: int, t: int|
                !(h == hctx && t == tag) ==> #[trigger] final(self).slot_of(h, t) == old(
                    self,
                ).slot_of(h, t),
    {
        proof {
            lemma_index_in_bounds(
                hctx as int,
                tag as int,
                self.nr_hw_queues as int,
                self.num_tags as int,
            );
        }
        let _n: usize = self.slots.len();
        let i: usize = (hctx as usize) * (self.num_tags as usize) + (tag as usize);
        let mut put: Option<Request<D>> = Some(rq);
        core::mem::swap(&mut put, &mut self.slots[i]);
        proof {
            assert forall|h: int, t: int|
                !(h == hctx && t == tag) implies #[trigger] self.slot_of(h, t) == old(
                self,
            ).slot_of(h, t) by {
                if 0 <= h < self.nr_hw_queues && 0 <= t < self.num_tags {
                    lemma_index_in_bounds(h, t, self.nr_hw_queues as int, self.num_tags as int);
                    lemma_row_major_distinct(
                        h,
                        t,
                        hctx as int,
                        tag as int,
                        self.num_tags as int,
                    );
                }
            }
        }
    }

    /// Removes and returns the in-flight request for `(hctx, tag)`.
    pub fn uninstall(&mut self, hctx: u32, tag: u32) -> (r: Option<Request<D>>)
        requires
            old(self).wf(),
        ensures
            final(self).wf(),
            final(self).nr_hw_queues == old(self).nr_hw_queues,
            final(self).num_tags == old(self).num_tags,
            r == old(self).slot_of(hctx as int, tag as int),
            final(self).slot_of(hctx as int, tag as int) is None,
            forall|h: int, t: int|
                !(h == hctx && t == tag) ==> #[trigger] final(self).slot_of(h, t) == old(
                    self,
                ).slot_of(h, t),
    {
        if hctx < self.nr_hw_queues && tag < self.num_tags {
            proof {
                lemma_index_in_bounds(
                    hctx as int,
                    tag as int,
                    self.nr_hw_queues as int,
                    self.num_tags as int,
                );
            }
            let _n: usize = self.slots.len();
            let i: usize = (hctx as usize) * (self.num_tags as usize) + (tag as usize);
            let mut took: Option<Request<D>> = None;
            core::mem::swap(&mut took, &mut self.slots[i]);
            proof {
                assert forall|h: int, t: int|
                    !(h == hctx && t == tag) implies #[trigger] self.slot_of(h, t) == old(
                    self,
                ).slot_of(h, t) by {
                    if 0 <= h < self.nr_hw_queues && 0 <= t < self.num_tags {
                        lemma_index_in_bounds(h, t, self.nr_hw_queues as int, self.num_tags as int);
                        lemma_row_major_distinct(
                            h,
                            t,
                            hctx as int,
                            tag as int,
                            self.num_tags as int,
                        );
                    }
                }
            }
            took
        } else {
            None
        }
    }
}

/// A row-major position for an in-range pair lies inside the table.
proof fn lemma_index_in_bounds(h: int, t: int, nr: int, w: int)
    requires
        0 <= h < nr,
        0 <= t < w,
    ensures
        0 <= h * w,
        h * w + t < nr * w,
{
    mul_le(0, h, w);
    mul_le(h + 1, nr, w);
    vstd::arithmetic::mul::lemma_mul_is_distributive_add_other_way(w, h, 1);
    vstd::arithmetic::mul::lemma_mul_basics(w);
}

/// Multiplication keeps order on the left factor.
proof fn mul_le(a: int, b: int, c: int)
    requires
        a <= b,
        c >= 0,
    ensures
        a * c <= b * c,
{
    vstd::arithmetic::mul::lemma_mul_inequality(a, b, c);
}

/// Distinct (queue, tag) pairs map to distinct row-major positions.
proof fn lemma_row_major_distinct(h1: int, t1: int, h2: int, t2: int, w: int)
    requires
        0 <= t1 < w,
        0 <= t2 < w,
        !(h1 == h2 && t1 == t2),
    ensures
        h1 * w + t1 != h2 * w + t2,
{
    if h1 == h2 {
    } else if h1 < h2 {
        mul_le(h1 + 1, h2, w);
        vstd::arithmetic::mul::lemma_mul_is_distributive_add_other_way(w, h1, 1);
        vstd::arithmetic::mul::lemma_mul_basics(w);
    } else {
        mul_le(h2 + 1, h1, w);
        vstd::arithmetic::mul::lemma_mul_is_distributive_add_other_way(w, h2, 1);
        vstd::arithmetic::mul::lemma_mul_basics(w);
    }
}

} // verus!
