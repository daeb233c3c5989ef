//! The device core of the network block device client: per-connection
//! transport endpoints and the shared state of one exposed device.
//!
//! One device owns an ordered list of connections; the position of a
//! connection in that list is its queue index, the routing key for dispatch.
//! Outgoing requests are encoded and sent on the connection picked by the
//! hardware queue index; each connection's receive worker decodes replies
//! and completes the matching in-flight request.  A disconnect flag, a
//! live-connection counter and the geometry configuration complete the
//! state.
//!
//! The transport itself is modelled as data: what a connection has sent is
//! recorded frame by frame, and what the peer delivers is handed in as
//! arguments.  The blocking points of the driver (the receive loop of each
//! worker, the wait of the run loop) are driven by event sequences, so every
//! decision the driver takes is a sequential, fully specified transition.

use vstd::prelude::*;

use crate::errno::Error;
use crate::gendisk::GenDisk;
use crate::mq::{payload_of, Bio, ReqState, Request, TagSet};
use crate::wire::{
    build_disconnect, build_request, disconnect_bytes, nbd_cmd_of, parse_reply, request_bytes,
    from_be32, NBD_REPLY_MAGIC, REPLY_SIZE, REQ_OP_WRITE, REQ_OP_READ,
};

verus! {

/// Control-plane command codes.
pub const NBD_SET_SOCK: u32 = 0xab00;
pub const NBD_SET_BLKSIZE: u32 = 0xab01;
pub const NBD_SET_SIZE: u32 = 0xab02;
pub const NBD_DO_IT: u32 = 0xab03;
pub const NBD_CLEAR_SOCK: u32 = 0xab04;
pub const NBD_SET_SIZE_BLOCKS: u32 = 0xab07;
pub const NBD_DISCONNECT: u32 = 0xab08;
pub const NBD_SET_FLAGS: u32 = 0xab0a;

/// Flag bit: the server supports flush.
pub const NBD_FLAG_SEND_FLUSH: u32 = 4;
/// Flag bit: the server supports forced unit access.
pub const NBD_FLAG_SEND_FUA: u32 = 8;

/// Block size used when the control plane asks for size zero.
pub const DEFAULT_BLK_SIZE: u32 = 1024;

/// One frame handed to the transport: either an encoded header, or one
/// contiguous payload segment given by its length.  `more` mirrors the
/// transport hint that further data of the same logical message follows.
#[verifier::ext_equal]
pub enum Frame {
    Header { bytes: Vec<u8>, more: bool },
    Data { len: u32, more: bool },
}

/// Whether `f` is a header frame carrying exactly `bytes`.
pub open spec fn is_header_frame(f: Frame, bytes: Seq<u8>, more: bool) -> bool {
    f matches Frame::Header { bytes: b, more: m } && b@ == bytes && m == more
}

/// One transport connection of the device.
///
/// The endpoint records what it has transmitted (`sent`) and the byte counts
/// it has pulled off the wire into request buffers (`received`).  Once
/// `shut_down` is set, sending fails.  `dead` is set when the connection's
/// receive worker has terminated.
#[verifier::ext_equal]
pub struct NbdSocket {
    /// Frames transmitted on this connection, in order.
    pub sent: Vec<Frame>,
    /// Lengths of the payload segments received into request buffers.
    pub received: Vec<u32>,
    /// Bidirectional shutdown was requested.
    pub shut_down: bool,
    /// The receive worker of this connection has terminated.
    pub dead: bool,
}

impl NbdSocket {
    /// Wraps a freshly resolved transport endpoint.
    pub fn try_new() -> (r: NbdSocket)
        ensures
            r.sent@ =~= Seq::<Frame>::empty(),
            r.received@ =~= Seq::<u32>::empty(),
            !r.shut_down,
            !r.dead,
    {
        NbdSocket { sent: Vec::new(), received: Vec::new(), shut_down: false, dead: false }
    }

    /// Requests bidirectional shutdown of the endpoint.
    pub fn shutdown(&mut self)
        ensures
            *final(self) == (NbdSocket { shut_down: true, ..*old(self) }),
    {
        self.shut_down = true;
    }

    /// Encodes and transmits one request header; the "more data follows"
    /// hint is set exactly for write commands, whose payload follows in the
    /// same logical message.
    pub fn send_message(&mut self, index: u32, tag: i32, cmd: u32, from: u64, len: u32) -> (r:
        Result<(), Error>)
        ensures
            nbd_cmd_of(cmd) is None ==> r == Err::<(), Error>(Error::NotSupp) && *final(self)
                == *old(self),
            nbd_cmd_of(cmd) is Some && old(self).shut_down ==> r == Err::<(), Error>(Error::Pipe)
                && *final(self) == *old(self),
            nbd_cmd_of(cmd) is Some && !old(self).shut_down ==> r is Ok && final(self).sent@.len()
                == old(self).sent@.len() + 1 && final(self).sent@.drop_last() == old(self).sent@
                && is_header_frame(
                final(self).sent@.last(),
                request_bytes(index, tag, cmd, from, len),
                cmd == REQ_OP_WRITE,
            ) && final(self).received == old(self).received && final(self).shut_down == old(self).shut_down && final(self).dead == old(self).dead,
    {
        let more = cmd == REQ_OP_WRITE;
        let header = build_request(index, tag, cmd, from, len)?;
        if self.shut_down {
            return Err(Error::Pipe);
        }
        self.sent.push(Frame::Header { bytes: header, more });
        proof {
            assert(self.sent@.drop_last() =~= old(self).sent@);
        }
        Ok(())
    }

    /// Transmits one contiguous payload segment of `len` bytes; `more` is
    /// set for every segment except the last one of the request.
    pub fn send_segment(&mut self, len: u32, more: bool) -> (r: Result<(), Error>)
        ensures
            old(self).shut_down ==> r == Err::<(), Error>(Error::Pipe) && *final(self) == *old(self),
            !old(self).shut_down ==> r is Ok && final(self).sent@ == old(self).sent@.push(
                Frame::Data { len, more },
            ) && final(self).received == old(self).received && final(self).shut_down == old(self).shut_down && final(self).dead == old(self).dead,
    {
        if self.shut_down {
            return Err(Error::Pipe);
        }
        self.sent.push(Frame::Data { len, more });
        Ok(())
    }

    /// Pulls one payload segment of `len` bytes off the wire into a request
    /// buffer.  `delivered` is the outcome of the blocking receive: whether
    /// the transport produced the bytes.
    pub fn receive_segment(&mut self, len: u32, delivered: bool) -> (r: Result<(), Error>)
        ensures
            delivered && !old(self).shut_down ==> r is Ok && final(self).received@ == old(self).received@.push(len) && final(self).sent == old(self).sent && final(self).shut_down
                == old(self).shut_down && final(self).dead == old(self).dead,
            !(delivered && !old(self).shut_down) ==> r == Err::<(), Error>(Error::Io) && *final(self) == *old(self),
    {
        if delivered && !self.shut_down {
            self.received.push(len);
            Ok(())
        } else {
            Err(Error::Io)
        }
    }

    /// Transmits the header-only disconnect command.
    pub fn send_disconnect(&mut self, index: u32) -> (r: Result<(), Error>)
        ensures
            old(self).shut_down ==> r == Err::<(), Error>(Error::Pipe) && *final(self) == *old(self),
            !old(self).shut_down ==> r is Ok && final(self).sent@.len() == old(self).sent@.len()
                + 1 && final(self).sent@.drop_last() == old(self).sent@ && is_header_frame(
                final(self).sent@.last(),
                disconnect_bytes(index),
                false,
            ) && final(self).received == old(self).received && final(self).shut_down == old(self).shut_down && final(self).dead == old(self).dead,
    {
        if self.shut_down {
            return Err(Error::Pipe);
        }
        let bytes = build_disconnect(index);
        self.sent.push(Frame::Header { bytes, more: false });
        proof {
            assert(self.sent@.drop_last() =~= old(self).sent@);
        }
        Ok(())
    }
}

/// The geometry configuration of one device.
#[verifier::ext_equal]
pub struct NbdConfig {
    /// Total exposed capacity in bytes.
    pub size: u64,
    /// Logical and physical block size in bytes.
    pub blk_size: u32,
    /// The base-two logarithm of the block size, rounded down.
    pub blk_size_bits: u32,
}

impl Default for NbdConfig {
    /// An unconfigured device: no capacity, 1024-byte blocks.
    fn default() -> (r: NbdConfig)
        ensures
            r == (NbdConfig { size: 0, blk_size: DEFAULT_BLK_SIZE, blk_size_bits: 10 }),
    {
        NbdConfig { size: 0, blk_size: DEFAULT_BLK_SIZE, blk_size_bits: 10 }
    }
}

/// The driver's private data attached to each in-flight request: the result
/// slot the completion race writes, and the queue index of the connection
/// serving the request.
#[verifier::ext_equal]
pub struct NbdRequestData {
    /// First recorded error is sticky; success may be overwritten.
    pub result: Result<(), Error>,
    /// The connection currently serving the request.
    pub socket: Option<usize>,
}

/// Per-hardware-queue context: the queue's routing index.
pub struct NbdContext {
    pub idx: u32,
}

/// What one wait on the run loop's condition variable returned.
pub enum RunEvent {
    /// The wait was woken normally.
    Woken,
    /// The wait was interrupted by a signal.
    Interrupted,
}

/// The number of connections whose receive worker has not terminated.
pub open spec fn live_count(s: Seq<NbdSocket>) -> int
    decreases s.len(),
{
    if s.len() == 0 {
        0int
    } else {
        live_count(s.drop_last()) + if s.last().dead {
            0int
        } else {
            1int
        }
    }
}

pub proof fn lemma_live_count_bounds(s: Seq<NbdSocket>)
    ensures
        0 <= live_count(s) <= s.len(),
    decreases s.len(),
{
    if s.len() > 0 {
        lemma_live_count_bounds(s.drop_last());
    }
}

pub proof fn lemma_live_count_push(s: Seq<NbdSocket>, x: NbdSocket)
    ensures
        live_count(s.push(x)) == live_count(s) + if x.dead {
            0int
        } else {
            1int
        },
{
    assert(s.push(x).drop_last() =~= s);
}

pub proof fn lemma_live_count_update(s: Seq<NbdSocket>, i: int, x: NbdSocket)
    requires
        0 <= i < s.len(),
    ensures
        live_count(s.update(i, x)) == live_count(s) - (if s[i].dead {
            0int
        } else {
            1int
        }) + (if x.dead {
            0int
        } else {
            1int
        }),
    decreases s.len(),
{
    if i == s.len() - 1 {
        assert(s.update(i, x).drop_last() =~= s.drop_last());
    } else {
        assert(s.update(i, x).drop_last() =~= s.drop_last().update(i, x));
        lemma_live_count_update(s.drop_last(), i, x);
    }
}

/// The shared state of one exposed network block device.
#[verifier::ext_equal]
pub struct NbdQueue {
    /// The exposed disk the block layer sees.
    pub disk: GenDisk,
    /// The in-flight requests, by hardware queue and tag.
    pub tagset: TagSet<NbdRequestData>,
    /// The connections, in queue-index order.
    pub sockets: Vec<NbdSocket>,
    /// Geometry configuration.
    pub config: NbdConfig,
    /// A disconnect has been requested.
    pub disconnected: bool,
    /// Connections whose receive worker has not terminated.
    pub live_connections: u32,
}

impl NbdQueue {
    /// The state invariant: the live counter counts exactly the connections
    /// whose receive worker has not terminated, the connection list fits the
    /// counter's width, and the tag table covers its advertised range.
    pub open spec fn wf(self) -> bool {
        &&& self.live_connections == live_count(self.sockets@)
        &&& self.sockets@.len() <= u32::MAX
        &&& self.tagset.wf()
    }

    /// Creates the state for one device: no connections, default geometry,
    /// a disk with no capacity, and room for the given tag range.
    pub fn new(nr_hw_queues: u32, num_tags: u32) -> (r: NbdQueue)
        requires
            nr_hw_queues * num_tags <= usize::MAX,
        ensures
            r.wf(),
            r.sockets@.len() == 0,
            r.config == (NbdConfig { size: 0, blk_size: DEFAULT_BLK_SIZE, blk_size_bits: 10 }),
            !r.disconnected,
            r.live_connections == 0,
            r.disk == (GenDisk {
                capacity_sectors: 0,
                logical_block_size: 512,
                physical_block_size: 512,
                write_cache: false,
                fua: false,
                rotational: false,
            }),
            r.tagset.nr_hw_queues == nr_hw_queues,
            r.tagset.num_tags == num_tags,
            forall|h: int, t: int| #[trigger] r.tagset.slot_of(h, t) is None,
    {
        let mut disk = GenDisk::new();
        disk.set_rotational(false);
        NbdQueue {
            disk,
            tagset: TagSet::new(nr_hw_queues, num_tags),
            sockets: Vec::new(),
            config: NbdConfig::default(),
            disconnected: false,
            live_connections: 0,
        }
    }

    /// Attaches one connection; its position in the list becomes its queue
    /// routing index, and the live counter grows by one.
    pub fn add_socket(&mut self) -> (r: Result<(), Error>)
        requires
            old(self).wf(),
            old(self).sockets@.len() < u32::MAX,
        ensures
            final(self).wf(),
            r is Ok,
            final(self).sockets@.len() == old(self).sockets@.len() + 1,
            final(self).sockets@.drop_last() == old(self).sockets@,
            final(self).sockets@.last().sent@.len() == 0,
            final(self).sockets@.last().received@.len() == 0,
            !final(self).sockets@.last().shut_down,
            !final(self).sockets@.last().dead,
            final(self).live_connections == old(self).live_connections + 1,
            final(self).disk == old(self).disk,
            final(self).tagset == old(self).tagset,
            final(self).config == old(self).config,
            final(self).disconnected == old(self).disconnected,
    {
        let fresh = NbdSocket::try_new();
        proof {
            lemma_live_count_push(self.sockets@, fresh);
            lemma_live_count_bounds(self.sockets@);
        }
        self.sockets.push(fresh);
        self.live_connections = self.live_connections + 1;
        proof {
            assert(self.sockets@.drop_last() =~= old(self).sockets@);
        }
        Ok(())
    }

    /// A connection's receive worker reports that its loop has terminated;
    /// called exactly once per worker.
    pub fn socket_dead(&mut self, idx: usize)
        requires
            old(self).wf(),
            idx < old(self).sockets@.len(),
            !old(self).sockets@[idx as int].dead,
        ensures
            final(self).wf(),
            final(self).sockets@ == old(self).sockets@.update(
                idx as int,
                (NbdSocket { dead: true, ..old(self).sockets@[idx as int] }),
            ),
            final(self).live_connections == old(self).live_connections - 1,
            final(self).disk == old(self).disk,
            final(self).tagset == old(self).tagset,
            final(self).config == old(self).config,
            final(self).disconnected == old(self).disconnected,
    {
        let sock = &mut self.sockets[idx];
        sock.dead = true;
        proof {
            lemma_live_count_update(
                old(self).sockets@,
                idx as int,
                (NbdSocket { dead: true, ..old(self).sockets@[idx as int] }),
            );
            lemma_live_count_bounds(self.sockets@);
        }
        self.live_connections = self.live_connections - 1;
    }

    /// What a best-effort disconnect send does to connection `idx`: an
    /// already shut-down endpoint is left alone, any other gets one
    /// disconnect header appended.
    pub open spec fn disc_effect(pre: NbdSocket, post: NbdSocket, idx: int) -> bool {
        if pre.shut_down {
            post == pre
        } else {
            &&& post.sent@.len() == pre.sent@.len() + 1
            &&& post.sent@.drop_last() == pre.sent@
            &&& is_header_frame(post.sent@.last(), disconnect_bytes(idx as u32), false)
            &&& post.received == pre.received
            &&& post.shut_down == pre.shut_down
            &&& post.dead == pre.dead
        }
    }

    /// Everything a requested disconnect does to the device state.
    pub open spec fn post_request_disconnect(pre: NbdQueue, post: NbdQueue) -> bool {
        &&& post.disconnected
        &&& post.sockets@.len() == pre.sockets@.len()
        &&& forall|j: int|
            0 <= j < pre.sockets@.len() ==> Self::disc_effect(
                pre.sockets@[j],
                #[trigger] post.sockets@[j],
                j,
            )
        &&& post.live_connections == pre.live_connections
        &&& post.disk == pre.disk
        &&& post.tagset == pre.tagset
        &&& post.config == pre.config
    }

    /// Sets the disconnect flag, then best-effort sends a disconnect header
    /// on every current connection; send errors are swallowed.
    pub fn request_disconnect(&mut self)
        requires
            old(self).wf(),
        ensures
            final(self).wf(),
            Self::post_request_disconnect(*old(self), *final(self)),
    {
        self.disconnected = true;
        let mut i: usize = 0;
        while i < self.sockets.len()
            invariant
                old(self).wf(),
                i <= self.sockets@.len(),
                self.sockets@.len() == old(self).sockets@.len(),
                forall|j: int|
                    0 <= j < i ==> Self::disc_effect(
                        old(self).sockets@[j],
                        #[trigger] self.sockets@[j],
                        j,
                    ),
                forall|j: int|
                    i <= j < self.sockets@.len() ==> #[trigger] self.sockets@[j] == old(self).sockets@[j],
                live_count(self.sockets@) == live_count(old(self).sockets@),
                self.live_connections == old(self).live_connections,
                self.disconnected,
                self.disk == old(self).disk,
                self.tagset == old(self).tagset,
                self.config == old(self).config,
            decreases self.sockets@.len() - i,
        {
            let ghost pre = self.sockets@;
            let idx32 = i as u32;
            let sock = &mut self.sockets[i];
            let ghost pre_sock = *sock;
            match sock.send_disconnect(idx32) {
                _ => {},
            }
            proof {
                assert(self.sockets@ =~= pre.update(i as int, self.sockets@[i as int]));
                lemma_live_count_update(pre, i as int, self.sockets@[i as int]);
            }
            i = i + 1;
        }
    }

    /// Force-closes and drops every connection and resets the live counter:
    /// the immediate return to the unconfigured state.
    pub fn detach_all(&mut self)
        requires
            old(self).wf(),
        ensures
            final(self).wf(),
            final(self).sockets@.len() == 0,
            final(self).live_connections == 0,
            final(self).disk == old(self).disk,
            final(self).tagset == old(self).tagset,
            final(self).config == old(self).config,
            final(self).disconnected == old(self).disconnected,
    {
        let mut i: usize = 0;
        while i < self.sockets.len()
            invariant
                i <= self.sockets@.len(),
                self.sockets@.len() == old(self).sockets@.len(),
                self.disk == old(self).disk,
                self.tagset == old(self).tagset,
                self.config == old(self).config,
                self.disconnected == old(self).disconnected,
            decreases self.sockets@.len() - i,
        {
            let sock = &mut self.sockets[i];
            sock.shutdown();
            i = i + 1;
        }
        self.sockets.clear();
        self.live_connections = 0;
    }

    /// Sets the total exposed capacity in bytes; the disk advertises it in
    /// 512-byte sectors.
    pub fn set_byte_size(&mut self, bytes: u64)
        ensures
            *final(self) == (NbdQueue {
                config: (NbdConfig { size: bytes, ..old(self).config }),
                disk: (GenDisk { capacity_sectors: bytes / 512, ..old(self).disk }),
                ..*old(self)
            }),
    {
        self.config.size = bytes;
        proof {
            assert(bytes >> 9u64 == bytes / 512) by (bit_vector);
        }
        self.disk.set_capacity_and_notify(bytes >> 9);
    }

    /// Sets the logical and physical block size; size zero selects the
    /// default.  Fails with `Inval` when the argument does not fit 32 bits.
    pub fn set_block_size(&mut self, arg: u64) -> (r: Result<i32, Error>)
        ensures
            arg > u32::MAX ==> r == Err::<i32, Error>(Error::Inval) && *final(self) == *old(self),
            arg <= u32::MAX ==> {
                let bs = if arg == 0 {
                    DEFAULT_BLK_SIZE
                } else {
                    arg as u32
                };
                r == Ok::<i32, Error>(0) && *final(self) == (NbdQueue {
                    config: (NbdConfig {
                        size: old(self).config.size,
                        blk_size: bs,
                        blk_size_bits: log2_down(bs as int) as u32,
                    }),
                    disk: (GenDisk {
                        logical_block_size: bs,
                        physical_block_size: bs,
                        ..old(self).disk
                    }),
                    ..*old(self)
                })
            },
    {
        if arg > 0xffff_ffffu64 {
            return Err(Error::Inval);
        }
        let arg32 = arg as u32;
        let bs: u32 = if arg32 == 0 {
            DEFAULT_BLK_SIZE
        } else {
            arg32
        };
        let bits = ilog2(bs);
        self.config.blk_size = bs;
        self.config.blk_size_bits = bits;
        self.disk.set_queue_physical_block_size(bs);
        self.disk.set_queue_logical_block_size(bs);
        Ok(0)
    }

    /// Sets the capacity as a count of blocks of the configured block size.
    /// Fails with `Inval` when shifting the block count by the block-size
    /// bits would overflow the 64-bit byte size.
    pub fn set_byte_size_from_blocks(&mut self, blocks: u64) -> (r: Result<i32, Error>)
        ensures
            old(self).config.blk_size_bits >= 64 ==> r == Err::<i32, Error>(Error::Inval) && *final(self) == *old(self),
            old(self).config.blk_size_bits < 64 && blocks > u64::MAX >> old(self).config.blk_size_bits ==> r == Err::<i32, Error>(Error::Inval) && *final(self) == *old(self),
            old(self).config.blk_size_bits < 64 && blocks <= u64::MAX >> old(self).config.blk_size_bits ==> {
                let ns = blocks << old(self).config.blk_size_bits;
                r == Ok::<i32, Error>(0) && *final(self) == (NbdQueue {
                    config: (NbdConfig { size: ns, ..old(self).config }),
                    disk: (GenDisk { capacity_sectors: ns >> 9u64, ..old(self).disk }),
                    ..*old(self)
                })
            },
    {
        if self.config.blk_size_bits >= 64 {
            return Err(Error::Inval);
        }
        if blocks > u64::MAX >> self.config.blk_size_bits {
            return Err(Error::Inval);
        }
        let ns: u64 = blocks << self.config.blk_size_bits;
        self.config.size = ns;
        self.disk.set_capacity_and_notify(ns >> 9);
        Ok(0)
    }

    /// Propagates write-cache capability to the exposed disk: the flush flag
    /// enables the cache, and forced unit access counts only with it.
    pub fn set_cache_flags(&mut self, flags: u32)
        ensures
            *final(self) == (NbdQueue {
                disk: (GenDisk {
                    write_cache: flags & NBD_FLAG_SEND_FLUSH != 0,
                    fua: flags & NBD_FLAG_SEND_FLUSH != 0 && flags & NBD_FLAG_SEND_FUA != 0,
                    ..old(self).disk
                }),
                ..*old(self)
            }),
    {
        if (flags & NBD_FLAG_SEND_FLUSH) != 0 {
            if (flags & NBD_FLAG_SEND_FUA) != 0 {
                self.disk.set_queue_write_cache(true, true);
            } else {
                self.disk.set_queue_write_cache(true, false);
            }
        } else {
            self.disk.set_queue_write_cache(false, false);
        }
    }

    /// The blocking run loop, driven by the events its condition-variable
    /// wait returns.
    ///
    /// If the live counter is zero the loop returns at once: success when a
    /// disconnect was requested, an I/O error for unexpected total
    /// connection loss; the exposed capacity is reset either way.  While
    /// connections are live, a normal wake re-checks and waits again; an
    /// interrupted wait force-clears all connections, resets the capacity
    /// and returns `RestartSys`.  When the event sequence runs out with
    /// connections still live, the loop is still blocked: `None`.
    ///
    /// The receive workers of the connections run independently of this
    /// wait; they are driven through [`Self::run_receive_loop`], and their
    /// terminations are what eventually bring the live counter to zero.
    pub fn run(&mut self, events: &Vec<RunEvent>) -> (r: Option<Result<i32, Error>>)
        requires
            old(self).wf(),
        ensures
            final(self).wf(),
            old(self).live_connections == 0 ==> r == Some(
                if old(self).disconnected {
                    Ok::<i32, Error>(0)
                } else {
                    Err::<i32, Error>(Error::Io)
                },
            ) && *final(self) == (NbdQueue {
                disk: (GenDisk { capacity_sectors: 0, ..old(self).disk }),
                ..*old(self)
            }),
            old(self).live_connections != 0 && (exists|k: int|
                0 <= k < events@.len() && events@[k] is Interrupted) ==> r == Some(
                Err::<i32, Error>(Error::RestartSys),
            ) && final(self).sockets@.len() == 0 && final(self).live_connections == 0 && final(self).disk == (GenDisk { capacity_sectors: 0, ..old(self).disk }) && final(self).config
                == old(self).config && final(self).tagset == old(self).tagset && final(self).disconnected == old(self).disconnected,
            old(self).live_connections != 0 && (forall|k: int|
                0 <= k < events@.len() ==> !(#[trigger] events@[k] is Interrupted)) ==> r is None
                && *final(self) == *old(self),
    {
        if self.live_connections == 0 {
            let out: Result<i32, Error> = if self.disconnected {
                Ok(0)
            } else {
                Err(Error::Io)
            };
            self.reset();
            return Some(out);
        }
        let mut k: usize = 0;
        while k < events.len()
            invariant
                old(self).wf(),
                old(self).live_connections != 0,
                k <= events@.len(),
                forall|j: int| 0 <= j < k ==> !(#[trigger] events@[j] is Interrupted),
                *self == *old(self),
            decreases events@.len() - k,
        {
            match &events[k] {
                RunEvent::Interrupted => {
                    self.sockets.clear();
                    self.live_connections = 0;
                    self.reset();
                    return Some(Err(Error::RestartSys));
                },
                RunEvent::Woken => {
                    k = k + 1;
                },
            }
        }
        None
    }

    /// Fresh per-request driver data: a success in the result slot and no
    /// serving connection yet.
    pub fn new_request_data() -> (r: NbdRequestData)
        ensures
            r.result == Ok::<(), Error>(()),
            r.socket is None,
    {
        NbdRequestData { result: Ok(()), socket: None }
    }

    /// Builds the per-hardware-queue context carrying the routing index.
    pub fn init_hctx(hctx_idx: u32) -> (r: NbdContext)
        ensures
            r.idx == hctx_idx,
    {
        NbdContext { idx: hctx_idx }
    }

    /// Completes a request with whatever its result slot holds; a request
    /// that has already ended is left alone.
    pub fn complete(rq: &mut Request<NbdRequestData>)
        ensures
            old(rq).state is Ended ==> *final(rq) == *old(rq),
            !(old(rq).state is Ended) ==> *final(rq) == (Request {
                state: ReqState::Ended,
                outcome: Some(old(rq).data.result),
                ..*old(rq)
            }),
    {
        let status = rq.data.result;
        let _ = rq.end(status);
    }

    /// Demultiplexes one decoded reply back to its in-flight request.
    ///
    /// The request is found by the reply's queue index and tag; a reply
    /// that matches nothing is dropped.  For a successful read reply the
    /// destination segments are pulled from the originating connection,
    /// `seg_ok` giving the outcome of each blocking receive in order; the
    /// first failure downgrades the outcome to an I/O error and stops the
    /// transfer.  The outcome then races into the request's result slot
    /// under the sticky-error rule, and completion is triggered if the slot
    /// was written.
    pub fn process_reply(
        &mut self,
        socket_idx: usize,
        result: Result<(), Error>,
        hctx_idx: u32,
        tag: u32,
        seg_ok: &Vec<bool>,
    )
        requires
            old(self).wf(),
            socket_idx < old(self).sockets@.len(),
        ensures
            final(self).wf(),
            post_process_reply(
                *old(self),
                *final(self),
                socket_idx as int,
                result,
                hctx_idx as int,
                tag as int,
                seg_ok@,
            ),
    {
        let taken = self.tagset.uninstall(hctx_idx, tag);
        match taken {
            None => {},
            Some(mut rq) => {
                proof {
                    assert(hctx_idx < old(self).tagset.nr_hw_queues);
                    assert(tag < old(self).tagset.num_tags);
                }
                let ghost shut = old(self).sockets@[socket_idx as int].shut_down;
                let ghost flat = flat_segs(rq.bios@);
                let ghost pre_received = old(self).sockets@[socket_idx as int].received@;
                let mut outcome = result;
                let is_ok = match result {
                    Ok(_) => true,
                    Err(_) => false,
                };
                if is_ok && rq.command == REQ_OP_READ {
                    let mut failed = false;
                    let mut k: usize = 0;
                    let mut b: usize = 0;
                    proof {
                        assert(flat.skip(0) =~= flat);
                        assert(rq.bios@.skip(0) =~= rq.bios@);
                        assert(flat.take(0) =~= Seq::<u32>::empty());
                        assert(pre_received + flat.take(0) =~= pre_received);
                        lemma_stop_from_bounds(flat.len() as int, seg_ok@, shut, 0);
                    }
                    while b < rq.bios.len() && !failed
                        invariant
                            old(self).wf(),
                            socket_idx < old(self).sockets@.len(),
                            self.disk == old(self).disk,
                            self.config == old(self).config,
                            self.disconnected == old(self).disconnected,
                            self.live_connections == old(self).live_connections,
                            self.sockets@.len() == old(self).sockets@.len(),
                            forall|j: int|
                                0 <= j < old(self).sockets@.len() && j != socket_idx
                                    ==> #[trigger] self.sockets@[j] == old(self).sockets@[j],
                            self.sockets@[socket_idx as int].sent == old(self).sockets@[socket_idx as int].sent,
                            self.sockets@[socket_idx as int].shut_down == shut,
                            self.sockets@[socket_idx as int].dead == old(self).sockets@[socket_idx as int].dead,
                            self.tagset.wf(),
                            self.tagset.nr_hw_queues == old(self).tagset.nr_hw_queues,
                            self.tagset.num_tags == old(self).tagset.num_tags,
                            forall|h2: int, t2: int|
                                !(h2 == hctx_idx && t2 == tag) ==> #[trigger] self.tagset.slot_of(
                                    h2,
                                    t2,
                                ) == old(self).tagset.slot_of(h2, t2),
                            self.tagset.slot_of(hctx_idx as int, tag as int) is None,
                            flat == flat_segs(rq.bios@),
                            shut == old(self).sockets@[socket_idx as int].shut_down,
                            pre_received == old(self).sockets@[socket_idx as int].received@,
                            b <= rq.bios@.len(),
                            k <= flat.len(),
                            self.sockets@[socket_idx as int].received@ == pre_received
                                + flat.take(k as int),
                            !failed ==> flat.skip(k as int) == flat_segs(rq.bios@.skip(b as int)),
                            !failed ==> recv_stop(flat.len() as int, seg_ok@, shut) == stop_from(
                                flat.len() as int,
                                seg_ok@,
                                shut,
                                k as int,
                            ),
                            failed ==> recv_stop(flat.len() as int, seg_ok@, shut) == k,
                            failed ==> k < flat.len(),
                            !failed ==> outcome == result,
                            failed ==> outcome == Err::<(), Error>(Error::Io),
                            live_count(self.sockets@) == live_count(old(self).sockets@),
                        decreases rq.bios@.len() - b + (if failed {
                            0int
                        } else {
                            1int
                        }),
                    {
                        let segs_len = rq.bios[b].segments.len();
                        let mut s: usize = 0;
                        proof {
                            assert(rq.bios@.skip(b as int).first() == rq.bios@[b as int]);
                            assert(rq.bios@.skip(b as int).drop_first() =~= rq.bios@.skip(
                                b as int + 1,
                            ));
                            assert(rq.bios@[b as int].segments@.skip(0) =~= rq.bios@[b as int].segments@);
                        }
                        while s < segs_len && !failed
                            invariant
                                old(self).wf(),
                                socket_idx < old(self).sockets@.len(),
                                self.disk == old(self).disk,
                                self.config == old(self).config,
                                self.disconnected == old(self).disconnected,
                                self.live_connections == old(self).live_connections,
                                self.sockets@.len() == old(self).sockets@.len(),
                                forall|j: int|
                                    0 <= j < old(self).sockets@.len() && j != socket_idx
                                        ==> #[trigger] self.sockets@[j] == old(self).sockets@[j],
                                self.sockets@[socket_idx as int].sent == old(self).sockets@[socket_idx as int].sent,
                                self.sockets@[socket_idx as int].shut_down == shut,
                                self.sockets@[socket_idx as int].dead == old(self).sockets@[socket_idx as int].dead,
                                self.tagset.wf(),
                                self.tagset.nr_hw_queues == old(self).tagset.nr_hw_queues,
                                self.tagset.num_tags == old(self).tagset.num_tags,
                                forall|h2: int, t2: int|
                                    !(h2 == hctx_idx && t2 == tag) ==> #[trigger] self.tagset.slot_of(
                                        h2,
                                        t2,
                                    ) == old(self).tagset.slot_of(h2, t2),
                                self.tagset.slot_of(hctx_idx as int, tag as int) is None,
                                flat == flat_segs(rq.bios@),
                                shut == old(self).sockets@[socket_idx as int].shut_down,
                                pre_received == old(self).sockets@[socket_idx as int].received@,
                                b < rq.bios@.len(),
                                segs_len == rq.bios@[b as int].segments@.len(),
                                s <= segs_len,
                                k <= flat.len(),
                                self.sockets@[socket_idx as int].received@ == pre_received
                                    + flat.take(k as int),
                                !failed ==> flat.skip(k as int) == rq.bios@[b as int].segments@.skip(
                                    s as int,
                                ) + flat_segs(rq.bios@.skip(b as int + 1)),
                                !failed ==> recv_stop(flat.len() as int, seg_ok@, shut)
                                    == stop_from(flat.len() as int, seg_ok@, shut, k as int),
                                failed ==> recv_stop(flat.len() as int, seg_ok@, shut) == k,
                                failed ==> k < flat.len(),
                                !failed ==> outcome == result,
                                failed ==> outcome == Err::<(), Error>(Error::Io),
                                live_count(self.sockets@) == live_count(old(self).sockets@),
                            decreases segs_len - s + (if failed {
                                0int
                            } else {
                                1int
                            }),
                        {
                            let len = rq.bios[b].segments[s];
                            proof {
                                assert(flat.skip(k as int)[0] == rq.bios@[b as int].segments@.skip(
                                    s as int,
                                )[0]);
                                assert(flat.skip(k as int).len() > 0);
                                assert(flat[k as int] == flat.skip(k as int)[0]);
                                assert(len == flat[k as int]);
                            }
                            let delivered = if k < seg_ok.len() {
                                seg_ok[k]
                            } else {
                                false
                            };
                            let ghost pre_socks = self.sockets@;
                            let sock = &mut self.sockets[socket_idx];
                            let res = sock.receive_segment(len, delivered);
                            proof {
                                assert(self.sockets@ =~= pre_socks.update(
                                    socket_idx as int,
                                    self.sockets@[socket_idx as int],
                                ));
                                lemma_live_count_update(
                                    pre_socks,
                                    socket_idx as int,
                                    self.sockets@[socket_idx as int],
                                );
                            }
                            match res {
                                Ok(_) => {
                                    proof {
                                        assert(seg_delivered(seg_ok@, shut, k as int));
                                        assert(flat.take(k as int + 1) =~= flat.take(
                                            k as int,
                                        ).push(flat[k as int]));
                                        assert(flat.skip(k as int + 1) =~= flat.skip(
                                            k as int,
                                        ).drop_first());
                                        assert(rq.bios@[b as int].segments@.skip(s as int + 1) =~= rq.bios@[b as int].segments@.skip(
                                            s as int,
                                        ).drop_first());
                                        assert((rq.bios@[b as int].segments@.skip(s as int)
                                            + flat_segs(rq.bios@.skip(b as int + 1))).drop_first()
                                            =~= rq.bios@[b as int].segments@.skip(s as int + 1)
                                            + flat_segs(rq.bios@.skip(b as int + 1)));
                                        lemma_stop_from_bounds(
                                            flat.len() as int,
                                            seg_ok@,
                                            shut,
                                            k as int + 1,
                                        );
                                    }
                                    s = s + 1;
                                    k = k + 1;
                                },
                                Err(_) => {
                                    proof {
                                        assert(!seg_delivered(seg_ok@, shut, k as int));
                                    }
                                    outcome = Err(Error::Io);
                                    failed = true;
                                },
                            }
                        }
                        if !failed {
                            proof {
                                assert(rq.bios@[b as int].segments@.skip(s as int) =~= Seq::<
                                    u32,
                                >::empty());
                                assert(flat.skip(k as int) =~= flat_segs(rq.bios@.skip(
                                    b as int + 1,
                                )));
                            }
                            b = b + 1;
                        }
                    }
                    proof {
                        if !failed {
                            assert(flat_segs(rq.bios@.skip(b as int)).len() == 0);
                            assert(flat.skip(k as int).len() == 0);
                            assert(k == flat.len());
                            assert(flat.take(k as int) =~= flat);
                        }
                        assert(self.sockets@[socket_idx as int].received@ == pre_received
                            + reply_pulled(rq, result, seg_ok@, shut));
                        assert(outcome == reply_outcome(rq, result, seg_ok@, shut));
                    }
                } else {
                    proof {
                        assert(reply_pulled(rq, result, seg_ok@, shut) =~= Seq::<u32>::empty());
                        assert(pre_received + reply_pulled(rq, result, seg_ok@, shut)
                            =~= pre_received);
                    }
                }
                let sticky = match rq.data.result {
                    Err(_) => true,
                    Ok(_) => false,
                };
                if !sticky {
                    rq.data.result = outcome;
                    let _ = rq.end(outcome);
                }
                self.tagset.install(hctx_idx, tag, rq);
            },
        }
    }

    /// The out-of-band timeout path: force-completes the in-flight request
    /// at `(hctx_idx, tag)` with an I/O error under the same sticky-error
    /// rule as the reply path, and shuts down the connection serving it.
    pub fn timeout(&mut self, hctx_idx: u32, tag: u32)
        requires
            old(self).wf(),
        ensures
            final(self).wf(),
            final(self).disk == old(self).disk,
            final(self).config == old(self).config,
            final(self).disconnected == old(self).disconnected,
            final(self).live_connections == old(self).live_connections,
            final(self).tagset.nr_hw_queues == old(self).tagset.nr_hw_queues,
            final(self).tagset.num_tags == old(self).tagset.num_tags,
            forall|h2: int, t2: int|
                !(h2 == hctx_idx && t2 == tag) ==> #[trigger] final(self).tagset.slot_of(h2, t2)
                    == old(self).tagset.slot_of(h2, t2),
            old(self).tagset.slot_of(hctx_idx as int, tag as int) is None ==> final(self).tagset.slot_of(
                hctx_idx as int,
                tag as int,
            ) is None && final(self).sockets == old(self).sockets,
            old(self).tagset.slot_of(hctx_idx as int, tag as int) matches Some(rq) ==> final(self).tagset.slot_of(
                hctx_idx as int,
                tag as int,
            ) == Some(timeout_request(rq)) && (match timeout_shutdown_target(
                rq,
                old(self).sockets@.len() as int,
            ) {
                Some(sidx) => final(self).sockets@ == old(self).sockets@.update(
                    sidx,
                    (NbdSocket { shut_down: true, ..old(self).sockets@[sidx] }),
                ),
                None => final(self).sockets@ == old(self).sockets@,
            }),
    {
        let taken = self.tagset.uninstall(hctx_idx, tag);
        match taken {
            None => {},
            Some(mut rq) => {
                let res: Result<(), Error> = match rq.data.result {
                    Err(e) => Err(e),
                    Ok(_) => Err(Error::Io),
                };
                rq.data.result = res;
                match rq.data.socket {
                    Some(sidx) => {
                        if sidx < self.sockets.len() {
                            let ghost pre_socks = self.sockets@;
                            let sock = &mut self.sockets[sidx];
                            sock.shutdown();
                            proof {
                                assert(self.sockets@ =~= pre_socks.update(
                                    sidx as int,
                                    (NbdSocket { shut_down: true, ..pre_socks[sidx as int] }),
                                ));
                                lemma_live_count_update(
                                    pre_socks,
                                    sidx as int,
                                    self.sockets@[sidx as int],
                                );
                            }
                        }
                    },
                    None => {},
                }
                let _ = rq.end(res);
                self.tagset.install(hctx_idx, tag, rq);
            },
        }
    }

    /// Dispatches one request: routes it to the connection at the hardware
    /// queue's routing index, transmits the encoded header (and, for a
    /// write, every payload segment), records the serving connection in the
    /// request and marks it started.
    ///
    /// Fails with `Pipe` when no connection occupies the routing index or
    /// the connection is already shut down, and with `NotSupp` for a
    /// command kind outside {write, read, flush, trim}; a failed dispatch
    /// changes nothing.
    #[verifier::rlimit(60)]
    pub fn queue_rq(&mut self, hw_data: &NbdContext, rq: Request<NbdRequestData>) -> (r: Result<
        (),
        Error,
    >)
        requires
            old(self).wf(),
            rq.state is New,
            0 <= rq.tag < old(self).tagset.num_tags,
            hw_data.idx < old(self).tagset.nr_hw_queues,
            old(self).tagset.slot_of(hw_data.idx as int, rq.tag as int) is None,
            payload_of(rq.bios@) <= u32::MAX,
        ensures
            final(self).wf(),
            hw_data.idx >= old(self).sockets@.len() ==> r == Err::<(), Error>(Error::Pipe)
                && *final(self) == *old(self),
            hw_data.idx < old(self).sockets@.len() && nbd_cmd_of(rq.command) is None ==> r
                == Err::<(), Error>(Error::NotSupp) && queue_unchanged(*old(self), *final(self)),
            hw_data.idx < old(self).sockets@.len() && nbd_cmd_of(rq.command) is Some && old(self).sockets@[hw_data.idx as int].shut_down ==> r == Err::<(), Error>(Error::Pipe)
                && queue_unchanged(*old(self), *final(self)),
            hw_data.idx < old(self).sockets@.len() && nbd_cmd_of(rq.command) is Some && !old(self).sockets@[hw_data.idx as int].shut_down ==> {
                let pre_sock = old(self).sockets@[hw_data.idx as int];
                let post_sock = final(self).sockets@[hw_data.idx as int];
                &&& r is Ok
                &&& final(self).disk == old(self).disk
                &&& final(self).config == old(self).config
                &&& final(self).disconnected == old(self).disconnected
                &&& final(self).live_connections == old(self).live_connections
                &&& final(self).sockets@.len() == old(self).sockets@.len()
                &&& forall|j: int|
                    0 <= j < old(self).sockets@.len() && j != hw_data.idx
                        ==> #[trigger] final(self).sockets@[j] == old(self).sockets@[j]
                &&& forall|h2: int, t2: int|
                    !(h2 == hw_data.idx && t2 == rq.tag) ==> #[trigger] final(self).tagset.slot_of(h2, t2) == old(self).tagset.slot_of(h2, t2)
                &&& final(self).tagset.slot_of(hw_data.idx as int, rq.tag as int) == Some(
                    (Request {
                        state: ReqState::Started,
                        data: (NbdRequestData {
                            result: rq.data.result,
                            socket: Some(hw_data.idx as usize),
                        }),
                        ..rq
                    }),
                )
                &&& post_sock.received == pre_sock.received
                &&& post_sock.shut_down == pre_sock.shut_down
                &&& post_sock.dead == pre_sock.dead
                &&& post_sock.sent@.take(pre_sock.sent@.len() as int) == pre_sock.sent@
                &&& is_header_frame(
                    post_sock.sent@[pre_sock.sent@.len() as int],
                    request_bytes(
                        hw_data.idx,
                        rq.tag,
                        rq.command,
                        rq.sector << 9u64,
                        payload_of(rq.bios@) as u32,
                    ),
                    rq.command == REQ_OP_WRITE,
                )
                &&& rq.command == REQ_OP_WRITE ==> post_sock.sent@.skip(
                    pre_sock.sent@.len() as int + 1,
                ) == data_frames(rq.bios@) && post_sock.sent@.len() == pre_sock.sent@.len() + 1
                    + data_frames(rq.bios@).len()
                &&& rq.command != REQ_OP_WRITE ==> post_sock.sent@.len() == pre_sock.sent@.len()
                    + 1
            },
    {
        let idx = hw_data.idx as usize;
        if idx >= self.sockets.len() {
            return Err(Error::Pipe);
        }
        let mut rq = rq;
        let cmd = rq.command();
        let tag = rq.tag();
        let len32 = rq.payload_bytes();
        let from: u64 = rq.sector() << 9;
        let ghost base = old(self).sockets@[idx as int].sent@.len() as int + 1;
        {
            let ghost pre_socks = self.sockets@;
            let sock = &mut self.sockets[idx];
            let res = sock.send_message(hw_data.idx, tag, cmd, from, len32);
            proof {
                assert(self.sockets@ =~= pre_socks.update(
                    idx as int,
                    self.sockets@[idx as int],
                ));
                lemma_live_count_update(pre_socks, idx as int, self.sockets@[idx as int]);
            }
            match res {
                Ok(_) => {},
                Err(e) => {
                    proof {
                        assert(self.sockets@ =~= old(self).sockets@);
                    }
                    return Err(e);
                },
            }
        }
        let ghost hdr_frame = self.sockets@[idx as int].sent@.last();
        proof {
            assert(is_header_frame(
                hdr_frame,
                request_bytes(
                    hw_data.idx,
                    rq.tag,
                    rq.command,
                    rq.sector << 9u64,
                    payload_of(rq.bios@) as u32,
                ),
                rq.command == REQ_OP_WRITE,
            ));
        }
        rq.data.socket = Some(idx);
        rq.start();
        if cmd == REQ_OP_WRITE {
            proof {
                assert(rq.bios@.skip(0) =~= rq.bios@);
                assert(self.sockets@[idx as int].sent@.skip(base) =~= Seq::<Frame>::empty());
                assert(self.sockets@[idx as int].sent@.skip(base) + data_frames(rq.bios@.skip(0))
                    =~= data_frames(rq.bios@));
            }
            let nbios = rq.bios.len();
            let mut b: usize = 0;
            while b < nbios
                invariant
                    old(self).wf(),
                    idx < self.sockets@.len(),
                    idx == hw_data.idx,
                    nbios == rq.bios@.len(),
                    b <= nbios,
                    self.disk == old(self).disk,
                    self.config == old(self).config,
                    self.disconnected == old(self).disconnected,
                    self.live_connections == old(self).live_connections,
                    self.tagset == old(self).tagset,
                    self.sockets@.len() == old(self).sockets@.len(),
                    forall|j: int|
                        0 <= j < old(self).sockets@.len() && j != idx ==> #[trigger] self.sockets@[j]
                            == old(self).sockets@[j],
                    live_count(self.sockets@) == live_count(old(self).sockets@),
                    !self.sockets@[idx as int].shut_down,
                    self.sockets@[idx as int].received == old(self).sockets@[idx as int].received,
                    self.sockets@[idx as int].dead == old(self).sockets@[idx as int].dead,
                    base == old(self).sockets@[idx as int].sent@.len() + 1,
                    base <= self.sockets@[idx as int].sent@.len(),
                    self.sockets@[idx as int].sent@.take(base - 1) == old(self).sockets@[idx as int].sent@,
                    self.sockets@[idx as int].sent@[base - 1] == hdr_frame,
                    self.sockets@[idx as int].sent@.skip(base) + data_frames(
                        rq.bios@.skip(b as int),
                    ) == data_frames(rq.bios@),
                decreases nbios - b,
            {
                let segs_len = rq.bios[b].segments.len();
                let last_bio = b + 1 == nbios;
                proof {
                    assert(rq.bios@.skip(b as int).first() == rq.bios@[b as int]);
                    assert(rq.bios@.skip(b as int).drop_first() =~= rq.bios@.skip(b as int + 1));
                    assert(data_frames(rq.bios@.skip(b as int)) == bio_frames(
                        rq.bios@[b as int].segments@,
                        last_bio,
                    ) + data_frames(rq.bios@.skip(b as int + 1)));
                    assert(self.sockets@[idx as int].sent@.skip(base) + (bio_frames(
                        rq.bios@[b as int].segments@,
                        last_bio,
                    ).skip(0) + data_frames(rq.bios@.skip(b as int + 1))) =~= self.sockets@[idx as int].sent@.skip(
                        base,
                    ) + data_frames(rq.bios@.skip(b as int)));
                }
                let mut s: usize = 0;
                while s < segs_len
                    invariant
                        old(self).wf(),
                        idx < self.sockets@.len(),
                        idx == hw_data.idx,
                        nbios == rq.bios@.len(),
                        b < nbios,
                        segs_len == rq.bios@[b as int].segments@.len(),
                        last_bio == (b + 1 == nbios),
                        s <= segs_len,
                        self.disk == old(self).disk,
                        self.config == old(self).config,
                        self.disconnected == old(self).disconnected,
                        self.live_connections == old(self).live_connections,
                        self.tagset == old(self).tagset,
                        self.sockets@.len() == old(self).sockets@.len(),
                        forall|j: int|
                            0 <= j < old(self).sockets@.len() && j != idx
                                ==> #[trigger] self.sockets@[j] == old(self).sockets@[j],
                        live_count(self.sockets@) == live_count(old(self).sockets@),
                        !self.sockets@[idx as int].shut_down,
                        self.sockets@[idx as int].received == old(self).sockets@[idx as int].received,
                        self.sockets@[idx as int].dead == old(self).sockets@[idx as int].dead,
                        base == old(self).sockets@[idx as int].sent@.len() + 1,
                        base <= self.sockets@[idx as int].sent@.len(),
                        self.sockets@[idx as int].sent@.take(base - 1) == old(self).sockets@[idx as int].sent@,
                        self.sockets@[idx as int].sent@[base - 1] == hdr_frame,
                        self.sockets@[idx as int].sent@.skip(base) + (bio_frames(
                            rq.bios@[b as int].segments@,
                            last_bio,
                        ).skip(s as int) + data_frames(rq.bios@.skip(b as int + 1)))
                            == data_frames(rq.bios@),
                    decreases segs_len - s,
                {
                    let seg = rq.bios[b].segments[s];
                    let more = s + 1 != segs_len || !last_bio;
                    let ghost pre_socks = self.sockets@;
                    let ghost pre_sent = self.sockets@[idx as int].sent@;
                    let sock = &mut self.sockets[idx];
                    let res = sock.send_segment(seg, more);
                    proof {
                        assert(self.sockets@ =~= pre_socks.update(
                            idx as int,
                            self.sockets@[idx as int],
                        ));
                        lemma_live_count_update(pre_socks, idx as int, self.sockets@[idx as int]);
                    }
                    match res {
                        Ok(_) => {},
                        Err(_) => {
                            proof {
                                assert(false);
                            }
                        },
                    }
                    proof {
                        let bf = bio_frames(rq.bios@[b as int].segments@, last_bio);
                        assert(bf[s as int] == (Frame::Data { len: seg, more }));
                        assert(bf.skip(s as int)[0] == bf[s as int]);
                        assert(bf.skip(s as int + 1) =~= bf.skip(s as int).drop_first());
                        assert(self.sockets@[idx as int].sent@.take(base - 1) =~= pre_sent.take(
                            base - 1,
                        ));
                        assert(self.sockets@[idx as int].sent@.skip(base) =~= pre_sent.skip(
                            base,
                        ).push(bf[s as int]));
                        assert(self.sockets@[idx as int].sent@.skip(base) + (bf.skip(s as int + 1)
                            + data_frames(rq.bios@.skip(b as int + 1))) =~= pre_sent.skip(base) + (
                        bf.skip(s as int) + data_frames(rq.bios@.skip(b as int + 1))));
                    }
                    s = s + 1;
                }
                proof {
                    let bf = bio_frames(rq.bios@[b as int].segments@, last_bio);
                    assert(bf.skip(s as int) =~= Seq::<Frame>::empty());
                    assert(self.sockets@[idx as int].sent@.skip(base) + data_frames(
                        rq.bios@.skip(b as int + 1),
                    ) =~= self.sockets@[idx as int].sent@.skip(base) + (bf.skip(s as int)
                        + data_frames(rq.bios@.skip(b as int + 1))));
                }
                b = b + 1;
            }
            proof {
                assert(data_frames(rq.bios@.skip(nbios as int)).len() == 0);
                assert(self.sockets@[idx as int].sent@.skip(base) + data_frames(
                    rq.bios@.skip(nbios as int),
                ) =~= self.sockets@[idx as int].sent@.skip(base));
            }
        }
        proof {
            assert(0 <= rq.tag);
            assert((rq.tag as u32) as int == rq.tag as int);
        }
        self.tagset.install(hw_data.idx, tag as u32, rq);
        Ok(())
    }

    /// Decodes one received reply header and demultiplexes it.
    ///
    /// `input` is what one blocking receive of the worker produced: either a
    /// transport failure (which surfaces as a broken pipe, as does a short
    /// read), or the received bytes together with the outcomes of the
    /// segment receives a successful read reply would trigger.  A header
    /// whose magic does not match fails with `Inval` and changes nothing.
    pub fn receive_message(&mut self, socket_idx: usize, input: &SocketInput) -> (r: Result<
        (),
        Error,
    >)
        requires
            old(self).wf(),
            socket_idx < old(self).sockets@.len(),
        ensures
            final(self).wf(),
            r is Err <==> msg_fails(*input),
            msg_fails(*input) ==> *final(self) == *old(self) && (input is Failure || !(input
                matches SocketInput::Header { bytes, .. } && bytes@.len() == REPLY_SIZE) ==> r
                == Err::<(), Error>(Error::Pipe)) && (input matches SocketInput::Header {
                bytes,
                ..
            } && bytes@.len() == REPLY_SIZE ==> r == Err::<(), Error>(Error::Inval)),
            !msg_fails(*input) ==> (input matches SocketInput::Header { bytes, seg_ok }
                && post_process_reply(
                *old(self),
                *final(self),
                socket_idx as int,
                (if from_be32(bytes@.subrange(4, 8)) == 0 {
                    Ok::<(), Error>(())
                } else {
                    Err::<(), Error>(Error::Io)
                }),
                from_be32(bytes@.subrange(8, 12)) as int,
                from_be32(bytes@.subrange(12, 16)) as int,
                seg_ok@,
            )),
    {
        match input {
            SocketInput::Failure => Err(Error::Pipe),
            SocketInput::Header { bytes, seg_ok } => {
                if bytes.len() != REPLY_SIZE {
                    return Err(Error::Pipe);
                }
                let (outcome, qidx, tag) = parse_reply(bytes.as_slice())?;
                self.process_reply(socket_idx, outcome, qidx, tag, seg_ok);
                Ok(())
            },
        }
    }

    /// The body of one connection's receive worker, driven by the sequence
    /// of receive outcomes the transport produces.
    ///
    /// Each input is one blocking receive: a decodable reply is
    /// demultiplexed and the loop goes on; the first failure (transport
    /// error, short read, or bad magic) terminates the loop, reporting the
    /// connection dead and dropping the live counter by one.  If the inputs
    /// run out without a failure the worker is still running.
    ///
    /// Every reply before the first failure is demultiplexed exactly once,
    /// in arrival order: the final request table is the fold of one
    /// demultiplexing step per input (`slot_after`), and the data pulled
    /// into read buffers is the concatenation of what each reply pulls
    /// (`pulled_after`).  In particular an error outcome already stored in
    /// any in-flight request's result slot survives the whole loop
    /// untouched.
    pub fn run_receive_loop(&mut self, socket_idx: usize, inputs: &Vec<SocketInput>) -> (terminated:
        bool)
        requires
            old(self).wf(),
            socket_idx < old(self).sockets@.len(),
            !old(self).sockets@[socket_idx as int].dead,
        ensures
            final(self).wf(),
            terminated <==> exists|i: int|
                0 <= i < inputs@.len() && msg_fails(#[trigger] inputs@[i]),
            terminated ==> final(self).sockets@[socket_idx as int].dead && final(self).live_connections == old(self).live_connections - 1,
            !terminated ==> !final(self).sockets@[socket_idx as int].dead && final(self).live_connections == old(self).live_connections,
            final(self).disk == old(self).disk,
            final(self).config == old(self).config,
            final(self).disconnected == old(self).disconnected,
            final(self).sockets@.len() == old(self).sockets@.len(),
            forall|j: int|
                0 <= j < old(self).sockets@.len() && j != socket_idx ==> #[trigger] final(self).sockets@[j] == old(self).sockets@[j],
            final(self).sockets@[socket_idx as int].sent == old(self).sockets@[socket_idx as int].sent,
            final(self).sockets@[socket_idx as int].shut_down == old(self).sockets@[socket_idx as int].shut_down,
            old(self).sockets@[socket_idx as int].received@.is_prefix_of(
                final(self).sockets@[socket_idx as int].received@,
            ),
            final(self).tagset.nr_hw_queues == old(self).tagset.nr_hw_queues,
            final(self).tagset.num_tags == old(self).tagset.num_tags,
            forall|h: int, t: int|
                (#[trigger] old(self).tagset.slot_of(h, t)) matches Some(rq) ==> rq.data.result
                    is Err ==> final(self).tagset.slot_of(h, t) == Some(rq),
            forall|h: int, t: int| #[trigger] final(self).tagset.slot_of(h, t) == slot_after(
                old(self).tagset.slot_of(h, t),
                h,
                t,
                old(self).sockets@[socket_idx as int].shut_down,
                inputs@,
            ),
            final(self).sockets@[socket_idx as int].received@ == old(self).sockets@[socket_idx as int].received@ + pulled_after(
                *old(self),
                old(self).sockets@[socket_idx as int].shut_down,
                inputs@,
            ),
    {
        let ghost shut = old(self).sockets@[socket_idx as int].shut_down;
        let ghost pre_received = old(self).sockets@[socket_idx as int].received@;
        proof {
            assert(inputs@.take(0) =~= Seq::<SocketInput>::empty());
            assert(pre_received + pulled_after(*old(self), shut, inputs@.take(0)) =~= pre_received);
        }
        let mut i: usize = 0;
        while i < inputs.len()
            invariant
                old(self).wf(),
                socket_idx < old(self).sockets@.len(),
                i <= inputs@.len(),
                self.wf(),
                forall|j: int| 0 <= j < i ==> !msg_fails(#[trigger] inputs@[j]),
                !self.sockets@[socket_idx as int].dead,
                self.live_connections == old(self).live_connections,
                self.disk == old(self).disk,
                self.config == old(self).config,
                self.disconnected == old(self).disconnected,
                self.sockets@.len() == old(self).sockets@.len(),
                forall|j: int|
                    0 <= j < old(self).sockets@.len() && j != socket_idx
                        ==> #[trigger] self.sockets@[j] == old(self).sockets@[j],
                self.sockets@[socket_idx as int].sent == old(self).sockets@[socket_idx as int].sent,
                self.sockets@[socket_idx as int].shut_down == old(self).sockets@[socket_idx as int].shut_down,
                old(self).sockets@[socket_idx as int].received@.is_prefix_of(
                    self.sockets@[socket_idx as int].received@,
                ),
                self.tagset.nr_hw_queues == old(self).tagset.nr_hw_queues,
                self.tagset.num_tags == old(self).tagset.num_tags,
                forall|h: int, t: int|
                    (#[trigger] old(self).tagset.slot_of(h, t)) matches Some(rq) ==> rq.data.result
                        is Err ==> self.tagset.slot_of(h, t) == Some(rq),
                shut == old(self).sockets@[socket_idx as int].shut_down,
                pre_received == old(self).sockets@[socket_idx as int].received@,
                forall|h: int, t: int| #[trigger] self.tagset.slot_of(h, t) == slot_after(
                    old(self).tagset.slot_of(h, t),
                    h,
                    t,
                    shut,
                    inputs@.take(i as int),
                ),
                self.sockets@[socket_idx as int].received@ == pre_received + pulled_after(
                    *old(self),
                    shut,
                    inputs@.take(i as int),
                ),
            decreases inputs@.len() - i,
        {
            let input = &inputs[i];
            let ghost mid = *self;
            let res = self.receive_message(socket_idx, input);
            match res {
                Ok(_) => {
                    proof {
                        reveal(slot_step);
                        reveal(input_pulled);
                        let inp = inputs@[i as int];
                        let taken = inputs@.take(i as int);
                        let h_i = input_qidx(inp);
                        let t_i = input_tag(inp);
                        assert(inputs@.take(i as int + 1) =~= taken.push(inp));
                        assert forall|j: int| 0 <= j < taken.len() implies !msg_fails(
                            #[trigger] taken[j],
                        ) by {
                            assert(taken[j] == inputs@[j]);
                        }
                        lemma_failure_free(taken);
                        assert forall|h: int, t: int| #[trigger] self.tagset.slot_of(h, t)
                            == slot_after(
                            old(self).tagset.slot_of(h, t),
                            h,
                            t,
                            shut,
                            inputs@.take(i as int + 1),
                        ) by {
                            lemma_slot_after_snoc(
                                old(self).tagset.slot_of(h, t),
                                h,
                                t,
                                shut,
                                taken,
                                inp,
                            );
                            assert(mid.tagset.slot_of(h, t) == slot_after(
                                old(self).tagset.slot_of(h, t),
                                h,
                                t,
                                shut,
                                taken,
                            ));
                        }
                        lemma_pulled_after_snoc(*old(self), shut, taken, inp);
                        lemma_slot_after_shape(
                            old(self).tagset.slot_of(h_i, t_i),
                            h_i,
                            t_i,
                            shut,
                            taken,
                        );
                        assert(mid.tagset.slot_of(h_i, t_i) == slot_after(
                            old(self).tagset.slot_of(h_i, t_i),
                            h_i,
                            t_i,
                            shut,
                            taken,
                        ));
                        match old(self).tagset.slot_of(h_i, t_i) {
                            None => {
                                assert(input_pulled(*old(self), shut, inp) =~= Seq::<u32>::empty());
                                assert(self.sockets@[socket_idx as int].received@
                                    =~= mid.sockets@[socket_idx as int].received@ + input_pulled(
                                    *old(self),
                                    shut,
                                    inp,
                                ));
                            },
                            Some(rq_pre) => {
                                let rq_mid = mid.tagset.slot_of(h_i, t_i).unwrap();
                                assert(rq_mid.command == rq_pre.command && rq_mid.bios
                                    == rq_pre.bios);
                                assert(reply_pulled(
                                    rq_mid,
                                    input_result(inp),
                                    input_seg_ok(inp),
                                    shut,
                                ) == reply_pulled(
                                    rq_pre,
                                    input_result(inp),
                                    input_seg_ok(inp),
                                    shut,
                                ));
                            },
                        }
                        assert(self.sockets@[socket_idx as int].received@ =~= pre_received + (
                        pulled_after(*old(self), shut, taken) + input_pulled(
                            *old(self),
                            shut,
                            inp,
                        )));
                    }
                    i = i + 1;
                },
                Err(_) => {
                    proof {
                        let inp = inputs@[i as int];
                        assert(msg_fails(inp));
                        assert forall|h: int, t: int| slot_after(
                            old(self).tagset.slot_of(h, t),
                            h,
                            t,
                            shut,
                            inputs@,
                        ) == #[trigger] slot_after(
                            old(self).tagset.slot_of(h, t),
                            h,
                            t,
                            shut,
                            inputs@.take(i as int),
                        ) by {
                            lemma_slot_after_stops(
                                old(self).tagset.slot_of(h, t),
                                h,
                                t,
                                shut,
                                inputs@,
                                i as int,
                            );
                        }
                        lemma_pulled_after_stops(*old(self), shut, inputs@, i as int);
                    }
                    self.socket_dead(socket_idx);
                    return true;
                },
            }
        }
        proof {
            assert(inputs@.take(i as int) =~= inputs@);
        }
        false
    }

    /// The control-plane entry point: dispatches one command.
    ///
    /// All commands but Run return at once with `Some` of their outcome; an
    /// unrecognized command fails with `NotTty`.  Run blocks, so it is
    /// driven by `events`, the outcomes of its condition-variable waits,
    /// and yields `None` when the events run out while the loop would still
    /// be blocked.
    pub fn ioctl(&mut self, cmd: u32, arg: u64, events: &Vec<RunEvent>) -> (r: Option<
        Result<i32, Error>,
    >)
        requires
            old(self).wf(),
            cmd == NBD_SET_SOCK ==> old(self).sockets@.len() < u32::MAX,
        ensures
            final(self).wf(),
            cmd != NBD_DO_IT ==> r is Some,
            post_ioctl(*old(self), *final(self), cmd, arg, events@, r),
    {
        if cmd == NBD_DISCONNECT {
            self.request_disconnect();
            Some(Ok(0))
        } else if cmd == NBD_CLEAR_SOCK {
            self.detach_all();
            Some(Ok(0))
        } else if cmd == NBD_SET_SOCK {
            match self.add_socket() {
                Ok(_) => Some(Ok(0)),
                Err(e) => Some(Err(e)),
            }
        } else if cmd == NBD_SET_SIZE {
            self.set_byte_size(arg);
            Some(Ok(0))
        } else if cmd == NBD_SET_BLKSIZE {
            Some(self.set_block_size(arg))
        } else if cmd == NBD_SET_SIZE_BLOCKS {
            Some(self.set_byte_size_from_blocks(arg))
        } else if cmd == NBD_DO_IT {
            self.run(events)
        } else if cmd == NBD_SET_FLAGS {
            self.set_cache_flags(arg as u32);
            Some(Ok(0))
        } else {
            Some(Err(Error::NotTty))
        }
    }

    /// The compatibility entry point; commands are dispatched unchanged.
    pub fn compat_ioctl(&mut self, cmd: u32, arg: u64, events: &Vec<RunEvent>) -> (r: Option<
        Result<i32, Error>,
    >)
        requires
            old(self).wf(),
            cmd == NBD_SET_SOCK ==> old(self).sockets@.len() < u32::MAX,
        ensures
            final(self).wf(),
            cmd != NBD_DO_IT ==> r is Some,
            post_ioctl(*old(self), *final(self), cmd, arg, events@, r),
    {
        self.ioctl(cmd, arg, events)
    }

    /// Resets the exposed capacity to zero.
    pub fn reset(&mut self)
        ensures
            *final(self) == (NbdQueue {
                disk: (GenDisk { capacity_sectors: 0, ..old(self).disk }),
                ..*old(self)
            }),
    {
        self.disk.set_capacity_and_notify(0);
    }
}

/// The segment lengths of a request's buffers, flattened in wire order.
pub open spec fn flat_segs(bios: Seq<Bio>) -> Seq<u32>
    decreases bios.len(),
{
    if bios.len() == 0 {
        Seq::empty()
    } else {
        bios.first().segments@ + flat_segs(bios.drop_first())
    }
}

/// Whether the transport delivers segment `k`: the connection must not be
/// shut down and the peer must produce the bytes.
pub open spec fn seg_delivered(ok: Seq<bool>, shut: bool, k: int) -> bool {
    !shut && 0 <= k < ok.len() && ok[k]
}

/// The index of the first segment, from `k` on, that the transport fails to
/// deliver; `len` when all remaining segments arrive.
pub open spec fn stop_from(len: int, ok: Seq<bool>, shut: bool, k: int) -> int
    decreases len - k,
{
    if k >= len {
        len
    } else if seg_delivered(ok, shut, k) {
        stop_from(len, ok, shut, k + 1)
    } else {
        k
    }
}

/// How many segments of a read reply arrive before the transfer stops.
pub open spec fn recv_stop(len: int, ok: Seq<bool>, shut: bool) -> int {
    stop_from(len, ok, shut, 0)
}

pub proof fn lemma_stop_from_bounds(len: int, ok: Seq<bool>, shut: bool, k: int)
    requires
        0 <= k <= len,
    ensures
        k <= stop_from(len, ok, shut, k) <= len,
    decreases len - k,
{
    if k < len && seg_delivered(ok, shut, k) {
        lemma_stop_from_bounds(len, ok, shut, k + 1);
    }
}

/// The segment lengths a reply pulls off the wire: for a successful read
/// reply, the flattened segments up to the first delivery failure; nothing
/// for any other reply.
pub open spec fn reply_pulled(
    rq: Request<NbdRequestData>,
    result: Result<(), Error>,
    ok: Seq<bool>,
    shut: bool,
) -> Seq<u32> {
    if result is Ok && rq.command == REQ_OP_READ {
        let flat = flat_segs(rq.bios@);
        flat.take(recv_stop(flat.len() as int, ok, shut))
    } else {
        Seq::empty()
    }
}

/// The outcome a reply carries into the result slot: a successful read
/// reply is downgraded to an I/O error when a segment transfer fails.
pub open spec fn reply_outcome(
    rq: Request<NbdRequestData>,
    result: Result<(), Error>,
    ok: Seq<bool>,
    shut: bool,
) -> Result<(), Error> {
    if result is Ok && rq.command == REQ_OP_READ {
        let flat = flat_segs(rq.bios@);
        if recv_stop(flat.len() as int, ok, shut) == flat.len() {
            result
        } else {
            Err(Error::Io)
        }
    } else {
        result
    }
}

/// What recording outcome `oc` and triggering completion does to a request.
///
/// The first recorded error is sticky: a request whose slot already holds an
/// error is left untouched and not completed again.  Otherwise the slot
/// takes `oc` — a stored success may be overwritten by a later success or
/// error — and completion is triggered, which ends the request unless it
/// has ended already.
pub open spec fn completed_request(
    rq: Request<NbdRequestData>,
    oc: Result<(), Error>,
) -> Request<NbdRequestData> {
    if rq.data.result is Err {
        rq
    } else {
        Request {
            data: NbdRequestData { result: oc, socket: rq.data.socket },
            state: ReqState::Ended,
            outcome: if rq.state is Ended {
                rq.outcome
            } else {
                Some(oc)
            },
            ..rq
        }
    }
}

/// The connection the timeout path shuts down: the one recorded as serving
/// the request, provided that index still names a connection in the list.
pub open spec fn timeout_shutdown_target(rq: Request<NbdRequestData>, n_sockets: int) -> Option<
    int,
> {
    match rq.data.socket {
        Some(s) => if s < n_sockets {
            Some(s as int)
        } else {
            None
        },
        None => None,
    }
}

/// What the timeout path does to a request: the stored error stays, a
/// stored success becomes an I/O error, and the request is ended with the
/// stored value unless it has ended already.
pub open spec fn timeout_request(rq: Request<NbdRequestData>) -> Request<NbdRequestData> {
    let res = if rq.data.result is Err {
        rq.data.result
    } else {
        Err(Error::Io)
    };
    Request {
        data: NbdRequestData { result: res, socket: rq.data.socket },
        state: ReqState::Ended,
        outcome: if rq.state is Ended {
            rq.outcome
        } else {
            Some(res)
        },
        ..rq
    }
}

/// Everything one control-plane command does: the outcome it returns and
/// the transition it makes, for every command code.
pub open spec fn post_ioctl(
    pre: NbdQueue,
    post: NbdQueue,
    cmd: u32,
    arg: u64,
    events: Seq<RunEvent>,
    r: Option<Result<i32, Error>>,
) -> bool {
    &&& (cmd == NBD_DISCONNECT ==> r == Some(Ok::<i32, Error>(0))
                && NbdQueue::post_request_disconnect(pre, post))
    &&& (cmd == NBD_CLEAR_SOCK ==> r == Some(Ok::<i32, Error>(0)) && post.sockets@.len()
                == 0 && post.live_connections == 0 && post.disk == pre.disk
                && post.tagset == pre.tagset && post.config == pre.config
                && post.disconnected == pre.disconnected)
    &&& (cmd == NBD_SET_SOCK ==> r == Some(Ok::<i32, Error>(0)) && post.sockets@.len()
                == pre.sockets@.len() + 1 && post.sockets@.drop_last() == pre.sockets@
                && !post.sockets@.last().shut_down && !post.sockets@.last().dead
                && post.sockets@.last().sent@.len() == 0 && post.sockets@.last().received@.len()
                == 0 && post.live_connections == pre.live_connections + 1 && post.disk
                == pre.disk && post.tagset == pre.tagset && post.config
                == pre.config && post.disconnected == pre.disconnected)
    &&& (cmd == NBD_SET_SIZE ==> r == Some(Ok::<i32, Error>(0)) && post == (NbdQueue {
                config: (NbdConfig { size: arg, ..pre.config }),
                disk: (GenDisk { capacity_sectors: arg / 512, ..pre.disk }),
                ..pre
            }))
    &&& (cmd == NBD_SET_BLKSIZE && arg > u32::MAX ==> r == Some(Err::<i32, Error>(Error::Inval))
                && post == pre)
    &&& (cmd == NBD_SET_BLKSIZE && arg <= u32::MAX ==> {
                let bs = if arg == 0 {
                    DEFAULT_BLK_SIZE
                } else {
                    arg as u32
                };
                r == Some(Ok::<i32, Error>(0)) && post == (NbdQueue {
                    config: (NbdConfig {
                        size: pre.config.size,
                        blk_size: bs,
                        blk_size_bits: log2_down(bs as int) as u32,
                    }),
                    disk: (GenDisk {
                        logical_block_size: bs,
                        physical_block_size: bs,
                        ..pre.disk
                    }),
                    ..pre
                })
            })
    &&& (cmd == NBD_SET_SIZE_BLOCKS && pre.config.blk_size_bits >= 64 ==> r == Some(
                Err::<i32, Error>(Error::Inval),
            ) && post == pre)
    &&& (cmd == NBD_SET_SIZE_BLOCKS && pre.config.blk_size_bits < 64 && arg > u64::MAX
        >> pre.config.blk_size_bits ==> r == Some(Err::<i32, Error>(Error::Inval)) && post == pre)
    &&& (cmd == NBD_SET_SIZE_BLOCKS && pre.config.blk_size_bits < 64 && arg <= u64::MAX
        >> pre.config.blk_size_bits ==> {
                let ns = arg << pre.config.blk_size_bits;
                r == Some(Ok::<i32, Error>(0)) && post == (NbdQueue {
                    config: (NbdConfig { size: ns, ..pre.config }),
                    disk: (GenDisk { capacity_sectors: ns >> 9u64, ..pre.disk }),
                    ..pre
                })
            })
    &&& (cmd == NBD_SET_FLAGS ==> r == Some(Ok::<i32, Error>(0)) && post == (NbdQueue {
                disk: (GenDisk {
                    write_cache: (arg as u32) & NBD_FLAG_SEND_FLUSH != 0,
                    fua: (arg as u32) & NBD_FLAG_SEND_FLUSH != 0 && (arg as u32)
                        & NBD_FLAG_SEND_FUA != 0,
                    ..pre.disk
                }),
                ..pre
            }))
    &&& (cmd == NBD_DO_IT && pre.live_connections == 0 ==> r == Some(
                if pre.disconnected {
                    Ok::<i32, Error>(0)
                } else {
                    Err::<i32, Error>(Error::Io)
                },
            ) && post == (NbdQueue {
                disk: (GenDisk { capacity_sectors: 0, ..pre.disk }),
                ..pre
            }))
    &&& (cmd == NBD_DO_IT && pre.live_connections != 0 && (exists|k: int|
                0 <= k < events.len() && events[k] is Interrupted) ==> r == Some(
                Err::<i32, Error>(Error::RestartSys),
            ) && post.sockets@.len() == 0 && post.live_connections == 0 && post.disk == (GenDisk { capacity_sectors: 0, ..pre.disk }) && post.config
                == pre.config && post.tagset == pre.tagset && post.disconnected == pre.disconnected)
    &&& (cmd == NBD_DO_IT && pre.live_connections != 0 && (forall|k: int|
                0 <= k < events.len() ==> !(#[trigger] events[k] is Interrupted)) ==> r is None
                && post == pre)
    &&& (!(cmd == NBD_DISCONNECT || cmd == NBD_CLEAR_SOCK || cmd == NBD_SET_SOCK || cmd
                == NBD_SET_SIZE || cmd == NBD_SET_BLKSIZE || cmd == NBD_SET_SIZE_BLOCKS || cmd
                == NBD_SET_FLAGS || cmd == NBD_DO_IT) ==> r == Some(Err::<i32, Error>(Error::NotTty))
                && post == pre)
}

/// What one blocking receive of a connection's worker produced.
pub enum SocketInput {
    /// A full reply header arrived; `seg_ok` holds the outcomes, in order,
    /// of the segment receives the reply triggers if it answers a read.
    Header { bytes: Vec<u8>, seg_ok: Vec<bool> },
    /// The transport receive failed or was cut short.
    Failure,
}

/// Whether this receive outcome terminates the worker: a transport failure,
/// a short header, or a header without the reply magic.
pub open spec fn msg_fails(input: SocketInput) -> bool {
    match input {
        SocketInput::Failure => true,
        SocketInput::Header { bytes, .. } => bytes@.len() != REPLY_SIZE || from_be32(
            bytes@.subrange(0, 4),
        ) != NBD_REPLY_MAGIC,
    }
}

/// The outcome a receive outcome carries: success for error code zero.
/// Meaningful only for inputs that do not fail.
pub open spec fn input_result(input: SocketInput) -> Result<(), Error> {
    match input {
        SocketInput::Header { bytes, .. } => if from_be32(bytes@.subrange(4, 8)) == 0 {
            Ok(())
        } else {
            Err(Error::Io)
        },
        SocketInput::Failure => Err(Error::Pipe),
    }
}

/// The queue index field of a received header.
pub open spec fn input_qidx(input: SocketInput) -> int {
    match input {
        SocketInput::Header { bytes, .. } => from_be32(bytes@.subrange(8, 12)) as int,
        SocketInput::Failure => 0,
    }
}

/// The tag field of a received header.
pub open spec fn input_tag(input: SocketInput) -> int {
    match input {
        SocketInput::Header { bytes, .. } => from_be32(bytes@.subrange(12, 16)) as int,
        SocketInput::Failure => 0,
    }
}

/// The per-segment receive outcomes that came with a received header.
pub open spec fn input_seg_ok(input: SocketInput) -> Seq<bool> {
    match input {
        SocketInput::Header { seg_ok, .. } => seg_ok@,
        SocketInput::Failure => Seq::empty(),
    }
}

/// What demultiplexing one receive outcome does to the in-flight request at
/// `(h, t)`: a failing input or a reply addressed elsewhere leaves it
/// alone; a reply addressed to it completes it under the sticky-error rule.
#[verifier::opaque]
pub open spec fn slot_step(
    slot: Option<Request<NbdRequestData>>,
    h: int,
    t: int,
    shut: bool,
    input: SocketInput,
) -> Option<Request<NbdRequestData>> {
    if msg_fails(input) || input_qidx(input) != h || input_tag(input) != t {
        slot
    } else {
        match slot {
            None => None,
            Some(rq) => Some(
                completed_request(
                    rq,
                    reply_outcome(rq, input_result(input), input_seg_ok(input), shut),
                ),
            ),
        }
    }
}

/// The in-flight request at `(h, t)` after a worker whose connection has
/// shutdown state `shut` processes `inputs` in order, one demultiplexing
/// step per input, stopping at the first failing input.
pub open spec fn slot_after(
    slot: Option<Request<NbdRequestData>>,
    h: int,
    t: int,
    shut: bool,
    inputs: Seq<SocketInput>,
) -> Option<Request<NbdRequestData>>
    decreases inputs.len(),
{
    if inputs.len() == 0 || msg_fails(inputs.first()) {
        slot
    } else {
        slot_after(slot_step(slot, h, t, shut, inputs.first()), h, t, shut, inputs.drop_first())
    }
}

/// The segment lengths one receive outcome pulls off the wire.  Since
/// demultiplexing changes neither the command nor the buffers of a request,
/// the request table as dispatch left it determines this.
#[verifier::opaque]
pub open spec fn input_pulled(pre: NbdQueue, shut: bool, input: SocketInput) -> Seq<u32> {
    if msg_fails(input) {
        Seq::empty()
    } else {
        match pre.tagset.slot_of(input_qidx(input), input_tag(input)) {
            None => Seq::empty(),
            Some(rq) => reply_pulled(rq, input_result(input), input_seg_ok(input), shut),
        }
    }
}

/// All segment lengths pulled while processing `inputs` in order, stopping
/// at the first failing input.
pub open spec fn pulled_after(pre: NbdQueue, shut: bool, inputs: Seq<SocketInput>) -> Seq<u32>
    decreases inputs.len(),
{
    if inputs.len() == 0 || msg_fails(inputs.first()) {
        Seq::empty()
    } else {
        input_pulled(pre, shut, inputs.first()) + pulled_after(pre, shut, inputs.drop_first())
    }
}

/// No receive outcome in the sequence fails.
pub open spec fn failure_free(xs: Seq<SocketInput>) -> bool
    decreases xs.len(),
{
    xs.len() == 0 || (!msg_fails(xs.first()) && failure_free(xs.drop_first()))
}

/// A sequence with no failing member is failure-free.
pub proof fn lemma_failure_free(xs: Seq<SocketInput>)
    requires
        forall|j: int| 0 <= j < xs.len() ==> !msg_fails(#[trigger] xs[j]),
    ensures
        failure_free(xs),
    decreases xs.len(),
{
    if xs.len() > 0 {
        assert(!msg_fails(xs[0]));
        assert forall|j: int| 0 <= j < xs.drop_first().len() implies !msg_fails(
            #[trigger] xs.drop_first()[j],
        ) by {
            assert(xs.drop_first()[j] == xs[j + 1]);
        }
        lemma_failure_free(xs.drop_first());
    }
}

/// Demultiplexing never creates or destroys an in-flight entry and never
/// changes a request's command or buffers.
pub proof fn lemma_slot_after_shape(
    slot: Option<Request<NbdRequestData>>,
    h: int,
    t: int,
    shut: bool,
    inputs: Seq<SocketInput>,
)
    ensures
        slot is None ==> slot_after(slot, h, t, shut, inputs) is None,
        slot matches Some(rq) ==> (slot_after(slot, h, t, shut, inputs) matches Some(rq2)
            && rq2.command == rq.command && rq2.bios == rq.bios),
    decreases inputs.len(),
{
    reveal(slot_step);
    if inputs.len() == 0 || msg_fails(inputs.first()) {
    } else {
        lemma_slot_after_shape(
            slot_step(slot, h, t, shut, inputs.first()),
            h,
            t,
            shut,
            inputs.drop_first(),
        );
    }
}

/// A single input folds to exactly one demultiplexing step.
pub proof fn lemma_slot_after_one(
    slot: Option<Request<NbdRequestData>>,
    h: int,
    t: int,
    shut: bool,
    x: SocketInput,
)
    ensures
        slot_after(slot, h, t, shut, seq![x]) == slot_step(slot, h, t, shut, x),
{
    reveal(slot_step);
    let xs = seq![x];
    assert(xs.len() == 1);
    assert(xs.first() == x);
    assert(xs.drop_first() =~= Seq::<SocketInput>::empty());
    if msg_fails(x) {
        assert(slot_after(slot, h, t, shut, xs) == slot);
        assert(slot_step(slot, h, t, shut, x) == slot);
    } else {
        assert(slot_after(slot, h, t, shut, xs) == slot_after(
            slot_step(slot, h, t, shut, x),
            h,
            t,
            shut,
            xs.drop_first(),
        ));
        assert(slot_after(slot_step(slot, h, t, shut, x), h, t, shut, xs.drop_first())
            == slot_step(slot, h, t, shut, x));
    }
}

/// One more failure-free input extends the fold by one demultiplexing step.
pub proof fn lemma_slot_after_snoc(
    slot: Option<Request<NbdRequestData>>,
    h: int,
    t: int,
    shut: bool,
    xs: Seq<SocketInput>,
    x: SocketInput,
)
    requires
        failure_free(xs),
    ensures
        slot_after(slot, h, t, shut, xs.push(x)) == slot_step(
            slot_after(slot, h, t, shut, xs),
            h,
            t,
            shut,
            x,
        ),
    decreases xs.len(),
{
    if xs.len() == 0 {
        assert(xs.push(x) =~= seq![x]);
        lemma_slot_after_one(slot, h, t, shut, x);
    } else {
        assert(xs.push(x).first() == xs.first());
        assert(xs.push(x).drop_first() =~= xs.drop_first().push(x));
        lemma_slot_after_snoc(
            slot_step(slot, h, t, shut, xs.first()),
            h,
            t,
            shut,
            xs.drop_first(),
            x,
        );
    }
}

/// One more failure-free input appends its pulled segments to the fold.
pub proof fn lemma_pulled_after_snoc(
    pre: NbdQueue,
    shut: bool,
    xs: Seq<SocketInput>,
    x: SocketInput,
)
    requires
        failure_free(xs),
    ensures
        pulled_after(pre, shut, xs.push(x)) == pulled_after(pre, shut, xs) + input_pulled(
            pre,
            shut,
            x,
        ),
    decreases xs.len(),
{
    if xs.len() == 0 {
        let pushed = xs.push(x);
        assert(pushed.first() == x);
        assert(pushed.drop_first() =~= Seq::<SocketInput>::empty());
        if msg_fails(x) {
            reveal(input_pulled);
            assert(pulled_after(pre, shut, pushed).len() == 0);
            assert(pulled_after(pre, shut, xs) + input_pulled(pre, shut, x) =~= Seq::<
                u32,
            >::empty());
        } else {
            assert(pulled_after(pre, shut, pushed) == input_pulled(pre, shut, x) + pulled_after(
                pre,
                shut,
                pushed.drop_first(),
            ));
            assert(pulled_after(pre, shut, pushed.drop_first()).len() == 0);
            assert(pulled_after(pre, shut, pushed) =~= input_pulled(pre, shut, x));
            assert(pulled_after(pre, shut, xs) + input_pulled(pre, shut, x) =~= input_pulled(
                pre,
                shut,
                x,
            ));
        }
    } else {
        assert(xs.push(x).first() == xs.first());
        assert(xs.push(x).drop_first() =~= xs.drop_first().push(x));
        lemma_pulled_after_snoc(pre, shut, xs.drop_first(), x);
        assert(input_pulled(pre, shut, xs.first()) + (pulled_after(pre, shut, xs.drop_first())
            + input_pulled(pre, shut, x)) =~= (input_pulled(pre, shut, xs.first()) + pulled_after(
            pre,
            shut,
            xs.drop_first(),
        )) + input_pulled(pre, shut, x));
    }
}

/// The fold ignores everything from the first failing input on.
pub proof fn lemma_slot_after_stops(
    slot: Option<Request<NbdRequestData>>,
    h: int,
    t: int,
    shut: bool,
    inputs: Seq<SocketInput>,
    i: int,
)
    requires
        0 <= i < inputs.len(),
        msg_fails(inputs[i]),
        forall|j: int| 0 <= j < i ==> !msg_fails(#[trigger] inputs[j]),
    ensures
        slot_after(slot, h, t, shut, inputs) == slot_after(slot, h, t, shut, inputs.take(i)),
    decreases i,
{
    if i == 0 {
        assert(inputs.take(0) =~= Seq::<SocketInput>::empty());
        assert(msg_fails(inputs.first()));
    } else {
        assert(!msg_fails(inputs[0]));
        let stepped = slot_step(slot, h, t, shut, inputs.first());
        assert(inputs.drop_first()[i - 1] == inputs[i]);
        assert forall|j: int| 0 <= j < i - 1 implies !msg_fails(
            #[trigger] inputs.drop_first()[j],
        ) by {
            assert(inputs.drop_first()[j] == inputs[j + 1]);
        }
        lemma_slot_after_stops(stepped, h, t, shut, inputs.drop_first(), i - 1);
        assert(inputs.take(i).first() == inputs.first());
        assert(inputs.take(i).drop_first() =~= inputs.drop_first().take(i - 1));
    }
}

/// The pulled segments ignore everything from the first failing input on.
pub proof fn lemma_pulled_after_stops(
    pre: NbdQueue,
    shut: bool,
    inputs: Seq<SocketInput>,
    i: int,
)
    requires
        0 <= i < inputs.len(),
        msg_fails(inputs[i]),
        forall|j: int| 0 <= j < i ==> !msg_fails(#[trigger] inputs[j]),
    ensures
        pulled_after(pre, shut, inputs) == pulled_after(pre, shut, inputs.take(i)),
    decreases i,
{
    if i == 0 {
        assert(inputs.take(0) =~= Seq::<SocketInput>::empty());
        assert(msg_fails(inputs.first()));
    } else {
        assert(!msg_fails(inputs[0]));
        assert(inputs.drop_first()[i - 1] == inputs[i]);
        assert forall|j: int| 0 <= j < i - 1 implies !msg_fails(
            #[trigger] inputs.drop_first()[j],
        ) by {
            assert(inputs.drop_first()[j] == inputs[j + 1]);
        }
        lemma_pulled_after_stops(pre, shut, inputs.drop_first(), i - 1);
        assert(inputs.take(i).first() == inputs.first());
        assert(inputs.take(i).drop_first() =~= inputs.drop_first().take(i - 1));
        assert(input_pulled(pre, shut, inputs.first()) + pulled_after(
            pre,
            shut,
            inputs.drop_first().take(i - 1),
        ) == pulled_after(pre, shut, inputs.take(i)));
    }
}

/// The device state is observably unchanged: every component, with the
/// connection list compared element for element.
pub open spec fn queue_unchanged(pre: NbdQueue, post: NbdQueue) -> bool {
    &&& post.disk == pre.disk
    &&& post.config == pre.config
    &&& post.disconnected == pre.disconnected
    &&& post.live_connections == pre.live_connections
    &&& post.sockets@ == pre.sockets@
    &&& post.tagset == pre.tagset
}

/// The payload frames of one buffer of a write dispatch: every segment
/// carries the "more data follows" hint except the last segment of the last
/// buffer.
pub open spec fn bio_frames(segs: Seq<u32>, last_bio: bool) -> Seq<Frame> {
    Seq::new(
        segs.len(),
        |s: int|
            Frame::Data { len: segs[s], more: !(s == segs.len() - 1) || !last_bio },
    )
}

/// The full payload frame train of a write dispatch.
pub open spec fn data_frames(bios: Seq<Bio>) -> Seq<Frame>
    decreases bios.len(),
{
    if bios.len() == 0 {
        Seq::empty()
    } else {
        bio_frames(bios.first().segments@, bios.len() == 1) + data_frames(bios.drop_first())
    }
}

/// Everything reply demultiplexing does to the device state.
pub open spec fn post_process_reply(
    pre: NbdQueue,
    post: NbdQueue,
    sidx: int,
    result: Result<(), Error>,
    h: int,
    t: int,
    ok: Seq<bool>,
) -> bool {
    &&& post.disk == pre.disk
    &&& post.config == pre.config
    &&& post.disconnected == pre.disconnected
    &&& post.live_connections == pre.live_connections
    &&& post.sockets@.len() == pre.sockets@.len()
    &&& forall|j: int|
        0 <= j < pre.sockets@.len() && j != sidx ==> #[trigger] post.sockets@[j]
            == pre.sockets@[j]
    &&& post.tagset.nr_hw_queues == pre.tagset.nr_hw_queues
    &&& post.tagset.num_tags == pre.tagset.num_tags
    &&& forall|h2: int, t2: int|
        !(h2 == h && t2 == t) ==> #[trigger] post.tagset.slot_of(h2, t2) == pre.tagset.slot_of(
            h2,
            t2,
        )
    &&& match pre.tagset.slot_of(h, t) {
        None => post.tagset.slot_of(h, t) is None && post.sockets@[sidx] == pre.sockets@[sidx],
        Some(rq) => {
            let shut = pre.sockets@[sidx].shut_down;
            &&& post.sockets@[sidx].received@ == pre.sockets@[sidx].received@ + reply_pulled(
                rq,
                result,
                ok,
                shut,
            )
            &&& post.sockets@[sidx].sent == pre.sockets@[sidx].sent
            &&& post.sockets@[sidx].shut_down == pre.sockets@[sidx].shut_down
            &&& post.sockets@[sidx].dead == pre.sockets@[sidx].dead
            &&& post.tagset.slot_of(h, t) == Some(
                completed_request(rq, reply_outcome(rq, result, ok, shut)),
            )
        },
    }
}

/// Idempotence of completion: once a call of the reply path has stored an
/// error outcome into a request's result slot, any subsequent call for the
/// same request — from the reply path or from the timeout path — leaves the
/// stored result unchanged.
pub proof fn lemma_completion_error_sticky(
    rq: Request<NbdRequestData>,
    first: Error,
    later: Result<(), Error>,
)
    ensures
        completed_request(completed_request(rq, Err(first)), later) == completed_request(
            rq,
            Err(first),
        ),
        timeout_request(completed_request(rq, Err(first))).data.result == completed_request(
            rq,
            Err(first),
        ).data.result,
{
}

/// A stored success outcome may still be overwritten by any later call,
/// success or error alike.
pub proof fn lemma_completion_success_overwritable(
    rq: Request<NbdRequestData>,
    later: Result<(), Error>,
)
    requires
        rq.data.result is Ok,
    ensures
        completed_request(rq, later).data.result == later,
{
}

/// The base-two logarithm of `x`, rounded down.
pub open spec fn log2_down(x: int) -> int
    recommends
        x >= 1,
    decreases x,
{
    if x < 2 {
        0int
    } else {
        1int + log2_down(x / 2)
    }
}

pub proof fn lemma_log2_down_nonneg(x: int)
    ensures
        log2_down(x) >= 0,
    decreases x,
{
    if x >= 2 {
        lemma_log2_down_nonneg(x / 2);
    }
}

pub proof fn lemma_log2_down_le(x: int)
    requires
        x >= 1,
    ensures
        log2_down(x) <= x,
    decreases x,
{
    if x >= 2 {
        vstd::arithmetic::div_mod::lemma_fundamental_div_mod(x, 2);
        lemma_log2_down_le(x / 2);
    }
}

/// The base-two logarithm of `x`, rounded down.
pub fn ilog2(x: u32) -> (r: u32)
    requires
        x >= 1,
    ensures
        r == log2_down(x as int),
{
    let mut v: u32 = x;
    let mut r: u32 = 0;
    while v >= 2
        invariant
            1 <= v <= x,
            r + log2_down(v as int) == log2_down(x as int),
        decreases v,
    {
        proof {
            vstd::arithmetic::div_mod::lemma_fundamental_div_mod(v as int, 2);
            lemma_log2_down_nonneg(v as int / 2);
            lemma_log2_down_le(x as int);
        }
        v = v / 2;
        r = r + 1;
    }
    r
}

} // verus!

