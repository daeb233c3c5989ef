use rblock::errno::Error;
use rblock::mq::{Bio, ReqState, Request};
use rblock::queue::{
    Frame, NbdQueue, RunEvent, SocketInput, NBD_CLEAR_SOCK, NBD_DISCONNECT, NBD_DO_IT,
    NBD_SET_BLKSIZE, NBD_SET_FLAGS, NBD_SET_SIZE, NBD_SET_SIZE_BLOCKS, NBD_SET_SOCK,
};
use rblock::wire::{build_request, REQ_OP_READ, REQ_OP_WRITE};

fn no_events() -> Vec<RunEvent> {
    Vec::new()
}

fn device() -> NbdQueue {
    NbdQueue::new(1, 128)
}

fn new_request(command: u32, tag: i32, sector: u64, segments: Vec<u32>) -> Request<
    rblock::queue::NbdRequestData,
> {
    Request {
        command,
        tag,
        sector,
        bios: vec![Bio { segments }],
        data: NbdQueue::new_request_data(),
        state: ReqState::New,
        outcome: None,
    }
}

fn ok_reply(qidx: u32, tag: u32, seg_ok: Vec<bool>) -> SocketInput {
    reply_with_code(0, qidx, tag, seg_ok)
}

fn reply_with_code(code: u32, qidx: u32, tag: u32, seg_ok: Vec<bool>) -> SocketInput {
    let mut bytes = vec![0x67, 0x44, 0x66, 0x98];
    bytes.extend_from_slice(&code.to_be_bytes());
    bytes.extend_from_slice(&qidx.to_be_bytes());
    bytes.extend_from_slice(&tag.to_be_bytes());
    SocketInput::Header { bytes, seg_ok }
}

#[test]
fn scenario_geometry() {
    // one connection, a megabyte of capacity, 4096-byte blocks
    let mut q = device();
    assert_eq!(q.ioctl(NBD_SET_SOCK, 0, &no_events()), Some(Ok(0)));
    assert_eq!(q.ioctl(NBD_SET_SIZE, 1048576, &no_events()), Some(Ok(0)));
    assert_eq!(q.ioctl(NBD_SET_BLKSIZE, 4096, &no_events()), Some(Ok(0)));
    assert_eq!(q.disk.capacity_sectors, 2048);
    assert_eq!(q.disk.logical_block_size, 4096);
    assert_eq!(q.disk.physical_block_size, 4096);
    assert_eq!(q.config.blk_size_bits, 12);
    assert_eq!(q.sockets.len(), 1);
    assert_eq!(q.live_connections, 1);
}

#[test]
fn scenario_run_without_connections() {
    // Run with zero connections and no disconnect requested fails at once
    let mut q = device();
    assert_eq!(q.ioctl(NBD_DO_IT, 0, &no_events()), Some(Err(Error::Io)));
}

#[test]
fn scenario_write_dispatch_frames() {
    // a write of 8192 bytes at offset 0 in two 4096-byte segments:
    // header with "more", first segment with "more", last without
    let mut q = device();
    q.ioctl(NBD_SET_SOCK, 0, &no_events());
    let rq = new_request(REQ_OP_WRITE, 0, 0, vec![4096, 4096]);
    let ctx = NbdQueue::init_hctx(0);
    assert_eq!(q.queue_rq(&ctx, rq), Ok(()));
    let frames = &q.sockets[0].sent;
    assert_eq!(frames.len(), 3);
    match &frames[0] {
        Frame::Header { bytes, more } => {
            assert_eq!(bytes, &build_request(0, 0, REQ_OP_WRITE, 0, 8192).unwrap());
            assert!(*more);
        }
        _ => panic!("expected a header frame"),
    }
    match &frames[1] {
        Frame::Data { len, more } => {
            assert_eq!(*len, 4096);
            assert!(*more);
        }
        _ => panic!("expected a data frame"),
    }
    match &frames[2] {
        Frame::Data { len, more } => {
            assert_eq!(*len, 4096);
            assert!(!*more);
        }
        _ => panic!("expected a data frame"),
    }
    // the request is now in flight, started, bound to connection 0
    let rq = q.tagset.tag_to_rq(0, 0).unwrap();
    assert_eq!(rq.state, ReqState::Started);
    assert_eq!(rq.data.socket, Some(0));
}

#[test]
fn scenario_read_error_reply_skips_segments() {
    // a reply with a non-zero error code for a read request stores the
    // remote error without attempting any segment receive
    let mut q = device();
    q.ioctl(NBD_SET_SOCK, 0, &no_events());
    let rq = new_request(REQ_OP_READ, 1, 0, vec![4096]);
    let ctx = NbdQueue::init_hctx(0);
    assert_eq!(q.queue_rq(&ctx, rq), Ok(()));
    let input = reply_with_code(5, 0, 1, vec![true]);
    assert_eq!(q.receive_message(0, &input), Ok(()));
    assert!(q.sockets[0].received.is_empty());
    let rq = q.tagset.tag_to_rq(0, 1).unwrap();
    assert_eq!(rq.data.result, Err(Error::Io));
    assert_eq!(rq.state, ReqState::Ended);
    assert_eq!(rq.outcome, Some(Err(Error::Io)));
}

#[test]
fn scenario_disconnect_then_drain() {
    // a requested disconnect followed by both workers observing shutdown:
    // Run wakes, sees the flag, returns success and resets the capacity
    let mut q = device();
    q.ioctl(NBD_SET_SOCK, 0, &no_events());
    q.ioctl(NBD_SET_SOCK, 0, &no_events());
    q.ioctl(NBD_SET_SIZE, 1048576, &no_events());
    assert_eq!(q.ioctl(NBD_DISCONNECT, 0, &no_events()), Some(Ok(0)));
    assert!(q.disconnected);
    // each connection got one disconnect header
    for sock in &q.sockets {
        assert_eq!(sock.sent.len(), 1);
    }
    // both receive loops observe the transport going down and exit
    assert!(q.run_receive_loop(0, &vec![SocketInput::Failure]));
    assert!(q.run_receive_loop(1, &vec![SocketInput::Failure]));
    assert_eq!(q.live_connections, 0);
    let r = q.ioctl(NBD_DO_IT, 0, &vec![RunEvent::Woken]);
    assert_eq!(r, Some(Ok(0)));
    assert_eq!(q.disk.capacity_sectors, 0);
}

#[test]
fn dispatch_to_missing_connection_is_broken_pipe() {
    let mut q = device();
    // no connection at index 0 yet
    let rq = new_request(REQ_OP_READ, 0, 0, vec![512]);
    let ctx = NbdQueue::init_hctx(0);
    assert_eq!(q.queue_rq(&ctx, rq), Err(Error::Pipe));
    // one connection attached, dispatching beyond it still fails
    let mut q = NbdQueue::new(4, 16);
    q.ioctl(NBD_SET_SOCK, 0, &no_events());
    let rq = new_request(REQ_OP_READ, 0, 0, vec![512]);
    let ctx = NbdQueue::init_hctx(3);
    assert_eq!(q.queue_rq(&ctx, rq), Err(Error::Pipe));
}

#[test]
fn dispatch_of_unsupported_command_fails() {
    let mut q = device();
    q.ioctl(NBD_SET_SOCK, 0, &no_events());
    let rq = new_request(42, 0, 0, vec![]);
    let ctx = NbdQueue::init_hctx(0);
    assert_eq!(q.queue_rq(&ctx, rq), Err(Error::NotSupp));
}

#[test]
fn sticky_error_survives_later_success() {
    // the timeout path stores an error; a later successful reply for the
    // same request must leave the stored result unchanged
    let mut q = device();
    q.ioctl(NBD_SET_SOCK, 0, &no_events());
    let rq = new_request(REQ_OP_READ, 3, 0, vec![4096]);
    let ctx = NbdQueue::init_hctx(0);
    assert_eq!(q.queue_rq(&ctx, rq), Ok(()));
    q.timeout(0, 3);
    assert_eq!(q.tagset.tag_to_rq(0, 3).unwrap().data.result, Err(Error::Io));
    assert!(q.sockets[0].shut_down);
    // the late reply still arrives; the stored error must not change
    let input = ok_reply(0, 3, vec![true]);
    assert_eq!(q.receive_message(0, &input), Ok(()));
    let rq = q.tagset.tag_to_rq(0, 3).unwrap();
    assert_eq!(rq.data.result, Err(Error::Io));
    assert_eq!(rq.outcome, Some(Err(Error::Io)));
}

#[test]
fn stored_success_may_be_overwritten() {
    // a success in the result slot may still be overwritten by a later
    // call, here by a remote error
    let mut q = device();
    q.ioctl(NBD_SET_SOCK, 0, &no_events());
    let rq = new_request(REQ_OP_WRITE, 4, 0, vec![512]);
    let ctx = NbdQueue::init_hctx(0);
    assert_eq!(q.queue_rq(&ctx, rq), Ok(()));
    assert_eq!(q.receive_message(0, &ok_reply(0, 4, vec![])), Ok(()));
    assert_eq!(q.tagset.tag_to_rq(0, 4).unwrap().data.result, Ok(()));
    assert_eq!(q.receive_message(0, &reply_with_code(7, 0, 4, vec![])), Ok(()));
    assert_eq!(q.tagset.tag_to_rq(0, 4).unwrap().data.result, Err(Error::Io));
}

#[test]
fn read_reply_pulls_segments() {
    let mut q = device();
    q.ioctl(NBD_SET_SOCK, 0, &no_events());
    let rq = new_request(REQ_OP_READ, 2, 8, vec![1024, 2048]);
    let ctx = NbdQueue::init_hctx(0);
    assert_eq!(q.queue_rq(&ctx, rq), Ok(()));
    assert_eq!(q.receive_message(0, &ok_reply(0, 2, vec![true, true])), Ok(()));
    assert_eq!(q.sockets[0].received, vec![1024, 2048]);
    assert_eq!(q.tagset.tag_to_rq(0, 2).unwrap().data.result, Ok(()));
}

#[test]
fn segment_failure_downgrades_to_io_error() {
    let mut q = device();
    q.ioctl(NBD_SET_SOCK, 0, &no_events());
    let rq = new_request(REQ_OP_READ, 2, 8, vec![1024, 2048]);
    let ctx = NbdQueue::init_hctx(0);
    assert_eq!(q.queue_rq(&ctx, rq), Ok(()));
    assert_eq!(q.receive_message(0, &ok_reply(0, 2, vec![true, false])), Ok(()));
    // the transfer stops at the failed segment
    assert_eq!(q.sockets[0].received, vec![1024]);
    assert_eq!(q.tagset.tag_to_rq(0, 2).unwrap().data.result, Err(Error::Io));
}

#[test]
fn reply_for_unknown_tag_is_dropped() {
    let mut q = device();
    q.ioctl(NBD_SET_SOCK, 0, &no_events());
    assert_eq!(q.receive_message(0, &ok_reply(0, 99, vec![])), Ok(()));
    assert!(q.tagset.tag_to_rq(0, 99).is_none());
}

#[test]
fn receive_loop_terminates_on_bad_magic() {
    let mut q = device();
    q.ioctl(NBD_SET_SOCK, 0, &no_events());
    let bad = SocketInput::Header { bytes: vec![0; 16], seg_ok: vec![] };
    let terminated = q.run_receive_loop(0, &vec![bad]);
    assert!(terminated);
    assert!(q.sockets[0].dead);
    assert_eq!(q.live_connections, 0);
}

#[test]
fn receive_loop_processes_replies_until_failure() {
    let mut q = device();
    q.ioctl(NBD_SET_SOCK, 0, &no_events());
    let rq = new_request(REQ_OP_WRITE, 5, 0, vec![512]);
    let ctx = NbdQueue::init_hctx(0);
    assert_eq!(q.queue_rq(&ctx, rq), Ok(()));
    let inputs = vec![ok_reply(0, 5, vec![]), SocketInput::Failure];
    assert!(q.run_receive_loop(0, &inputs));
    assert_eq!(q.tagset.tag_to_rq(0, 5).unwrap().data.result, Ok(()));
    assert!(q.sockets[0].dead);
}

#[test]
fn receive_loop_still_running_without_failure() {
    let mut q = device();
    q.ioctl(NBD_SET_SOCK, 0, &no_events());
    assert!(!q.run_receive_loop(0, &Vec::new()));
    assert!(!q.sockets[0].dead);
    assert_eq!(q.live_connections, 1);
}

#[test]
fn run_interrupted_clears_connections() {
    let mut q = device();
    q.ioctl(NBD_SET_SOCK, 0, &no_events());
    q.ioctl(NBD_SET_SIZE, 4096, &no_events());
    let r = q.ioctl(NBD_DO_IT, 0, &vec![RunEvent::Woken, RunEvent::Interrupted]);
    assert_eq!(r, Some(Err(Error::RestartSys)));
    assert!(q.sockets.is_empty());
    assert_eq!(q.live_connections, 0);
    assert_eq!(q.disk.capacity_sectors, 0);
}

#[test]
fn run_blocked_when_events_run_out() {
    let mut q = device();
    q.ioctl(NBD_SET_SOCK, 0, &no_events());
    assert_eq!(q.ioctl(NBD_DO_IT, 0, &vec![RunEvent::Woken]), None);
    assert_eq!(q.live_connections, 1);
}

#[test]
fn clear_sock_resets_connections() {
    let mut q = device();
    q.ioctl(NBD_SET_SOCK, 0, &no_events());
    q.ioctl(NBD_SET_SOCK, 0, &no_events());
    assert_eq!(q.ioctl(NBD_CLEAR_SOCK, 0, &no_events()), Some(Ok(0)));
    assert!(q.sockets.is_empty());
    assert_eq!(q.live_connections, 0);
}

#[test]
fn block_size_zero_selects_default() {
    let mut q = device();
    assert_eq!(q.ioctl(NBD_SET_BLKSIZE, 0, &no_events()), Some(Ok(0)));
    assert_eq!(q.config.blk_size, 1024);
    assert_eq!(q.config.blk_size_bits, 10);
}

#[test]
fn block_size_too_large_is_invalid() {
    let mut q = device();
    let r = q.ioctl(NBD_SET_BLKSIZE, 0x1_0000_0000, &no_events());
    assert_eq!(r, Some(Err(Error::Inval)));
    assert_eq!(q.config.blk_size, 1024);
}

#[test]
fn size_from_blocks_shifts_by_block_bits() {
    let mut q = device();
    q.ioctl(NBD_SET_BLKSIZE, 4096, &no_events());
    assert_eq!(q.ioctl(NBD_SET_SIZE_BLOCKS, 4, &no_events()), Some(Ok(0)));
    assert_eq!(q.config.size, 16384);
    assert_eq!(q.disk.capacity_sectors, 32);
}

#[test]
fn cache_flags_propagate() {
    let mut q = device();
    q.ioctl(NBD_SET_FLAGS, 4, &no_events());
    assert!(q.disk.write_cache);
    assert!(!q.disk.fua);
    q.ioctl(NBD_SET_FLAGS, 12, &no_events());
    assert!(q.disk.write_cache);
    assert!(q.disk.fua);
    // forced unit access counts only together with flush support
    q.ioctl(NBD_SET_FLAGS, 8, &no_events());
    assert!(!q.disk.write_cache);
    assert!(!q.disk.fua);
}

#[test]
fn unknown_control_command_fails() {
    let mut q = device();
    assert_eq!(q.ioctl(0xab06, 0, &no_events()), Some(Err(Error::NotTty)));
    assert_eq!(q.compat_ioctl(0xab06, 0, &no_events()), Some(Err(Error::NotTty)));
}

#[test]
fn disconnect_headers_carry_queue_indices() {
    let mut q = device();
    q.ioctl(NBD_SET_SOCK, 0, &no_events());
    q.ioctl(NBD_SET_SOCK, 0, &no_events());
    q.request_disconnect();
    for (i, sock) in q.sockets.iter().enumerate() {
        match &sock.sent[0] {
            Frame::Header { bytes, more } => {
                assert!(!*more);
                assert_eq!(&bytes[8..12], &(i as u32).to_be_bytes());
            }
            _ => panic!("expected a header frame"),
        }
    }
}

#[test]
fn size_from_blocks_overflow_is_invalid() {
    // shifting the block count by the block-size bits must not drop high
    // bits: the operation fails with invalid-argument instead
    let mut q = device();
    // default block size 1024, so ten shift bits
    let r = q.ioctl(NBD_SET_SIZE_BLOCKS, 1 << 60, &no_events());
    assert_eq!(r, Some(Err(Error::Inval)));
    assert_eq!(q.config.size, 0);
    assert_eq!(q.disk.capacity_sectors, 0);
    // the largest block count that still fits goes through
    let r = q.ioctl(NBD_SET_SIZE_BLOCKS, u64::MAX >> 10, &no_events());
    assert_eq!(r, Some(Ok(0)));
    assert_eq!(q.config.size, (u64::MAX >> 10) << 10);
}

#[test]
fn timeout_after_detach_skips_the_gone_connection() {
    // a request whose connection was force-dropped can still be resolved by
    // the timeout path; the shutdown of the vanished connection is skipped
    let mut q = device();
    q.ioctl(NBD_SET_SOCK, 0, &no_events());
    let rq = new_request(REQ_OP_READ, 6, 0, vec![4096]);
    let ctx = NbdQueue::init_hctx(0);
    assert_eq!(q.queue_rq(&ctx, rq), Ok(()));
    q.ioctl(NBD_CLEAR_SOCK, 0, &no_events());
    assert!(q.sockets.is_empty());
    q.timeout(0, 6);
    let rq = q.tagset.tag_to_rq(0, 6).unwrap();
    assert_eq!(rq.data.result, Err(Error::Io));
    assert_eq!(rq.state, ReqState::Ended);
    assert!(q.sockets.is_empty());
}
