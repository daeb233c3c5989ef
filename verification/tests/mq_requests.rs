use rblock::errno::Error;
use rblock::mq::{Bio, ReqState, Request, TagSet};

fn plain_request(tag: i32, segments: Vec<Vec<u32>>) -> Request<u8> {
    Request {
        command: 0,
        tag,
        sector: 0,
        bios: segments.into_iter().map(|s| Bio { segments: s }).collect(),
        data: 0,
        state: ReqState::New,
        outcome: None,
    }
}

#[test]
fn payload_sums_all_segments() {
    let rq = plain_request(0, vec![vec![4096, 512], vec![1024]]);
    assert_eq!(rq.payload_bytes(), 5632);
    let empty = plain_request(0, vec![]);
    assert_eq!(empty.payload_bytes(), 0);
}

#[test]
fn request_ends_once() {
    let mut rq = plain_request(0, vec![]);
    rq.start();
    assert_eq!(rq.state, ReqState::Started);
    assert!(rq.end(Err(Error::Io)));
    assert_eq!(rq.state, ReqState::Ended);
    assert_eq!(rq.outcome, Some(Err(Error::Io)));
    // the loser of the completion race changes nothing
    assert!(!rq.end(Ok(())));
    assert_eq!(rq.outcome, Some(Err(Error::Io)));
}

#[test]
fn request_accessors() {
    let rq = Request {
        command: 1,
        tag: 9,
        sector: 77,
        bios: vec![],
        data: 5u8,
        state: ReqState::New,
        outcome: None,
    };
    assert_eq!(rq.command(), 1);
    assert_eq!(rq.tag(), 9);
    assert_eq!(rq.sector(), 77);
    assert_eq!(*rq.data_ref(), 5);
}

#[test]
fn tagset_lookup_by_queue_and_tag() {
    let mut ts: TagSet<u8> = TagSet::new(2, 4);
    assert!(ts.tag_to_rq(0, 0).is_none());
    ts.install(1, 3, plain_request(3, vec![]));
    assert!(ts.tag_to_rq(1, 3).is_some());
    assert!(ts.tag_to_rq(0, 3).is_none());
    assert!(ts.tag_to_rq(1, 2).is_none());
    // out-of-range pairs never resolve
    assert!(ts.tag_to_rq(2, 0).is_none());
    assert!(ts.tag_to_rq(0, 4).is_none());
    let taken = ts.uninstall(1, 3).unwrap();
    assert_eq!(taken.tag, 3);
    assert!(ts.tag_to_rq(1, 3).is_none());
}
