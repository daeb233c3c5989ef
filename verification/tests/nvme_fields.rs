use rblock::nvme_regs::{Cap, Csts, Shst};

#[test]
fn cap_fields_read_back() {
    let mut cap = Cap::default();
    assert_eq!(cap.mqes(), 0);
    cap.set_mqes(0x1234);
    cap.set_cqr(true);
    cap.set_dstrd(0xb);
    assert_eq!(cap.mqes(), 0x1234);
    assert!(cap.cqr());
    assert_eq!(cap.dstrd(), 0xb);
    // rewriting one field leaves the others alone
    cap.set_mqes(0xffff);
    assert_eq!(cap.mqes(), 0xffff);
    assert!(cap.cqr());
    assert_eq!(cap.dstrd(), 0xb);
    cap.set_cqr(false);
    assert_eq!(cap.mqes(), 0xffff);
    assert!(!cap.cqr());
    assert_eq!(cap.dstrd(), 0xb);
}

#[test]
fn cap_field_positions() {
    let mut cap = Cap(0);
    cap.set_mqes(1);
    assert_eq!(cap.0, 1);
    let mut cap = Cap(0);
    cap.set_cqr(true);
    assert_eq!(cap.0, 1 << 16);
    let mut cap = Cap(0);
    cap.set_dstrd(1);
    assert_eq!(cap.0, 1 << 32);
}

#[test]
fn csts_fields_read_back() {
    let mut csts = Csts::default();
    csts.set_rdy(true);
    csts.set_cfs(true);
    csts.set_shst(Shst::ShutdownOccurring);
    csts.set_nssro(true);
    csts.set_pp(true);
    csts.set_st(true);
    assert!(csts.rdy());
    assert!(csts.cfs());
    assert_eq!(csts.shst(), Shst::ShutdownOccurring);
    assert!(csts.nssro());
    assert!(csts.pp());
    assert!(csts.st());
    csts.set_shst(Shst::ShutdownComplete);
    assert_eq!(csts.shst(), Shst::ShutdownComplete);
    assert!(csts.rdy());
    assert!(csts.nssro());
    assert_eq!(csts.0, 0b111_1011);
}

#[test]
fn shst_encoding_round_trips() {
    for v in [
        Shst::NormalOperation,
        Shst::ShutdownOccurring,
        Shst::ShutdownComplete,
        Shst::Reserved3,
    ] {
        assert_eq!(Shst::from_bits(v.to_bits()), v);
    }
    assert_eq!(Shst::from_bits(0), Shst::NormalOperation);
    assert_eq!(Shst::from_bits(2), Shst::ShutdownComplete);
    // only the low two bits count
    assert_eq!(Shst::from_bits(0xfe), Shst::ShutdownComplete);
}
