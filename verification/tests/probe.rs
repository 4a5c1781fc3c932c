use autodpi::probe::{
    classify_read, conclude_probe, fail, ProbeEvent, ReadFailure, ReadOutcome, Verdict,
};

#[test]
fn verdict_labels() {
    assert_eq!(Verdict::Pass.label(), "PASS");
    assert_eq!(Verdict::Reset.label(), "reset (DPI)");
    assert_eq!(Verdict::Timeout.label(), "timeout");
    assert_eq!(Verdict::ConnectFailed.label(), "connect failed");
    assert_eq!(Verdict::Unexpected.label(), "unexpected reply");
    assert!(Verdict::Pass.is_pass());
    assert!(!Verdict::Reset.is_pass());
}

#[test]
fn first_read_classification() {
    assert_eq!(classify_read(ReadOutcome::Data { first_byte: 0x16 }), Verdict::Pass);
    assert_eq!(classify_read(ReadOutcome::Data { first_byte: 0x48 }), Verdict::Unexpected);
    assert_eq!(classify_read(ReadOutcome::Eof), Verdict::Timeout);
    assert_eq!(classify_read(ReadOutcome::Failed(ReadFailure::ConnectionReset)), Verdict::Reset);
    assert_eq!(classify_read(ReadOutcome::Failed(ReadFailure::ConnectionAborted)), Verdict::Reset);
    assert_eq!(classify_read(ReadOutcome::Failed(ReadFailure::WouldBlock)), Verdict::Timeout);
    assert_eq!(classify_read(ReadOutcome::Failed(ReadFailure::TimedOut)), Verdict::Timeout);
    assert_eq!(classify_read(ReadOutcome::Failed(ReadFailure::Other)), Verdict::Timeout);
}

#[test]
fn probe_results() {
    let r = conclude_probe("split-sni".into(), ProbeEvent::Replied(ReadOutcome::Data { first_byte: 0x16 }), 1234);
    assert_eq!(r.strategy, "split-sni");
    assert_eq!(r.verdict, Verdict::Pass);
    assert_eq!(r.latency, Some(1234));

    let r = conclude_probe("direct".into(), ProbeEvent::Replied(ReadOutcome::Eof), 99);
    assert_eq!(r.verdict, Verdict::Timeout);
    assert_eq!(r.latency, None);

    assert_eq!(conclude_probe("d".into(), ProbeEvent::AddressUnresolved, 1).verdict, Verdict::ConnectFailed);
    assert_eq!(conclude_probe("d".into(), ProbeEvent::ConnectFailed, 1).verdict, Verdict::ConnectFailed);
    let r = conclude_probe("d".into(), ProbeEvent::SendFailed, 1);
    assert_eq!(r.verdict, Verdict::Reset);
    assert_eq!(r.latency, None);
}

#[test]
fn failed_probe_carries_no_latency() {
    let r = fail("split-5".to_string(), Verdict::Reset);
    assert_eq!(r.strategy, "split-5");
    assert_eq!(r.verdict, Verdict::Reset);
    assert_eq!(r.latency, None);
}
