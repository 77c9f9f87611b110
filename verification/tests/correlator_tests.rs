use slot_correlator::correlator::Correlator;
use slot_correlator::correlator::ResolutionOutcome;
use slot_correlator::slot::SeqChar;

fn slot(symbol: u8) -> SeqChar {
    SeqChar::from_symbol(symbol).unwrap()
}

#[test]
fn new_correlator_is_empty() {
    let c = Correlator::new();
    for symbol in b'a'..=b'z' {
        assert!(!c.has_pending(slot(symbol)));
        assert!(!c.has_reply(slot(symbol)));
    }
}

#[test]
fn unanswered_request_is_missing_with_its_send_time() {
    let mut c = Correlator::new();
    c.record_send(slot(b'g'), 120_000_000);
    assert!(c.has_pending(slot(b'g')));
    assert_eq!(c.resolve(slot(b'g')), ResolutionOutcome::Missing { elapsed: 120_000_000 });
}

#[test]
fn unanswered_request_is_missing_whatever_other_slots_do() {
    let mut c = Correlator::new();
    c.record_send(slot(b'f'), 100);
    c.record_send(slot(b'g'), 120);
    c.record_send(slot(b'h'), 140);
    c.record_reply(slot(b'f'), b"1.0".to_vec());
    c.record_reply(slot(b'h'), b"3.0".to_vec());
    assert_eq!(
        c.resolve(slot(b'f')),
        ResolutionOutcome::Measured { elapsed: 100, payload: b"1.0".to_vec() }
    );
    assert_eq!(c.resolve(slot(b'g')), ResolutionOutcome::Missing { elapsed: 120 });
    assert_eq!(
        c.resolve(slot(b'h')),
        ResolutionOutcome::Measured { elapsed: 140, payload: b"3.0".to_vec() }
    );
}

#[test]
fn answered_request_is_measured_with_its_send_time() {
    let mut c = Correlator::new();
    c.record_send(slot(b'b'), 20_000_000);
    c.record_reply(slot(b'b'), b"12.345".to_vec());
    assert!(c.has_reply(slot(b'b')));
    assert_eq!(
        c.resolve(slot(b'b')),
        ResolutionOutcome::Measured { elapsed: 20_000_000, payload: b"12.345".to_vec() }
    );
}

#[test]
fn newest_reply_wins() {
    let mut c = Correlator::new();
    c.record_send(slot(b'k'), 7);
    c.record_reply(slot(b'k'), b"old".to_vec());
    c.record_reply(slot(b'k'), b"new".to_vec());
    assert_eq!(
        c.resolve(slot(b'k')),
        ResolutionOutcome::Measured { elapsed: 7, payload: b"new".to_vec() }
    );
}

#[test]
fn newest_send_time_wins() {
    let mut c = Correlator::new();
    c.record_send(slot(b'k'), 7);
    c.record_send(slot(b'k'), 9);
    assert_eq!(c.resolve(slot(b'k')), ResolutionOutcome::Missing { elapsed: 9 });
}

#[test]
fn resolve_removes_both_entries() {
    let mut c = Correlator::new();
    c.record_send(slot(b'z'), 1);
    c.record_reply(slot(b'z'), b"x".to_vec());
    let _ = c.resolve(slot(b'z'));
    assert!(!c.has_pending(slot(b'z')));
    assert!(!c.has_reply(slot(b'z')));
    c.record_send(slot(b'z'), 2);
    assert_eq!(c.resolve(slot(b'z')), ResolutionOutcome::Missing { elapsed: 2 });
}

#[test]
fn resolve_leaves_other_slots_alone() {
    let mut c = Correlator::new();
    for symbol in b'a'..=b'z' {
        c.record_send(slot(symbol), symbol as u64);
        c.record_reply(slot(symbol), vec![symbol]);
    }
    let _ = c.resolve(slot(b'm'));
    for symbol in b'a'..=b'z' {
        assert_eq!(c.has_pending(slot(symbol)), symbol != b'm');
        assert_eq!(c.has_reply(slot(symbol)), symbol != b'm');
    }
    assert_eq!(
        c.resolve(slot(b'n')),
        ResolutionOutcome::Measured { elapsed: b'n' as u64, payload: vec![b'n'] }
    );
}

#[test]
fn reply_before_its_request_is_kept_for_the_slot() {
    let mut c = Correlator::new();
    c.record_reply(slot(b'd'), b"early".to_vec());
    assert!(c.has_reply(slot(b'd')));
    assert!(!c.has_pending(slot(b'd')));
    c.record_send(slot(b'd'), 60);
    assert_eq!(
        c.resolve(slot(b'd')),
        ResolutionOutcome::Measured { elapsed: 60, payload: b"early".to_vec() }
    );
}

#[test]
fn empty_payload_is_still_a_reply() {
    let mut c = Correlator::new();
    c.record_send(slot(b'a'), 0);
    c.record_reply(slot(b'a'), Vec::new());
    assert_eq!(
        c.resolve(slot(b'a')),
        ResolutionOutcome::Measured { elapsed: 0, payload: Vec::new() }
    );
}
