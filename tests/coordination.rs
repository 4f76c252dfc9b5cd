use edbrute::{
    encode_line, public_key_to_u128, Controller, ControllerAction, KeyPair, LineError, LoadError,
    Worker, WorkerMessage,
};

const PUBLIC_A: &str = "d75a980182b10ab7d54bfed3c964073a0ee172f3daa62325af021a68f707511a";
const SECRET_A: &str = "9d61b19deffd5a60ba844af492ec2cc44449c5697b326919703bac031cae7f60";
const PUBLIC_B: &str = "3d4017c3e843895a92b70aa74d1b7ebc9c982ccf2ec4968cc0cd55f12af4660c";
const SECRET_B: &str = "4ccd089b28ff96da9db6c346ec114e0f5b8a319f35aba624da8cf6ed4fb8a6fb";

fn with_value(value: u128) -> KeyPair {
    let mut public = value.to_be_bytes().to_vec();
    public.extend_from_slice(&[0x5a; 16]);
    KeyPair { public, secret: vec![value as u8; 32] }
}

fn line(public: &str, secret: &str) -> Vec<u8> {
    format!("{public},{secret}").into_bytes()
}

#[test]
fn startup_with_empty_log_generates_incumbent() {
    let c = Controller::startup(&Vec::new()).unwrap();
    assert_eq!(c.largest_keypair.public.len(), 32);
    assert_eq!(c.largest_keypair.secret.len(), 32);
    assert_eq!(c.largest_value, public_key_to_u128(&c.largest_keypair));
}

#[test]
fn startup_takes_greatest_logged_entry() {
    let lines = vec![line(PUBLIC_B, SECRET_B), line(PUBLIC_A, SECRET_A)];
    let c = Controller::startup(&lines).unwrap();
    assert_eq!(c.largest_value, 0xd75a980182b10ab7d54bfed3c964073a);
    assert_eq!(encode_line(&c.largest_keypair), line(PUBLIC_A, SECRET_A));
    assert_eq!(c.checkpoint_line(), line(PUBLIC_A, SECRET_A));
}

#[test]
fn startup_fails_on_line_without_comma() {
    let lines = vec![line(PUBLIC_A, SECRET_A), format!("{PUBLIC_B}{SECRET_B}").into_bytes()];
    assert_eq!(
        Controller::startup(&lines).err(),
        Some(LoadError { line: 1, reason: LineError::MissingDelimiter })
    );
}

#[test]
fn accepts_five_rejects_three_accepts_nine() {
    let mut c = Controller::with_incumbent(with_value(1));
    assert_eq!(c.largest_value, 1);
    let mut appended = Vec::new();
    let mut broadcasts = Vec::new();
    let mut actions = Vec::new();
    for v in [5u128, 3, 9] {
        let action = c.handle(WorkerMessage::Largest(with_value(v)));
        if let ControllerAction::Broadcast(t) = action {
            broadcasts.push(t);
            appended.push(c.checkpoint_line());
        }
        actions.push(action);
    }
    assert_eq!(
        actions,
        vec![ControllerAction::Broadcast(5), ControllerAction::Discard, ControllerAction::Broadcast(9)]
    );
    assert_eq!(appended, vec![encode_line(&with_value(5)), encode_line(&with_value(9))]);
    assert_eq!(broadcasts.last(), Some(&9));
    assert_eq!(c.largest_value, 9);
    assert_eq!(c.largest_keypair.public, with_value(9).public);
}

#[test]
fn equal_candidate_does_not_replace() {
    let mut c = Controller::with_incumbent(with_value(7));
    let mut same = with_value(7);
    same.secret = vec![0xee; 32];
    assert_eq!(c.handle(WorkerMessage::Largest(same)), ControllerAction::Discard);
    assert_eq!(c.largest_keypair.secret, vec![7u8; 32]);
}

#[test]
fn largest_value_never_decreases() {
    let mut c = Controller::with_incumbent(with_value(10));
    let mut last = c.largest_value;
    for v in [4u128, 12, 11, 30, 2, 31] {
        let action = c.handle(WorkerMessage::Largest(with_value(v)));
        assert!(c.largest_value >= last);
        if c.largest_value != last {
            assert_eq!(action, ControllerAction::Broadcast(c.largest_value));
        } else {
            assert_eq!(action, ControllerAction::Discard);
        }
        last = c.largest_value;
    }
    assert_eq!(last, 31);
}

#[test]
fn progress_advances_counter_only() {
    let mut c = Controller::with_incumbent(with_value(3));
    let action = c.handle(WorkerMessage::Progress { iteration_delta: 65535 });
    assert_eq!(action, ControllerAction::Advance(65535));
    assert_eq!(c.largest_value, 3);
}

#[test]
fn worker_reports_only_above_threshold() {
    let mut w = Worker::new(10);
    assert!(w.consider(with_value(10)).is_none());
    assert!(w.consider(with_value(4)).is_none());
    let reported = w.consider(with_value(11)).unwrap();
    assert_eq!(reported.public, with_value(11).public);
    assert_eq!(w.threshold, 11);
}

#[test]
fn worker_raises_local_threshold_after_report() {
    let mut w = Worker::new(1);
    assert!(w.consider(with_value(8)).is_some());
    assert!(w.consider(with_value(6)).is_none());
    assert_eq!(w.threshold, 8);
}

#[test]
fn worker_with_increasing_broadcasts() {
    let mut w = Worker::new(0);
    let mut reported = Vec::new();
    for (t, candidates) in [(5u128, [3u128, 5, 6]), (20, [19, 20, 25]), (40, [41, 39, 40])] {
        w.adopt(t);
        for v in candidates {
            if let Some(kp) = w.consider(with_value(v)) {
                let value = public_key_to_u128(&kp);
                assert!(value > t);
                reported.push(value);
            }
        }
    }
    assert_eq!(reported, vec![6, 25, 41]);
}

#[test]
fn worker_never_lowers_threshold() {
    let mut w = Worker::new(50);
    w.adopt(20);
    assert_eq!(w.threshold, 50);
    w.adopt(70);
    assert_eq!(w.threshold, 70);
}

#[test]
fn search_step_respects_threshold() {
    let mut top = Worker::new(u128::MAX);
    for _ in 0..8 {
        assert!(top.search_step().is_none());
    }
    assert_eq!(top.threshold, u128::MAX);
    let mut bottom = Worker::new(0);
    let kp = bottom.search_step().unwrap();
    assert_eq!(kp.public.len(), 32);
    assert_eq!(bottom.threshold, public_key_to_u128(&kp));
}
