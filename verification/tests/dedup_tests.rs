use fab::dedup::{DedupSender, EXPIRE_NANOS};
use fab::error::FabError;
use tokio::sync::mpsc;

#[test]
fn new_message_is_forwarded_once() {
    let (tx, mut rx) = mpsc::unbounded_channel();
    let mut d = DedupSender::new(tx);
    assert!(matches!(d.send("hello".to_string()), Ok(true)));
    assert_eq!(rx.try_recv().unwrap(), "hello");
    assert!(matches!(d.send("hello".to_string()), Ok(false)));
    assert!(rx.try_recv().is_err());
}

#[test]
fn distinct_messages_both_forwarded() {
    let (tx, mut rx) = mpsc::unbounded_channel();
    let mut d = DedupSender::new(tx);
    assert!(matches!(d.send("a".to_string()), Ok(true)));
    assert!(matches!(d.send("b".to_string()), Ok(true)));
    assert_eq!(rx.try_recv().unwrap(), "a");
    assert_eq!(rx.try_recv().unwrap(), "b");
}

#[test]
fn window_is_measured_from_last_sighting() {
    let (tx, mut rx) = mpsc::unbounded_channel();
    let mut d = DedupSender::new(tx);
    assert!(matches!(d.send_at("m".to_string(), 0), Ok(true)));
    // 5 s later: still inside the window; the stamp moves to 5 s.
    assert!(matches!(d.send_at("m".to_string(), 5_000_000_000), Ok(false)));
    // 14 s: 9 s after the last sighting, still dropped.
    assert!(matches!(d.send_at("m".to_string(), 14_000_000_000), Ok(false)));
    // 24 s: exactly the window after the last sighting, forwarded again.
    assert!(matches!(d.send_at("m".to_string(), 24_000_000_000), Ok(true)));
    assert_eq!(rx.try_recv().unwrap(), "m");
    assert_eq!(rx.try_recv().unwrap(), "m");
    assert!(rx.try_recv().is_err());
}

#[test]
fn window_boundary_exact_value() {
    let (tx, _rx) = mpsc::unbounded_channel();
    let mut d = DedupSender::new(tx);
    assert!(matches!(d.send_at("m".to_string(), 100), Ok(true)));
    assert!(matches!(d.send_at("m".to_string(), 100 + EXPIRE_NANOS - 1), Ok(false)));
    let (tx2, _rx2) = mpsc::unbounded_channel();
    let mut d2 = DedupSender::new(tx2);
    assert!(matches!(d2.send_at("m".to_string(), 100), Ok(true)));
    assert!(matches!(d2.send_at("m".to_string(), 100 + EXPIRE_NANOS), Ok(true)));
}

#[test]
fn earlier_clock_reading_counts_as_no_time() {
    let (tx, _rx) = mpsc::unbounded_channel();
    let mut d = DedupSender::new(tx);
    assert!(matches!(d.send_at("m".to_string(), 50_000_000_000), Ok(true)));
    assert!(matches!(d.send_at("m".to_string(), 1), Ok(false)));
}

#[test]
fn registered_message_is_dropped() {
    let (tx, mut rx) = mpsc::unbounded_channel();
    let mut d = DedupSender::new(tx);
    d.register("echo".to_string());
    assert!(matches!(d.send("echo".to_string()), Ok(false)));
    assert!(rx.try_recv().is_err());
    d.register_at("late".to_string(), 0);
    assert!(matches!(d.send_at("late".to_string(), EXPIRE_NANOS), Ok(true)));
}

#[test]
fn closed_channel_gives_send_error() {
    let (tx, rx) = mpsc::unbounded_channel::<String>();
    drop(rx);
    let mut d = DedupSender::new(tx);
    assert!(matches!(d.send("x".to_string()), Err(FabError::ChannelSendError)));
    // the message was stamped all the same
    assert!(matches!(d.send("x".to_string()), Ok(false)));
}

#[test]
fn relay_stops_on_closed_input_or_output() {
    let (tx, mut rx) = mpsc::unbounded_channel();
    let mut d = DedupSender::new(tx);
    assert!(!d.relay(None));
    assert!(d.relay(Some("r".to_string())));
    assert!(d.relay(Some("r".to_string())));
    assert_eq!(rx.try_recv().unwrap(), "r");
    assert!(rx.try_recv().is_err());
    drop(rx);
    assert!(!d.relay(Some("s".to_string())));
}

#[test]
fn screen_lets_through_only_new_messages() {
    let (tx, mut rx) = mpsc::unbounded_channel();
    let mut d = DedupSender::new(tx);
    assert_eq!(d.screen("m".to_string(), 0), Some("m".to_string()));
    assert_eq!(d.screen("m".to_string(), 1), None);
    assert_eq!(d.screen("m".to_string(), 1 + EXPIRE_NANOS), Some("m".to_string()));
    // screening hands nothing to the channel
    assert!(rx.try_recv().is_err());
}

#[test]
fn delivery_answer_and_pass_on() {
    let (tx, mut rx) = mpsc::unbounded_channel();
    let mut d = DedupSender::new(tx);
    match d.handle_delivery("c".to_string()) {
        Ok((ack, again)) => {
            assert_eq!(ack, 0);
            assert_eq!(again, Some("c".to_string()));
        }
        Err(_) => panic!("channel is open"),
    }
    match d.handle_delivery("c".to_string()) {
        Ok((ack, again)) => {
            assert_eq!(ack, 1);
            assert_eq!(again, None);
        }
        Err(_) => panic!("channel is open"),
    }
    assert_eq!(rx.try_recv().unwrap(), "c");
    assert!(rx.try_recv().is_err());
    drop(rx);
    assert!(matches!(d.handle_delivery("d".to_string()), Err(FabError::ChannelSendError)));
}

#[test]
fn copies_within_window_go_out_once() {
    // a broadcast registers its message; copies coming back, and copies
    // arriving at once, go out at most once per window
    let (tx, mut rx) = mpsc::unbounded_channel();
    let mut d = DedupSender::new(tx);
    d.register_at("own".to_string(), 0);
    assert!(matches!(d.send_at("own".to_string(), 1), Ok(false)));
    assert!(matches!(d.send_at("other".to_string(), 2), Ok(true)));
    assert!(matches!(d.send_at("other".to_string(), 2), Ok(false)));
    assert!(matches!(d.send_at("other".to_string(), 3), Ok(false)));
    assert_eq!(rx.try_recv().unwrap(), "other");
    assert!(rx.try_recv().is_err());
}
