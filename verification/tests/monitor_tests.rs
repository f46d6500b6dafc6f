use resp_codec::monitor::{parse_monitor_line, Monitor, MonitorState};

#[test]
fn stop_before_start_is_noop() {
    let mut m = Monitor::new(vec![String::from("a:6379")]);
    assert!(!m.is_running());
    let stopped = m.stop();
    assert!(!stopped);
    assert_eq!(m.state, MonitorState::Idle);
}

#[test]
fn start_then_stop() {
    let mut m = Monitor::new(vec![String::from("a:6379"), String::from("b:6379")]);
    let servers = m.monitor().expect("should start from idle");
    assert_eq!(servers, vec![String::from("a:6379"), String::from("b:6379")]);
    assert!(m.is_running());
    assert!(m.monitor().is_none());
    let stopped = m.stop();
    assert!(stopped);
    assert!(!m.is_running());
    assert!(!m.stop());
    assert_eq!(m.state, MonitorState::Stopped);
}

#[test]
fn stopped_monitor_is_not_restartable() {
    let mut m = Monitor::new(vec![String::from("a:6379")]);
    m.monitor();
    m.stop();
    assert!(m.monitor().is_none());
    assert_eq!(m.state, MonitorState::Stopped);
}

#[test]
fn consumer_drop_clears_running_flag() {
    let mut m = Monitor::new(vec![String::from("a:6379")]);
    m.monitor();
    assert!(m.is_running());
    let torn_down = m.on_consumer_dropped();
    assert!(torn_down);
    assert!(!m.is_running());
}

#[test]
fn parse_feed_line_with_key() {
    let line = br#"1339518083.107412 [0 127.0.0.1:60866] "SET" "foo" "bar""#.to_vec();
    let frame = parse_monitor_line(&line, 17, String::from("node-1:6379"));
    assert_eq!(frame.args.len(), 3);
    assert_eq!(frame.args[0], b"SET".to_vec());
    assert_eq!(frame.args[1], b"foo".to_vec());
    assert_eq!(frame.args[2], b"bar".to_vec());
    assert_eq!(frame.key, Some(b"foo".to_vec()));
    assert_eq!(frame.received, 17);
    assert_eq!(frame.server, String::from("node-1:6379"));
}

#[test]
fn parse_feed_line_without_key() {
    let line = br#"1339518083.107412 [0 127.0.0.1:60866] "PING""#.to_vec();
    let frame = parse_monitor_line(&line, 0, String::from("s"));
    assert_eq!(frame.args, vec![b"PING".to_vec()]);
    assert_eq!(frame.key, None);
}
