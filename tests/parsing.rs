use jtda::{by_stacktrace, by_state, JThreadDump, JThreadInfo, JThreadState, ParseError};

fn info(
    name: &str,
    daemon: bool,
    priority: &str,
    thread_id: &str,
    native_id: &str,
    state: Option<JThreadState>,
    stacktrace: Option<&str>,
) -> JThreadInfo {
    JThreadInfo {
        name: name.to_string(),
        daemon,
        priority: priority.to_string(),
        thread_id: thread_id.to_string(),
        native_id: native_id.to_string(),
        state,
        stacktrace: stacktrace.map(|s| s.to_string()),
    }
}

#[test]
fn test_state_parser() {
    let s = "   java.lang.Thread.State: WAITING (parking)";
    assert_eq!(JThreadState::parse(s), Ok(JThreadState::Waiting));
}

#[test]
fn test_thread_info_line() {
    let t = "\"async-dispatch-4\" daemon prio=10 tid=0x00007f49d5b4a800 nid=0x1b2 waiting on condition [0x00007f48cd498000]
   java.lang.Thread.State: WAITING (parking)
	at java.net.PlainSocketImpl.socketAccept(Native Method)
	at java.net.AbstractPlainSocketImpl.accept(AbstractPlainSocketImpl.java:398)
	at java.net.ServerSocket.implAccept(ServerSocket.java:530)
	at java.net.ServerSocket.accept(ServerSocket.java:498)
	at sun.rmi.transport.tcp.TCPTransport$AcceptLoop.executeAcceptLoop(TCPTransport.java:399)
	at sun.rmi.transport.tcp.TCPTransport$AcceptLoop.run(TCPTransport.java:371)
	at java.lang.Thread.run(Thread.java:745)";
    let expected = info(
        "async-dispatch-4",
        true,
        "10",
        "0x00007f49d5b4a800",
        "0x1b2",
        Some(JThreadState::Waiting),
        Some("	at java.net.PlainSocketImpl.socketAccept(Native Method)
	at java.net.AbstractPlainSocketImpl.accept(AbstractPlainSocketImpl.java:398)
	at java.net.ServerSocket.implAccept(ServerSocket.java:530)
	at java.net.ServerSocket.accept(ServerSocket.java:498)
	at sun.rmi.transport.tcp.TCPTransport$AcceptLoop.executeAcceptLoop(TCPTransport.java:399)
	at sun.rmi.transport.tcp.TCPTransport$AcceptLoop.run(TCPTransport.java:371)
	at java.lang.Thread.run(Thread.java:745)"),
    );
    assert_eq!(JThreadInfo::parse(t), Ok(expected));

    let t2 = "\"G1 Concurrent Refinement Thread#17\" prio=10 tid=0x00007f49d4045800 nid=0x59 runnable";
    let expected2 = info(
        "G1 Concurrent Refinement Thread#17",
        false,
        "10",
        "0x00007f49d4045800",
        "0x59",
        None,
        None,
    );
    assert_eq!(JThreadInfo::parse(t2), Ok(expected2));
}

#[test]
fn test_parsing_dump() {
    let s = "2015-12-20 12:23:06
Full thread dump Java HotSpot(TM) 64-Bit Server VM (24.80-b11 mixed mode):

\"Attach Listener\" daemon prio=10 tid=0x00007f48d801d800 nid=0x3c21 waiting on condition [0x0000000000000000]
   java.lang.Thread.State: RUNNABLE

JNI global references: 331";
    let t = JThreadDump::parse(s).unwrap();
    assert_eq!(t.timestamp, "2015-12-20 12:23:06");
    assert_eq!(t.jvm_info, "Full thread dump Java HotSpot(TM) 64-Bit Server VM (24.80-b11 mixed mode):");
    assert_eq!(t.threads.len(), 1);
}

#[test]
fn state_parser_reads_every_state() {
    let cases = [
        ("WAITING", JThreadState::Waiting),
        ("TIMED_WAITING", JThreadState::TimedWaiting),
        ("BLOCKED", JThreadState::Blocked),
        ("RUNNABLE", JThreadState::Runnable),
        ("NEW", JThreadState::New),
        ("TERMINATED", JThreadState::Terminated),
    ];
    for (name, st) in cases.iter() {
        let line = format!("\t  java.lang.Thread.State: {}", name);
        assert_eq!(JThreadState::parse(&line), Ok(*st));
        let line2 = format!("java.lang.Thread.State: {} (on object monitor)", name);
        assert_eq!(JThreadState::parse(&line2), Ok(*st));
    }
}

#[test]
fn state_parser_rejects_unknown_or_missing_state() {
    assert_eq!(
        JThreadState::parse("   java.lang.Thread.State: INVALID_TAG"),
        Err(ParseError::InvalidState)
    );
    assert_eq!(JThreadState::parse("   at java.lang.Thread.run"), Err(ParseError::InvalidState));
    assert_eq!(JThreadState::parse(""), Err(ParseError::InvalidState));
    assert_eq!(JThreadState::parse("State: waiting"), Err(ParseError::InvalidState));
    assert_eq!(JThreadState::parse("State: WAITINGX"), Err(ParseError::InvalidState));
}

#[test]
fn state_parser_skips_marker_without_token() {
    assert_eq!(JThreadState::parse("State:  State: BLOCKED"), Ok(JThreadState::Blocked));
}

#[test]
fn header_with_daemon_marker() {
    let r = JThreadInfo::parse("\"name\" daemon prio=10 tid=0x1 nid=0x2 runnable");
    assert_eq!(r, Ok(info("name", true, "10", "0x1", "0x2", None, None)));
}

#[test]
fn header_without_daemon_marker() {
    let r = JThreadInfo::parse("\"name\" prio=10 tid=0x1 nid=0x2 runnable");
    assert_eq!(r, Ok(info("name", false, "10", "0x1", "0x2", None, None)));
}

#[test]
fn header_name_takes_shortest_quoted_text_that_fits() {
    let r = JThreadInfo::parse("\"a\"b\" prio=1 tid=x nid=y");
    assert_eq!(r, Ok(info("a\"b", false, "1", "x", "y", None, None)));
}

#[test]
fn header_with_state_and_no_trace() {
    let r = JThreadInfo::parse("\"w\" prio=5 tid=0xa nid=0xb in Object.wait()\n   java.lang.Thread.State: BLOCKED");
    assert_eq!(r, Ok(info("w", false, "5", "0xa", "0xb", Some(JThreadState::Blocked), None)));
}

#[test]
fn trace_runs_to_end_of_block() {
    let r = JThreadInfo::parse("  \"n\" prio=1 tid=2 nid=3\n   java.lang.Thread.State: RUNNABLE\n\tat x\n\tat y\n  ");
    assert_eq!(
        r,
        Ok(info("n", false, "1", "2", "3", Some(JThreadState::Runnable), Some("\tat x\n\tat y\n  ")))
    );
}

#[test]
fn bad_header_is_rejected() {
    assert_eq!(JThreadInfo::parse("\"x\" prio=ten tid=1 nid=2"), Err(ParseError::InvalidHeader));
    assert_eq!(JThreadInfo::parse("\"\" prio=1 tid=1 nid=2"), Err(ParseError::InvalidHeader));
    assert_eq!(JThreadInfo::parse("x prio=1 tid=1 nid=2"), Err(ParseError::InvalidHeader));
    assert_eq!(JThreadInfo::parse("\"x\" prio=1 tid=1 nid="), Err(ParseError::InvalidHeader));
    assert_eq!(JThreadInfo::parse(""), Err(ParseError::InvalidHeader));
}

#[test]
fn bad_state_line_in_block_is_rejected() {
    let r = JThreadInfo::parse("\"x\" prio=1 tid=1 nid=2\n\tat a.b.c");
    assert_eq!(r, Err(ParseError::InvalidState));
}

fn three_thread_dump() -> String {
    let mut s = String::from("2015-12-20 12:23:06\nFull thread dump:\n\n");
    s.push_str("\"t1\" prio=5 tid=0x1 nid=0x11\n   java.lang.Thread.State: WAITING (parking)\n\tat a.A.run(A.java:1)\n\n");
    s.push_str("\"t2\" daemon prio=5 tid=0x2 nid=0x12\n   java.lang.Thread.State: RUNNABLE\n\tat b.B.run(B.java:2)\n\n");
    s.push_str("\"t3\" prio=5 tid=0x3 nid=0x13\n   java.lang.Thread.State: WAITING (parking)\n\tat a.A.run(A.java:1)\n\n");
    s.push_str("\"t4\" prio=5 tid=0x4 nid=0x14 runnable\n\n");
    s.push_str("JNI global references: 7\n");
    s
}

#[test]
fn dump_keeps_thread_order_and_drops_trailing_section() {
    let d = JThreadDump::parse(&three_thread_dump()).unwrap();
    assert_eq!(d.timestamp, "2015-12-20 12:23:06");
    assert_eq!(d.jvm_info, "Full thread dump:");
    let names: Vec<&str> = d.threads.iter().map(|t| t.name.as_str()).collect();
    assert_eq!(names, vec!["t1", "t2", "t3", "t4"]);
    assert!(d.threads[1].daemon);
    assert_eq!(d.threads[3].state, None);
}

#[test]
fn dump_without_trailing_section_loses_last_thread() {
    let s = "ts\nvm\n\n\"a\" prio=1 tid=1 nid=1\n\n\"b\" prio=1 tid=2 nid=2";
    let d = JThreadDump::parse(s).unwrap();
    assert_eq!(d.threads.len(), 1);
    assert_eq!(d.threads[0].name, "a");
}

#[test]
fn dump_format_errors() {
    assert_eq!(JThreadDump::parse("only one line"), Err(ParseError::InvalidDumpFormat));
    assert_eq!(JThreadDump::parse("ts\nvm"), Err(ParseError::InvalidDumpFormat));
    assert_eq!(JThreadDump::parse(""), Err(ParseError::InvalidDumpFormat));
    let d = JThreadDump::parse("ts\nvm\n\ntrailer").unwrap();
    assert_eq!(d.threads.len(), 0);
}

#[test]
fn dump_fails_on_first_bad_thread() {
    let s = "ts\nvm\n\n\"a\" prio=1 tid=1 nid=1\n  State: SLEEPING\n\nnot a header\n\ntrailer";
    assert_eq!(JThreadDump::parse(s), Err(ParseError::InvalidState));
    let s2 = "ts\nvm\n\nnot a header\n\n\"a\" prio=1 tid=1 nid=1\n  State: SLEEPING\n\ntrailer";
    assert_eq!(JThreadDump::parse(s2), Err(ParseError::InvalidHeader));
}

#[test]
fn group_by_state_keeps_order() {
    let d = JThreadDump::parse(&three_thread_dump()).unwrap();
    let g = by_state(&d);
    assert_eq!(
        g,
        vec![(JThreadState::Waiting, vec![0, 2]), (JThreadState::Runnable, vec![1])]
    );
}

#[test]
fn group_by_stacktrace_collapses_identical_traces() {
    let d = JThreadDump::parse(&three_thread_dump()).unwrap();
    let g = by_stacktrace(&d);
    assert_eq!(
        g,
        vec![
            ("\tat a.A.run(A.java:1)".to_string(), vec![0, 2]),
            ("\tat b.B.run(B.java:2)".to_string(), vec![1]),
        ]
    );
}

#[test]
fn group_by_stacktrace_orders_keys() {
    let s = "ts\nvm\n\n\"a\" prio=1 tid=1 nid=1\n State: NEW\nzz\n\n\"b\" prio=1 tid=2 nid=2\n State: NEW\nab\n\n\"c\" prio=1 tid=3 nid=3\n State: NEW\nabc\n\n\"d\" prio=1 tid=4 nid=4\n State: NEW\nab\n\ntrailer";
    let d = JThreadDump::parse(s).unwrap();
    let g = by_stacktrace(&d);
    assert_eq!(
        g,
        vec![
            ("ab".to_string(), vec![1, 3]),
            ("abc".to_string(), vec![2]),
            ("zz".to_string(), vec![0]),
        ]
    );
}

#[test]
fn groups_of_empty_dump_are_empty() {
    let d = JThreadDump::parse("ts\nvm\n\ntrailer").unwrap();
    assert!(by_state(&d).is_empty());
    assert!(by_stacktrace(&d).is_empty());
}

#[test]
fn parsing_twice_gives_equal_results() {
    let text = three_thread_dump();
    assert_eq!(JThreadDump::parse(&text), JThreadDump::parse(&text));
    let bad = "ts\nvm\n\nbad\n\ntrailer";
    assert_eq!(JThreadDump::parse(bad), JThreadDump::parse(bad));
}
