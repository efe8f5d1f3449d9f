use ssh_agent_mux::peer::{
    cmdline_from_raw, cmdline_step, comm_from_raw, ppid_from_status, proc_file, truncate, PeerInfo,
    ReadComm, WalkAction, WalkEvent, CMDLINE_DISPLAY_MAX, MAX_ANCESTRY_DEPTH,
};
use ssh_agent_mux::step::Step;

#[test]
fn truncate_ascii() {
    assert_eq!(truncate("hello", 10), "hello");
    assert_eq!(truncate("hello world", 5), "hell\u{2026}");
}

#[test]
fn truncate_at_the_limit() {
    assert_eq!(truncate("hello", 5), "hello");
    assert_eq!(truncate("hello", 4), "hel\u{2026}");
    assert_eq!(truncate("hello", 1), "\u{2026}");
    assert_eq!(truncate("hello", 0), "\u{2026}");
    assert_eq!(truncate("", 0), "");
}

#[test]
fn truncate_between_characters() {
    // Each of these characters takes two, three and four bytes.
    assert_eq!(truncate("\u{e9}\u{e9}\u{e9}", 4), "\u{e9}\u{2026}");
    assert_eq!(truncate("\u{e9}\u{e9}\u{e9}", 5), "\u{e9}\u{e9}\u{2026}");
    assert_eq!(truncate("\u{20ac}\u{20ac}", 3), "\u{2026}");
    assert_eq!(truncate("\u{20ac}\u{20ac}", 5), "\u{20ac}\u{2026}");
    assert_eq!(truncate("a\u{1f511}b", 5), "a\u{2026}");
    assert_eq!(truncate("a\u{1f511}b", 6), "a\u{1f511}b");
}

#[test]
fn truncate_twice_changes_nothing() {
    for text in ["hello world", "\u{20ac}\u{20ac}\u{20ac}\u{20ac}", "a\u{1f511}b\u{1f511}"] {
        for max in 0..14 {
            let once = truncate(text, max);
            assert_eq!(truncate(&once, max), once);
            assert!(max == 0 || once.chars().count() <= max);
        }
    }
}

#[test]
fn truncate_keeps_the_longest_prefix() {
    let text = "ab\u{20ac}cd\u{1f511}ef";
    for max in 1..text.len() {
        let out = truncate(text, max);
        let kept = out.trim_end_matches('\u{2026}');
        assert!(text.starts_with(kept));
        assert!(kept.len() < max);
        let next = text[kept.len()..].chars().next().unwrap();
        assert!(kept.len() + next.len_utf8() >= max);
    }
}

fn walk_table(table: &[(i32, Option<i32>, Option<&str>)], pid: i32) -> PeerInfo {
    let entry = |p: i32| table.iter().find(|e| e.0 == p);
    let parent = |p: i32| entry(p).and_then(|e| e.1);
    let cmdline = |p: i32| entry(p).and_then(|e| e.2).map(|c| c.to_string());
    let mut info = PeerInfo::new(pid, 1000, 100, cmdline(pid));
    let mut event = WalkEvent::Parent { ppid: parent(pid) };
    loop {
        event = match info.walk(event) {
            Step::Return(()) => return info,
            Step::Perform(WalkAction::ReadCmdline { pid }) => WalkEvent::Cmdline {
                pid,
                cmdline: cmdline(pid),
            },
            Step::Perform(WalkAction::ReadParent { pid }) => WalkEvent::Parent {
                ppid: parent(pid),
            },
        };
    }
}

#[test]
fn ancestry_is_the_chain_of_parents() {
    let table = [
        (40, Some(30), Some("ssh git@host")),
        (30, Some(20), Some("git push")),
        (20, Some(1), None),
        (1, Some(0), Some("init")),
    ];
    let info = walk_table(&table, 40);
    assert_eq!(info.pid, 40);
    assert_eq!(info.uid, 1000);
    assert_eq!(info.gid, 100);
    assert_eq!(info.cmdline, "ssh git@host");
    assert_eq!(
        info.ancestry,
        vec![
            (30, "git push".to_string()),
            (20, "<unreadable>".to_string())
        ]
    );
}

#[test]
fn ancestry_is_bounded() {
    let table: Vec<(i32, Option<i32>, Option<&str>)> =
        (2..20).map(|p| (p, Some(p - 1), Some("x"))).collect();
    let info = walk_table(&table, 19);
    assert_eq!(info.ancestry.len(), MAX_ANCESTRY_DEPTH);
    let pids: Vec<i32> = info.ancestry.iter().map(|a| a.0).collect();
    assert_eq!(pids, vec![18, 17, 16, 15, 14]);
}

#[test]
fn unreadable_client() {
    let info = walk_table(&[], 77);
    assert_eq!(info.cmdline, "<unreadable>");
    assert!(info.ancestry.is_empty());
    assert_eq!(info.to_string(), "pid=77(<unreadable>) uid=1000");
}

#[test]
fn displayed_peer() {
    let table = [
        (40, Some(30), Some("ssh git@host")),
        (30, Some(20), Some("git push")),
        (20, None, Some("bash")),
    ];
    assert_eq!(
        walk_table(&table, 40).to_string(),
        "pid=40(ssh git@host) uid=1000 \u{2190} 30(git push) \u{2190} 20(bash)"
    );
}

#[test]
fn displayed_command_lines_are_cut_short() {
    let long = "x".repeat(CMDLINE_DISPLAY_MAX + 1);
    let info = PeerInfo::new(-5, u32::MAX, 0, Some(long));
    assert_eq!(
        info.to_string(),
        format!("pid=-5({}\u{2026}) uid=4294967295", "x".repeat(79))
    );
}

#[test]
fn proc_file_names() {
    assert_eq!(proc_file(1234, "cmdline"), "/proc/1234/cmdline");
    assert_eq!(proc_file(1, "status"), "/proc/1/status");
}

#[test]
fn cmdline_of_arguments() {
    assert_eq!(
        cmdline_from_raw(b"ssh\0-T\0git@github.com\0"),
        Some("ssh -T git@github.com".to_string())
    );
    assert_eq!(
        cmdline_from_raw(b"no-terminator"),
        Some("no-terminator".to_string())
    );
    assert_eq!(cmdline_from_raw(b"a\0\0\0b\0"), Some("a b".to_string()));
    assert_eq!(cmdline_from_raw(b"\0\0"), Some(String::new()));
    assert_eq!(cmdline_from_raw(b""), None);
    let text = cmdline_from_raw(b"\0a\0\xf0\0b").unwrap();
    assert_eq!(text, "a \u{fffd} b");
    assert!(!text.contains('\0'));
}

#[test]
fn cmdline_that_is_not_text() {
    assert_eq!(
        cmdline_from_raw(b"a\xffb\0\xc3\xa9"),
        Some("a\u{fffd}b \u{e9}".to_string())
    );
}

#[test]
fn cmdline_falls_back_to_comm() {
    assert!(matches!(cmdline_step(None), Step::Return(None)));
    assert!(matches!(cmdline_step(Some(vec![])), Step::Perform(ReadComm)));
    match cmdline_step(Some(b"git\0push\0".to_vec())) {
        Step::Return(cmdline) => assert_eq!(cmdline, Some("git push".to_string())),
        other => panic!("{:?}", other),
    }
    match cmdline_step(Some(vec![0])) {
        Step::Return(cmdline) => assert_eq!(cmdline, Some(String::new())),
        other => panic!("{:?}", other),
    }
}

#[test]
fn comm_is_trimmed() {
    assert_eq!(comm_from_raw("kworker/0:1\n"), "kworker/0:1");
    assert_eq!(comm_from_raw("  \n"), "");
}

#[test]
fn ppid_in_a_status_file() {
    let status = "Name:\tssh\nUmask:\t0022\nPid:\t40\nPPid:\t30\nTracerPid:\t0\n";
    assert_eq!(ppid_from_status(status), Some(30));
    assert_eq!(ppid_from_status("PPid:-1"), Some(-1));
    assert_eq!(ppid_from_status("PPid:  12 \r\nx"), Some(12));
}

#[test]
fn ppid_that_is_missing_or_no_number() {
    assert_eq!(ppid_from_status(""), None);
    assert_eq!(ppid_from_status("Name:\tx\nTracerPPid:\t3\n"), None);
    assert_eq!(ppid_from_status("ppid:\t3\n"), None);
    assert_eq!(ppid_from_status("PPid:\tx\nPPid:\t3\n"), None);
    assert_eq!(ppid_from_status("PPid:\t2147483648\n"), None);
    assert_eq!(ppid_from_status("PPid"), None);
}
