use ssh_agent_mux::notify::{
    hash, hash_of_digest, id_of_digest, notify_args, notify_send_in, short_id, sign_body,
    sign_title, LocateAction, LocateEvent, NotifyBin, ID_LEN,
};
use ssh_agent_mux::step::Step;

#[test]
fn short_id_is_seven_hex_chars() {
    let id = short_id(b"hello");
    assert_eq!(id.len(), ID_LEN);
    assert!(id.chars().all(|c| c.is_ascii_hexdigit()));
}

#[test]
fn short_id_is_deterministic() {
    assert_eq!(short_id(b"abc"), short_id(b"abc"));
    assert_ne!(short_id(b"abc"), short_id(b"abd"));
}

#[test]
fn digests_of_known_data() {
    assert_eq!(
        hash(b"hello"),
        "2cf24dba5fb0a30e26e83b2ac5b9e29e1b161e5c1fa7425e73043362938b9824"
    );
    assert_eq!(
        hash(b""),
        "e3b0c44298fc1c149afbf4c8996fb92427ae41e4649b934ca495991b7852b855"
    );
    assert_eq!(short_id(b"hello"), "2cf24db");
    assert_eq!(short_id(b""), "e3b0c44");
}

#[test]
fn the_id_begins_the_hash() {
    for data in [&b"hello"[..], b"", b"abc", b"\x00\xff"] {
        assert_eq!(hash(data).len(), 64);
        assert_eq!(short_id(data), hash(data)[..7]);
    }
}

#[test]
fn hexadecimal_text() {
    assert_eq!(hash_of_digest(&[0x00, 0x0f, 0xa0, 0xff]), "000fa0ff");
    assert_eq!(hash_of_digest(&[]), "");
    assert_eq!(id_of_digest(&[0x12, 0x34, 0x56, 0x78, 0x9a]), "1234567");
    assert_eq!(id_of_digest(&[0x12, 0x34, 0x56, 0x78]), "1234567");
    assert_eq!(id_of_digest(&[0xab, 0xcd, 0xef]), "abcdef");
}

#[test]
fn notification_text() {
    assert_eq!(sign_title("2cf24db"), "ssh-agent-mux: sign [id 2cf24db]");
    assert_eq!(
        sign_body("SHA256:abc", "pid=1(ssh) uid=0"),
        "key SHA256:abc\npeer pid=1(ssh) uid=0"
    );
}

#[test]
fn notification_arguments() {
    assert_eq!(
        notify_args("title", "body"),
        vec![
            "--app-name=ssh-agent-mux",
            "--category=device",
            "--urgency=normal",
            "--expire-time=15000",
            "title",
            "body",
        ]
    );
}

#[test]
fn candidates_on_the_search_path() {
    assert_eq!(notify_send_in(b"/usr/bin"), b"/usr/bin/notify-send".to_vec());
    assert_eq!(notify_send_in(b"/usr/bin/"), b"/usr/bin/notify-send".to_vec());
    assert_eq!(notify_send_in(b""), b"notify-send".to_vec());
    assert_eq!(notify_send_in(b"/"), b"/notify-send".to_vec());
}

/// Asks for the program. Returns it, and the paths that were probed.
fn located(
    bin: &mut NotifyBin,
    dirs: Option<Vec<Vec<u8>>>,
    files: &[&[u8]],
) -> (Option<String>, Vec<Vec<u8>>) {
    let mut probed = Vec::new();
    let mut event = LocateEvent::Asked;
    loop {
        event = match bin.locate(event) {
            Step::Return(program) => return (program, probed),
            Step::Perform(LocateAction::ReadSearchPath) => LocateEvent::SearchPath {
                dirs: dirs.clone(),
            },
            Step::Perform(LocateAction::Probe { path }) => {
                let is_file = files.contains(&path.as_slice());
                probed.push(path);
                LocateEvent::Probed { is_file }
            }
        };
    }
}

#[test]
fn the_first_file_is_located() {
    let dirs = vec![b"/a".to_vec(), b"/b\xff".to_vec(), b"/c".to_vec()];
    let files: [&[u8]; 2] = [b"/b\xff/notify-send", b"/c/notify-send"];
    let (program, probed) = located(&mut NotifyBin::new(), Some(dirs.clone()), &files);
    assert_eq!(program, Some("/b\u{fffd}/notify-send".to_string()));
    assert_eq!(
        probed,
        vec![b"/a/notify-send".to_vec(), b"/b\xff/notify-send".to_vec()]
    );
    let (program, probed) = located(&mut NotifyBin::new(), Some(dirs), &[b"/a"]);
    assert_eq!(program, None);
    assert_eq!(probed.len(), 3);
    assert_eq!(
        located(&mut NotifyBin::new(), Some(vec![]), &files),
        (None, vec![])
    );
    assert_eq!(located(&mut NotifyBin::new(), None, &files), (None, vec![]));
}

#[test]
fn the_program_is_looked_for_once() {
    let dirs = Some(vec![b"/a".to_vec()]);
    let file: &[u8] = b"/a/notify-send";
    let mut found = NotifyBin::new();
    let program = Some("/a/notify-send".to_string());
    assert_eq!(located(&mut found, dirs.clone(), &[file]).0, program);
    assert_eq!(located(&mut found, None, &[]), (program, vec![]));
    let mut missing = NotifyBin::new();
    assert_eq!(located(&mut missing, dirs.clone(), &[]).0, None);
    assert_eq!(located(&mut missing, dirs, &[file]), (None, vec![]));
}
