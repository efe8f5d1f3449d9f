use std::path::Path;

use ssh_agent_mux::paths::plain_path;

fn plain(path: &str) -> String {
    String::from_utf8(plain_path(path.as_bytes())).unwrap()
}

#[test]
fn plain_spellings() {
    assert_eq!(plain("/run/user/agent.sock"), "/run/user/agent.sock");
    assert_eq!(plain("//run/./user///agent.sock/"), "/run/user/agent.sock");
    assert_eq!(plain("run/."), "run");
    assert_eq!(plain("./run"), "./run");
    assert_eq!(plain("././run"), "./run");
    assert_eq!(plain("/./run/../x"), "/run/../x");
    assert_eq!(plain("/"), "/");
    assert_eq!(plain("//."), "/");
    assert_eq!(plain("."), ".");
    assert_eq!(plain(""), "");
    assert_eq!(plain_path(b"/\xff//a"), b"/\xff/a".to_vec());
}

#[test]
fn plain_spellings_tell_paths_apart_as_std_does() {
    let mut paths = vec![String::new()];
    let mut longest = paths.clone();
    for _ in 0..5 {
        longest = longest
            .iter()
            .flat_map(|p| ["/", ".", "a"].map(|c| format!("{}{}", p, c)))
            .collect();
        paths.extend(longest.iter().cloned());
    }
    for a in &paths {
        assert_eq!(plain(&plain(a)), plain(a));
        for b in &paths {
            assert_eq!(
                plain(a) == plain(b),
                Path::new(a) == Path::new(b),
                "{} {}",
                a,
                b
            );
        }
    }
}
