use agent_replay::sessions::{latest, order_newest_first, SessionFile, SessionsError};
use std::path::PathBuf;

fn file(id: &str, modified: i128) -> SessionFile {
    SessionFile {
        path: PathBuf::from(format!("/p/{id}.jsonl")),
        session_id: id.into(),
        project: "p".into(),
        modified,
        size: 1,
    }
}

#[test]
fn newest_first_is_a_stable_descending_order() {
    let files = vec![file("a", 5), file("b", 9), file("c", 5), file("d", -3), file("e", 9)];
    let ids: Vec<String> = order_newest_first(files).into_iter().map(|f| f.session_id).collect();
    assert_eq!(ids, vec!["b", "e", "a", "c", "d"]);
}

#[test]
fn latest_is_the_first_listed() {
    let l = latest(order_newest_first(vec![file("a", 1), file("b", 2)])).unwrap();
    assert_eq!(l.session_id, "b");
    assert_eq!(l.path, PathBuf::from("/p/b.jsonl"));
    let e = latest(vec![]).err().unwrap();
    assert_eq!(e, SessionsError::NoSessions);
    assert_eq!(e.message(), "no sessions found under the projects directory");
}
