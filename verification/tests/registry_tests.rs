use agentlink::messages::Command;
use agentlink::tracker::{Client, ClientTracker, CommandResult};

#[test]
fn test_has_client() {
    let mut tracker = ClientTracker::new();
    assert!(!tracker.has_client("asdf"));
    tracker.add_client(
        "asdfasdf".to_owned(),
        "127.0.0.1".to_owned(),
        "Linux".to_owned(),
        0,
    );
    assert!(tracker.has_client("asdfasdf"));
}

#[test]
fn test_adding_cmds() {
    let mut tracker = ClientTracker::new();
    tracker.add_client(
        "asdfasdf".to_owned(),
        "127.0.0.1".to_owned(),
        "Linux".to_owned(),
        0,
    );
    tracker.new_command("testing".to_owned());
    let res = tracker.unfinished_cmds("asdfasdf");
    assert!(res.is_some());
    assert_eq!(res.unwrap().len(), 1);
    assert!(tracker.unfinished_cmds("asd").is_none());
}

#[test]
fn new_command_gives_every_client_one_fresh_id() {
    let mut tracker = ClientTracker::new();
    tracker.add_client("a".to_owned(), "10.0.0.1".to_owned(), "Linux".to_owned(), 0);
    tracker.add_client("b".to_owned(), "10.0.0.2".to_owned(), "Linux".to_owned(), 0);
    tracker.new_command("uptime".to_owned());
    for id in ["a", "b"] {
        let pending = tracker.unfinished_cmds(id).unwrap();
        assert_eq!(pending.len(), 1);
        assert_eq!(pending[0].input, "uptime");
        assert_eq!(pending[0].id, 0);
        assert!(pending[0].output.is_none());
    }
    tracker.new_command("whoami".to_owned());
    let pending = tracker.unfinished_cmds("a").unwrap();
    assert_eq!(pending.len(), 2);
    assert_eq!(pending[1].input, "whoami");
    assert_eq!(pending[1].id, 1);
}

#[test]
fn reporting_twice_keeps_one_completed_entry() {
    let mut tracker = ClientTracker::new();
    tracker.add_client("h".to_owned(), "10.0.0.1".to_owned(), "Linux".to_owned(), 0);
    tracker.new_command("date".to_owned());

    let mut first = Command::from_input("date".to_owned(), 0);
    first.add_output("Monday".to_owned());
    tracker.finished_commands("h", vec![first]);
    assert_eq!(tracker.unfinished_cmds("h").unwrap().len(), 0);

    let mut second = Command::from_input("date".to_owned(), 0);
    second.add_output("Tuesday".to_owned());
    tracker.finished_commands("h", vec![second]);
    // Still completed, still a single entry: a second report of the same id
    // rewrites the output, it never duplicates the command.
    assert_eq!(tracker.unfinished_cmds("h").unwrap().len(), 0);
    tracker.new_command("next".to_owned());
    let pending = tracker.unfinished_cmds("h").unwrap();
    assert_eq!(pending.len(), 1);
    assert_eq!(pending[0].id, 1);
}

#[test]
fn report_with_unknown_id_is_ignored() {
    let mut tracker = ClientTracker::new();
    tracker.add_client("h".to_owned(), "10.0.0.1".to_owned(), "Linux".to_owned(), 0);
    tracker.new_command("date".to_owned());
    let mut report = Command::from_input("date".to_owned(), 7);
    report.add_output("out".to_owned());
    tracker.finished_commands("h", vec![report]);
    assert_eq!(tracker.unfinished_cmds("h").unwrap().len(), 1);
}

#[test]
fn report_without_output_is_ignored() {
    let mut tracker = ClientTracker::new();
    tracker.add_client("h".to_owned(), "10.0.0.1".to_owned(), "Linux".to_owned(), 0);
    tracker.new_command("date".to_owned());
    let report = Command::from_input("date".to_owned(), 0);
    tracker.finished_commands("h", vec![report]);
    assert_eq!(tracker.unfinished_cmds("h").unwrap().len(), 1);
}

#[test]
fn unfinished_cmds_unknown_id_is_distinguished_from_empty() {
    let mut tracker = ClientTracker::new();
    assert!(tracker.unfinished_cmds("nobody").is_none());
    tracker.add_client("h".to_owned(), "10.0.0.1".to_owned(), "Linux".to_owned(), 0);
    let pending = tracker.unfinished_cmds("h");
    assert!(pending.is_some());
    assert_eq!(pending.unwrap().len(), 0);
}

#[test]
fn client_elapsed_counts_from_last_checkup() {
    let client = Client::new("10.0.0.1".to_owned(), "Linux".to_owned(), 100);
    assert_eq!(client.get_elapsed(250), 150);
}

#[test]
fn command_result_set_output_overwrites() {
    let mut record = CommandResult::new("ls".to_owned(), 4);
    assert!(record.output.is_none());
    assert_eq!(record.id, 4);
    record.set_output("first".to_owned());
    record.set_output("second".to_owned());
    assert_eq!(record.output.as_deref(), Some("second"));
    assert_eq!(record.input, "ls");
}
