//! The local action cache.
use buck_remote::action_cache::{
    cached_paths, output_data, record_in_local_action_cache, upload, CommandExecutionResult,
};
use buck_remote::cache_check::{
    read_lookup, Action, Check, Declaration, Entry, Event, Extraction, Lookup, Output, Read, Reason,
};
use buck_remote::cache_table::{LocalActionCacheSqliteTable, TableError};
use rusqlite::Connection;

#[test]
fn test_local_action_cache_table() {
    let conn = Connection::open_in_memory().unwrap();
    let mut table = LocalActionCacheSqliteTable::new(conn);
    table.create_table().unwrap();

    // Lookup on empty table
    assert!(table.lookup("digest1").unwrap().is_none());

    // Insert and lookup
    table.insert("digest1", "output_data_1").unwrap();
    assert_eq!(table.lookup("digest1").unwrap(), Some("output_data_1".to_owned()));

    // Replace existing entry
    table.insert("digest1", "output_data_2").unwrap();
    assert_eq!(table.lookup("digest1").unwrap(), Some("output_data_2".to_owned()));

    // Multiple entries
    table.insert("digest2", "output_data_3").unwrap();
    assert_eq!(table.lookup("digest1").unwrap(), Some("output_data_2".to_owned()));
    assert_eq!(table.lookup("digest2").unwrap(), Some("output_data_3".to_owned()));
}

fn new_table() -> LocalActionCacheSqliteTable {
    let mut table = LocalActionCacheSqliteTable::in_memory().unwrap();
    table.create_table().unwrap();
    table
}

#[test]
fn statements_without_a_table_fail() {
    let mut table = LocalActionCacheSqliteTable::in_memory().unwrap();
    let error = table.lookup("d").unwrap_err();
    assert!(matches!(error, TableError::Lookup(_)));
    assert_eq!(error.context(), None);
    let error = table.insert("d", "x").unwrap_err();
    assert!(matches!(error, TableError::Insert { .. }));
    assert_eq!(
        error.context().unwrap(),
        "inserting `d` into sqlite table local_action_cache"
    );
}

#[test]
fn table_is_created_once() {
    let mut table = new_table();
    table.insert("d", "x").unwrap();
    let error = table.create_table().unwrap_err();
    assert!(matches!(error, TableError::Create(_)));
    assert_eq!(error.context().unwrap(), "creating sqlite table local_action_cache");
    assert_eq!(table.lookup("d").unwrap().unwrap(), "x");
}

#[test]
fn digests_are_compared_exactly() {
    let mut table = new_table();
    table.insert("Abc", "upper").unwrap();
    table.insert("abc", "lower").unwrap();
    table.insert("", "").unwrap();
    table.insert("zero", "a\0b\nü").unwrap();
    assert_eq!(table.lookup("Abc").unwrap().unwrap(), "upper");
    assert_eq!(table.lookup("abc").unwrap().unwrap(), "lower");
    assert_eq!(table.lookup("").unwrap().unwrap(), "");
    assert_eq!(table.lookup("zero").unwrap().unwrap(), "a\0b\nü");
    assert_eq!(table.lookup("abc ").unwrap(), None);
}

#[test]
fn same_insertion_twice_changes_nothing() {
    let mut table = new_table();
    table.insert("d", "x\n").unwrap();
    table.insert("e", "y").unwrap();
    table.insert("d", "x\n").unwrap();
    assert_eq!(table.lookup("d").unwrap().unwrap(), "x\n");
    assert_eq!(table.lookup("e").unwrap().unwrap(), "y");
    let count: i64 = table
        .connection()
        .query_row("SELECT COUNT(*) FROM local_action_cache", [], |row| row.get(0))
        .unwrap();
    assert_eq!(count, 2);
}

#[test]
fn connection_is_the_one_handed_in() {
    let conn = Connection::open_in_memory().unwrap();
    conn.execute("CREATE TABLE other (x INTEGER)", []).unwrap();
    conn.execute("INSERT INTO other VALUES (42)", []).unwrap();
    let mut table = LocalActionCacheSqliteTable::new(conn);
    table.create_table().unwrap();
    let x: i64 =
        table.connection().query_row("SELECT x FROM other", [], |row| row.get(0)).unwrap();
    assert_eq!(x, 42);
    // What is done through the connection is done to the table's database.
    table
        .connection()
        .execute("INSERT INTO local_action_cache VALUES ('d', 'x')", [])
        .unwrap();
    assert_eq!(table.lookup("d").unwrap().unwrap(), "x");
}

#[test]
fn connection_is_shared() {
    let mut table = new_table();
    table.insert("d", "x").unwrap();
    let count: i64 = table
        .connection()
        .query_row("SELECT COUNT(*) FROM local_action_cache", [], |row| row.get(0))
        .unwrap();
    assert_eq!(count, 1);
}

fn result(local: bool, success: bool, paths: &[Option<&str>]) -> CommandExecutionResult {
    CommandExecutionResult {
        was_locally_executed: local,
        was_success: success,
        output_paths: paths.iter().map(|p| p.map(|p| p.to_owned())).collect(),
    }
}

#[test]
fn resolved_paths_are_joined_by_lines() {
    let data = |paths: &[Option<&str>]| output_data(&result(true, true, paths).output_paths);
    assert_eq!(data(&[]), "");
    assert_eq!(data(&[None]), "");
    assert_eq!(data(&[Some("a")]), "a");
    assert_eq!(data(&[None, Some("a/b"), None, Some("c"), None]), "a/b\nc");
    assert_eq!(data(&[Some(""), Some("")]), "\n");
}

#[test]
fn lines_are_read_back() {
    assert_eq!(cached_paths(""), Vec::<String>::new());
    for text in ["\n", "a", "a\n", "a\nb", "a\r\nb\r\n", "a\r", "\n\n", "ä\nö\n\nü", "\r\n", "\r"] {
        assert_eq!(cached_paths(text), text.lines().collect::<Vec<_>>());
    }
    let paths = result(true, true, &[Some("buck-out/a"), Some("buck-out/ü")]).output_paths;
    assert_eq!(cached_paths(&output_data(&paths)), vec!["buck-out/a", "buck-out/ü"]);
}

#[test]
fn only_local_successes_are_recorded() {
    let mut table = new_table();
    for (digest, local, success) in
        [("remote", false, true), ("failed", true, false), ("neither", false, false)]
    {
        record_in_local_action_cache(&mut table, digest, &result(local, success, &[Some("a")]))
            .unwrap();
        assert_eq!(table.lookup(digest).unwrap(), None);
    }
    table.insert("local", "earlier").unwrap();
    record_in_local_action_cache(&mut table, "local", &result(true, false, &[Some("x")])).unwrap();
    assert_eq!(table.lookup("local").unwrap().unwrap(), "earlier");
    let success = result(true, true, &[Some("a"), None, Some("b")]);
    record_in_local_action_cache(&mut table, "local", &success).unwrap();
    assert_eq!(table.lookup("local").unwrap().unwrap(), "a\nb");
    record_in_local_action_cache(&mut table, "none", &result(true, true, &[])).unwrap();
    assert_eq!(table.lookup("none").unwrap().unwrap(), "");
}

#[test]
fn errors_of_a_record_are_told() {
    let mut table = LocalActionCacheSqliteTable::in_memory().unwrap();
    let local = result(true, true, &[Some("a")]);
    assert!(record_in_local_action_cache(&mut table, "d", &local).is_err());
    match upload(&mut table, "d", &local).1.unwrap_err() {
        TableError::Insert { action_digest, .. } => assert_eq!(action_digest, "d"),
        other => panic!("expected Insert, got {:?}", other),
    }
    let remote = result(false, true, &[Some("a")]);
    assert!(record_in_local_action_cache(&mut table, "d", &remote).is_ok());
}

#[test]
fn only_successes_are_uploaded() {
    let mut table = new_table();
    for (digest, local, success) in
        [("both", true, true), ("failed", true, false), ("remote", false, true)]
    {
        let (uploaded, recorded) =
            upload(&mut table, digest, &result(local, success, &[Some("out")]));
        assert!(recorded.is_ok());
        assert!(!uploaded.did_cache_upload);
        assert!(!uploaded.did_dep_file_cache_upload);
        assert!(uploaded.dep_file_cache_upload_key.is_none());
    }
    assert_eq!(table.lookup("both").unwrap().unwrap(), "out");
    assert_eq!(table.lookup("failed").unwrap(), None);
    assert_eq!(table.lookup("remote").unwrap(), None);
}

#[test]
fn lookups_are_told_apart() {
    let mut table = LocalActionCacheSqliteTable::in_memory().unwrap();
    assert_eq!(read_lookup(&table.lookup("d")), Lookup::Failed);
    table.create_table().unwrap();
    assert_eq!(read_lookup(&table.lookup("d")), Lookup::NotCached);
    upload(&mut table, "d", &result(true, true, &[])).1.unwrap();
    assert_eq!(read_lookup(&table.lookup("d")), Lookup::NoPaths);
    upload(&mut table, "d", &result(true, true, &[Some("a")])).1.unwrap();
    assert_eq!(read_lookup(&table.lookup("d")), Lookup::Paths);
}

fn output(key: u64, is_build_artifact: bool) -> Output {
    Output { key, is_build_artifact, resolves: true }
}

/// Runs a check with the events given, and returns what is then to be done.
fn run(outputs: Vec<Output>, events: &[Event]) -> Action {
    let mut check = Check::new(outputs);
    for event in events {
        check.on_event(*event);
    }
    check.action()
}

const FOUND: Event = Event::Lookup(Lookup::Paths);
const PREPARED: Event = Event::Inputs { is_ok: true };
const PRESENT: Event = Event::Read(Read::Present);
const VALUE: Event = Event::Extracted(Extraction::Value);
const MATCH: Event = Event::Declared(Declaration::Match);

#[test]
fn check_goes_through_all_outputs() {
    let outputs = || vec![output(1, true), output(2, false)];
    assert!(matches!(run(outputs(), &[]), Action::LookUp));
    assert!(matches!(run(outputs(), &[FOUND]), Action::PrepareInputs));
    assert!(matches!(run(outputs(), &[FOUND, PREPARED]), Action::ReadOutput(0)));
    assert!(matches!(run(outputs(), &[FOUND, PREPARED, PRESENT]), Action::ReadOutput(1)));
    let read = [FOUND, PREPARED, PRESENT, PRESENT];
    assert!(matches!(run(outputs(), &read), Action::ExtractValue(0)));
    let extracted = [FOUND, PREPARED, PRESENT, PRESENT, VALUE, VALUE];
    match run(outputs(), &extracted) {
        Action::DeclareMatch(entries) => {
            assert_eq!(entries, vec![Entry { output: 0, value: 0 }]);
        }
        other => panic!("expected DeclareMatch, got {:?}", other),
    }
    let all = [FOUND, PREPARED, PRESENT, PRESENT, VALUE, VALUE, MATCH];
    match run(outputs(), &all) {
        Action::Reuse(entries) => {
            assert_eq!(
                entries,
                vec![Entry { output: 0, value: 0 }, Entry { output: 1, value: 1 }]
            );
        }
        other => panic!("expected Reuse, got {:?}", other),
    }
}

#[test]
fn anything_missing_means_execution() {
    let outputs = || vec![output(1, true)];
    let cases: Vec<(Vec<Event>, Reason)> = vec![
        (vec![Event::Lookup(Lookup::Failed)], Reason::LookupFailed),
        (vec![Event::Lookup(Lookup::NotCached)], Reason::NotCached),
        (vec![Event::Lookup(Lookup::NoPaths)], Reason::NoPaths),
        (vec![FOUND, Event::Inputs { is_ok: false }], Reason::InputsFailed),
        (vec![FOUND, PREPARED, Event::Read(Read::Failed)], Reason::ReadFailed),
        (vec![FOUND, PREPARED, Event::Read(Read::Missing)], Reason::OutputMissing),
        (
            vec![FOUND, PREPARED, PRESENT, Event::Extracted(Extraction::Failed)],
            Reason::ExtractFailed,
        ),
        (
            vec![FOUND, PREPARED, PRESENT, VALUE, Event::Declared(Declaration::NotMatch)],
            Reason::OutputsChanged,
        ),
        (
            vec![FOUND, PREPARED, PRESENT, VALUE, Event::Declared(Declaration::Failed)],
            Reason::DeclareFailed,
        ),
    ];
    for (events, expected) in cases {
        match run(outputs(), &events) {
            Action::Execute(reason) => assert_eq!(reason, expected),
            other => panic!("expected Execute, got {:?}", other),
        }
        // What is over stays as it is.
        let mut more = events.clone();
        more.extend([FOUND, PREPARED, PRESENT, VALUE, MATCH]);
        assert!(matches!(run(outputs(), &more), Action::Execute(reason) if reason == expected));
    }
}

#[test]
fn unresolved_outputs_are_not_read() {
    let outputs = vec![output(1, true), Output { key: 2, is_build_artifact: true, resolves: false }];
    assert!(matches!(
        run(outputs, &[FOUND, PREPARED, PRESENT]),
        Action::Execute(Reason::Unresolved)
    ));
}

#[test]
fn outputs_without_value_are_left_out() {
    let outputs = vec![output(1, true), output(2, true)];
    let events =
        [FOUND, PREPARED, PRESENT, PRESENT, Event::Extracted(Extraction::Nothing), VALUE, MATCH];
    match run(outputs, &events) {
        Action::Reuse(entries) => assert_eq!(entries, vec![Entry { output: 1, value: 1 }]),
        other => panic!("expected Reuse, got {:?}", other),
    }
}

#[test]
fn equal_outputs_are_kept_once() {
    let outputs = vec![output(7, true), output(8, true), output(7, true)];
    let events = [FOUND, PREPARED, PRESENT, PRESENT, PRESENT, VALUE, VALUE, VALUE, MATCH];
    match run(outputs, &events) {
        Action::Reuse(entries) => assert_eq!(
            entries,
            vec![Entry { output: 0, value: 2 }, Entry { output: 1, value: 1 }]
        ),
        other => panic!("expected Reuse, got {:?}", other),
    }
}

#[test]
fn action_without_outputs_declares_nothing() {
    match run(vec![], &[FOUND, PREPARED]) {
        Action::DeclareMatch(entries) => assert!(entries.is_empty()),
        other => panic!("expected DeclareMatch, got {:?}", other),
    }
    assert!(matches!(run(vec![], &[FOUND, PREPARED, MATCH]), Action::Reuse(_)));
}
