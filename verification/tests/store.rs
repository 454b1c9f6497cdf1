use nossh::ssh_command::LaunchOutcome;
use nossh::ssh_command::SshCommand;
use nossh::ssh_command_database::Database;
use nossh::ssh_command_database::SshCommandDatabase;
use nossh::ssh_config::SshItem;
use nossh::user_fuzzy_find::resolve_selection;
use nossh::user_fuzzy_find::SelectionOutcome;
use nossh::Error;

fn toks(words: &[&str]) -> Vec<String> {
    words.iter().map(|w| w.to_string()).collect()
}

#[test]
fn encode_writes_the_documented_shape() {
    let mut db = Database::new();
    db.add_raw(&toks(&["a"]));
    assert_eq!(
        db.encode(),
        "{\"entries\":{\"a\":{\"entry_type\":\"Raw\",\"contents\":[\"a\"]}}}".to_string()
    );
}

#[test]
fn empty_store_encodes_and_reloads() {
    let db = Database::new();
    let content = db.encode();
    assert_eq!(content, "{\"entries\":{}}".to_string());
    let back = Database::decode(content.as_str()).expect("own output must decode");
    assert_eq!(back.get_entries().len(), 0);
}

#[test]
fn round_trip_is_byte_identical() {
    let mut db = Database::new();
    db.add_raw(&toks(&["user@10.0.0.1", "-p", "2222"]));
    db.add_raw(&toks(&["admin@host"]));
    let first = db.encode();
    let reloaded = Database::decode(first.as_str()).expect("own output must decode");
    let second = reloaded.encode();
    assert_eq!(first, second);
}

#[test]
fn round_trip_keeps_escaped_tokens() {
    let mut db = Database::new();
    db.add_raw(&toks(&["a\"b\\c\nd", "tab\there"]));
    let content = db.encode();
    let back = Database::decode(content.as_str()).expect("own output must decode");
    let entries = back.get_entries();
    assert_eq!(entries, vec![toks(&["a\"b\\c\nd", "tab\there"])]);
    assert_eq!(back.encode(), content);
}

#[test]
fn recording_twice_keeps_one_entry() {
    let mut db = Database::new();
    db.add_raw(&toks(&["-p", "2222", "admin@host"]));
    db.add_raw(&toks(&["-p", "2222", "admin@host"]));
    assert_eq!(db.get_entries().len(), 1);
}

#[test]
fn entries_come_back_in_signature_order() {
    let mut db = Database::new();
    db.add_raw(&toks(&["zeta"]));
    db.add_raw(&toks(&["alpha"]));
    assert_eq!(db.get_entries(), vec![toks(&["alpha"]), toks(&["zeta"])]);
}

#[test]
fn successful_raw_session_is_recorded() {
    // launch_raw(["-p","2222","admin@host"]) exits 0: the store must then
    // hold the signature "-p 2222 admin@host" with that token sequence
    let cmd = SshCommand {};
    let args = toks(&["-p", "2222", "admin@host"]);
    let to_record = cmd
        .record_after_raw(&LaunchOutcome::Exited(0), &args)
        .expect("a successful session is offered to the store");
    let store = SshCommandDatabase {};
    let content = store.add_item(None, &to_record).expect("recording must succeed");
    let items = store
        .get_items(Some(content.as_str()))
        .expect("loading what was written must succeed");
    match items.get_choice("-p 2222 admin@host") {
        Some(SshItem::Raw { contents }) => assert_eq!(contents, &args),
        _ => panic!("the signature must map to the exact token sequence"),
    }
}

#[test]
fn failed_sessions_record_nothing() {
    let cmd = SshCommand {};
    let args = toks(&["admin@host"]);
    assert!(cmd.record_after_raw(&LaunchOutcome::SpawnFailed, &args).is_none());
    assert!(cmd.record_after_raw(&LaunchOutcome::Exited(255), &args).is_none());
    assert!(cmd.record_after_raw(&LaunchOutcome::Abnormal, &args).is_none());
}

#[test]
fn session_outcomes_map_to_errors() {
    let cmd = SshCommand {};
    assert_eq!(cmd.session_result(&LaunchOutcome::Exited(0)), Ok(()));
    assert_eq!(
        cmd.session_result(&LaunchOutcome::SpawnFailed),
        Err(Error::SpawnFailed)
    );
    assert_eq!(
        cmd.session_result(&LaunchOutcome::Exited(17)),
        Err(Error::ProcessError(Some(17)))
    );
    assert_eq!(
        cmd.session_result(&LaunchOutcome::Abnormal),
        Err(Error::ProcessError(None))
    );
}

#[test]
fn stored_raw_invocation_scenario() {
    // history store holds one entry under "user@10.0.0.1 -p 2222"
    let content = "{\"entries\":{\"user@10.0.0.1 -p 2222\":{\"entry_type\":\"Raw\",\
                   \"contents\":[\"user@10.0.0.1\",\"-p\",\"2222\"]}}}";
    let store = SshCommandDatabase {};
    let items = store.get_items(Some(content)).expect("the document is well-formed");
    let chosen = resolve_selection(
        &items,
        &SelectionOutcome::Chosen("user@10.0.0.1 -p 2222".to_string()),
    )
    .expect("the stored entry must be selectable");
    let cmd = SshCommand {};
    assert_eq!(
        cmd.session_args(&chosen),
        toks(&["user@10.0.0.1", "-p", "2222"])
    );
}

#[test]
fn corrupt_store_is_a_hard_failure() {
    let store = SshCommandDatabase {};
    assert_eq!(store.get_items(Some("not a store")).unwrap_err(), Error::CorruptData);
    assert_eq!(store.get_items(Some("")).unwrap_err(), Error::CorruptData);
    assert_eq!(
        store.get_items(Some("{\"entries\":")).unwrap_err(),
        Error::CorruptData
    );
    assert_eq!(
        store
            .add_item(Some("{\"entries\""), &toks(&["a"]))
            .unwrap_err(),
        Error::CorruptData
    );
}

#[test]
fn unknown_entry_tags_are_rejected() {
    let content = "{\"entries\":{\"a\":{\"entry_type\":\"Keyed\",\"contents\":[\"a\"]}}}";
    let store = SshCommandDatabase {};
    assert_eq!(store.get_items(Some(content)).unwrap_err(), Error::CorruptData);
}

#[test]
fn recording_into_an_existing_store_appends() {
    let store = SshCommandDatabase {};
    let first = store.add_item(None, &toks(&["b@h"])).expect("recording must succeed");
    let second = store
        .add_item(Some(first.as_str()), &toks(&["a@h", "-v"]))
        .expect("recording must succeed");
    let db = Database::decode(second.as_str()).expect("own output must decode");
    assert_eq!(db.get_entries(), vec![toks(&["a@h", "-v"]), toks(&["b@h"])]);
}

#[test]
fn own_documents_parse_as_plain_json() {
    let mut db = Database::new();
    db.add_raw(&toks(&["user@host", "-p", "2222"]));
    db.add_raw(&toks(&["quote\"backslash\\and\u{1}control"]));
    let content = db.encode();
    let v: serde_json::Value =
        serde_json::from_str(content.as_str()).expect("the document must be valid JSON");
    let entry = &v["entries"]["user@host -p 2222"];
    assert_eq!(entry["entry_type"].as_str(), Some("Raw"));
    assert_eq!(
        entry["contents"][0].as_str(),
        Some("user@host")
    );
    let other = &v["entries"]["quote\"backslash\\and\u{1}control"];
    assert_eq!(
        other["contents"][0].as_str(),
        Some("quote\"backslash\\and\u{1}control")
    );
}

#[test]
fn round_trip_keeps_unicode_tokens() {
    let mut db = Database::new();
    db.add_raw(&toks(&["ü@höst", "-p", "2222"]));
    let content = db.encode();
    let back = Database::decode(content.as_str()).expect("own output must decode");
    assert_eq!(back.get_entries(), vec![toks(&["ü@höst", "-p", "2222"])]);
    assert_eq!(back.encode(), content);
}

#[test]
fn pretty_printed_documents_decode() {
    let content = "{\n  \"entries\": {\n    \"a b\": {\n      \"entry_type\": \"Raw\",\n      \
                   \"contents\": [\n        \"a\",\n        \"b\"\n      ]\n    }\n  }\n}\n";
    let store = SshCommandDatabase {};
    let items = store.get_items(Some(content)).expect("pretty documents are well-formed");
    match items.get_choice("a b") {
        Some(SshItem::Raw { contents }) => assert_eq!(contents, &toks(&["a", "b"])),
        _ => panic!("the pretty-printed entry must load"),
    }
}

#[test]
fn member_order_is_insignificant() {
    let content = "{\"entries\":{\"a\":{\"contents\":[\"a\"],\"entry_type\":\"Raw\"}}}";
    let db = Database::decode(content).expect("either member order decodes");
    assert_eq!(db.get_entries(), vec![toks(&["a"])]);
}

#[test]
fn standard_string_escapes_decode() {
    let content = "{\"entries\":{\"k\":{\"entry_type\":\"Raw\",\
                   \"contents\":[\"\\t\\n\\b\\f\\r\\/\\u0041\\u000A\\u00FC\"]}}}";
    let db = Database::decode(content).expect("standard escapes decode");
    assert_eq!(
        db.get_entries(),
        vec![vec!["\t\n\u{8}\u{c}\r/A\n\u{fc}".to_string()]]
    );
}

#[test]
fn surrogate_pairs_decode_and_lone_surrogates_fail() {
    let content = "{\"entries\":{\"k\":{\"entry_type\":\"Raw\",\
                   \"contents\":[\"\\uD83D\\uDE00\"]}}}";
    let db = Database::decode(content).expect("a surrogate pair decodes");
    assert_eq!(db.get_entries(), vec![vec!["\u{1F600}".to_string()]]);

    let lone = "{\"entries\":{\"k\":{\"entry_type\":\"Raw\",\"contents\":[\"\\uD83D\"]}}}";
    assert_eq!(Database::decode(lone).unwrap_err(), Error::CorruptData);
}

#[test]
fn extra_entry_members_are_rejected() {
    let content = "{\"entries\":{\"a\":{\"entry_type\":\"Raw\",\"contents\":[],\
                   \"extra\":\"x\"}}}";
    let store = SshCommandDatabase {};
    assert_eq!(store.get_items(Some(content)).unwrap_err(), Error::CorruptData);
}

#[test]
fn serde_pretty_output_decodes() {
    // a document written the way a general JSON serializer pretty-prints it
    let mut entry = serde_json::Map::new();
    entry.insert(
        "entry_type".to_string(),
        serde_json::Value::String("Raw".to_string()),
    );
    entry.insert(
        "contents".to_string(),
        serde_json::Value::Array(vec![
            serde_json::Value::String("user@host".to_string()),
            serde_json::Value::String("-p".to_string()),
            serde_json::Value::String("2222".to_string()),
        ]),
    );
    let mut entries = serde_json::Map::new();
    entries.insert("user@host -p 2222".to_string(), serde_json::Value::Object(entry));
    let mut doc = serde_json::Map::new();
    doc.insert("entries".to_string(), serde_json::Value::Object(entries));
    let content = serde_json::to_string_pretty(&serde_json::Value::Object(doc))
        .expect("serialization cannot fail");

    let db = Database::decode(content.as_str()).expect("pretty JSON decodes");
    assert_eq!(db.get_entries(), vec![toks(&["user@host", "-p", "2222"])]);
}

#[test]
fn whitespace_between_tokens_is_insignificant() {
    let store = SshCommandDatabase {};
    let items = store
        .get_items(Some("{ \"entries\": {} }"))
        .expect("a spaced-out empty store is well-formed");
    assert_eq!(items.to_vec().len(), 0);
    let padded = "  {\"entries\":{}}\n";
    assert!(store.get_items(Some(padded)).is_ok());
}
