use nossh::commands::interactive::InteractiveCommand;
use nossh::ssh_command_database::SshCommandDatabase;
use nossh::ssh_config::SshConfigService;
use nossh::ssh_config::SshItem;
use nossh::user_fuzzy_find::resolve_selection;
use nossh::user_fuzzy_find::SelectionOutcome;
use nossh::Error;

fn keys_of(items: &nossh::ssh_config::SshItems) -> Vec<String> {
    items
        .to_vec()
        .iter()
        .map(|it| it.display_key())
        .collect()
}

#[test]
fn config_lines_yield_declared_hosts() {
    let svc = SshConfigService {};
    let items = svc.get_ssh_items(Some("Host prod\nHost staging\n")).expect("the file exists");
    assert_eq!(keys_of(&items), vec!["prod".to_string(), "staging".to_string()]);
    match items.get_choice("prod") {
        Some(item) => assert_eq!(item.to_host(), vec!["prod".to_string()]),
        None => panic!("prod must be in the catalog"),
    }
}

#[test]
fn config_alias_is_trimmed_but_not_split() {
    let svc = SshConfigService {};
    let items = svc.get_ssh_items(Some("Host   alpha beta  \n")).expect("the file exists");
    assert_eq!(keys_of(&items), vec!["alpha beta".to_string()]);
}

#[test]
fn config_non_matching_lines_yield_nothing() {
    let svc = SshConfigService {};
    let items = svc.get_ssh_items(Some("# Host nope\nHostX nope\n  Host indent\nhost lower\n")).expect("the file exists");
    assert_eq!(keys_of(&items).len(), 0);
}

#[test]
fn config_handles_crlf_and_final_line() {
    let svc = SshConfigService {};
    let items = svc.get_ssh_items(Some("Host a\r\nHost b")).expect("the file exists");
    assert_eq!(keys_of(&items), vec!["a".to_string(), "b".to_string()]);
}

#[test]
fn config_duplicate_aliases_collapse() {
    let svc = SshConfigService {};
    let items = svc.get_ssh_items(Some("Host a\nHost a\n")).expect("the file exists");
    assert_eq!(keys_of(&items), vec!["a".to_string()]);
}

#[test]
fn catalog_is_ordered_by_display_key() {
    let svc = SshConfigService {};
    let items = svc.get_ssh_items(Some("Host zeta\nHost alpha\nHost midway\n")).expect("the file exists");
    assert_eq!(
        keys_of(&items),
        vec!["alpha".to_string(), "midway".to_string(), "zeta".to_string()]
    );
}

#[test]
fn merge_is_last_source_wins() {
    // a declared host and a raw invocation under the same display key:
    // the later-merged (history) fragment wins
    let svc = SshConfigService {};
    let config_items = svc.get_ssh_items(Some("Host target\n")).expect("the file exists");
    let store = SshCommandDatabase {};
    let content = store
        .add_item(None, &vec!["target".to_string()])
        .expect("recording must succeed");
    let history_items = store
        .get_items(Some(content.as_str()))
        .expect("loading what was written must succeed");
    let merged = InteractiveCommand::new().build_catalog(config_items, history_items);
    match merged.get_choice("target") {
        Some(SshItem::Raw { contents }) => {
            assert_eq!(contents, &vec!["target".to_string()]);
        }
        Some(SshItem::Own(_)) => panic!("the history item must win the collision"),
        None => panic!("target must be in the catalog"),
    }
}

#[test]
fn interactive_scenario_declared_hosts() {
    // config declares prod and staging, history store is empty
    let svc = SshConfigService {};
    let config_items = svc.get_ssh_items(Some("Host prod\nHost staging\n")).expect("the file exists");
    let store = SshCommandDatabase {};
    let history_items = store.get_items(None).expect("an absent store is empty");
    let catalog = InteractiveCommand::new().build_catalog(config_items, history_items);
    assert_eq!(keys_of(&catalog), vec!["prod".to_string(), "staging".to_string()]);
    let chosen = resolve_selection(&catalog, &SelectionOutcome::Chosen("prod".to_string()))
        .expect("prod is in the catalog");
    let cmd = nossh::ssh_command::SshCommand {};
    assert_eq!(cmd.session_args(&chosen), vec!["prod".to_string()]);
}

#[test]
fn missing_config_file_is_not_found() {
    let svc = SshConfigService {};
    assert_eq!(svc.get_ssh_items(None).unwrap_err(), Error::NotFound);
}

#[test]
fn selection_abort_and_failure_are_distinguished() {
    let svc = SshConfigService {};
    let items = svc.get_ssh_items(Some("Host a\n")).expect("the file exists");
    assert_eq!(
        resolve_selection(&items, &SelectionOutcome::Aborted).unwrap_err(),
        Error::Aborted
    );
    assert_eq!(
        resolve_selection(&items, &SelectionOutcome::Failed).unwrap_err(),
        Error::SelectionFailed
    );
    assert_eq!(
        resolve_selection(&items, &SelectionOutcome::Chosen("unknown".to_string()))
            .unwrap_err(),
        Error::SelectionFailed
    );
}

#[test]
fn config_handles_unicode_aliases() {
    let svc = SshConfigService {};
    let items = svc.get_ssh_items(Some("Host héllo\nHost zürich\n")).expect("the file exists");
    assert_eq!(keys_of(&items), vec!["héllo".to_string(), "zürich".to_string()]);
}

#[test]
fn config_trims_all_whitespace_kinds() {
    let svc = SshConfigService {};
    let items = svc
        .get_ssh_items(Some("Host a\u{0C}\nHost \u{A0}b\u{A0}\t \n"))
        .expect("the file exists");
    assert_eq!(keys_of(&items), vec!["a".to_string(), "b".to_string()]);
}
