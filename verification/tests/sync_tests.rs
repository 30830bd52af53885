use ru_cidr_sync::mikrotik::{
    MikrotikManager, SyncAction, SyncEvent, SyncState, Synchronizer,
};
use ru_cidr_sync::user_config::UserConfig;
use ru_cidr_sync::ripe::RipeClient;

fn manager() -> MikrotikManager {
    MikrotikManager::new(
        "192.0.2.1".to_string(),
        "admin".to_string(),
        "RU".to_string(),
    )
}

fn blocks(n: usize) -> Vec<String> {
    (0..n)
        .map(|i| format!("10.{}.{}.0/24", i / 256, i % 256))
        .collect()
}

fn directive_count(script: &str) -> usize {
    script.matches('\n').count()
}

#[test]
fn clear_command_has_the_exact_directive() {
    let run = manager().update_address_list(&blocks(3));
    match run.next_action() {
        Some(SyncAction::RunClear(cmd)) => {
            assert_eq!(cmd, "/ip firewall address-list remove [find list=\"RU\"]\n");
        }
        other => panic!("expected the clear command, got {:?}", other),
    }
}

#[test]
fn add_script_has_one_directive_per_block() {
    let m = manager();
    let script = m.build_add_commands(&["1.2.3.0/24".to_string(), "4.5.6.0/24".to_string()]);
    let expected = format!(
        "{}{}",
        "/ip firewall address-list add list=\"RU\" address=\"1.2.3.0/24\" comment=\"Auto-generated from RIPE\"\n",
        "/ip firewall address-list add list=\"RU\" address=\"4.5.6.0/24\" comment=\"Auto-generated from RIPE\"\n",
    );
    assert_eq!(script, expected);
}

#[test]
fn twelve_hundred_blocks_make_three_batches_with_two_pauses() {
    let mut run = manager().update_address_list(&blocks(1200));
    // the clear command comes first
    match run.next_action() {
        Some(SyncAction::RunClear(_)) => {}
        other => panic!("expected clear first, got {:?}", other),
    }
    run.handle(SyncEvent::Succeeded);
    let mut batch_sizes: Vec<usize> = Vec::new();
    let mut pauses: usize = 0;
    loop {
        match run.next_action() {
            Some(SyncAction::RunBatch(script)) => {
                batch_sizes.push(directive_count(&script));
                run.handle(SyncEvent::Succeeded);
            }
            Some(SyncAction::Wait(secs)) => {
                assert_eq!(secs, 30);
                pauses += 1;
                run.handle(SyncEvent::Waited);
            }
            Some(SyncAction::RunClear(_)) => panic!("clear must not be issued twice"),
            None => break,
        }
    }
    assert_eq!(batch_sizes, vec![500, 500, 200]);
    assert_eq!(pauses, 2);
    assert_eq!(run.state(), SyncState::Completed);
    assert_eq!(run.applied_count(), 1200);
}

#[test]
fn failed_clear_issues_no_batches() {
    let mut run = manager().update_address_list(&blocks(1200));
    match run.next_action() {
        Some(SyncAction::RunClear(_)) => {}
        other => panic!("expected clear first, got {:?}", other),
    }
    run.handle(SyncEvent::Failed);
    assert_eq!(run.state(), SyncState::Failed);
    assert_eq!(run.applied_count(), 0);
    assert!(run.next_action().is_none());
}

#[test]
fn failed_second_batch_keeps_first_batch_and_stops() {
    let mut run = manager().update_address_list(&blocks(1200));
    run.handle(SyncEvent::Succeeded); // clear applied
    match run.next_action() {
        Some(SyncAction::RunBatch(script)) => assert_eq!(directive_count(&script), 500),
        other => panic!("expected the first batch, got {:?}", other),
    }
    run.handle(SyncEvent::Succeeded); // batch 1 applied
    match run.next_action() {
        Some(SyncAction::Wait(_)) => run.handle(SyncEvent::Waited),
        other => panic!("expected the pause, got {:?}", other),
    }
    match run.next_action() {
        Some(SyncAction::RunBatch(_)) => {}
        other => panic!("expected the second batch, got {:?}", other),
    }
    run.handle(SyncEvent::Failed); // batch 2 fails
    assert_eq!(run.state(), SyncState::Failed);
    assert_eq!(run.applied_count(), 500);
    assert!(run.next_action().is_none(), "no third batch is attempted");
}

#[test]
fn empty_block_list_completes_after_the_clear() {
    let mut run = manager().update_address_list(&Vec::new());
    match run.next_action() {
        Some(SyncAction::RunClear(_)) => {}
        other => panic!("expected clear first, got {:?}", other),
    }
    run.handle(SyncEvent::Succeeded);
    assert_eq!(run.state(), SyncState::Completed);
    assert_eq!(run.applied_count(), 0);
    assert!(run.next_action().is_none());
}

#[test]
fn small_batches_and_custom_pause() {
    let cidrs = blocks(5);
    let mut run = Synchronizer::new(manager(), cidrs, 2, 7);
    run.handle(SyncEvent::Succeeded);
    let mut batch_sizes: Vec<usize> = Vec::new();
    let mut pauses: usize = 0;
    loop {
        match run.next_action() {
            Some(SyncAction::RunBatch(script)) => {
                batch_sizes.push(directive_count(&script));
                run.handle(SyncEvent::Succeeded);
            }
            Some(SyncAction::Wait(secs)) => {
                assert_eq!(secs, 7);
                pauses += 1;
                run.handle(SyncEvent::Waited);
            }
            Some(SyncAction::RunClear(_)) => panic!("clear must not be issued twice"),
            None => break,
        }
    }
    assert_eq!(batch_sizes, vec![2, 2, 1]);
    assert_eq!(pauses, 2);
    assert_eq!(run.state(), SyncState::Completed);
    assert_eq!(run.applied_count(), 5);
}

#[test]
fn batch_scripts_carry_the_blocks_in_order() {
    let cidrs = vec![
        "1.1.1.0/24".to_string(),
        "2.2.2.0/24".to_string(),
        "3.3.3.0/24".to_string(),
    ];
    let mut run = Synchronizer::new(manager(), cidrs, 2, 1);
    run.handle(SyncEvent::Succeeded);
    match run.next_action() {
        Some(SyncAction::RunBatch(script)) => {
            assert!(script.contains("address=\"1.1.1.0/24\""));
            assert!(script.contains("address=\"2.2.2.0/24\""));
            assert!(!script.contains("address=\"3.3.3.0/24\""));
        }
        other => panic!("expected the first batch, got {:?}", other),
    }
    run.handle(SyncEvent::Succeeded);
    match run.next_action() {
        Some(SyncAction::Wait(_)) => run.handle(SyncEvent::Waited),
        other => panic!("expected the pause, got {:?}", other),
    }
    match run.next_action() {
        Some(SyncAction::RunBatch(script)) => {
            assert!(script.contains("address=\"3.3.3.0/24\""));
            assert!(!script.contains("address=\"1.1.1.0/24\""));
        }
        other => panic!("expected the second batch, got {:?}", other),
    }
}

#[test]
fn empty_list_name_defaults_to_ru() {
    let c = UserConfig::from_user_input(
        "192.0.2.1".to_string(),
        "admin".to_string(),
        "".to_string(),
    );
    assert_eq!(c.list_name, "RU");
    assert_eq!(c.host, "192.0.2.1");
    assert_eq!(c.username, "admin");
}

#[test]
fn explicit_list_name_is_kept() {
    let c = UserConfig::from_user_input(
        "h".to_string(),
        "u".to_string(),
        "BLOCKLIST".to_string(),
    );
    assert_eq!(c.list_name, "BLOCKLIST");
}

#[test]
fn registry_url_names_the_country_resource_list() {
    let url = RipeClient::new().resource_list_url();
    assert_eq!(
        url,
        "https://stat.ripe.net/data/country-resource-list/data.json?resource=RU"
    );
}
