use kaleidoscope_focus::backup::{fallback_keys, lookup_command, restore_plan};
use kaleidoscope_focus::{cleanup_reply, BackupData, BackupRun};

#[test]
fn backup_drops_empty_reply_keys() {
    let listing = cleanup_reply("keymap.custom\nled.brightness\n".to_string());
    let mut run = BackupRun::begin(&listing);
    assert_eq!(run.next_command().unwrap(), "keymap.custom");
    run.record(cleanup_reply("0 1 2\n".to_string()));
    assert_eq!(run.next_command().unwrap(), "led.brightness");
    run.record(cleanup_reply(String::new()));
    assert!(run.next_command().is_none());
    let data = run.finish();
    assert_eq!(data.restore, vec!["keymap.custom".to_string()]);
    assert_eq!(data.commands, vec![("keymap.custom".to_string(), "0 1 2".to_string())]);
}

#[test]
fn backup_empty_listing_uses_fallback() {
    let run = BackupRun::begin("");
    let keys = fallback_keys();
    assert_eq!(run.keys, keys);
    assert_eq!(keys.len(), 35);
    assert_eq!(keys[0], "autoshift.categories");
    assert_eq!(keys[9], "keymap.custom");
    assert_eq!(keys[34], "typingbreaks.rightMaxKeys");
}

#[test]
fn backup_with_fallback_proceeds_like_listed() {
    let mut run = BackupRun::begin("");
    while let Some(key) = run.next_command() {
        if key == "keymap.custom" {
            run.record("0 1 2".to_string());
        } else {
            run.record(String::new());
        }
    }
    let data = run.finish();
    assert_eq!(data.restore, vec!["keymap.custom".to_string()]);
    assert_eq!(data.commands, vec![("keymap.custom".to_string(), "0 1 2".to_string())]);
}

#[test]
fn backup_restore_round_trip() {
    let mut run = BackupRun::begin("a.one\nb.two\nc.three");
    let replies = ["1", "", "3 3"];
    let mut i = 0;
    while let Some(_key) = run.next_command() {
        run.record(replies[i].to_string());
        i += 1;
    }
    assert_eq!(i, 3);
    let data = run.finish();
    assert_eq!(data.restore, vec!["a.one".to_string(), "c.three".to_string()]);
    let plan = restore_plan(&data);
    let expected = vec![
        ("a.one".to_string(), "1".to_string()),
        ("c.three".to_string(), "3 3".to_string()),
    ];
    assert_eq!(plan, expected);
}

#[test]
fn restore_skips_keys_without_entries() {
    let data = BackupData {
        restore: vec!["a".to_string(), "b".to_string(), "c".to_string()],
        commands: vec![("c".to_string(), "3".to_string()), ("a".to_string(), "1".to_string())],
    };
    let plan = restore_plan(&data);
    let expected = vec![("a".to_string(), "1".to_string()), ("c".to_string(), "3".to_string())];
    assert_eq!(plan, expected);
}

#[test]
fn commands_absent_from_restore_never_replayed() {
    let data = BackupData {
        restore: vec![],
        commands: vec![("a".to_string(), "1".to_string())],
    };
    assert!(restore_plan(&data).is_empty());
}

#[test]
fn lookup_returns_first_match() {
    let commands = vec![
        ("k".to_string(), "v1".to_string()),
        ("k".to_string(), "v2".to_string()),
    ];
    assert_eq!(lookup_command(&commands, &"k".to_string()).unwrap(), "v1");
    assert!(lookup_command(&commands, &"missing".to_string()).is_none());
}
