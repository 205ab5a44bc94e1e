use to_do::codec::Task;
use to_do::store::TaskStore;

#[test]
fn load_missing_source_is_empty() {
    let store = TaskStore::load(None);
    assert_eq!(store.len(), 0);
}

#[test]
fn load_decodes_persisted_stream() {
    let store = TaskStore::load(Some("A\n|important\n<#####%%%#####>\n"));
    assert_eq!(store.len(), 1);
    assert_eq!(store.get(0).text, "A");
    assert!(store.get(0).important);
}

#[test]
fn append_keeps_order() {
    let mut store = TaskStore::new();
    store.append(Task { text: String::from("first"), important: false });
    store.append(Task { text: String::from("second"), important: true });
    store.append(Task { text: String::from("third"), important: false });
    let tasks = store.enumerate();
    assert_eq!(tasks.len(), 3);
    assert_eq!(tasks[0].text, "first");
    assert_eq!(tasks[1].text, "second");
    assert!(tasks[1].important);
    assert_eq!(tasks[2].text, "third");
}

#[test]
fn remove_by_handle_removes_exactly_one_duplicate() {
    let mut store = TaskStore::new();
    store.append(Task { text: String::from("same"), important: true });
    store.append(Task { text: String::from("same"), important: true });
    store.remove_by_handle(0);
    assert_eq!(store.len(), 1);
    assert_eq!(store.get(0).text, "same");
    assert!(store.get(0).important);
}

#[test]
fn remove_with_stale_handle_is_noop() {
    let mut store = TaskStore::new();
    store.append(Task { text: String::from("keep"), important: false });
    store.remove_by_handle(7);
    assert_eq!(store.len(), 1);
    assert_eq!(store.get(0).text, "keep");
}

#[test]
fn append_persist_reload_preserves_order() {
    let mut store = TaskStore::new();
    store.append(Task { text: String::from("one"), important: false });
    store.append(Task { text: String::from("two\nlines"), important: true });
    store.append(Task { text: String::from("three"), important: false });
    let persisted = store.persist();
    let reloaded = TaskStore::load(Some(persisted.as_str()));
    assert_eq!(reloaded.len(), store.len());
    for i in 0..store.len() {
        assert_eq!(reloaded.get(i).text, store.get(i).text);
        assert_eq!(reloaded.get(i).important, store.get(i).important);
    }
}
