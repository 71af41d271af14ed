use tael::Inbox;
use tael::InboxItem;
use tael::Status;

/// Helper to create an item with the conventional attributes.
fn make_item(msg: &str, pane: u32, proj: &str, status: Status) -> InboxItem {
    InboxItem::new(
        vec![
            ("msg".to_string(), msg.to_string()),
            ("pane".to_string(), pane.to_string()),
            ("proj".to_string(), proj.to_string()),
        ],
        status,
    )
}

#[test]
fn inbox_item_attrs() {
    let item = InboxItem::new(
        vec![
            ("msg".to_string(), "hello".to_string()),
            ("pane".to_string(), "42".to_string()),
            ("proj".to_string(), "tael".to_string()),
        ],
        Status::Waiting,
    );

    assert_eq!(item.get("msg"), Some("hello"));
    assert_eq!(item.get("pane"), Some("42"));
    assert_eq!(item.pane_id(), Some(42));
}

#[test]
fn status_encoding() {
    assert_eq!(Status::Waiting.to_char(), ' ');
    assert_eq!(Status::Working.to_char(), '/');
    assert_eq!(Status::from_char(' '), Some(Status::Waiting));
    assert_eq!(Status::from_char('/'), Some(Status::Working));
    assert_eq!(Status::from_char('x'), None);
    assert_eq!(Status::Waiting.section_name(), "Waiting for Input");
    assert_eq!(Status::Working.section_name(), "Background");
}

#[test]
fn item_new_last_duplicate_wins() {
    let item = InboxItem::new(
        vec![
            ("tag".to_string(), "one".to_string()),
            ("tag".to_string(), "two".to_string()),
        ],
        Status::Waiting,
    );
    assert_eq!(item.get("tag"), Some("two"));
}

#[test]
fn upsert_overwrites_matching_pane() {
    let mut inbox = Inbox::new();
    inbox.upsert(make_item("first", 42, "p", Status::Waiting));
    inbox.upsert(make_item("second", 42, "p", Status::Working));
    assert_eq!(inbox.items.len(), 1);
    assert_eq!(inbox.items[0].msg(), "second");
    assert_eq!(inbox.items[0].status, Status::Working);
}

#[test]
fn upsert_appends_new_pane() {
    let mut inbox = Inbox::new();
    inbox.upsert(make_item("a", 1, "p", Status::Waiting));
    inbox.upsert(make_item("b", 2, "p", Status::Waiting));
    assert_eq!(inbox.items.len(), 2);
}

#[test]
fn upsert_without_pane_always_appends() {
    let mut inbox = Inbox::new();
    let no_pane = InboxItem::new(
        vec![("msg".to_string(), "anon".to_string())],
        Status::Waiting,
    );
    inbox.upsert(no_pane.clone());
    inbox.upsert(no_pane.clone());
    inbox.upsert(no_pane);
    assert_eq!(inbox.items.len(), 3);
}

#[test]
fn upsert_keeps_canonical_order() {
    let mut inbox = Inbox::new();
    inbox.upsert(make_item("w2", 1, "zeta", Status::Working));
    inbox.upsert(make_item("w1", 2, "alpha", Status::Working));
    inbox.upsert(make_item("i2", 3, "mid", Status::Waiting));
    inbox.upsert(make_item("i1", 4, "aardvark", Status::Waiting));
    // all Waiting items precede all Working items
    let statuses: Vec<Status> = inbox.items.iter().map(|i| i.status).collect();
    assert_eq!(
        statuses,
        vec![
            Status::Waiting,
            Status::Waiting,
            Status::Working,
            Status::Working
        ]
    );
    // within each status group items are non-decreasing by proj
    assert_eq!(inbox.items[0].proj(), Some("aardvark"));
    assert_eq!(inbox.items[1].proj(), Some("mid"));
    assert_eq!(inbox.items[2].proj(), Some("alpha"));
    assert_eq!(inbox.items[3].proj(), Some("zeta"));
}

#[test]
fn sort_is_stable_for_equal_keys() {
    let mut inbox = Inbox::new();
    inbox.upsert(make_item("first", 1, "same", Status::Waiting));
    inbox.upsert(make_item("second", 2, "same", Status::Waiting));
    assert_eq!(inbox.items[0].msg(), "first");
    assert_eq!(inbox.items[1].msg(), "second");
}

#[test]
fn sort_ignores_branch() {
    // branch is not a sort key: same status and proj keep insertion order
    let mut inbox = Inbox::new();
    inbox.upsert(InboxItem::new(
        vec![
            ("msg".to_string(), "zz".to_string()),
            ("pane".to_string(), "1".to_string()),
            ("proj".to_string(), "same".to_string()),
            ("branch".to_string(), "zeta".to_string()),
        ],
        Status::Waiting,
    ));
    inbox.upsert(InboxItem::new(
        vec![
            ("msg".to_string(), "aa".to_string()),
            ("pane".to_string(), "2".to_string()),
            ("proj".to_string(), "same".to_string()),
            ("branch".to_string(), "alpha".to_string()),
        ],
        Status::Waiting,
    ));
    assert_eq!(inbox.items[0].msg(), "zz");
    assert_eq!(inbox.items[1].msg(), "aa");
}

#[test]
fn sort_ties_absent_with_empty_proj() {
    // an absent proj sorts as the empty string: it ties with an
    // explicitly empty proj, so insertion order is kept
    let mut inbox = Inbox::new();
    inbox.upsert(InboxItem::new(
        vec![
            ("msg".to_string(), "empty-proj".to_string()),
            ("pane".to_string(), "1".to_string()),
            ("proj".to_string(), "".to_string()),
        ],
        Status::Waiting,
    ));
    inbox.upsert(InboxItem::new(
        vec![
            ("msg".to_string(), "no-proj".to_string()),
            ("pane".to_string(), "2".to_string()),
        ],
        Status::Waiting,
    ));
    assert_eq!(inbox.items[0].msg(), "empty-proj");
    assert_eq!(inbox.items[1].msg(), "no-proj");
    // and both still precede any named project
    inbox.upsert(InboxItem::new(
        vec![
            ("msg".to_string(), "named".to_string()),
            ("pane".to_string(), "3".to_string()),
            ("proj".to_string(), "alpha".to_string()),
        ],
        Status::Waiting,
    ));
    assert_eq!(inbox.items[2].msg(), "named");
}

#[test]
fn remove_missing_pane_changes_nothing() {
    let mut inbox = Inbox::new();
    inbox.upsert(make_item("a", 1, "p", Status::Waiting));
    let removed = inbox.remove(99);
    assert!(!removed);
    assert_eq!(inbox.items.len(), 1);
}

#[test]
fn remove_deletes_every_match() {
    let mut inbox = Inbox::new();
    inbox.items.push(make_item("a", 7, "p", Status::Waiting));
    inbox.items.push(make_item("b", 8, "p", Status::Waiting));
    inbox.items.push(make_item("c", 7, "p", Status::Working));
    let removed = inbox.remove(7);
    assert!(removed);
    assert_eq!(inbox.items.len(), 1);
    assert_eq!(inbox.items[0].pane_id(), Some(8));
}

#[test]
fn parse_render_after_upserts() {
    let mut inbox = Inbox::new();
    inbox.upsert(make_item("beta task", 2, "beta", Status::Working));
    inbox.upsert(make_item("alpha task", 1, "alpha", Status::Waiting));
    let text = tael::render::render(&inbox);
    let parsed = tael::parse::parse(&text);
    assert_eq!(parsed.items.len(), 2);
    assert_eq!(parsed.items[0].msg(), "alpha task");
    assert_eq!(parsed.items[0].status, Status::Waiting);
    assert_eq!(parsed.items[1].msg(), "beta task");
    assert_eq!(parsed.items[1].status, Status::Working);
}

#[test]
fn config_defaults() {
    let config = tael::config::Config::default();
    assert!(config.focus_command.is_none());
    assert_eq!(config.checkbox_style, "brackets");
    assert!(config.colors);
}
