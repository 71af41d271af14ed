use tael::tui::build_list_items;
use tael::tui::get_group_value;
use tael::tui::render_list;
use tael::tui::App;
use tael::Inbox;
use tael::InboxItem;
use tael::Status;

/// Helper to create an item with the conventional attributes.
fn make_item(msg: &str, pane: u32, proj: &str, branch: Option<&str>, status: Status) -> InboxItem {
    let mut attrs = vec![
        ("msg".to_string(), msg.to_string()),
        ("pane".to_string(), pane.to_string()),
        ("proj".to_string(), proj.to_string()),
    ];
    if let Some(b) = branch {
        attrs.push(("branch".to_string(), b.to_string()));
    }
    InboxItem::new(attrs, status)
}

fn sample_inbox() -> Inbox {
    Inbox {
        items: vec![
            make_item(
                "agent: Auth question",
                42,
                "crucible",
                None,
                Status::Waiting,
            ),
            make_item(
                "agent: Review PR",
                17,
                "tael",
                Some("master"),
                Status::Waiting,
            ),
        ],
    }
}

#[test]
fn render_list_empty() {
    let inbox = Inbox::new();
    let group_by: Vec<String> = vec![];
    let output = render_list(&inbox, 80, false, &group_by);
    assert!(output.contains("(no items)"));
}

#[test]
fn render_list_flat() {
    let inbox = sample_inbox();
    let group_by: Vec<String> = vec![];
    let output = render_list(&inbox, 80, false, &group_by);
    // Flat list should contain items but not status/project headers
    assert!(output.contains("Auth question"));
    assert!(output.contains("Review PR"));
    assert!(!output.contains("Waiting for Input"));
}

#[test]
fn render_list_with_status_grouping() {
    let inbox = sample_inbox();
    let group_by = vec!["status".to_string()];
    let output = render_list(&inbox, 80, false, &group_by);
    assert!(output.contains("Waiting for Input"));
    assert!(output.contains("Auth question"));
}

#[test]
fn render_list_with_status_proj_grouping() {
    let inbox = sample_inbox();
    let group_by = vec!["status".to_string(), "proj".to_string()];
    let output = render_list(&inbox, 80, false, &group_by);
    assert!(output.contains("Waiting for Input"));
    assert!(output.contains("crucible"));
    assert!(output.contains("tael (master)"));
    assert!(output.contains("Auth question"));
}

#[test]
fn render_list_with_proj_grouping() {
    let inbox = sample_inbox();
    let group_by = vec!["proj".to_string()];
    let output = render_list(&inbox, 80, false, &group_by);
    assert!(output.contains("crucible"));
    assert!(output.contains("tael (master)"));
    assert!(output.contains("Auth question"));
    // Status header should not be present with only proj grouping
    assert!(!output.contains("Waiting for Input"));
}

#[test]
fn group_status_proj_emits_headers_in_order() {
    let inbox = sample_inbox();
    let group_by = vec!["status".to_string(), "proj".to_string()];
    let (lines, mapping) = build_list_items(&inbox, &group_by);
    assert_eq!(lines.len(), 5);
    assert!(lines[0].is_header);
    assert_eq!(lines[0].text, "Waiting for Input");
    assert!(lines[1].is_header);
    assert_eq!(lines[1].text, "  crucible");
    assert!(!lines[2].is_header);
    assert_eq!(lines[2].text, "    [ ] agent: Auth question");
    assert!(lines[3].is_header);
    assert_eq!(lines[3].text, "  tael (master)");
    assert!(!lines[4].is_header);
    assert_eq!(lines[4].text, "    [ ] agent: Review PR");
    assert_eq!(mapping, vec![2, 4]);
}

#[test]
fn group_reemits_header_on_return() {
    // returning to an earlier project value must re-emit its header
    let inbox = Inbox {
        items: vec![
            make_item("one", 1, "crucible", None, Status::Waiting),
            make_item("two", 2, "tael", None, Status::Waiting),
            make_item("three", 3, "crucible", None, Status::Waiting),
        ],
    };
    let group_by = vec!["proj".to_string()];
    let (lines, _) = build_list_items(&inbox, &group_by);
    let crucible_headers = lines
        .iter()
        .filter(|l| l.is_header && l.text == "crucible")
        .count();
    assert_eq!(crucible_headers, 2);
}

#[test]
fn group_flat_is_one_line_per_item() {
    let inbox = sample_inbox();
    let group_by: Vec<String> = vec![];
    let (lines, mapping) = build_list_items(&inbox, &group_by);
    assert_eq!(lines.len(), 2);
    assert!(lines.iter().all(|l| !l.is_header));
    assert_eq!(lines[0].text, "[ ] agent: Auth question");
    assert_eq!(lines[1].text, "[ ] agent: Review PR");
    assert_eq!(mapping, vec![0, 1]);
}

#[test]
fn render_list_truncates_to_width() {
    let inbox = Inbox {
        items: vec![make_item(
            "a very long message that will not fit",
            1,
            "p",
            None,
            Status::Waiting,
        )],
    };
    let group_by: Vec<String> = vec![];
    let output = render_list(&inbox, 14, false, &group_by);
    // prefix is 8 bytes wide, leaving 6 characters of message
    assert_eq!(output, "\u{25b6} [ ] a very\n");
}

#[test]
fn get_group_value_resolves_levels() {
    let item = make_item("m", 7, "crucible", Some("main"), Status::Working);
    assert_eq!(get_group_value(&item, "status"), "Background");
    assert_eq!(get_group_value(&item, "proj"), "crucible (main)");
    assert_eq!(get_group_value(&item, "pane"), "7");
    assert_eq!(get_group_value(&item, "missing"), "(none)");
    let bare = InboxItem::new(vec![("msg".to_string(), "x".to_string())], Status::Waiting);
    assert_eq!(get_group_value(&bare, "proj"), "(no project)");
}

#[test]
fn app_navigation_and_delete() {
    let mut app = App::new(sample_inbox(), vec![]);
    assert_eq!(app.selected_item, Some(0));
    app.next();
    assert_eq!(app.selected_item, Some(1));
    app.next();
    assert_eq!(app.selected_item, Some(1));
    app.previous();
    assert_eq!(app.selected_item, Some(0));
    assert_eq!(app.selected_pane_id(), Some(42));
    let removed = app.delete_selected();
    assert!(removed);
    assert_eq!(app.inbox.items.len(), 1);
    assert_eq!(app.selected_pane_id(), Some(17));
    let removed_again = app.delete_selected();
    assert!(removed_again);
    assert!(app.inbox.is_empty());
    assert_eq!(app.selected_item, None);
}

#[test]
fn app_reload_clamps_selection() {
    let mut app = App::new(sample_inbox(), vec![]);
    app.next();
    assert_eq!(app.selected_item, Some(1));
    let smaller = Inbox {
        items: vec![make_item("only", 9, "p", None, Status::Waiting)],
    };
    app.reload(smaller);
    assert_eq!(app.selected_item, Some(0));
    app.reload(Inbox::new());
    assert_eq!(app.selected_item, None);
}
