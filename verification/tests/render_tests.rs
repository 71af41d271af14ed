use tael::render::render;
use tael::Inbox;
use tael::InboxItem;
use tael::Status;

/// Helper to create an item with the conventional attributes.
fn make_item(msg: &str, pane: u32, proj: &str, branch: Option<&str>, status: Status) -> InboxItem {
    let mut attrs = vec![
        ("msg".to_string(), msg.to_string()),
        ("pane".to_string(), pane.to_string()),
        ("proj".to_string(), proj.to_string()),
    ];
    if let Some(b) = branch {
        attrs.push(("branch".to_string(), b.to_string()));
    }
    InboxItem::new(attrs, status)
}

#[test]
fn render_empty() {
    let inbox = Inbox::new();
    assert_eq!(render(&inbox), "");
}

#[test]
fn render_flat_attrs() {
    let attrs = vec![
        ("msg".to_string(), "hello".to_string()),
        ("pane".to_string(), "42".to_string()),
        ("proj".to_string(), "tael".to_string()),
    ];
    let inbox = Inbox {
        items: vec![InboxItem::new(attrs, Status::Waiting)],
    };

    let output = render(&inbox);
    assert!(output.contains("## Waiting for Input"));
    assert!(output.contains("- [ ] hello"));
    assert!(output.contains("[pane:: 42]"));
    assert!(output.contains("[proj:: tael]"));
    // Should NOT have ### headers
    assert!(!output.contains("###"));
}

#[test]
fn render_single_item() {
    let inbox = Inbox {
        items: vec![make_item(
            "agent: Auth question",
            42,
            "crucible",
            None,
            Status::Waiting,
        )],
    };

    let output = render(&inbox);
    assert!(output.contains("## Waiting for Input"));
    assert!(output.contains("- [ ] agent: Auth question"));
    assert!(output.contains("[pane:: 42]"));
    assert!(output.contains("[proj:: crucible]"));
    // Should NOT have ### headers
    assert!(!output.contains("###"));
}

#[test]
fn render_with_branch() {
    let inbox = Inbox {
        items: vec![make_item(
            "Feature work",
            42,
            "crucible",
            Some("feat/inbox"),
            Status::Waiting,
        )],
    };

    let output = render(&inbox);
    assert!(output.contains("[proj:: crucible]"));
    assert!(output.contains("[branch:: feat/inbox]"));
    // Should NOT have ### headers with project (branch) format
    assert!(!output.contains("###"));
    assert!(!output.contains("crucible (feat/inbox)"));
}

#[test]
fn render_roundtrip() {
    let inbox = Inbox {
        items: vec![
            make_item(
                "agent: Auth question",
                42,
                "crucible",
                None,
                Status::Waiting,
            ),
            make_item("indexer: Processing", 5, "crucible", None, Status::Working),
        ],
    };

    let markdown = render(&inbox);
    let parsed = tael::parse::parse(&markdown);

    assert_eq!(parsed.items.len(), inbox.items.len());
    for (orig, parsed) in inbox.items.iter().zip(parsed.items.iter()) {
        assert_eq!(orig.pane_id(), parsed.pane_id());
        assert_eq!(orig.msg(), parsed.msg());
        assert_eq!(orig.status, parsed.status);
    }
}

#[test]
fn render_attr_ordering() {
    // Attrs render in a fixed order: pane, proj, branch, then alphabetically
    let attrs = vec![
        ("msg".to_string(), "test message".to_string()),
        ("pane".to_string(), "1".to_string()),
        ("proj".to_string(), "myproj".to_string()),
        ("branch".to_string(), "main".to_string()),
        ("agent".to_string(), "helper".to_string()),
        ("zebra".to_string(), "last".to_string()),
    ];
    let inbox = Inbox {
        items: vec![InboxItem::new(attrs, Status::Waiting)],
    };

    let output = render(&inbox);
    // Verify priority order: pane before proj before branch
    let pane_pos = output.find("[pane::").unwrap();
    let proj_pos = output.find("[proj::").unwrap();
    let branch_pos = output.find("[branch::").unwrap();
    assert!(pane_pos < proj_pos);
    assert!(proj_pos < branch_pos);

    // Verify remaining attrs come after priority keys and are alphabetical
    let agent_pos = output.find("[agent::").unwrap();
    let zebra_pos = output.find("[zebra::").unwrap();
    assert!(branch_pos < agent_pos);
    assert!(agent_pos < zebra_pos);
}

#[test]
fn render_multiple_statuses() {
    let inbox = Inbox {
        items: vec![
            make_item("waiting task", 1, "proj1", None, Status::Waiting),
            make_item("working task", 2, "proj2", None, Status::Working),
        ],
    };

    let output = render(&inbox);
    assert!(output.contains("## Waiting for Input"));
    assert!(output.contains("## Background"));
    // Verify sections appear in order (Waiting before Working based on sort)
    let waiting_pos = output.find("## Waiting for Input").unwrap();
    let working_pos = output.find("## Background").unwrap();
    assert!(waiting_pos < working_pos);
}

#[test]
fn render_exact_document() {
    let inbox = Inbox {
        items: vec![InboxItem::new(
            vec![
                ("msg".to_string(), "hello".to_string()),
                ("pane".to_string(), "42".to_string()),
                ("proj".to_string(), "tael".to_string()),
            ],
            Status::Waiting,
        )],
    };
    assert_eq!(
        render(&inbox),
        "## Waiting for Input\n\n- [ ] hello [pane:: 42] [proj:: tael]\n"
    );
}

#[test]
fn render_header_only_at_status_change() {
    let inbox = Inbox {
        items: vec![
            make_item("a", 1, "p", None, Status::Waiting),
            make_item("b", 2, "q", None, Status::Waiting),
        ],
    };
    let output = render(&inbox);
    assert_eq!(output.matches("## Waiting for Input").count(), 1);
}

#[test]
fn roundtrip_preserves_extra_attrs() {
    let inbox = Inbox {
        items: vec![InboxItem::new(
            vec![
                ("msg".to_string(), "Fix [bug] in parser".to_string()),
                ("pane".to_string(), "9".to_string()),
                ("type".to_string(), "notification".to_string()),
            ],
            Status::Working,
        )],
    };
    let parsed = tael::parse::parse(&render(&inbox));
    assert_eq!(parsed.items.len(), 1);
    assert_eq!(parsed.items[0].msg(), "Fix [bug] in parser");
    assert_eq!(parsed.items[0].get("type"), Some("notification"));
    assert_eq!(parsed.items[0].get("pane"), Some("9"));
    assert_eq!(parsed.items[0].status, Status::Working);
}
