use tael::parse::parse;
use tael::Status;

#[test]
fn parse_empty() {
    let inbox = parse("");
    assert!(inbox.is_empty());
}

#[test]
fn parse_single_item() {
    let content = "## Waiting for Input\n\n### crucible\n- [ ] agent: Auth question [pane:: 42]\n";
    let inbox = parse(content);
    assert_eq!(inbox.items.len(), 1);
    assert_eq!(inbox.items[0].msg(), "agent: Auth question");
    assert_eq!(inbox.items[0].pane_id(), Some(42));
    assert_eq!(inbox.items[0].proj(), Some("crucible"));
    assert_eq!(inbox.items[0].status, Status::Waiting);
}

#[test]
fn parse_with_branch() {
    let content = "## Waiting for Input\n\n### crucible (feat/inbox)\n- [ ] agent: Feature work [pane:: 42]\n";
    let inbox = parse(content);
    assert_eq!(inbox.items.len(), 1);
    assert_eq!(inbox.items[0].proj(), Some("crucible"));
    assert_eq!(inbox.items[0].branch(), Some("feat/inbox"));
}

#[test]
fn parse_multiple_sections() {
    let content = "## Waiting for Input\n\n### crucible\n- [ ] agent: Auth question [pane:: 42]\n\n### k3s\n- [ ] agent: Helm review [pane:: 17]\n\n## Background\n\n### crucible\n- [/] indexer: Processing files [pane:: 5]\n";
    let inbox = parse(content);
    assert_eq!(inbox.items.len(), 3);

    assert_eq!(inbox.items[0].proj(), Some("crucible"));
    assert_eq!(inbox.items[0].status, Status::Waiting);

    assert_eq!(inbox.items[1].proj(), Some("k3s"));
    assert_eq!(inbox.items[1].status, Status::Waiting);

    assert_eq!(inbox.items[2].proj(), Some("crucible"));
    assert_eq!(inbox.items[2].status, Status::Working);
}

#[test]
fn parse_multiple_attrs() {
    let content = "## Waiting\n\n- [ ] hello world [pane:: 42] [proj:: tael] [type:: test]\n";
    let inbox = parse(content);
    assert_eq!(inbox.items.len(), 1);
    assert_eq!(inbox.items[0].get("pane"), Some("42"));
    assert_eq!(inbox.items[0].get("proj"), Some("tael"));
    assert_eq!(inbox.items[0].get("type"), Some("test"));
    assert_eq!(inbox.items[0].msg(), "hello world");
}

#[test]
fn parse_msg_with_brackets() {
    // Edge case: message containing [ should not be truncated
    let content = "## Waiting\n\n- [ ] Fix [bug] in parser [pane:: 42]\n";
    let inbox = parse(content);
    assert_eq!(inbox.items.len(), 1);
    assert_eq!(inbox.items[0].msg(), "Fix [bug] in parser");
    assert_eq!(inbox.items[0].pane_id(), Some(42));
}

#[test]
fn parse_unknown_section_keeps_context() {
    let content = "## Background\n\n## Someday\n\n- [x] odd marker task [pane:: 7]\n";
    let inbox = parse(content);
    assert_eq!(inbox.items.len(), 1);
    // the unrecognized marker falls back to the running section, which
    // the unknown header left unchanged
    assert_eq!(inbox.items[0].status, Status::Working);
}

#[test]
fn parse_last_duplicate_key_wins() {
    let content = "- [ ] note [tag:: one] [tag:: two]\n";
    let inbox = parse(content);
    assert_eq!(inbox.items.len(), 1);
    assert_eq!(inbox.items[0].get("tag"), Some("two"));
}

#[test]
fn parse_ignores_unrecognized_lines() {
    let content = "random text\n####\n- not an item\n- [ ] real [pane:: 3]\n";
    let inbox = parse(content);
    assert_eq!(inbox.items.len(), 1);
    assert_eq!(inbox.items[0].pane_id(), Some(3));
}

#[test]
fn parse_explicit_attrs_beat_header_context() {
    let content = "### other\n- [ ] task [pane:: 1] [proj:: mine]\n";
    let inbox = parse(content);
    assert_eq!(inbox.items.len(), 1);
    assert_eq!(inbox.items[0].proj(), Some("mine"));
}

#[test]
fn pane_id_rejects_bad_numerals() {
    let content = "- [ ] a [pane:: abc]\n- [ ] b [pane:: 99999999999]\n- [ ] c [pane:: +8]\n";
    let inbox = parse(content);
    assert_eq!(inbox.items.len(), 3);
    assert_eq!(inbox.items[0].pane_id(), None);
    assert_eq!(inbox.items[1].pane_id(), None);
    assert_eq!(inbox.items[2].pane_id(), Some(8));
}
