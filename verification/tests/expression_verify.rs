use kotoclip_core::expression_verify::{
    verify_items, verify_summary, ExpressionMatch, VerifyAction, VerifyDecision, VerifySession,
};

fn expression(id: &str, position: &str, token_start: usize, range: (usize, usize)) -> ExpressionMatch {
    ExpressionMatch {
        match_id: id.to_string(),
        position: position.to_string(),
        label: format!("label-{}", id),
        origin: "catalog".to_string(),
        description: String::new(),
        surface: String::new(),
        token_range: (token_start, token_start + 2),
        char_range: range,
        matched_ranges: Vec::new(),
    }
}

#[test]
fn items_are_deduplicated_sorted_and_numbered() {
    let text = "abcdefgh";
    let expressions = vec![
        expression("m2", "start", 3, (5, 7)),
        expression("m2", "end", 4, (5, 7)),
        expression("m1", "start", 0, (0, 2)),
        expression("m2", "start", 3, (5, 7)),
        expression("m3", "inside", 1, (1, 2)),
    ];
    let items = verify_items(&expressions, text);
    assert_eq!(items.len(), 2);
    assert_eq!(items[0].match_id, "m1");
    assert_eq!(items[0].id, 1);
    assert_eq!(items[0].matched_ranges, vec![(0, 2)]);
    assert_eq!(items[0].context, "【ab】cdefgh");
    assert_eq!(items[1].match_id, "m2");
    assert_eq!(items[1].id, 2);
    assert_eq!(items[1].decision, VerifyDecision::Pending);
}

fn session(n: usize) -> VerifySession {
    let text = "x".repeat(n + 1);
    let expressions: Vec<ExpressionMatch> =
        (0..n).map(|i| expression(&format!("m{}", i), "start", i, (i, i + 1))).collect();
    VerifySession::new(verify_items(&expressions, &text)).unwrap()
}

#[test]
fn empty_items_give_no_session() {
    assert!(VerifySession::new(Vec::new()).is_none());
}

#[test]
fn paging_commands_stop_at_the_ends() {
    let mut s = session(7);
    assert_eq!(s.pages(), 2);
    assert_eq!(s.step("p"), VerifyAction::FirstPage);
    assert_eq!(s.step("  next "), VerifyAction::ShowPage);
    assert_eq!(s.page, 1);
    assert_eq!(s.page_items(), (5, 7));
    assert_eq!(s.step("n"), VerifyAction::LastPage);
    assert_eq!(s.step("prev"), VerifyAction::ShowPage);
    assert_eq!(s.page, 0);
    assert_eq!(s.step(""), VerifyAction::ShowPage);
    assert_eq!(s.step("quit"), VerifyAction::Quit);
}

#[test]
fn confirming_a_page_keeps_rejections_and_turns_the_page() {
    let mut s = session(7);
    assert_eq!(s.step("2 n"), VerifyAction::Marked { id: 2, decision: VerifyDecision::Incorrect });
    assert_eq!(s.step("all y"), VerifyAction::PageVerified);
    assert_eq!(s.page, 1);
    assert_eq!(s.items[0].decision, VerifyDecision::Verified);
    assert_eq!(s.items[1].decision, VerifyDecision::Incorrect);
    assert_eq!(s.items[5].decision, VerifyDecision::Pending);
    assert_eq!(s.step("y"), VerifyAction::PageVerified);
    assert_eq!(s.page, 1);
    assert_eq!(verify_summary(&s.items), (7, 6, 1, 0));
}

#[test]
fn item_commands_check_their_index() {
    let mut s = session(3);
    assert_eq!(s.step("3 y"), VerifyAction::Marked { id: 3, decision: VerifyDecision::Verified });
    assert_eq!(s.step("1 d"), VerifyAction::Details { id: 1 });
    assert_eq!(s.step("4 y"), VerifyAction::OutOfRange { id: 4 });
    assert_eq!(s.step("0 y"), VerifyAction::OutOfRange { id: 0 });
    assert_eq!(s.step("x y"), VerifyAction::BadIndex);
    assert_eq!(s.step("1 z"), VerifyAction::UnknownOperation);
    assert_eq!(s.step("1 y extra"), VerifyAction::Unrecognized);
    assert_eq!(s.step("hello"), VerifyAction::Unrecognized);
    assert_eq!(verify_summary(&s.items), (3, 1, 0, 2));
}
