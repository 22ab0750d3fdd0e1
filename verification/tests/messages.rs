use recipe_pipeline::messages::message_has_two_colons;
use recipe_pipeline::messages::{
    compose_document_message, handle_user_message, limit_reply_text, load_limit_reached,
    pages_are_counted, parse_message, parse_request, request_has_payload, user_command,
    ServerAction, ServerState, UserCommand,
};

#[test]
fn document_message_is_link_colon_document() {
    let m = compose_document_message("https://example.com/a", "<html>x</html>");
    assert_eq!(m, "https://example.com/a:<html>x</html>");
}

#[test]
fn parse_message_splits_at_second_colon() {
    let (link, doc) = parse_message("https://example.com/a:<p>a:b</p>");
    assert_eq!(link, "https://example.com/a");
    assert_eq!(doc, "<p>a:b</p>");
}

#[test]
fn parse_message_undoes_compose() {
    let m = compose_document_message("http://host/x/y", "doc: with colons: inside");
    let (link, doc) = parse_message(&m);
    assert_eq!(link, "http://host/x/y");
    assert_eq!(doc, "doc: with colons: inside");
}

#[test]
fn request_payload_follows_colon_and_space() {
    assert!(request_has_payload("start_url: https://example.com"));
    assert_eq!(parse_request("start_url: https://example.com"), "https://example.com");
    assert_eq!(parse_request("set_limit: 12"), "12");
    assert!(!request_has_payload("set_limit"));
    assert!(!request_has_payload("set_limit:"));
}

#[test]
fn start_command_is_read() {
    match user_command("start_url: https://example.com/recipes") {
        UserCommand::StartUrl(s) => assert_eq!(s, "https://example.com/recipes"),
        _ => panic!("expected a start request"),
    }
}

#[test]
fn exclude_command_drops_trailing_slash() {
    match user_command("excluded: https://example.com/private/ ") {
        UserCommand::Exclude(s) => assert_eq!(s, "https://example.com/private"),
        _ => panic!("expected an exclusion"),
    }
    assert!(matches!(user_command("excluded: not a link"), UserCommand::Ignored));
}

#[test]
fn limit_command_is_read() {
    assert!(matches!(user_command("set_limit: 5"), UserCommand::SetLimit(5)));
    assert!(matches!(user_command("SET_LIMIT: 7"), UserCommand::SetLimit(7)));
    assert!(matches!(user_command("set_limit"), UserCommand::Malformed));
    assert!(matches!(user_command("set_limit: many"), UserCommand::Ignored));
}

#[test]
fn flush_commands_compare_the_lowercased_text() {
    // The lower-cased request is compared with texts that hold capitals, so
    // no request reaches the flush commands.
    assert!(matches!(user_command("flush redis"), UserCommand::Ignored));
    assert!(matches!(user_command("flush Redis"), UserCommand::Ignored));
    assert!(matches!(user_command("FLUSH INFLUXDB"), UserCommand::Ignored));
    assert!(matches!(user_command("hello"), UserCommand::Ignored));
}

#[test]
fn limit_reply_mentions_no_restrictions_for_zero() {
    assert_eq!(limit_reply_text(0), "Current limit: 0 (no restrictions)");
    assert_eq!(limit_reply_text(25), "Current limit: 25");
}

#[test]
fn start_link_is_published_once_per_session() {
    let state = ServerState { running: false };
    let (state, actions) = handle_user_message(state, "start_url: https://example.com");
    assert!(state.running);
    assert_eq!(actions.len(), 2);
    match &actions[0] {
        ServerAction::PublishStartUrl(s) => assert_eq!(s, "https://example.com"),
        _ => panic!("expected a publication"),
    }
    match &actions[1] {
        ServerAction::Reply(s) => assert_eq!(s, "state: working"),
        _ => panic!("expected a reply"),
    }
    let (state, actions) = handle_user_message(state, "start_url: https://other.com");
    assert!(state.running);
    assert_eq!(actions.len(), 1);
    assert!(matches!(&actions[0], ServerAction::Reply(s) if s == "state: working"));
}

#[test]
fn limit_request_forwards_stores_and_replies() {
    let (state, actions) = handle_user_message(ServerState { running: false }, "set_limit: 3");
    assert!(!state.running);
    assert_eq!(actions.len(), 3);
    assert!(matches!(actions[0], ServerAction::ForwardLimit(3)));
    assert!(matches!(actions[1], ServerAction::StoreLimit(3)));
    assert!(matches!(&actions[2], ServerAction::Reply(s) if s == "Current limit: 3"));
}

#[test]
fn malformed_limit_aborts_and_unknown_is_ignored() {
    let (_, actions) = handle_user_message(ServerState { running: true }, "set_limit");
    assert_eq!(actions.len(), 1);
    assert!(matches!(actions[0], ServerAction::Abort));
    let (state, actions) = handle_user_message(ServerState { running: true }, "what?");
    assert!(state.running);
    assert!(actions.is_empty());
}

#[test]
fn exclusion_request_adds_and_echoes() {
    let (_, actions) =
        handle_user_message(ServerState { running: false }, "excluded: https://example.com/ads/");
    assert_eq!(actions.len(), 2);
    assert!(matches!(&actions[0], ServerAction::AddExcludedLink(s) if s == "https://example.com/ads"));
    assert!(matches!(&actions[1], ServerAction::Reply(s) if s == "https://example.com/ads"));
}

#[test]
fn page_limit_of_the_loader() {
    assert!(!pages_are_counted(0));
    assert!(pages_are_counted(4));
    assert!(!load_limit_reached(0, 1000));
    assert!(!load_limit_reached(3, 3));
    assert!(load_limit_reached(3, 4));
}

#[test]
fn document_task_carries_link_and_document() {
    let t = recipe_pipeline::messages::document_task("https://example.com/a:<p>x</p>", 9, 4);
    assert_eq!(t.id, 9);
    assert_eq!(t.issue_id, 4);
    assert_eq!(t.url, "https://example.com/a");
    assert_eq!(t.document_string, "<p>x</p>");
}

#[test]
fn two_colons_are_detected() {
    assert!(message_has_two_colons("https://a.b:<p></p>"));
    assert!(!message_has_two_colons("https://a.b"));
    assert!(!message_has_two_colons("no colon"));
}

#[test]
fn health_check_texts() {
    assert_eq!(recipe_pipeline::messages::health_text(1), "Healthy!");
    assert_eq!(recipe_pipeline::messages::health_text(0), "Not healthy");
    assert_eq!(recipe_pipeline::messages::health_text(2), "Not healthy");
}

#[test]
fn a_run_stops_after_the_limit() {
    // limit 3, counter at 1: the counts 2, 3 are handled, 4 stops the run.
    let counts = [2u64, 3, 4, 5];
    let handled = counts.iter().take_while(|&&c| !load_limit_reached(3, c)).count();
    assert_eq!(handled, 2);
    let unlimited = counts.iter().take_while(|&&c| !load_limit_reached(0, c)).count();
    assert_eq!(unlimited, 4);
}
