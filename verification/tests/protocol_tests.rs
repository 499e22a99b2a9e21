use i3_focus_last::protocol::{encode_command, parse_command, Cmd};
use i3_focus_last::replies::{
    encode_history_reply, encode_invalid_reply, encode_lease_reply, parse_history_reply,
    parse_lease_reply,
};
use i3_focus_last::server::{event_of_cmd, ServerEvent};

fn parse(bytes: &[u8]) -> Option<Cmd> {
    parse_command(&bytes.to_vec())
}

#[test]
fn parses_get_history() {
    assert_eq!(parse(b"\"GetHistory\""), Some(Cmd::GetHistory));
    assert_eq!(parse(b"  \"GetHistory\"  "), Some(Cmd::GetHistory));
}

#[test]
fn parses_switch_to() {
    assert_eq!(parse(b"{\"SwitchTo\":2}"), Some(Cmd::SwitchTo(2)));
    assert_eq!(parse(b" { \"SwitchTo\" : 2 } "), Some(Cmd::SwitchTo(2)));
    assert_eq!(parse(b"{\"SwitchTo\":0}"), Some(Cmd::SwitchTo(0)));
}

#[test]
fn parses_push_to_history() {
    assert_eq!(parse(b"{\"PushToHistory\":94}"), Some(Cmd::PushToHistory(94)));
    assert_eq!(parse(b"{\"PushToHistory\":-7}"), Some(Cmd::PushToHistory(-7)));
    assert_eq!(
        parse(b"{\"PushToHistory\":-9223372036854775808}"),
        Some(Cmd::PushToHistory(i64::MIN))
    );
    assert_eq!(
        parse(b"{\"PushToHistory\":9223372036854775807}"),
        Some(Cmd::PushToHistory(i64::MAX))
    );
}

#[test]
fn parses_inhibit_history() {
    assert_eq!(parse(b"{\"InhibitHistory\":null}"), Some(Cmd::InhibitHistory(None)));
    assert_eq!(parse(b"{\"InhibitHistory\":3}"), Some(Cmd::InhibitHistory(Some(3))));
    assert_eq!(
        parse(b"{\"InhibitHistory\":18446744073709551615}"),
        Some(Cmd::InhibitHistory(Some(u64::MAX)))
    );
}

#[test]
fn parses_inhibit_history_release() {
    assert_eq!(
        parse(b"{\"InhibitHistoryRelease\":3}"),
        Some(Cmd::InhibitHistoryRelease(3))
    );
}

#[test]
fn rejects_requests_outside_the_protocol() {
    assert_eq!(parse(b""), None);
    assert_eq!(parse(b"\"Bogus\""), None);
    assert_eq!(parse(b"{\"SwitchTo\":}"), None);
    assert_eq!(parse(b"{\"SwitchTo\":-1}"), None);
    assert_eq!(parse(b"{\"SwitchTo\":2} extra"), None);
    assert_eq!(parse(b"{\"SwitchTo\":007}"), None);
    assert_eq!(parse(b"{\"SwitchTo\":99999999999999999999999}"), None);
    assert_eq!(parse(b"{\"PushToHistory\":9223372036854775808}"), None);
    assert_eq!(parse(b"{\"InhibitHistory\":18446744073709551616}"), None);
    assert_eq!(parse(b"\"GetHistory\" trailing"), None);
    assert_eq!(parse(b"{\"GetHistory\":null}"), None);
    assert_eq!(parse(b"{\"SwitchTo\":2"), None);
}

#[test]
fn command_encoding_is_canonical() {
    assert_eq!(encode_command(&Cmd::GetHistory), b"\"GetHistory\"".to_vec());
    assert_eq!(encode_command(&Cmd::SwitchTo(2)), b"{\"SwitchTo\":2}".to_vec());
    assert_eq!(
        encode_command(&Cmd::PushToHistory(-42)),
        b"{\"PushToHistory\":-42}".to_vec()
    );
    assert_eq!(
        encode_command(&Cmd::InhibitHistory(None)),
        b"{\"InhibitHistory\":null}".to_vec()
    );
    assert_eq!(
        encode_command(&Cmd::InhibitHistory(Some(7))),
        b"{\"InhibitHistory\":7}".to_vec()
    );
    assert_eq!(
        encode_command(&Cmd::InhibitHistoryRelease(7)),
        b"{\"InhibitHistoryRelease\":7}".to_vec()
    );
}

#[test]
fn commands_round_trip() {
    let cases = [
        Cmd::GetHistory,
        Cmd::SwitchTo(0),
        Cmd::SwitchTo(1),
        Cmd::SwitchTo(usize::MAX),
        Cmd::PushToHistory(0),
        Cmd::PushToHistory(-1),
        Cmd::PushToHistory(i64::MIN),
        Cmd::PushToHistory(i64::MAX),
        Cmd::InhibitHistory(None),
        Cmd::InhibitHistory(Some(0)),
        Cmd::InhibitHistory(Some(u64::MAX)),
        Cmd::InhibitHistoryRelease(12),
    ];
    for c in cases {
        assert_eq!(parse_command(&encode_command(&c)), Some(c));
    }
}

#[test]
fn history_reply_encoding_is_canonical() {
    assert_eq!(
        encode_history_reply(&vec![1, -2, 30], true),
        b"[[1,-2,30],true]".to_vec()
    );
    assert_eq!(encode_history_reply(&vec![], false), b"[[],false]".to_vec());
    assert_eq!(encode_history_reply(&vec![7], false), b"[[7],false]".to_vec());
}

#[test]
fn history_replies_round_trip() {
    let cases: [(Vec<i64>, bool); 4] = [
        (vec![], false),
        (vec![5], true),
        (vec![1, 2, 3], false),
        (vec![i64::MIN, 0, i64::MAX], true),
    ];
    for (h, f) in cases {
        let bytes = encode_history_reply(&h, f);
        assert_eq!(parse_history_reply(&bytes), Some((h, f)));
    }
}

#[test]
fn history_reply_parser_accepts_whitespace() {
    assert_eq!(
        parse_history_reply(&b" [ [ 1 , 2 ] , true ] ".to_vec()),
        Some((vec![1, 2], true))
    );
    assert_eq!(parse_history_reply(&b"[[],false]".to_vec()), Some((vec![], false)));
}

#[test]
fn history_reply_parser_rejects_malformed_input() {
    assert_eq!(parse_history_reply(&b"".to_vec()), None);
    assert_eq!(parse_history_reply(&b"[[1,2],true".to_vec()), None);
    assert_eq!(parse_history_reply(&b"[[1,,2],true]".to_vec()), None);
    assert_eq!(parse_history_reply(&b"[[1,2],maybe]".to_vec()), None);
    assert_eq!(parse_history_reply(&b"[[1,2],true]x".to_vec()), None);
}

#[test]
fn lease_replies_round_trip() {
    for k in [0u64, 1, 7, u64::MAX] {
        assert_eq!(parse_lease_reply(&encode_lease_reply(k)), Some(k));
    }
    assert_eq!(encode_lease_reply(41), b"41".to_vec());
    assert_eq!(parse_lease_reply(&b" 41 ".to_vec()), Some(41));
    assert_eq!(parse_lease_reply(&b"41x".to_vec()), None);
}

#[test]
fn invalid_reply_is_the_literal_string() {
    assert_eq!(encode_invalid_reply(), b"\"invalid command\"".to_vec());
}

#[test]
fn commands_map_to_events() {
    assert_eq!(event_of_cmd(&Cmd::SwitchTo(3)), ServerEvent::SwitchTo(3));
    assert_eq!(event_of_cmd(&Cmd::GetHistory), ServerEvent::GetHistory);
    assert_eq!(event_of_cmd(&Cmd::PushToHistory(-4)), ServerEvent::PushToHistory(-4));
    assert_eq!(
        event_of_cmd(&Cmd::InhibitHistory(Some(9))),
        ServerEvent::InhibitHistory(Some(9))
    );
    assert_eq!(
        event_of_cmd(&Cmd::InhibitHistoryRelease(9)),
        ServerEvent::InhibitHistoryRelease(9)
    );
}
