use autochat::actions::{
    emoji_to_id, expand_action_item, parse_actions, parse_poke_ids, parse_react, sticker_query_ok,
    Action,
};
use autochat::json::Json;
use autochat::number::Real;
use autochat::types::{poke_person_label, Message, PokeBoard};

fn json(s: &str) -> Json {
    Json::parse(s).unwrap()
}

fn show(a: &Action) -> String {
    match a {
        Action::Text { text } => format!("text:{text}"),
        Action::Poke { ids } => format!("poke:{ids:?}"),
        Action::Sticker { query } => format!("sticker:{}", query.text()),
        Action::React { msg_id, emoji_id } => format!("react:{msg_id}:{emoji_id}"),
    }
}

fn shows(actions: &[Action]) -> Vec<String> {
    actions.iter().map(show).collect()
}

fn poke(time: f64, from: i64, to: i64) -> Message {
    let text = format!(
        "{{\"time\":{time},\"user_id\":{from},\"group_id\":9,\"nickname\":\"n\",\"msg\":[{{\"type\":\"poke\",\"data\":{{\"target_id\":{to}}}}}]}}"
    );
    Message::from_json(&json(&text), None).unwrap()
}

#[test]
fn people_to_poke() {
    assert_eq!(parse_poke_ids(&json("[3,\"4\",3,-1,0,5.7,null]")), vec![3, 4, 5]);
    assert_eq!(parse_poke_ids(&json("7")), vec![7]);
    assert_eq!(parse_poke_ids(&json("\"8\"")), vec![8]);
    assert!(parse_poke_ids(&json("\"\"")).is_empty());
    assert!(parse_poke_ids(&json("null")).is_empty());
    assert!(parse_poke_ids(&json("{\"a\":1}")).is_empty());
}

#[test]
fn emojis_by_number_and_by_character() {
    let id = |s: &str| emoji_to_id(&json(s));
    assert_eq!(id("76"), Some("76".to_string()));
    assert_eq!(id("0"), None);
    assert_eq!(id("-3"), None);
    assert_eq!(id("18446744073709551615"), None);
    assert_eq!(id("12.9"), Some("12".to_string()));
    assert_eq!(id("\" 007 \""), Some("007".to_string()));
    assert_eq!(id("\"0\""), None);
    assert_eq!(id("\"99999999999999999999\""), None);
    assert_eq!(id("\"👍x\""), Some(0x1f44du32.to_string()));
    assert_eq!(id("\"abc\""), None);
    assert_eq!(id("\"\""), None);
    assert_eq!(id("null"), None);
    assert_eq!(id("true"), None);
    assert_eq!(id("[1]"), None);
}

#[test]
fn reactions_need_both_parts() {
    assert_eq!(parse_react(&json("[\"5\",76]")), Some((5, "76".to_string())));
    assert_eq!(parse_react(&json("[5]")), None);
    assert_eq!(parse_react(&json("[\"x\",76]")), None);
    assert_eq!(parse_react(&json("[5,0]")), None);
    assert_eq!(parse_react(&json("5")), None);
}

#[test]
fn items_ask_for_actions() {
    assert_eq!(shows(&expand_action_item(&json("\" hi \""))), vec!["text:hi"]);
    assert!(expand_action_item(&json("\"  \"")).is_empty());
    assert!(expand_action_item(&json("5")).is_empty());
    let all = expand_action_item(&json(
        "{\"text\":12,\"poke\":[1,2],\"react\":[9,\"😀\"],\"sticker\":{\"scene\":\"s\"},\"other\":1}",
    ));
    assert_eq!(
        shows(&all),
        vec!["poke:[1, 2]", "react:9:128512", "sticker:{\"scene\":\"s\"}", "text:12"]
    );
    let none = expand_action_item(&json(
        "{\"text\":null,\"poke\":[],\"react\":[9],\"sticker\":{\"scene\":\"\"}}",
    ));
    assert!(none.is_empty());
    assert!(sticker_query_ok(&json("{\"emotion\":\"e\"}")));
    assert!(!sticker_query_ok(&json("\"e\"")));
    let kinds: Vec<&str> = all.iter().map(|a| a.kind()).collect();
    assert_eq!(kinds, vec!["poke", "react", "sticker", "text"]);
}

#[test]
fn replies_are_bounded() {
    let r = json("{\"actions\":[\"a\",\"b\",{\"poke\":1},\"c\",\"d\",{\"poke\":2},{\"poke\":3}]}");
    assert_eq!(
        shows(&parse_actions(&r)),
        vec!["text:a", "text:b", "poke:[1]", "text:c", "poke:[2]"]
    );
    let r = json("{\"actions\":[{\"react\":[1,5]},{\"react\":[2,5]},{\"react\":[3,5]},{\"react\":[4,5]},\"t\"]}");
    assert_eq!(shows(&parse_actions(&r)), vec!["react:1:5", "react:2:5", "react:3:5", "text:t"]);
    assert!(parse_actions(&json("{}")).is_empty());
    assert!(parse_actions(&json("{\"actions\":\"a\"}")).is_empty());
    assert_eq!(shows(&parse_actions(&json("{\"actions\":[\"x\",{\"poke\":4}]}"))), vec!["text:x", "poke:[4]"]);
}

#[test]
fn messages_from_json() {
    let m = Message::from_json(
        &json("{\"msg_id\":\"12\",\"time\":\"1.5\",\"user_id\":3.9,\"nickname\":\"n\",\"msg\":[{\"type\":\"text\",\"data\":{\"text\":\" a\"}},{\"type\":\"face\"},{\"type\":\"text\",\"data\":{\"text\":\"b \"}}]}"),
        Some(7),
    )
    .unwrap();
    assert_eq!((m.msg_id, m.user_id, m.group_id), (12, 3, 7));
    assert_eq!(f64::from_bits(m.time.bits), 1.5);
    assert_eq!(m.nickname, "n");
    assert_eq!(m.plain_text(), "ab");
    assert!(!m.is_poke());
    assert_eq!(m.poke_target_id(), 0);
    let m = Message::from_json(&json("{\"group_id\":\"x\",\"msg\":5}"), Some(7)).unwrap();
    assert_eq!((m.group_id, m.msg.len()), (0, 0));
    let m = Message::from_json(&json("{}"), None).unwrap();
    assert_eq!(m.group_id, 0);
    assert!(Message::from_json(&json("[]"), Some(1)).is_none());
}

#[test]
fn pokes_have_a_target_and_a_key() {
    let m = poke(12.9, 5, 6);
    assert!(m.is_poke());
    assert_eq!(m.poke_key(), (12, 5, 6));
    let m = Message::from_json(
        &json("{\"msg\":[{\"type\":\"poke\"},{\"type\":\"poke\",\"data\":{}},{\"type\":\"poke\",\"data\":{\"target_id\":4}}]}"),
        None,
    )
    .unwrap();
    assert_eq!(m.poke_target_id(), 0);
}

#[test]
fn groups_remember_their_last_pokes() {
    let mut board = PokeBoard::new();
    for k in 0..12 {
        board.remember_poke(&poke(k as f64, 1, 2));
        board.remember_poke(&poke(k as f64 + 0.5, 1, 2));
    }
    let all = board.collect_recent_pokes(9, Real { bits: 0 });
    let times: Vec<i64> = all.iter().map(|m| m.time.trunc()).collect();
    assert_eq!(times, vec![2, 3, 4, 5, 6, 7, 8, 9, 10, 11]);
    let since = Real { bits: 10f64.to_bits() };
    assert_eq!(board.collect_recent_pokes(9, since).len(), 2);
    assert!(board.collect_recent_pokes(8, since).is_empty());
}

#[test]
fn people_are_called_by_name() {
    assert_eq!(poke_person_label(5, "x", 5), "你");
    assert_eq!(poke_person_label(6, "", 5), "6");
    assert_eq!(poke_person_label(6, "x", 5), "x(6)");
}
