use autochat::events::{EventRow, Score};
use autochat::filedb::FileDb;
use autochat::json::Json;
use autochat::memory::{
    parse_self_memory, parse_user_memory, revise, user_memory_to_json, MemorySystem, UserUpdate,
};
use autochat::number::Real;

fn json(s: &str) -> Json {
    Json::parse(s).unwrap()
}

fn bits_of(x: f64) -> Real {
    Real { bits: x.to_bits() }
}

fn memory(s: &str) -> MemorySystem {
    MemorySystem { file_db: FileDb { data: json(s) } }
}

fn list(names: &[&str]) -> Vec<String> {
    names.iter().map(|s| s.to_string()).collect()
}

fn update(new: &[&str], wrong: &[&str], profile: Option<&str>, event: Option<&str>) -> UserUpdate {
    UserUpdate {
        new_names: list(new),
        wrong_names: list(wrong),
        profile: profile.map(|s| s.to_string()),
        event: event.map(|s| s.to_string()),
    }
}

#[test]
fn what_is_known_of_a_person() {
    let um = parse_user_memory(&json(
        "{\"names\":[\"a\",1,\"b\"],\"profile\":\"p\",\"recent_events\":[[1,\"x\"],[2.5,\"y\",0],[\"3\",\"z\"],[4],5]}",
    ));
    assert_eq!(um.names, list(&["a", "b"]));
    assert_eq!(um.profile, "p");
    let events: Vec<String> =
        um.recent_events.iter().map(|e| format!("{}{}", e.0.text(), e.1)).collect();
    assert_eq!(events, list(&["1.0x", "2.5y"]));
    assert_eq!(
        user_memory_to_json(&um).text(),
        "{\"names\":[\"a\",\"b\"],\"profile\":\"p\",\"recent_events\":[[1.0,\"x\"],[2.5,\"y\"]]}"
    );
    let old = parse_user_memory(&json("{\"text\":\"t\",\"names\":[\"a\"]}"));
    assert_eq!(old.profile, "t");
    assert!(old.names.is_empty());
    let both = parse_user_memory(&json("{\"text\":\"t\",\"profile\":\"p\",\"names\":[\"a\"]}"));
    assert_eq!((both.profile.as_str(), both.names.len()), ("p", 1));
}

#[test]
fn memory_of_a_person_reads_back() {
    let um = parse_user_memory(&json("{\"names\":[\"n\"],\"profile\":\"p\",\"recent_events\":[[7,\"e\"]]}"));
    let text = user_memory_to_json(&um).text();
    let back = parse_user_memory(&json(&text));
    assert_eq!(user_memory_to_json(&back).text(), text);
}

#[test]
fn updates_of_a_person() {
    let um = parse_user_memory(&json("{\"names\":[\"a\",\"b\",\"a\"],\"profile\":\"p\"}"));
    let (um, news) = revise(
        um,
        &update(&["c", "b", "d"], &["a", "zz"], Some("p"), None),
        &json("5.0"),
        2,
        3,
    );
    assert!(news);
    assert_eq!(um.names, list(&["a", "c", "d"]));
    let (um, news) = revise(um, &update(&["a"], &["q"], Some("p"), None), &json("5.0"), 2, 3);
    assert!(!news);
    let (um, news) = revise(um, &update(&[], &[], Some("new"), Some("e1")), &json("6.0"), 2, 3);
    assert!(news);
    assert_eq!(um.profile, "new");
    let (um, _) = revise(um, &update(&[], &[], None, Some("e2")), &json("7.0"), 2, 3);
    let (um, _) = revise(um, &update(&[], &[], None, Some("e3")), &json("8.0"), 2, 3);
    let texts: Vec<&str> = um.recent_events.iter().map(|e| e.1.as_str()).collect();
    assert_eq!(texts, vec!["e2", "e3"]);
    let (um, news) = revise(um, &update(&["only"], &[], None, None), &json("9.0"), 2, 0);
    assert!(news);
    assert!(um.names.is_empty());
}

#[test]
fn store_of_people() {
    let mut m = memory("{}");
    assert!(m.um_get(5).is_none());
    assert!(m.um_update(5, &update(&["x"], &[], None, Some("e")), &json("1.5"), 5, 5));
    assert_eq!(
        m.file_db.data.text(),
        "{\"ums\":{\"5\":{\"names\":[\"x\"],\"profile\":\"\",\"recent_events\":[[1.5,\"e\"]]}}}"
    );
    assert!(!m.um_update(5, &update(&["x"], &[], None, None), &json("2.0"), 5, 5));
    assert!(m.um_update(-7, &update(&[], &[], Some("p"), None), &json("2.0"), 5, 5));
    assert_eq!(m.um_get(5).unwrap().names, list(&["x"]));
    assert_eq!(m.um_get(-7).unwrap().profile, "p");
    assert!(m.um_get(6).is_none());
    let mut odd = memory("{\"ums\":[1]}");
    assert!(odd.um_update(1, &update(&["n"], &[], None, None), &json("0.0"), 5, 5));
    assert_eq!(odd.um_get(1).unwrap().names, list(&["n"]));
}

#[test]
fn people_named_in_a_message() {
    let m = memory(
        "{\"ums\":{\"+2\":{\"names\":[\"bob\"]},\"1\":{\"names\":[\"\",\"al\"]},\"2\":{\"names\":[\"bob\"]},\"x\":{\"names\":[\"al\"]},\"3\":{\"text\":\"al\"}}}",
    );
    assert_eq!(m.um_query_uid_by_name_in_message("al and bob"), vec![2, 1]);
    assert!(m.um_query_uid_by_name_in_message("nobody").is_empty());
    assert!(memory("{\"ums\":5}").um_query_uid_by_name_in_message("al").is_empty());
}

#[test]
fn what_the_bot_said() {
    let mut m = memory("{\"sms\":\"odd\"}");
    m.sm_add(1, 2, "one", "", &json("1.0"));
    m.sm_add(2, 2, "ignored", "smile", &json("2.0"));
    m.sm_add(-3, 2, "three", "", &json("3.0"));
    assert_eq!(
        m.file_db.data.text(),
        "{\"sms\":[{\"id\":\"2\",\"sticker\":\"smile\",\"time\":2.0},{\"id\":\"-3\",\"text\":\"three\",\"time\":3.0}]}"
    );
    let said = m.sm_get();
    assert_eq!(said.len(), 2);
    assert_eq!((said[1].id.as_str(), said[1].text.as_str(), said[1].sticker.as_str()), ("-3", "three", ""));
    assert_eq!(said[1].time, bits_of(3.0));
    assert!(parse_self_memory(&json("{\"id\":5}")).is_none());
    assert!(memory("{}").sm_get().is_empty());
}

fn row(id: &str) -> EventRow {
    EventRow {
        id: id.to_string(),
        text: format!("text {id}"),
        mem_type: "short_term".to_string(),
        weight: 1,
        created_at: bits_of(0.0),
    }
}

fn score(x: f64) -> Score {
    Score { distance: bits_of(x), adjusted: bits_of(x), penalty: bits_of(0.0) }
}

#[test]
fn nearest_events_come_first() {
    let rows = vec![row("a"), row("b"), row("c"), row("d")];
    let q1: Vec<Score> = [4.0, 3.0, 2.0, 1.0].iter().map(|x| score(*x)).collect();
    let q2: Vec<Score> = [0.5, 9.0, 9.5, 7.0].iter().map(|x| score(*x)).collect();
    let found = MemorySystem::em_query(&rows, &vec![q1.clone(), q2.clone()], 2);
    let ids: Vec<&str> = found.iter().map(|m| m.id.as_str()).collect();
    assert_eq!(ids, vec!["a", "d"]);
    assert_eq!(found[0].adjusted_distance, bits_of(0.5));
    assert_eq!(found[1].text, "text d");
    let one = MemorySystem::em_query(&rows, &vec![q1], 1);
    assert_eq!(one.len(), 1);
    assert_eq!(one[0].id, "d");
    assert!(MemorySystem::em_query(&rows, &vec![q2], 0).is_empty());
    assert!(MemorySystem::em_query(&Vec::new(), &Vec::new(), 3).is_empty());
}

#[test]
fn searches_are_checked() {
    assert_eq!(MemorySystem::em_query_check(&vec![3, 3], 1, 3), Ok(true));
    assert_eq!(MemorySystem::em_query_check(&vec![3, 2], 0, 3), Ok(false));
    assert_eq!(MemorySystem::em_query_check(&Vec::new(), 4, 3), Ok(false));
    assert_eq!(
        MemorySystem::em_query_check(&vec![3, 2], 1, 3),
        Err("Embedding维度错误".to_string())
    );
    let base = "SELECT id, text, type, weight, created_at, embedding FROM event_memroy";
    assert_eq!(MemorySystem::em_query_sql("all"), (base.to_string(), false));
    assert_eq!(
        MemorySystem::em_query_sql("long_term"),
        (format!("{base} WHERE type = ?1"), true)
    );
    assert!(autochat::events::is_short_term("short_term"));
    assert!(!autochat::events::is_short_term("long_term"));
}

#[test]
fn events_are_put_in() {
    let v = vec![1.0f32.to_bits(), 2.0f32.to_bits()];
    let e = MemorySystem::em_add("id", "text", &v, 3, bits_of(9.0), 2).unwrap();
    assert_eq!((e.row.id.as_str(), e.row.mem_type.as_str(), e.row.weight), ("id", "short_term", 3));
    assert_eq!(e.embedding, vec![0, 0, 0x80, 0x3f, 0, 0, 0, 0x40]);
    assert_eq!(
        MemorySystem::em_add("id", "text", &v, 3, bits_of(9.0), 4096).unwrap_err(),
        "Embedding维度应为 4096，但收到 2"
    );
}

#[test]
fn events_grow_stronger() {
    let grow = |w: i64, kind: &str, by: i64| {
        MemorySystem::em_increase_weight("m", Some((w, kind.to_string())), by, 10)
    };
    assert_eq!(grow(8, "short_term", 1), Ok((9, "short_term".to_string())));
    assert_eq!(grow(9, "short_term", 1), Ok((10, "long_term".to_string())));
    assert_eq!(grow(0, "long_term", 1), Ok((1, "long_term".to_string())));
    assert_eq!(
        MemorySystem::em_increase_weight("m", None, 1, 10),
        Err("未找到ID为 m 的事件记忆".to_string())
    );
}

#[test]
fn events_are_forgotten_by_lot() {
    let ids = list(&["a", "b", "c"]);
    let lots = vec![bits_of(0.05), bits_of(0.1), bits_of(0.0)];
    assert_eq!(MemorySystem::em_forget(&ids, &lots, bits_of(0.1)), list(&["a", "c"]));
    assert!(MemorySystem::em_forget(&ids, &lots, bits_of(0.0)).is_empty());
}
