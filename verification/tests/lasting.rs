use autochat::chat::GroupStatus;
use autochat::config::Config;
use autochat::execute::{on_step, step_calls, Sent, Step};
use autochat::filedb::FileDb;
use autochat::format::format_msgs;
use autochat::json::Json;
use autochat::memory::{parse_user_memory, MemorySystem};
use autochat::number::{Real, ONE_BITS};
use autochat::patterns::match_chars;
use autochat::recall::{event_moments, event_plan, keeping};
use autochat::rpc::{waited, LlmRequest, RpcSession, Wait};
use autochat::sticker::{sticker_job, EmbDb, Job, SidText, StickerState};
use autochat::types::Message;
use autochat::yaml::{value_to_f64, value_to_string, yaml_to_json, Yaml};

fn json(s: &str) -> Json {
    Json::parse(s).unwrap()
}

fn config(s: &str) -> Config {
    Config { mtime: None, data: Yaml::parse(s).unwrap() }
}

fn bits_of(x: f64) -> Real {
    Real { bits: x.to_bits() }
}

fn float(x: Real) -> f64 {
    f64::from_bits(x.bits)
}

fn kept(db: &FileDb) -> FileDb {
    FileDb::load(Some(&db.save()))
}

#[test]
fn a_store_comes_back_from_its_file() {
    let mut db = FileDb::load(None);
    db.set("a", json("[1,-2,18446744073709551615,\"你\",null,true,{\"x\":43210.0}]"));
    assert_eq!(kept(&db).data.text(), db.data.text());
    db.set("b", json("0.1"));
    let again = kept(&db);
    assert_eq!(again.get("a").text(), db.get("a").text());
    assert!((float(again.get("b").as_real().unwrap()) - 0.1).abs() < 1e-15);
    assert_eq!(again.get("b").text(), kept(&again).get("b").text());
}

#[test]
fn whole_numbers_come_back_as_they_were() {
    for x in [0.0, 1.0, -7.0, 1700000000.0, 900719925474099.0, -900719925474099.0] {
        let mut db = FileDb::load(None);
        db.set("x", Json::Number(serde_json::Number::from_f64(x).unwrap()));
        assert_eq!(kept(&db).get("x").as_real(), Some(bits_of(x)));
        assert!(!db.get("x").as_int().is_some());
    }
}

#[test]
fn a_status_comes_back_from_its_file() {
    let mut db = FileDb::load(None);
    GroupStatus::save(&mut db, 3, json("0.25"), &vec![7, -8], Json::Null, json("1700000000.0"));
    let st = GroupStatus::load(&kept(&db), 3);
    assert_eq!(st.self_msg_ids, vec![7, -8]);
    assert_eq!((st.willingness, st.last_check_willing_time), (bits_of(0.25), None));
    assert_eq!(st.last_reply_time, Some(bits_of(1700000000.0)));
}

#[test]
fn people_come_back_from_their_file() {
    let data = "{\"sms\":[{\"id\":\"1\",\"text\":\"t\",\"time\":0.3}],\"ums\":{\"5\":{\"names\":[\"a\"],\"profile\":\"p\",\"recent_events\":[[1.7,\"e\"]]}}}";
    let db = FileDb { data: json(data) };
    let mem = MemorySystem { file_db: kept(&db) };
    let um = mem.um_get(5).unwrap();
    assert_eq!((um.names, um.profile), (vec!["a".to_string()], "p".to_string()));
    assert_eq!(um.recent_events[0].1, "e");
    let said = mem.sm_get();
    assert_eq!((said.len(), said[0].id.as_str(), said[0].text.as_str()), (1, "1", "t"));
}

#[test]
fn status_after_each_event() {
    let st = GroupStatus {
        willingness: bits_of(0.5),
        self_msg_ids: (0..100).collect(),
        last_check_willing_time: None,
        last_reply_time: Some(bits_of(1.0)),
    };
    let st = st.after_check(bits_of(0.75), bits_of(2.0));
    assert_eq!((st.willingness, st.last_check_willing_time), (bits_of(0.75), Some(bits_of(2.0))));
    assert_eq!((st.self_msg_ids.len(), st.last_reply_time), (100, Some(bits_of(1.0))));
    let st = st.after_sent(100, bits_of(3.0)).after_sent(101, bits_of(4.0));
    assert_eq!(st.self_msg_ids, (2..102).collect::<Vec<i64>>());
    assert_eq!((st.willingness, st.last_reply_time), (bits_of(0.75), Some(bits_of(4.0))));
    let st = st.after_reply(bits_of(-0.1));
    assert_eq!((st.willingness, st.last_check_willing_time), (bits_of(0.0), Some(bits_of(2.0))));
    assert_eq!(st.self_msg_ids.len(), 100);
}

#[test]
fn a_failed_step_stops_nothing() {
    let steps = vec![
        Step::Say { text: "a".to_string() },
        Step::Say { text: "b".to_string() },
        Step::Pass,
        Step::Show { message: "m".to_string(), action: 0, words: "w".to_string() },
        Step::Poke { ids: vec![5, 6] },
        Step::React { msg_id: 7, emoji_id: "8".to_string() },
    ];
    let replies =
        [Some(json("{\"message_id\":\"11\"}")), None, None, Some(json("{}")), Some(json("1")), None];
    let mut sent: Vec<Sent> = Vec::new();
    for (step, reply) in steps.iter().zip(replies.iter()) {
        sent = on_step(sent, step, reply.as_ref());
    }
    let all: Vec<(i64, &str, &str)> =
        sent.iter().map(|s| (s.msg_id, s.text.as_str(), s.sticker.as_str())).collect();
    assert_eq!(all, vec![(11, "a", ""), (0, "", "w")]);
    let calls: Vec<Vec<String>> = steps
        .iter()
        .map(|s| {
            step_calls(s, 3)
                .iter()
                .map(|c| format!("{} {}", c.method, c.args[1].text()))
                .collect()
        })
        .collect();
    assert_eq!(calls[0], vec!["send_group_msg \"a\""]);
    assert!(calls[2].is_empty());
    assert_eq!(calls[3], vec!["send_group_msg \"m\""]);
    assert_eq!(calls[4], vec!["poke_group_member 5", "poke_group_member 6"]);
    assert_eq!(calls[5], vec!["set_msg_emoji_like 7"]);
}

#[test]
fn calls_wait_so_long() {
    let cfg = config("rpc: {default_timeout: 9}");
    let usual = RpcSession::get_new_msgs().wait;
    assert_eq!((usual, float(usual.base(&cfg))), (Wait::Usual, 9.0));
    assert_eq!(float(usual.base(&config("{}"))), 5.0);
    assert_eq!(usual.extra(), None);
    let vectors = RpcSession::query_embeddings(&Vec::new(), "m").wait;
    assert_eq!((float(vectors.base(&cfg)), vectors.extra()), (60.0, None));
    let ask = |options: &str| {
        RpcSession::query_llm(LlmRequest {
            model: Json::Null,
            prompt: String::new(),
            images: Vec::new(),
            options: json(options),
        })
        .wait
    };
    assert_eq!(float(ask("{\"timeout\":12}").base(&cfg)), 12.0);
    assert_eq!(float(ask("{\"timeout\":\"x\"}").base(&cfg)), 300.0);
    assert_eq!(float(ask("{}").base(&cfg)), 300.0);
    assert_eq!(ask("{}").extra().map(float), Some(5.0));
    assert_eq!(float(waited(bits_of(-3.0))), 0.1);
    assert_eq!(float(waited(bits_of(60.0))), 60.0);
    assert_eq!(float(waited(bits_of(f64::NAN))), 0.1);
}

#[test]
fn calls_get_numbers_of_their_own() {
    let mut s = RpcSession::new();
    s.connect();
    s.next_id = i64::MAX - 1;
    let mut ids = Vec::new();
    for k in 0..5 {
        let (id, _) = s.call("t", RpcSession::get_new_msgs()).unwrap();
        ids.push(id);
        if k == 1 {
            s.disconnect();
            s.connect();
        }
    }
    assert_eq!(ids, vec![i64::MAX - 1, i64::MAX, i64::MIN, i64::MIN + 1, i64::MIN + 2]);
    assert!(s.on_text(&format!("{{\"id\":{},\"result\":1}}", i64::MAX)).is_none());
    let (to, _) = s.on_text(&format!("{{\"id\":{},\"result\":1}}", i64::MIN)).unwrap();
    assert_eq!(to, i64::MIN);
    assert!(s.pending.contains(&(i64::MIN + 1)));
}

#[test]
fn integers_as_numbers() {
    for i in [0i64, 1, -1, 3, 9007199254740991, -9007199254740991, 9007199254740993, i64::MIN] {
        assert_eq!(json(&i.to_string()).as_real(), Some(bits_of(i as f64)));
        assert_eq!(value_to_f64(&Yaml::parse(&i.to_string()).unwrap()), Some(bits_of(i as f64)));
    }
    assert_eq!(json("9007199254740991").as_real().unwrap().trunc(), 9007199254740991);
}

#[test]
fn any_key_can_be_written() {
    let v = Yaml::parse("{[1, {a: 2}]: x, !t y: z}").unwrap();
    let text = value_to_string(&v);
    assert!(text.contains("x") && text.contains("!t"));
    assert_eq!(text, value_to_string(&Yaml::parse(&text).unwrap()));
    let v = Yaml::parse("{[1, 2]: x}").unwrap();
    assert!(yaml_to_json(&v).text().contains("x"));
    assert!(Yaml::parse("{{a: 1, b: 2}: x, {b: 2, a: 1}: y}").is_none());
}

#[test]
fn a_sticker_listed_twice_moves_twice() {
    let mut st = StickerState::new();
    let mut place = |sid: i64, sent: Option<i64>| {
        let x = float(st.get_sticker_multiplier(1, sid));
        let (down, up) = (vec![bits_of(x - 0.25)], vec![bits_of(x + 0.5)]);
        st.update_sticker_multipliers(1, sent, &vec![sid], &down, &up);
        float(st.get_sticker_multiplier(1, sid))
    };
    assert_eq!(place(5, Some(5)), 0.75);
    assert_eq!(place(5, Some(5)), 0.5);
    assert_eq!(place(6, Some(5)), 1.0);
    assert_eq!(place(5, None), 1.0);
    for _ in 0..6 {
        place(5, Some(5));
    }
    assert_eq!(place(5, Some(5)), 0.0);
    let mut all = StickerState::new();
    all.update_sticker_multipliers(
        1,
        Some(5),
        &vec![5, 5],
        &vec![bits_of(0.75), bits_of(0.5)],
        &vec![bits_of(1.5), bits_of(1.25)],
    );
    assert_eq!(all.get_sticker_multiplier(1, 5), bits_of(0.5));
    assert_eq!(all.get_sticker_multiplier(1, 7), Real { bits: ONE_BITS });
}

#[test]
fn work_on_the_stickers() {
    let db = EmbDb::new();
    assert!(matches!(sticker_job(&Vec::new(), &db), Job::Clear));
    let captions: Vec<SidText> = (0..12)
        .map(|sid| SidText { sid, text: format!("c{sid}"), path: None })
        .collect();
    match sticker_job(&captions, &db) {
        Job::Fetch(batches) => assert_eq!(batches, vec![(0..10).collect(), vec![10, 11]]),
        other => panic!("{other:?}"),
    }
    let mut full = EmbDb::new();
    for c in &captions {
        full.insert(&format!("{}:{}", c.sid, c.text), vec![1]);
        full.insert(&format!("e:{}:{}", c.sid, c.text), vec![1]);
    }
    assert!(matches!(sticker_job(&captions, &full), Job::Done));
}

#[test]
fn what_is_recalled_and_kept() {
    let plan = event_plan(&config("{}")).unwrap();
    assert_eq!((plan.short, plan.long, float(plan.decay)), (3, 1, 0.02));
    assert!(event_plan(&config("chat: {mem: {short_em_num: 0, long_em_num: -2}}")).is_none());
    assert_eq!(event_plan(&config("chat: {mem: {short_em_num: 0}}")).unwrap().long, 1);
    let by = keeping(&config("chat: {mem: {um_max_events: 2}}"));
    assert_eq!((by.reward, by.threshold, by.max_events, by.max_names, by.keep_count), (1, 10, 2, 10, 10));
    assert_eq!((float(by.forget_days), float(by.forget_prob)), (3.0, 0.1));
    let um = parse_user_memory(&json("{\"names\":[],\"recent_events\":[[1,\"a\"],[2.5,\"b\"]]}"));
    assert_eq!(event_moments(&um), vec![bits_of(1.0), bits_of(2.5)]);
}

#[test]
fn the_text_does_not_depend_on_arrival() {
    let said = |id: i64, time: f64| {
        let text = format!(
            "{{\"msg_id\":{id},\"user_id\":5,\"time\":{time},\"nickname\":\"n\",\"msg\":[{{\"type\":\"text\",\"data\":{{\"text\":\"t{id}\"}}}}]}}"
        );
        Message::from_json(&json(&text), Some(1)).unwrap()
    };
    let form = |order: &[usize]| {
        let times = [3.0, 1.0, 2.0];
        let msgs: Vec<Message> = order.iter().map(|i| said(*i as i64, times[*i])).collect();
        let stamps: Vec<String> = order.iter().map(|i| format!("S{i}")).collect();
        format_msgs(&msgs, &stamps, &order.iter().map(|_| Vec::new()).collect(), 9)
    };
    let text = form(&[0, 1, 2]);
    for order in [[0, 2, 1], [1, 0, 2], [1, 2, 0], [2, 0, 1], [2, 1, 0]] {
        assert_eq!(form(&order), text);
    }
    let (a, b, c) = (text.find("t1").unwrap(), text.find("t2").unwrap(), text.find("t0").unwrap());
    assert!(a < b && b < c);
}

#[test]
fn runs_of_characters_that_count() {
    assert_eq!(match_chars(" a,b 你-好9!"), "ab你好9");
    assert_eq!(match_chars("..."), "");
}
