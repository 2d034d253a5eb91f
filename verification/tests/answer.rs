use autochat::actions::parse_actions;
use autochat::chat::{
    group_scale, note_sent_msg, parse_self_info, settle, settle_after_reply, should_consider,
    willingness_terms, GroupStatus,
};
use autochat::config::Config;
use autochat::context::{
    candidate_users, em_text, new_messages, query_vectors, recent_msgs, sm_text, texts_to_embed,
    um_text, user_updates, write_user,
};
use autochat::conversation::Started;
use autochat::events::EventMemory;
use autochat::execute::{
    execute_actions, on_step, render_text, sent_message_id, sticker_indexes, Step,
};
use autochat::filedb::FileDb;
use autochat::json::Json;
use autochat::log;
use autochat::memory::{parse_self_memory, parse_user_memory, MemorySystem};
use autochat::number::Real;
use autochat::recall::Stamps;
use autochat::rpc::{cfg_model, server_url, RpcError, RpcSession};
use autochat::sticker::StickerHit;
use autochat::types::{Message, PokeBoard};
use autochat::yaml::Yaml;

fn json(s: &str) -> Json {
    Json::parse(s).unwrap()
}

fn config(s: &str) -> Config {
    Config { mtime: None, data: Yaml::parse(s).unwrap() }
}

fn bits_of(x: f64) -> Real {
    Real { bits: x.to_bits() }
}

fn texts(items: &[&str]) -> Vec<String> {
    items.iter().map(|s| s.to_string()).collect()
}

fn message(s: &str) -> Message {
    Message::from_json(&json(s), Some(1)).unwrap()
}

fn said(id: i64, user: i64, time: f64, text: &str) -> Message {
    message(&format!(
        "{{\"msg_id\":{id},\"user_id\":{user},\"time\":{time},\"nickname\":\"n{user}\",\"msg\":[{{\"type\":\"text\",\"data\":{{\"text\":\"{text}\"}}}}]}}"
    ))
}

fn poke(user: i64, target: i64, time: f64) -> Message {
    message(&format!(
        "{{\"user_id\":{user},\"time\":{time},\"msg\":[{{\"type\":\"poke\",\"data\":{{\"target_id\":{target}}}}}]}}"
    ))
}

fn event(id: &str, text: &str) -> EventMemory {
    EventMemory {
        id: id.to_string(),
        text: text.to_string(),
        mem_type: "long_term".to_string(),
        weight: 0,
        created_at: bits_of(0.0),
        distance: bits_of(0.0),
        adjusted_distance: bits_of(0.0),
        time_penalty: bits_of(0.0),
    }
}

#[test]
fn status_reads_back() {
    let mut db = FileDb::load(None);
    let empty = GroupStatus::load(&db, 3);
    assert_eq!(empty.willingness, bits_of(0.0));
    assert!(empty.self_msg_ids.is_empty() && empty.last_reply_time.is_none());
    GroupStatus::save(&mut db, 3, json("0.5"), &vec![7, -8], Json::Null, json("12.25"));
    assert_eq!(
        db.data.text(),
        "{\"status_3\":{\"last_check_willing_time\":null,\"last_reply_time\":12.25,\"self_msg_ids\":[7,-8],\"willingness\":0.5}}"
    );
    let st = GroupStatus::load(&db, 3);
    assert_eq!(st.willingness, bits_of(0.5));
    assert_eq!(st.self_msg_ids, vec![7, -8]);
    assert_eq!(st.last_check_willing_time, None);
    assert_eq!(st.last_reply_time, Some(bits_of(12.25)));
    assert!(GroupStatus::load(&db, 4).self_msg_ids.is_empty());
    let ids: Vec<i64> = (0..100).collect();
    let after = note_sent_msg(ids, 100);
    assert_eq!((after.len(), after[0], after[99]), (100, 1, 100));
}

#[test]
fn messages_to_consider() {
    let m = said(1, 5, 10.0, "hi");
    assert!(should_consider(&m, 9, None));
    assert!(!should_consider(&m, 5, None));
    assert!(should_consider(&m, 9, Some(bits_of(9.9))));
    assert!(!should_consider(&m, 9, Some(bits_of(10.0))));
    assert!(!should_consider(&said(1, 5, 10.0, " /cmd"), 9, None));
    assert!(should_consider(&poke(5, 9, 1.0), 9, None));
    assert!(!should_consider(&poke(5, 8, 1.0), 9, None));
    assert_eq!(parse_self_info(&json("{\"self_id\":\"9\",\"nickname\":\"b\"}")), (9, "b".to_string()));
    assert_eq!(parse_self_info(&json("[]")), (0, String::new()));
}

#[test]
fn willingness_grows() {
    let cfg = config("chat: {willing: {increase_keywords: {Bot: 0.25, other: 9, bad: x}, group_scale: {1: 2.5}}}");
    let m = message("{\"user_id\":5,\"msg\":[{\"type\":\"reply\",\"data\":{\"id\":44}},{\"type\":\"at\",\"data\":{\"qq\":\"9\"}},{\"type\":\"at\",\"data\":{\"qq\":9}},{\"type\":\"reply\",\"data\":{\"id\":\"44\"}},{\"type\":\"text\",\"data\":{\"text\":\"hey bOT bad\"}}]}");
    let terms: Vec<f64> = willingness_terms(&cfg, &m, 9, &vec![44])
        .into_iter()
        .map(|r| f64::from_bits(r.bits))
        .collect();
    assert_eq!(terms, vec![0.005, 0.3, 1.0, 0.25]);
    let terms = willingness_terms(&cfg, &poke(5, 9, 1.0), 9, &Vec::new());
    assert_eq!(terms, vec![bits_of(0.3)]);
    assert_eq!(group_scale(&cfg, 1), bits_of(2.5));
    assert_eq!(group_scale(&cfg, 2), bits_of(1.0));
}

#[test]
fn small_letters_of_other_scripts() {
    let cfg = config("chat: {willing: {increase_keywords: {ÀÉ: 0.5}}}");
    let m = said(1, 5, 1.0, "xàéx");
    assert_eq!(willingness_terms(&cfg, &m, 9, &Vec::new()).len(), 2);
}

#[test]
fn willingness_decides() {
    assert_eq!(settle(bits_of(3.0), bits_of(1.0), bits_of(0.999)), (bits_of(1.0), true));
    assert_eq!(settle(bits_of(-1.0), bits_of(1.0), bits_of(0.1)), (bits_of(-1.0), false));
    assert_eq!(settle(bits_of(0.5), bits_of(1.0), bits_of(0.5)), (bits_of(0.5), true));
    assert_eq!(settle_after_reply(bits_of(-0.2)), bits_of(0.0));
    assert_eq!(settle_after_reply(bits_of(0.2)), bits_of(0.2));
}

#[test]
fn messages_that_are_considered() {
    let mut board = PokeBoard::new();
    board.remember_poke(&poke(5, 9, 2.0));
    board.remember_poke(&poke(5, 9, 6.0));
    board.remember_poke(&poke(6, 9, 7.0));
    let raw = json("[{\"msg_id\":1,\"time\":5,\"msg\":[]},{\"msg_id\":2,\"time\":4,\"msg\":[{\"type\":\"text\",\"data\":{\"text\":\"/x\"}}]},{\"time\":6.5,\"user_id\":5,\"msg\":[{\"type\":\"poke\",\"data\":{\"target_id\":9}}]},\"odd\"]");
    let msg = said(3, 5, 8.0, "hi");
    let all = recent_msgs(&raw, &msg, &board);
    let times: Vec<f64> = all.iter().map(|m| f64::from_bits(m.time.bits)).collect();
    assert_eq!(times, vec![5.0, 6.5, 8.0, 7.0]);
    let again = recent_msgs(&raw, &said(1, 5, 8.0, "hi"), &board);
    assert_eq!(again.len(), 3);
    let none = recent_msgs(&json("null"), &poke(5, 9, 6.5), &board);
    assert_eq!(none.len(), 1);
    assert_eq!(new_messages(&raw).len(), 3);
    assert!(new_messages(&json("{}")).is_empty());
}

#[test]
fn texts_for_vectors() {
    let msgs = vec![said(1, 5, 1.0, "long enough"), said(2, 5, 2.0, "abc")];
    assert_eq!(texts_to_embed("s", &msgs), texts(&["s", "long enough"]));
    assert_eq!(texts_to_embed("s", &vec![said(2, 5, 2.0, "你好吗")]), texts(&["s"]));
    assert_eq!(query_vectors(&json("[[1],\"x\",[2]]")).unwrap().len(), 2);
    assert_eq!(query_vectors(&json("[\"x\"]")).unwrap_err(), "embedding 为空");
}

#[test]
fn memories_in_words() {
    assert_eq!(
        em_text(&vec![event("i", "T")], &texts(&["S"])),
        "可能与你当前聊天内容相关的记忆事件:\n```\nS: T\n```\n"
    );
    assert_eq!(em_text(&Vec::new(), &Vec::new()), "");
    let sms = vec![
        parse_self_memory(&json("{\"id\":\"1\",\"text\":\"t\"}")).unwrap(),
        parse_self_memory(&json("{\"id\":\"2\",\"sticker\":\"s\"}")).unwrap(),
    ];
    assert_eq!(
        sm_text(&sms, &texts(&["A", "B"])),
        "你自己过去的回复记录供参考:\n```\nA [1]: t\nB [2]: [表情包: s]\n```\n"
    );
    assert_eq!(sm_text(&Vec::new(), &Vec::new()), "");
    let um = parse_user_memory(&json("{\"names\":[\"a\",\"b\"],\"profile\":\"p\",\"recent_events\":[[1,\"e\"]]}"));
    let block = write_user(5, &um, &texts(&["S"]));
    assert_eq!(block, "用户ID: 5\n  - 曾用名: a, b\n  - 简介: p\n  - 最近事件:\n    [S]: e\n");
    let bare = write_user(6, &parse_user_memory(&json("{}")), &Vec::new());
    assert_eq!(bare, "用户ID: 6\n");
    assert_eq!(
        um_text(&vec![block.clone(), bare.clone()]),
        format!("你对聊天中的部分用户的记忆:\n```\n{block}\n{bare}```\n")
    );
    assert_eq!(um_text(&Vec::new()), "");
}

#[test]
fn people_to_recall() {
    let msgs = vec![
        said(1, 10, 1.0, "a"),
        said(2, 20, 2.0, "b"),
        said(3, 20, 3.0, "c"),
        said(4, 30, 4.0, "d"),
    ];
    assert_eq!(candidate_users(&msgs, &Vec::new(), 9), vec![20, 10, 30]);
    assert_eq!(candidate_users(&msgs, &vec![40, 10, 50], 3), vec![50, 40, 20]);
    assert!(candidate_users(&msgs, &vec![40], 0).is_empty());
}

#[test]
fn memories_to_change() {
    let msgs = vec![said(1, 10, 1.0, "a"), said(2, 20, 2.0, "b")];
    let response = json("{\"user_updates\":[{\"user_id\":\"10\",\"new_name\":\"N\",\"wrong_names\":[\"w\",1],\"profile\":\"p\",\"new_event\":\"e\"},{\"user_id\":30,\"new_name\":\"x\"},{\"user_id\":40,\"new_name\":\"\"},{\"new_name\":\"y\"}]}");
    let updates = user_updates(&response, &msgs, &vec![10], 40);
    assert_eq!(updates.len(), 2);
    assert_eq!(updates[0].0, 10);
    assert_eq!(updates[0].1.new_names, texts(&["N", "n10"]));
    assert_eq!(updates[0].1.wrong_names, texts(&["w"]));
    assert_eq!(updates[0].1.profile.as_deref(), Some("p"));
    assert_eq!(updates[0].1.event.as_deref(), Some("e"));
    assert_eq!(updates[1].0, 40);
    assert!(updates[1].1.new_names.is_empty() && updates[1].1.event.is_none());
    assert!(user_updates(&json("{}"), &msgs, &vec![10], 40).is_empty());
}

#[test]
fn texts_are_sent_with_codes() {
    let msgs = vec![said(7, 10, 1.0, "a")];
    assert_eq!(render_text("plain", &msgs, 512), "plain");
    assert_eq!(render_text("a[@10]b[@10]c[@11]", &msgs, 512), "[CQ:at,qq=10]abc[@11]");
    assert_eq!(render_text("a[@99]", &msgs, 512), "a");
    assert_eq!(render_text("[@010]x", &msgs, 512), "[CQ:at,qq=10]x");
    assert_eq!(render_text("[reply=7]x", &msgs, 512), "[CQ:reply,id=7]x");
    assert_eq!(render_text("[reply=8]x", &msgs, 512), "x");
    assert_eq!(render_text("[reply=7][@10]x", &msgs, 512), "[CQ:reply,id=7][CQ:at,qq=10]x");
    assert_eq!(render_text("[@99999999999999999999]x", &msgs, 512), "[@99999999999999999999]x");
    assert_eq!(render_text("[@१]x", &msgs, 512), "[@१]x");
    assert_eq!(render_text("abcdef", &msgs, 3), "abc...");
}

fn show(s: &Step) -> String {
    match s {
        Step::Pass => "pass".to_string(),
        Step::Say { text } => format!("say {text}"),
        Step::Show { message, action, words } => format!("show {message} {action} {words}"),
        Step::Poke { ids } => format!("poke {ids:?}"),
        Step::React { msg_id, emoji_id } => format!("react {msg_id} {emoji_id}"),
    }
}

#[test]
fn actions_become_steps() {
    let msgs = vec![said(7, 10, 1.0, "a")];
    let actions = parse_actions(&json(
        "{\"actions\":[\"hi\",{\"sticker\":{\"emotion\":\" e \",\"scene\":\"s\"}},{\"sticker\":{\"scene\":\"s\"}},{\"react\":[7,5]},{\"react\":[8,5]}]}",
    ));
    assert_eq!(sticker_indexes(&actions), vec![1, 2]);
    let hit = StickerHit {
        path: Some("/p".to_string()),
        sid: Some(4),
        all_sids: vec![4],
        old_multipliers: Vec::new(),
    };
    let hits = vec![None, Some(hit), Some(StickerHit::none()), None, None];
    let steps: Vec<String> =
        execute_actions(&actions, &hits, &msgs, 512).iter().map(show).collect();
    assert_eq!(
        steps,
        texts(&["say hi", "show [CQ:image,file=file:///p] 1 e/s", "react 7 5", "pass"])
    );
    assert_eq!(sent_message_id(&json("{\"message_id\":\"12\"}")), 12);
    assert_eq!(sent_message_id(&json("null")), 0);
}

#[test]
fn calls_and_replies() {
    let mut s = RpcSession::new();
    let call = RpcSession::send_group_msg(5, "hi");
    assert!(matches!(s.call("t", call), Err(RpcError::NotConnected)));
    s.connect();
    assert!(s.is_connected());
    let (id, text) = s.call("t", RpcSession::send_group_msg(5, "hi")).unwrap();
    assert_eq!(id, 1);
    assert_eq!(
        text,
        "{\"id\":1,\"jsonrpc\":\"2.0\",\"method\":\"send_group_msg\",\"params\":[\"t\",5,\"hi\"]}"
    );
    let (id2, _) = s.call("t", RpcSession::get_new_msgs()).unwrap();
    assert_eq!(id2, 2);
    assert!(s.on_text("nonsense").is_none());
    assert!(s.on_text("{\"id\":\"1\"}").is_none());
    assert!(s.on_text("{\"id\":9,\"result\":1}").is_none());
    let (to, answer) = s.on_text("{\"id\":1,\"result\":[7]}").unwrap();
    assert_eq!((to, answer.unwrap().text()), (1, "[7]".to_string()));
    assert!(s.on_text("{\"id\":1,\"result\":[7]}").is_none());
    let (to, answer) = s.on_text("{\"id\":2,\"error\":{\"message\":\"m\"}}").unwrap();
    assert_eq!(to, 2);
    assert_eq!(answer.unwrap_err().message(), "RPC请求错误: m");
    let (id3, _) = s.call("t", RpcSession::get_new_msgs()).unwrap();
    let (_, answer) = s.on_text("{\"id\":3,\"error\":{\"code\":1}}").unwrap();
    assert_eq!(answer.unwrap_err().message(), "RPC请求错误: {\"code\":1}");
    assert_eq!(id3, 3);
    let (id4, _) = s.call("t", RpcSession::get_new_msgs()).unwrap();
    let (id5, _) = s.call("t", RpcSession::get_new_msgs()).unwrap();
    let (others, e) = s.send_failed(id5);
    assert_eq!(others, vec![id4]);
    assert!(matches!(e, RpcError::Closed));
    assert!(!s.is_connected());
    s.connect();
    let (id6, _) = s.call("t", RpcSession::get_new_msgs()).unwrap();
    assert!(matches!(s.timed_out(id6), RpcError::Timeout));
    assert!(s.disconnect().is_empty());
    s.connect();
    s.next_id = i64::MAX;
    let (last, _) = s.call("t", RpcSession::get_new_msgs()).unwrap();
    assert_eq!((last, s.next_id), (i64::MAX, i64::MIN));
}

#[test]
fn procedures_and_their_arguments() {
    let args = |c: &autochat::rpc::Call| -> String {
        let parts: Vec<String> = c.args.iter().map(|a| a.text()).collect();
        format!("{} {}", c.method, parts.join(" "))
    };
    assert_eq!(args(&RpcSession::get_self_info(3)), "get_self_info 3");
    assert_eq!(args(&RpcSession::poke_group_member(3, 4)), "poke_group_member 3 4");
    assert_eq!(args(&RpcSession::set_msg_emoji_like(3, 4, "5")), "set_msg_emoji_like 3 4 \"5\"");
    assert_eq!(args(&RpcSession::get_group_history_msg(3, 20)), "get_group_history_msg 3 20");
    assert_eq!(args(&RpcSession::get_new_msgs()), "get_new_msgs ");
    assert_eq!(args(&RpcSession::query_embeddings(&texts(&["a"]), "m")), "query_embedding [\"a\"] \"m\"");
    let cfg = config("rpc: {port: 99}\nmodels: {a: [x]}");
    assert_eq!(server_url(&cfg), "ws://127.0.0.1:99");
    assert_eq!(server_url(&config("rpc: {host: h}")), "ws://h:555");
    assert_eq!(cfg_model(&cfg, "models").text(), "{\"a\":[\"x\"]}");
    assert!(cfg_model(&cfg, "none").is_null());
}

#[test]
fn failures_in_words() {
    assert_eq!(RpcError::NotConnected.message(), "RPC未连接");
    assert_eq!(RpcError::Closed.message(), "RPC连接已关闭");
    assert_eq!(RpcError::Timeout.message(), "RPC请求超时");
    assert_eq!(RpcError::Other("o".to_string()).message(), "o");
    let e = RpcError::Remote("r".to_string());
    assert_eq!(log::any_desc(&e), "RPC请求错误: r");
    assert_eq!(log::exc_desc("chain", Some(&e)), "RPC请求错误: r");
    assert_eq!(log::exc_desc("chain", Some(&RpcError::Other(String::new()))), "chain");
    assert_eq!(log::exc_desc("chain", None), "chain");
}

#[test]
fn log_lines() {
    let cfg = config("log_level: warning");
    assert_eq!(log::info(&cfg, "T", "m"), None);
    assert_eq!(log::warning(&cfg, "T", "m"), Some("[T][WARNING] m".to_string()));
    assert_eq!(log::error(&cfg, "T", "m"), Some("[T][ERROR] m".to_string()));
    assert_eq!(log::error_with_trace(&cfg, "T", "m", "e"), Some("[T][ERROR] m: e".to_string()));
    let odd = config("log_level: whatever");
    assert_eq!(log::debug(&odd, "T", "m"), None);
    assert!(log::info(&odd, "T", "m").is_some());
    assert!(log::debug(&config("log_level: Debug"), "T", "m").is_some());
    assert!(!log::enabled(&config("{}"), "DEBUG"));
    assert!(log::enabled(&config("{}"), "other"));
}

#[test]
fn course_of_an_answer() {
    let cfg = config("chat:\n  llm: {emb_model: v, model: big}\n  prompt: {framework: '{self_name}/{self_id}/{persona}: {recent_text}{em_text}{sm_text}{um_text}', persona: {default: nice}}\n");
    let mut board = PokeBoard::new();
    let db = FileDb::load(None);
    let started = Started::begin(said(3, 5, 8.0, "hello there"), &mut board);
    let weighing = started.on_self_info(9, "bot".to_string(), &db).unwrap();
    assert_eq!(weighing.terms(&cfg).0.len(), 1);
    let (status, reading) =
        weighing.on_willingness(bits_of(2.0), bits_of(50.0), &cfg, bits_of(0.9));
    assert_eq!(status.willingness, bits_of(1.0));
    assert_eq!(status.last_check_willing_time, Some(bits_of(50.0)));
    assert!(status.self_msg_ids.is_empty() && status.last_reply_time.is_none());
    let reading = reading.unwrap();
    assert_eq!(reading.history_call(&cfg).args[1].text(), "20");
    let wording = reading.on_history(&json("[]"), &board);
    assert_eq!(wording.recent.len(), 1);
    let summing = wording.on_text("words".to_string());
    let embedding = summing.on_summary(Some(&json("\"sum\""))).unwrap();
    assert_eq!(embedding.vectors_call(&cfg).args[0].text(), "[\"sum\",\"hello there\"]");
    let recalling = embedding.on_vectors(&json("[[1,2]]")).unwrap();
    let mem = MemorySystem {
        file_db: FileDb {
            data: json("{\"sms\":[{\"id\":\"1\",\"text\":\"t\"}],\"ums\":{\"5\":{\"profile\":\"p\"},\"6\":{\"names\":[\"llo\"]}}}"),
        },
    };
    let recalled = recalling.recalls(&mem, &cfg);
    assert_eq!(recalled.told, vec![6, 5]);
    let known: Vec<i64> = recalled.known.iter().map(|k| k.0).collect();
    assert_eq!(known, vec![6, 5]);
    let stamps = Stamps {
        events: texts(&["A", "B"]),
        said: texts(&["C"]),
        people: vec![Vec::new(), Vec::new()],
    };
    let asking =
        recalling.on_memories(vec![event("s1", "E1")], vec![event("l1", "E2")], recalled, &stamps);
    assert_eq!(asking.rewarded, texts(&["s1"]));
    assert_eq!((asking.summary.as_str(), asking.told.clone()), ("sum", vec![6, 5]));
    assert_eq!(asking.vector, vec![bits_of(1.0), bits_of(2.0)]);
    let request = asking.request(&cfg).unwrap();
    assert_eq!(
        request.prompt,
        "bot/9/nice: 以下是最近的聊天记录:\n```\nwords\n```可能与你当前聊天内容相关的记忆事件:\n```\nA: E1\nB: E2\n```\n你自己过去的回复记录供参考:\n```\nC [1]: t\n```\n你对聊天中的部分用户的记忆:\n```\n用户ID: 6\n  - 曾用名: llo\n\n用户ID: 5\n  - 简介: p\n```\n"
    );
    assert_eq!(
        request.options.text(),
        "{\"json_key_restraints\":[{\"key\":\"actions\",\"type\":\"list\"},{\"key\":\"user_updates\",\"type\":\"list\"}],\"json_reply\":true,\"max_tokens\":10240,\"timeout\":120.0}"
    );
    let acting = asking.on_reply(&json("{\"actions\":[\"ok\"],\"user_updates\":[{\"user_id\":5}]}"));
    assert_eq!(acting.updates.len(), 1);
    let steps: Vec<String> = acting.steps(&cfg, &vec![None]).iter().map(show).collect();
    assert_eq!(steps, texts(&["say ok"]));
    assert_eq!((acting.summary.as_str(), acting.rewarded.len()), ("sum", 1));
    let mut mem = mem;
    let sent = on_step(Vec::new(), &Step::Say { text: "ok".to_string() }, Some(&json("{\"message_id\":4}")));
    acting.remember(&mut mem, &vec![json("7.5")], &sent, &vec![json("8.5")], &cfg);
    assert_eq!(
        mem.file_db.data.text(),
        "{\"sms\":[{\"id\":\"1\",\"text\":\"t\"},{\"id\":\"4\",\"text\":\"ok\",\"time\":8.5}],\"ums\":{\"5\":{\"names\":[\"n5\"],\"profile\":\"p\",\"recent_events\":[]},\"6\":{\"names\":[\"llo\"]}}}"
    );
}

#[test]
fn an_answer_can_end_early() {
    let cfg = config("{}");
    let mut board = PokeBoard::new();
    let db = FileDb::load(None);
    let own_poke = Started::begin(poke(9, 5, 1.0), &mut board);
    assert!(own_poke.on_self_info(9, String::new(), &db).is_none());
    assert_eq!(board.collect_recent_pokes(1, bits_of(0.0)).len(), 1);
    let weighing = Started::begin(said(3, 5, 8.0, "x"), &mut board)
        .on_self_info(9, String::new(), &db)
        .unwrap();
    assert!(weighing.on_willingness(bits_of(0.0), bits_of(1.0), &cfg, bits_of(0.5)).1.is_none());
    let reading = Started::begin(said(3, 5, 8.0, "x"), &mut board)
        .on_self_info(9, String::new(), &db)
        .unwrap()
        .on_willingness(bits_of(1.0), bits_of(1.0), &cfg, bits_of(0.5))
        .1
        .unwrap();
    let summing = reading.on_history(&Json::Null, &board).on_text(String::new());
    assert_eq!(summing.on_summary(None).unwrap_err(), "生成聊天记录摘要失败，放弃聊天处理");
}
