use autochat::actions::{emoji_to_id, expand_action_item, Action};
use autochat::config::Config;
use autochat::events::{EventRow, Score};
use autochat::filedb::FileDb;
use autochat::json::Json;
use autochat::memory::MemorySystem;
use autochat::number::{parse_real, Real};
use autochat::rpc::RpcSession;
use autochat::settings::{
    calming, caption_limits, choose_root, history_delay, reconnect_interval, reply_pause,
    sticker_settings, voice_settings, Root,
};
use autochat::sticker::{
    apply_sticker_cache, sticker_candidates, EmbDb, SidText, StickerState,
};
use autochat::voice::{coarse_voice_candidates, VoiceClip};
use autochat::yaml::Yaml;

fn json(s: &str) -> Json {
    Json::parse(s).unwrap()
}

fn config(s: &str) -> Config {
    Config { mtime: None, data: Yaml::parse(s).unwrap() }
}

fn bits_of(x: f64) -> Real {
    Real { bits: x.to_bits() }
}

fn float(x: Real) -> f64 {
    f64::from_bits(x.bits)
}

#[test]
fn json_texts() {
    assert_eq!(Json::Null.text(), "null");
    assert_eq!(Json::Bool(true).text(), "true");
    assert_eq!(json("-12").text(), "-12");
    assert_eq!(json("18446744073709551615").text(), "18446744073709551615");
    assert_eq!(Json::whole(-43210).text(), "-43210.0");
    assert_eq!(Json::whole(0).text(), "0.0");
    assert_eq!(Json::whole(900719925474099).text(), "900719925474099.0");
    let odd = Json::str("a\"b\\c\n\r\t\u{8}\u{c}\u{1}\u{1f}\u{7f}/你");
    assert_eq!(
        odd.text(),
        "\"a\\\"b\\\\c\\n\\r\\t\\b\\f\\u0001\\u001f\u{7f}/你\""
    );
    assert_eq!(json(" [ 1 , \"x\" , [ ] , { } ] ").text(), "[1,\"x\",[],{}]");
    assert_eq!(json("{\"b\":[true],\"a\":null}").text(), "{\"a\":null,\"b\":[true]}");
}

#[test]
fn plain_values_where_a_text_was_expected() {
    let said = |s: &str| match expand_action_item(&json(s)).pop() {
        Some(Action::Text { text }) => text,
        _ => String::new(),
    };
    assert_eq!(said("{\"text\":12}"), "12");
    assert_eq!(said("{\"text\":true}"), "true");
    assert_eq!(said("{\"text\":[1,null]}"), "[1,null]");
    assert_eq!(emoji_to_id(&json("[1]")), None);
}

#[test]
fn requests_as_texts() {
    let mut s = RpcSession::new();
    s.connect();
    let (_, text) = s.call("a\"b", RpcSession::poke_group_member(-3, 4)).unwrap();
    assert_eq!(
        text,
        "{\"id\":1,\"jsonrpc\":\"2.0\",\"method\":\"poke_group_member\",\"params\":[\"a\\\"b\",-3,4]}"
    );
}

#[test]
fn long_integers_are_rounded() {
    for i in [
        9007199254740992i64,
        9007199254740993,
        9007199254740995,
        i64::MAX,
        i64::MIN,
        -9007199254740993,
        18014398509481986,
        4611686018427387903,
    ] {
        assert_eq!(json(&i.to_string()).as_real(), Some(bits_of(i as f64)));
    }
    let all = u64::MAX;
    assert_eq!(json(&all.to_string()).as_real(), Some(bits_of(all as f64)));
}

#[test]
fn decimals_and_what_is_not_finite() {
    assert_eq!(parse_real("1.5").map(float), Some(1.5));
    assert_eq!(parse_real("inf").map(float), Some(f64::INFINITY));
    assert!(float(parse_real("NaN").unwrap()).is_nan());
    assert_eq!(parse_real("x"), None);
    assert_eq!(Json::decimal("1.5").text(), "1.5");
    assert!(Json::decimal("1e999").is_null() && Json::decimal("x").is_null());
}

#[test]
fn numbers_in_files() {
    let again = |v: Json| {
        let mut db = FileDb::load(None);
        db.set("x", v);
        FileDb::load(Some(&db.save())).get("x").as_real().map(float)
    };
    let number = |x: f64| Json::Number(serde_json::Number::from_f64(x).unwrap());
    assert_eq!(again(number(0.25)), Some(0.25));
    assert_eq!(again(number(-0.0)).map(f64::to_bits), Some((-0.0f64).to_bits()));
    assert_ne!(again(number(31.245270191439438)), Some(31.245270191439438));
    let great = again(number(8.9e307)).unwrap();
    assert!((great / 8.9e307 - 1.0).abs() < 1e-12);
    assert!(again(number(5e-324)).is_some());
    assert!(again(number(1e300)).is_some());
}

#[test]
fn too_deep_a_store_comes_back_empty() {
    let nested = |n: usize| {
        let mut v = Json::Null;
        for _ in 0..n {
            v = Json::Array(vec![v]);
        }
        let mut db = FileDb::load(None);
        db.set("x", v);
        FileDb::load(Some(&db.save())).data.text().len()
    };
    assert!(nested(126) > 2);
    assert_eq!(nested(127), 2);
}

#[test]
fn numbers_of_the_configuration() {
    let none = config("{}");
    let c = calming(&none);
    assert_eq!((float(c.per_minute), float(c.factor), float(c.amount)), (0.005, 0.6, 0.5));
    assert_eq!(history_delay(&none), None);
    assert_eq!(float(reply_pause(&none)), 1.0);
    let s = sticker_settings(&none);
    assert_eq!((float(s.penalty), float(s.recovery)), (0.8, 0.2));
    assert_eq!((float(s.threshold), float(s.wait)), (0.7, 5.0));
    let v = voice_settings(&none);
    assert_eq!((v.limit, float(v.min_jaccard), float(v.min_len_ratio)), (40, 0.15, 0.5));
    assert_eq!((float(v.timeout), float(v.match_timeout)), (15.0, 8.0));
    let l = caption_limits(&none);
    assert_eq!((float(l.image_limit), float(l.image_prob)), (1.0, 1.0));
    assert_eq!((float(l.emotion_limit), float(l.emotion_prob)), (1.0, 0.2));
    assert_eq!(float(reconnect_interval(&none)), 5.0);
    let odd = config("chat: {reply_interval_seconds: -2, get_history_msg_delay_seconds: 3, sticker: {timeout: 0}}");
    assert_eq!(float(reply_pause(&odd)), 0.0);
    assert_eq!(history_delay(&odd).map(float), Some(3.0));
    assert_eq!(float(sticker_settings(&odd).wait), 0.1);
}

#[test]
fn where_the_program_works() {
    let no = |n: usize| vec![false; n];
    let mut far = no(12);
    far[8] = true;
    assert!(matches!(choose_root(Some("/r".to_string()), &vec![true], &no(0)), Root::Named(p) if p == "/r"));
    assert!(matches!(choose_root(None, &vec![false, true, true], &vec![true]), Root::Above(1)));
    assert!(matches!(choose_root(None, &far, &far), Root::AboveProgram(8)));
    assert!(matches!(choose_root(None, &far, &no(10)), Root::Here));
    far[8] = false;
    far[10] = true;
    assert!(matches!(choose_root(None, &no(8), &far), Root::Here));
}

#[test]
fn a_vector_is_replaced() {
    let mut db = EmbDb::new();
    db.insert("a", vec![1]);
    db.insert("b", vec![2]);
    db.insert("a", vec![3]);
    assert_eq!(db.entries().len(), 2);
    assert_eq!(db.get("a"), Some(&vec![3]));
    assert_eq!(db.get("b"), Some(&vec![2]));
    assert_eq!(db.get("c"), None);
}

#[test]
fn what_is_read_before_a_search() {
    let mut st = StickerState::new();
    let db = EmbDb::new();
    assert!(st.reads_vectors(true) && !st.reads_vectors(false));
    assert!(st.reads_captions(true, Some(&db)) && !st.reads_captions(true, None));
    assert!(st.start_sticker_job());
    assert!(!st.reads_vectors(true) && !st.reads_captions(true, Some(&db)));
}

#[test]
fn candidates_are_the_best_of_their_captions() {
    let caption = |sid: i64, text: &str| SidText {
        sid,
        text: text.to_string(),
        path: Some(text.to_string()),
    };
    let captions = vec![caption(1, "a"), caption(2, "b"), caption(1, "c"), caption(1, "d"), caption(3, "e")];
    let mut db = EmbDb::new();
    for c in &captions {
        db.insert(&format!("{}:{}", c.sid, c.text), vec![1]);
        db.insert(&format!("e:{}:{}", c.sid, c.text), vec![1]);
    }
    let cache = apply_sticker_cache(&captions, &db);
    let emotion: Vec<Real> = [0.9, 0.9, 0.8, 0.1, 0.1].iter().map(|x| bits_of(*x)).collect();
    let full: Vec<Real> = [0.2, 0.5, 0.4, 0.9, 0.9].iter().map(|x| bits_of(*x)).collect();
    let found = sticker_candidates(&cache, &emotion, &full, bits_of(0.7));
    let all: Vec<(i64, f64, &str)> =
        found.iter().map(|c| (c.sid, float(c.score), c.path.as_str())).collect();
    assert_eq!(all, vec![(1, 0.4, "c"), (2, 0.5, "b")]);
}

#[test]
fn the_nearest_events_by_several_questions() {
    let row = |id: &str| EventRow {
        id: id.to_string(),
        text: String::new(),
        mem_type: "short_term".to_string(),
        weight: 0,
        created_at: bits_of(0.0),
    };
    let rows: Vec<EventRow> = ["a", "b", "c", "d", "e"].iter().map(|s| row(s)).collect();
    let ask = |all: [f64; 5]| -> Vec<Score> {
        all.iter()
            .map(|x| Score { distance: bits_of(*x), adjusted: bits_of(*x), penalty: bits_of(0.0) })
            .collect()
    };
    let questions = vec![ask([5.0, 1.0, 4.0, 3.0, 2.0]), ask([0.5, 9.0, 8.0, 7.0, 1.5])];
    let near = |n: usize| -> Vec<(String, f64)> {
        MemorySystem::em_query(&rows, &questions, n)
            .into_iter()
            .map(|m| (m.id, float(m.adjusted_distance)))
            .collect()
    };
    let want = |list: &[(&str, f64)]| -> Vec<(String, f64)> {
        list.iter().map(|(s, x)| (s.to_string(), *x)).collect()
    };
    assert_eq!(near(1), want(&[("a", 0.5)]));
    assert_eq!(near(3), want(&[("a", 0.5), ("b", 1.0), ("e", 1.5)]));
    assert_eq!(near(9).len(), 5);
}

#[test]
fn the_best_clips_are_chosen() {
    let clip = |vid: i64| VoiceClip { vid, tag: format!("t{vid}"), path: format!("p{vid}") };
    let clips: Vec<VoiceClip> = (0..5).map(clip).collect();
    let scores: Vec<(Real, Real)> =
        [(0.2, 0.1), (0.1, 0.9), (0.2, 0.3), (0.0, 0.1), (0.9, 0.0)]
            .iter()
            .map(|(a, b)| (bits_of(*a), bits_of(*b)))
            .collect();
    let chosen = |limit: usize| -> Vec<i64> {
        coarse_voice_candidates("q", &clips, &scores, limit, bits_of(0.15), bits_of(0.5))
            .iter()
            .map(|c| c.vid as i64)
            .collect()
    };
    assert_eq!(chosen(9), vec![4, 2, 0, 1]);
    assert_eq!(chosen(2), vec![4, 2]);
    assert_eq!(chosen(0), vec![4]);
    assert!(coarse_voice_candidates("", &clips, &scores, 9, bits_of(0.15), bits_of(0.5)).is_empty());
}
