use autochat::config::Config;
use autochat::filedb::FileDb;
use autochat::format::{
    caption_outcome, debug_mode, format_msg, format_msgs, format_order, generate_summary,
    get_image_caption, json_msg_to_readable_text, message_images, summary_outcome, CaptionCount,
    CaptionLimits, CaptionStep,
};
use autochat::json::Json;
use autochat::number::{Real, ONE_BITS};
use autochat::patterns::{find_at, find_reply, match_chars, number_in, remove_marks};
use autochat::sticker::{
    absorb_batch, apply_sticker_cache, batch_request, batches, candidate_sids, collect_sid_texts,
    emb_db_usable, missing_indices, parse_embeddings, retain_used, search_sticker,
    sticker_candidates, sticker_query_texts, EmbDb, Preparation, SidText, StickerHit, StickerState,
};
use autochat::types::Message;
use autochat::voice::{
    after_pick, after_synthesis, coarse_voice_candidates, jaccard, len_ratio, parse_match_index,
    parse_voice_db, pick_reply, pick_request, picks_directly, plain_tts_text,
    prefetch_voice_timeout, resolve_voice_action, synth_path, tts_model_configured, VoiceClip,
    VoiceFile, VoiceHit, VoiceState,
};
use autochat::yaml::Yaml;

fn json(s: &str) -> Json {
    Json::parse(s).unwrap()
}

fn config(s: &str) -> Config {
    Config { mtime: None, data: Yaml::parse(s).unwrap() }
}

fn bits_of(x: f64) -> Real {
    Real { bits: x.to_bits() }
}

fn texts(items: &[&str]) -> Vec<String> {
    items.iter().map(|s| s.to_string()).collect()
}

const LIBRARY: &str = "{\"stickers\":{\"1\":{\"path\":\"p1\",\"caption\":[{\"emotion\":\"joy\",\"scene\":\"sun\"},{\"scene\":\"rain\"},{}]},\"x\":{\"caption\":\"alone\"},\"3\":{\"path\":\"p3\"}}}";

fn library() -> Vec<SidText> {
    collect_sid_texts(LIBRARY).unwrap()
}

#[test]
fn captions_of_a_library() {
    let items: Vec<String> =
        library().iter().map(|c| format!("{}|{}|{:?}", c.sid, c.text, c.path)).collect();
    assert_eq!(
        items,
        texts(&["1|joy,sun|Some(\"p1\")", "1|rain|Some(\"p1\")", "0|alone|None"])
    );
    assert!(collect_sid_texts("{").is_none());
    assert!(collect_sid_texts("{\"stickers\":[]}").unwrap().is_empty());
}

#[test]
fn vectors_by_key() {
    let mut db = EmbDb::new();
    assert!(db.get("k").is_none());
    db.insert("k", vec![1]);
    db.insert("k", vec![2]);
    assert_eq!(db.get("k"), Some(&vec![2]));
    assert_eq!(db.entries().len(), 1);
}

#[test]
fn captions_get_their_vectors_in_batches() {
    let captions = library();
    let mut db = EmbDb::new();
    db.insert("1:joy,sun", vec![9]);
    db.insert("stray", vec![0]);
    let missing = missing_indices(&captions, &db);
    assert_eq!(missing, vec![0, 1, 2]);
    let (full, emo) = batch_request(&captions, &missing);
    assert_eq!(full, texts(&["joy,sun", "rain", "alone"]));
    assert_eq!(emo, texts(&["joy", "rain", "alone"]));
    absorb_batch(&mut db, &captions, &missing, &vec![vec![1], vec![2]], &vec![vec![3], vec![4], vec![5]]);
    assert_eq!(db.get("1:joy,sun"), Some(&vec![1]));
    assert_eq!(db.get("e:1:rain"), Some(&vec![4]));
    assert_eq!(missing_indices(&captions, &db), vec![2]);
    let cache = apply_sticker_cache(&captions, &db);
    assert_eq!(cache.len(), 2);
    assert_eq!((cache[0].path.as_str(), cache[1].full_emb.clone()), ("p1", vec![2]));
    let kept = retain_used(&captions, &db);
    assert!(kept.get("stray").is_none());
    assert_eq!(kept.get("e:1:joy,sun"), Some(&vec![3]));
    let many: Vec<usize> = (0..23).collect();
    let sizes: Vec<usize> = batches(&many).iter().map(|b| b.len()).collect();
    assert_eq!(sizes, vec![10, 10, 3]);
    assert!(batches(&Vec::new()).is_empty());
}

#[test]
fn vectors_in_replies() {
    let v = parse_embeddings(&json("[[1,2],[0.5]]")).unwrap();
    assert_eq!(v, vec![vec![bits_of(1.0), bits_of(2.0)], vec![bits_of(0.5)]]);
    assert_eq!(parse_embeddings(&json("{}")).unwrap_err(), "embedding 返回不是数组");
    assert_eq!(parse_embeddings(&json("[[1],[\"x\"]]")).unwrap_err(), "embedding 向量解析失败");
}

#[test]
fn best_sticker_wins() {
    let captions = library();
    let mut db = EmbDb::new();
    for c in &captions {
        db.insert(&format!("{}:{}", c.sid, c.text), vec![1]);
        db.insert(&format!("e:{}:{}", c.sid, c.text), vec![1]);
    }
    let cache = apply_sticker_cache(&captions, &db);
    let emotion: Vec<Real> = [0.9, 0.8, 0.2].iter().map(|x| bits_of(*x)).collect();
    let full: Vec<Real> = [0.6, 0.9, 0.99].iter().map(|x| bits_of(*x)).collect();
    let found = sticker_candidates(&cache, &emotion, &full, bits_of(0.7));
    assert_eq!(found.len(), 1);
    assert_eq!((found[0].sid, found[0].score), (1, bits_of(0.9)));
    assert_eq!(candidate_sids(&found), vec![1]);
    let old = vec![(1, bits_of(1.0))];
    let (hit, ok) = search_sticker(&found, &vec![bits_of(0.9)], old.clone(), bits_of(0.7));
    assert!(ok);
    assert_eq!((hit.path.as_deref(), hit.sid, hit.all_sids.clone()), (Some("p1"), Some(1), vec![1]));
    let (hit, ok) = search_sticker(&found, &vec![bits_of(0.5)], old, bits_of(0.7));
    assert!(!ok);
    assert!(hit.path.is_none() && hit.all_sids.is_empty());
    let none = StickerHit::none();
    assert!(none.sid.is_none() && none.old_multipliers.is_empty());
    assert_eq!(
        sticker_query_texts(&json("{\"emotion\":\"joy\",\"scene\":\"sun\"}")),
        ("joy,sun".to_string(), "joy".to_string())
    );
    assert_eq!(sticker_query_texts(&json("{\"scene\":\"sun\"}")), ("sun".to_string(), String::new()));
}

#[test]
fn groups_tire_of_stickers() {
    let mut st = StickerState::new();
    assert_eq!(st.get_sticker_multiplier(1, 5), Real { bits: ONE_BITS });
    st.update_sticker_multipliers(
        1,
        Some(5),
        &vec![5, 6],
        &vec![bits_of(-0.3), bits_of(0.1)],
        &vec![bits_of(1.4), bits_of(1.2)],
    );
    assert_eq!(st.get_sticker_multiplier(1, 5), bits_of(0.0));
    assert_eq!(st.get_sticker_multiplier(1, 6), bits_of(1.0));
    assert_eq!(st.get_sticker_multiplier(2, 5), bits_of(1.0));
    st.update_sticker_multipliers(1, None, &vec![5], &vec![bits_of(-0.8)], &vec![bits_of(0.2)]);
    assert_eq!(st.get_sticker_multiplier(1, 5), bits_of(0.2));
}

#[test]
fn search_is_prepared() {
    let captions = library();
    let mut db = EmbDb::new();
    db.insert("0:alone", vec![1]);
    db.insert("e:0:alone", vec![1]);
    let mut st = StickerState::new();
    let t = bits_of(3.0);
    assert_eq!(st.prepare_sticker_search(false, Some(&db), Some(&captions), t), Preparation::Nothing);
    assert_eq!(st.prepare_sticker_search(true, None, Some(&captions), t), Preparation::Rebuild);
    assert_eq!(st.prepare_sticker_search(true, Some(&db), None, t), Preparation::Rebuild);
    assert!(st.start_sticker_job());
    assert!(!st.start_sticker_job());
    assert!(st.sticker_job_running());
    assert_eq!(st.prepare_sticker_search(true, Some(&db), Some(&captions), t), Preparation::Busy);
    assert!(!st.schedule_sticker_fill(Some(&db), Some(&captions)));
    st.finish_sticker_job();
    assert!(st.schedule_sticker_fill(Some(&db), Some(&captions)));
    assert!(!st.schedule_sticker_fill(None, Some(&captions)));
    assert_eq!(st.prepare_sticker_search(true, Some(&db), Some(&captions), t), Preparation::Ready);
    assert_eq!((st.cache.len(), st.cache_mtime), (1, t));
    let kept = st.commit_sticker_cache(&captions, &db, bits_of(4.0));
    assert_eq!(kept.get("0:alone"), Some(&vec![1]));
    assert_eq!(st.cache_mtime, bits_of(4.0));
    assert!(st.load_memory_from_disk(Some(&db), None, t));
    assert!(emb_db_usable(Some(("m".to_string(), EmbDb::new())), "m").is_some());
    assert!(emb_db_usable(Some(("m".to_string(), EmbDb::new())), "n").is_none());
    assert!(emb_db_usable(None, "n").is_none());
}

#[test]
fn marks_are_found_and_removed() {
    let pair = |a: &str, b: &str| Some((a.to_string(), b.to_string()));
    assert_eq!(find_at("x[@12]y[@3]"), pair("[@12]", "12"));
    assert_eq!(find_at("[@][@x][@ 1]"), None);
    assert_eq!(find_at("[@१२]"), pair("[@१२]", "१२"));
    assert_eq!(find_reply("a[reply=-5]"), pair("[reply=-5]", "-5"));
    assert_eq!(find_reply("[reply=--5][reply=7]"), pair("[reply=7]", "7"));
    assert_eq!(remove_marks("a[@1]b[reply=2]c[@x]"), "abc[@x]");
    assert_eq!(remove_marks("[@[@1]2]"), "[@2]");
    assert_eq!(number_in("no. -12.5"), Some("-12".to_string()));
    assert_eq!(number_in("--7"), Some("-7".to_string()));
    assert_eq!(number_in("none"), None);
    assert_eq!(match_chars("你好, World-9！é"), "你好World9");
}

#[test]
fn spoken_text() {
    assert_eq!(plain_tts_text(" [@1] hi\r\nthere [reply=5]  you "), "hi there you");
    assert_eq!(plain_tts_text("[@1]"), "");
}

#[test]
fn likeness_of_texts() {
    assert_eq!(jaccard("aab", "bbc"), Some((1, 3)));
    assert_eq!(jaccard("abc", "cab"), Some((3, 3)));
    assert_eq!(jaccard("", "a"), None);
    assert_eq!(len_ratio("你好", "abc"), Some((2, 3)));
    assert_eq!(len_ratio("a", ""), None);
}

fn clip(vid: i64, tag: &str) -> VoiceClip {
    VoiceClip { vid, path: format!("/{vid}"), tag: tag.to_string() }
}

#[test]
fn clips_in_question() {
    let clips = vec![clip(1, "a"), clip(2, "b"), clip(3, "c"), clip(4, "d")];
    let scores: Vec<(Real, Real)> = [(0.1, 0.1), (0.2, 0.9), (0.9, 0.1), (0.0, 0.6)]
        .iter()
        .map(|(a, b)| (bits_of(*a), bits_of(*b)))
        .collect();
    let pick = |limit: usize| -> Vec<i64> {
        coarse_voice_candidates("q", &clips, &scores, limit, bits_of(0.15), bits_of(0.5))
            .iter()
            .map(|c| c.vid)
            .collect()
    };
    assert_eq!(pick(9), vec![3, 2, 4]);
    assert_eq!(pick(2), vec![3, 2]);
    assert_eq!(pick(0), vec![3]);
    assert!(coarse_voice_candidates("", &clips, &scores, 9, bits_of(0.0), bits_of(0.0)).is_empty());
}

#[test]
fn choice_among_clips() {
    assert_eq!(parse_match_index("answer: 2.", 3), 2);
    assert_eq!(parse_match_index("4", 3), 0);
    assert_eq!(parse_match_index("-1", 3), 0);
    assert_eq!(parse_match_index("x", 3), 0);
    assert_eq!(parse_match_index("99999999999999999999", 3), 0);
    assert_eq!(pick_reply(&json("\" 3 \""), 3), Some(2));
    assert_eq!(pick_reply(&json("1"), 3), Some(0));
    assert_eq!(pick_reply(&json("\"0\""), 3), None);
    let one = vec![clip(1, "a")];
    assert!(picks_directly(&one, bits_of(0.8)));
    assert!(!picks_directly(&one, bits_of(0.79)));
    assert!(!picks_directly(&vec![clip(1, "a"), clip(2, "b")], bits_of(1.0)));
    let cfg = config("chat: {voice: {model: [m], prompt: 'T={text} C={candidates}', max_tokens: 9}}");
    let req = pick_request(&cfg, "hi", &vec![clip(1, "a"), clip(2, "{text}")]).unwrap();
    assert_eq!(req.prompt, "T=hi C=1. a\n2. {text}");
    assert_eq!(req.model.text(), "[\"m\"]");
    assert_eq!(req.options.text(), "{\"max_tokens\":9,\"timeout\":8.0}");
    assert!(pick_request(&cfg, "hi", &Vec::new()).is_none());
    assert!(pick_request(&config("chat: {voice: {model: [], prompt: p}}"), "hi", &one).is_none());
    assert!(pick_request(&config("chat: {voice: {prompt: p}}"), "hi", &one).is_none());
    assert!(pick_request(&config("chat: {voice: {model: m, prompt: ' '}}"), "hi", &one).is_none());
}

#[test]
fn something_to_say() {
    let clips = vec![clip(1, "hi there"), clip(2, "hi there")];
    assert!(matches!(resolve_voice_action("[@3]", &clips), Some(VoiceHit::Skip)));
    assert!(matches!(resolve_voice_action(" hi  there", &clips), Some(VoiceHit::File(p)) if p == "/1"));
    assert!(resolve_voice_action("other", &clips).is_none());
    assert!(matches!(after_pick("x", Some(&clips[1]), true), Some(VoiceHit::File(p)) if p == "/2"));
    assert!(matches!(after_pick(" x ", None, false), Some(VoiceHit::Text(t)) if t == "x"));
    assert!(after_pick("x", None, true).is_none());
    assert_eq!(synth_path(&json("{\"path\":\"/f\"}")), "/f");
    assert_eq!(synth_path(&json("{\"path\":1}")), "");
    assert!(matches!(after_synthesis("x", "/f", true), VoiceHit::File(p) if p == "/f"));
    assert!(matches!(after_synthesis("x", "/f", false), VoiceHit::Text(t) if t == "x"));
    assert!(matches!(after_synthesis("x", "", true), VoiceHit::Text(t) if t == "x"));
    assert!(matches!(prefetch_voice_timeout(" "), VoiceHit::Skip));
    assert!(matches!(prefetch_voice_timeout("a b"), VoiceHit::Text(t) if t == "a b"));
    assert!(tts_model_configured(&config("chat: {voice: {tts_model: m}}")));
    assert!(!tts_model_configured(&config("chat: {voice: {tts_model: ' '}}")));
    assert!(!tts_model_configured(&config("{}")));
}

#[test]
fn clips_are_read_when_their_file_changes() {
    let listed = parse_voice_db(
        "{\"voices\":{\"a\":{\"path\":\" p \",\"tag\":\" t \",\"vid\":4},\"b\":{\"path\":\"q\"},\"c\":{\"path\":\"r\",\"tag\":\"u\",\"vid\":\"5\"}}}",
    )
    .unwrap();
    assert_eq!(listed.len(), 2);
    assert_eq!((listed[0].vid, listed[0].path.as_str(), listed[0].tag.as_str()), (4, "p", "t"));
    assert_eq!(listed[1].vid, 0);
    assert!(parse_voice_db("nope").is_none());
    let mut st = VoiceState::new();
    assert_eq!(st.load_voice_clips(Some(bits_of(1.0)), true), VoiceFile::Read);
    st.accept_clips(&listed, &vec![None, Some("/r".to_string())], bits_of(1.0));
    assert_eq!(st.clips.len(), 1);
    assert_eq!((st.clips[0].path.as_str(), st.clips[0].tag.as_str()), ("/r", "u"));
    assert_eq!(st.load_voice_clips(Some(bits_of(1.0)), true), VoiceFile::Keep);
    assert_eq!(st.load_voice_clips(Some(bits_of(2.0)), true), VoiceFile::Read);
    assert_eq!(st.load_voice_clips(None, true), VoiceFile::Keep);
    assert_eq!(st.clips.len(), 1);
    assert_eq!(st.load_voice_clips(None, false), VoiceFile::Keep);
    assert!(st.clips.is_empty() && st.mtime.is_none());
}

fn message(s: &str) -> Message {
    Message::from_json(&json(s), Some(1)).unwrap()
}

#[test]
fn cards_in_words() {
    let card = |s: &str| json_msg_to_readable_text(&json(s));
    assert_eq!(
        card("{\"data\":\"{\\\"meta\\\":{\\\"detail_1\\\":{\\\"title\\\":\\\"T\\\",\\\"desc\\\":\\\"D\\\"}}}\",\"prompt\":\"P\"}"),
        "[T分享:D]"
    );
    assert_eq!(card("{\"data\":\"{\",\"prompt\":\"P\"}"), "[转发消息:P]");
    assert_eq!(card("{\"data\":\"{}\"}"), "[转发消息]");
}

#[test]
fn messages_in_words() {
    let m = message("{\"msg_id\":5,\"user_id\":6,\"nickname\":\"n\",\"msg\":[{\"type\":\"text\",\"data\":{\"text\":\"a \"}},{\"type\":\"at\",\"data\":{\"qq\":7}},{\"type\":\"reply\",\"data\":{\"id\":\"8\"}},{\"type\":\"image\",\"data\":{}},{\"type\":\"face\"},{\"type\":\"video\"},{\"type\":\"audio\"},{\"type\":\"file\"},{\"type\":\"forward\"},{\"type\":\"json\"},{\"type\":\"odd\"},{\"type\":\"image\",\"data\":{\"sub_type\":1}},{\"type\":\"text\",\"data\":{\"text\":\" \"}}]}");
    assert_eq!(message_images(&m).len(), 2);
    assert_eq!(
        format_msg(&m, "S", &texts(&["<1>", "<2>"]), 1),
        "S [5] n(6):\na [@7][reply=8]<1>[表情][视频][音频][文件][转发聊天记录][转发消息]<2>"
    );
    let p = message("{\"user_id\":6,\"nickname\":\"n\",\"msg\":[{\"type\":\"text\",\"data\":{\"text\":\"gone\"}},{\"type\":\"poke\",\"data\":{\"target_id\":1}},{\"type\":\"text\",\"data\":{\"text\":\"!\"}}]}");
    assert_eq!(format_msg(&p, "S", &Vec::new(), 1), "S n(6) 戳了戳 你!");
    assert_eq!(format_msg(&p, "S", &Vec::new(), 2), "S n(6) 戳了戳 1(1)!");
}

#[test]
fn messages_stand_in_order_of_time() {
    let msgs = vec![
        message("{\"time\":2,\"msg_id\":1}"),
        message("{\"time\":3,\"msg_id\":2}"),
        message("{\"time\":1,\"msg_id\":3}"),
    ];
    assert_eq!(format_order(&msgs), vec![1, 0, 2]);
    let stamps = texts(&["b", "c", "a"]);
    let captions = vec![Vec::new(), Vec::new(), Vec::new()];
    assert_eq!(
        format_msgs(&msgs, &stamps, &captions, 0),
        "a [3] (0):\nb [1] (0):\nc [2] (0):"
    );
}

#[test]
fn captions_of_pictures() {
    let cfg = config("image_caption: {prompt: 'what {sub_type}?', model: m, timeout: 7}");
    let mut db = FileDb::load(None);
    let data = json("{\"file_unique\":\"k\",\"url\":\"u\",\"summary\":\"s\"}");
    assert!(matches!(get_image_caption(&cfg, &db, &data, false), CaptionStep::Done(s) if s == "[图片:s]"));
    match get_image_caption(&cfg, &db, &data, true) {
        CaptionStep::Ask(r) => {
            assert_eq!(r.prompt, "what 图片?");
            assert_eq!(r.images.len(), 1);
            assert_eq!(r.options.text(), "{\"max_tokens\":2048,\"timeout\":7.0}");
        }
        _ => panic!(),
    }
    assert_eq!(caption_outcome(&mut db, &data, None), "[图片:s]");
    assert_eq!(caption_outcome(&mut db, &data, Some(&json("5"))), "[图片:s]");
    assert_eq!(db.data.text(), "{}");
    assert_eq!(caption_outcome(&mut db, &data, Some(&json("\"a cat\""))), "[图片:a cat]");
    assert!(matches!(get_image_caption(&cfg, &db, &data, true), CaptionStep::Done(s) if s == "[图片:a cat]"));
    let bare = json("{\"sub_type\":\"1\",\"url\":null}");
    assert!(matches!(get_image_caption(&cfg, &db, &bare, false), CaptionStep::Done(s) if s == "[表情]"));
    let odd = config("image_caption: {prompt: '{sub_type} {'}");
    match get_image_caption(&odd, &db, &bare, true) {
        CaptionStep::Ask(r) => {
            assert_eq!(r.prompt, "表情 {");
            assert!(r.images.is_empty() && r.model.is_null());
        }
        _ => panic!(),
    }
}

#[test]
fn captions_are_limited() {
    let limits = CaptionLimits {
        image_limit: bits_of(1.5),
        image_prob: bits_of(0.5),
        emotion_limit: bits_of(1.0),
        emotion_prob: bits_of(1.0),
    };
    let mut count = CaptionCount { images: 0, emotions: 0 };
    let image = json("{}");
    let emotion = json("{\"sub_type\":1}");
    assert!(count.use_llm(&limits, &image, bits_of(0.4)));
    assert!(count.use_llm(&limits, &image, bits_of(0.4)));
    assert!(!count.use_llm(&limits, &image, bits_of(0.4)));
    assert!(count.use_llm(&limits, &emotion, bits_of(0.9)));
    assert!(!count.use_llm(&limits, &emotion, bits_of(0.9)));
    assert_eq!(count, CaptionCount { images: 3, emotions: 2 });
    let mut fresh = CaptionCount { images: 0, emotions: 0 };
    assert!(!fresh.use_llm(&limits, &image, bits_of(0.5)));
}

#[test]
fn summaries() {
    let cfg = config("summary: {prompt: 'sum: {text}', max_tokens: 5}");
    let r = generate_summary(&cfg, "abc").unwrap();
    assert_eq!(r.prompt, "sum: abc");
    assert_eq!(r.options.text(), "{\"max_tokens\":5,\"timeout\":60.0}");
    assert_eq!(
        generate_summary(&config("summary: {prompt: '{x}'}"), "abc").unwrap_err().message(),
        "配置 format 缺少字段: x"
    );
    assert_eq!(summary_outcome(Some(&json("\"s\""))), "s");
    assert_eq!(summary_outcome(Some(&json("[\"s\"]"))), "");
    assert_eq!(summary_outcome(None), "");
    assert!(debug_mode(&config("log_level: debug")));
    assert!(!debug_mode(&config("{}")));
}
