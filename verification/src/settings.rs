//! The numbers that the configuration sets, with their defaults, and where it is looked for.

use crate::chat::FIVE_THOUSANDTHS_BITS;
use crate::config::Config;
use crate::format::CaptionLimits;
use crate::number::{Real, ONE_BITS};
use crate::recall::count_at;
use crate::rpc::{FIVE_BITS, TENTH_BITS};
use vstd::prelude::*;

verus! {

/// The bit pattern of the number nearest to 0.15.
pub const FIFTEEN_HUNDREDTHS_BITS: u64 = 0x3fc3_3333_3333_3333;

/// The bit pattern of the number nearest to 0.2.
pub const FIFTH_BITS: u64 = 0x3fc9_9999_9999_999a;

/// The bit pattern of the number 0.5.
pub const HALF_BITS: u64 = 0x3fe0_0000_0000_0000;

/// The bit pattern of the number nearest to 0.6.
pub const SIX_TENTHS_BITS: u64 = 0x3fe3_3333_3333_3333;

/// The bit pattern of the number nearest to 0.7.
pub const SEVEN_TENTHS_BITS: u64 = 0x3fe6_6666_6666_6666;

/// The bit pattern of the number nearest to 0.8.
pub const EIGHT_TENTHS_BITS: u64 = 0x3fe9_9999_9999_999a;

/// The bit pattern of the number eight.
pub const EIGHT_BITS: u64 = 0x4020_0000_0000_0000;

/// The bit pattern of the number fifteen.
pub const FIFTEEN_BITS: u64 = 0x402e_0000_0000_0000;

/// How the willingness falls: each minute, and after an answer by a factor and then by an amount.
#[derive(Clone, Copy, Debug, PartialEq, Eq, Structural)]
pub struct Calming {
    pub per_minute: Real,
    pub factor: Real,
    pub amount: Real,
}

/// How the willingness falls.
pub fn calming(cfg: &Config) -> (res: Calming)
    ensures
        res == (Calming {
            per_minute: cfg.real_at(
                "chat.willing.decrease_per_minute"@,
                Real { bits: FIVE_THOUSANDTHS_BITS },
            ),
            factor: cfg.real_at(
                "chat.willing.decay_after_send"@,
                Real { bits: SIX_TENTHS_BITS },
            ),
            amount: cfg.real_at("chat.willing.decrease_after_send"@, Real { bits: HALF_BITS }),
        }),
{
    Calming {
        per_minute: cfg.f64_or(
            "chat.willing.decrease_per_minute",
            Real { bits: FIVE_THOUSANDTHS_BITS },
        ),
        factor: cfg.f64_or("chat.willing.decay_after_send", Real { bits: SIX_TENTHS_BITS }),
        amount: cfg.f64_or("chat.willing.decrease_after_send", Real { bits: HALF_BITS }),
    }
}

/// The seconds to wait before the history of a group is read, where there is anything to wait for.
pub fn history_delay(cfg: &Config) -> (res: Option<Real>)
    ensures
        ({
            let delay = cfg.real_at("chat.get_history_msg_delay_seconds"@, Real { bits: 0 });
            res == if (Real { bits: 0 }).less(delay) {
                Some(delay)
            } else {
                None
            }
        }),
{
    let delay = cfg.f64_or("chat.get_history_msg_delay_seconds", Real { bits: 0 });
    if (Real { bits: 0 }).lt(delay) {
        Some(delay)
    } else {
        None
    }
}

/// The seconds between two steps of an answer, none below zero.
pub fn reply_pause(cfg: &Config) -> (res: Real)
    ensures
        res == cfg.real_at("chat.reply_interval_seconds"@, Real { bits: ONE_BITS }).greater(
            Real { bits: 0 },
        ),
{
    cfg.f64_or("chat.reply_interval_seconds", Real { bits: ONE_BITS }).max(Real { bits: 0 })
}

/// How stickers are liked less when they are sent and more when not, how well one must fit, and how
/// many seconds, a tenth of one at the least, the search may take.
#[derive(Clone, Copy, Debug, PartialEq, Eq, Structural)]
pub struct StickerSettings {
    pub penalty: Real,
    pub recovery: Real,
    pub threshold: Real,
    pub wait: Real,
}

/// The numbers for stickers.
pub fn sticker_settings(cfg: &Config) -> (res: StickerSettings)
    ensures
        res == (StickerSettings {
            penalty: cfg.real_at("chat.sticker.send_penalty"@, Real { bits: EIGHT_TENTHS_BITS }),
            recovery: cfg.real_at("chat.sticker.recover_rate"@, Real { bits: FIFTH_BITS }),
            threshold: cfg.real_at(
                "chat.sticker.similarity_threshold"@,
                Real { bits: SEVEN_TENTHS_BITS },
            ),
            wait: cfg.real_at("chat.sticker.timeout"@, Real { bits: FIVE_BITS }).greater(
                Real { bits: TENTH_BITS },
            ),
        }),
{
    StickerSettings {
        penalty: cfg.f64_or("chat.sticker.send_penalty", Real { bits: EIGHT_TENTHS_BITS }),
        recovery: cfg.f64_or("chat.sticker.recover_rate", Real { bits: FIFTH_BITS }),
        threshold: cfg.f64_or(
            "chat.sticker.similarity_threshold",
            Real { bits: SEVEN_TENTHS_BITS },
        ),
        wait: cfg.f64_or("chat.sticker.timeout", Real { bits: FIVE_BITS }).max(
            Real { bits: TENTH_BITS },
        ),
    }
}

/// How many voice clips may come into question, how much they must have in common with what is to be
/// said, and how many seconds making a voice and choosing a clip may take.
#[derive(Clone, Copy, Debug, PartialEq, Eq, Structural)]
pub struct VoiceSettings {
    pub limit: usize,
    pub min_jaccard: Real,
    pub min_len_ratio: Real,
    pub timeout: Real,
    pub match_timeout: Real,
}

/// The numbers for voice clips.
pub fn voice_settings(cfg: &Config) -> (res: VoiceSettings)
    ensures
        res == (VoiceSettings {
            limit: count_at(*cfg, "chat.voice.candidate_limit"@, 40),
            min_jaccard: cfg.real_at(
                "chat.voice.min_jaccard"@,
                Real { bits: FIFTEEN_HUNDREDTHS_BITS },
            ),
            min_len_ratio: cfg.real_at("chat.voice.min_len_ratio"@, Real { bits: HALF_BITS }),
            timeout: cfg.real_at("chat.voice.timeout"@, Real { bits: FIFTEEN_BITS }),
            match_timeout: cfg.real_at("chat.voice.match_timeout"@, Real { bits: EIGHT_BITS }),
        }),
{
    VoiceSettings {
        limit: cfg.usize_or("chat.voice.candidate_limit", 40),
        min_jaccard: cfg.f64_or(
            "chat.voice.min_jaccard",
            Real { bits: FIFTEEN_HUNDREDTHS_BITS },
        ),
        min_len_ratio: cfg.f64_or("chat.voice.min_len_ratio", Real { bits: HALF_BITS }),
        timeout: cfg.f64_or("chat.voice.timeout", Real { bits: FIFTEEN_BITS }),
        match_timeout: cfg.f64_or("chat.voice.match_timeout", Real { bits: EIGHT_BITS }),
    }
}

/// For how many pictures a model may be asked, and how likely that is for each.
pub fn caption_limits(cfg: &Config) -> (res: CaptionLimits)
    ensures
        res.image_limit == cfg.real_at("image_caption.image_limit"@, Real { bits: ONE_BITS }),
        res.image_prob == cfg.real_at("image_caption.image_prob"@, Real { bits: ONE_BITS }),
        res.emotion_limit == cfg.real_at("image_caption.emotion_limit"@, Real { bits: ONE_BITS }),
        res.emotion_prob == cfg.real_at("image_caption.emotion_prob"@, Real { bits: FIFTH_BITS }),
{
    CaptionLimits {
        image_limit: cfg.f64_or("image_caption.image_limit", Real { bits: ONE_BITS }),
        image_prob: cfg.f64_or("image_caption.image_prob", Real { bits: ONE_BITS }),
        emotion_limit: cfg.f64_or("image_caption.emotion_limit", Real { bits: ONE_BITS }),
        emotion_prob: cfg.f64_or("image_caption.emotion_prob", Real { bits: FIFTH_BITS }),
    }
}

/// The seconds between two attempts to connect, as they are told; of what is waited, see
/// [`crate::rpc::waited`].
pub fn reconnect_interval(cfg: &Config) -> (res: Real)
    ensures
        res == cfg.real_at("rpc.reconnect_interval"@, Real { bits: FIVE_BITS }),
{
    cfg.f64_or("rpc.reconnect_interval", Real { bits: FIVE_BITS })
}

/// Where the program works.
#[derive(Debug)]
pub enum Root {
    /// In the directory that the environment names.
    Named(String),
    /// So many directories above the one that it was started in.
    Above(usize),
    /// So many steps above the program itself.
    AboveProgram(usize),
    /// In the directory that it was started in.
    Here,
}

/// The place of the first hit among so many.
pub open spec fn first_hit(hits: Seq<bool>, most: int) -> Option<int>
    decreases most,
{
    if most <= 0 {
        None
    } else {
        match first_hit(hits, most - 1) {
            Some(k) => Some(k),
            None => if most <= hits.len() && hits[most - 1] {
                Some(most - 1)
            } else {
                None
            },
        }
    }
}

/// How many directories are searched from the one that the program was started in.
pub const STEPS_FROM_HERE: usize = 8;

/// How many directories are searched from the program itself.
pub const STEPS_FROM_PROGRAM: usize = 10;

fn find_hit(hits: &Vec<bool>, most: usize) -> (res: Option<usize>)
    ensures
        match res {
            Some(k) => first_hit(hits@, most as int) == Some(k as int),
            None => first_hit(hits@, most as int) is None,
        },
{
    let mut res: Option<usize> = None;
    let mut i: usize = 0;
    while i < most
        invariant
            i <= most,
            match res {
                Some(k) => first_hit(hits@, i as int) == Some(k as int),
                None => first_hit(hits@, i as int) is None,
            },
        decreases most - i,
    {
        if res.is_none() && i < hits.len() && hits[i] {
            res = Some(i);
        }
        i += 1;
    }
    res
}

/// Where the program works: where the environment says, else in the nearest directory that holds the
/// configuration, from the one that it was started in and then from itself on, else where it was
/// started. The lists say of each directory on the way up whether it holds the configuration.
pub fn choose_root(named: Option<String>, here: &Vec<bool>, program: &Vec<bool>) -> (res: Root)
    ensures
        match named {
            Some(p) => res == Root::Named(p),
            None => match first_hit(here@, STEPS_FROM_HERE as int) {
                Some(k) => res matches Root::Above(n) && n == k,
                None => match first_hit(program@, STEPS_FROM_PROGRAM as int) {
                    Some(k) => res matches Root::AboveProgram(n) && n == k,
                    None => res is Here,
                },
            },
        },
{
    match named {
        Some(p) => Root::Named(p),
        None => match find_hit(here, STEPS_FROM_HERE) {
            Some(k) => Root::Above(k),
            None => match find_hit(program, STEPS_FROM_PROGRAM) {
                Some(k) => Root::AboveProgram(k),
                None => Root::Here,
            },
        },
    }
}

/// The first hit is a hit, and none before it is one; where there is none, none of so many is one.
pub proof fn law_first_hit_is_first(hits: Seq<bool>, most: int)
    ensures
        match first_hit(hits, most) {
            Some(k) => 0 <= k < most && k < hits.len() && hits[k] && forall|i: int|
                0 <= i < k ==> !(#[trigger] hits[i]),
            None => forall|i: int| 0 <= i < most && i < hits.len() ==> !(#[trigger] hits[i]),
        },
    decreases most,
{
    if most > 0 {
        law_first_hit_is_first(hits, most - 1);
    }
}

/// The usual values, as they are kept: fifteen hundredths, a fifth, a half, six, seven and eight tenths,
/// eight and fifteen; and how far a root is looked for, eight steps from here and ten from the program.
pub proof fn law_usual_values()
    ensures
        FIFTEEN_HUNDREDTHS_BITS == 0x3fc3_3333_3333_3333,
        FIFTH_BITS == 0x3fc9_9999_9999_999a,
        HALF_BITS == 0x3fe0_0000_0000_0000,
        SIX_TENTHS_BITS == 0x3fe3_3333_3333_3333,
        SEVEN_TENTHS_BITS == 0x3fe6_6666_6666_6666,
        EIGHT_TENTHS_BITS == 0x3fe9_9999_9999_999a,
        EIGHT_BITS == 0x4020_0000_0000_0000,
        FIFTEEN_BITS == 0x402e_0000_0000_0000,
        STEPS_FROM_HERE == 8,
        STEPS_FROM_PROGRAM == 10,
{
}

} // verus!
