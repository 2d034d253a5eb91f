//! What is written to the log.

use crate::config::Config;
use crate::rpc::RpcError;
use crate::text::{ascii_uppercase, own, same, to_ascii_upper};
use vstd::prelude::*;
use vstd::string::*;

verus! {

/// The place of a level among the four; an unknown one counts as the second.
pub open spec fn level_rank(level: Seq<char>) -> int {
    if level == "DEBUG"@ {
        0
    } else if level == "INFO"@ {
        1
    } else if level == "WARNING"@ {
        2
    } else if level == "ERROR"@ {
        3
    } else {
        1
    }
}

/// The level that is configured, in capitals.
pub open spec fn configured_level(cfg: Config) -> Seq<char> {
    ascii_uppercase(cfg.text_or("log_level"@, "INFO"@))
}

/// Whether the configuration lets a level through.
pub open spec fn lets_through(cfg: Config, level: Seq<char>) -> bool {
    level_rank(configured_level(cfg)) <= level_rank(level)
}

fn rank_of(level: &str) -> (res: u8)
    ensures
        res == level_rank(level@),
{
    if same(level, "DEBUG") {
        0
    } else if same(level, "INFO") {
        1
    } else if same(level, "WARNING") {
        2
    } else if same(level, "ERROR") {
        3
    } else {
        1
    }
}

/// Whether the configuration lets a level through.
pub fn enabled(cfg: &Config, level: &str) -> (res: bool)
    ensures
        cfg.readable("log_level"@) ==> res == lets_through(*cfg, level@),
{
    let cur = cfg.str_or("log_level", "INFO");
    let upper = to_ascii_upper(cur.as_str());
    rank_of(upper.as_str()) <= rank_of(level)
}

/// The line of the log.
pub open spec fn line(stamp: Seq<char>, level: Seq<char>, msg: Seq<char>) -> Seq<char> {
    "["@ + stamp + "]["@ + level + "] "@ + msg
}

/// What is written for a message of a level: a line, where the level is let through.
pub open spec fn written(
    cfg: Config,
    stamp: Seq<char>,
    level: Seq<char>,
    msg: Seq<char>,
    res: Option<String>,
) -> bool {
    cfg.readable("log_level"@) ==> match res {
        Some(s) => lets_through(cfg, level) && s@ == line(stamp, level, msg),
        None => !lets_through(cfg, level),
    }
}

fn emit(cfg: &Config, stamp: &str, level: &str, msg: &str) -> (res: Option<String>)
    ensures
        written(*cfg, stamp@, level@, msg@, res),
{
    if !enabled(cfg, level) {
        return None;
    }
    let mut out = own("[");
    out.append(stamp);
    out.append("][");
    out.append(level);
    out.append("] ");
    out.append(msg);
    Some(out)
}

/// The line for a message that helps to find faults, where such are wanted.
pub fn debug(cfg: &Config, stamp: &str, msg: &str) -> (res: Option<String>)
    ensures
        written(*cfg, stamp@, "DEBUG"@, msg@, res),
{
    emit(cfg, stamp, "DEBUG", msg)
}

/// The line for a message that tells what goes on, where such are wanted.
pub fn info(cfg: &Config, stamp: &str, msg: &str) -> (res: Option<String>)
    ensures
        written(*cfg, stamp@, "INFO"@, msg@, res),
{
    emit(cfg, stamp, "INFO", msg)
}

/// The line for a warning, where such are wanted.
pub fn warning(cfg: &Config, stamp: &str, msg: &str) -> (res: Option<String>)
    ensures
        written(*cfg, stamp@, "WARNING"@, msg@, res),
{
    emit(cfg, stamp, "WARNING", msg)
}

/// The line for a fault.
pub fn error(cfg: &Config, stamp: &str, msg: &str) -> (res: Option<String>)
    ensures
        written(*cfg, stamp@, "ERROR"@, msg@, res),
{
    emit(cfg, stamp, "ERROR", msg)
}

/// The line for a fault with its cause.
pub fn error_with_trace(cfg: &Config, stamp: &str, msg: &str, err: &str) -> (res: Option<String>)
    ensures
        written(*cfg, stamp@, "ERROR"@, msg@ + ": "@ + err@, res),
{
    let mut text = own(msg);
    text.append(": ");
    text.append(err);
    emit(cfg, stamp, "ERROR", text.as_str())
}

/// A failure in words: those of the failed call where it is one and has any, else those of the whole
/// chain of causes.
pub fn exc_desc(chain: &str, err: Option<&RpcError>) -> (res: String)
    ensures
        res@ == (match err {
            Some(e) => if e@.message().len() == 0 {
                chain@
            } else {
                e@.message()
            },
            None => chain@,
        }),
{
    match err {
        Some(e) => {
            let text = e.message();
            if text.as_str().is_empty() {
                own(chain)
            } else {
                text
            }
        },
        None => own(chain),
    }
}

/// A failure in its own words.
pub fn any_desc(err: &RpcError) -> (res: String)
    ensures
        res@ == err@.message(),
{
    err.message()
}

/// A fault is written to the log whatever level is configured.
pub proof fn law_faults_are_always_written(cfg: Config)
    ensures
        lets_through(cfg, "ERROR"@),
{
    reveal_strlit("DEBUG");
    reveal_strlit("INFO");
    reveal_strlit("WARNING");
    reveal_strlit("ERROR");
    assert("ERROR"@[0] == 'E' && "DEBUG"@[0] == 'D' && "INFO"@[0] == 'I' && "WARNING"@[0] == 'W');
}

/// The levels stand in order, and what is no level counts as INFO. A message is written where its level is
/// not below the one that the settings name.
pub proof fn law_levels_stand_in_order(cfg: Config, level: Seq<char>)
    ensures
        level_rank("DEBUG"@) < level_rank("INFO"@) < level_rank("WARNING"@) < level_rank("ERROR"@),
        level != "DEBUG"@ && level != "WARNING"@ && level != "ERROR"@ ==> level_rank(level)
            == level_rank("INFO"@),
        lets_through(cfg, level) == (level_rank(ascii_uppercase(cfg.text_or("log_level"@, "INFO"@)))
            <= level_rank(level)),
{
    reveal_strlit("DEBUG");
    reveal_strlit("INFO");
    reveal_strlit("WARNING");
    reveal_strlit("ERROR");
    assert("DEBUG"@[0] == 'D' && "INFO"@[0] == 'I' && "WARNING"@[0] == 'W' && "ERROR"@[0] == 'E');
}

/// A line holds the time, the level and the message.
pub proof fn law_lines_hold_the_message(
    stamp: Seq<char>,
    level: Seq<char>,
    msg: Seq<char>,
)
    ensures
        line(stamp, level, msg) == "["@ + stamp + "]["@ + level + "] "@ + msg,
        line(stamp, level, msg).len() == stamp.len() + level.len() + msg.len() + 5,
{
    reveal_strlit("[");
    reveal_strlit("][");
    reveal_strlit("] ");
}

} // verus!
