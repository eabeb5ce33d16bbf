//! Classification of log lines and extraction of their fields.
//!
//! A line is classified by the marker substrings it holds, checked in a fixed
//! priority order (match start, player join, kill, match end). The extraction
//! functions pull the player name out of a join line and the killer, victim
//! and means-of-death fields out of a kill line; a line whose marker is
//! present but whose expected sub-fields are absent yields `None` and is
//! treated as a recoverable parse anomaly by the caller.

use vstd::prelude::*;
use vstd::string::StrSliceExecFns;
use crate::text::{contains_sub, find_first, find_sub, trim_spec, trim_str, str_copy};

verus! {

/// The line starts a new match.
pub open spec fn is_match_start_line(line: Seq<char>) -> bool {
    contains_sub(line, "InitGame:"@)
}

/// The line records a player joining or updating their info.
pub open spec fn is_join_line(line: Seq<char>) -> bool {
    contains_sub(line, "ClientUserinfoChanged: "@)
}

/// The line records a kill.
pub open spec fn is_kill_line(line: Seq<char>) -> bool {
    contains_sub(line, "Kill: "@)
}

/// The line records an explicit match shutdown.
pub open spec fn is_shutdown_line(line: Seq<char>) -> bool {
    contains_sub(line, "ShutdownGame:"@)
}

/// The line is the separator bar printed between log sections.
pub open spec fn is_separator_line(line: Seq<char>) -> bool {
    contains_sub(line, "------------------------------------------------------------"@)
}

/// Executable test for [`is_match_start_line`].
pub fn line_is_match_start(line: &str) -> (r: bool)
    ensures
        r == is_match_start_line(line@),
{
    proof {
        reveal_strlit("InitGame:");
    }
    crate::text::str_contains(line, "InitGame:")
}

/// Executable test for [`is_join_line`].
pub fn line_is_join(line: &str) -> (r: bool)
    ensures
        r == is_join_line(line@),
{
    proof {
        reveal_strlit("ClientUserinfoChanged: ");
    }
    crate::text::str_contains(line, "ClientUserinfoChanged: ")
}

/// Executable test for [`is_kill_line`].
pub fn line_is_kill(line: &str) -> (r: bool)
    ensures
        r == is_kill_line(line@),
{
    proof {
        reveal_strlit("Kill: ");
    }
    crate::text::str_contains(line, "Kill: ")
}

/// Executable test for [`is_shutdown_line`].
pub fn line_is_shutdown(line: &str) -> (r: bool)
    ensures
        r == is_shutdown_line(line@),
{
    proof {
        reveal_strlit("ShutdownGame:");
    }
    crate::text::str_contains(line, "ShutdownGame:")
}

/// Executable test for [`is_separator_line`].
pub fn line_is_separator(line: &str) -> (r: bool)
    ensures
        r == is_separator_line(line@),
{
    proof {
        reveal_strlit("------------------------------------------------------------");
    }
    crate::text::str_contains(line, "------------------------------------------------------------")
}

/// The player name of a join line: the field between the first backslash and
/// the next one (or the end of the line). `None` when the line has no
/// backslash at all.
pub open spec fn join_name(line: Seq<char>) -> Option<Seq<char>> {
    match find_first(line, "\\"@) {
        None => None,
        Some(i) => {
            let rest = line.subrange(i + 1, line.len() as int);
            match find_first(rest, "\\"@) {
                None => Some(rest),
                Some(j) => Some(rest.subrange(0, j)),
            }
        },
    }
}

/// Extract the player name of a join line.
pub fn extract_join_name(line: &str) -> (r: Option<String>)
    ensures
        match r {
            Some(name) => join_name(line@) == Some(name@),
            None => join_name(line@) is None,
        },
{
    proof {
        reveal_strlit("\\");
    }
    match find_sub(line, "\\") {
        None => None,
        Some(i) => {
            let len = line.unicode_len();
            let rest = line.substring_char(i + 1, len);
            match find_sub(rest, "\\") {
                None => Some(str_copy(rest)),
                Some(j) => Some(str_copy(rest.substring_char(0, j))),
            }
        },
    }
}

/// The payload of a kill line: the third field when the line is split on
/// `": "` (everything between the second separator and the next one, or the
/// end of the line). `None` when the line has fewer than two separators.
pub open spec fn kill_payload(line: Seq<char>) -> Option<Seq<char>> {
    match find_first(line, ": "@) {
        None => None,
        Some(i1) => {
            let r1 = line.subrange(i1 + 2, line.len() as int);
            match find_first(r1, ": "@) {
                None => None,
                Some(i2) => {
                    let r2 = r1.subrange(i2 + 2, r1.len() as int);
                    match find_first(r2, ": "@) {
                        None => Some(r2),
                        Some(i3) => Some(r2.subrange(0, i3)),
                    }
                },
            }
        },
    }
}

/// The killer, victim and means-of-death fields of a kill line: the payload
/// is split on the first `"killed"`, the remainder on the first `"by"`, and
/// the three fields are trimmed. `None` when a delimiter is missing.
pub open spec fn kill_fields(line: Seq<char>) -> Option<(Seq<char>, Seq<char>, Seq<char>)> {
    match kill_payload(line) {
        None => None,
        Some(payload) => match find_first(payload, "killed"@) {
            None => None,
            Some(k) => {
                let killer = trim_spec(payload.subrange(0, k));
                let rem = payload.subrange(k + 6, payload.len() as int);
                match find_first(rem, "by"@) {
                    None => None,
                    Some(b) => Some(
                        (
                            killer,
                            trim_spec(rem.subrange(0, b)),
                            trim_spec(rem.subrange(b + 2, rem.len() as int)),
                        ),
                    ),
                }
            },
        },
    }
}

/// Extract the payload of a kill line.
fn extract_kill_payload<'a>(line: &'a str) -> (r: Option<&'a str>)
    ensures
        match r {
            Some(payload) => kill_payload(line@) == Some(payload@),
            None => kill_payload(line@) is None,
        },
{
    proof {
        reveal_strlit(": ");
    }
    match find_sub(line, ": ") {
        None => None,
        Some(i1) => {
            let len = line.unicode_len();
            let r1 = line.substring_char(i1 + 2, len);
            match find_sub(r1, ": ") {
                None => None,
                Some(i2) => {
                    let r1len = r1.unicode_len();
                    let r2 = r1.substring_char(i2 + 2, r1len);
                    match find_sub(r2, ": ") {
                        None => Some(r2),
                        Some(i3) => Some(r2.substring_char(0, i3)),
                    }
                },
            }
        },
    }
}

/// Extract the killer, victim and means-of-death fields of a kill line.
pub fn extract_kill_fields(line: &str) -> (r: Option<(String, String, String)>)
    ensures
        match r {
            Some(f) => kill_fields(line@) == Some((f.0@, f.1@, f.2@)),
            None => kill_fields(line@) is None,
        },
{
    proof {
        reveal_strlit("killed");
        reveal_strlit("by");
    }
    match extract_kill_payload(line) {
        None => None,
        Some(payload) => {
            match find_sub(payload, "killed") {
                None => None,
                Some(k) => {
                    let plen = payload.unicode_len();
                    let killer = str_copy(trim_str(payload.substring_char(0, k)));
                    let rem = payload.substring_char(k + 6, plen);
                    match find_sub(rem, "by") {
                        None => None,
                        Some(b) => {
                            let rlen = rem.unicode_len();
                            let killed = str_copy(trim_str(rem.substring_char(0, b)));
                            let means = str_copy(trim_str(rem.substring_char(b + 2, rlen)));
                            Some((killer, killed, means))
                        },
                    }
                },
            }
        },
    }
}

} // verus!
