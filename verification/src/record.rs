//! One record per request, its error codes, and the move labels.
use vstd::prelude::*;
use crate::text::{ascii_lowercase, lower, same_text};

verus! {

pub const ERR_OK: u8 = 0;
pub const ERR_TIMEOUT: u8 = 1;
pub const ERR_SCHEMA: u8 = 2;
pub const ERR_HTTP: u8 = 3;
pub const ERR_AUTH: u8 = 4;
pub const ERR_RATE_LIMIT: u8 = 5;
pub const ERR_NETWORK: u8 = 6;

/// What one request took and how it ended.
#[derive(Debug, Clone, Copy)]
pub struct RequestRecord {
    pub offset_ns: u64,
    pub latency_ns: u64,
    pub throttle_ns: u64,
    pub status: u16,
    pub action: u8,
    pub error: u8,
    pub bytes: u32,
}

/// The name of an error code.
pub open spec fn error_label(code: u8) -> Seq<char> {
    if code == ERR_OK {
        "ok"@
    } else if code == ERR_TIMEOUT {
        "timeout"@
    } else if code == ERR_SCHEMA {
        "schema"@
    } else if code == ERR_HTTP {
        "http"@
    } else if code == ERR_AUTH {
        "auth"@
    } else if code == ERR_RATE_LIMIT {
        "rate_limit"@
    } else if code == ERR_NETWORK {
        "network"@
    } else {
        "unknown"@
    }
}

impl RequestRecord {
    pub fn error_name(code: u8) -> (r: &'static str)
        ensures
            r@ == error_label(code),
    {
        match code {
            0 => "ok",
            1 => "timeout",
            2 => "schema",
            3 => "http",
            4 => "auth",
            5 => "rate_limit",
            6 => "network",
            _ => "unknown",
        }
    }
}

/// The error code of an HTTP status.
pub open spec fn status_class(status: u16) -> u8 {
    if 200 <= status && status <= 299 {
        ERR_OK
    } else if status == 401 || status == 403 {
        ERR_AUTH
    } else if status == 429 {
        ERR_RATE_LIMIT
    } else {
        ERR_HTTP
    }
}

pub fn classify_status(status: u16) -> (r: u8)
    ensures
        r == status_class(status),
{
    if 200 <= status && status <= 299 {
        ERR_OK
    } else if status == 401 || status == 403 {
        ERR_AUTH
    } else if status == 429 {
        ERR_RATE_LIMIT
    } else {
        ERR_HTTP
    }
}

/// The action of a move label, ignoring ASCII case; 255 for anything else.
pub open spec fn choice_action(label: Seq<char>) -> u8 {
    let l = lower(label);
    if l == "up"@ || l == "north"@ {
        0
    } else if l == "right"@ || l == "east"@ {
        1
    } else if l == "down"@ || l == "south"@ {
        2
    } else if l == "left"@ || l == "west"@ {
        3
    } else {
        255
    }
}

pub fn action_from_choice(label: &str) -> (r: u8)
    ensures
        r == choice_action(label@),
{
    let folded = ascii_lowercase(label);
    let l = folded.as_str();
    if same_text(l, "up") || same_text(l, "north") {
        0
    } else if same_text(l, "right") || same_text(l, "east") {
        1
    } else if same_text(l, "down") || same_text(l, "south") {
        2
    } else if same_text(l, "left") || same_text(l, "west") {
        3
    } else {
        255
    }
}

/// The label of an action code.
pub open spec fn action_label(code: u8) -> Seq<char> {
    if code == 0 {
        "UP"@
    } else if code == 1 {
        "RIGHT"@
    } else if code == 2 {
        "DOWN"@
    } else if code == 3 {
        "LEFT"@
    } else {
        "UNKNOWN"@
    }
}

pub fn action_name(code: u8) -> (r: &'static str)
    ensures
        r@ == action_label(code),
{
    match code {
        0 => "UP",
        1 => "RIGHT",
        2 => "DOWN",
        3 => "LEFT",
        _ => "UNKNOWN",
    }
}

/// Reading back the label of a move gives the move: `action_from_choice`
/// undoes `action_name` on the four directions.
pub proof fn lemma_action_label_round_trip(a: u8)
    requires
        a < 4,
    ensures
        choice_action(action_label(a)) == a,
{
    reveal_strlit("UP");
    reveal_strlit("RIGHT");
    reveal_strlit("DOWN");
    reveal_strlit("LEFT");
    reveal_strlit("up");
    reveal_strlit("right");
    reveal_strlit("down");
    reveal_strlit("left");
    reveal_strlit("north");
    reveal_strlit("east");
    reveal_strlit("south");
    reveal_strlit("west");
    let l = lower(action_label(a));
    if a == 0 {
        assert(l =~= "up"@);
    } else if a == 1 {
        assert(l =~= "right"@);
        assert(l[0] != "up"@[0] && l[0] != "north"@[0]);
    } else if a == 2 {
        assert(l =~= "down"@);
        assert(l[0] != "up"@[0] && l[0] != "north"@[0] && l[0] != "right"@[0] && l[0] != "east"@[0]);
    } else {
        assert(l =~= "left"@);
        assert(l[0] != "up"@[0] && l[0] != "north"@[0] && l[0] != "right"@[0] && l[0] != "east"@[0]);
        assert(l[0] != "down"@[0] && l[0] != "south"@[0]);
    }
}

} // verus!
