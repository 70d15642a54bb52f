//! Synthetic log lines for load testing: the weighted choices and the
//! line text are computed here from plain values; drawing the random
//! rolls and reading the clock stay outside.

use vstd::prelude::*;
use crate::fmt::{dec_digits, fmt_u64, push_char};

verus! {

/// The method drawn by a roll below 10: GET 6, POST 2, PUT 1, DELETE 1.
pub open spec fn spec_method_for(roll: int) -> Seq<char> {
    if roll < 6 {
        "GET"@
    } else if roll < 8 {
        "POST"@
    } else if roll < 9 {
        "PUT"@
    } else {
        "DELETE"@
    }
}

pub fn method_for(roll: u64) -> (r: &'static str)
    requires
        roll < 10,
    ensures
        r@ == spec_method_for(roll as int),
{
    if roll < 6 {
        "GET"
    } else if roll < 8 {
        "POST"
    } else if roll < 9 {
        "PUT"
    } else {
        "DELETE"
    }
}

/// The path drawn by a roll below 105, weights 10/10/50/5/20/10.
pub open spec fn spec_path_for(roll: int) -> Seq<char> {
    if roll < 10 {
        "/"@
    } else if roll < 20 {
        "/login"@
    } else if roll < 70 {
        "/api"@
    } else if roll < 75 {
        "/admin"@
    } else if roll < 95 {
        "/splash"@
    } else {
        "gallery"@
    }
}

pub fn path_for(roll: u64) -> (r: &'static str)
    requires
        roll < 105,
    ensures
        r@ == spec_path_for(roll as int),
{
    if roll < 10 {
        "/"
    } else if roll < 20 {
        "/login"
    } else if roll < 70 {
        "/api"
    } else if roll < 75 {
        "/admin"
    } else if roll < 95 {
        "/splash"
    } else {
        "gallery"
    }
}

/// The status drawn by a roll below 145, weights 50/10/10/20/50/5.
pub open spec fn spec_status_for(roll: int) -> u16 {
    if roll < 50 {
        200u16
    } else if roll < 60 {
        201u16
    } else if roll < 70 {
        400u16
    } else if roll < 90 {
        401u16
    } else if roll < 140 {
        404u16
    } else {
        500u16
    }
}

pub fn status_for(roll: u64) -> (r: u16)
    requires
        roll < 145,
    ensures
        r == spec_status_for(roll as int),
{
    if roll < 50 {
        200
    } else if roll < 60 {
        201
    } else if roll < 70 {
        400
    } else if roll < 90 {
        401
    } else if roll < 140 {
        404
    } else {
        500
    }
}

/// The service drawn by a roll below 26, weights 1/5/10/10.
pub open spec fn spec_service_for(roll: int) -> Seq<char> {
    if roll < 1 {
        "auth"@
    } else if roll < 6 {
        "api"@
    } else if roll < 16 {
        "frontend"@
    } else {
        "db"@
    }
}

pub fn service_for(roll: u64) -> (r: &'static str)
    requires
        roll < 26,
    ensures
        r@ == spec_service_for(roll as int),
{
    if roll < 1 {
        "auth"
    } else if roll < 6 {
        "api"
    } else if roll < 16 {
        "frontend"
    } else {
        "db"
    }
}

/// The level drawn by a roll below 36, weights 30/5/1.
pub open spec fn spec_level_for(roll: int) -> Seq<char> {
    if roll < 30 {
        "INFO"@
    } else if roll < 35 {
        "WARN"@
    } else {
        "ERROR"@
    }
}

pub fn level_for(roll: u64) -> (r: &'static str)
    requires
        roll < 36,
    ensures
        r@ == spec_level_for(roll as int),
{
    if roll < 30 {
        "INFO"
    } else if roll < 35 {
        "WARN"
    } else {
        "ERROR"
    }
}

/// The message drawn by a roll below 83, weights 5/50/10/10/8.
pub open spec fn spec_message_for(roll: int) -> Seq<char> {
    if roll < 5 {
        "User logged in"@
    } else if roll < 55 {
        "DB query executed"@
    } else if roll < 65 {
        "Cache miss"@
    } else if roll < 75 {
        "Permission denied"@
    } else {
        "Token refreshed"@
    }
}

pub fn message_for(roll: u64) -> (r: &'static str)
    requires
        roll < 83,
    ensures
        r@ == spec_message_for(roll as int),
{
    if roll < 5 {
        "User logged in"
    } else if roll < 55 {
        "DB query executed"
    } else if roll < 65 {
        "Cache miss"
    } else if roll < 75 {
        "Permission denied"
    } else {
        "Token refreshed"
    }
}

/// The text of one synthetic access-log line.
pub open spec fn spec_apache_line(
    ip3: int,
    ip4: int,
    ts: Seq<char>,
    method_roll: int,
    path_roll: int,
    status_roll: int,
    size: int,
) -> Seq<char> {
    "192.168."@ + dec_digits(ip3) + seq!['.'] + dec_digits(ip4) + " - - ["@ + ts + "] \""@
        + spec_method_for(method_roll) + seq![' '] + spec_path_for(path_roll) + " HTTP/1.1\" "@
        + dec_digits(spec_status_for(status_roll) as int) + seq![' '] + dec_digits(size)
}

/// Builds one synthetic access-log line from the third and fourth IP
/// octets, a preformatted local timestamp with its zone offset, the
/// three weighted rolls, and the response size.
pub fn generate_apache_log(
    ip3: u8,
    ip4: u8,
    timestamp: &str,
    method_roll: u64,
    path_roll: u64,
    status_roll: u64,
    size: u64,
) -> (r: String)
    requires
        method_roll < 10,
        path_roll < 105,
        status_roll < 145,
    ensures
        r@ == spec_apache_line(
            ip3 as int,
            ip4 as int,
            timestamp@,
            method_roll as int,
            path_roll as int,
            status_roll as int,
            size as int,
        ),
{
    let mut out = String::new();
    out.append("192.168.");
    let o3 = fmt_u64(ip3 as u64);
    out.append(o3.as_str());
    push_char(&mut out, '.');
    let o4 = fmt_u64(ip4 as u64);
    out.append(o4.as_str());
    out.append(" - - [");
    out.append(timestamp);
    out.append("] \"");
    out.append(method_for(method_roll));
    push_char(&mut out, ' ');
    out.append(path_for(path_roll));
    out.append(" HTTP/1.1\" ");
    let st = fmt_u64(status_for(status_roll) as u64);
    out.append(st.as_str());
    push_char(&mut out, ' ');
    let sz = fmt_u64(size);
    out.append(sz.as_str());
    proof {
        assert(out@ =~= spec_apache_line(
            ip3 as int,
            ip4 as int,
            timestamp@,
            method_roll as int,
            path_roll as int,
            status_roll as int,
            size as int,
        ));
    }
    out
}

/// The text of one synthetic structured log line.
pub open spec fn spec_json_line(
    ts: Seq<char>,
    service_roll: int,
    level_roll: int,
    msg_roll: int,
) -> Seq<char> {
    "{\"ts\":\""@ + ts + "\",\"service\":\""@ + spec_service_for(service_roll)
        + "\",\"level\":\""@ + spec_level_for(level_roll) + "\",\"msg\":\""@ + spec_message_for(
        msg_roll,
    ) + "\"}"@
}

/// Builds one synthetic structured log line from a preformatted
/// timestamp and the three weighted rolls.
pub fn generate_json_log(timestamp: &str, service_roll: u64, level_roll: u64, msg_roll: u64) -> (r:
    String)
    requires
        service_roll < 26,
        level_roll < 36,
        msg_roll < 83,
    ensures
        r@ == spec_json_line(
            timestamp@,
            service_roll as int,
            level_roll as int,
            msg_roll as int,
        ),
{
    let mut out = String::new();
    out.append("{\"ts\":\"");
    out.append(timestamp);
    out.append("\",\"service\":\"");
    out.append(service_for(service_roll));
    out.append("\",\"level\":\"");
    out.append(level_for(level_roll));
    out.append("\",\"msg\":\"");
    out.append(message_for(msg_roll));
    out.append("\"}");
    proof {
        assert(out@ =~= spec_json_line(
            timestamp@,
            service_roll as int,
            level_roll as int,
            msg_roll as int,
        ));
    }
    out
}

} // verus!
