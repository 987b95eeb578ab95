//! Text frames written to subscribers, and the decimal rendering of counters.
use vstd::prelude::*;
use vstd::string::StringExecFns;

verus! {

/// The decimal digit character for `d`, where `d < 10`.
pub open spec fn digit_char(d: nat) -> char {
    if d == 0 { '0' }
    else if d == 1 { '1' }
    else if d == 2 { '2' }
    else if d == 3 { '3' }
    else if d == 4 { '4' }
    else if d == 5 { '5' }
    else if d == 6 { '6' }
    else if d == 7 { '7' }
    else if d == 8 { '8' }
    else { '9' }
}

/// The decimal representation of `n`, most significant digit first, without
/// leading zeros.
pub open spec fn decimal(n: nat) -> Seq<char>
    decreases n,
{
    if n < 10 {
        seq![digit_char(n)]
    } else {
        decimal(n / 10).push(digit_char(n % 10))
    }
}

/// The frame that carries `text` on an event stream.
pub open spec fn frame_of(text: Seq<char>) -> Seq<char> {
    "data: "@ + text + "\n\n"@
}

/// The text of the heartbeat event with sequence number `n`.
pub open spec fn heartbeat_text(n: nat) -> Seq<char> {
    "event "@ + decimal(n)
}

fn digit_str(d: u64) -> (r: &'static str)
    requires
        d < 10,
    ensures
        r@ == seq![digit_char(d as nat)],
{
    proof {
        reveal_strlit("0");
        reveal_strlit("1");
        reveal_strlit("2");
        reveal_strlit("3");
        reveal_strlit("4");
        reveal_strlit("5");
        reveal_strlit("6");
        reveal_strlit("7");
        reveal_strlit("8");
        reveal_strlit("9");
    }
    if d == 0 { "0" }
    else if d == 1 { "1" }
    else if d == 2 { "2" }
    else if d == 3 { "3" }
    else if d == 4 { "4" }
    else if d == 5 { "5" }
    else if d == 6 { "6" }
    else if d == 7 { "7" }
    else if d == 8 { "8" }
    else { "9" }
}

/// Renders `n` in decimal.
pub fn decimal_string(n: u64) -> (r: String)
    ensures
        r@ == decimal(n as nat),
    decreases n,
{
    if n < 10 {
        String::from_str(digit_str(n))
    } else {
        let mut s = decimal_string(n / 10);
        s.append(digit_str(n % 10));
        s
    }
}

/// The frame `data: <text>` followed by a blank line.
pub fn frame(text: &str) -> (r: String)
    ensures
        r@ == frame_of(text@),
{
    let mut s = String::from_str("data: ");
    s.append(text);
    s.append("\n\n");
    s
}

/// The text of the heartbeat event with sequence number `n`.
pub fn heartbeat_event_text(n: u64) -> (r: String)
    ensures
        r@ == heartbeat_text(n as nat),
{
    let mut s = String::from_str("event ");
    let d = decimal_string(n);
    s.append(d.as_str());
    s
}

} // verus!
