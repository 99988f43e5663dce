//! What the command line makes of its user's words, and of the daemon's.
use crate::base64_text;
use crate::base64_text::base64_decode;
use crate::json;
use crate::json::{get_member, get_number, get_text, get_texts, get_truth, parse_json};
use crate::text;
use crate::text::{concat2, push_decimal, same_text, starts_with};
use serde_json::Value;
use vstd::prelude::*;

verus! {

/// An invite with the scheme of its URI, which users may leave out.
pub open spec fn full_uri(invite: Seq<char>) -> Seq<char> {
    if text::begins(invite, "lain://"@) {
        invite
    } else {
        "lain://"@ + invite
    }
}

/// An invite with the scheme of its URI.
pub fn with_scheme(invite: &str) -> (r: String)
    ensures
        r@ == full_uri(invite@),
{
    if starts_with(invite, "lain://") {
        invite.to_string()
    } else {
        concat2("lain://", invite)
    }
}

/// What a line of the daemon holds: the texts in it that the command line looks at.
#[derive(Debug)]
pub struct ServerLine {
    pub kind: Option<String>,
    pub message: Option<String>,
    pub event: Option<String>,
    pub peer_id: Option<String>,
    pub error: Option<String>,
    pub via: Option<String>,
    pub bytes: Option<String>,
}

/// Whether a line of the daemon that is this JSON value holds these texts: some at the
/// top, and some in its data.
pub open spec fn line_holds(v: Value, line: ServerLine) -> bool {
    let top = Some(v);
    let data = json::member(top, "data"@);
    &&& json::text_view(line.kind) == json::text_under(top, "type"@)
    &&& json::text_view(line.message) == json::text_under(top, "message"@)
    &&& json::text_view(line.event) == json::text_under(top, "event"@)
    &&& json::text_view(line.peer_id) == json::text_under(top, "peer_id"@)
    &&& json::text_view(line.error) == json::text_under(data, "error"@)
    &&& json::text_view(line.via) == json::text_under(data, "via"@)
    &&& json::text_view(line.bytes) == json::text_under(data, "bytes"@)
}

/// What a line of the daemon holds that is a JSON value.
pub fn line_of(v: &Value) -> (line: ServerLine)
    ensures
        line_holds(*v, line),
{
    let top: Option<&Value> = Some(v);
    let data: Option<&Value> = get_member(top, "data");
    ServerLine {
        kind: get_text(top, "type"),
        message: get_text(top, "message"),
        event: get_text(top, "event"),
        peer_id: get_text(top, "peer_id"),
        error: get_text(data, "error"),
        via: get_text(data, "via"),
        bytes: get_text(data, "bytes"),
    }
}

/// What a line of the daemon holds. Nothing, where it is no JSON.
pub fn server_line(line: &str) -> (r: Option<ServerLine>)
    ensures
        match json::json_parsed(line@) {
            Some(v) => r matches Some(l) && line_holds(v, l),
            None => r is None,
        },
{
    match parse_json(line) {
        Some(v) => Some(line_of(&v)),
        None => None,
    }
}

/// A text, or another where there is none.
pub open spec fn text_or(t: Option<String>, other: Seq<char>) -> Seq<char> {
    match t {
        Some(s) => s@,
        None => other,
    }
}

/// A text, or another where there is none.
fn or<'a>(t: &'a Option<String>, other: &'a str) -> (r: &'a str)
    ensures
        r@ == text_or(*t, other@),
{
    match t {
        Some(s) => s.as_str(),
        None => other,
    }
}

/// Whether there is a text, and it is this one.
pub open spec fn is_text(t: Option<String>, s: Seq<char>) -> bool {
    t matches Some(u) && u@ == s
}

/// Whether there is a text, and it is this one.
fn says(t: &Option<String>, s: &str) -> (r: bool)
    ensures
        r == is_text(*t, s@),
{
    match t {
        Some(u) => same_text(u.as_str(), s),
        None => false,
    }
}

/// What the user is told of the daemon's answer to who it is.
pub fn whoami_line(line: &ServerLine) -> (r: String)
    ensures
        r@ == "PeerID: "@ + text_or(line.message, "?"@),
{
    concat2("PeerID: ", or(&line.message, "?"))
}

/// The invite in the daemon's answer to a request for it.
pub fn answered_invite(line: &ServerLine) -> (r: String)
    ensures
        r@ == text_or(line.message, "?"@),
{
    or(&line.message, "?").to_string()
}

/// What the user waits for: a connection by an invite, one at the same time, or one
/// to a peer that is sought.
#[derive(Clone, Copy, Debug, PartialEq, Eq, Structural)]
pub enum Wait {
    Connect,
    Tso,
    Find,
}

/// What the user is told of a request that the daemon refused.
pub open spec fn refusal(wait: Wait, line: ServerLine) -> Option<Seq<char>> {
    if is_text(line.kind, "Error"@) {
        Some(
            match wait {
                Wait::Connect => "cannot connect: "@ + text_or(line.message, "unknown error"@),
                Wait::Tso => "TSO error: "@ + text_or(line.message, "?"@),
                Wait::Find => "find error: "@ + text_or(line.message, "?"@),
            },
        )
    } else {
        None
    }
}

/// What the user is told of a request that the daemon refused.
pub fn refused(wait: Wait, line: &ServerLine) -> (r: Option<String>)
    ensures
        match r {
            Some(s) => refusal(wait, *line) == Some(s@),
            None => refusal(wait, *line) is None,
        },
{
    if !says(&line.kind, "Error") {
        return None;
    }
    Some(
        match wait {
            Wait::Connect => concat2("cannot connect: ", or(&line.message, "unknown error")),
            Wait::Tso => concat2("TSO error: ", or(&line.message, "?")),
            Wait::Find => concat2("find error: ", or(&line.message, "?")),
        },
    )
}

/// For how many seconds the user waits.
pub open spec fn patience(wait: Wait) -> u64 {
    match wait {
        Wait::Connect => 130,
        Wait::Tso => 110,
        Wait::Find => 15,
    }
}

/// What the user is told when the time is up.
pub open spec fn timeout_text(wait: Wait) -> Seq<char> {
    match wait {
        Wait::Connect => "timeout \u{2014} check 'lain status'"@,
        Wait::Tso => "TSO timeout \u{2014} both peers must run 'lain tso' within 102 seconds"@,
        Wait::Find => "not found"@,
    }
}

/// What the user is told of a line, where it ends the wait.
pub open spec fn outcome(wait: Wait, line: ServerLine) -> Option<Seq<char>> {
    if is_text(line.event, "peer_connected"@) {
        let connected = "connected to "@ + text_or(line.peer_id, "?"@);
        Some(
            match wait {
                Wait::Tso => connected + " via "@ + text_or(line.via, "TSO"@),
                _ => connected,
            },
        )
    } else if is_text(line.event, "peer_error"@) {
        let reason = text_or(line.error, "?"@);
        Some(
            match wait {
                Wait::Connect => "connection failed: "@ + reason,
                Wait::Tso => "TSO failed: "@ + reason,
                Wait::Find => "could not connect: "@ + reason,
            },
        )
    } else {
        None
    }
}

/// What comes of a line while the user waits.
#[derive(Debug)]
pub enum WaitStep {
    /// Tell this; the time is up. Then tell, or do not, how both peers can try at the
    /// same time.
    TimedOut { said: String, suggest: bool },
    /// Tell this, and stop waiting.
    Done(String),
    /// Wait on.
    GoOn,
}

/// What comes of a line that the daemon said after so many seconds; there is none
/// where it could not be read.
pub fn wait_step(wait: Wait, elapsed_secs: u64, line: Option<&ServerLine>) -> (r: WaitStep)
    ensures
        r is TimedOut <==> elapsed_secs > match wait {
            Wait::Connect => 130int,
            Wait::Tso => 110,
            Wait::Find => 15,
        },
        if elapsed_secs > patience(wait) {
            r matches WaitStep::TimedOut { said, suggest } && said@ == timeout_text(wait)
                && suggest == (wait is Connect)
        } else {
            match line {
                Some(l) => match outcome(wait, *l) {
                    Some(t) => r matches WaitStep::Done(s) && s@ == t,
                    None => r is GoOn,
                },
                None => r is GoOn,
            }
        },
{
    let limit: u64 = match wait {
        Wait::Connect => 130,
        Wait::Tso => 110,
        Wait::Find => 15,
    };
    if elapsed_secs > limit {
        let said: String = match wait {
            Wait::Connect => "timeout \u{2014} check 'lain status'".to_string(),
            Wait::Tso => {
                "TSO timeout \u{2014} both peers must run 'lain tso' within 102 seconds".to_string()
            },
            Wait::Find => "not found".to_string(),
        };
        return WaitStep::TimedOut { said, suggest: wait == Wait::Connect };
    }
    let l: &ServerLine = match line {
        Some(l) => l,
        None => {
            return WaitStep::GoOn;
        },
    };
    if says(&l.event, "peer_connected") {
        let mut s: String = concat2("connected to ", or(&l.peer_id, "?"));
        match wait {
            Wait::Tso => {
                s.push_str(" via ");
                s.push_str(or(&l.via, "TSO"));
            },
            _ => {},
        }
        return WaitStep::Done(s);
    }
    if says(&l.event, "peer_error") {
        let reason: &str = or(&l.error, "?");
        return WaitStep::Done(
            match wait {
                Wait::Connect => concat2("connection failed: ", reason),
                Wait::Tso => concat2("TSO failed: ", reason),
                Wait::Find => concat2("could not connect: ", reason),
            },
        );
    }
    WaitStep::GoOn
}

/// What the user is told when a peer cannot be reached: how both can try at the same
/// time.
pub fn suggest_tso(own_invite: &str) -> (r: Vec<String>)
    ensures
        r@.len() == 5,
        r@[0]@ == "\nDirect connection failed. To use TSO (TCP simultaneous open):"@,
        r@[1]@ == "  1. Share your invite with the other person:"@,
        r@[2]@ == "     "@ + own_invite@,
        r@[3]@ == "  2. Both of you run within 102 seconds:"@,
        r@[4]@ == "     lain tso <other-person-invite>"@,
{
    let mut r: Vec<String> = Vec::new();
    r.push("\nDirect connection failed. To use TSO (TCP simultaneous open):".to_string());
    r.push("  1. Share your invite with the other person:".to_string());
    r.push(concat2("     ", own_invite));
    r.push("  2. Both of you run within 102 seconds:".to_string());
    r.push("     lain tso <other-person-invite>".to_string());
    r
}

/// What the user who watches is told of a line. Nothing of one that is no event, and
/// nothing of data that cannot be read.
pub open spec fn watched(line: ServerLine) -> Option<Seq<char>> {
    let peer = text_or(line.peer_id, "-"@);
    match line.event {
        None => None,
        Some(event) => if event@ == "peer_connected"@ {
            Some("[connected] "@ + peer)
        } else if event@ == "peer_disconnected"@ {
            Some("[disconnected] "@ + peer)
        } else if event@ == "data"@ {
            match line.bytes {
                None => None,
                Some(b) => match base64_text::base64_decoded(b@) {
                    Ok(data) => Some(
                        "[data] from "@ + peer + " ("@ + text::decimal(data.len()) + " bytes)"@,
                    ),
                    Err(_) => None,
                },
            }
        } else {
            Some("["@ + event@ + "] "@ + peer)
        },
    }
}

/// What the user who watches is told of a line.
pub fn monitor_line(line: &ServerLine) -> (r: Option<String>)
    ensures
        match r {
            Some(s) => watched(*line) == Some(s@),
            None => watched(*line) is None,
        },
{
    let peer: &str = or(&line.peer_id, "-");
    let event: &String = match &line.event {
        Some(e) => e,
        None => {
            return None;
        },
    };
    if same_text(event.as_str(), "peer_connected") {
        return Some(concat2("[connected] ", peer));
    }
    if same_text(event.as_str(), "peer_disconnected") {
        return Some(concat2("[disconnected] ", peer));
    }
    if same_text(event.as_str(), "data") {
        return match &line.bytes {
            None => None,
            Some(b) => match base64_decode(b.as_str()) {
                Ok(data) => {
                    let mut s: String = concat2("[data] from ", peer);
                    s.push_str(" (");
                    push_decimal(&mut s, data.len() as u64);
                    s.push_str(" bytes)");
                    Some(s)
                },
                Err(_) => None,
            },
        };
    }
    let mut s: String = concat2("[", event.as_str());
    s.push_str("] ");
    s.push_str(peer);
    Some(s)
}

/// What the status of the daemon holds, as far as it could be read.
#[derive(Debug)]
pub struct StatusFields {
    pub peer_id: Option<String>,
    pub nat_type: Option<String>,
    pub ipv6: bool,
    pub ipv6_addr: Option<String>,
    pub port_delta: Option<u64>,
    pub stun_rtt_ms: Option<u64>,
    pub dht_nodes: u64,
    pub known_peers: u64,
    pub connected_peers: u64,
    pub peers: Vec<String>,
}

/// Whether the status in a line of the daemon that is this JSON value holds these fields.
/// What is missing there is false or 0 here, or missing too.
pub open spec fn status_holds(v: Value, s: StatusFields) -> bool {
    let data = json::member(Some(v), "data"@);
    &&& json::text_view(s.peer_id) == json::text_under(data, "peer_id"@)
    &&& json::text_view(s.nat_type) == json::text_under(data, "nat_type"@)
    &&& s.ipv6 == (json::truth_under(data, "ipv6"@) == Some(true))
    &&& json::text_view(s.ipv6_addr) == json::text_under(data, "ipv6_addr"@)
    &&& s.port_delta == json::number_under(data, "port_delta"@)
    &&& s.stun_rtt_ms == json::number_under(data, "stun_rtt_ms"@)
    &&& s.dht_nodes == number_or_zero(json::number_under(data, "dht_nodes"@))
    &&& s.known_peers == number_or_zero(json::number_under(data, "known_peers"@))
    &&& s.connected_peers == number_or_zero(json::number_under(data, "connected_peers"@))
    &&& line_views(s.peers@) == json::texts_under(data, "peers"@)
}

/// A number, or 0 where there is none.
pub open spec fn number_or_zero(n: Option<u64>) -> u64 {
    match n {
        Some(x) => x,
        None => 0,
    }
}

/// A number, or 0 where there is none.
fn or_zero(n: Option<u64>) -> (r: u64)
    ensures
        r == number_or_zero(n),
{
    match n {
        Some(x) => x,
        None => 0,
    }
}

/// The status in a line of the daemon that is a JSON value.
pub fn status_of(v: &Value) -> (s: StatusFields)
    ensures
        status_holds(*v, s),
{
    let data: Option<&Value> = get_member(Some(v), "data");
    let ipv6: bool = match get_truth(data, "ipv6") {
        Some(b) => b,
        None => false,
    };
    let peers: Vec<String> = get_texts(data, "peers");
    assert(line_views(peers@) =~= peers@.map_values(|s: String| s@));
    StatusFields {
        peer_id: get_text(data, "peer_id"),
        nat_type: get_text(data, "nat_type"),
        ipv6,
        ipv6_addr: get_text(data, "ipv6_addr"),
        port_delta: get_number(data, "port_delta"),
        stun_rtt_ms: get_number(data, "stun_rtt_ms"),
        dht_nodes: or_zero(get_number(data, "dht_nodes")),
        known_peers: or_zero(get_number(data, "known_peers")),
        connected_peers: or_zero(get_number(data, "connected_peers")),
        peers,
    }
}

/// The status in a line of the daemon. Nothing, where the line is no JSON.
pub fn status_fields(line: &str) -> (r: Option<StatusFields>)
    ensures
        match json::json_parsed(line@) {
            Some(v) => r matches Some(s) && status_holds(v, s),
            None => r is None,
        },
{
    match parse_json(line) {
        Some(v) => Some(status_of(&v)),
        None => None,
    }
}

/// The word for the steps that a NAT takes from port to port.
pub open spec fn port_kind(delta: u64) -> Seq<char> {
    if delta == 1 {
        "port-preserving"@
    } else if delta > 1 {
        "fixed-offset"@
    } else {
        "unknown"@
    }
}

/// The line for the steps that a NAT takes.
pub open spec fn port_line(delta: Option<u64>) -> Seq<Seq<char>> {
    match delta {
        Some(d) => seq![
            "Port:      "@ + port_kind(d) + " (delta="@ + text::decimal(d as nat) + ")"@,
        ],
        None => Seq::empty(),
    }
}

/// The line for the time that an answer takes.
pub open spec fn rtt_line(rtt: Option<u64>) -> Seq<Seq<char>> {
    match rtt {
        Some(r) => seq!["STUN RTT:  "@ + text::decimal(r as nat) + "ms"@],
        None => Seq::empty(),
    }
}

/// The lines for the peers that are connected, with a heading where there is one.
pub open spec fn peer_lines(peers: Seq<String>) -> Seq<Seq<char>> {
    if peers.len() == 0 {
        Seq::empty()
    } else {
        seq!["Peers:"@] + peers.map_values(|p: String| "  "@ + p@)
    }
}

/// What the user is told of the status.
pub open spec fn status_text(s: StatusFields) -> Seq<Seq<char>> {
    seq![
        "PeerID:    "@ + text_or(s.peer_id, "?"@),
        "NAT:       "@ + text_or(s.nat_type, "?"@),
        "IPv6:      "@ + (if s.ipv6 {
            text_or(s.ipv6_addr, "none"@)
        } else {
            "no"@
        }),
    ] + port_line(s.port_delta) + rtt_line(s.stun_rtt_ms) + seq![
        "DHT nodes: "@ + text::decimal(s.dht_nodes as nat),
        "Known:     "@ + text::decimal(s.known_peers as nat),
        "Connected: "@ + text::decimal(s.connected_peers as nat),
    ] + peer_lines(s.peers@)
}

/// Lines of text, as values.
pub open spec fn line_views(lines: Seq<String>) -> Seq<Seq<char>> {
    lines.map_values(|s: String| s@)
}

/// Adds a line.
fn push_line(lines: &mut Vec<String>, line: String)
    ensures
        line_views(final(lines)@) == line_views(old(lines)@).push(line@),
{
    lines.push(line);
    assert(line_views(lines@) =~= line_views(old(lines)@).push(line@));
}

/// A heading with a number.
fn numbered(heading: &str, n: u64) -> (s: String)
    ensures
        s@ == heading@ + text::decimal(n as nat),
{
    let mut s: String = heading.to_string();
    push_decimal(&mut s, n);
    s
}

/// What the user is told of the status.
pub fn status_lines(s: &StatusFields) -> (r: Vec<String>)
    ensures
        line_views(r@) == status_text(*s),
{
    let mut r: Vec<String> = Vec::new();
    assert(line_views(r@) =~= Seq::empty());
    push_line(&mut r, concat2("PeerID:    ", or(&s.peer_id, "?")));
    push_line(&mut r, concat2("NAT:       ", or(&s.nat_type, "?")));
    push_line(
        &mut r,
        concat2(
            "IPv6:      ",
            if s.ipv6 {
                or(&s.ipv6_addr, "none")
            } else {
                "no"
            },
        ),
    );
    match s.port_delta {
        Some(d) => {
            let kind: &str = if d == 1 {
                "port-preserving"
            } else if d > 1 {
                "fixed-offset"
            } else {
                "unknown"
            };
            let mut line: String = concat2("Port:      ", kind);
            line.push_str(" (delta=");
            push_decimal(&mut line, d);
            line.push_str(")");
            push_line(&mut r, line);
        },
        None => {},
    }
    match s.stun_rtt_ms {
        Some(t) => {
            let mut line: String = numbered("STUN RTT:  ", t);
            line.push_str("ms");
            push_line(&mut r, line);
        },
        None => {},
    }
    push_line(&mut r, numbered("DHT nodes: ", s.dht_nodes));
    push_line(&mut r, numbered("Known:     ", s.known_peers));
    push_line(&mut r, numbered("Connected: ", s.connected_peers));
    let ghost before = line_views(r@);
    if s.peers.len() > 0 {
        push_line(&mut r, "Peers:".to_string());
        let ghost head = line_views(r@);
        let ghost named = s.peers@.map_values(|p: String| "  "@ + p@);
        let mut i: usize = 0;
        assert(line_views(r@) =~= head + named.subrange(0, 0));
        while i < s.peers.len()
            invariant
                i <= s.peers@.len(),
                named == s.peers@.map_values(|p: String| "  "@ + p@),
                line_views(r@) == head + named.subrange(0, i as int),
            decreases s.peers@.len() - i,
        {
            push_line(&mut r, concat2("  ", s.peers[i].as_str()));
            i = i + 1;
            assert(line_views(r@) =~= head + named.subrange(0, i as int));
        }
        assert(named.subrange(0, i as int) =~= named);
        assert(line_views(r@) =~= before + peer_lines(s.peers@));
    }
    assert(line_views(r@) =~= status_text(*s));
    r
}

/// For how many seconds a daemon that was started is waited for.
pub const STARTUP_SECS: u32 = 20;

/// What the user is told while a daemon starts, after so many seconds.
pub fn startup_notice(waited: u32) -> (r: Option<String>)
    ensures
        match r {
            Some(s) => waited == 4 && s@ == "still waiting (NAT probe may take a while)..."@,
            None => waited != 4,
        },
{
    if waited == 4 {
        Some("still waiting (NAT probe may take a while)...".to_string())
    } else {
        None
    }
}

/// What the user is told of the answer of a daemon that was started to the question
/// who it is. Nothing yet where it did not answer, or answered that it is busy.
pub fn startup_answer(line: Option<&ServerLine>) -> (r: Option<Vec<String>>)
    ensures
        match line {
            Some(l) => if is_text(l.kind, "Ok"@) {
                &&& r is Some
                &&& line_views(r->0@) == seq![
                    "Lain daemon started"@,
                    "PeerID: "@ + text_or(l.message, "?"@),
                    "Logs: ~/.lain/daemon.log"@,
                ]
            } else {
                r is None
            },
            None => r is None,
        },
{
    match line {
        Some(l) => {
            if !says(&l.kind, "Ok") {
                return None;
            }
            let mut r: Vec<String> = Vec::new();
            assert(line_views(r@) =~= Seq::empty());
            push_line(&mut r, "Lain daemon started".to_string());
            push_line(&mut r, concat2("PeerID: ", or(&l.message, "?")));
            push_line(&mut r, "Logs: ~/.lain/daemon.log".to_string());
            assert(line_views(r@) =~= seq![
                "Lain daemon started"@,
                "PeerID: "@ + text_or(l.message, "?"@),
                "Logs: ~/.lain/daemon.log"@,
            ]);
            Some(r)
        },
        None => None,
    }
}

/// What came of a try to reach a daemon that was started.
#[derive(Debug)]
pub enum StartupEvent {
    /// Its process has ended, with this code.
    Exited(String),
    /// There is no telling whether its process still runs, for some reason.
    Broken(String),
    /// It answered the question who it is.
    Answered(ServerLine),
    /// It does not answer yet.
    Silent,
}

/// What to do about a daemon that was started.
#[derive(Debug)]
pub enum StartupStep {
    /// Tell this, if there is anything to tell, and try once more: look after the
    /// process, wait a second, and ask who the daemon is.
    GoOn(Option<String>),
    /// Tell this; the daemon runs.
    Done(Vec<String>),
    /// Tell this; the daemon does not run.
    Failed(String),
}

/// What follows a try that brought nothing, after so many others.
pub open spec fn tries_again(tries: u32, r: StartupStep) -> bool {
    if tries + 1 < STARTUP_SECS {
        &&& r is GoOn
        &&& match r->GoOn_0 {
            Some(s) => tries + 1 == 4 && s@ == "still waiting (NAT probe may take a while)..."@,
            None => tries + 1 != 4,
        }
    } else {
        r matches StartupStep::Failed(s) && s@ == "daemon failed to start (timeout)"@
    }
}

/// What follows a try to reach a daemon that was started, after so many others.
pub fn startup_step(tries: u32, event: StartupEvent) -> (r: StartupStep)
    ensures
        match event {
            StartupEvent::Exited(code) => r matches StartupStep::Failed(s) && s@
                == "daemon exited unexpectedly (code: "@ + code@ + ")"@,
            StartupEvent::Broken(e) => r matches StartupStep::Failed(s) && s@
                == "daemon process error: "@ + e@,
            StartupEvent::Answered(l) => if is_text(l.kind, "Ok"@) {
                r matches StartupStep::Done(lines) && line_views(lines@) == seq![
                    "Lain daemon started"@,
                    "PeerID: "@ + text_or(l.message, "?"@),
                    "Logs: ~/.lain/daemon.log"@,
                ]
            } else {
                tries_again(tries, r)
            },
            StartupEvent::Silent => tries_again(tries, r),
        },
{
    match event {
        StartupEvent::Exited(code) => {
            let mut s: String = concat2("daemon exited unexpectedly (code: ", code.as_str());
            s.push_str(")");
            return StartupStep::Failed(s);
        },
        StartupEvent::Broken(e) => {
            return StartupStep::Failed(concat2("daemon process error: ", e.as_str()));
        },
        StartupEvent::Answered(l) => {
            match startup_answer(Some(&l)) {
                Some(lines) => {
                    return StartupStep::Done(lines);
                },
                None => {},
            }
        },
        StartupEvent::Silent => {},
    }
    if tries >= STARTUP_SECS - 1 {
        return StartupStep::Failed("daemon failed to start (timeout)".to_string());
    }
    StartupStep::GoOn(startup_notice(tries + 1))
}

/// An invite gets the scheme of its URI where it lacks it, once, and nothing else: what it
/// was still stands at the end of it, and one that has the scheme stays as it is.
pub proof fn law_full_uri(invite: Seq<char>)
    ensures
        ({
            let u = full_uri(invite);
            let n = u.len() as int;
            &&& 7 <= n
            &&& u.subrange(0, 7) == "lain://"@
            &&& full_uri(u) == u
            &&& u.len() == invite.len() || u.len() == invite.len() + 7
            &&& u.subrange(n - invite.len(), n) == invite
            &&& invite.len() >= 7 && invite.subrange(0, 7) == "lain://"@ ==> u == invite
        }),
{
    reveal_strlit("lain://");
    let u = full_uri(invite);
    let n = u.len() as int;
    if !text::begins(invite, "lain://"@) {
        assert(u.subrange(0, 7) =~= "lain://"@);
    }
    assert(u.subrange(n - invite.len(), n) =~= invite);
}

/// Who waits is told of the peer that got connected, and of the reason where none did, by
/// the words of the daemon; a line of any other event, or of none, ends no wait.
pub proof fn law_wait_outcome(wait: Wait, line: ServerLine)
    ensures
        line.event is None ==> outcome(wait, line) is None,
        line.event matches Some(e) ==> (outcome(wait, line) is Some <==> e@ == "peer_connected"@
            || e@ == "peer_error"@),
        line.event matches Some(e) ==> line.peer_id matches Some(p) ==> e@ == "peer_connected"@
            ==> match wait {
            Wait::Tso => outcome(wait, line) == Some(
                "connected to "@ + p@ + " via "@ + (match line.via {
                    Some(v) => v@,
                    None => "TSO"@,
                }),
            ),
            _ => outcome(wait, line) == Some("connected to "@ + p@),
        },
        line.event matches Some(e) ==> line.error matches Some(reason) ==> e@ == "peer_error"@
            ==> outcome(wait, line) == Some(
            match wait {
                Wait::Connect => "connection failed: "@ + reason@,
                Wait::Tso => "TSO failed: "@ + reason@,
                Wait::Find => "could not connect: "@ + reason@,
            },
        ),
        patience(Wait::Connect) == 130 && patience(Wait::Tso) == 110 && patience(Wait::Find) == 15,
{
    reveal_strlit("peer_connected");
    reveal_strlit("peer_error");
    assert("peer_connected"@.len() == 14 && "peer_error"@.len() == 10);
}

/// A request counts as refused exactly where the daemon answered with an error, and then
/// the user is told the words of the daemon.
pub proof fn law_refusal(wait: Wait, line: ServerLine)
    ensures
        refusal(wait, line) is Some <==> (line.kind matches Some(k) && k@ == "Error"@),
        refusal(wait, line) matches Some(s) ==> line.message matches Some(m) ==> s.len()
            >= m@.len() && s.subrange(s.len() - m@.len(), s.len() as int) == m@,
{
    if let Some(s) = refusal(wait, line) {
        if let Some(m) = line.message {
            assert(s.subrange(s.len() - m@.len(), s.len() as int) =~= m@);
        }
    }
}

/// Who watches is told of every event, with the peer that it is about, but for data that
/// cannot be read; and of data how many bytes they are, not how many digits.
pub proof fn law_watched(line: ServerLine, data: Seq<u8>)
    ensures
        line.event is None ==> watched(line) is None,
        line.event matches Some(e) ==> e@ != "data"@ ==> watched(line) is Some,
        line.event matches Some(e) ==> line.peer_id matches Some(p) ==> {
            &&& e@ == "peer_connected"@ ==> watched(line) == Some("[connected] "@ + p@)
            &&& e@ == "peer_disconnected"@ ==> watched(line) == Some("[disconnected] "@ + p@)
            &&& e@ == "data"@ && (line.bytes matches Some(b) && base64_text::base64_decoded(b@)
                is Ok && base64_text::base64_decoded(b@)->Ok_0 == data) ==> watched(line) == Some(
                "[data] from "@ + p@ + " ("@ + text::decimal(data.len()) + " bytes)"@,
            )
            &&& e@ != "peer_connected"@ && e@ != "peer_disconnected"@ && e@ != "data"@
                ==> watched(line) == Some("["@ + e@ + "] "@ + p@)
        },
        line.event matches Some(e) ==> e@ == "data"@ ==> (watched(line) is Some <==> (
        line.bytes matches Some(b) && base64_text::base64_decoded(b@) is Ok)),
{
    reveal_strlit("peer_connected");
    reveal_strlit("peer_disconnected");
    reveal_strlit("data");
    assert("peer_connected"@.len() == 14 && "peer_disconnected"@.len() == 17 && "data"@.len() == 4);
}

/// The status tells, in this order, the peer, the NAT, the IPv6 address where there is one
/// that takes connections, the step of the ports and the time of an answer where they are
/// known, the three counts, and every connected peer in a line of its own.
pub proof fn law_status_text(s: StatusFields)
    ensures
        ({
            let t = status_text(s);
            let p: int = if s.port_delta is Some {
                1
            } else {
                0
            };
            let q: int = if s.stun_rtt_ms is Some {
                1
            } else {
                0
            };
            let n = s.peers@.len() as int;
            &&& t.len() == 6 + p + q + if n == 0 {
                0
            } else {
                n + 1
            }
            &&& s.peer_id matches Some(id) ==> t[0] == "PeerID:    "@ + id@
            &&& s.nat_type matches Some(word) ==> t[1] == "NAT:       "@ + word@
            &&& !s.ipv6 ==> t[2] == "IPv6:      "@ + "no"@
            &&& s.ipv6_addr matches Some(a) ==> s.ipv6 ==> t[2] == "IPv6:      "@ + a@
            &&& s.port_delta matches Some(d) ==> t[3] == "Port:      "@ + (if d == 0 {
                "unknown"@
            } else if d == 1 {
                "port-preserving"@
            } else {
                "fixed-offset"@
            }) + " (delta="@ + text::decimal(d as nat) + ")"@
            &&& s.stun_rtt_ms matches Some(r) ==> t[3 + p] == "STUN RTT:  "@ + text::decimal(
                r as nat,
            ) + "ms"@
            &&& t[3 + p + q] == "DHT nodes: "@ + text::decimal(s.dht_nodes as nat)
            &&& t[4 + p + q] == "Known:     "@ + text::decimal(s.known_peers as nat)
            &&& t[5 + p + q] == "Connected: "@ + text::decimal(s.connected_peers as nat)
            &&& n > 0 ==> t[6 + p + q] == "Peers:"@
            &&& forall|i: int|
                0 <= i < n ==> t[7 + p + q + i] == "  "@ + (#[trigger] s.peers@[i])@
        }),
{
}

/// A daemon that was started is tried twenty times at most. A try that brought nothing ends
/// the wait only if it was the last, or if the daemon no longer runs; the user is told once,
/// after the fourth, that it still goes on.
pub proof fn law_startup(tries: u32, r: StartupStep)
    requires
        tries_again(tries, r),
    ensures
        r is GoOn <==> tries < 19,
        r is Failed <==> tries >= 19,
        r matches StartupStep::GoOn(said) ==> (said is Some <==> tries == 3),
{
}

/// The words of a line of the daemon are those under their names: what it is, what it says,
/// the event and its peer at the top, and the error, the path and the bytes in its data.
pub proof fn law_line(v: Value, line: ServerLine)
    requires
        line_holds(v, line),
    ensures
        line.message matches Some(s) ==> json::text_under(Some(v), "message"@) == Some(s@),
        line.message is None ==> json::text_under(Some(v), "message"@) is None,
        line.kind matches Some(s) ==> json::text_under(Some(v), "type"@) == Some(s@),
        line.kind is None ==> json::text_under(Some(v), "type"@) is None,
        line.event matches Some(s) ==> json::text_under(Some(v), "event"@) == Some(s@),
        line.event is None ==> json::text_under(Some(v), "event"@) is None,
        line.peer_id matches Some(s) ==> json::text_under(Some(v), "peer_id"@) == Some(s@),
        line.peer_id is None ==> json::text_under(Some(v), "peer_id"@) is None,
        ({
            let data = json::member(Some(v), "data"@);
            &&& line.error matches Some(s) ==> json::text_under(data, "error"@) == Some(s@)
            &&& line.via matches Some(s) ==> json::text_under(data, "via"@) == Some(s@)
            &&& line.bytes matches Some(s) ==> json::text_under(data, "bytes"@) == Some(s@)
            &&& line.error is None ==> json::text_under(data, "error"@) is None
            &&& line.via is None ==> json::text_under(data, "via"@) is None
            &&& line.bytes is None ==> json::text_under(data, "bytes"@) is None
        }),
{
}

} // verus!
