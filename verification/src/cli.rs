//! The command-line client's decisions: which request an operation makes,
//! and how times and messages are shown.

use crate::ipc::{IpcRequest, StatusResponse};
use crate::text::{decimal, push_decimal, push_text};
use vstd::prelude::*;

verus! {

/// `n` (below 100) in two digits.
pub open spec fn two_digits(n: nat) -> Seq<char> {
    if n < 10 {
        seq!['0'] + decimal(n)
    } else {
        decimal(n)
    }
}

/// The time of day of `unix_secs`, as hours, minutes and seconds.
pub open spec fn clock_text(unix_secs: nat) -> Seq<char> {
    two_digits((unix_secs / 3600) % 24) + seq![':'] + two_digits((unix_secs / 60) % 60) + seq![':']
        + two_digits(unix_secs % 60)
}

fn push_two_digits(s: &mut String, n: u64)
    requires
        n < 100,
    ensures
        final(s)@ == old(s)@ + two_digits(n as nat),
{
    let ghost start = s@;
    if n < 10 {
        crate::text::push_char(s, '0');
    }
    push_decimal(s, n as u128);
    assert(s@ =~= start + two_digits(n as nat));
}

/// Simple timestamp formatter: the time of day, `HH:MM:SS`, of a Unix time in seconds
pub fn chrono_lite(unix_secs: u64) -> (r: String)
    ensures
        r@ == clock_text(unix_secs as nat),
{
    let secs = unix_secs % 60;
    let mins = (unix_secs / 60) % 60;
    let hours = (unix_secs / 3600) % 24;
    let mut s = String::new();
    push_two_digits(&mut s, hours);
    crate::text::push_char(&mut s, ':');
    push_two_digits(&mut s, mins);
    crate::text::push_char(&mut s, ':');
    push_two_digits(&mut s, secs);
    assert(s@ =~= clock_text(unix_secs as nat));
    s
}

/// Why an operation makes no request.
#[derive(Debug)]
pub enum CliError {
    /// A put names no value
    ValueRequired,
    /// The operation is none of put, delete and get
    UnknownOperation { operation: String },
}

/// What a client error says.
pub fn cli_error_text(e: &CliError) -> (r: String)
    ensures
        r@ == match e {
            CliError::ValueRequired => "Value required for put operation"@,
            CliError::UnknownOperation { operation } => "Unknown operation: "@ + operation@,
        },
{
    match e {
        CliError::ValueRequired => "Value required for put operation".to_owned(),
        CliError::UnknownOperation { operation } => {
            let mut s = String::new();
            push_text(&mut s, "Unknown operation: ");
            push_text(&mut s, operation.as_str());
            s
        },
    }
}

/// Whether two texts are the same.
fn same_text(a: &str, b: &str) -> (r: bool)
    ensures
        r == (a@ == b@),
{
    a.to_owned() == b.to_owned()
}

/// The request that a key-value operation makes: a put stores the value,
/// a delete proposes no value, a get reads the key.
pub fn propose_request(operation: &str, key: &str, value: Option<&str>) -> (r: Result<IpcRequest, CliError>)
    ensures
        operation@ == "put"@ ==> match value {
            Some(v) => r matches Ok(IpcRequest::Propose { key: k, value: Some(w) }) && k@ == key@ && w@ == v@,
            None => r matches Err(CliError::ValueRequired),
        },
        operation@ == "delete"@ ==> (r matches Ok(IpcRequest::Propose { key: k, value: None }) && k@ == key@),
        operation@ == "get"@ ==> (r matches Ok(IpcRequest::Get { key: k }) && k@ == key@),
        operation@ != "put"@ && operation@ != "delete"@ && operation@ != "get"@ ==> (r matches Err(
            CliError::UnknownOperation { operation: o },
        ) && o@ == operation@),
{
    proof {
        reveal_strlit("put");
        reveal_strlit("delete");
        reveal_strlit("get");
        assert("delete"@.len() == 6);
        assert("put"@.len() == 3);
        assert("get"@.len() == 3);
        assert("get"@[0] != "put"@[0]);
    }
    if same_text(operation, "put") {
        match value {
            Some(v) => Ok(IpcRequest::Propose { key: key.to_owned(), value: Some(v.to_owned()) }),
            None => Err(CliError::ValueRequired),
        }
    } else if same_text(operation, "delete") {
        Ok(IpcRequest::Propose { key: key.to_owned(), value: None })
    } else if same_text(operation, "get") {
        Ok(IpcRequest::Get { key: key.to_owned() })
    } else {
        Err(CliError::UnknownOperation { operation: operation.to_owned() })
    }
}

/// How a message is shown: its time of day, sender and text.
pub fn message_line(timestamp_ms: u64, from: &str, text: &str) -> (r: String)
    ensures
        r@ == seq!['['] + clock_text((timestamp_ms / 1000) as nat) + "] "@ + from@ + ": "@ + text@,
{
    let mut s = String::new();
    crate::text::push_char(&mut s, '[');
    let clock = chrono_lite(timestamp_ms / 1000);
    push_text(&mut s, clock.as_str());
    push_text(&mut s, "] ");
    push_text(&mut s, from);
    push_text(&mut s, ": ");
    push_text(&mut s, text);
    assert(s@ =~= seq!['['] + clock_text((timestamp_ms / 1000) as nat) + "] "@ + from@ + ": "@ + text@);
    s
}

/// What identifies a message already shown while watching: its timestamp and text.
pub fn watch_key(timestamp_ms: u64, text: &str) -> (r: String)
    ensures
        r@ == decimal(timestamp_ms as nat) + seq![':'] + text@,
{
    let mut s = String::new();
    push_decimal(&mut s, timestamp_ms as u128);
    crate::text::push_char(&mut s, ':');
    push_text(&mut s, text);
    assert(s@ =~= decimal(timestamp_ms as nat) + seq![':'] + text@);
    s
}


/// A text within double quotes.
pub open spec fn quoted(t: Seq<char>) -> Seq<char> {
    seq!['"'] + t + seq!['"']
}

/// The texts `ps`, each quoted, separated by a comma and a space.
pub open spec fn quoted_items(ps: Seq<Seq<char>>) -> Seq<char>
    decreases ps.len(),
{
    if ps.len() == 0 {
        Seq::empty()
    } else if ps.len() == 1 {
        quoted(ps[0])
    } else {
        quoted_items(ps.drop_last()) + ", "@ + quoted(ps.last())
    }
}

/// A list of names as the status shows it: `["a", "b"]`.
pub open spec fn name_list(ps: Seq<Seq<char>>) -> Seq<char> {
    seq!['['] + quoted_items(ps) + seq![']']
}

/// The lines that show a node's status.
pub open spec fn status_text(s: StatusResponse) -> Seq<Seq<char>> {
    seq![
        "RAFT Cluster Status"@,
        "=================="@,
        "Node ID:      "@ + s.node_id@,
        "Role:         "@ + s.role@,
        "Current Term: "@ + decimal(s.current_term as nat),
        "Commit Index: "@ + decimal(s.commit_index as nat),
        "Last Applied: "@ + decimal(s.last_applied as nat),
        "Leader:       "@ + match s.leader_id {
            Some(l) => l@,
            None => "(none)"@,
        },
        "Peers:        "@ + name_list(s.peers@.map_values(|p: String| p@)),
    ]
}

/// The list of peers as the status shows it, each identifier within quotes.
fn push_name_list(out: &mut String, peers: &Vec<String>)
    ensures
        final(out)@ == old(out)@ + name_list(peers@.map_values(|p: String| p@)),
{
    let ghost start = out@;
    let ghost ps = peers@.map_values(|p: String| p@);
    crate::text::push_char(out, '[');
    let mut i: usize = 0;
    while i < peers.len()
        invariant
            i <= peers@.len(),
            ps == peers@.map_values(|p: String| p@),
            out@ == start + seq!['['] + quoted_items(ps.take(i as int)),
        decreases peers@.len() - i,
    {
        let ghost before = out@;
        if i > 0 {
            push_text(out, ", ");
        }
        crate::text::push_char(out, '"');
        push_text(out, peers[i].as_str());
        crate::text::push_char(out, '"');
        proof {
            let t = ps.take(i + 1);
            assert(t.drop_last() =~= ps.take(i as int));
            assert(t.last() == peers@[i as int]@);
            if i == 0 {
                assert(quoted_items(ps.take(0)) =~= Seq::<char>::empty());
                assert(out@ =~= start + seq!['['] + quoted_items(t));
            } else {
                assert(out@ =~= start + seq!['['] + quoted_items(t));
            }
        }
        i = i + 1;
    }
    assert(ps.take(i as int) =~= ps);
    crate::text::push_char(out, ']');
    assert(out@ =~= start + name_list(ps));
}

/// The lines that show a node's status: a title, the node, its role, term,
/// commit index and last applied index, its leader (or "(none)") and its
/// peers as a list of quoted names.
pub fn status_lines(s: &StatusResponse) -> (r: Vec<String>)
    ensures
        r@.map_values(|l: String| l@) == status_text(*s),
{
    let mut lines: Vec<String> = Vec::new();
    lines.push("RAFT Cluster Status".to_owned());
    lines.push("==================".to_owned());
    let mut l = String::new();
    push_text(&mut l, "Node ID:      ");
    push_text(&mut l, s.node_id.as_str());
    lines.push(l);
    let mut l = String::new();
    push_text(&mut l, "Role:         ");
    push_text(&mut l, s.role.as_str());
    lines.push(l);
    let mut l = String::new();
    push_text(&mut l, "Current Term: ");
    push_decimal(&mut l, s.current_term as u128);
    lines.push(l);
    let mut l = String::new();
    push_text(&mut l, "Commit Index: ");
    push_decimal(&mut l, s.commit_index as u128);
    lines.push(l);
    let mut l = String::new();
    push_text(&mut l, "Last Applied: ");
    push_decimal(&mut l, s.last_applied as u128);
    lines.push(l);
    let mut l = String::new();
    push_text(&mut l, "Leader:       ");
    match &s.leader_id {
        Some(id) => push_text(&mut l, id.as_str()),
        None => push_text(&mut l, "(none)"),
    }
    lines.push(l);
    let mut l = String::new();
    push_text(&mut l, "Peers:        ");
    push_name_list(&mut l, &s.peers);
    lines.push(l);
    assert(lines@.map_values(|l: String| l@) =~= status_text(*s));
    lines
}


/// A line the client prints, on standard output or on standard error.
#[derive(Debug)]
pub enum Shown {
    Out(String),
    Error(String),
}

/// A printed line as text.
pub enum ShownView {
    Out(Seq<char>),
    Error(Seq<char>),
}

/// The printed lines as text.
pub open spec fn shown_view(s: Seq<Shown>) -> Seq<ShownView> {
    s.map_values(
        |l: Shown|
            match l {
                Shown::Out(t) => ShownView::Out(t@),
                Shown::Error(t) => ShownView::Error(t@),
            },
    )
}

/// The texts `a`, `b`, `c` and `d`, one after the other.
fn text_of(a: &str, b: &str, c: &str, d: &str) -> (r: String)
    ensures
        r@ == a@ + b@ + c@ + d@,
{
    let mut s = String::new();
    push_text(&mut s, a);
    push_text(&mut s, b);
    push_text(&mut s, c);
    push_text(&mut s, d);
    s
}

/// What the client prints after a join.
pub fn join_lines(success: bool, node_id: &str, address: &str, message: &str) -> (r: Vec<Shown>)
    ensures
        shown_view(r@) == (if success {
            seq![ShownView::Out("✓ Successfully joined "@ + node_id@ + " at "@ + address@)]
        } else {
            seq![ShownView::Error("✗ Failed to join: "@ + message@)]
        }),
{
    let mut r: Vec<Shown> = Vec::new();
    if success {
        r.push(Shown::Out(text_of("✓ Successfully joined ", node_id, " at ", address)));
    } else {
        r.push(Shown::Error(text_of("✗ Failed to join: ", message, "", "")));
    }
    proof {
        reveal_strlit("");
    }
    assert(shown_view(r@) =~= (if success {
        seq![ShownView::Out("✓ Successfully joined "@ + node_id@ + " at "@ + address@)]
    } else {
        seq![ShownView::Error("✗ Failed to join: "@ + message@)]
    }));
    r
}

/// What the client prints after a leave.
pub fn leave_lines(success: bool, node_id: &str, message: &str) -> (r: Vec<Shown>)
    ensures
        shown_view(r@) == (if success {
            seq![ShownView::Out("✓ Successfully removed "@ + node_id@)]
        } else {
            seq![ShownView::Error("✗ Failed to remove: "@ + message@)]
        }),
{
    proof {
        reveal_strlit("");
    }
    let mut r: Vec<Shown> = Vec::new();
    if success {
        r.push(Shown::Out(text_of("✓ Successfully removed ", node_id, "", "")));
    } else {
        r.push(Shown::Error(text_of("✗ Failed to remove: ", message, "", "")));
    }
    assert(shown_view(r@) =~= (if success {
        seq![ShownView::Out("✓ Successfully removed "@ + node_id@)]
    } else {
        seq![ShownView::Error("✗ Failed to remove: "@ + message@)]
    }));
    r
}

/// The hint line after a refusal, when the answer names the leader.
pub open spec fn hint_view(prefix: Seq<char>, leader: Option<String>) -> Seq<ShownView> {
    match leader {
        Some(l) => seq![ShownView::Error(prefix + l@)],
        None => Seq::empty(),
    }
}

/// What the client prints after a key-value operation: on success, what
/// was set or deleted, or the value read (`got` is `Some(None)` when the key
/// is not found and `None` when the answer shows no value); on failure, the
/// reason and the leader to try.
pub fn propose_lines(
    operation: &str,
    key: &str,
    value: Option<&str>,
    success: bool,
    message: &str,
    got: Option<Option<String>>,
    leader: Option<String>,
) -> (r: Vec<Shown>)
    ensures
        shown_view(r@) == (if success {
            if operation@ == "put"@ {
                seq![ShownView::Out("✓ Set "@ + key@ + "="@ + match value { Some(v) => v@, None => Seq::<char>::empty() })]
            } else if operation@ == "delete"@ {
                seq![ShownView::Out("✓ Deleted "@ + key@)]
            } else if operation@ == "get"@ {
                match got {
                    Some(None) => seq![ShownView::Out(key@ + ": (not found)"@)],
                    Some(Some(v)) => seq![ShownView::Out(key@ + ": "@ + v@)],
                    None => Seq::empty(),
                }
            } else {
                Seq::empty()
            }
        } else {
            seq![ShownView::Error("✗ Operation failed: "@ + message@)] + hint_view(
                "  Hint: Try connecting to leader node: "@,
                leader,
            )
        }),
{
    proof {
        reveal_strlit("");
    }
    let mut r: Vec<Shown> = Vec::new();
    if success {
        if same_text(operation, "put") {
            let v = match value {
                Some(v) => v,
                None => "",
            };
            r.push(Shown::Out(text_of("✓ Set ", key, "=", v)));
        } else if same_text(operation, "delete") {
            r.push(Shown::Out(text_of("✓ Deleted ", key, "", "")));
        } else if same_text(operation, "get") {
            match &got {
                Some(None) => r.push(Shown::Out(text_of(key, ": (not found)", "", ""))),
                Some(Some(v)) => r.push(Shown::Out(text_of(key, ": ", v.as_str(), ""))),
                None => {},
            }
        }
    } else {
        r.push(Shown::Error(text_of("✗ Operation failed: ", message, "", "")));
        match &leader {
            Some(l) => r.push(Shown::Error(text_of("  Hint: Try connecting to leader node: ", l.as_str(), "", ""))),
            None => {},
        }
    }
    let ghost expected = if success {
        if operation@ == "put"@ {
            seq![ShownView::Out("✓ Set "@ + key@ + "="@ + match value { Some(v) => v@, None => Seq::<char>::empty() })]
        } else if operation@ == "delete"@ {
            seq![ShownView::Out("✓ Deleted "@ + key@)]
        } else if operation@ == "get"@ {
            match got {
                Some(None) => seq![ShownView::Out(key@ + ": (not found)"@)],
                Some(Some(v)) => seq![ShownView::Out(key@ + ": "@ + v@)],
                None => Seq::empty(),
            }
        } else {
            Seq::empty()
        }
    } else {
        seq![ShownView::Error("✗ Operation failed: "@ + message@)] + hint_view(
            "  Hint: Try connecting to leader node: "@,
            leader,
        )
    };
    assert(shown_view(r@) =~= expected);
    r
}

/// What the client prints after sending a message: on success, the message
/// and the log index it was replicated at, when the answer says; on
/// failure, the reason and the leader to send from.
pub fn send_lines(
    text: &str,
    success: bool,
    message: &str,
    index: Option<u64>,
    leader: Option<String>,
) -> (r: Vec<Shown>)
    ensures
        shown_view(r@) == (if success {
            seq![ShownView::Out("✓ Message sent: \""@ + text@ + "\""@)] + match index {
                Some(i) => seq![ShownView::Out("  Replicated at log index "@ + decimal(i as nat))],
                None => Seq::empty(),
            }
        } else {
            seq![ShownView::Error("✗ Failed to send: "@ + message@)] + hint_view(
                "  Hint: Send from leader node: "@,
                leader,
            )
        }),
{
    let mut r: Vec<Shown> = Vec::new();
    if success {
        r.push(Shown::Out(text_of("✓ Message sent: \"", text, "\"", "")));
        match index {
            Some(i) => {
                let mut l = String::new();
                push_text(&mut l, "  Replicated at log index ");
                push_decimal(&mut l, i as u128);
                r.push(Shown::Out(l));
            },
            None => {},
        }
    } else {
        r.push(Shown::Error(text_of("✗ Failed to send: ", message, "", "")));
        match &leader {
            Some(l) => r.push(Shown::Error(text_of("  Hint: Send from leader node: ", l.as_str(), "", ""))),
            None => {},
        }
    }
    proof {
        reveal_strlit("");
    }
    let ghost expected = if success {
        seq![ShownView::Out("✓ Message sent: \""@ + text@ + "\""@)] + match index {
            Some(i) => seq![ShownView::Out("  Replicated at log index "@ + decimal(i as nat))],
            None => Seq::empty(),
        }
    } else {
        seq![ShownView::Error("✗ Failed to send: "@ + message@)] + hint_view(
            "  Hint: Send from leader node: "@,
            leader,
        )
    };
    assert(shown_view(r@) =~= expected);
    r
}

/// A rule of fifty equals signs.
pub open spec fn rule_text() -> Seq<char> {
    Seq::new(50, |i: int| '=')
}

/// A rule of fifty equals signs.
fn rule() -> (r: String)
    ensures
        r@ == rule_text(),
{
    let mut s = String::new();
    let mut i: usize = 0;
    while i < 50
        invariant
            i <= 50,
            s@ == Seq::new(i as nat, |j: int| '='),
        decreases 50 - i,
    {
        crate::text::push_char(&mut s, '=');
        i = i + 1;
        assert(s@ =~= Seq::new(i as nat, |j: int| '='));
    }
    s
}

/// The lines of the messages `ms` (timestamp in milliseconds, sender, text).
pub open spec fn message_lines_view(ms: Seq<(u64, Seq<char>, Seq<char>)>) -> Seq<ShownView> {
    ms.map_values(
        |m: (u64, Seq<char>, Seq<char>)|
            ShownView::Out(seq!['['] + clock_text((m.0 / 1000) as nat) + "] "@ + m.1 + ": "@ + m.2),
    )
}

/// What the client prints for the recent messages: on success, the last
/// applied index under a rule when the answer gives it, then each message or
/// "(no messages)" when the answer lists them; on failure, the reason.
pub fn messages_lines(
    success: bool,
    message: &str,
    last_applied: Option<u64>,
    messages: Option<Vec<(u64, String, String)>>,
) -> (r: Vec<Shown>)
    ensures
        shown_view(r@) == (if success {
            (match last_applied {
                Some(a) => seq![
                    ShownView::Out("Messages (last applied index: "@ + decimal(a as nat) + ")"@),
                    ShownView::Out(rule_text()),
                ],
                None => Seq::empty(),
            }) + match messages {
                Some(ms) => if ms@.len() == 0 {
                    seq![ShownView::Out("(no messages)"@)]
                } else {
                    message_lines_view(ms@.map_values(|m: (u64, String, String)| (m.0, m.1@, m.2@)))
                },
                None => Seq::empty(),
            }
        } else {
            seq![ShownView::Error("✗ Failed to get messages: "@ + message@)]
        }),
{
    proof {
        reveal_strlit("");
    }
    let mut r: Vec<Shown> = Vec::new();
    if !success {
        r.push(Shown::Error(text_of("✗ Failed to get messages: ", message, "", "")));
        assert(shown_view(r@) =~= seq![ShownView::Error("✗ Failed to get messages: "@ + message@)]);
        return r;
    }
    match last_applied {
        Some(a) => {
            let mut l = String::new();
            push_text(&mut l, "Messages (last applied index: ");
            push_decimal(&mut l, a as u128);
            push_text(&mut l, ")");
            r.push(Shown::Out(l));
            r.push(Shown::Out(rule()));
        },
        None => {},
    }
    let ghost head = shown_view(r@);
    assert(head =~= (match last_applied {
        Some(a) => seq![
            ShownView::Out("Messages (last applied index: "@ + decimal(a as nat) + ")"@),
            ShownView::Out(rule_text()),
        ],
        None => Seq::<ShownView>::empty(),
    }));
    match &messages {
        Some(ms) => {
            if ms.len() == 0 {
                r.push(Shown::Out("(no messages)".to_owned()));
                assert(shown_view(r@) =~= head + seq![ShownView::Out("(no messages)"@)]);
            } else {
                let ghost mv = ms@.map_values(|m: (u64, String, String)| (m.0, m.1@, m.2@));
                let mut i: usize = 0;
                while i < ms.len()
                    invariant
                        i <= ms@.len(),
                        mv == ms@.map_values(|m: (u64, String, String)| (m.0, m.1@, m.2@)),
                        shown_view(r@) == head + message_lines_view(mv.take(i as int)),
                    decreases ms@.len() - i,
                {
                    let (ts, from, text) = &ms[i];
                    let line = message_line(*ts, from.as_str(), text.as_str());
                    let ghost before = shown_view(r@);
                    r.push(Shown::Out(line));
                    assert(mv.take(i + 1) =~= mv.take(i as int).push(mv[i as int]));
                    assert(message_lines_view(mv.take(i + 1)) =~= message_lines_view(mv.take(i as int)).push(
                        ShownView::Out(line@),
                    ));
                    assert(shown_view(r@) =~= before.push(ShownView::Out(line@)));
                    i = i + 1;
                }
                assert(mv.take(i as int) =~= mv);
            }
        },
        None => {
            assert(shown_view(r@) =~= head + Seq::<ShownView>::empty());
        },
    }
    r
}


/// What the client prints when the status cannot be had.
pub fn status_failed_lines(message: &str) -> (r: Vec<Shown>)
    ensures
        shown_view(r@) == seq![ShownView::Error("✗ Failed to get status: "@ + message@)],
{
    proof {
        reveal_strlit("");
    }
    let mut r: Vec<Shown> = Vec::new();
    r.push(Shown::Error(text_of("✗ Failed to get status: ", message, "", "")));
    assert(shown_view(r@) =~= seq![ShownView::Error("✗ Failed to get status: "@ + message@)]);
    r
}

/// What the client prints when it starts to watch node `node`.
pub fn watch_header(node: &str) -> (r: Vec<Shown>)
    ensures
        shown_view(r@) == seq![
            ShownView::Out("Watching for messages on "@ + node@ + " (Ctrl+C to stop)..."@),
            ShownView::Out(rule_text()),
        ],
{
    proof {
        reveal_strlit("");
    }
    let mut r: Vec<Shown> = Vec::new();
    r.push(Shown::Out(text_of("Watching for messages on ", node, " (Ctrl+C to stop)...", "")));
    r.push(Shown::Out(rule()));
    assert(shown_view(r@) =~= seq![
        ShownView::Out("Watching for messages on "@ + node@ + " (Ctrl+C to stop)..."@),
        ShownView::Out(rule_text()),
    ]);
    r
}

} // verus!
