use vstd::prelude::*;
use vstd::string::StrSliceExecFns;

use crate::links::{exclusion_text, parse_link_to_exclude, url_parse};
use crate::recipe::Task;
use crate::numbers::{decimal, decimal_chars, is_digit, lemma_decimal_reads_back, parse_usize, unsigned_text_value};
use crate::text::{
    append_chars, ascii_lowercase, chars_equal, chars_of, find_char, find_char_from, first_index_of, has_prefix,
    lemma_first_index_concat, lemma_first_index_of, lowercase, lowercase_of, starts_with, string_of,
};

verus! {

// ---------------------------------------------------------------------------
// Documents passed from the loader to the parser: "<link>:<document>"
// ---------------------------------------------------------------------------

/// The message that carries a downloaded document: the link, `:`, the document.
pub open spec fn document_message(link: Seq<char>, document: Seq<char>) -> Seq<char> {
    link + seq![':'] + document
}

/// Frames a downloaded document with its link, as `format!("{}:{}", link, doc)`.
pub fn compose_document_message(link: &str, document: &str) -> (r: String)
    ensures
        r@ == document_message(link@, document@),
{
    let mut v = chars_of(link);
    v.push(':');
    append_chars(&mut v, &chars_of(document));
    string_of(&v)
}

/// `m` holds at least two `:`.
pub open spec fn has_two_colons(m: Seq<char>) -> bool {
    first_index_of(m, ':') matches Some(i) && first_index_of(m.skip(i + 1), ':') is Some
}

/// The position of the second `:` of `m`.
pub open spec fn second_colon(m: Seq<char>) -> int {
    let i = first_index_of(m, ':')->0;
    i + 1 + first_index_of(m.skip(i + 1), ':')->0
}

/// Decides `has_two_colons`.
pub fn message_has_two_colons(message: &str) -> (r: bool)
    ensures
        r == has_two_colons(message@),
{
    let v = chars_of(message);
    proof {
        lemma_first_index_of(message@, ':');
    }
    match find_char(&v, ':') {
        Some(i) => find_char_from(&v, ':', i + 1).is_some(),
        None => false,
    }
}

/// Splits a document message at its second `:`: the link (whose scheme holds
/// the first `:`) and the document.
pub fn parse_message(message: &str) -> (r: (&str, &str))
    requires
        has_two_colons(message@),
    ensures
        r.0@ == message@.take(second_colon(message@)),
        r.1@ == message@.skip(second_colon(message@) + 1),
{
    let v = chars_of(message);
    proof {
        lemma_first_index_of(message@, ':');
    }
    let first = match find_char(&v, ':') {
        Some(i) => i,
        None => {
            return (message, message);
        },
    };
    let second = match find_char_from(&v, ':', first + 1) {
        Some(j) => j,
        None => {
            return (message, message);
        },
    };
    (message.substring_char(0, second), message.substring_char(second + 1, v.len()))
}

/// The parsing task for a document message: the message's id, the issue, and
/// the link and document that the message carries.
pub fn document_task(message: &str, id: u64, issue_id: u64) -> (t: Task)
    requires
        has_two_colons(message@),
    ensures
        t.id == id,
        t.issue_id == issue_id,
        t.url@ == message@.take(second_colon(message@)),
        t.document_string@ == message@.skip(second_colon(message@) + 1),
{
    let (link, document) = parse_message(message);
    Task { id, issue_id, document_string: document.to_owned(), url: link.to_owned() }
}

/// Splitting a composed message gives back the link and the document, for a
/// link with exactly one `:` (such as `https://host/path`).
pub proof fn law_parse_message_undoes_compose(link: Seq<char>, document: Seq<char>)
    requires
        first_index_of(link, ':') matches Some(i) && first_index_of(link.skip(i + 1), ':') is None,
    ensures
        has_two_colons(document_message(link, document)),
        document_message(link, document).take(second_colon(document_message(link, document)))
            == link,
        document_message(link, document).skip(second_colon(document_message(link, document)) + 1)
            == document,
{
    let m = document_message(link, document);
    let i = first_index_of(link, ':')->0;
    lemma_first_index_of(link, ':');
    lemma_first_index_concat(link, seq![':'] + document, ':');
    assert(m == link + (seq![':'] + document));
    assert(first_index_of(m, ':') == Some(i));
    let rest = link.skip(i + 1);
    assert(m.skip(i + 1) == rest + (seq![':'] + document));
    lemma_first_index_concat(rest, seq![':'] + document, ':');
    assert(first_index_of(seq![':'] + document, ':') == Some(0int));
    assert(first_index_of(m.skip(i + 1), ':') == Some(rest.len() as int));
    assert(second_colon(m) == link.len());
    assert(m.take(link.len() as int) == link);
    assert(m.skip(link.len() as int + 1) == document);
}

// ---------------------------------------------------------------------------
// Requests typed by the user into the web page: "<command>: <payload>"
// ---------------------------------------------------------------------------

/// `m` has a `:` followed by a one-byte character, so that the payload starts
/// two bytes after the `:`.
pub open spec fn has_payload(m: Seq<char>) -> bool {
    first_index_of(m, ':') matches Some(i) && i + 1 < m.len() && (m[i + 1] as u32) < 128
}

/// What follows the first `:` and the character after it.
pub open spec fn request_payload(m: Seq<char>) -> Seq<char> {
    m.skip(first_index_of(m, ':')->0 + 2)
}

/// Decides `has_payload`.
pub fn request_has_payload(message: &str) -> (r: bool)
    ensures
        r == has_payload(message@),
{
    let v = chars_of(message);
    proof {
        lemma_first_index_of(message@, ':');
    }
    match find_char(&v, ':') {
        Some(i) => i + 1 < v.len() && (v[i + 1] as u32) < 128,
        None => false,
    }
}

/// The payload of a request: what follows the first `:` and the space after it.
pub fn parse_request(message: &str) -> (r: &str)
    requires
        has_payload(message@),
    ensures
        r@ == request_payload(message@),
{
    let v = chars_of(message);
    proof {
        lemma_first_index_of(message@, ':');
    }
    match find_char(&v, ':') {
        Some(i) => message.substring_char(i + 2, v.len()),
        None => message,
    }
}

/// A request of the user.
pub enum UserCommand {
    StartUrl(String),
    Exclude(String),
    SetLimit(usize),
    FlushRedis,
    FlushInfluxDb,
    Malformed,
    Ignored,
}

/// The view of a `UserCommand`.
pub enum CommandView {
    StartUrl(Seq<char>),
    Exclude(Seq<char>),
    SetLimit(nat),
    FlushRedis,
    FlushInfluxDb,
    Malformed,
    Ignored,
}

impl View for UserCommand {
    type V = CommandView;

    open spec fn view(&self) -> CommandView {
        match self {
            UserCommand::StartUrl(s) => CommandView::StartUrl(s@),
            UserCommand::Exclude(s) => CommandView::Exclude(s@),
            UserCommand::SetLimit(n) => CommandView::SetLimit(*n as nat),
            UserCommand::FlushRedis => CommandView::FlushRedis,
            UserCommand::FlushInfluxDb => CommandView::FlushInfluxDb,
            UserCommand::Malformed => CommandView::Malformed,
            UserCommand::Ignored => CommandView::Ignored,
        }
    }
}

/// `"start_url: "`
pub open spec fn start_url_prefix() -> Seq<char> {
    seq!['s', 't', 'a', 'r', 't', '_', 'u', 'r', 'l', ':', ' ']
}

/// `"excluded: "`
pub open spec fn excluded_prefix() -> Seq<char> {
    seq!['e', 'x', 'c', 'l', 'u', 'd', 'e', 'd', ':', ' ']
}

/// `"set_limit"`
pub open spec fn set_limit_prefix() -> Seq<char> {
    seq!['s', 'e', 't', '_', 'l', 'i', 'm', 'i', 't']
}

/// `"flush Redis"`
pub open spec fn flush_redis_text() -> Seq<char> {
    seq!['f', 'l', 'u', 's', 'h', ' ', 'R', 'e', 'd', 'i', 's']
}

/// `"flush influxDB"`
pub open spec fn flush_influx_text() -> Seq<char> {
    seq!['f', 'l', 'u', 's', 'h', ' ', 'i', 'n', 'f', 'l', 'u', 'x', 'D', 'B']
}

/// The request that the message `m` makes. A `start_url: ` message asks to
/// start a crawl; an `excluded: ` message adds a link to skip when it is a
/// valid URL; a message whose lower-cased form starts with `set_limit` sets the
/// page limit when its payload is a number (`Malformed` when it has no
/// payload); the two flush requests compare the lower-cased message.
pub open spec fn command_of(m: Seq<char>) -> CommandView {
    if has_prefix(m, start_url_prefix()) {
        CommandView::StartUrl(request_payload(m))
    } else if has_prefix(m, excluded_prefix()) {
        let link = exclusion_text(request_payload(m));
        if url_parse(link) is Some {
            CommandView::Exclude(link)
        } else {
            CommandView::Ignored
        }
    } else if has_prefix(lowercase(m), set_limit_prefix()) {
        if !has_payload(m) {
            CommandView::Malformed
        } else {
            match unsigned_text_value(request_payload(m)) {
                Some(n) => if n <= usize::MAX {
                    CommandView::SetLimit(n)
                } else {
                    CommandView::Ignored
                },
                None => CommandView::Ignored,
            }
        }
    } else if lowercase(m) == flush_redis_text() {
        CommandView::FlushRedis
    } else if lowercase(m) == flush_influx_text() {
        CommandView::FlushInfluxDb
    } else {
        CommandView::Ignored
    }
}

proof fn lemma_prefix_colon(m: Seq<char>, p: Seq<char>, k: int)
    requires
        has_prefix(m, p),
        0 <= k < p.len() - 1,
        p[k] == ':',
        p[k + 1] == ' ',
        forall|j: int| 0 <= j < k ==> p[j] != ':',
    ensures
        has_payload(m),
        first_index_of(m, ':') == Some(k),
{
    assert(m == p.take(k + 1) + m.skip(k + 1)) by {
        assert forall|j: int| 0 <= j <= k implies m[j] == p[j] by {
            assert(m.take(p.len() as int)[j] == m[j]);
        }
    }
    lemma_first_index_of(p.take(k + 1), ':');
    assert forall|j: int| 0 <= j < k implies #[trigger] p.take(k + 1)[j] != ':' by {}
    assert(p.take(k + 1)[k] == ':');
    let t = p.take(k + 1);
    if first_index_of(t, ':') is None {
        assert(t[k] != ':');
    }
    lemma_first_index_concat(t, m.skip(k + 1), ':');
    assert(m[k + 1] == m.take(p.len() as int)[k + 1]);
}

/// Reads the request that `message` makes.
pub fn user_command(message: &str) -> (r: UserCommand)
    ensures
        r@ == command_of(message@),
        forall|n: usize|
            message@ == set_limit_request_prefix() + #[trigger] decimal(n as nat) ==> r@
                == CommandView::SetLimit(n as nat),
{
    proof {
        assert forall|n: usize|
            message@ == set_limit_request_prefix() + #[trigger] decimal(n as nat) implies !has_prefix(
            message@,
            start_url_prefix(),
        ) && !has_prefix(message@, excluded_prefix()) by {
            lemma_set_limit_text(n as nat);
        }
    }
    let v = chars_of(message);
    let start: [char; 11] = ['s', 't', 'a', 'r', 't', '_', 'u', 'r', 'l', ':', ' '];
    let excluded: [char; 10] = ['e', 'x', 'c', 'l', 'u', 'd', 'e', 'd', ':', ' '];
    let set_limit: [char; 9] = ['s', 'e', 't', '_', 'l', 'i', 'm', 'i', 't'];
    let flush_redis: [char; 11] = ['f', 'l', 'u', 's', 'h', ' ', 'R', 'e', 'd', 'i', 's'];
    let flush_influx: [char; 14] = [
        'f',
        'l',
        'u',
        's',
        'h',
        ' ',
        'i',
        'n',
        'f',
        'l',
        'u',
        'x',
        'D',
        'B',
    ];
    assert(start@ =~= start_url_prefix());
    assert(excluded@ =~= excluded_prefix());
    assert(set_limit@ =~= set_limit_prefix());
    assert(flush_redis@ =~= flush_redis_text());
    assert(flush_influx@ =~= flush_influx_text());
    if starts_with(&v, &start) {
        proof {
            lemma_prefix_colon(message@, start_url_prefix(), 9);
        }
        return UserCommand::StartUrl(parse_request(message).to_owned());
    }
    if starts_with(&v, &excluded) {
        proof {
            lemma_prefix_colon(message@, excluded_prefix(), 8);
        }
        let link = parse_request(message);
        return match parse_link_to_exclude(link) {
            Some(l) => UserCommand::Exclude(l),
            None => UserCommand::Ignored,
        };
    }
    let low_s = lowercase_of(message);
    let low = chars_of(low_s.as_str());
    proof {
        assert forall|n: usize|
            message@ == set_limit_request_prefix() + #[trigger] decimal(n as nat) implies command_of(
            message@,
        ) == CommandView::SetLimit(n as nat) by {
            lemma_set_limit_text(n as nat);
            let m = set_limit_request_prefix() + decimal(n as nat);
            assert(m.take(9) == seq!['s', 'e', 't', '_', 'l', 'i', 'm', 'i', 't']);
            law_set_limit_request(n as nat);
        }
    }
    if starts_with(&low, &set_limit) {
        if !request_has_payload(message) {
            return UserCommand::Malformed;
        }
        let payload = chars_of(parse_request(message));
        return match parse_usize(&payload) {
            Some(n) => UserCommand::SetLimit(n),
            None => UserCommand::Ignored,
        };
    }
    if chars_equal(&low, &flush_redis) {
        return UserCommand::FlushRedis;
    }
    if chars_equal(&low, &flush_influx) {
        return UserCommand::FlushInfluxDb;
    }
    UserCommand::Ignored
}

/// A start request made of `"start_url: "` and a link asks to start a crawl
/// at that link, and an exclusion request made of `"excluded: "` and a link
/// asks to skip the normalized link when it is a valid URL.
pub proof fn law_requests_carry_their_link(link: Seq<char>)
    ensures
        command_of(start_url_prefix() + link) == CommandView::StartUrl(link),
        url_parse(exclusion_text(link)) is Some ==> command_of(excluded_prefix() + link)
            == CommandView::Exclude(exclusion_text(link)),
        url_parse(exclusion_text(link)) is None ==> command_of(excluded_prefix() + link)
            == CommandView::Ignored,
{
    let m = start_url_prefix() + link;
    assert(m.take(11) == start_url_prefix());
    lemma_prefix_colon(m, start_url_prefix(), 9);
    assert(m.skip(11) == link);
    let e = excluded_prefix() + link;
    assert(e.take(10) == excluded_prefix());
    assert(!has_prefix(e, start_url_prefix())) by {
        if e.len() >= 11 {
            assert(e.take(11)[0] == 'e');
        }
    }
    lemma_prefix_colon(e, excluded_prefix(), 8);
    assert(e.skip(10) == link);
}

/// `"set_limit: "`
pub open spec fn set_limit_request_prefix() -> Seq<char> {
    seq!['s', 'e', 't', '_', 'l', 'i', 'm', 'i', 't', ':', ' ']
}

/// The text of a limit request is ASCII without capitals, and starts with
/// neither a start nor an exclusion request.
proof fn lemma_set_limit_text(n: nat)
    ensures
        !has_prefix(set_limit_request_prefix() + decimal(n), start_url_prefix()),
        !has_prefix(set_limit_request_prefix() + decimal(n), excluded_prefix()),
        forall|i: int|
            0 <= i < (set_limit_request_prefix() + decimal(n)).len() ==> ((#[trigger] (
            set_limit_request_prefix() + decimal(n))[i]) as u32) < 128,
        ascii_lowercase(set_limit_request_prefix() + decimal(n)) == set_limit_request_prefix()
            + decimal(n),
{
    let m = set_limit_request_prefix() + decimal(n);
    lemma_decimal_reads_back(n);
    assert(m[1] == 'e');
    assert(m[0] == 's');
    if has_prefix(m, start_url_prefix()) {
        assert(m.take(11)[1] == m[1]);
    }
    if has_prefix(m, excluded_prefix()) {
        assert(m.take(10)[0] == m[0]);
    }
    assert forall|i: int| 0 <= i < m.len() implies ((#[trigger] m[i]) as u32) < 128 && !('A' <= m[i]
        && m[i] <= 'Z') by {
        if i >= 11 {
            assert(m[i] == decimal(n)[i - 11]);
            assert(is_digit(decimal(n)[i - 11]));
        }
    }
    assert(ascii_lowercase(m) =~= m);
}

/// A request made of "set_limit: " and the decimal form of a page limit `n`
/// sets the limit to `n`, for every `n` that a `usize` holds, zero (which
/// lifts the limit) included, whenever its lower-cased form still starts with
/// "set_limit" (as the lower-cased form of this all-ASCII lower-case text
/// does).
pub proof fn law_set_limit_request(n: nat)
    requires
        n <= usize::MAX,
        has_prefix(
            lowercase(set_limit_request_prefix() + decimal(n)),
            seq!['s', 'e', 't', '_', 'l', 'i', 'm', 'i', 't'],
        ),
    ensures
        command_of(set_limit_request_prefix() + decimal(n)) == CommandView::SetLimit(n),
{
    let m = set_limit_request_prefix() + decimal(n);
    lemma_decimal_reads_back(n);
    assert(m[1] == 'e');
    assert(m[0] == 's');
    if has_prefix(m, start_url_prefix()) {
        assert(m.take(11)[1] == m[1]);
    }
    if has_prefix(m, excluded_prefix()) {
        assert(m.take(10)[0] == m[0]);
    }
    assert(m.take(11) == set_limit_request_prefix());
    lemma_prefix_colon(m, set_limit_request_prefix(), 9);
    assert(request_payload(m) == decimal(n));
}

/// `"Current limit: <n>"`, followed by `" (no restrictions)"` for zero.
pub open spec fn limit_reply(n: nat) -> Seq<char> {
    "Current limit: "@ + decimal(n) + if n == 0 {
        " (no restrictions)"@
    } else {
        Seq::empty()
    }
}

/// Writes the reply to a new page limit.
pub fn limit_reply_text(n: usize) -> (r: String)
    ensures
        r@ == limit_reply(n as nat),
{
    let mut v = chars_of("Current limit: ");
    append_chars(&mut v, &decimal_chars(n));
    if n == 0 {
        append_chars(&mut v, &chars_of(" (no restrictions)"));
    } else {
        assert(v@ + Seq::<char>::empty() =~= v@);
    }
    string_of(&v)
}

/// What the web server does for one request.
pub enum ServerAction {
    /// Hands the start link to the loaders and records it.
    PublishStartUrl(String),
    /// Sends a text back to the user.
    Reply(String),
    /// Adds a link to the excluded links.
    AddExcludedLink(String),
    /// Tells the loader the new page limit.
    ForwardLimit(usize),
    /// Records the new page limit.
    StoreLimit(usize),
    /// Empties the key-value store, then tells the user how that went.
    FlushRedis,
    /// Empties the time-series bucket.
    FlushInfluxDb,
    /// Gives up on the request stream: the request had no payload.
    Abort,
}

/// The view of a `ServerAction`.
pub enum ActionView {
    PublishStartUrl(Seq<char>),
    Reply(Seq<char>),
    AddExcludedLink(Seq<char>),
    ForwardLimit(nat),
    StoreLimit(nat),
    FlushRedis,
    FlushInfluxDb,
    Abort,
}

impl View for ServerAction {
    type V = ActionView;

    open spec fn view(&self) -> ActionView {
        match self {
            ServerAction::PublishStartUrl(s) => ActionView::PublishStartUrl(s@),
            ServerAction::Reply(s) => ActionView::Reply(s@),
            ServerAction::AddExcludedLink(s) => ActionView::AddExcludedLink(s@),
            ServerAction::ForwardLimit(n) => ActionView::ForwardLimit(*n as nat),
            ServerAction::StoreLimit(n) => ActionView::StoreLimit(*n as nat),
            ServerAction::FlushRedis => ActionView::FlushRedis,
            ServerAction::FlushInfluxDb => ActionView::FlushInfluxDb,
            ServerAction::Abort => ActionView::Abort,
        }
    }
}

/// The views of a sequence of actions.
pub open spec fn actions_view(v: Seq<ServerAction>) -> Seq<ActionView> {
    v.map_values(|a: ServerAction| a@)
}

/// `"state: working"`
pub open spec fn working_reply() -> Seq<char> {
    "state: working"@
}

/// Whether a crawl runs after the command, and the actions for it. A start
/// request publishes its link only when no crawl runs yet.
pub open spec fn plan(running: bool, cmd: CommandView) -> (bool, Seq<ActionView>) {
    match cmd {
        CommandView::StartUrl(link) => if running {
            (true, seq![ActionView::Reply(working_reply())])
        } else {
            (true, seq![ActionView::PublishStartUrl(link), ActionView::Reply(working_reply())])
        },
        CommandView::Exclude(link) => (
            running,
            seq![ActionView::AddExcludedLink(link), ActionView::Reply(link)],
        ),
        CommandView::SetLimit(n) => (
            running,
            seq![ActionView::ForwardLimit(n), ActionView::StoreLimit(n), ActionView::Reply(limit_reply(n))],
        ),
        CommandView::FlushRedis => (running, seq![ActionView::FlushRedis]),
        CommandView::FlushInfluxDb => (running, seq![ActionView::FlushInfluxDb]),
        CommandView::Malformed => (running, seq![ActionView::Abort]),
        CommandView::Ignored => (running, Seq::empty()),
    }
}

/// The state of the web server: whether a crawl has been started.
pub struct ServerState {
    pub running: bool,
}

/// Handles one request of the user: the state after it and the actions to
/// perform, in order.
pub fn handle_user_message(state: ServerState, message: &str) -> (r: (ServerState, Vec<ServerAction>))
    ensures
        (r.0.running, actions_view(r.1@)) == plan(state.running, command_of(message@)),
{
    let cmd = user_command(message);
    let mut actions: Vec<ServerAction> = Vec::new();
    let mut running = state.running;
    match cmd {
        UserCommand::StartUrl(link) => {
            if !running {
                actions.push(ServerAction::PublishStartUrl(link));
                running = true;
            }
            actions.push(ServerAction::Reply("state: working".to_owned()));
        },
        UserCommand::Exclude(link) => {
            let reply = link.clone();
            actions.push(ServerAction::AddExcludedLink(link));
            actions.push(ServerAction::Reply(reply));
        },
        UserCommand::SetLimit(n) => {
            actions.push(ServerAction::ForwardLimit(n));
            actions.push(ServerAction::StoreLimit(n));
            actions.push(ServerAction::Reply(limit_reply_text(n)));
        },
        UserCommand::FlushRedis => {
            actions.push(ServerAction::FlushRedis);
        },
        UserCommand::FlushInfluxDb => {
            actions.push(ServerAction::FlushInfluxDb);
        },
        UserCommand::Malformed => {
            actions.push(ServerAction::Abort);
        },
        UserCommand::Ignored => {},
    }
    assert(actions_view(actions@) =~= plan(state.running, command_of(message@)).1);
    (ServerState { running }, actions)
}

/// A start request when no crawl runs publishes its link and then answers
/// "state: working"; when a crawl runs it only answers. Either way a crawl runs
/// afterwards.
pub proof fn law_start_request_actions(running: bool, link: Seq<char>)
    ensures
        !running ==> plan(running, CommandView::StartUrl(link)) == (
            true,
            seq![ActionView::PublishStartUrl(link), ActionView::Reply("state: working"@)],
        ),
        running ==> plan(running, CommandView::StartUrl(link)) == (
            true,
            seq![ActionView::Reply("state: working"@)],
        ),
{
}

/// A limit request tells the loader the new limit, records it and answers
/// "Current limit: " and the limit in decimal, followed by " (no restrictions)"
/// for zero; it leaves the crawl as it is.
pub proof fn law_limit_request_actions(running: bool, n: nat)
    ensures
        plan(running, CommandView::SetLimit(n)) == (
            running,
            seq![
                ActionView::ForwardLimit(n),
                ActionView::StoreLimit(n),
                ActionView::Reply(
                    "Current limit: "@ + decimal(n) + if n == 0 {
                        " (no restrictions)"@
                    } else {
                        Seq::empty()
                    },
                ),
            ],
        ),
{
}

/// An exclusion request adds its link to the excluded links and echoes it; a
/// malformed limit request gives up the request stream; an ignored request
/// does nothing. None of them changes whether a crawl runs.
pub proof fn law_other_request_actions(running: bool, link: Seq<char>)
    ensures
        plan(running, CommandView::Exclude(link)) == (
            running,
            seq![ActionView::AddExcludedLink(link), ActionView::Reply(link)],
        ),
        plan(running, CommandView::Malformed) == (running, seq![ActionView::Abort]),
        plan(running, CommandView::Ignored) == (running, Seq::<ActionView>::empty()),
{
}

/// The number of publications of a start link among `actions`.
pub open spec fn publications(actions: Seq<ActionView>) -> nat
    decreases actions.len(),
{
    if actions.len() == 0 {
        0
    } else {
        publications(actions.drop_last()) + if actions.last() is PublishStartUrl {
            1nat
        } else {
            0nat
        }
    }
}

/// The state after a session of messages and all the actions taken, in order.
pub open spec fn session(running: bool, messages: Seq<Seq<char>>) -> (bool, Seq<ActionView>)
    decreases messages.len(),
{
    if messages.len() == 0 {
        (running, Seq::empty())
    } else {
        let before = session(running, messages.drop_last());
        let step = plan(before.0, command_of(messages.last()));
        (step.0, before.1 + step.1)
    }
}

proof fn lemma_publications_concat(a: Seq<ActionView>, b: Seq<ActionView>)
    ensures
        publications(a + b) == publications(a) + publications(b),
    decreases b.len(),
{
    if b.len() == 0 {
        assert(a + b == a);
    } else {
        lemma_publications_concat(a, b.drop_last());
        assert((a + b).drop_last() == a + b.drop_last());
    }
}

/// Once a crawl runs it keeps running, and over any session of requests the
/// start link is published at most once, and not at all when a crawl already
/// ran at the start.
pub proof fn law_start_link_published_at_most_once(running: bool, messages: Seq<Seq<char>>)
    ensures
        running ==> session(running, messages).0,
        publications(session(running, messages).1) <= 1,
        running ==> publications(session(running, messages).1) == 0,
        publications(session(running, messages).1) == 1 ==> session(running, messages).0,
        !session(running, messages).0 ==> publications(session(running, messages).1) == 0,
    decreases messages.len(),
{
    if messages.len() > 0 {
        let before = session(running, messages.drop_last());
        law_start_link_published_at_most_once(running, messages.drop_last());
        let step = plan(before.0, command_of(messages.last()));
        lemma_publications_concat(before.1, step.1);
        reveal_with_fuel(publications, 3);
        assert(step.1.drop_last().drop_last().len() == 0 ==> step.1.drop_last().drop_last()
            =~= Seq::<ActionView>::empty());
        match command_of(messages.last()) {
            CommandView::StartUrl(link) => {
                if before.0 {
                    assert(step.1.drop_last() =~= Seq::<ActionView>::empty());
                } else {
                    assert(step.1.drop_last().drop_last() =~= Seq::<ActionView>::empty());
                }
            },
            CommandView::SetLimit(n) => {
                assert(step.1.drop_last().drop_last().drop_last() =~= Seq::<ActionView>::empty());
                assert(publications(step.1) == 0) by {
                    reveal_with_fuel(publications, 4);
                }
            },
            _ => {
                if step.1.len() > 0 {
                    assert(step.1.drop_last().len() <= 1);
                }
            },
        }
    }
}

// ---------------------------------------------------------------------------
// The page limit of the loader
// ---------------------------------------------------------------------------

/// The loader counts the pages it starts only when a limit is set.
pub fn pages_are_counted(limit: usize) -> (r: bool)
    ensures
        r == (limit > 0),
{
    limit > 0
}

/// A set limit is exceeded by the count of pages started.
pub open spec fn limit_exceeded(limit: nat, started_pages: nat) -> bool {
    limit > 0 && started_pages > limit
}

/// The loader stops once the pages started, this one included, exceed a set
/// limit.
pub fn load_limit_reached(limit: usize, started_pages: u64) -> (r: bool)
    ensures
        r == limit_exceeded(limit as nat, started_pages as nat),
{
    limit > 0 && started_pages as u128 > limit as u128
}

/// How many messages of a run the loader handles, given the count of started
/// pages after each message was counted: it stops at the first message whose
/// count exceeds the limit, without handling it.
pub open spec fn handled_messages(limit: nat, counts: Seq<nat>) -> nat
    decreases counts.len(),
{
    if counts.len() == 0 {
        0
    } else if limit_exceeded(limit, counts[0]) {
        0
    } else {
        1 + handled_messages(limit, counts.drop_first())
    }
}

/// The counts of started pages after each of `n` messages, when the counter
/// stood at `start` and only the loader adds to it.
pub open spec fn counts_from(start: nat, n: nat) -> Seq<nat> {
    Seq::new(n, |i: int| (start + i + 1) as nat)
}

/// Over a run of `n` messages, with the counter of started pages at `start`
/// and no other writer: without a limit every message is handled; with a
/// limit, the loader handles as many as the limit leaves room for, and every
/// page it handles keeps the count within the limit.
pub proof fn law_page_limit_over_a_run(limit: nat, start: nat, n: nat)
    ensures
        limit == 0 ==> handled_messages(limit, counts_from(start, n)) == n,
        limit > 0 ==> handled_messages(limit, counts_from(start, n)) == if start >= limit {
            0
        } else if n <= limit - start {
            n
        } else {
            (limit - start) as nat
        },
        forall|i: int|
            0 <= i < handled_messages(limit, counts_from(start, n)) ==> !limit_exceeded(
                limit,
                #[trigger] counts_from(start, n)[i],
            ),
    decreases n,
{
    if n > 0 {
        law_page_limit_over_a_run(limit, start + 1, (n - 1) as nat);
        assert(counts_from(start, n).drop_first() == counts_from(start + 1, (n - 1) as nat));
        assert forall|i: int|
            0 <= i < handled_messages(limit, counts_from(start, n)) implies !limit_exceeded(
            limit,
            #[trigger] counts_from(start, n)[i],
        ) by {
            if i > 0 {
                assert(counts_from(start, n)[i] == counts_from(start + 1, (n - 1) as nat)[i - 1]);
            }
        }
    }
}

/// The text a health check answers: healthy once the worker's loop runs.
pub fn health_text(healthy_bit: usize) -> (r: &'static str)
    ensures
        r@ == if healthy_bit == 1 {
            "Healthy!"@
        } else {
            "Not healthy"@
        },
{
    if healthy_bit == 1 {
        "Healthy!"
    } else {
        "Not healthy"
    }
}

} // verus!
