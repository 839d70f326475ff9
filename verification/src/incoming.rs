//! Incoming traffic: cutting a socket text block into messages, and what
//! each message asks of the client.

use vstd::prelude::*;
use crate::text::{chars_of, string_of, literal};
use crate::json::{JsonValue, PlainJson, lookup, text_of, find_key, parsed_json, parse_json, plain_text, decodable, decodable_items, decodable_members, compact_text, compact_members, key_before, denotes, denotes_items, denotes_members};
use crate::messages::{ws_text, frame_text};
use crate::processor::QPInput;

verus! {

/// The frame marker `~m~` stands at index `i` of `s`.
pub open spec fn marker_at(s: Seq<char>, i: int) -> bool {
    0 <= i && i + 3 <= s.len() && s[i] == '~' && s[i + 1] == 'm' && s[i + 2] == '~'
}

/// The pieces of `s` between occurrences of `~m~`, found left to right
/// without overlap, as `str::split` gives them (empty pieces included).
pub open spec fn split_on_marker(s: Seq<char>) -> Seq<Seq<char>>
    decreases s.len(),
{
    if s.len() < 3 {
        seq![s]
    } else if marker_at(s, 0) {
        seq![Seq::<char>::empty()] + split_on_marker(s.skip(3))
    } else {
        let r = split_on_marker(s.drop_first());
        r.update(0, seq![s[0]] + r[0])
    }
}

/// The pieces at even positions of `q`.
pub open spec fn every_other(q: Seq<Seq<char>>) -> Seq<Seq<char>> {
    Seq::new(((q.len() + 1) / 2) as nat, |k: int| q[2 * k])
}

/// The non-empty pieces of `q`, in order.
pub open spec fn non_empty(q: Seq<Seq<char>>) -> Seq<Seq<char>> {
    q.filter(|p: Seq<char>| p.len() > 0)
}

/// `q` without its first element (empty when `q` is).
pub open spec fn after_first(q: Seq<Seq<char>>) -> Seq<Seq<char>> {
    if q.len() == 0 { q } else { q.skip(1) }
}

/// The messages of a socket text block: split at `~m~`, empty pieces
/// dropped, then every second piece from the second on (the pieces between
/// are the length prefixes).
pub open spec fn raw_messages(s: Seq<char>) -> Seq<Seq<char>> {
    every_other(after_first(non_empty(split_on_marker(s))))
}

/// The texts of a list of strings.
pub open spec fn string_texts(v: Seq<String>) -> Seq<Seq<char>> {
    v.map_values(|x: String| x@)
}

/// The texts of a list of char vectors.
pub open spec fn char_texts(v: Seq<Vec<char>>) -> Seq<Seq<char>> {
    v.map_values(|x: Vec<char>| x@)
}

/// Splitting always gives at least one piece.
pub proof fn lemma_split_nonempty(s: Seq<char>)
    ensures
        split_on_marker(s).len() >= 1,
    decreases s.len(),
{
    if s.len() >= 3 {
        if marker_at(s, 0) {
            lemma_split_nonempty(s.skip(3));
        } else {
            lemma_split_nonempty(s.drop_first());
        }
    }
}

/// The pieces of `s`, split at `~m~`.
fn split_pieces(s: &[char]) -> (r: Vec<Vec<char>>)
    ensures
        char_texts(r@) == split_on_marker(s@),
{
    let n = s.len();
    let mut pieces: Vec<Vec<char>> = Vec::new();
    let mut cur: Vec<char> = Vec::new();
    let mut i: usize = 0;
    proof {
        assert(s@.skip(0) =~= s@);
        lemma_split_nonempty(s@);
        assert(split_on_marker(s@).update(0, Seq::<char>::empty() + split_on_marker(s@)[0])
            =~= split_on_marker(s@));
        assert(char_texts(pieces@) =~= Seq::<Seq<char>>::empty());
    }
    while i < n
        invariant
            n == s@.len(),
            i <= n,
            split_on_marker(s@) == char_texts(pieces@) + split_on_marker(s@.skip(i as int)).update(
                0,
                cur@ + split_on_marker(s@.skip(i as int))[0],
            ),
        decreases n - i,
    {
        let ghost t = s@.skip(i as int);
        let ghost old_pieces = char_texts(pieces@);
        let ghost old_cur = cur@;
        proof {
            lemma_split_nonempty(t);
        }
        if n - i >= 3 && s[i] == '~' && s[i + 1] == 'm' && s[i + 2] == '~' {
            proof {
                assert(marker_at(t, 0));
                assert(t.skip(3) =~= s@.skip(i + 3));
                lemma_split_nonempty(t.skip(3));
            }
            let done = cur;
            pieces.push(done);
            cur = Vec::new();
            i = i + 3;
            proof {
                let t2 = s@.skip(i as int);
                assert(char_texts(pieces@) =~= old_pieces.push(old_cur));
                assert(split_on_marker(t2).update(0, cur@ + split_on_marker(t2)[0]) =~= split_on_marker(t2));
                assert(split_on_marker(t).update(0, old_cur + split_on_marker(t)[0])
                    =~= seq![old_cur] + split_on_marker(t2));
            }
        } else {
            let c = s[i];
            cur.push(c);
            i = i + 1;
            proof {
                let t2 = s@.skip(i as int);
                assert(t2 =~= t.drop_first());
                lemma_split_nonempty(t2);
                if t.len() >= 3 {
                    assert(!marker_at(t, 0));
                    let r = split_on_marker(t2);
                    assert(split_on_marker(t) == r.update(0, seq![t[0]] + r[0]));
                    assert(old_cur + (seq![t[0]] + r[0]) =~= cur@ + r[0]);
                    assert(split_on_marker(t).update(0, old_cur + split_on_marker(t)[0])
                        =~= r.update(0, cur@ + r[0]));
                } else {
                    assert(split_on_marker(t) == seq![t]);
                    assert(split_on_marker(t2) == seq![t2]);
                    assert(old_cur + t =~= cur@ + t2);
                    assert(split_on_marker(t).update(0, old_cur + split_on_marker(t)[0])
                        =~= split_on_marker(t2).update(0, cur@ + split_on_marker(t2)[0]));
                }
            }
        }
    }
    let ghost last = cur@;
    pieces.push(cur);
    proof {
        let t = s@.skip(n as int);
        assert(t.len() == 0);
        assert(split_on_marker(t) == seq![t]);
        assert(last + t =~= last);
        assert(char_texts(pieces@) =~= split_on_marker(s@));
    }
    pieces
}

/// Taking one more piece adds it to the non-empty pieces when it is not empty.
proof fn lemma_non_empty_step(q: Seq<Seq<char>>, j: int)
    requires
        0 <= j < q.len(),
    ensures
        non_empty(q.take(j + 1)) == if q[j].len() > 0 {
            non_empty(q.take(j)).push(q[j])
        } else {
            non_empty(q.take(j))
        },
{
    reveal(Seq::filter);
    assert(q.take(j + 1).drop_last() =~= q.take(j));
    assert(q.take(j + 1).last() == q[j]);
}

/// The messages of the socket text block `msg` (see [`raw_messages`]).
pub fn split_raw_msg(msg: &str) -> (r: Vec<String>)
    ensures
        string_texts(r@) == raw_messages(msg@),
{
    let chars = chars_of(msg);
    let pieces = split_pieces(chars.as_slice());
    let ghost q = char_texts(pieces@);
    let mut out: Vec<String> = Vec::new();
    let mut count: usize = 0;
    let mut j: usize = 0;
    proof {
        assert(q.take(0) =~= Seq::<Seq<char>>::empty());
        reveal(Seq::filter);
        assert(non_empty(q.take(0)) =~= Seq::<Seq<char>>::empty());
        assert(string_texts(out@) =~= every_other(after_first(non_empty(q.take(0)))));
    }
    while j < pieces.len()
        invariant
            j <= pieces@.len(),
            q == char_texts(pieces@),
            q.len() == pieces@.len(),
            count == non_empty(q.take(j as int)).len(),
            count <= j,
            string_texts(out@) == every_other(after_first(non_empty(q.take(j as int)))),
        decreases pieces@.len() - j,
    {
        let ghost f = non_empty(q.take(j as int));
        let ghost before = string_texts(out@);
        proof {
            lemma_non_empty_step(q, j as int);
            assert(q[j as int] == pieces@[j as int]@);
        }
        if pieces[j].len() > 0 {
            proof {
                let f2 = f.push(q[j as int]);
                if count == 0 {
                    assert(after_first(f2) =~= Seq::<Seq<char>>::empty());
                    assert(after_first(f) =~= Seq::<Seq<char>>::empty());
                } else {
                    assert(after_first(f2) =~= after_first(f).push(q[j as int]));
                }
            }
            if count % 2 == 1 {
                let text = string_of(pieces[j].as_slice());
                out.push(text);
                proof {
                    let f2 = f.push(q[j as int]);
                    assert(string_texts(out@) =~= before.push(q[j as int]));
                    assert(every_other(after_first(f2)) =~= every_other(after_first(f)).push(q[j as int]));
                }
            } else {
                proof {
                    let f2 = f.push(q[j as int]);
                    assert(every_other(after_first(f2)) =~= every_other(after_first(f)));
                }
            }
            count = count + 1;
        }
        j = j + 1;
    }
    proof {
        assert(q.take(q.len() as int) =~= q);
    }
    out
}

/// `p` is a prefix of `s`.
pub open spec fn has_prefix(s: Seq<char>, p: Seq<char>) -> bool {
    p.len() <= s.len() && s.subrange(0, p.len() as int) == p
}

/// `p` occurs somewhere in `s`.
pub open spec fn occurs_in(s: Seq<char>, p: Seq<char>) -> bool {
    exists|i: int| 0 <= i && i + p.len() <= s.len() && #[trigger] s.subrange(i, i + p.len()) == p
}

/// The heartbeat prefix `~h~`.
pub open spec fn heartbeat() -> Seq<char> {
    seq!['~', 'h', '~']
}

/// The text that marks the session-information message.
pub open spec fn session_info_tag() -> Seq<char> {
    seq!['a', 'u', 't', 'h', '_', 's', 'c', 'h', 'e', 'm', 'e', '_', 'v', 's', 'n']
}

/// What an incoming message is.
#[derive(Debug)]
pub enum MessageKind {
    /// A heartbeat; the text to echo back on the socket.
    Ping(String),
    /// The session information sent on connecting.
    SessionInfo,
    /// A JSON command, to be decoded and interpreted.
    Command,
    /// Anything else.
    Unprocessed,
}

/// `p` stands at index `i` of `s`.
fn matches_at(s: &[char], i: usize, p: &[char]) -> (r: bool)
    requires
        i + p@.len() <= s@.len(),
    ensures
        r == (s@.subrange(i as int, i + p@.len()) == p@),
{
    let n = s.len();
    let mut k: usize = 0;
    while k < p.len()
        invariant
            k <= p@.len(),
            n == s@.len(),
            i + p@.len() <= s@.len(),
            forall|m: int| 0 <= m < k ==> s@[i + m] == p@[m],
        decreases p@.len() - k,
    {
        if s[i + k] != p[k] {
            proof {
                assert(s@.subrange(i as int, i + p@.len())[k as int] != p@[k as int]);
            }
            return false;
        }
        k = k + 1;
    }
    proof {
        assert(s@.subrange(i as int, i + p@.len()) =~= p@);
    }
    true
}

/// Whether `p` occurs in `s`.
fn occurs(s: &[char], p: &[char]) -> (r: bool)
    ensures
        r == occurs_in(s@, p@),
{
    if p.len() > s.len() {
        return false;
    }
    let last = s.len() - p.len();
    let mut i: usize = 0;
    loop
        invariant
            i <= last,
            last + p@.len() == s@.len(),
            forall|j: int| 0 <= j < i ==> #[trigger] s@.subrange(j, j + p@.len()) != p@,
        decreases last - i,
    {
        if matches_at(s, i, p) {
            return true;
        }
        if i == last {
            return false;
        }
        i = i + 1;
    }
}

/// What the message `msg` is: a heartbeat (starting `~h~`), echoed back
/// framed; else the session information (holding `auth_scheme_vsn`); else a
/// JSON command (starting `{`); else unprocessed.
pub fn classify_message(msg: &str) -> (r: MessageKind)
    ensures
        has_prefix(msg@, heartbeat()) ==> (r matches MessageKind::Ping(t) && t@ == ws_text(msg@)),
        !has_prefix(msg@, heartbeat()) && occurs_in(msg@, session_info_tag())
            ==> r is SessionInfo,
        !has_prefix(msg@, heartbeat()) && !occurs_in(msg@, session_info_tag())
            && has_prefix(msg@, seq!['{']) ==> r is Command,
        !has_prefix(msg@, heartbeat()) && !occurs_in(msg@, session_info_tag())
            && !has_prefix(msg@, seq!['{']) ==> r is Unprocessed,
{
    let chars = chars_of(msg);
    let hb: [char; 3] = ['~', 'h', '~'];
    let hbv = hb.as_slice();
    assert(hbv@ =~= heartbeat());
    if chars.len() >= 3 && matches_at(chars.as_slice(), 0, hbv) {
        return MessageKind::Ping(frame_text(msg));
    }
    proof {
        if has_prefix(msg@, heartbeat()) {
            assert(chars@.subrange(0, 3) == heartbeat());
        }
    }
    let tag: [char; 15] = ['a', 'u', 't', 'h', '_', 's', 'c', 'h', 'e', 'm', 'e', '_', 'v', 's', 'n'];
    let tagv = tag.as_slice();
    assert(tagv@ =~= session_info_tag());
    if occurs(chars.as_slice(), tagv) {
        return MessageKind::SessionInfo;
    }
    if chars.len() >= 1 && chars[0] == '{' {
        assert(chars@.subrange(0, 1) =~= seq!['{']);
        return MessageKind::Command;
    }
    proof {
        if has_prefix(msg@, seq!['{']) {
            assert(chars@.subrange(0, 1)[0] == chars@[0]);
        }
    }
    MessageKind::Unprocessed
}

/// Member names and values read from a command.
pub open spec fn key_m() -> Seq<char> { seq!['m'] }
pub open spec fn key_p() -> Seq<char> { seq!['p'] }
pub open spec fn quote_data_method() -> Seq<char> { seq!['q', 's', 'd'] }

/// Why a command was refused.
#[derive(Debug, Clone, Copy, PartialEq, Eq, Structural)]
pub enum CommandError {
    /// The command is not a JSON object.
    NotObject,
    /// The parameters `p` are not an array.
    NotArray,
    /// The first parameter (the session id) is not a string.
    NotString,
    /// There is no second parameter (the data).
    NoData,
    /// The message is not JSON.
    NotJson,
    /// A member or parameter that interpreting the command reads is missing
    /// (see [`command_defined`]).
    Incomplete,
}

/// Each member and parameter that interpreting `cmd` reads is present: `m`;
/// where `m` is `qsd`, also `p`, and where `p` is an array, its first
/// element.
pub open spec fn command_defined(cmd: JsonValue) -> bool {
    cmd matches JsonValue::Object(entries) ==> {
        &&& lookup(entries@, key_m()) is Some
        &&& text_of(lookup(entries@, key_m())->0) == Some(quote_data_method()) ==> {
            &&& lookup(entries@, key_p()) is Some
            &&& (lookup(entries@, key_p())->0 matches JsonValue::Array(params) ==> params@.len() >= 1)
        }
    }
}

/// What interpreting `cmd` gives: a quote-data command `qsd` with
/// parameters `[id, data, ...]` is the update `data` for session `id`; any
/// other method is ignored.
pub open spec fn command_outcome(cmd: JsonValue) -> Result<Option<QPInput>, CommandError> {
    match cmd {
        JsonValue::Object(entries) => {
            if text_of(lookup(entries@, key_m())->0) != Some(quote_data_method()) {
                Ok(None)
            } else {
                match lookup(entries@, key_p())->0 {
                    JsonValue::Array(params) => match params@[0] {
                        JsonValue::Str(id) => if params@.len() >= 2 {
                            Ok(Some(QPInput::Update(id, params@[1])))
                        } else {
                            Err(CommandError::NoData)
                        },
                        _ => Err(CommandError::NotString),
                    },
                    _ => Err(CommandError::NotArray),
                }
            }
        },
        _ => Err(CommandError::NotObject),
    }
}

/// Whether every member that interpreting `cmd` reads is present (see
/// [`command_defined`]).
pub fn command_is_defined(cmd: &JsonValue) -> (r: bool)
    ensures
        r == command_defined(*cmd),
{
    let entries = match cmd {
        JsonValue::Object(entries) => entries,
        _ => return true,
    };
    let km = literal("m");
    let kp = literal("p");
    let qsd = literal("qsd");
    proof {
        reveal_strlit("m");
        reveal_strlit("p");
        reveal_strlit("qsd");
        assert(km@ =~= key_m());
        assert(kp@ =~= key_p());
        assert(qsd@ =~= quote_data_method());
    }
    let mi = match find_key(entries, &km) {
        Some(i) => i,
        None => return false,
    };
    let is_qsd = match &entries[mi].1 {
        JsonValue::Str(m) => *m == qsd,
        _ => false,
    };
    if !is_qsd {
        return true;
    }
    let pi = match find_key(entries, &kp) {
        Some(i) => i,
        None => return false,
    };
    match &entries[pi].1 {
        JsonValue::Array(params) => params.len() >= 1,
        _ => true,
    }
}

/// Interprets the decoded command `cmd` (see [`command_outcome`]).
pub fn interpret_command(cmd: JsonValue) -> (r: Result<Option<QPInput>, CommandError>)
    requires
        command_defined(cmd),
    ensures
        r == command_outcome(cmd),
{
    let ghost c = cmd;
    let mut entries = match cmd {
        JsonValue::Object(entries) => entries,
        _ => return Err(CommandError::NotObject),
    };
    let km = literal("m");
    let kp = literal("p");
    let qsd = literal("qsd");
    proof {
        reveal_strlit("m");
        reveal_strlit("p");
        reveal_strlit("qsd");
        assert(km@ =~= key_m());
        assert(kp@ =~= key_p());
        assert(qsd@ =~= quote_data_method());
    }
    let mi = find_key(&entries, &km).unwrap();
    let is_qsd = match &entries[mi].1 {
        JsonValue::Str(m) => *m == qsd,
        _ => false,
    };
    if !is_qsd {
        return Ok(None);
    }
    let pi = find_key(&entries, &kp).unwrap();
    let (_, p) = entries.remove(pi);
    let mut params = match p {
        JsonValue::Array(params) => params,
        _ => return Err(CommandError::NotArray),
    };
    let id = match &params[0] {
        JsonValue::Str(id) => id.clone(),
        _ => return Err(CommandError::NotString),
    };
    if params.len() < 2 {
        return Err(CommandError::NoData);
    }
    let data = params.remove(1);
    Ok(Some(QPInput::Update(id, data)))
}

/// `msg` is classified as a JSON command (see [`classify_message`]).
pub open spec fn is_command_text(msg: Seq<char>) -> bool {
    &&& !has_prefix(msg, heartbeat())
    &&& !occurs_in(msg, session_info_tag())
    &&& has_prefix(msg, seq!['{'])
}

/// Where `msg` is a JSON command that decodes, each member and parameter
/// that interpreting it reads is present.
pub open spec fn message_defined(msg: Seq<char>) -> bool {
    is_command_text(msg) ==> (parsed_json(msg) matches Some(v) ==> command_defined(v))
}

/// What interpreting the JSON command text `msg` gives: not JSON is an
/// error, else see [`command_outcome`].
pub open spec fn command_text_outcome(msg: Seq<char>) -> Result<Option<QPInput>, CommandError> {
    match parsed_json(msg) {
        None => Err(CommandError::NotJson),
        Some(v) => command_outcome(v),
    }
}

/// What the client does with a message.
#[derive(Debug)]
pub enum Incoming {
    /// Echo this text back on the socket (a heartbeat).
    Ping(String),
    /// The session information sent on connecting.
    SessionInfo,
    /// Hand this request to the quote processor.
    Request(QPInput),
    /// Nothing to do with it.
    Unprocessed,
}

/// `r` is what processing `msg` answers: a heartbeat is echoed framed; the
/// session information is recognised; a JSON command gives the request of
/// its `qsd` data, nothing for another method, or why it is refused;
/// anything else is unprocessed.
pub open spec fn message_outcome(msg: Seq<char>, r: Result<Incoming, CommandError>) -> bool {
    if has_prefix(msg, heartbeat()) {
        r matches Ok(Incoming::Ping(t)) && t@ == ws_text(msg)
    } else if occurs_in(msg, session_info_tag()) {
        r matches Ok(Incoming::SessionInfo)
    } else if has_prefix(msg, seq!['{']) {
        match command_text_outcome(msg) {
            Ok(Some(x)) => r == Ok::<Incoming, CommandError>(Incoming::Request(x)),
            Ok(None) => r matches Ok(Incoming::Unprocessed),
            Err(e) => r == Err::<Incoming, CommandError>(e),
        }
    } else {
        r matches Ok(Incoming::Unprocessed)
    }
}

/// The quote-data command `{"m":"qsd","p":[id,data]}`.
pub open spec fn qsd_command(id: Seq<char>, data: PlainJson) -> PlainJson {
    PlainJson::Object(seq![
        (key_m(), PlainJson::Str(quote_data_method())),
        (key_p(), PlainJson::Array(seq![PlainJson::Str(id), data])),
    ])
}

/// `r` hands the quote processor the data `data` for the session `id`.
pub open spec fn qsd_received(r: Result<Incoming, CommandError>, id: Seq<char>, data: PlainJson) -> bool {
    r matches Ok(Incoming::Request(QPInput::Update(x, y))) && x@ == id && denotes(y, data, 98)
}

proof fn lemma_qsd_text(id: Seq<char>, data: PlainJson)
    requires
        plain_text(id),
        decodable(data, 98),
    ensures
        decodable(qsd_command(id, data), 100),
        has_prefix(compact_text(qsd_command(id, data), 100), seq!['{']),
        !has_prefix(compact_text(qsd_command(id, data), 100), heartbeat()),
{
    let m = seq![
        (key_m(), PlainJson::Str(quote_data_method())),
        (key_p(), PlainJson::Array(seq![PlainJson::Str(id), data])),
    ];
    let a = seq![PlainJson::Str(id), data];
    assert(a.drop_last() =~= seq![PlainJson::Str(id)]);
    assert(seq![PlainJson::Str(id)].drop_last() =~= Seq::<PlainJson>::empty());
    assert(decodable_items(Seq::<PlainJson>::empty(), 98));
    assert(decodable(PlainJson::Str(id), 98));
    assert(decodable_items(seq![PlainJson::Str(id)], 98));
    assert(decodable_items(a, 98));
    assert(decodable(PlainJson::Array(a), 99));
    assert(m.drop_last() =~= seq![(key_m(), PlainJson::Str(quote_data_method()))]);
    assert(seq![(key_m(), PlainJson::Str(quote_data_method()))].drop_last()
        =~= Seq::<(Seq<char>, PlainJson)>::empty());
    assert(decodable_members(Seq::<(Seq<char>, PlainJson)>::empty(), 99));
    assert(decodable(PlainJson::Str(quote_data_method()), 99));
    assert(decodable_members(seq![(key_m(), PlainJson::Str(quote_data_method()))], 99));
    assert(key_before(key_m(), key_p()));
    assert(decodable_members(m, 99));
    let c = compact_text(qsd_command(id, data), 100);
    assert(c == seq!['{'] + compact_members(m, 99) + seq!['}']);
    assert(c[0] == '{');
    assert(c.subrange(0, 1) =~= seq!['{']);
    if has_prefix(c, heartbeat()) {
        assert(c.subrange(0, 3)[0] == c[0]);
    }
}

proof fn lemma_qsd_decoded(x: JsonValue, id: Seq<char>, data: PlainJson)
    requires
        denotes(x, qsd_command(id, data), 100),
    ensures
        command_defined(x),
        command_outcome(x) matches Ok(Some(QPInput::Update(a, b))) && a@ == id && denotes(b, data, 98),
{
    let m = seq![
        (key_m(), PlainJson::Str(quote_data_method())),
        (key_p(), PlainJson::Array(seq![PlainJson::Str(id), data])),
    ];
    let e = x->Object_0@;
    assert(denotes_members(e, m, 99));
    assert(m.drop_last() =~= seq![(key_m(), PlainJson::Str(quote_data_method()))]);
    assert(e.len() == 2);
    assert(denotes_members(e.drop_last(), m.drop_last(), 99));
    assert(e.drop_last().last() == e[0]);
    assert(m.drop_last().last() == m[0]);
    assert(e[0].0@ == key_m());
    assert(denotes(e[0].1, PlainJson::Str(quote_data_method()), 99));
    assert(e[1].0@ == key_p());
    assert(denotes(e[1].1, PlainJson::Array(seq![PlainJson::Str(id), data]), 99));
    assert(lookup(e.drop_last(), key_m()) == Some(e[0].1));
    assert(key_p()[0] != key_m()[0]);
    assert(lookup(e, key_m()) == Some(e[0].1));
    assert(lookup(e, key_p()) == Some(e[1].1));
    let b = seq![PlainJson::Str(id), data];
    let params = e[1].1->Array_0@;
    assert(denotes_items(params, b, 98));
    assert(b.drop_last() =~= seq![PlainJson::Str(id)]);
    assert(denotes_items(params.drop_last(), b.drop_last(), 98));
    assert(params.drop_last().last() == params[0]);
    assert(b.drop_last().last() == PlainJson::Str(id));
    assert(denotes(params[0], PlainJson::Str(id), 98));
    assert(denotes(params[1], data, 98));
}

/// Processes the message `msg` (see [`message_outcome`]) where each
/// member and parameter that it reads is present (see
/// [`message_defined`]); else answers [`CommandError::Incomplete`]. A JSON
/// command is decoded once.
pub fn receive_message(msg: &str) -> (r: Result<Incoming, CommandError>)
    ensures
        message_defined(msg@) ==> message_outcome(msg@, r),
        !message_defined(msg@) ==> r == Err::<Incoming, CommandError>(CommandError::Incomplete),
        forall|id: Seq<char>, data: PlainJson| plain_text(id) && decodable(data, 98)
            && msg@ == compact_text(qsd_command(id, data), 100) && !occurs_in(msg@, session_info_tag())
            ==> #[trigger] qsd_received(r, id, data),
{
    let kind = classify_message(msg);
    let ghost m = msg@;
    match kind {
        MessageKind::Command => {},
        _ => {
            proof {
                assert forall|id: Seq<char>, data: PlainJson| plain_text(id) && decodable(data, 98)
                    && m == compact_text(qsd_command(id, data), 100) && !occurs_in(m, session_info_tag())
                    implies false by {
                    lemma_qsd_text(id, data);
                }
            }
        },
    }
    match kind {
        MessageKind::Ping(t) => Ok(Incoming::Ping(t)),
        MessageKind::SessionInfo => Ok(Incoming::SessionInfo),
        MessageKind::Command => {
            let v = match parse_json(msg) {
                Some(v) => v,
                None => {
                    proof {
                        assert forall|id: Seq<char>, data: PlainJson| plain_text(id) && decodable(data, 98)
                            && m == compact_text(qsd_command(id, data), 100) && !occurs_in(m, session_info_tag())
                            implies false by {
                            lemma_qsd_text(id, data);
                        }
                    }
                    return Err(CommandError::NotJson);
                },
            };
            let ghost v0 = v;
            proof {
                assert forall|id: Seq<char>, data: PlainJson| plain_text(id) && decodable(data, 98)
                    && m == compact_text(qsd_command(id, data), 100) && !occurs_in(m, session_info_tag())
                    implies command_defined(v0) && (command_outcome(v0) matches Ok(Some(QPInput::Update(a, b)))
                        && a@ == id && denotes(b, data, 98)) by {
                    lemma_qsd_text(id, data);
                    lemma_qsd_decoded(v0, id, data);
                }
            }
            if !command_is_defined(&v) {
                return Err(CommandError::Incomplete);
            }
            match interpret_command(v) {
                Ok(Some(x)) => Ok(Incoming::Request(x)),
                Ok(None) => Ok(Incoming::Unprocessed),
                Err(e) => Err(e),
            }
        },
        MessageKind::Unprocessed => Ok(Incoming::Unprocessed),
    }
}

/// The text that processing `msg` sends back on the socket: the framed
/// heartbeat, where `msg` is one.
pub open spec fn reply_of(msg: Seq<char>) -> Seq<Seq<char>> {
    if has_prefix(msg, heartbeat()) {
        seq![ws_text(msg)]
    } else {
        Seq::empty()
    }
}

/// The request that processing `msg` hands to the quote processor: that of
/// a JSON command carrying `qsd` data, where `msg` is one.
pub open spec fn request_of(msg: Seq<char>) -> Seq<QPInput> {
    if is_command_text(msg) {
        match command_text_outcome(msg) {
            Ok(Some(x)) => seq![x],
            _ => Seq::empty(),
        }
    } else {
        Seq::empty()
    }
}

/// Why processing `msg` was refused, where it was.
pub open spec fn refusal_of(msg: Seq<char>) -> Seq<CommandError> {
    if is_command_text(msg) {
        match command_text_outcome(msg) {
            Err(e) => seq![e],
            _ => Seq::empty(),
        }
    } else {
        Seq::empty()
    }
}

/// The texts sent back on the socket for the messages `ms`, in order.
pub open spec fn replies(ms: Seq<Seq<char>>) -> Seq<Seq<char>>
    decreases ms.len(),
{
    if ms.len() == 0 {
        Seq::empty()
    } else {
        replies(ms.drop_last()) + reply_of(ms.last())
    }
}

/// The requests handed to the quote processor for the messages `ms`, in
/// order.
pub open spec fn requests(ms: Seq<Seq<char>>) -> Seq<QPInput>
    decreases ms.len(),
{
    if ms.len() == 0 {
        Seq::empty()
    } else {
        requests(ms.drop_last()) + request_of(ms.last())
    }
}

/// Why each refused message of `ms` was refused, in order.
pub open spec fn refusals(ms: Seq<Seq<char>>) -> Seq<CommandError>
    decreases ms.len(),
{
    if ms.len() == 0 {
        Seq::empty()
    } else {
        refusals(ms.drop_last()) + refusal_of(ms.last())
    }
}

/// What the client does with a run of messages.
#[derive(Debug)]
pub struct Handled {
    /// The texts to send back on the socket, in order.
    pub replies: Vec<String>,
    /// The requests for the quote processor, in order.
    pub requests: Vec<QPInput>,
    /// Why each refused message was refused, in order.
    pub refusals: Vec<CommandError>,
}

/// Processes the messages `msgs` one after the other, as the client does
/// with what it reads: a refused message is noted and passed over, and the
/// messages after it are processed as they would be without it (see
/// [`replies`], [`requests`], [`refusals`]). Answers `None` where a member
/// or parameter that processing a message reads is missing (see
/// [`message_defined`]).
pub fn receive_messages(msgs: &Vec<String>) -> (r: Option<Handled>)
    ensures
        r is None <==> exists|i: int| 0 <= i < msgs@.len() && !message_defined(#[trigger] msgs@[i]@),
        r matches Some(h) ==> {
            &&& string_texts(h.replies@) == replies(string_texts(msgs@))
            &&& h.requests@ == requests(string_texts(msgs@))
            &&& h.refusals@ == refusals(string_texts(msgs@))
        },
{
    let ghost ms = string_texts(msgs@);
    let mut out = Handled { replies: Vec::new(), requests: Vec::new(), refusals: Vec::new() };
    let mut i: usize = 0;
    while i < msgs.len()
        invariant
            i <= msgs@.len(),
            ms == string_texts(msgs@),
            forall|k: int| 0 <= k < i ==> message_defined(#[trigger] msgs@[k]@),
            string_texts(out.replies@) == replies(ms.take(i as int)),
            out.requests@ == requests(ms.take(i as int)),
            out.refusals@ == refusals(ms.take(i as int)),
        decreases msgs@.len() - i,
    {
        let ghost m = msgs@[i as int]@;
        let ghost pre = ms.take(i as int);
        proof {
            assert(ms.take(i + 1).drop_last() =~= pre);
            assert(ms.take(i + 1).last() == m);
        }
        match receive_message(msgs[i].as_str()) {
            Ok(Incoming::Ping(t)) => out.replies.push(t),
            Ok(Incoming::Request(x)) => out.requests.push(x),
            Err(CommandError::Incomplete) => return None,
            Err(e) => out.refusals.push(e),
            _ => {},
        }
        proof {
            assert(message_defined(m));
            assert(string_texts(out.replies@) =~= replies(pre) + reply_of(m));
            assert(out.requests@ =~= requests(pre) + request_of(m));
            assert(out.refusals@ =~= refusals(pre) + refusal_of(m));
        }
        i = i + 1;
    }
    proof {
        assert(ms.take(msgs@.len() as int) =~= ms);
    }
    Some(out)
}

} // verus!
