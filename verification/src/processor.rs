//! The quote processor: the open sessions, keyed by id, and what each
//! request to subscribe or each data update does to them.

use vstd::prelude::*;
use crate::json::JsonValue;
use crate::incoming::string_texts;
use crate::keyed::{Keyed, KeyedList};
use crate::messages::{ToWSMessage, command_json, frame, str_texts};
use crate::quotes::{Clock, hash62, lemma_numbered_id_free, session_id, fresh_session_id, quote_time_in_range, time_in_range, QUOTE_FIELDS, QuoteData, QuoteDataDiff, QuoteSession, UpdateError, quote_of, update_defined, update_outcome, update_is_defined};

verus! {

/// What the processor is asked to do.
#[derive(Debug)]
pub enum QPInput {
    /// Open a session for the symbol.
    Subscribe(String),
    /// The data update the server sent for the session with this id.
    Update(String, JsonValue),
}

/// Why a request was refused.
#[derive(Debug, Clone, Copy, PartialEq, Eq, Structural)]
pub enum ProcessError {
    /// No session has the id of the update.
    NoSuchSession,
    /// The update is not a JSON object.
    NotAnObject,
    /// The session refused the update.
    Update(UpdateError),
}

/// What the application does after a request.
#[derive(Debug)]
pub enum Effect {
    /// Send this text on the socket.
    Send(String),
    /// Record this session, once the texts before it are sent (see
    /// [`QuoteProcessor::apply_effect`]).
    Open(QuoteSession),
    /// Hand this quote to the quote book.
    Publish(QuoteData),
}

/// What an applied effect leaves for the application to pass on.
#[derive(Debug)]
pub enum Outgoing {
    /// Send this text on the socket.
    Text(String),
    /// Hand this quote to the quote book.
    Quote(QuoteData),
}

/// The sessions after applying `e`: an opened session is recorded under its
/// id; a text or a quote changes nothing.
pub open spec fn effect_next(sessions: Map<Seq<char>, QuoteSession>, e: Effect) -> Map<Seq<char>, QuoteSession> {
    match e {
        Effect::Open(s) => sessions.insert(s.id@, s),
        _ => sessions,
    }
}

/// The sessions after applying `effects` in order.
pub open spec fn effects_next(sessions: Map<Seq<char>, QuoteSession>, effects: Seq<Effect>) -> Map<Seq<char>, QuoteSession>
    decreases effects.len(),
{
    if effects.len() == 0 {
        sessions
    } else {
        effects_next(effect_next(sessions, effects[0]), effects.drop_first())
    }
}

impl Keyed for QuoteSession {
    open spec fn key(&self) -> Seq<char> {
        self.id@
    }

    fn key_text(&self) -> (r: &String) {
        &self.id
    }
}

/// The sessions opened so far, by id.
#[derive(Debug)]
pub struct QuoteProcessor {
    pub sessions: KeyedList<QuoteSession>,
    /// The clock that stamps the quotes this processor publishes.
    pub clock: Clock,
}

impl View for QuoteProcessor {
    type V = Map<Seq<char>, QuoteSession>;

    open spec fn view(&self) -> Map<Seq<char>, QuoteSession> {
        self.sessions@
    }
}

/// The update `update` for the session `id` can be processed without a
/// member that it reads being missing.
pub open spec fn update_accepted(sessions: Map<Seq<char>, QuoteSession>, id: Seq<char>, update: JsonValue) -> bool {
    sessions.contains_key(id) ==> match update {
        JsonValue::Object(entries) => update_defined(entries@, sessions[id].symbol@),
        _ => true,
    }
}

/// Where processing `update` for the session `id` gives a quote, its price
/// time is one that a `DateTime<Utc>` can hold.
pub open spec fn quote_time_ok(sessions: Map<Seq<char>, QuoteSession>, id: Seq<char>, update: JsonValue) -> bool {
    update_data(sessions, id, update) matches Ok(d) ==> (d.lp is Some && d.lp_time is Some
        ==> quote_time_in_range(d.lp_time->0))
}

/// The merged data that processing `update` for the session `id` gives, or
/// why it is refused.
pub open spec fn update_data(
    sessions: Map<Seq<char>, QuoteSession>,
    id: Seq<char>,
    update: JsonValue,
) -> Result<QuoteDataDiff, ProcessError> {
    if !sessions.contains_key(id) {
        Err(ProcessError::NoSuchSession)
    } else {
        match update {
            JsonValue::Object(entries) => {
                let s = sessions[id];
                match update_outcome(s.data, s.symbol@, entries@) {
                    Ok(d) => Ok(d),
                    Err(e) => Err(ProcessError::Update(e)),
                }
            },
            _ => Err(ProcessError::NotAnObject),
        }
    }
}

/// What processing `update` for the session `id` answers: the quote of the
/// merged data stamped `now` (none while no price is known), or why it is
/// refused.
pub open spec fn update_result(
    sessions: Map<Seq<char>, QuoteSession>,
    id: Seq<char>,
    update: JsonValue,
    now: i64,
) -> Result<Option<QuoteData>, ProcessError> {
    match update_data(sessions, id, update) {
        Ok(d) => Ok(quote_of(d, now)),
        Err(e) => Err(e),
    }
}

/// The sessions after processing `update` for the session `id`: that
/// session holds the merged data; on refusal nothing changes.
pub open spec fn update_next(
    sessions: Map<Seq<char>, QuoteSession>,
    id: Seq<char>,
    update: JsonValue,
) -> Map<Seq<char>, QuoteSession> {
    match update_data(sessions, id, update) {
        Ok(d) => sessions.insert(id, QuoteSession { data: d, ..sessions[id] }),
        Err(_) => sessions,
    }
}

/// The socket texts that open the session `id` for `symbol`: create it,
/// set its fields, add its symbol.
pub open spec fn subscription_texts(id: Seq<char>, symbol: Seq<char>) -> Seq<Seq<char>> {
    seq![
        frame(command_json("quote_create_session"@, seq![id])),
        frame(command_json("quote_set_fields"@, seq![id] + str_texts(QUOTE_FIELDS@))),
        frame(command_json("quote_add_symbols"@, seq![id, symbol])),
    ]
}

impl QuoteProcessor {
    /// Opens (or replaces) the session with the id of `session`.
    pub fn insert_session(&mut self, session: QuoteSession)
        ensures
            final(self)@ == old(self)@.insert(session.id@, session),
            final(self).clock == old(self).clock,
    {
        self.sessions.insert(session);
    }

    /// Applies one effect of a request, in the order given: records an
    /// opened session (the texts before it having been sent), and hands
    /// back a text to send or a quote to publish.
    pub fn apply_effect(&mut self, effect: Effect) -> (r: Option<Outgoing>)
        ensures
            final(self)@ == effect_next(old(self)@, effect),
            effect matches Effect::Open(_) ==> r is None,
            effect matches Effect::Send(t) ==> r == Some(Outgoing::Text(t)),
            effect matches Effect::Publish(q) ==> r == Some(Outgoing::Quote(q)),
    {
        match effect {
            Effect::Send(t) => Some(Outgoing::Text(t)),
            Effect::Publish(q) => Some(Outgoing::Quote(q)),
            Effect::Open(s) => {
                self.insert_session(s);
                None
            },
        }
    }

    /// No session open.
    pub fn new() -> (r: QuoteProcessor)
        ensures
            r@ == Map::<Seq<char>, QuoteSession>::empty(),
    {
        QuoteProcessor { sessions: KeyedList::new(), clock: Clock::new() }
    }

    /// The session with the id `id`.
    pub fn session(&self, id: &String) -> (r: Option<&QuoteSession>)
        ensures
            r matches Some(s) ==> self@.contains_key(id@) && self@[id@] == *s && s.id@ == id@,
            r is None ==> !self@.contains_key(id@),
    {
        self.sessions.get(id)
    }
}

/// `effects` are what subscribing to `sym` asks of the application, the
/// sessions being `sessions`: send the three texts that open a fresh
/// session for `sym`, whose id no session of `sessions` has, in order, then
/// record that session.
pub open spec fn subscription_effects(sessions: Map<Seq<char>, QuoteSession>, effects: Seq<Effect>, sym: Seq<char>) -> bool {
    &&& effects.len() == 4
    &&& effects[3] matches Effect::Open(s) && {
        &&& !sessions.contains_key(s.id@)
        &&& s.symbol@ == sym
        &&& s.data.symbol@ == sym
        &&& s.data.is_blank()
        &&& fresh_session_id(s.id@)
        &&& forall|j: int| 0 <= j < 3 ==> (#[trigger] effects[j] matches Effect::Send(t)
            && t@ == subscription_texts(s.id@, sym)[j])
    }
}

/// `after` is `before` with the fresh session `s` for `sym` recorded under
/// an id that no session of `before` has, and `texts` are the socket texts
/// that open `s`, in order.
pub open spec fn subscribed(
    before: Map<Seq<char>, QuoteSession>,
    after: Map<Seq<char>, QuoteSession>,
    texts: Seq<Seq<char>>,
    sym: Seq<char>,
    s: QuoteSession,
) -> bool {
    &&& s.symbol@ == sym
    &&& s.data.symbol@ == sym
    &&& s.data.is_blank()
    &&& fresh_session_id(s.id@)
    &&& !before.contains_key(s.id@)
    &&& after == before.insert(s.id@, s)
    &&& texts == subscription_texts(s.id@, sym)
}

/// The texts that `effects` send, in order.
pub open spec fn sent_texts(effects: Seq<Effect>) -> Seq<Seq<char>>
    decreases effects.len(),
{
    if effects.len() == 0 {
        Seq::empty()
    } else {
        (match effects[0] {
            Effect::Send(t) => seq![t@],
            _ => Seq::empty(),
        }) + sent_texts(effects.drop_first())
    }
}

impl QuoteProcessor {
    /// The socket texts that open `session` on the server, in order: the
    /// frames of its three subscription commands.
    pub fn subscribe_session(&self, session: &QuoteSession) -> (r: Vec<String>)
        ensures
            r@.map_values(|m: String| m@) == subscription_texts(session.id@, session.symbol@),
    {
        let cmds = session.subscribe_commands();
        let mut out: Vec<String> = Vec::new();
        let mut i: usize = 0;
        while i < 3
            invariant
                i <= 3,
                cmds@.len() == 3,
                out@.len() == i,
                forall|j: int| 0 <= j < i ==> #[trigger] out@[j]@ == frame(command_json(
                    cmds@[j].method@, crate::messages::texts(cmds@[j].parameters@))),
            decreases 3 - i,
        {
            match cmds[i].to_ws_message() {
                Ok(t) => out.push(t),
                Err(_) => {},
            }
            i = i + 1;
        }
        assert(out@.map_values(|m: String| m@) =~= subscription_texts(session.id@, session.symbol@));
        out
    }

    /// A new session for `symbol` whose id no open session has: a random id
    /// (see [`QuoteSession::new`]) or, where that one is taken, the first
    /// free id among those numbered from zero (see
    /// [`QuoteSession::numbered`]).
    fn fresh_session(&self, symbol: &str) -> (r: QuoteSession)
        ensures
            fresh_session_id(r.id@),
            !self@.contains_key(r.id@),
            r.symbol@ == symbol@,
            r.data.symbol@ == symbol@,
            r.data.is_blank(),
    {
        let s = QuoteSession::new(symbol);
        if self.session(&s.id).is_none() {
            return s;
        }
        let items = self.sessions.items();
        let n = items.len();
        proof {
            crate::keyed::lemma_keyed_map_bounded(items@);
        }
        let mut k: u64 = 0;
        loop
            invariant
                k <= n,
                self@.dom().finite(),
                self@.dom().len() <= n,
                forall|j: nat| j < k ==> self@.contains_key(#[trigger] session_id(hash62(j, 12))),
            decreases n - k,
        {
            let c = QuoteSession::numbered(k, symbol);
            if self.session(&c.id).is_none() {
                return c;
            }
            if k as usize == n {
                proof {
                    assert forall|j: nat| j <= n implies self@.contains_key(#[trigger] session_id(hash62(j, 12))) by {
                        if j == k {
                            assert(c.id@ == session_id(hash62(k as nat, 12)));
                        }
                    }
                    lemma_numbered_id_free(self@.dom(), n as nat);
                }
                return s;
            }
            k = k + 1;
        }
    }

    /// Opens a fresh session for `symbol`, with an id that no open session
    /// has (see [`QuoteSession::new`]): records it under its id and answers the
    /// socket texts that open it on the server, in order.
    pub fn subscribe(&mut self, symbol: &str) -> (r: Vec<String>)
        ensures
            exists|s: QuoteSession| #[trigger] subscribed(old(self)@, final(self)@, string_texts(r@), symbol@, s),
    {
        let session = self.fresh_session(symbol);
        let texts = self.subscribe_session(&session);
        let ghost s = session;
        self.insert_session(session);
        assert(subscribed(old(self)@, self@, string_texts(texts@), symbol@, s));
        texts
    }

    /// Whether processing `update` for the session `id` reads only members
    /// that are present, and gives no quote whose time is out of range (see
    /// [`update_accepted`] and [`quote_time_ok`]).
    pub fn can_update(&self, id: &String, update: &JsonValue) -> (r: bool)
        ensures
            r == (update_accepted(self@, id@, *update) && quote_time_ok(self@, id@, *update)),
    {
        match self.session(id) {
            None => true,
            Some(s) => match update {
                JsonValue::Object(entries) => {
                    if !update_is_defined(entries, &s.symbol) {
                        return false;
                    }
                    let mut copy = s.duplicate();
                    match copy.process_data_update(entries) {
                        Ok(d) => match (&d.lp, d.lp_time) {
                            (Some(_), Some(t)) => time_in_range(t),
                            _ => true,
                        },
                        Err(_) => true,
                    }
                },
                _ => true,
            },
        }
    }

    /// Merges `update` into the session `id`; answers the merged data.
    fn apply_update(&mut self, id: &String, update: &JsonValue) -> (r: Result<QuoteDataDiff, ProcessError>)
        requires
            update_accepted(old(self)@, id@, *update),
        ensures
            r == update_data(old(self)@, id@, *update),
            final(self)@ == update_next(old(self)@, id@, *update),
            final(self).clock == old(self).clock,
    {
        let session = match self.session(id) {
            Some(s) => s,
            None => return Err(ProcessError::NoSuchSession),
        };
        let entries = match update {
            JsonValue::Object(entries) => entries,
            _ => return Err(ProcessError::NotAnObject),
        };
        let mut session = session.duplicate();
        match session.process_data_update(entries) {
            Ok(d) => {
                let ghost s0 = self@[id@];
                self.insert_session(session);
                assert(QuoteSession { data: d, ..s0 } == session);
                Ok(d)
            },
            Err(e) => Err(ProcessError::Update(e)),
        }
    }

    /// Processes the data update `update` for the session `id`; answers the
    /// quote of the merged data stamped `now` (see [`update_result`] and
    /// [`update_next`]).
    pub fn update_at(&mut self, id: &String, update: &JsonValue, now: i64) -> (r: Result<Option<QuoteData>, ProcessError>)
        requires
            update_accepted(old(self)@, id@, *update),
        ensures
            r == update_result(old(self)@, id@, *update, now),
            final(self)@ == update_next(old(self)@, id@, *update),
    {
        let d = self.apply_update(id, update)?;
        Ok(d.to_quote_at(now))
    }

    /// Processes the data update `update` for the session `id`; answers the
    /// quote of the merged data stamped with the current time.
    pub fn update(&mut self, id: &String, update: &JsonValue) -> (r: Result<Option<QuoteData>, ProcessError>)
        requires
            update_accepted(old(self)@, id@, *update),
            quote_time_ok(old(self)@, id@, *update),
        ensures
            r == update_result(old(self)@, id@, *update, match r {
                Ok(Some(q)) => q.last_update,
                _ => 0,
            }),
            final(self)@ == update_next(old(self)@, id@, *update),
            r matches Ok(Some(q)) ==> {
                &&& final(self).clock.reads() == old(self).clock.reads().wrapping_add(1)
                &&& q.last_update == final(self).clock.last_reading()
            },
            !(r matches Ok(Some(_))) ==> final(self).clock == old(self).clock,
    {
        let d = self.apply_update(id, update)?;
        Ok(d.to_quote_read(&mut self.clock))
    }

    /// Processes one request. A subscription does what
    /// [`QuoteProcessor::subscribe`] does, in steps that the application
    /// takes with [`QuoteProcessor::apply_effect`]: it answers the three
    /// texts to send, then the session to record once they are sent, and
    /// changes nothing yet (see `lemma_subscription_recorded`). A data update is
    /// [`QuoteProcessor::update`]: the same result and the same new sessions
    /// ([`update_result`], [`update_next`]), the quote, if any, to publish.
    pub fn handle_msg(&mut self, msg: QPInput) -> (r: Result<Vec<Effect>, ProcessError>)
        requires
            msg matches QPInput::Update(id, v) ==> update_accepted(old(self)@, id@, v)
                && quote_time_ok(old(self)@, id@, v),
        ensures
            msg matches QPInput::Subscribe(sym) ==> {
                &&& final(self)@ == old(self)@
                &&& final(self).clock == old(self).clock
                &&& r matches Ok(effects) && subscription_effects(old(self)@, effects@, sym@)
            },
            msg matches QPInput::Update(id, v) ==> {
                &&& final(self)@ == update_next(old(self)@, id@, v)
                &&& r matches Err(e) ==> update_data(old(self)@, id@, v) == Err::<QuoteDataDiff, ProcessError>(e)
                &&& r matches Ok(effects) ==> {
                    ||| effects@.len() == 0 && update_result(old(self)@, id@, v, 0) == Ok::<Option<QuoteData>, ProcessError>(None)
                        && final(self).clock == old(self).clock
                    ||| effects@.len() == 1 && (effects@[0] matches Effect::Publish(q)
                        && update_result(old(self)@, id@, v, q.last_update) == Ok::<Option<QuoteData>, ProcessError>(Some(q))
                        && final(self).clock.reads() == old(self).clock.reads().wrapping_add(1)
                        && q.last_update == final(self).clock.last_reading())
                }
                &&& r is Err ==> final(self).clock == old(self).clock
            },
    {
        match msg {
            QPInput::Subscribe(sym) => {
                let session = self.fresh_session(sym.as_str());
                let texts = self.subscribe_session(&session);
                let ghost sess = session;
                let mut effects: Vec<Effect> = Vec::new();
                let mut i: usize = 0;
                proof {
                    assert(texts@.map_values(|m: String| m@).len() == texts@.len());
                }
                while i < texts.len()
                    invariant
                        i <= texts@.len(),
                        texts@.len() == 3,
                        effects@.len() == i,
                        texts@.map_values(|m: String| m@) == subscription_texts(sess.id@, sym@),
                        forall|j: int| 0 <= j < i ==> (#[trigger] effects@[j] matches Effect::Send(t)
                            && t@ == subscription_texts(sess.id@, sym@)[j]),
                    decreases texts@.len() - i,
                {
                    proof {
                        assert(texts@.map_values(|m: String| m@)[i as int] == texts@[i as int]@);
                    }
                    effects.push(Effect::Send(texts[i].clone()));
                    i = i + 1;
                }
                effects.push(Effect::Open(session));
                Ok(effects)
            },
            QPInput::Update(id, v) => {
                let q = self.update(&id, &v)?;
                let mut effects: Vec<Effect> = Vec::new();
                match q {
                    Some(q) => effects.push(Effect::Publish(q)),
                    None => {},
                }
                Ok(effects)
            },
        }
    }
}

} // verus!
