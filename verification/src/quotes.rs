//! Quote sessions: the commands that open one, the merge of the data updates
//! the server sends for it, and the quote read off the merged data.

use vstd::prelude::*;
use crate::json::{JsonValue, lookup, text_of, find_key};
use crate::messages::{Command, texts, str_texts};
use crate::text::literal;

verus! {

/// The latest known values of a quoted symbol. Prices are kept as the
/// decimal text of the JSON number they arrived as.
#[derive(Debug, Clone)]
pub struct QuoteDataDiff {
    pub symbol: String,
    pub country_code: Option<String>,
    pub currency_code: Option<String>,
    pub description: Option<String>,
    pub exchange: Option<String>,
    pub fractional: Option<bool>,
    pub is_tradable: Option<bool>,
    pub language: Option<String>,
    pub original_name: Option<String>,
    pub price_scale: Option<i32>,
    pub pro_name: Option<String>,
    pub provider_id: Option<String>,
    pub short_name: Option<String>,
    pub timezone: Option<String>,
    pub qtype: Option<String>,
    pub update_mode: Option<String>,
    pub current_session: Option<String>,
    pub logoid: Option<String>,
    pub lp_time: Option<i64>,
    pub ch: Option<String>,
    pub chp: Option<String>,
    pub high_price: Option<String>,
    pub low_price: Option<String>,
    pub lp: Option<String>,
    pub open_price: Option<String>,
    pub prev_close_price: Option<String>,
    pub volume: Option<String>,
}

/// The last traded price of a symbol, when it was traded (Unix seconds) and
/// when this quote was produced (Unix seconds).
#[derive(Debug, Clone)]
pub struct QuoteData {
    pub symbol: String,
    /// Decimal text of the last price.
    pub last_price: String,
    pub last_price_time: i64,
    pub last_update: i64,
}

fn copy_text(o: &Option<String>) -> (r: Option<String>)
    ensures
        r == *o,
{
    match o {
        Some(s) => Some(s.clone()),
        None => None,
    }
}

impl QuoteDataDiff {
    /// No value is known yet.
    pub open spec fn is_blank(&self) -> bool {
        &&& self.country_code is None
        &&& self.currency_code is None
        &&& self.description is None
        &&& self.exchange is None
        &&& self.fractional is None
        &&& self.is_tradable is None
        &&& self.language is None
        &&& self.original_name is None
        &&& self.price_scale is None
        &&& self.pro_name is None
        &&& self.provider_id is None
        &&& self.short_name is None
        &&& self.timezone is None
        &&& self.qtype is None
        &&& self.update_mode is None
        &&& self.current_session is None
        &&& self.logoid is None
        &&& self.lp_time is None
        &&& self.ch is None
        &&& self.chp is None
        &&& self.high_price is None
        &&& self.low_price is None
        &&& self.lp is None
        &&& self.open_price is None
        &&& self.prev_close_price is None
        &&& self.volume is None
    }

    /// Data for `symbol` with no value known yet.
    pub fn for_symbol(symbol: &str) -> (r: QuoteDataDiff)
        ensures
            r.symbol@ == symbol@,
            r.is_blank(),
    {
        QuoteDataDiff {
            symbol: symbol.to_owned(),
            country_code: None,
            currency_code: None,
            description: None,
            exchange: None,
            fractional: None,
            is_tradable: None,
            language: None,
            original_name: None,
            price_scale: None,
            pro_name: None,
            provider_id: None,
            short_name: None,
            timezone: None,
            qtype: None,
            update_mode: None,
            current_session: None,
            logoid: None,
            lp_time: None,
            ch: None,
            chp: None,
            high_price: None,
            low_price: None,
            lp: None,
            open_price: None,
            prev_close_price: None,
            volume: None,
        }
    }

    /// A copy of this data.
    pub fn duplicate(&self) -> (r: QuoteDataDiff)
        ensures
            r == *self,
    {
        QuoteDataDiff {
            symbol: self.symbol.clone(),
            country_code: copy_text(&self.country_code),
            currency_code: copy_text(&self.currency_code),
            description: copy_text(&self.description),
            exchange: copy_text(&self.exchange),
            fractional: self.fractional,
            is_tradable: self.is_tradable,
            language: copy_text(&self.language),
            original_name: copy_text(&self.original_name),
            price_scale: self.price_scale,
            pro_name: copy_text(&self.pro_name),
            provider_id: copy_text(&self.provider_id),
            short_name: copy_text(&self.short_name),
            timezone: copy_text(&self.timezone),
            qtype: copy_text(&self.qtype),
            update_mode: copy_text(&self.update_mode),
            current_session: copy_text(&self.current_session),
            logoid: copy_text(&self.logoid),
            lp_time: self.lp_time,
            ch: copy_text(&self.ch),
            chp: copy_text(&self.chp),
            high_price: copy_text(&self.high_price),
            low_price: copy_text(&self.low_price),
            lp: copy_text(&self.lp),
            open_price: copy_text(&self.open_price),
            prev_close_price: copy_text(&self.prev_close_price),
            volume: copy_text(&self.volume),
        }
    }
}

/// Member names read from a data update.
pub open spec fn key_n() -> Seq<char> { seq!['n'] }
pub open spec fn key_s() -> Seq<char> { seq!['s'] }
pub open spec fn key_v() -> Seq<char> { seq!['v'] }
pub open spec fn status_ok() -> Seq<char> { seq!['o', 'k'] }
pub open spec fn key_volume() -> Seq<char> { seq!['v', 'o', 'l', 'u', 'm', 'e'] }
pub open spec fn key_lp() -> Seq<char> { seq!['l', 'p'] }
pub open spec fn key_ch() -> Seq<char> { seq!['c', 'h'] }
pub open spec fn key_chp() -> Seq<char> { seq!['c', 'h', 'p'] }
pub open spec fn key_lp_time() -> Seq<char> { seq!['l', 'p', '_', 't', 'i', 'm', 'e'] }

/// `prev`, replaced by the text of `v` where `v` is a number.
pub open spec fn number_or(prev: Option<String>, v: Option<JsonValue>) -> Option<String> {
    match v {
        Some(JsonValue::Number(n)) => Some(n.text),
        _ => prev,
    }
}

/// `prev`, replaced by the value of `v` where `v` is an integer number
/// within `i64`.
pub open spec fn int_or(prev: Option<i64>, v: Option<JsonValue>) -> Option<i64> {
    match v {
        Some(JsonValue::Number(n)) => match n.int {
            Some(i) => Some(i),
            None => prev,
        },
        _ => prev,
    }
}

/// `d` with the values that the members of `values` carry: `volume`, `lp`,
/// `ch` and `chp` where they are numbers, `lp_time` where it is an integer;
/// every other field as it was.
pub open spec fn merged(d: QuoteDataDiff, values: Seq<(String, JsonValue)>) -> QuoteDataDiff {
    QuoteDataDiff {
        volume: number_or(d.volume, lookup(values, key_volume())),
        lp: number_or(d.lp, lookup(values, key_lp())),
        ch: number_or(d.ch, lookup(values, key_ch())),
        chp: number_or(d.chp, lookup(values, key_chp())),
        lp_time: int_or(d.lp_time, lookup(values, key_lp_time())),
        ..d
    }
}

/// Replaces `*slot` by the text of the member `key` of `values` where that
/// member is a number.
fn take_number(slot: &mut Option<String>, values: &Vec<(String, JsonValue)>, key: &String)
    ensures
        *final(slot) == number_or(*old(slot), lookup(values@, key@)),
{
    match find_key(values, key) {
        Some(i) => match &values[i].1 {
            JsonValue::Number(n) => {
                *slot = Some(n.text.clone());
            },
            _ => {},
        },
        None => {},
    }
}

/// Replaces `*slot` by the member `key` of `values` where that member is an
/// integer number within `i64`.
fn take_int(slot: &mut Option<i64>, values: &Vec<(String, JsonValue)>, key: &String)
    ensures
        *final(slot) == int_or(*old(slot), lookup(values@, key@)),
{
    match find_key(values, key) {
        Some(i) => match &values[i].1 {
            JsonValue::Number(n) => match n.int {
                Some(v) => {
                    *slot = Some(v);
                },
                None => {},
            },
            _ => {},
        },
        None => {},
    }
}

impl QuoteDataDiff {
    /// Takes the values that `values` carries (see [`merged`]).
    pub fn merge(&mut self, values: &Vec<(String, JsonValue)>)
        ensures
            *final(self) == merged(*old(self), values@),
    {
        let k = literal("volume");
        proof { reveal_strlit("volume"); assert(k@ =~= key_volume()); }
        take_number(&mut self.volume, values, &k);
        let k = literal("lp");
        proof { reveal_strlit("lp"); assert(k@ =~= key_lp()); }
        take_number(&mut self.lp, values, &k);
        let k = literal("ch");
        proof { reveal_strlit("ch"); assert(k@ =~= key_ch()); }
        take_number(&mut self.ch, values, &k);
        let k = literal("chp");
        proof { reveal_strlit("chp"); assert(k@ =~= key_chp()); }
        take_number(&mut self.chp, values, &k);
        let k = literal("lp_time");
        proof { reveal_strlit("lp_time"); assert(k@ =~= key_lp_time()); }
        take_int(&mut self.lp_time, values, &k);
    }
}

/// Why a data update was refused.
#[derive(Debug, Clone, Copy, PartialEq, Eq, Structural)]
pub enum UpdateError {
    /// The member `n` is not a string.
    NoName,
    /// The member `n` names another symbol than the session's.
    WrongSymbol,
    /// The member `s` is not a string.
    NoStatus,
    /// The member `s` is not `ok`.
    BadStatus,
    /// The member `v` is not an object.
    NoValue,
}

/// Each member that processing `msg` reads is present: `n`; `s` where `n`
/// names `symbol`; `v` where `s` is also `ok`.
pub open spec fn update_defined(msg: Seq<(String, JsonValue)>, symbol: Seq<char>) -> bool {
    &&& lookup(msg, key_n()) is Some
    &&& text_of(lookup(msg, key_n())->0) == Some(symbol) ==> {
        &&& lookup(msg, key_s()) is Some
        &&& text_of(lookup(msg, key_s())->0) == Some(status_ok()) ==> lookup(msg, key_v()) is Some
    }
}

/// What processing the update `msg` for a session of `symbol` whose data
/// is `data` gives: the merged data, or why `msg` is refused.
pub open spec fn update_outcome(
    data: QuoteDataDiff,
    symbol: Seq<char>,
    msg: Seq<(String, JsonValue)>,
) -> Result<QuoteDataDiff, UpdateError> {
    let n = text_of(lookup(msg, key_n())->0);
    let s = text_of(lookup(msg, key_s())->0);
    if n is None {
        Err(UpdateError::NoName)
    } else if n->0 != symbol {
        Err(UpdateError::WrongSymbol)
    } else if s is None {
        Err(UpdateError::NoStatus)
    } else if s->0 != status_ok() {
        Err(UpdateError::BadStatus)
    } else {
        match lookup(msg, key_v())->0 {
            JsonValue::Object(values) => Ok(merged(data, values@)),
            _ => Err(UpdateError::NoValue),
        }
    }
}

/// The text of a string value.
fn string_value(v: &JsonValue) -> (r: Option<&String>)
    ensures
        r matches Some(s) ==> text_of(*v) == Some(s@),
        r is None ==> text_of(*v) is None,
{
    match v {
        JsonValue::Str(s) => Some(s),
        _ => None,
    }
}

/// Whether every member that processing `msg` for `symbol` reads is present
/// (see [`update_defined`]).
pub fn update_is_defined(msg: &Vec<(String, JsonValue)>, symbol: &String) -> (r: bool)
    ensures
        r == update_defined(msg@, symbol@),
{
    let kn = literal("n");
    let ks = literal("s");
    let kv = literal("v");
    let ok = literal("ok");
    proof {
        reveal_strlit("n");
        reveal_strlit("s");
        reveal_strlit("v");
        reveal_strlit("ok");
        assert(kn@ =~= key_n());
        assert(ks@ =~= key_s());
        assert(kv@ =~= key_v());
        assert(ok@ =~= status_ok());
    }
    let ni = match find_key(msg, &kn) {
        Some(i) => i,
        None => return false,
    };
    let names_symbol = match string_value(&msg[ni].1) {
        Some(n) => *n == *symbol,
        None => false,
    };
    if !names_symbol {
        return true;
    }
    let si = match find_key(msg, &ks) {
        Some(i) => i,
        None => return false,
    };
    let is_ok = match string_value(&msg[si].1) {
        Some(st) => *st == ok,
        None => false,
    };
    if !is_ok {
        return true;
    }
    find_key(msg, &kv).is_some()
}

/// The session id for the random part `hash`: `qs_` followed by `hash`.
pub open spec fn session_id(hash: Seq<char>) -> Seq<char> {
    seq!['q', 's', '_'] + hash
}

/// `id` has the shape of a freshly made session id: `qs_` followed by 12
/// ASCII letters or digits.
pub open spec fn fresh_session_id(id: Seq<char>) -> bool {
    &&& id.len() == 15
    &&& id.subrange(0, 3) == seq!['q', 's', '_']
    &&& forall|i: int| 3 <= i < 15 ==> is_alphanumeric(#[trigger] id[i])
}

/// `c` is an ASCII letter or digit.
pub open spec fn is_alphanumeric(c: char) -> bool {
    ('a' <= c && c <= 'z') || ('A' <= c && c <= 'Z') || ('0' <= c && c <= '9')
}

/// The base-62 digit `d`: `0`-`9`, then `a`-`z`, then `A`-`Z`.
pub open spec fn alnum_digit(d: nat) -> char {
    if d < 10 {
        (d + 48) as char
    } else if d < 36 {
        (d + 87) as char
    } else {
        (d + 29) as char
    }
}

/// The last `w` base-62 digits of `k`, most significant first.
pub open spec fn hash62(k: nat, w: nat) -> Seq<char>
    decreases w,
{
    if w == 0 {
        Seq::empty()
    } else {
        hash62(k / 62, (w - 1) as nat).push(alnum_digit(k % 62))
    }
}

/// 62 to the power `w`.
pub open spec fn pow62(w: nat) -> nat
    decreases w,
{
    if w == 0 { 1 } else { 62 * pow62((w - 1) as nat) }
}

proof fn lemma_alnum_digit(d: nat, e: nat)
    requires
        d < 62,
        e < 62,
    ensures
        is_alphanumeric(alnum_digit(d)),
        alnum_digit(d) == alnum_digit(e) ==> d == e,
{
}

/// `hash62(k, w)` is `w` ASCII letters and digits.
pub proof fn lemma_hash62_alnum(k: nat, w: nat)
    ensures
        hash62(k, w).len() == w,
        forall|i: int| 0 <= i < w ==> is_alphanumeric(#[trigger] hash62(k, w)[i]),
    decreases w,
{
    if w > 0 {
        lemma_hash62_alnum(k / 62, (w - 1) as nat);
        lemma_alnum_digit(k % 62, 0);
        let h = hash62(k, w);
        assert forall|i: int| 0 <= i < w implies is_alphanumeric(#[trigger] h[i]) by {
            if i < w - 1 {
                assert(h[i] == hash62(k / 62, (w - 1) as nat)[i]);
            }
        }
    }
}

/// Two numbers below `62^w` have the same `w` base-62 digits only where
/// they are equal.
pub proof fn lemma_hash62_injective(a: nat, b: nat, w: nat)
    requires
        a < pow62(w),
        b < pow62(w),
        hash62(a, w) == hash62(b, w),
    ensures
        a == b,
    decreases w,
{
    if w > 0 {
        let p = pow62((w - 1) as nat);
        let ha = hash62(a, w);
        let hb = hash62(b, w);
        assert(ha.last() == alnum_digit(a % 62));
        assert(hb.last() == alnum_digit(b % 62));
        lemma_alnum_digit(a % 62, b % 62);
        assert(ha.drop_last() =~= hash62(a / 62, (w - 1) as nat));
        assert(hb.drop_last() =~= hash62(b / 62, (w - 1) as nat));
        assert(a / 62 < p) by (nonlinear_arith)
            requires a < 62 * p;
        assert(b / 62 < p) by (nonlinear_arith)
            requires b < 62 * p;
        lemma_hash62_injective(a / 62, b / 62, (w - 1) as nat);
        assert(a == 62 * (a / 62) + a % 62);
        assert(b == 62 * (b / 62) + b % 62);
    }
}

/// Among the ids numbered `0` to `n` (see [`QuoteSession::numbered`]) one
/// is not in `keys`, a set of at most `n` ids.
pub proof fn lemma_numbered_id_free(keys: Set<Seq<char>>, n: nat)
    requires
        keys.finite(),
        keys.len() <= n,
        n <= u64::MAX,
    ensures
        exists|k: nat| k <= n && !keys.contains(#[trigger] session_id(hash62(k, 12))),
{
    if forall|k: nat| k <= n ==> keys.contains(#[trigger] session_id(hash62(k, 12))) {
        let ids = Seq::new((n + 1) as nat, |k: int| session_id(hash62(k as nat, 12)));
        assert(pow62(12) > u64::MAX) by {
            reveal_with_fuel(pow62, 13);
        }
        assert forall|i: int, j: int| 0 <= i < ids.len() && 0 <= j < ids.len() && i != j
            implies ids[i] != ids[j] by {
            if ids[i] == ids[j] {
                let hi = hash62(i as nat, 12);
                let hj = hash62(j as nat, 12);
                lemma_hash62_alnum(i as nat, 12);
                lemma_hash62_alnum(j as nat, 12);
                assert(hi =~= ids[i].subrange(3, 15));
                assert(hj =~= ids[j].subrange(3, 15));
                lemma_hash62_injective(i as nat, j as nat, 12);
            }
        }
        ids.unique_seq_to_set();
        assert forall|x: Seq<char>| #[trigger] ids.to_set().contains(x) implies keys.contains(x) by {
            let i = choose|i: int| 0 <= i < ids.len() && ids[i] == x;
            assert(keys.contains(session_id(hash62(i as nat, 12))));
        }
        vstd::set_lib::lemma_len_subset(ids.to_set(), keys);
        assert(false);
    }
}

/// Appends the last `w` base-62 digits of `k` to `s`.
fn push_hash62(s: &mut String, k: u64, w: usize)
    ensures
        final(s)@ == old(s)@ + hash62(k as nat, w as nat),
    decreases w,
{
    if w > 0 {
        push_hash62(s, k / 62, w - 1);
        let d = k % 62;
        let c: char = if d < 10 {
            ((d as u8) + 48u8) as char
        } else if d < 36 {
            ((d as u8) + 87u8) as char
        } else {
            ((d as u8) + 29u8) as char
        };
        crate::text::push_char(s, c);
        proof {
            assert(c == alnum_digit((k % 62) as nat));
            assert(hash62(k as nat, w as nat) == hash62((k / 62) as nat, (w - 1) as nat).push(c));
        }
    }
}

/// A random string of `len` ASCII letters and digits.
///
/// Wraps `rand::thread_rng().sample_iter(&Alphanumeric)`, collected as
/// chars. Claimed, as rand's `Alphanumeric` documents and its source
/// (`GEN_ASCII_STR_CHARSET`) shows: `len` chars, each an ASCII letter or
/// digit. Which ones is chance, and not claimed.
#[verifier::external_body]
fn random_alphanumeric(len: usize) -> (r: String)
    ensures
        r@.len() == len,
        forall|i: int| 0 <= i < len ==> is_alphanumeric(#[trigger] r@[i]),
{
    rand::Rng::sample_iter(rand::thread_rng(), &rand::distributions::Alphanumeric)
        .take(len)
        .map(char::from)
        .collect()
}

/// The current time, in seconds since the Unix epoch.
///
/// Wraps `chrono::Utc::now().timestamp()`. Claimed: the result is not
/// negative (`Utc::now` panics on a clock set before the epoch, as its
/// source shows). Which time it is, is not claimed.
#[verifier::external_body]
fn unix_now() -> (r: i64)
    ensures
        r >= 0,
{
    chrono::Utc::now().timestamp()
}

/// The system clock, read through [`Clock::read`]: it counts its readings
/// and keeps the last one, so that a caller can say which reading a value
/// is.
#[derive(Debug)]
pub struct Clock {
    reads: u64,
    last: i64,
}

impl Clock {
    /// How many readings were taken, modulo 2^64.
    pub closed spec fn reads(&self) -> u64 {
        self.reads
    }

    /// The last reading taken (0 before the first).
    pub closed spec fn last_reading(&self) -> i64 {
        self.last
    }

    /// A clock not read yet.
    pub fn new() -> (r: Clock)
        ensures
            r.reads() == 0,
            r.last_reading() == 0,
    {
        Clock { reads: 0, last: 0 }
    }

    /// Reads the current time, in seconds since the Unix epoch: one more
    /// reading, and the last one.
    pub fn read(&mut self) -> (r: i64)
        ensures
            r >= 0,
            final(self).last_reading() == r,
            final(self).reads() == old(self).reads().wrapping_add(1),
    {
        let now = unix_now();
        self.reads = self.reads.wrapping_add(1);
        self.last = now;
        now
    }
}

/// The first Unix second that chrono's `DateTime<Utc>` holds: the start of
/// 1 January of year -262143.
pub const MIN_QUOTE_TIME: i64 = -8334601228800;

/// The last Unix second that chrono's `DateTime<Utc>` holds: the end of
/// 31 December of year 262142.
pub const MAX_QUOTE_TIME: i64 = 8210266876799;

/// `t` is a Unix second that a `DateTime<Utc>` can hold.
pub open spec fn quote_time_in_range(t: i64) -> bool {
    MIN_QUOTE_TIME <= t && t <= MAX_QUOTE_TIME
}

/// Whether `t` is a Unix second that a `DateTime<Utc>` can hold.
pub fn time_in_range(t: i64) -> (r: bool)
    ensures
        r == quote_time_in_range(t),
{
    MIN_QUOTE_TIME <= t && t <= MAX_QUOTE_TIME
}

/// The quote of `d` at time `now`: present when both the last price and
/// its time are known.
pub open spec fn quote_of(d: QuoteDataDiff, now: i64) -> Option<QuoteData> {
    if d.lp is Some && d.lp_time is Some {
        Some(QuoteData {
            symbol: d.symbol,
            last_price: d.lp->0,
            last_price_time: d.lp_time->0,
            last_update: now,
        })
    } else {
        None
    }
}

impl QuoteDataDiff {
    /// The quote of this data, stamped `now` (see [`quote_of`]).
    pub fn to_quote_at(&self, now: i64) -> (r: Option<QuoteData>)
        ensures
            r == quote_of(*self, now),
    {
        match (&self.lp, self.lp_time) {
            (Some(lp), Some(t)) => Some(QuoteData {
                symbol: self.symbol.clone(),
                last_price: lp.clone(),
                last_price_time: t,
                last_update: now,
            }),
            _ => None,
        }
    }

    /// The quote of this data, stamped with the current time. The price
    /// time, where there is a quote, must be one that a `DateTime<Utc>` can
    /// hold.
    pub fn to_quote(&self) -> (r: Option<QuoteData>)
        requires
            self.lp is Some && self.lp_time is Some ==> quote_time_in_range(self.lp_time->0),
        ensures
            r is Some <==> (self.lp is Some && self.lp_time is Some),
            r matches Some(q) ==> q.last_update >= 0 && r == quote_of(*self, q.last_update),
    {
        let mut clock = Clock::new();
        self.to_quote_read(&mut clock)
    }

    /// The quote of this data, stamped with a reading of `clock` taken for
    /// it: where there is a quote, `clock` is read once and the quote's last
    /// update is that reading; else `clock` is not read.
    pub fn to_quote_read(&self, clock: &mut Clock) -> (r: Option<QuoteData>)
        requires
            self.lp is Some && self.lp_time is Some ==> quote_time_in_range(self.lp_time->0),
        ensures
            r is Some <==> (self.lp is Some && self.lp_time is Some),
            r is None ==> *final(clock) == *old(clock),
            r matches Some(q) ==> {
                &&& final(clock).reads() == old(clock).reads().wrapping_add(1)
                &&& q.last_update == final(clock).last_reading()
                &&& q.last_update >= 0
                &&& r == quote_of(*self, q.last_update)
            },
    {
        if self.lp.is_none() || self.lp_time.is_none() {
            return None;
        }
        let now = clock.read();
        self.to_quote_at(now)
    }
}

/// How long ago a quote was refreshed, as shown to the user.
#[derive(Debug, Clone, Copy, PartialEq, Eq, Structural)]
pub enum Freshness {
    /// Refreshed 0 to 3 seconds ago.
    Fresh,
    /// Refreshed 4 to 30 seconds ago.
    Recent,
    /// Refreshed longer ago, or stamped in the future.
    Stale,
}

/// The freshness of a quote refreshed `age` seconds ago.
pub open spec fn freshness_of(age: int) -> Freshness {
    if 0 <= age <= 3 {
        Freshness::Fresh
    } else if 4 <= age <= 30 {
        Freshness::Recent
    } else {
        Freshness::Stale
    }
}

impl QuoteData {
    /// The freshness of this quote at time `now` (Unix seconds).
    pub fn freshness_at(&self, now: i64) -> (r: Freshness)
        requires
            i64::MIN <= now - self.last_update <= i64::MAX,
        ensures
            r == freshness_of(now - self.last_update),
    {
        let age = now - self.last_update;
        if 0 <= age && age <= 3 {
            Freshness::Fresh
        } else if 4 <= age && age <= 30 {
            Freshness::Recent
        } else {
            Freshness::Stale
        }
    }
}

/// A subscription to the quotes of one symbol.
#[derive(Debug)]
pub struct QuoteSession {
    /// The session id the server knows it by.
    pub id: String,
    /// The quoted symbol.
    pub symbol: String,
    /// What the server has sent so far.
    pub data: QuoteDataDiff,
}

impl QuoteSession {
    /// A fresh session for `sym` with the id `qs_` followed by `hash`.
    pub fn with_hash(hash: &str, sym: &str) -> (r: QuoteSession)
        ensures
            r.id@ == session_id(hash@),
            r.symbol@ == sym@,
            r.data.symbol@ == sym@,
            r.data.is_blank(),
    {
        let mut id = literal("qs_");
        proof {
            reveal_strlit("qs_");
            assert(id@ =~= seq!['q', 's', '_']);
        }
        let hc = crate::text::chars_of(hash);
        crate::text::push_chars(&mut id, hc.as_slice());
        QuoteSession { id, symbol: sym.to_owned(), data: QuoteDataDiff::for_symbol(sym) }
    }

    /// A fresh session for `sym` whose id is `qs_` followed by 12 random
    /// ASCII letters and digits.
    pub fn new(sym: &str) -> (r: QuoteSession)
        ensures
            fresh_session_id(r.id@),
            r.symbol@ == sym@,
            r.data.symbol@ == sym@,
            r.data.is_blank(),
    {
        let hash = random_alphanumeric(12);
        let r = QuoteSession::with_hash(hash.as_str(), sym);
        proof {
            assert(r.id@.subrange(0, 3) =~= seq!['q', 's', '_']);
            assert forall|i: int| 3 <= i < 15 implies is_alphanumeric(#[trigger] r.id@[i]) by {
                assert(r.id@[i] == hash@[i - 3]);
            }
        }
        r
    }

    /// A session for `sym` whose id is `qs_` followed by the twelve base-62
    /// digits of `k`.
    pub fn numbered(k: u64, sym: &str) -> (r: QuoteSession)
        ensures
            r.id@ == session_id(hash62(k as nat, 12)),
            fresh_session_id(r.id@),
            r.symbol@ == sym@,
            r.data.symbol@ == sym@,
            r.data.is_blank(),
    {
        let mut hash = String::new();
        push_hash62(&mut hash, k, 12);
        let r = QuoteSession::with_hash(hash.as_str(), sym);
        proof {
            assert(hash@ =~= hash62(k as nat, 12));
            lemma_hash62_alnum(k as nat, 12);
            assert(r.id@.subrange(0, 3) =~= seq!['q', 's', '_']);
            assert forall|i: int| 3 <= i < 15 implies is_alphanumeric(#[trigger] r.id@[i]) by {
                assert(r.id@[i] == hash@[i - 3]);
            }
        }
        r
    }

    /// A copy of this session.
    pub fn duplicate(&self) -> (r: QuoteSession)
        ensures
            r == *self,
    {
        QuoteSession { id: self.id.clone(), symbol: self.symbol.clone(), data: self.data.duplicate() }
    }

    /// Merges the data update `msg` into this session (see
    /// [`update_outcome`]); on success returns the merged data.
    pub fn process_data_update(&mut self, msg: &Vec<(String, JsonValue)>) -> (r: Result<QuoteDataDiff, UpdateError>)
        requires
            update_defined(msg@, old(self).symbol@),
        ensures
            r == update_outcome(old(self).data, old(self).symbol@, msg@),
            final(self).id == old(self).id,
            final(self).symbol == old(self).symbol,
            final(self).data == (match r {
                Ok(d) => d,
                Err(_) => old(self).data,
            }),
    {
        let kn = literal("n");
        let ks = literal("s");
        let kv = literal("v");
        let ok = literal("ok");
        proof {
            reveal_strlit("n");
            reveal_strlit("s");
            reveal_strlit("v");
            reveal_strlit("ok");
            assert(kn@ =~= key_n());
            assert(ks@ =~= key_s());
            assert(kv@ =~= key_v());
            assert(ok@ =~= status_ok());
        }
        let ni = find_key(msg, &kn).unwrap();
        match string_value(&msg[ni].1) {
            Some(n) => {
                if *n != self.symbol {
                    return Err(UpdateError::WrongSymbol);
                }
            },
            None => return Err(UpdateError::NoName),
        }
        let si = find_key(msg, &ks).unwrap();
        match string_value(&msg[si].1) {
            Some(st) => {
                if *st != ok {
                    return Err(UpdateError::BadStatus);
                }
            },
            None => return Err(UpdateError::NoStatus),
        }
        let vi = find_key(msg, &kv).unwrap();
        match &msg[vi].1 {
            JsonValue::Object(values) => {
                self.data.merge(values);
                Ok(self.data.duplicate())
            },
            _ => Err(UpdateError::NoValue),
        }
    }
}

/// The quote fields a session asks the server for.
pub const QUOTE_FIELDS: [&'static str; 48] = [
    "base-currency-logoid",
    "ch",
    "chp",
    "currency-logoid",
    "currency_code",
    "current_session",
    "description",
    "exchange",
    "format",
    "fractional",
    "is_tradable",
    "language",
    "local_description",
    "logoid",
    "lp",
    "lp_time",
    "minmov",
    "minmove2",
    "original_name",
    "pricescale",
    "pro_name",
    "short_name",
    "type",
    "update_mode",
    "volume",
    "ask",
    "bid",
    "fundamentals",
    "high_price",
    "low_price",
    "open_price",
    "prev_close_price",
    "rch",
    "rchp",
    "rtc",
    "rtc_time",
    "status",
    "industry",
    "basic_eps_net_income",
    "beta_1_year",
    "market_cap_basic",
    "earnings_per_share_basic_ttm",
    "price_earnings_ttm",
    "sector",
    "dividends_yield",
    "timezone",
    "country_code",
    "provider_id",
];

impl QuoteSession {
    /// The commands that open this session on the server: create the
    /// session, set its fields to [`QUOTE_FIELDS`], add its symbol.
    pub fn subscribe_commands(&self) -> (r: Vec<Command>)
        ensures
            r@.len() == 3,
            r@[0].method@ == "quote_create_session"@,
            texts(r@[0].parameters@) == seq![self.id@],
            r@[1].method@ == "quote_set_fields"@,
            texts(r@[1].parameters@) == seq![self.id@] + str_texts(QUOTE_FIELDS@),
            r@[2].method@ == "quote_add_symbols"@,
            texts(r@[2].parameters@) == seq![self.id@, self.symbol@],
    {
        let id = self.id.as_str();
        let create = Command::new("quote_create_session", &[id]);
        let mut params: Vec<&str> = Vec::new();
        params.push(id);
        let mut i: usize = 0;
        while i < 48
            invariant
                i <= 48,
                params@.len() == i + 1,
                params@[0]@ == self.id@,
                forall|j: int| 0 <= j < i ==> params@[j + 1] == QUOTE_FIELDS@[j],
            decreases 48 - i,
        {
            params.push(QUOTE_FIELDS[i]);
            i = i + 1;
        }
        let set_fields = Command::new("quote_set_fields", params.as_slice());
        proof {
            assert(str_texts(params@) =~= seq![self.id@] + str_texts(QUOTE_FIELDS@));
        }
        let sym = self.symbol.as_str();
        let add = Command::new("quote_add_symbols", &[id, sym]);
        proof {
            assert(str_texts(seq![id]) =~= seq![self.id@]);
            assert(str_texts(seq![id, sym]) =~= seq![self.id@, self.symbol@]);
        }
        let mut r: Vec<Command> = Vec::new();
        r.push(create);
        r.push(set_fields);
        r.push(add);
        r
    }
}

} // verus!
