//! Properties that relate several operations of the library.

use vstd::prelude::*;
use crate::text::decimal;
use crate::messages::{marker, frame, ws_text, starts_with_marker, utf8_len, command_json, json_escape, json_escape_all, json_string_literal, join_with_commas, quoted_all};
use crate::incoming::{marker_at, split_on_marker, non_empty, after_first, every_other, raw_messages, replies, requests, refusals, reply_of, request_of, CommandError, is_command_text, command_text_outcome};
use crate::json::{JsonValue, lookup};
use crate::quotes::{QuoteDataDiff, QuoteData, QuoteSession, merged, quote_of, update_outcome, key_lp, key_lp_time};
use crate::book::book_after;
use crate::processor::{QPInput, update_data, update_next, Effect, effects_next, subscription_effects, subscribed, subscription_texts, sent_texts};

verus! {

/// The concatenation of `parts`, in order.
pub open spec fn joined(parts: Seq<Seq<char>>) -> Seq<char>
    decreases parts.len(),
{
    if parts.len() == 0 {
        Seq::empty()
    } else {
        parts[0] + joined(parts.drop_first())
    }
}

/// `m` survives framing and splitting: it is not empty, and `~m~` occurs in
/// `m` followed by `~m~` only where that marker begins.
pub open spec fn splits_cleanly(m: Seq<char>) -> bool {
    m.len() > 0 && forall|i: int| 0 <= i < m.len() ==> !marker_at(m + marker(), i)
}

/// The socket texts of `ms`, one after the other.
pub open spec fn framed_all(ms: Seq<Seq<char>>) -> Seq<char> {
    joined(ms.map_values(|m: Seq<char>| ws_text(m)))
}

/// The length prefix and payload of each message of `ms`, in order.
pub open spec fn prefixes_and_payloads(ms: Seq<Seq<char>>) -> Seq<Seq<char>>
    decreases ms.len(),
{
    if ms.len() == 0 {
        Seq::empty()
    } else {
        seq![decimal(utf8_len(ms[0])), ms[0]] + prefixes_and_payloads(ms.drop_first())
    }
}

proof fn lemma_split_after_marker(x: Seq<char>)
    ensures
        split_on_marker(marker() + x) == seq![Seq::<char>::empty()] + split_on_marker(x),
{
    let s = marker() + x;
    assert(marker_at(s, 0));
    assert(s.skip(3) =~= x);
}

proof fn lemma_split_clean_prefix(p: Seq<char>, y: Seq<char>)
    requires
        forall|i: int| 0 <= i < p.len() ==> !marker_at(p + marker(), i),
    ensures
        split_on_marker(p + marker() + y) == seq![p] + split_on_marker(y),
    decreases p.len(),
{
    let s = p + marker() + y;
    if p.len() == 0 {
        assert(s =~= marker() + y);
        lemma_split_after_marker(y);
        assert(p =~= Seq::<char>::empty());
    } else {
        let pm = p + marker();
        assert(!marker_at(pm, 0));
        assert(s[0] == pm[0] && s[1] == pm[1] && s[2] == pm[2]);
        assert(!marker_at(s, 0));
        let q = p.drop_first();
        assert forall|i: int| 0 <= i < q.len() implies !marker_at(q + marker(), i) by {
            assert((q + marker()) =~= pm.drop_first());
            assert(!marker_at(pm, i + 1));
        }
        lemma_split_clean_prefix(q, y);
        assert(s.drop_first() =~= q + marker() + y);
        let r = split_on_marker(s.drop_first());
        assert(r == seq![q] + split_on_marker(y));
        assert(seq![s[0]] + q =~= p);
        assert(r.update(0, seq![s[0]] + r[0]) =~= seq![p] + split_on_marker(y));
    }
}

proof fn lemma_split_no_marker(p: Seq<char>)
    requires
        forall|i: int| 0 <= i < p.len() ==> !marker_at(p, i),
    ensures
        split_on_marker(p) == seq![p],
    decreases p.len(),
{
    if p.len() >= 3 {
        let q = p.drop_first();
        assert forall|i: int| 0 <= i < q.len() implies !marker_at(q, i) by {
            assert(!marker_at(p, i + 1));
        }
        lemma_split_no_marker(q);
        assert(seq![p[0]] + q =~= p);
        assert(split_on_marker(q).update(0, seq![p[0]] + split_on_marker(q)[0]) =~= seq![p]);
    }
}

proof fn lemma_decimal_digits(n: nat)
    ensures
        decimal(n).len() >= 1,
        forall|i: int| 0 <= i < decimal(n).len() ==> decimal(n)[i] != '~',
    decreases n,
{
    if n >= 10 {
        lemma_decimal_digits(n / 10);
        assert forall|i: int| 0 <= i < decimal(n).len() implies decimal(n)[i] != '~' by {
            if i < decimal(n / 10).len() {
                assert(decimal(n)[i] == decimal(n / 10)[i]);
            }
        }
    }
}

proof fn lemma_decimal_clean(n: nat)
    ensures
        forall|i: int| 0 <= i < decimal(n).len() ==> !marker_at(decimal(n) + marker(), i),
{
    lemma_decimal_digits(n);
    assert forall|i: int| 0 <= i < decimal(n).len() implies !marker_at(decimal(n) + marker(), i) by {
        assert((decimal(n) + marker())[i] == decimal(n)[i]);
    }
}

proof fn lemma_clean_frame(m: Seq<char>)
    requires
        splits_cleanly(m),
    ensures
        ws_text(m) == frame(m),
        forall|i: int| 0 <= i < m.len() ==> !marker_at(m, i),
{
    assert(!marker_at(m + marker(), 0));
    if starts_with_marker(m) {
        assert(m.subrange(0, 3)[0] == m[0]);
        assert(m.subrange(0, 3)[1] == m[1]);
        assert(m.subrange(0, 3)[2] == m[2]);
        assert((m + marker())[0] == m[0]);
        assert((m + marker())[1] == m[1]);
        assert((m + marker())[2] == m[2]);
    }
    assert forall|i: int| 0 <= i < m.len() implies !marker_at(m, i) by {
        assert(!marker_at(m + marker(), i));
        if marker_at(m, i) {
            assert((m + marker())[i] == m[i]);
            assert((m + marker())[i + 1] == m[i + 1]);
            assert((m + marker())[i + 2] == m[i + 2]);
        }
    }
}

proof fn lemma_split_framed(ms: Seq<Seq<char>>)
    requires
        ms.len() >= 1,
        forall|k: int| 0 <= k < ms.len() ==> splits_cleanly(#[trigger] ms[k]),
    ensures
        split_on_marker(framed_all(ms)) == seq![Seq::<char>::empty()] + prefixes_and_payloads(ms),
        framed_all(ms).subrange(0, 3) == marker(),
    decreases ms.len(),
{
    let m0 = ms[0];
    let rest = ms.drop_first();
    let l0 = decimal(utf8_len(m0));
    lemma_clean_frame(m0);
    lemma_decimal_clean(utf8_len(m0));
    let parts = ms.map_values(|m: Seq<char>| ws_text(m));
    assert(parts.drop_first() =~= rest.map_values(|m: Seq<char>| ws_text(m)));
    let j = framed_all(rest);
    assert(framed_all(ms) == frame(m0) + j);
    assert(frame(m0) + j =~= marker() + (l0 + marker() + (m0 + j)));
    lemma_split_after_marker(l0 + marker() + (m0 + j));
    lemma_split_clean_prefix(l0, m0 + j);
    assert(framed_all(ms).subrange(0, 3) =~= marker());
    if rest.len() == 0 {
        assert(j =~= Seq::<char>::empty());
        assert(m0 + j =~= m0);
        lemma_split_no_marker(m0);
        assert(prefixes_and_payloads(rest) =~= Seq::<Seq<char>>::empty());
        assert(split_on_marker(framed_all(ms)) =~= seq![Seq::<char>::empty()] + prefixes_and_payloads(ms));
    } else {
        assert forall|k: int| 0 <= k < rest.len() implies splits_cleanly(#[trigger] rest[k]) by {
            assert(rest[k] == ms[k + 1]);
        }
        lemma_split_framed(rest);
        let x = j.skip(3);
        assert(j =~= marker() + x);
        lemma_split_after_marker(x);
        let e = Seq::<char>::empty();
        assert(split_on_marker(j) == seq![e] + split_on_marker(x));
        assert(split_on_marker(x) =~= split_on_marker(j).drop_first());
        assert(prefixes_and_payloads(rest) =~= (seq![e] + prefixes_and_payloads(rest)).drop_first());
        assert(split_on_marker(x) == prefixes_and_payloads(rest));
        assert(m0 + j =~= m0 + marker() + x);
        lemma_split_clean_prefix(m0, x);
        assert(split_on_marker(framed_all(ms)) =~= seq![Seq::<char>::empty()] + prefixes_and_payloads(ms));
    }
}

proof fn lemma_prefixes_and_payloads(ms: Seq<Seq<char>>)
    ensures
        prefixes_and_payloads(ms).len() == 2 * ms.len(),
        forall|k: int| 0 <= k < ms.len() ==> prefixes_and_payloads(ms)[2 * k] == decimal(utf8_len(ms[k]))
            && prefixes_and_payloads(ms)[2 * k + 1] == ms[k],
    decreases ms.len(),
{
    if ms.len() > 0 {
        let rest = ms.drop_first();
        lemma_prefixes_and_payloads(rest);
        let pp = prefixes_and_payloads(ms);
        assert forall|k: int| 0 <= k < ms.len() implies pp[2 * k] == decimal(utf8_len(ms[k]))
            && pp[2 * k + 1] == ms[k] by {
            if k > 0 {
                assert(ms[k] == rest[k - 1]);
                assert(pp[2 * k] == prefixes_and_payloads(rest)[2 * (k - 1)]);
                assert(pp[2 * k + 1] == prefixes_and_payloads(rest)[2 * (k - 1) + 1]);
            }
        }
    }
}

proof fn lemma_filter_keeps_nonempty(q: Seq<Seq<char>>)
    requires
        forall|k: int| 0 <= k < q.len() ==> (#[trigger] q[k]).len() > 0,
    ensures
        non_empty(q) == q,
    decreases q.len(),
{
    reveal(Seq::filter);
    if q.len() > 0 {
        lemma_filter_keeps_nonempty(q.drop_last());
        assert(q.drop_last().push(q.last()) =~= q);
    }
}

proof fn lemma_payloads_nonempty(ms: Seq<Seq<char>>)
    requires
        forall|k: int| 0 <= k < ms.len() ==> splits_cleanly(#[trigger] ms[k]),
    ensures
        forall|k: int| 0 <= k < prefixes_and_payloads(ms).len()
            ==> (#[trigger] prefixes_and_payloads(ms)[k]).len() > 0,
{
    lemma_prefixes_and_payloads(ms);
    let pp = prefixes_and_payloads(ms);
    assert forall|k: int| 0 <= k < pp.len() implies (#[trigger] pp[k]).len() > 0 by {
        let h = k / 2;
        assert(0 <= h < ms.len());
        if k % 2 == 0 {
            assert(k == 2 * h);
            assert(pp[2 * h] == decimal(utf8_len(ms[h])));
            lemma_decimal_digits(utf8_len(ms[h]));
        } else {
            assert(k == 2 * h + 1);
            assert(pp[2 * h + 1] == ms[h]);
            assert(splits_cleanly(ms[h]));
        }
    }
}

proof fn lemma_drop_leading_empty(pp: Seq<Seq<char>>)
    requires
        forall|k: int| 0 <= k < pp.len() ==> (#[trigger] pp[k]).len() > 0,
    ensures
        non_empty(seq![Seq::<char>::empty()] + pp) == pp,
{
    lemma_filter_keeps_nonempty(pp);
    let e = seq![Seq::<char>::empty()];
    Seq::filter_distributes_over_add(e, pp, |p: Seq<char>| p.len() > 0);
    reveal_with_fuel(Seq::filter, 2);
    assert(e.drop_last() =~= Seq::<Seq<char>>::empty());
    assert(non_empty(e) =~= Seq::<Seq<char>>::empty());
    assert(non_empty(e + pp) =~= pp);
}

proof fn lemma_take_payloads(ms: Seq<Seq<char>>)
    requires
        ms.len() >= 1,
    ensures
        every_other(after_first(prefixes_and_payloads(ms))) == ms,
{
    lemma_prefixes_and_payloads(ms);
    let pp = prefixes_and_payloads(ms);
    let tail = after_first(pp);
    assert(tail == pp.skip(1));
    assert forall|k: int| 0 <= k < ms.len() implies every_other(tail)[k] == ms[k] by {
        assert(tail[2 * k] == pp[2 * k + 1]);
    }
    assert(every_other(tail) =~= ms);
}

/// Framing a list of messages and splitting the resulting text gives the
/// messages back, each message being non-empty and free of `~m~` (see
/// [`splits_cleanly`]).
pub proof fn lemma_split_inverts_framing(ms: Seq<Seq<char>>)
    requires
        forall|k: int| 0 <= k < ms.len() ==> splits_cleanly(#[trigger] ms[k]),
    ensures
        raw_messages(framed_all(ms)) == ms,
{
    if ms.len() == 0 {
        assert(framed_all(ms) =~= Seq::<char>::empty());
        reveal_with_fuel(Seq::filter, 2);
        let e = Seq::<char>::empty();
        assert(split_on_marker(e) == seq![e]);
        assert(seq![e].drop_last() =~= Seq::<Seq<char>>::empty());
        assert(non_empty(seq![e]) =~= Seq::<Seq<char>>::empty());
        assert(raw_messages(framed_all(ms)) =~= ms);
    } else {
        lemma_split_framed(ms);
        lemma_payloads_nonempty(ms);
        lemma_drop_leading_empty(prefixes_and_payloads(ms));
        lemma_take_payloads(ms);
    }
}

/// Socket text already begins with the frame marker, so turning it into
/// socket text again leaves it as it is.
pub proof fn lemma_ws_text_idempotent(m: Seq<char>)
    ensures
        ws_text(ws_text(m)) == ws_text(m),
{
    let t = ws_text(m);
    if !starts_with_marker(m) {
        assert(t.subrange(0, 3) =~= marker());
    }
}

/// Merging the same values twice is merging them once.
pub proof fn lemma_merge_idempotent(d: QuoteDataDiff, values: Seq<(String, JsonValue)>)
    ensures
        merged(merged(d, values), values) == merged(d, values),
{
}

/// A known price, price time, change or volume stays known through any merge.
pub proof fn lemma_merge_keeps_known(d: QuoteDataDiff, values: Seq<(String, JsonValue)>)
    ensures
        d.lp is Some ==> merged(d, values).lp is Some,
        d.lp_time is Some ==> merged(d, values).lp_time is Some,
        d.ch is Some ==> merged(d, values).ch is Some,
        d.chp is Some ==> merged(d, values).chp is Some,
        d.volume is Some ==> merged(d, values).volume is Some,
        merged(d, values).symbol == d.symbol,
{
}

/// Values carrying a numeric `lp` and an integer `lp_time` make the quote
/// available, with that price and time, whatever was known before.
pub proof fn lemma_merge_gives_quote(
    d: QuoteDataDiff,
    values: Seq<(String, JsonValue)>,
    now: i64,
)
    requires
        lookup(values, key_lp()) matches Some(JsonValue::Number(_)),
        lookup(values, key_lp_time()) matches Some(JsonValue::Number(n)) && n.int is Some,
    ensures
        quote_of(merged(d, values), now) matches Some(q) && {
            &&& lookup(values, key_lp()) matches Some(JsonValue::Number(p)) && q.last_price == p.text
            &&& lookup(values, key_lp_time()) matches Some(JsonValue::Number(t)) && q.last_price_time == t.int->0
            &&& q.symbol == d.symbol
            &&& q.last_update == now
        },
{
}

/// Processing the same data update a second time changes nothing more and
/// answers the same data.
pub proof fn lemma_update_replay(sessions: Map<Seq<char>, QuoteSession>, id: Seq<char>, update: JsonValue)
    ensures
        update_next(update_next(sessions, id, update), id, update) == update_next(sessions, id, update),
        update_data(sessions, id, update) is Ok ==> update_data(update_next(sessions, id, update), id, update)
            == update_data(sessions, id, update),
{
    if let Ok(d) = update_data(sessions, id, update) {
        let s = sessions[id];
        if let JsonValue::Object(entries) = update {
            lemma_merge_idempotent(s.data, entries@);
            let next = update_next(sessions, id, update);
            assert(next[id] == QuoteSession { data: d, ..s });
            assert(update_outcome(d, s.symbol@, entries@) == Ok::<QuoteDataDiff, crate::quotes::UpdateError>(d));
            assert(next.insert(id, QuoteSession { data: d, ..s }) =~= next);
        }
    }
}

/// A refused data update leaves every session as it was.
pub proof fn lemma_refused_update_changes_nothing(
    sessions: Map<Seq<char>, QuoteSession>,
    id: Seq<char>,
    update: JsonValue,
)
    requires
        update_data(sessions, id, update) is Err,
    ensures
        update_next(sessions, id, update) == sessions,
{
}

/// After recording a quote, the book answers it for its symbol and answers
/// every other symbol as before.
pub proof fn lemma_book_read_after_write(book: Map<Seq<char>, QuoteData>, quote: QuoteData, other: Seq<char>)
    ensures
        book.insert(quote.symbol@, quote).contains_key(quote.symbol@),
        book.insert(quote.symbol@, quote)[quote.symbol@] == quote,
        other != quote.symbol@ ==> book.insert(quote.symbol@, quote).contains_key(other)
            == book.contains_key(other),
        other != quote.symbol@ && book.contains_key(other) ==> book.insert(quote.symbol@, quote)[other]
            == book[other],
{
}

/// Processing a data update never forgets a known price, price time,
/// change or volume: on success the merged data keeps them, and a refused
/// update leaves the data as it was.
pub proof fn lemma_update_keeps_known(d: QuoteDataDiff, symbol: Seq<char>, msg: Seq<(String, JsonValue)>)
    ensures
        ({
            let after = match update_outcome(d, symbol, msg) {
                Ok(d2) => d2,
                Err(_) => d,
            };
            &&& d.lp is Some ==> after.lp is Some
            &&& d.lp_time is Some ==> after.lp_time is Some
            &&& d.ch is Some ==> after.ch is Some
            &&& d.chp is Some ==> after.chp is Some
            &&& d.volume is Some ==> after.volume is Some
            &&& after.symbol == d.symbol
        }),
{
    if let Ok(d2) = update_outcome(d, symbol, msg) {
        if let JsonValue::Object(values) = lookup(msg, crate::quotes::key_v())->0 {
            lemma_merge_keeps_known(d, values@);
        }
    }
}

/// Recording quotes one after the other into an empty book (as
/// [`crate::book::QuoteBook::record_all`] does on a new book) gives a book
/// whose symbols are exactly those of the quotes, each holding the last
/// quote recorded for it.
pub proof fn lemma_book_after_quotes(quotes: Seq<QuoteData>, symbol: Seq<char>)
    ensures
        book_after(Map::empty(), quotes).contains_key(symbol)
            <==> exists|i: int| 0 <= i < quotes.len() && #[trigger] quotes[i].symbol@ == symbol,
        book_after(Map::empty(), quotes).contains_key(symbol) ==> exists|i: int| {
            &&& 0 <= i < quotes.len()
            &&& #[trigger] quotes[i].symbol@ == symbol
            &&& book_after(Map::empty(), quotes)[symbol] == quotes[i]
            &&& forall|j: int| i < j < quotes.len() ==> quotes[j].symbol@ != symbol
        },
    decreases quotes.len(),
{
    if quotes.len() > 0 {
        let pre = quotes.drop_last();
        let n = quotes.len() - 1;
        lemma_book_after_quotes(pre, symbol);
        if quotes.last().symbol@ == symbol {
            assert(quotes[n].symbol@ == symbol);
        } else {
            if book_after(Map::empty(), pre).contains_key(symbol) {
                let i = choose|i: int| {
                    &&& 0 <= i < pre.len()
                    &&& #[trigger] pre[i].symbol@ == symbol
                    &&& book_after(Map::empty(), pre)[symbol] == pre[i]
                    &&& forall|j: int| i < j < pre.len() ==> pre[j].symbol@ != symbol
                };
                assert(quotes[i] == pre[i]);
                assert forall|j: int| i < j < quotes.len() implies quotes[j].symbol@ != symbol by {
                    if j < n {
                        assert(quotes[j] == pre[j]);
                    }
                }
            }
            if exists|i: int| 0 <= i < quotes.len() && #[trigger] quotes[i].symbol@ == symbol {
                let i = choose|i: int| 0 <= i < quotes.len() && #[trigger] quotes[i].symbol@ == symbol;
                assert(i < n);
                assert(pre[i] == quotes[i]);
            }
        }
    }
}

/// Applying, in order, the effects that a subscription to `sym` answers
/// does what [`crate::processor::QuoteProcessor::subscribe`] does: it
/// records exactly one fresh session for `sym` under its id, leaving every
/// other session as it was, and sends the texts that open that session, in
/// order.
pub proof fn lemma_subscription_recorded(sessions: Map<Seq<char>, QuoteSession>, effects: Seq<Effect>, sym: Seq<char>)
    requires
        subscription_effects(sessions, effects, sym),
    ensures
        exists|s: QuoteSession| #[trigger] subscribed(sessions, effects_next(sessions, effects), sent_texts(effects), sym, s),
{
    reveal_with_fuel(effects_next, 5);
    reveal_with_fuel(sent_texts, 5);
    let e1 = effects.drop_first();
    let e2 = e1.drop_first();
    let e3 = e2.drop_first();
    let e4 = e3.drop_first();
    assert(e1[0] == effects[1]);
    assert(e2[0] == effects[2]);
    assert(e3[0] == effects[3]);
    assert(e4.len() == 0);
    let s = effects[3]->Open_0;
    let texts = subscription_texts(s.id@, sym);
    assert(effects[0] matches Effect::Send(t) && t@ == texts[0]);
    assert(effects[1] matches Effect::Send(t) && t@ == texts[1]);
    assert(effects[2] matches Effect::Send(t) && t@ == texts[2]);
    assert(sent_texts(e4) =~= Seq::<Seq<char>>::empty());
    assert(sent_texts(e3) =~= Seq::<Seq<char>>::empty());
    assert(sent_texts(effects) =~= texts);
    assert(subscribed(sessions, effects_next(sessions, effects), sent_texts(effects), sym, s));
}

/// No char of `s` is `~`.
pub open spec fn free_of_tilde(s: Seq<char>) -> bool {
    forall|i: int| 0 <= i < s.len() ==> s[i] != '~'
}

proof fn lemma_free_concat(a: Seq<char>, b: Seq<char>)
    requires
        free_of_tilde(a),
        free_of_tilde(b),
    ensures
        free_of_tilde(a + b),
{
    assert forall|i: int| 0 <= i < (a + b).len() implies (a + b)[i] != '~' by {
        if i < a.len() {
            assert((a + b)[i] == a[i]);
        } else {
            assert((a + b)[i] == b[i - a.len()]);
        }
    }
}

proof fn lemma_escape_free(c: char)
    requires
        c != '~',
    ensures
        free_of_tilde(json_escape(c)),
{
    let n = c as u32;
    if n < 32 && c != '"' && c != '\\' && n != 8 && n != 12 && n != 10 && n != 13 && n != 9 {
        let e = json_escape(c);
        assert(e[4] != '~' && e[5] != '~');
    }
}

proof fn lemma_escape_all_free(s: Seq<char>)
    requires
        free_of_tilde(s),
    ensures
        free_of_tilde(json_escape_all(s)),
    decreases s.len(),
{
    if s.len() > 0 {
        lemma_escape_all_free(s.drop_last());
        lemma_escape_free(s.last());
        lemma_free_concat(json_escape_all(s.drop_last()), json_escape(s.last()));
    }
}

proof fn lemma_literal_free(s: Seq<char>)
    requires
        free_of_tilde(s),
    ensures
        free_of_tilde(json_string_literal(s)),
{
    lemma_escape_all_free(s);
    lemma_free_concat(seq!['"'], json_escape_all(s));
    lemma_free_concat(seq!['"'] + json_escape_all(s), seq!['"']);
}

proof fn lemma_join_free(items: Seq<Seq<char>>)
    requires
        forall|k: int| 0 <= k < items.len() ==> free_of_tilde(#[trigger] items[k]),
    ensures
        free_of_tilde(join_with_commas(items)),
    decreases items.len(),
{
    if items.len() >= 2 {
        let pre = items.drop_last();
        assert forall|k: int| 0 <= k < pre.len() implies free_of_tilde(#[trigger] pre[k]) by {
            assert(pre[k] == items[k]);
        }
        lemma_join_free(pre);
        assert(free_of_tilde(items[items.len() - 1]));
        lemma_free_concat(join_with_commas(pre), seq![',']);
        lemma_free_concat(join_with_commas(pre) + seq![','], items.last());
    } else if items.len() == 1 {
        assert(free_of_tilde(items[0]));
    }
}

proof fn lemma_command_free(method: Seq<char>, params: Seq<Seq<char>>)
    requires
        free_of_tilde(method),
        forall|k: int| 0 <= k < params.len() ==> free_of_tilde(#[trigger] params[k]),
    ensures
        free_of_tilde(command_json(method, params)),
{
    let q = quoted_all(params);
    assert forall|k: int| 0 <= k < q.len() implies free_of_tilde(#[trigger] q[k]) by {
        lemma_literal_free(params[k]);
    }
    lemma_join_free(q);
    lemma_literal_free(method);
    let a = seq!['{', '"', 'm', '"', ':'];
    let b = seq![',', '"', 'p', '"', ':', '['];
    let c = seq![']', '}'];
    lemma_free_concat(a, json_string_literal(method));
    lemma_free_concat(a + json_string_literal(method), b);
    lemma_free_concat(a + json_string_literal(method) + b, join_with_commas(q));
    lemma_free_concat(a + json_string_literal(method) + b + join_with_commas(q), c);
}

proof fn lemma_free_splits_cleanly(m: Seq<char>)
    requires
        m.len() > 0,
        free_of_tilde(m),
    ensures
        splits_cleanly(m),
{
    assert forall|i: int| 0 <= i < m.len() implies !marker_at(m + marker(), i) by {
        assert((m + marker())[i] == m[i]);
    }
}

/// A command whose method and parameters hold no `~` comes back whole from
/// splitting its socket text: `split_raw_msg` of what `to_ws_message` sends
/// is exactly the command's JSON.
pub proof fn lemma_command_round_trip(method: Seq<char>, params: Seq<Seq<char>>)
    requires
        free_of_tilde(method),
        forall|k: int| 0 <= k < params.len() ==> free_of_tilde(#[trigger] params[k]),
    ensures
        raw_messages(frame(command_json(method, params))) == seq![command_json(method, params)],
{
    let cj = command_json(method, params);
    lemma_command_free(method, params);
    assert(cj[0] == '{');
    lemma_free_splits_cleanly(cj);
    let ms = seq![cj];
    assert forall|k: int| 0 <= k < ms.len() implies splits_cleanly(#[trigger] ms[k]) by {}
    lemma_split_inverts_framing(ms);
    lemma_clean_frame(cj);
    let parts = ms.map_values(|m: Seq<char>| ws_text(m));
    assert(parts[0] == ws_text(cj));
    assert(parts.drop_first().len() == 0);
    assert(joined(parts.drop_first()) =~= Seq::<char>::empty());
    assert(framed_all(ms) =~= frame(cj));
}

/// Applying the effects that a data update answers (a quote to publish, at
/// most) leaves the sessions as the update left them.
pub proof fn lemma_update_effects_record_nothing(sessions: Map<Seq<char>, QuoteSession>, effects: Seq<Effect>)
    requires
        effects.len() == 0 || (effects.len() == 1 && effects[0] is Publish),
    ensures
        effects_next(sessions, effects) == sessions,
{
    reveal_with_fuel(effects_next, 2);
    if effects.len() == 1 {
        assert(effects.drop_first().len() == 0);
    }
}

/// What the client hands on for a run of messages is what it hands on for
/// each part of the run, one after the other: each message is processed
/// on its own, whatever came before it.
pub proof fn lemma_messages_concat(a: Seq<Seq<char>>, b: Seq<Seq<char>>)
    ensures
        replies(a + b) == replies(a) + replies(b),
        requests(a + b) == requests(a) + requests(b),
        refusals(a + b) == refusals(a) + refusals(b),
    decreases b.len(),
{
    if b.len() == 0 {
        assert(a + b =~= a);
        assert(replies(a) + replies(b) =~= replies(a));
        assert(requests(a) + requests(b) =~= requests(a));
        assert(refusals(a) + refusals(b) =~= refusals(a));
    } else {
        lemma_messages_concat(a, b.drop_last());
        assert((a + b).drop_last() =~= a + b.drop_last());
        assert((a + b).last() == b.last());
        assert(replies(a + b) =~= replies(a) + replies(b));
        assert(requests(a + b) =~= requests(a) + requests(b));
        assert(refusals(a + b) =~= refusals(a) + refusals(b));
    }
}

/// A message that is refused (a JSON command that does not decode, or
/// whose `qsd` parameters are wrong) sends nothing and hands nothing on:
/// the messages after it give exactly what they give without it, and the
/// refusal is noted.
pub proof fn lemma_refused_message_passed_over(bad: Seq<char>, rest: Seq<Seq<char>>)
    requires
        is_command_text(bad),
        command_text_outcome(bad) is Err,
    ensures
        replies(seq![bad] + rest) == replies(rest),
        requests(seq![bad] + rest) == requests(rest),
        refusals(seq![bad] + rest) == seq![command_text_outcome(bad)->Err_0] + refusals(rest),
{
    lemma_messages_concat(seq![bad], rest);
    let one = seq![bad];
    assert(one.drop_last() =~= Seq::<Seq<char>>::empty());
    assert(one.last() == bad);
    let none = Seq::<Seq<char>>::empty();
    assert(replies(none) =~= Seq::<Seq<char>>::empty());
    assert(requests(none) =~= Seq::<QPInput>::empty());
    assert(refusals(none) =~= Seq::<CommandError>::empty());
    assert(reply_of(bad) =~= Seq::<Seq<char>>::empty());
    assert(request_of(bad) =~= Seq::<QPInput>::empty());
    assert(replies(one) =~= Seq::<Seq<char>>::empty());
    assert(requests(one) =~= Seq::<QPInput>::empty());
    assert(refusals(one) =~= seq![command_text_outcome(bad)->Err_0]);
    assert(replies(one) + replies(rest) =~= replies(rest));
    assert(requests(one) + requests(rest) =~= requests(rest));
}

/// A subscription keeps every session that was open, each as it was, and
/// opens one more: the sessions count one more than before.
pub proof fn lemma_subscription_adds_one(
    before: Map<Seq<char>, QuoteSession>,
    after: Map<Seq<char>, QuoteSession>,
    texts: Seq<Seq<char>>,
    sym: Seq<char>,
    s: QuoteSession,
)
    requires
        subscribed(before, after, texts, sym, s),
        before.dom().finite(),
    ensures
        forall|k: Seq<char>| #[trigger] before.contains_key(k) ==> after.contains_key(k) && after[k] == before[k],
        after.contains_key(s.id@) && after[s.id@] == s,
        after.dom().finite(),
        after.dom().len() == before.dom().len() + 1,
{
    assert(after.dom() =~= before.dom().insert(s.id@));
}

/// Two subscriptions one after the other open two sessions under
/// different ids; the first one's session is still open as it was
/// recorded, as is every session open before both.
pub proof fn lemma_two_subscriptions(
    s0: Map<Seq<char>, QuoteSession>,
    s1: Map<Seq<char>, QuoteSession>,
    s2: Map<Seq<char>, QuoteSession>,
    t1: Seq<Seq<char>>,
    t2: Seq<Seq<char>>,
    sym1: Seq<char>,
    sym2: Seq<char>,
    a: QuoteSession,
    b: QuoteSession,
)
    requires
        subscribed(s0, s1, t1, sym1, a),
        subscribed(s1, s2, t2, sym2, b),
    ensures
        a.id@ != b.id@,
        s2.contains_key(a.id@) && s2[a.id@] == a,
        s2.contains_key(b.id@) && s2[b.id@] == b,
        forall|k: Seq<char>| #[trigger] s0.contains_key(k) ==> s2.contains_key(k) && s2[k] == s0[k],
        s0.dom().finite() ==> s2.dom().len() == s0.dom().len() + 2,
{
    if s0.dom().finite() {
        lemma_subscription_adds_one(s0, s1, t1, sym1, a);
        lemma_subscription_adds_one(s1, s2, t2, sym2, b);
    }
    assert(s1.contains_key(a.id@));
}

} // verus!
