//! The streaming aggregation engine.
//!
//! The engine consumes decoded quote updates for a fixed, non-empty set
//! of subscribed instruments. Each valid update replaces the
//! instrument's snapshot (mid and weighted mid price), appends an
//! observation to its rolling history, and evicts observations older
//! than the retention window. Once at least `EMIT_INTERVAL_MS` has
//! passed since the last emission and every subscribed instrument has a
//! snapshot, processing a valid update also emits a summary: one row per
//! known instrument with its current prices and the extrema over its
//! history.
//!
//! The whole behaviour is specified by the `step` function over the
//! engine's mathematical model; `process_update` implements exactly one
//! `step`.

use vstd::prelude::*;
use std::collections::VecDeque;
use crate::decimal::spec_parse_scaled;
use crate::decimal::parse_scaled;
use crate::history::{
    HistEntry,
    WINDOW_MS,
    ts_sorted,
    evict_spec,
    evict_older,
    max_mid,
    min_mid,
    max_wmid,
    min_wmid,
    history_extrema,
    lemma_evict_sorted,
    lemma_evict_window,
    lemma_evict_keeps_recent,
    lemma_evict_suffix,
};
use crate::quote::{QuoteUpdate, quote_bounds_ok, mid_of, wmid_of};
use crate::json::{json_doc_wf, fields_of, extract_quote_fields};

verus! {

/// Minimum spacing between two summary emissions, in milliseconds.
pub const EMIT_INTERVAL_MS: u64 = 5_000;

/// The text fields of one incoming update, before numeric validation.
/// A field is `None` when the message did not carry it as a string.
pub struct RawFields {
    pub symbol: Option<String>,
    pub bid: Option<String>,
    pub ask: Option<String>,
    pub bid_qty: Option<String>,
    pub ask_qty: Option<String>,
}

/// Model of `RawFields`: each field as its character sequence.
#[verifier::ext_equal]
pub ghost struct FieldsModel {
    pub symbol: Option<Seq<char>>,
    pub bid: Option<Seq<char>>,
    pub ask: Option<Seq<char>>,
    pub bid_qty: Option<Seq<char>>,
    pub ask_qty: Option<Seq<char>>,
}

pub open spec fn opt_str_view(o: Option<String>) -> Option<Seq<char>> {
    match o {
        Some(s) => Some(s@),
        None => None,
    }
}

impl View for RawFields {
    type V = FieldsModel;

    open spec fn view(&self) -> FieldsModel {
        FieldsModel {
            symbol: opt_str_view(self.symbol),
            bid: opt_str_view(self.bid),
            ask: opt_str_view(self.ask),
            bid_qty: opt_str_view(self.bid_qty),
            ask_qty: opt_str_view(self.ask_qty),
        }
    }
}

/// A validated update, fields parsed to fixed-point values.
#[verifier::ext_equal]
pub ghost struct QuoteModel {
    pub symbol: Seq<char>,
    pub bid: u64,
    pub ask: u64,
    pub bid_qty: u64,
    pub ask_qty: u64,
}

pub open spec fn parsed_or_none(o: Option<Seq<char>>) -> Option<u64> {
    match o {
        Some(s) => spec_parse_scaled(s),
        None => None,
    }
}

/// Field-level validation: an update is acted upon exactly when all
/// five fields are present, numerically parseable, and the quantities
/// are not both zero; otherwise it is discarded without any state
/// change.
pub open spec fn parse_quote(f: FieldsModel) -> Option<QuoteModel> {
    match (f.symbol, parsed_or_none(f.bid), parsed_or_none(f.ask), parsed_or_none(f.bid_qty), parsed_or_none(f.ask_qty)) {
        (Some(sym), Some(b), Some(a), Some(bq), Some(aq)) => if bq + aq > 0 {
            Some(QuoteModel { symbol: sym, bid: b, ask: a, bid_qty: bq, ask_qty: aq })
        } else {
            None
        },
        _ => None,
    }
}

/// State kept for one known instrument: the current snapshot and the
/// rolling history, updated together on every valid update.
pub struct Entry {
    pub symbol: String,
    pub mid: u64,
    pub wmid: u64,
    pub history: VecDeque<HistEntry>,
}

#[verifier::ext_equal]
pub ghost struct EntryModel {
    pub symbol: Seq<char>,
    pub mid: u64,
    pub wmid: u64,
    pub history: Seq<HistEntry>,
}

impl View for Entry {
    type V = EntryModel;

    open spec fn view(&self) -> EntryModel {
        EntryModel { symbol: self.symbol@, mid: self.mid, wmid: self.wmid, history: self.history@ }
    }
}

pub open spec fn entries_view(s: Seq<Entry>) -> Seq<EntryModel> {
    s.map_values(|e: Entry| e@)
}

pub open spec fn strs_view(s: Seq<String>) -> Seq<Seq<char>> {
    s.map_values(|x: String| x@)
}

/// One line of an emitted summary.
#[derive(Debug)]
pub struct SummaryRow {
    pub symbol: String,
    pub mid: u64,
    pub wmid: u64,
    pub max_mid: u64,
    pub min_mid: u64,
    pub max_wmid: u64,
    pub min_wmid: u64,
}

#[verifier::ext_equal]
pub ghost struct RowModel {
    pub symbol: Seq<char>,
    pub mid: u64,
    pub wmid: u64,
    pub max_mid: u64,
    pub min_mid: u64,
    pub max_wmid: u64,
    pub min_wmid: u64,
}

impl View for SummaryRow {
    type V = RowModel;

    open spec fn view(&self) -> RowModel {
        RowModel {
            symbol: self.symbol@,
            mid: self.mid,
            wmid: self.wmid,
            max_mid: self.max_mid,
            min_mid: self.min_mid,
            max_wmid: self.max_wmid,
            min_wmid: self.min_wmid,
        }
    }
}

pub open spec fn rows_view(emit: Option<Vec<SummaryRow>>) -> Option<Seq<RowModel>> {
    match emit {
        Some(rows) => Some(rows@.map_values(|r: SummaryRow| r@)),
        None => None,
    }
}

/// The aggregation engine.
pub struct Engine {
    pub subscribed: Vec<String>,
    pub entries: Vec<Entry>,
    pub last_emit_ms: u64,
    pub clock_ms: u64,
}

/// Model of the engine: subscribed identifiers, known instruments in
/// creation order, the time of the last emission, and the latest
/// observation time handed to it.
#[verifier::ext_equal]
pub ghost struct EngineModel {
    pub subscribed: Seq<Seq<char>>,
    pub entries: Seq<EntryModel>,
    pub last_emit_ms: u64,
    pub clock_ms: u64,
}

impl View for Engine {
    type V = EngineModel;

    open spec fn view(&self) -> EngineModel {
        EngineModel {
            subscribed: strs_view(self.subscribed@),
            entries: entries_view(self.entries@),
            last_emit_ms: self.last_emit_ms,
            clock_ms: self.clock_ms,
        }
    }
}

/// Index of the first entry for `sym`, or `-1` when there is none.
pub open spec fn find_entry(entries: Seq<EntryModel>, sym: Seq<char>) -> int
    decreases entries.len(),
{
    if entries.len() == 0 {
        -1
    } else if entries[0].symbol == sym {
        0
    } else {
        let r = find_entry(entries.drop_first(), sym);
        if r < 0 {
            -1
        } else {
            1 + r
        }
    }
}

pub proof fn lemma_find_entry(entries: Seq<EntryModel>, sym: Seq<char>)
    ensures
        find_entry(entries, sym) == -1 || 0 <= find_entry(entries, sym) < entries.len(),
        find_entry(entries, sym) >= 0 ==> entries[find_entry(entries, sym)].symbol == sym,
        forall|j: int| 0 <= j < find_entry(entries, sym) ==> (#[trigger] entries[j]).symbol != sym,
        find_entry(entries, sym) == -1 ==> forall|j: int|
            0 <= j < entries.len() ==> (#[trigger] entries[j]).symbol != sym,
    decreases entries.len(),
{
    if entries.len() == 0 {
    } else if entries[0].symbol == sym {
    } else {
        lemma_find_entry(entries.drop_first(), sym);
        let r = find_entry(entries.drop_first(), sym);
        if r >= 0 {
            assert(entries.drop_first()[r] == entries[r + 1]);
        }
        assert forall|j: int| 0 <= j < find_entry(entries, sym) implies (#[trigger] entries[j]).symbol
            != sym by {
            if j > 0 {
                assert(entries.drop_first()[j - 1] == entries[j]);
            }
        }
        if find_entry(entries, sym) == -1 {
            assert forall|j: int| 0 <= j < entries.len() implies (#[trigger] entries[j]).symbol
                != sym by {
                if j > 0 {
                    assert(entries.drop_first()[j - 1] == entries[j]);
                }
            }
        }
    }
}

/// A position before which `sym` does not occur, and which holds `sym`
/// or is the end, determines `find_entry`.
pub proof fn lemma_find_entry_at(entries: Seq<EntryModel>, sym: Seq<char>, i: int)
    requires
        0 <= i <= entries.len(),
        forall|j: int| 0 <= j < i ==> (#[trigger] entries[j]).symbol != sym,
        i < entries.len() ==> entries[i].symbol == sym,
    ensures
        i < entries.len() ==> find_entry(entries, sym) == i,
        i == entries.len() ==> find_entry(entries, sym) == -1,
{
    lemma_find_entry(entries, sym);
}

/// Model of a valid update being applied: the snapshot replaced, the
/// observation appended, and the history evicted, for that instrument
/// alone; a first update for an instrument creates its entry at the
/// back.
pub open spec fn apply_quote(m: EngineModel, q: QuoteModel, now: u64) -> EngineModel {
    let mid = mid_of(q.bid as int, q.ask as int) as u64;
    let wmid = wmid_of(q.bid as int, q.ask as int, q.bid_qty as int, q.ask_qty as int) as u64;
    let rec = HistEntry { ts_ms: now, mid, wmid };
    let i = find_entry(m.entries, q.symbol);
    let entries = if i >= 0 {
        m.entries.update(
            i,
            EntryModel {
                symbol: q.symbol,
                mid,
                wmid,
                history: evict_spec(m.entries[i].history.push(rec), now as int),
            },
        )
    } else {
        m.entries.push(EntryModel { symbol: q.symbol, mid, wmid, history: seq![rec] })
    };
    EngineModel { subscribed: m.subscribed, entries, last_emit_ms: m.last_emit_ms, clock_ms: now }
}

/// Every subscribed instrument has received at least one valid update.
pub open spec fn subscribed_present(m: EngineModel) -> bool {
    forall|i: int|
        0 <= i < m.subscribed.len() ==> find_entry(m.entries, #[trigger] m.subscribed[i]) >= 0
}

/// The emission gate, checked once per valid update after it is
/// applied.
pub open spec fn should_emit(m: EngineModel, now: u64) -> bool {
    &&& now >= m.last_emit_ms + EMIT_INTERVAL_MS
    &&& subscribed_present(m)
}

/// The summary row derived for one instrument: current prices and the
/// extrema over its history (falling back to the current prices for an
/// empty history).
pub open spec fn row_of(e: EntryModel) -> RowModel {
    RowModel {
        symbol: e.symbol,
        mid: e.mid,
        wmid: e.wmid,
        max_mid: if e.history.len() == 0 { e.mid } else { max_mid(e.history) },
        min_mid: if e.history.len() == 0 { e.mid } else { min_mid(e.history) },
        max_wmid: if e.history.len() == 0 { e.wmid } else { max_wmid(e.history) },
        min_wmid: if e.history.len() == 0 { e.wmid } else { min_wmid(e.history) },
    }
}

/// One summary: a row per known instrument, in creation order.
pub open spec fn summary_of(entries: Seq<EntryModel>) -> Seq<RowModel> {
    entries.map_values(|e: EntryModel| row_of(e))
}

/// The engine's whole behaviour on one message: discard a malformed
/// update unchanged; apply a valid one; then emit exactly when the emission gate
/// opens, resetting the emission timer.
pub open spec fn step(m: EngineModel, f: FieldsModel, now: u64) -> (EngineModel, Option<
    Seq<RowModel>,
>) {
    match parse_quote(f) {
        None => (m, None),
        Some(q) => {
            let m1 = apply_quote(m, q, now);
            if should_emit(m1, now) {
                (
                    EngineModel {
                        subscribed: m1.subscribed,
                        entries: m1.entries,
                        last_emit_ms: now,
                        clock_ms: m1.clock_ms,
                    },
                    Some(summary_of(m1.entries)),
                )
            } else {
                (m1, None)
            }
        },
    }
}

/// The one fatal decode error: a frame payload that is not a
/// well-formed JSON document.
#[derive(Clone, Copy, Debug, PartialEq, Eq, Structural)]
pub enum DecodeError {
    MalformedPayload,
}

/// Well-formedness of one instrument's state: a non-empty history in
/// time order, within the retention window of its newest entry, no
/// newer than the engine's clock, and a snapshot equal to the newest
/// observation.
pub open spec fn entry_wf(e: EntryModel, clock: int) -> bool {
    &&& e.history.len() >= 1
    &&& ts_sorted(e.history)
    &&& forall|i: int| 0 <= i < e.history.len() ==> (#[trigger] e.history[i]).ts_ms <= clock
    &&& forall|i: int|
        0 <= i < e.history.len() ==> e.history.last().ts_ms <= (#[trigger] e.history[i]).ts_ms
            + WINDOW_MS
    &&& e.mid == e.history.last().mid
    &&& e.wmid == e.history.last().wmid
}

/// Engine invariant: a non-empty subscription, one entry per
/// instrument, well-formed instrument state, and an emission time that
/// never runs ahead of the clock.
pub open spec fn engine_wf(m: EngineModel) -> bool {
    &&& m.subscribed.len() > 0
    &&& forall|i: int, j: int|
        0 <= i < j < m.entries.len() ==> (#[trigger] m.entries[i]).symbol
            != (#[trigger] m.entries[j]).symbol
    &&& forall|i: int| 0 <= i < m.entries.len() ==> entry_wf(#[trigger] m.entries[i], m.clock_ms as int)
    &&& m.last_emit_ms <= m.clock_ms
}

/// The rolling-history window invariant: in a well-formed engine no
/// history holds an entry more than the retention window older than the
/// newest entry of that history.
pub proof fn lemma_history_window(m: EngineModel, i: int, j: int)
    requires
        engine_wf(m),
        0 <= i < m.entries.len(),
        0 <= j < m.entries[i].history.len(),
    ensures
        m.entries[i].history.last().ts_ms <= m.entries[i].history[j].ts_ms + WINDOW_MS,
{
}

fn entry_at_mut(entries: &mut Vec<Entry>, i: usize) -> (e: &mut Entry)
    requires
        i < old(entries).len(),
    ensures
        *e == old(entries)@[i as int],
        final(entries)@ == old(entries)@.update(i as int, *final(e)),
{
    &mut entries[i]
}

fn find_index(entries: &Vec<Entry>, sym: &String) -> (r: Option<usize>)
    ensures
        match r {
            Some(i) => i < entries@.len() && find_entry(entries_view(entries@), sym@) == i,
            None => find_entry(entries_view(entries@), sym@) == -1,
        },
{
    let ghost ev = entries_view(entries@);
    let mut i: usize = 0;
    while i < entries.len()
        invariant
            0 <= i <= entries@.len(),
            ev == entries_view(entries@),
            ev.len() == entries@.len(),
            forall|j: int| 0 <= j < i ==> (#[trigger] ev[j]).symbol != sym@,
        decreases entries@.len() - i,
    {
        if entries[i].symbol == *sym {
            proof {
                lemma_find_entry_at(ev, sym@, i as int);
            }
            return Some(i);
        }
        i = i + 1;
    }
    proof {
        lemma_find_entry_at(ev, sym@, entries@.len() as int);
    }
    None
}

fn all_present(entries: &Vec<Entry>, subscribed: &Vec<String>) -> (r: bool)
    ensures
        r == forall|i: int|
            0 <= i < subscribed@.len() ==> find_entry(
                entries_view(entries@),
                (#[trigger] strs_view(subscribed@)[i]),
            ) >= 0,
{
    let mut k: usize = 0;
    while k < subscribed.len()
        invariant
            0 <= k <= subscribed@.len(),
            forall|i: int|
                0 <= i < k ==> find_entry(entries_view(entries@), (#[trigger] strs_view(subscribed@)[i]))
                    >= 0,
        decreases subscribed@.len() - k,
    {
        let found = find_index(entries, &subscribed[k]);
        if found.is_none() {
            proof {
                assert(strs_view(subscribed@)[k as int] == subscribed@[k as int]@);
                assert(find_entry(entries_view(entries@), strs_view(subscribed@)[k as int]) == -1);
            }
            return false;
        }
        k = k + 1;
    }
    true
}

fn build_summary(entries: &Vec<Entry>) -> (rows: Vec<SummaryRow>)
    ensures
        rows@.map_values(|r: SummaryRow| r@) == summary_of(entries_view(entries@)),
{
    let mut rows: Vec<SummaryRow> = Vec::new();
    let mut i: usize = 0;
    while i < entries.len()
        invariant
            0 <= i <= entries@.len(),
            rows@.len() == i,
            forall|j: int|
                0 <= j < i ==> (#[trigger] rows@[j])@ == row_of(entries_view(entries@)[j]),
        decreases entries@.len() - i,
    {
        let e = &entries[i];
        let (mx_m, mn_m, mx_w, mn_w) = history_extrema(&e.history, e.mid, e.wmid);
        let row = SummaryRow {
            symbol: e.symbol.clone(),
            mid: e.mid,
            wmid: e.wmid,
            max_mid: mx_m,
            min_mid: mn_m,
            max_wmid: mx_w,
            min_wmid: mn_w,
        };
        proof {
            assert(row@ == row_of(entries_view(entries@)[i as int]));
        }
        rows.push(row);
        i = i + 1;
    }
    proof {
        assert(rows@.map_values(|r: SummaryRow| r@) =~= summary_of(entries_view(entries@)));
    }
    rows
}

impl Engine {
    /// A fresh engine for a non-empty set of subscribed instruments,
    /// started at `start_ms`: no instrument is known yet and the first
    /// emission can come no earlier than one interval after the start.
    pub fn new(subscribed: Vec<String>, start_ms: u64) -> (e: Engine)
        requires
            subscribed@.len() > 0,
        ensures
            e@ == (EngineModel {
                subscribed: strs_view(subscribed@),
                entries: Seq::<EntryModel>::empty(),
                last_emit_ms: start_ms,
                clock_ms: start_ms,
            }),
            engine_wf(e@),
    {
        let e = Engine { subscribed, entries: Vec::new(), last_emit_ms: start_ms, clock_ms: start_ms };
        proof {
            assert(entries_view(e.entries@) =~= Seq::<EntryModel>::empty());
        }
        e
    }

    /// Process the fields of one incoming update at time `now_ms`.
    ///
    /// Behaves as exactly one `step` of the engine's model: a malformed
    /// update (a missing or unparseable field, or zero total quantity)
    /// changes nothing; a valid one updates snapshot and history and,
    /// when the emission gate opens, returns the emitted summary. Emission never
    /// occurs before every subscribed instrument has a snapshot, and
    /// never within `EMIT_INTERVAL_MS` of the previous emission.
    pub fn process_update(&mut self, fields: &RawFields, now_ms: u64) -> (emit: Option<
        Vec<SummaryRow>,
    >)
        requires
            engine_wf(old(self)@),
            now_ms >= old(self)@.clock_ms,
        ensures
            engine_wf(final(self)@),
            final(self)@ == step(old(self)@, fields@, now_ms).0,
            rows_view(emit) == step(old(self)@, fields@, now_ms).1,
            final(self)@.subscribed == old(self)@.subscribed,
            parse_quote(fields@) is None ==> final(self)@ == old(self)@ && emit is None,
            emit is Some ==> subscribed_present(final(self)@) && final(self)@.last_emit_ms == now_ms
                && now_ms >= old(self)@.last_emit_ms + EMIT_INTERVAL_MS,
    {
        let ghost m0 = self@;

        // Field-level validation; any failure discards the message.
        let symbol = match &fields.symbol {
            Some(s) => s,
            None => {
                return None;
            },
        };
        let bid = match &fields.bid {
            Some(s) => match parse_scaled(s.as_str()) {
                Some(v) => v,
                None => {
                    return None;
                },
            },
            None => {
                return None;
            },
        };
        let ask = match &fields.ask {
            Some(s) => match parse_scaled(s.as_str()) {
                Some(v) => v,
                None => {
                    return None;
                },
            },
            None => {
                return None;
            },
        };
        let bid_qty = match &fields.bid_qty {
            Some(s) => match parse_scaled(s.as_str()) {
                Some(v) => v,
                None => {
                    return None;
                },
            },
            None => {
                return None;
            },
        };
        let ask_qty = match &fields.ask_qty {
            Some(s) => match parse_scaled(s.as_str()) {
                Some(v) => v,
                None => {
                    return None;
                },
            },
            None => {
                return None;
            },
        };
        if bid_qty == 0 && ask_qty == 0 {
            return None;
        }

        let ghost q = QuoteModel { symbol: symbol@, bid, ask, bid_qty, ask_qty };
        proof {
            assert(parse_quote(fields@) == Some(q));
        }

        // Derived prices.
        let quote = QuoteUpdate {
            symbol: symbol.clone(),
            bid,
            ask,
            bid_qty,
            ask_qty,
        };
        let mid = quote.mid();
        let wmid = quote.weighted_mid();
        let rec = HistEntry { ts_ms: now_ms, mid, wmid };

        // Replace the snapshot and extend the history of this
        // instrument, atomically with respect to each other.
        match find_index(&self.entries, symbol) {
            Some(idx) => {
                let ghost old_entries = self.entries@;
                let e = entry_at_mut(&mut self.entries, idx);
                let ghost old_hist = e.history@;
                e.mid = mid;
                e.wmid = wmid;
                e.history.push_back(rec);
                proof {
                    lemma_entry_ts_bound(m0, idx as int, now_ms);
                    assert(m0.entries[idx as int] == entries_view(old_entries)[idx as int]);
                    assert(m0.entries[idx as int].history == old_hist);
                    assert(forall|j: int|
                        0 <= j < old_hist.len() ==> #[trigger] old_hist.push(rec)[j]
                            == old_hist[j]);
                    assert(forall|j: int|
                        0 <= j < e.history@.len() ==> (#[trigger] e.history@[j]).ts_ms <= now_ms);
                }
                evict_older(&mut e.history, now_ms);
                proof {
                    let em = EntryModel {
                        symbol: q.symbol,
                        mid,
                        wmid,
                        history: evict_spec(old_hist.push(rec), now_ms as int),
                    };
                    lemma_find_entry(entries_view(old_entries), q.symbol);
                    assert(entries_view(old_entries)[idx as int] == old_entries[idx as int]@);
                    assert(old_entries[idx as int].symbol@ == q.symbol);
                    assert forall|j: int| 0 <= j < self.entries@.len() implies entries_view(
                        self.entries@,
                    )[j] == entries_view(old_entries).update(idx as int, em)[j] by {
                        assert(entries_view(self.entries@)[j] == self.entries@[j]@);
                        if j == idx {
                            assert(self.entries@[j]@ =~= em);
                        } else {
                            assert(self.entries@[j] == old_entries[j]);
                        }
                    }
                    assert(entries_view(self.entries@) =~= entries_view(old_entries).update(
                        idx as int,
                        em,
                    ));
                }
            },
            None => {
                let mut h: VecDeque<HistEntry> = VecDeque::new();
                h.push_back(rec);
                let entry = Entry { symbol: symbol.clone(), mid, wmid, history: h };
                let ghost old_entries = self.entries@;
                self.entries.push(entry);
                proof {
                    assert(entries_view(self.entries@) =~= entries_view(old_entries).push(
                        EntryModel { symbol: symbol@, mid, wmid, history: seq![rec] },
                    ));
                }
            },
        }
        self.clock_ms = now_ms;

        proof {
            assert(self@ =~~= apply_quote(m0, q, now_ms));
            lemma_apply_quote_wf(m0, q, now_ms);
        }

        // Emission gate: at least one interval since the last emission
        // and a snapshot for every subscribed instrument.
        if now_ms - self.last_emit_ms >= EMIT_INTERVAL_MS && all_present(
            &self.entries,
            &self.subscribed,
        ) {
            let rows = build_summary(&self.entries);
            self.last_emit_ms = now_ms;
            proof {
                assert(should_emit(apply_quote(m0, q, now_ms), now_ms));
                assert(self@ =~~= step(m0, fields@, now_ms).0);
            }
            Some(rows)
        } else {
            proof {
                assert(!should_emit(apply_quote(m0, q, now_ms), now_ms));
                assert(self@ =~~= step(m0, fields@, now_ms).0);
            }
            None
        }
    }

    /// Process one text frame at time `now_ms`.
    ///
    /// The payload must be a JSON document; anything else is the fatal
    /// decode error and leaves the engine unchanged. On a document the
    /// engine takes exactly one `step` of the model on the fields
    /// extracted from the text: a document without a `data` member, or
    /// whose quote fields are missing, not strings, or not parseable,
    /// is discarded silently, and a valid update is applied — and may
    /// emit.
    pub fn process_text(&mut self, text: &str, now_ms: u64) -> (r: Result<
        Option<Vec<SummaryRow>>,
        DecodeError,
    >)
        requires
            engine_wf(old(self)@),
            now_ms >= old(self)@.clock_ms,
        ensures
            engine_wf(final(self)@),
            final(self)@.subscribed == old(self)@.subscribed,
            r is Err <==> !json_doc_wf(text@),
            r is Err ==> final(self)@ == old(self)@,
            r matches Ok(emit) ==> final(self)@ == step(old(self)@, fields_of(text@), now_ms).0
                && rows_view(emit) == step(old(self)@, fields_of(text@), now_ms).1,
            r matches Ok(Some(rows)) ==> subscribed_present(final(self)@)
                && final(self)@.last_emit_ms == now_ms
                && now_ms >= old(self)@.last_emit_ms + EMIT_INTERVAL_MS,
    {
        let fields = match extract_quote_fields(text) {
            Some(f) => f,
            None => {
                return Err(DecodeError::MalformedPayload);
            },
        };
        proof {
            assert(fields@ =~= fields_of(text@));
        }
        let emit = self.process_update(&fields, now_ms);
        Ok(emit)
    }
}

/// In a well-formed engine every recorded timestamp is at most the
/// clock, hence at most any `now` the clock has not passed.
proof fn lemma_entry_ts_bound(m: EngineModel, i: int, now: u64)
    requires
        engine_wf(m),
        0 <= i < m.entries.len(),
        now >= m.clock_ms,
    ensures
        forall|j: int|
            0 <= j < m.entries[i].history.len() ==> (#[trigger] m.entries[i].history[j]).ts_ms
                <= now,
{
}

/// Applying a valid quote preserves the engine invariant and advances
/// the clock.
proof fn lemma_apply_quote_wf(m: EngineModel, q: QuoteModel, now: u64)
    requires
        engine_wf(m),
        now >= m.clock_ms,
    ensures
        engine_wf(apply_quote(m, q, now)),
{
    let m1 = apply_quote(m, q, now);
    let mid = mid_of(q.bid as int, q.ask as int) as u64;
    let wmid = wmid_of(q.bid as int, q.ask as int, q.bid_qty as int, q.ask_qty as int) as u64;
    let rec = HistEntry { ts_ms: now, mid, wmid };
    let i = find_entry(m.entries, q.symbol);
    lemma_find_entry(m.entries, q.symbol);
    if i >= 0 {
        let h0 = m.entries[i].history;
        let pushed = h0.push(rec);
        assert(ts_sorted(pushed)) by {
            assert(forall|k: int| 0 <= k < h0.len() ==> #[trigger] pushed[k] == h0[k]);
            assert(pushed[h0.len() as int] == rec);
        }
        lemma_evict_sorted(pushed, now as int);
        lemma_evict_window(pushed, now as int);
        assert(pushed.last() == rec);
        lemma_evict_keeps_recent(pushed, now as int);
        lemma_evict_suffix(pushed, now as int);
        let h1 = evict_spec(pushed, now as int);
        let k = choose|k: int| 0 <= k <= pushed.len() && h1 =~= pushed.skip(k);
        assert(forall|j: int| 0 <= j < h1.len() ==> #[trigger] h1[j] == pushed[j + k]);
        assert(forall|j: int| 0 <= j < h1.len() ==> (#[trigger] h1[j]).ts_ms <= now);
        assert(entry_wf(m1.entries[i], now as int));
        assert(forall|j: int|
            0 <= j < m1.entries.len() && j != i ==> #[trigger] m1.entries[j] == m.entries[j]);
        assert(forall|j: int|
            0 <= j < m1.entries.len() && j != i ==> entry_wf(#[trigger] m1.entries[j], now as int));
    } else {
        assert(m1.entries.last() == (EntryModel { symbol: q.symbol, mid, wmid, history: seq![rec] }));
        assert(entry_wf(m1.entries[m.entries.len() as int], now as int));
        assert(forall|j: int|
            0 <= j < m.entries.len() ==> #[trigger] m1.entries[j] == m.entries[j]);
        assert(forall|j: int|
            0 <= j < m.entries.len() ==> (#[trigger] m1.entries[j]).symbol != q.symbol);
    }
}

} // verus!
