//! Latency records: which transactions get one, and what stands in it.
use crate::clock::{clamped, monotonic_nanos, nanos_between, since_unix_epoch, unix_nanos};
use crate::keys::ClientId;
use std::collections::HashMap;
use std::time::{Instant, SystemTime};
use vstd::prelude::*;

verus! {

/// How many bytes are buffered before they are written to the file.
pub const METRICS_BUFFER_BYTES: usize = 2_097_152;

/// Room for ~5 seconds of backlog at 200k tx/s.
pub const METRICS_CHANNEL_CAPACITY: usize = 3_000_000;

/// The byte between two fields of a record.
pub const COMMA: u8 = 44;

/// The byte at the end of a record.
pub const NEWLINE: u8 = 10;

/// Events produced by the client pipeline that are consumed by the metrics thread.
pub enum MetricsEvent {
    /// A transaction was sent.
    Send { tx_id: u64, send_instant: Instant, send_time: SystemTime, is_sample: bool },
    /// A transaction was committed.
    Commit { tx_id: u64, commit_instant: Instant, commit_time: SystemTime },
    /// No more events are to be recorded.
    Shutdown,
}

/// State for transactions that have been sent but not yet committed.
pub struct InFlightTransaction {
    pub send_instant: Instant,
    pub send_time: SystemTime,
    pub is_sample: bool,
}

/// What to do after an event.
pub enum MetricsAction {
    /// Nothing.
    Nothing,
    /// Write a line to the file. Where it is to be created first, the header comes before it.
    Write { create: bool, line: Vec<u8> },
    /// Take no more events.
    Stop,
}

/// Turns send and commit events into latency records.
pub struct MetricsWriter {
    /// The client whose transactions are recorded.
    pub client_id: ClientId,
    /// How many records have been written.
    pub records_written: u64,
    /// The transactions that have been sent but not yet committed.
    pub in_flight: HashMap<u64, InFlightTransaction>,
}

/// The decimal digits of a number.
pub open spec fn decimal(n: nat) -> Seq<u8>
    decreases n,
{
    if n < 10 {
        seq![(48 + n) as u8]
    } else {
        decimal(n / 10).push((48 + n % 10) as u8)
    }
}

/// What a record says.
pub struct Record {
    pub client_id: nat,
    pub tx_id: nat,
    pub is_sample: bool,
    pub send_ns: nat,
    pub commit_ns: nat,
    pub latency_ns: nat,
}

impl Record {
    /// The line that stands for the record: its fields in decimal, with commas between them.
    pub open spec fn line(self) -> Seq<u8> {
        decimal(self.client_id).push(COMMA) + (decimal(self.tx_id).push(COMMA) + (decimal(
            if self.is_sample {
                1
            } else {
                0
            },
        ).push(COMMA) + (decimal(self.send_ns).push(COMMA) + (decimal(self.commit_ns).push(COMMA) + (
        decimal(self.latency_ns).push(NEWLINE))))))
    }
}

/// The record of a transaction that was sent and then committed.
pub open spec fn record_of(
    client_id: ClientId,
    tx_id: u64,
    sent: InFlightTransaction,
    commit_instant: Instant,
    commit_time: SystemTime,
) -> Record {
    Record {
        client_id: client_id as nat,
        tx_id: tx_id as nat,
        is_sample: sent.is_sample,
        send_ns: clamped(unix_nanos(sent.send_time)),
        commit_ns: clamped(unix_nanos(commit_time)),
        latency_ns: clamped(monotonic_nanos(commit_instant) - monotonic_nanos(sent.send_instant)),
    }
}

/// The decimal form of a number.
///
/// Calls `itoa::Buffer::format`, which gives the decimal representation, without leading
/// zeros, of any `u128`.
#[verifier::external_body]
fn format_int(value: u128) -> (digits: Vec<u8>)
    ensures
        digits@ == decimal(value as nat),
{
    itoa::Buffer::new().format(value).as_bytes().to_vec()
}

/// The nanoseconds from the Unix epoch to `time`, or zero where `time` is before it.
pub fn to_unix_nanos(time: SystemTime) -> (nanos: u128)
    ensures
        nanos == clamped(unix_nanos(time)),
{
    match since_unix_epoch(time) {
        Some(span) => span.as_nanos(),
        None => 0,
    }
}

/// Puts the decimal form of a number at the end of a buffer.
pub fn write_int(buf: &mut Vec<u8>, value: u128)
    ensures
        final(buf)@ == old(buf)@ + decimal(value as nat),
{
    let mut digits = format_int(value);
    buf.append(&mut digits);
}

/// The first line of a file of records.
pub fn header() -> (text: &'static str)
    ensures
        text@ == "client_id,tx_id,is_sample,send_ns,commit_ns,latency_ns\n"@,
{
    "client_id,tx_id,is_sample,send_ns,commit_ns,latency_ns\n"
}

/// The line of a record.
pub fn format_record(
    client_id: ClientId,
    tx_id: u64,
    is_sample: bool,
    send_ns: u128,
    commit_ns: u128,
    latency_ns: u128,
) -> (line: Vec<u8>)
    ensures
        line@ == (Record {
            client_id: client_id as nat,
            tx_id: tx_id as nat,
            is_sample,
            send_ns: send_ns as nat,
            commit_ns: commit_ns as nat,
            latency_ns: latency_ns as nat,
        }).line(),
{
    let mut line: Vec<u8> = Vec::new();
    write_int(&mut line, client_id as u128);
    line.push(COMMA);
    write_int(&mut line, tx_id as u128);
    line.push(COMMA);
    write_int(
        &mut line,
        if is_sample {
            1
        } else {
            0
        },
    );
    line.push(COMMA);
    write_int(&mut line, send_ns);
    line.push(COMMA);
    write_int(&mut line, commit_ns);
    line.push(COMMA);
    write_int(&mut line, latency_ns);
    line.push(NEWLINE);
    assert(line@ =~= (Record {
        client_id: client_id as nat,
        tx_id: tx_id as nat,
        is_sample,
        send_ns: send_ns as nat,
        commit_ns: commit_ns as nat,
        latency_ns: latency_ns as nat,
    }).line());
    line
}

impl MetricsWriter {
    /// A writer before its first event.
    pub fn new(client_id: ClientId) -> (writer: Self)
        ensures
            writer.client_id == client_id,
            writer.records_written == 0,
            writer.in_flight@ == Map::<u64, InFlightTransaction>::empty(),
    {
        MetricsWriter { client_id, records_written: 0, in_flight: HashMap::new() }
    }

    /// Takes an event. A commit is recorded if its transaction was sent and not committed yet.
    pub fn handle(&mut self, event: MetricsEvent) -> (action: MetricsAction)
        ensures
            final(self).client_id == old(self).client_id,
            final(self).records_written == old(self).records_written,
            final(self).in_flight@ == in_flight_after(old(self).in_flight@, event),
            match (event, record_after(old(self).client_id, old(self).in_flight@, event)) {
                (MetricsEvent::Shutdown, _) => action is Stop,
                (_, Some(record)) => action is Write && action->line@ == record.line()
                    && action->create == (old(self).records_written == 0),
                (_, None) => action is Nothing,
            },
    {
        broadcast use vstd::std_specs::hash::group_hash_axioms;
        match event {
            MetricsEvent::Send { tx_id, send_instant, send_time, is_sample } => {
                self.in_flight.insert(
                    tx_id,
                    InFlightTransaction { send_instant, send_time, is_sample },
                );
                MetricsAction::Nothing
            },
            MetricsEvent::Commit { tx_id, commit_instant, commit_time } => {
                match self.in_flight.remove(&tx_id) {
                    Some(transaction) => {
                        let latency_ns: u128 = nanos_between(
                            transaction.send_instant,
                            commit_instant,
                        );
                        let line = format_record(
                            self.client_id,
                            tx_id,
                            transaction.is_sample,
                            to_unix_nanos(transaction.send_time),
                            to_unix_nanos(commit_time),
                            latency_ns,
                        );
                        MetricsAction::Write { create: self.records_written == 0, line }
                    },
                    None => {
                        assert(self.in_flight@ =~= old(self).in_flight@.remove(tx_id));
                        MetricsAction::Nothing
                    },
                }
            },
            MetricsEvent::Shutdown => MetricsAction::Stop,
        }
    }

    /// Takes note that a line was written.
    pub fn record_written(&mut self)
        requires
            old(self).records_written < u64::MAX,
        ensures
            *final(self) == (MetricsWriter {
                records_written: (old(self).records_written + 1) as u64,
                ..*old(self)
            }),
    {
        self.records_written = self.records_written + 1;
    }

    /// Whether there is a file that has to be flushed at the end.
    pub fn must_flush(&self) -> (flush: bool)
        ensures
            flush == (self.records_written > 0),
    {
        self.records_written > 0
    }
}

/// The transactions in flight after an event.
pub open spec fn in_flight_after(
    in_flight: Map<u64, InFlightTransaction>,
    event: MetricsEvent,
) -> Map<u64, InFlightTransaction> {
    match event {
        MetricsEvent::Send { tx_id, send_instant, send_time, is_sample } => in_flight.insert(
            tx_id,
            InFlightTransaction { send_instant, send_time, is_sample },
        ),
        MetricsEvent::Commit { tx_id, .. } => in_flight.remove(tx_id),
        MetricsEvent::Shutdown => in_flight,
    }
}

/// The record that an event gives.
pub open spec fn record_after(
    client_id: ClientId,
    in_flight: Map<u64, InFlightTransaction>,
    event: MetricsEvent,
) -> Option<Record> {
    match event {
        MetricsEvent::Commit { tx_id, commit_instant, commit_time } => if in_flight.dom().contains(
            tx_id,
        ) {
            Some(record_of(client_id, tx_id, in_flight[tx_id], commit_instant, commit_time))
        } else {
            None
        },
        _ => None,
    }
}

/// The transactions in flight and the records after a history of events, from nothing.
pub open spec fn history(client_id: ClientId, events: Seq<MetricsEvent>) -> (
    Map<u64, InFlightTransaction>,
    Seq<Record>,
)
    decreases events.len(),
{
    if events.len() == 0 {
        (Map::empty(), Seq::empty())
    } else {
        let (in_flight, records) = history(client_id, events.drop_last());
        let event = events.last();
        (
            in_flight_after(in_flight, event),
            match record_after(client_id, in_flight, event) {
                Some(record) => records.push(record),
                None => records,
            },
        )
    }
}

/// How many of the events say that the transaction was sent.
pub open spec fn sends_of(events: Seq<MetricsEvent>, tx_id: u64) -> nat
    decreases events.len(),
{
    if events.len() == 0 {
        0
    } else {
        let before = sends_of(events.drop_last(), tx_id);
        match events.last() {
            MetricsEvent::Send { tx_id: id, .. } => if id == tx_id {
                before + 1
            } else {
                before
            },
            _ => before,
        }
    }
}

/// How many of the records are about the transaction.
pub open spec fn records_of(records: Seq<Record>, tx_id: u64) -> nat
    decreases records.len(),
{
    if records.len() == 0 {
        0
    } else {
        records_of(records.drop_last(), tx_id) + if records.last().tx_id == tx_id {
            1nat
        } else {
            0nat
        }
    }
}

/// A transaction has at most as many records as it was sent times, and one fewer while it is
/// in flight. So a commit without a send is not recorded, and a second commit is not recorded
/// either.
pub proof fn law_records_match_sends(client_id: ClientId, events: Seq<MetricsEvent>, tx_id: u64)
    ensures
        ({
            let (in_flight, records) = history(client_id, events);
            records_of(records, tx_id) + (if in_flight.dom().contains(tx_id) {
                1nat
            } else {
                0nat
            }) <= sends_of(events, tx_id)
        }),
    decreases events.len(),
{
    if events.len() > 0 {
        law_records_match_sends(client_id, events.drop_last(), tx_id);
        let (in_flight, records) = history(client_id, events.drop_last());
        match record_after(client_id, in_flight, events.last()) {
            Some(record) => {
                assert(records.push(record).drop_last() =~= records);
            },
            None => {},
        }
    }
}

/// A send followed by a commit of the same transaction gives a record of exactly that
/// transaction with the time between the two.
pub proof fn law_send_then_commit_recorded(
    client_id: ClientId,
    events: Seq<MetricsEvent>,
    tx_id: u64,
    sent: InFlightTransaction,
    commit_instant: Instant,
    commit_time: SystemTime,
)
    ensures
        ({
            let send = MetricsEvent::Send {
                tx_id,
                send_instant: sent.send_instant,
                send_time: sent.send_time,
                is_sample: sent.is_sample,
            };
            let commit = MetricsEvent::Commit { tx_id, commit_instant, commit_time };
            history(client_id, events.push(send).push(commit)).1 == history(
                client_id,
                events,
            ).1.push(record_of(client_id, tx_id, sent, commit_instant, commit_time))
        }),
{
    let send = MetricsEvent::Send {
        tx_id,
        send_instant: sent.send_instant,
        send_time: sent.send_time,
        is_sample: sent.is_sample,
    };
    let commit = MetricsEvent::Commit { tx_id, commit_instant, commit_time };
    assert(events.push(send).push(commit).drop_last() =~= events.push(send));
    assert(events.push(send).drop_last() =~= events);
    reveal_with_fuel(history, 3);
}

proof fn lemma_digits(n: nat)
    ensures
        decimal(n).len() > 0,
        forall|i: int| 0 <= i < decimal(n).len() ==> 48 <= #[trigger] decimal(n)[i] <= 57,
    decreases n,
{
    if n >= 10 {
        lemma_digits(n / 10);
    }
}

proof fn lemma_decimal_injective(n: nat, m: nat)
    requires
        decimal(n) == decimal(m),
    ensures
        n == m,
    decreases n,
{
    if n >= 10 {
        lemma_digits(n / 10);
        if m >= 10 {
            assert(decimal(n).drop_last() =~= decimal(n / 10));
            assert(decimal(m).drop_last() =~= decimal(m / 10));
            lemma_decimal_injective(n / 10, m / 10);
            assert(decimal(n).last() == (48 + n % 10) as u8);
            assert(decimal(m).last() == (48 + m % 10) as u8);
        } else {
            assert(decimal(m).len() == 1);
        }
    } else if m >= 10 {
        lemma_digits(m / 10);
        assert(decimal(n).len() == 1);
    } else {
        assert(decimal(n)[0] == (48 + n) as u8);
        assert(decimal(m)[0] == (48 + m) as u8);
    }
}

/// Of a field and what follows it, the first byte that is no digit ends the field.
proof fn lemma_field_ends(n: nat, m: nat, end: u8, a: Seq<u8>, b: Seq<u8>)
    requires
        end < 48,
        decimal(n).push(end) + a == decimal(m).push(end) + b,
    ensures
        n == m,
        a == b,
{
    lemma_digits(n);
    lemma_digits(m);
    let x = decimal(n).push(end) + a;
    let y = decimal(m).push(end) + b;
    if decimal(n).len() < decimal(m).len() {
        let i = decimal(n).len() as int;
        assert(x[i] == end && y[i] == decimal(m)[i]);
    } else if decimal(m).len() < decimal(n).len() {
        let i = decimal(m).len() as int;
        assert(y[i] == end && x[i] == decimal(n)[i]);
    }
    let len = decimal(n).len() as int;
    assert(decimal(n) =~= x.subrange(0, len));
    assert(decimal(m) =~= y.subrange(0, len));
    lemma_decimal_injective(n, m);
    assert(a =~= x.subrange(len + 1, x.len() as int));
    assert(b =~= y.subrange(len + 1, y.len() as int));
}

/// A line tells what its record says: records with the same line are the same.
pub proof fn law_line_determines_record(a: Record, b: Record)
    requires
        a.line() == b.line(),
    ensures
        a == b,
{
    let a6 = decimal(a.latency_ns).push(NEWLINE);
    let b6 = decimal(b.latency_ns).push(NEWLINE);
    let a5 = decimal(a.commit_ns).push(COMMA) + a6;
    let b5 = decimal(b.commit_ns).push(COMMA) + b6;
    let a4 = decimal(a.send_ns).push(COMMA) + a5;
    let b4 = decimal(b.send_ns).push(COMMA) + b5;
    let sample_a: nat = if a.is_sample {
        1
    } else {
        0
    };
    let sample_b: nat = if b.is_sample {
        1
    } else {
        0
    };
    let a3 = decimal(sample_a).push(COMMA) + a4;
    let b3 = decimal(sample_b).push(COMMA) + b4;
    let a2 = decimal(a.tx_id).push(COMMA) + a3;
    let b2 = decimal(b.tx_id).push(COMMA) + b3;
    lemma_field_ends(a.client_id, b.client_id, COMMA, a2, b2);
    lemma_field_ends(a.tx_id, b.tx_id, COMMA, a3, b3);
    lemma_field_ends(sample_a, sample_b, COMMA, a4, b4);
    lemma_field_ends(a.send_ns, b.send_ns, COMMA, a5, b5);
    lemma_field_ends(a.commit_ns, b.commit_ns, COMMA, a6, b6);
    assert(a6 =~= a6 + Seq::<u8>::empty());
    assert(b6 =~= b6 + Seq::<u8>::empty());
    lemma_field_ends(
        a.latency_ns,
        b.latency_ns,
        NEWLINE,
        Seq::<u8>::empty(),
        Seq::<u8>::empty(),
    );
}

/// The number that decimal digits stand for.
pub open spec fn digits_value(digits: Seq<u8>) -> int
    decreases digits.len(),
{
    if digits.len() == 0 {
        0
    } else {
        10 * digits_value(digits.drop_last()) + (digits.last() - 48)
    }
}

/// Whether bytes are the digits of a number, without leading zeros.
pub open spec fn are_digits_of(digits: Seq<u8>, n: nat) -> bool {
    &&& digits.len() > 0
    &&& forall|i: int| 0 <= i < digits.len() ==> 48 <= #[trigger] digits[i] <= 57
    &&& digits_value(digits) == n
    &&& digits[0] == 48 ==> digits.len() == 1
}

/// A number is written with its decimal digits, without leading zeros.
pub proof fn law_decimal(n: nat)
    ensures
        are_digits_of(decimal(n), n),
    decreases n,
{
    lemma_digits(n);
    assert(digits_value(Seq::<u8>::empty()) == 0);
    if n >= 10 {
        law_decimal(n / 10);
        assert(decimal(n).last() == (48 + n % 10) as u8);
        assert(decimal(n).drop_last() =~= decimal(n / 10));
        assert(decimal(n)[0] == decimal(n / 10)[0]);
        if decimal(n / 10)[0] == 48 {
            assert(decimal(n / 10).drop_last() =~= Seq::<u8>::empty());
            assert(decimal(n / 10).last() == 48);
            assert(digits_value(decimal(n / 10)) == 0);
        }
    } else {
        assert(decimal(n).drop_last() =~= Seq::<u8>::empty());
        assert(decimal(n).last() == (48 + n) as u8);
    }
}

/// Whether bytes are the digit one where `flag` holds, and zero where it does not.
pub open spec fn is_flag(digits: Seq<u8>, flag: bool) -> bool {
    digits == (if flag {
        seq![49u8]
    } else {
        seq![48u8]
    })
}

/// A line holds, in this order, the client, the transaction, one for a sample and zero for
/// another, when it was sent, when it was committed, and the latency, in decimal digits with one
/// comma between each two, and a newline at the end.
pub proof fn law_line_fields(record: Record)
    ensures
        exists|a: Seq<u8>, b: Seq<u8>, c: Seq<u8>, d: Seq<u8>, e: Seq<u8>, f: Seq<u8>|
            {
                &&& #[trigger] are_digits_of(a, record.client_id)
                &&& #[trigger] are_digits_of(b, record.tx_id)
                &&& #[trigger] is_flag(c, record.is_sample)
                &&& #[trigger] are_digits_of(d, record.send_ns)
                &&& #[trigger] are_digits_of(e, record.commit_ns)
                &&& #[trigger] are_digits_of(f, record.latency_ns)
                &&& record.line() == a + seq![44u8] + b + seq![44u8] + c + seq![44u8] + d
                    + seq![44u8] + e + seq![44u8] + f + seq![10u8]
            },
{
    let a = decimal(record.client_id);
    let b = decimal(record.tx_id);
    let sample: nat = if record.is_sample {
        1
    } else {
        0
    };
    let c = decimal(sample);
    let d = decimal(record.send_ns);
    let e = decimal(record.commit_ns);
    let f = decimal(record.latency_ns);
    law_decimal(record.client_id);
    law_decimal(record.tx_id);
    assert(is_flag(c, record.is_sample));
    law_decimal(record.send_ns);
    law_decimal(record.commit_ns);
    law_decimal(record.latency_ns);
    assert(record.line() =~= a + seq![44u8] + b + seq![44u8] + c + seq![44u8] + d + seq![44u8] + e
        + seq![44u8] + f + seq![10u8]);
}

/// Whether an event is about a transaction.
pub open spec fn is_about(event: MetricsEvent, id: u64) -> bool {
    match event {
        MetricsEvent::Send { tx_id, .. } => tx_id == id,
        MetricsEvent::Commit { tx_id, .. } => tx_id == id,
        MetricsEvent::Shutdown => false,
    }
}

/// Whether an event says that a transaction was sent.
pub open spec fn is_sending(event: MetricsEvent, id: u64) -> bool {
    event is Send && is_about(event, id)
}

/// Whether the event at a position is the last one about a transaction.
pub open spec fn is_last_about(events: Seq<MetricsEvent>, id: u64, s: int) -> bool {
    &&& 0 <= s < events.len()
    &&& is_about(events[s], id)
    &&& forall|j: int| s < j < events.len() ==> !is_about(#[trigger] events[j], id)
}

/// A transaction is in flight exactly if the last event about it is that it was sent, and it is
/// so with what that event says.
proof fn lemma_in_flight(client_id: ClientId, events: Seq<MetricsEvent>, id: u64)
    ensures
        ({
            let in_flight = history(client_id, events).0;
            &&& in_flight.dom().contains(id) ==> exists|s: int|
                #[trigger] is_last_about(events, id, s) && events[s] is Send
            &&& forall|s: int|
                #[trigger] is_last_about(events, id, s) && events[s] is Send ==> {
                    &&& in_flight.dom().contains(id)
                    &&& in_flight[id] == (InFlightTransaction {
                        send_instant: events[s]->send_instant,
                        send_time: events[s]->send_time,
                        is_sample: events[s]->is_sample,
                    })
                }
        }),
    decreases events.len(),
{
    if events.len() > 0 {
        let head = events.drop_last();
        let n = events.len() - 1;
        lemma_in_flight(client_id, head, id);
        let in_flight = history(client_id, events).0;
        let before = history(client_id, head).0;
        assert(events[n] == events.last());
        if is_about(events[n], id) {
            assert(is_last_about(events, id, n));
            assert forall|s: int| #[trigger] is_last_about(events, id, s) implies s == n by {
                if s < n {
                    assert(!is_about(events[n], id));
                }
            }
        } else {
            assert(in_flight.dom().contains(id) == before.dom().contains(id));
            assert forall|s: int| #[trigger] is_last_about(events, id, s) implies is_last_about(
                head,
                id,
                s,
            ) by {
                assert(s != n);
                assert(head[s] == events[s]);
                assert forall|j: int| s < j < head.len() implies !is_about(
                    #[trigger] head[j],
                    id,
                ) by {
                    assert(head[j] == events[j]);
                }
            }
            if before.dom().contains(id) {
                let s = choose|s: int| #[trigger] is_last_about(head, id, s) && head[s] is Send;
                assert(is_last_about(events, id, s)) by {
                    assert(head[s] == events[s]);
                    assert forall|j: int| s < j < events.len() implies !is_about(
                        #[trigger] events[j],
                        id,
                    ) by {
                        if j < n {
                            assert(head[j] == events[j]);
                        }
                    }
                }
            }
        }
    }
}

/// A commit is recorded where the last event about its transaction is that it was sent. The
/// record says which client and transaction it is, whether it is a sample, when it was sent and
/// committed by the wall clock, and how long it took by the monotonic one; none of these is
/// negative.
pub proof fn law_commit_is_recorded(
    client_id: ClientId,
    events: Seq<MetricsEvent>,
    id: u64,
    s: int,
    commit_instant: Instant,
    commit_time: SystemTime,
)
    requires
        is_last_about(events, id, s),
        events[s] is Send,
    ensures
        ({
            let commit = MetricsEvent::Commit { tx_id: id, commit_instant, commit_time };
            let sent = unix_nanos(events[s]->send_time);
            let committed = unix_nanos(commit_time);
            let taken = monotonic_nanos(commit_instant) - monotonic_nanos(events[s]->send_instant);
            history(client_id, events.push(commit)).1 == history(client_id, events).1.push(
                Record {
                    client_id: client_id as nat,
                    tx_id: id as nat,
                    is_sample: events[s]->is_sample,
                    send_ns: (if sent < 0 {
                        0
                    } else {
                        sent
                    }) as nat,
                    commit_ns: (if committed < 0 {
                        0
                    } else {
                        committed
                    }) as nat,
                    latency_ns: (if taken < 0 {
                        0
                    } else {
                        taken
                    }) as nat,
                },
            )
        }),
{
    let commit = MetricsEvent::Commit { tx_id: id, commit_instant, commit_time };
    lemma_in_flight(client_id, events, id);
    assert(events.push(commit).drop_last() =~= events);
}

/// A commit is not recorded where the last event about its transaction is not that it was sent:
/// where it was never sent, or was committed since. No other event is recorded.
pub proof fn law_nothing_else_is_recorded(
    client_id: ClientId,
    events: Seq<MetricsEvent>,
    event: MetricsEvent,
)
    requires
        event is Commit ==> forall|s: int|
            !(#[trigger] is_last_about(events, event->Commit_tx_id, s) && events[s] is Send),
    ensures
        history(client_id, events.push(event)).1 == history(client_id, events).1,
{
    assert(events.push(event).drop_last() =~= events);
    if event is Commit {
        lemma_in_flight(client_id, events, event->Commit_tx_id);
    }
}

/// What one event changes: a transaction that is sent is in flight from then on with what the
/// event says, one that is committed is not any longer, and nothing changes for the others.
pub proof fn law_in_flight_step(
    in_flight: Map<u64, InFlightTransaction>,
    event: MetricsEvent,
    id: u64,
)
    ensures
        ({
            let after = in_flight_after(in_flight, event);
            &&& is_sending(event, id) ==> after.dom().contains(id) && after[id] == (
            InFlightTransaction {
                send_instant: event->send_instant,
                send_time: event->send_time,
                is_sample: event->is_sample,
            })
            &&& is_about(event, id) && !(event is Send) ==> !after.dom().contains(id)
            &&& !is_about(event, id) ==> {
                &&& after.dom().contains(id) <==> in_flight.dom().contains(id)
                &&& in_flight.dom().contains(id) ==> after[id] == in_flight[id]
            }
        }),
{
}

/// What one event records: a commit of a transaction in flight gives one record with what is known
/// of its sending, and nothing else gives any.
pub proof fn law_record_step(
    client_id: ClientId,
    in_flight: Map<u64, InFlightTransaction>,
    event: MetricsEvent,
)
    ensures
        ({
            let record = record_after(client_id, in_flight, event);
            &&& record is Some <==> event is Commit && in_flight.dom().contains(
                event->Commit_tx_id,
            )
            &&& record is Some ==> {
                let sent = in_flight[event->Commit_tx_id];
                let taken = monotonic_nanos(event->commit_instant) - monotonic_nanos(
                    sent.send_instant,
                );
                &&& (record->0).client_id == client_id
                &&& (record->0).tx_id == event->Commit_tx_id
                &&& (record->0).is_sample == sent.is_sample
                &&& unix_nanos(sent.send_time) >= 0 ==> (record->0).send_ns == unix_nanos(
                    sent.send_time,
                )
                &&& unix_nanos(sent.send_time) < 0 ==> (record->0).send_ns == 0
                &&& unix_nanos(event->commit_time) >= 0 ==> (record->0).commit_ns == unix_nanos(
                    event->commit_time,
                )
                &&& unix_nanos(event->commit_time) < 0 ==> (record->0).commit_ns == 0
                &&& taken >= 0 ==> (record->0).latency_ns == taken
                &&& taken < 0 ==> (record->0).latency_ns == 0
            }
        }),
{
}

} // verus!
