//! The NetChannel engine: inflight-packet tracking, header validation,
//! ack-driven retirement, and latency/drop accounting over an unreliable
//! datagram transport.
//!
//! The channel never performs I/O itself: it is bound to two directional
//! in-memory endpoints. The inbound endpoint buffers datagrams the outer
//! transport has already received (and can signal permanent closure); the
//! outbound endpoint buffers datagrams for the outer transport to place on
//! the wire. Both calls are non-blocking: `recv` drains only what is already
//! queued, and `transmit` is fire-and-forget submission.

use core::cmp::Ordering;
use vstd::prelude::*;

use crate::header::{spec_payload_of, spec_read, FramingError, PacketHeader, HEADER_SIZE};
use crate::sequence::{
    overflow_aware_compare, seq_next, spec_compare, SequenceNr, SEQUENCE_NR_MAX,
};

verus! {

/// The views of a sequence of datagrams, one byte sequence per datagram.
pub open spec fn views_of(ds: Seq<Vec<u8>>) -> Seq<Seq<u8>> {
    ds.map_values(|d: Vec<u8>| d@)
}

/// Consumer-only inbound endpoint: a boundary-preserving buffer of received
/// datagrams, with a distinct signal for permanent closure of the producer.
pub struct DatagramReceiver {
    /// Datagrams received but not yet drained, oldest first.
    pub queue: Vec<Vec<u8>>,
    /// True once the producing side has shut down for good. An empty queue
    /// with `closed == false` merely means nothing has arrived yet.
    pub closed: bool,
}

impl DatagramReceiver {
    /// The buffered datagrams, oldest first.
    pub open spec fn spec_queue(self) -> Seq<Seq<u8>> {
        views_of(self.queue@)
    }

    /// Whether the producing side has permanently shut down.
    pub open spec fn spec_closed(self) -> bool {
        self.closed
    }

    /// An open endpoint with nothing buffered.
    pub fn new() -> (r: DatagramReceiver)
        ensures
            r.spec_queue() == Seq::<Seq<u8>>::empty(),
            !r.spec_closed(),
    {
        let r = DatagramReceiver { queue: Vec::new(), closed: false };
        proof {
            assert(r.spec_queue() =~= Seq::<Seq<u8>>::empty());
        }
        r
    }

    /// Buffers one received datagram behind those already queued.
    pub fn push(&mut self, datagram: Vec<u8>)
        ensures
            final(self).spec_queue() == old(self).spec_queue().push(datagram@),
            final(self).spec_closed() == old(self).spec_closed(),
    {
        self.queue.push(datagram);
        proof {
            assert(final(self).spec_queue() =~= old(self).spec_queue().push(datagram@));
        }
    }

    /// Marks the producing side as permanently shut down.
    pub fn close(&mut self)
        ensures
            final(self).spec_queue() == old(self).spec_queue(),
            final(self).spec_closed(),
    {
        self.closed = true;
    }
}

/// Producer-only outbound endpoint: buffers complete datagrams, in
/// submission order, for the outer transport to place on the wire verbatim.
pub struct DatagramSender {
    /// Datagrams submitted but not yet taken by the outer transport.
    pub sent: Vec<Vec<u8>>,
}

impl DatagramSender {
    /// The buffered outbound datagrams, oldest first.
    pub open spec fn spec_sent(self) -> Seq<Seq<u8>> {
        views_of(self.sent@)
    }

    /// An endpoint with nothing buffered.
    pub fn new() -> (r: DatagramSender)
        ensures
            r.spec_sent() == Seq::<Seq<u8>>::empty(),
    {
        let r = DatagramSender { sent: Vec::new() };
        proof {
            assert(r.spec_sent() =~= Seq::<Seq<u8>>::empty());
        }
        r
    }

    /// Submits one complete datagram.
    pub fn send(&mut self, datagram: Vec<u8>)
        ensures
            final(self).spec_sent() == old(self).spec_sent().push(datagram@),
    {
        self.sent.push(datagram);
        proof {
            assert(final(self).spec_sent() =~= old(self).spec_sent().push(datagram@));
        }
    }

    /// Drains every buffered datagram, in submission order.
    pub fn take(&mut self) -> (out: Vec<Vec<u8>>)
        ensures
            views_of(out@) == old(self).spec_sent(),
            final(self).spec_sent() == Seq::<Seq<u8>>::empty(),
    {
        let mut out: Vec<Vec<u8>> = Vec::new();
        core::mem::swap(&mut out, &mut self.sent);
        proof {
            assert(final(self).spec_sent() =~= Seq::<Seq<u8>>::empty());
        }
        out
    }
}

/// One transmitted, not-yet-retired packet: its header and the moment it
/// was handed to the outbound endpoint.
#[derive(Clone, Copy, Debug, PartialEq, Eq, Structural)]
pub struct PacketInfo {
    /// The header the packet went out with.
    pub header: PacketHeader,
    /// Monotonic timestamp of the transmission.
    pub sent_time: u64,
}

/// The only error `recv` ever surfaces: the inbound endpoint is permanently
/// closed and the channel must be discarded.
#[derive(Clone, Copy, Debug, PartialEq, Eq, Structural)]
pub enum RecvError {
    TaskDied,
}

/// The mathematical state of a channel's engine, apart from its endpoints.
#[verifier::ext_equal]
pub ghost struct ChannelState {
    /// Last accepted inbound sequence number.
    pub incoming_seq: SequenceNr,
    /// Next outgoing sequence number to assign.
    pub outgoing_seq: SequenceNr,
    /// Highest ack the peer has confirmed.
    pub outgoing_seq_acked: SequenceNr,
    /// Unacknowledged transmitted packets, oldest first.
    pub inflight: Seq<PacketInfo>,
    /// Last computed round-trip estimate, if any ack has produced one.
    pub latency: Option<u64>,
    /// Number of inflight entries retired by the most recent ack event.
    pub dropped_packets: int,
}

/// A sequence-numbered channel over an unreliable datagram transport.
///
/// Sequence counters start at the ring's beginning; "no inbound packet seen"
/// and "nothing acked yet" are both represented by the ring value just
/// before it ([`SEQUENCE_NR_MAX`]), which every fresh counter value
/// circularly exceeds.
pub struct NetChannel {
    /// Inbound endpoint the channel drains.
    pub incoming_datagrams: DatagramReceiver,
    /// Outbound endpoint the channel submits datagrams to.
    pub outgoing_datagrams: DatagramSender,
    /// Last accepted inbound sequence number.
    pub incoming_seq: SequenceNr,
    /// Next outgoing sequence number to assign.
    pub outgoing_seq: SequenceNr,
    /// Highest ack the peer has confirmed.
    pub outgoing_seq_acked: SequenceNr,
    /// Unacknowledged transmitted packets, oldest first.
    pub inflight: Vec<PacketInfo>,
    /// Last computed round-trip estimate.
    pub latency: Option<u64>,
    /// Inflight entries retired during the most recent ack event — a
    /// point-in-time loss signal, not a lifetime total.
    pub dropped_packets: usize,
}

impl View for NetChannel {
    type V = ChannelState;

    open spec fn view(&self) -> ChannelState {
        ChannelState {
            incoming_seq: self.incoming_seq,
            outgoing_seq: self.outgoing_seq,
            outgoing_seq_acked: self.outgoing_seq_acked,
            inflight: self.inflight@,
            latency: self.latency,
            dropped_packets: self.dropped_packets as int,
        }
    }
}

/// The header a channel in state `st` stamps on its next outgoing packet.
pub open spec fn spec_create_header(st: ChannelState) -> PacketHeader {
    PacketHeader { seq: st.outgoing_seq, ack: st.incoming_seq }
}

/// The complete datagram a channel in state `st` emits for `payload`.
pub open spec fn spec_datagram(st: ChannelState, payload: Seq<u8>) -> Seq<u8> {
    spec_create_header(st).spec_bytes() + payload
}

/// Whether a parsed inbound header is acceptable in state `st`: its sequence
/// number must be circularly newer than the last accepted one (rejecting
/// duplicates and reordered-old packets), and its ack must not be circularly
/// newer than the channel's own outgoing counter (the peer cannot
/// acknowledge a packet not yet sent).
pub open spec fn spec_header_valid(st: ChannelState, h: PacketHeader) -> bool {
    &&& spec_compare(h.seq, st.incoming_seq) == Ordering::Greater
    &&& spec_compare(h.ack, st.outgoing_seq) != Ordering::Greater
}

impl NetChannel {
    /// The inflight queue holds consecutive ring values, oldest first, ending
    /// exactly one position before the next outgoing sequence number.
    pub open spec fn wf(self) -> bool {
        &&& forall|i: int|
            1 <= i < self.inflight@.len() ==> #[trigger] self.inflight@[i].header.seq == seq_next(
                self.inflight@[i - 1].header.seq,
            )
        &&& self.inflight@.len() > 0 ==> seq_next(
            self.inflight@[self.inflight@.len() - 1].header.seq,
        ) == self.outgoing_seq
    }

    /// A fresh channel bound to its two endpoints for the life of one
    /// logical connection: nothing inflight, no inbound packet seen, nothing
    /// acked, counters at the ring's start.
    pub fn new_from_channels(
        incoming_datagrams: DatagramReceiver,
        outgoing_datagrams: DatagramSender,
    ) -> (r: NetChannel)
        ensures
            r.wf(),
            r@.incoming_seq == SEQUENCE_NR_MAX,
            r@.outgoing_seq == 0,
            r@.outgoing_seq_acked == SEQUENCE_NR_MAX,
            r@.inflight == Seq::<PacketInfo>::empty(),
            r@.latency is None,
            r@.dropped_packets == 0,
            r.incoming_datagrams == incoming_datagrams,
            r.outgoing_datagrams == outgoing_datagrams,
    {
        let r = NetChannel {
            incoming_datagrams,
            outgoing_datagrams,
            incoming_seq: SEQUENCE_NR_MAX,
            outgoing_seq: 0,
            outgoing_seq_acked: SEQUENCE_NR_MAX,
            inflight: Vec::new(),
            latency: None,
            dropped_packets: 0,
        };
        proof {
            assert(r@.inflight =~= Seq::<PacketInfo>::empty());
        }
        r
    }

    /// The header for the next outgoing packet: the current outgoing
    /// sequence number, and an ack for the last accepted inbound one.
    pub fn create_header(&self) -> (h: PacketHeader)
        ensures
            h == spec_create_header(self@),
    {
        PacketHeader { seq: self.outgoing_seq, ack: self.incoming_seq }
    }

    /// Whether an inbound header passes validation against the current
    /// state (see [`spec_header_valid`]).
    pub fn is_header_valid(&self, header: &PacketHeader) -> (r: bool)
        ensures
            r == spec_header_valid(self@, *header),
    {
        match overflow_aware_compare(header.seq, self.incoming_seq) {
            Ordering::Greater => {
                match overflow_aware_compare(header.ack, self.outgoing_seq) {
                    Ordering::Greater => false,  // cannot ack a packet not yet sent
                    _ => true,
                }
            },
            _ => false,
        }
    }

    /// True iff the peer's latest confirmed ack equals `seq` or is
    /// circularly newer than it.
    pub fn is_acknowledged(&self, seq: SequenceNr) -> (r: bool)
        ensures
            r == spec_is_acknowledged(self@, seq),
    {
        match overflow_aware_compare(seq, self.outgoing_seq_acked) {
            Ordering::Greater => false,
            _ => true,
        }
    }
}

/// Whether in state `st` the packet assigned `seq` has been acknowledged:
/// the peer's latest confirmed ack equals it or is circularly newer.
pub open spec fn spec_is_acknowledged(st: ChannelState, seq: SequenceNr) -> bool {
    spec_compare(seq, st.outgoing_seq_acked) != Ordering::Greater
}

/// Re-feeding a previously accepted packet yields nothing: a datagram whose
/// header carries the sequence number the channel last accepted is rejected
/// and leaves the state untouched.
pub proof fn lemma_duplicate_rejected(st: ChannelState, h: PacketHeader, d: Seq<u8>, now: u64)
    requires
        spec_read(d) == Ok::<PacketHeader, FramingError>(h),
        h.seq == st.incoming_seq,
    ensures
        !spec_step_accepts(st, d),
        spec_step(st, d, now) == st,
{
    crate::sequence::lemma_compare_reflexive(h.seq);
}

/// A datagram transmitted by a channel in state `sta` and delivered
/// verbatim to a channel in state `stb` is accepted exactly when its header
/// passes `stb`'s validation, and an accepted delivery surfaces exactly the
/// transmitted payload.
pub proof fn lemma_transmit_delivery(
    sta: ChannelState,
    stb: ChannelState,
    payload: Seq<u8>,
    now: u64,
)
    ensures
        spec_step_accepts(stb, spec_datagram(sta, payload)) == spec_header_valid(
            stb,
            spec_create_header(sta),
        ),
        spec_header_valid(stb, spec_create_header(sta)) ==> spec_payloads(
            stb,
            seq![spec_datagram(sta, payload)],
            now,
        ) == seq![payload],
{
    let h = spec_create_header(sta);
    let d = spec_datagram(sta, payload);
    crate::header::lemma_datagram_round_trip(h, payload);
    assert(seq![d][0] == d);
    if spec_header_valid(stb, h) {
        assert(seq![d].drop_first() =~= Seq::<Seq<u8>>::empty());
        assert(spec_payloads(stb, seq![d], now) == seq![spec_payload_of(d)] + spec_payloads(
            spec_step(stb, d, now),
            seq![d].drop_first(),
            now,
        ));
        assert(seq![spec_payload_of(d)] + Seq::<Seq<u8>>::empty() =~= seq![payload]);
    }
}

/// Retiring a prefix of a consecutively numbered inflight queue leaves a
/// queue that is still consecutively numbered and still ends one ring
/// position before the same outgoing counter.
proof fn lemma_wf_suffix(orig: Seq<PacketInfo>, n: int, out: SequenceNr)
    requires
        0 <= n <= orig.len(),
        forall|i: int|
            1 <= i < orig.len() ==> #[trigger] orig[i].header.seq == seq_next(
                orig[i - 1].header.seq,
            ),
        orig.len() > 0 ==> seq_next(orig[orig.len() - 1].header.seq) == out,
    ensures
        forall|i: int|
            1 <= i < orig.skip(n).len() ==> #[trigger] orig.skip(n)[i].header.seq == seq_next(
                orig.skip(n)[i - 1].header.seq,
            ),
        orig.skip(n).len() > 0 ==> seq_next(orig.skip(n)[orig.skip(n).len() - 1].header.seq)
            == out,
{
    assert forall|i: int| 1 <= i < orig.skip(n).len() implies #[trigger] orig.skip(
        n,
    )[i].header.seq == seq_next(orig.skip(n)[i - 1].header.seq) by {
        assert(orig.skip(n)[i] == orig[n + i]);
        assert(orig.skip(n)[i - 1] == orig[n + i - 1]);
    }
    if orig.skip(n).len() > 0 {
        assert(orig.skip(n)[orig.skip(n).len() - 1] == orig[orig.len() - 1]);
    }
}

/// Time elapsed between a transmission at `sent` and an ack observed at
/// `now` on a monotonic clock; a clock that stepped backwards yields zero
/// rather than wrapping.
pub open spec fn spec_elapsed(now: u64, sent: u64) -> u64 {
    if now >= sent {
        (now - sent) as u64
    } else {
        0
    }
}

/// How many entries an ack for `ack` retires from the front of `inflight`:
/// the longest prefix whose sequence numbers are not circularly newer than
/// `ack`.
pub open spec fn spec_retire_count(inflight: Seq<PacketInfo>, ack: SequenceNr) -> int
    decreases inflight.len(),
{
    if inflight.len() == 0 {
        0
    } else if spec_compare(inflight[0].header.seq, ack) == Ordering::Greater {
        0
    } else {
        1 + spec_retire_count(inflight.drop_first(), ack)
    }
}

/// The state after accepting the valid inbound header `h` at time `now`:
/// the inbound counter advances to `h.seq`, the confirmed ack to `h.ack`,
/// every inflight entry not circularly newer than `h.ack` is retired,
/// `latency` is recomputed from the most recently retired entry (when one
/// was), and `dropped_packets` is the number retired in this single event.
pub open spec fn spec_apply_ack(st: ChannelState, h: PacketHeader, now: u64) -> ChannelState {
    let n = spec_retire_count(st.inflight, h.ack);
    ChannelState {
        incoming_seq: h.seq,
        outgoing_seq_acked: h.ack,
        inflight: st.inflight.skip(n),
        latency: if n > 0 {
            Some(spec_elapsed(now, st.inflight[n - 1].sent_time))
        } else {
            st.latency
        },
        dropped_packets: n,
        ..st
    }
}

/// Whether a channel in state `st` accepts datagram `d`: it parses to a
/// header that passes validation. A truncated datagram or an invalid header
/// is silently dropped, never surfaced.
pub open spec fn spec_step_accepts(st: ChannelState, d: Seq<u8>) -> bool {
    match spec_read(d) {
        Ok(h) => spec_header_valid(st, h),
        Err(_) => false,
    }
}

/// The state after a channel in state `st` processes one inbound datagram
/// `d` at time `now`: an accepted datagram's header is applied, anything
/// else leaves the state untouched.
pub open spec fn spec_step(st: ChannelState, d: Seq<u8>, now: u64) -> ChannelState {
    match spec_read(d) {
        Ok(h) => if spec_header_valid(st, h) {
            spec_apply_ack(st, h, now)
        } else {
            st
        },
        Err(_) => st,
    }
}

/// The state after a channel in state `st` processes the buffered inbound
/// datagrams `ds`, oldest first, at time `now`.
pub open spec fn spec_run(st: ChannelState, ds: Seq<Seq<u8>>, now: u64) -> ChannelState
    decreases ds.len(),
{
    if ds.len() == 0 {
        st
    } else {
        spec_run(spec_step(st, ds[0], now), ds.drop_first(), now)
    }
}

/// The payloads a channel in state `st` surfaces while processing the
/// buffered inbound datagrams `ds` at time `now`: one payload per accepted
/// datagram, in arrival-processing order.
pub open spec fn spec_payloads(st: ChannelState, ds: Seq<Seq<u8>>, now: u64) -> Seq<Seq<u8>>
    decreases ds.len(),
{
    if ds.len() == 0 {
        Seq::<Seq<u8>>::empty()
    } else {
        let rest = spec_payloads(spec_step(st, ds[0], now), ds.drop_first(), now);
        if spec_step_accepts(st, ds[0]) {
            seq![spec_payload_of(ds[0])] + rest
        } else {
            rest
        }
    }
}

/// The state after one transmission at time `now`: the new packet's header
/// joins the inflight queue and the outgoing counter advances one ring
/// position.
pub open spec fn spec_transmit(st: ChannelState, now: u64) -> ChannelState {
    ChannelState {
        outgoing_seq: seq_next(st.outgoing_seq),
        inflight: st.inflight.push(
            PacketInfo { header: spec_create_header(st), sent_time: now },
        ),
        ..st
    }
}

impl NetChannel {
    /// Processes the valid inbound header `h` observed at time `now`:
    /// records its sequence number and ack, then retires acknowledged
    /// entries from the front of the inflight queue (see [`spec_apply_ack`]).
    #[verifier::rlimit(50)]
    pub fn ack(&mut self, header: &PacketHeader, now: u64)
        requires
            old(self).wf(),
        ensures
            final(self).wf(),
            final(self)@ == spec_apply_ack(old(self)@, *header, now),
            final(self).incoming_datagrams == old(self).incoming_datagrams,
            final(self).outgoing_datagrams == old(self).outgoing_datagrams,
    {
        let ghost orig: Seq<PacketInfo> = self.inflight@;
        let orig_len: usize = self.inflight.len();
        self.incoming_seq = header.seq;
        self.outgoing_seq_acked = header.ack;

        let mut removed: usize = 0;
        loop
            invariant
                orig.len() == orig_len,
                removed <= orig.len(),
                self.inflight@.len() == orig.len() - removed,
                self.inflight@ == orig.skip(removed as int),
                spec_retire_count(orig, header.ack) == removed + spec_retire_count(
                    self.inflight@,
                    header.ack,
                ),
                self.latency == (if removed > 0 {
                    Some(spec_elapsed(now, orig[removed - 1].sent_time))
                } else {
                    old(self).latency
                }),
                self.incoming_seq == header.seq,
                self.outgoing_seq_acked == header.ack,
                self.outgoing_seq == old(self).outgoing_seq,
                self.dropped_packets == old(self).dropped_packets,
                self.incoming_datagrams == old(self).incoming_datagrams,
                self.outgoing_datagrams == old(self).outgoing_datagrams,
            ensures
                spec_retire_count(self.inflight@, header.ack) == 0,
            decreases self.inflight.len(),
        {
            if self.inflight.len() == 0 {
                break ;
            }
            let oldest: SequenceNr = self.inflight[0].header.seq;
            match overflow_aware_compare(oldest, header.ack) {
                Ordering::Greater => {
                    break ;
                },
                _ => {
                    proof {
                        assert(self.inflight@.len() == orig.len() - removed);
                        assert(removed < orig.len());
                        assert(self.inflight@.drop_first() =~= orig.skip(removed as int + 1));
                    }
                    let entry = self.inflight.remove(0);
                    proof {
                        assert(self.inflight@ =~= orig.skip(removed as int + 1));
                    }
                    self.latency = Some(
                        if now >= entry.sent_time {
                            now - entry.sent_time
                        } else {
                            0
                        },
                    );
                    proof {
                        assert(removed + 1 <= orig.len());
                    }
                    removed = removed + 1;
                },
            }
        }
        self.dropped_packets = removed;
        proof {
            let n = spec_retire_count(orig, header.ack);
            assert(n == removed);
            lemma_wf_suffix(orig, n, self.outgoing_seq);
            assert(self@ =~= spec_apply_ack(old(self)@, *header, now));
        }
    }

    /// Builds one datagram for `payload` at time `now`, submits it to the
    /// outbound endpoint, records the packet as inflight, advances the
    /// outgoing counter one ring position (wrapping), and returns the
    /// sequence number it assigned. Always succeeds: there is no
    /// backpressure at this layer, and loss is only ever reported through
    /// statistics, never raised.
    pub fn transmit(&mut self, msg: &[u8], now: u64) -> (s: SequenceNr)
        requires
            old(self).wf(),
        ensures
            final(self).wf(),
            s == old(self)@.outgoing_seq,
            final(self)@ == spec_transmit(old(self)@, now),
            final(self).outgoing_datagrams.spec_sent() == old(self)
                .outgoing_datagrams
                .spec_sent()
                .push(spec_datagram(old(self)@, msg@)),
            final(self).incoming_datagrams == old(self).incoming_datagrams,
    {
        let header = self.create_header();
        let mut buf: Vec<u8> = Vec::new();
        header.write_to(&mut buf);
        let mut i: usize = 0;
        while i < msg.len()
            invariant
                i <= msg.len(),
                buf@ == header.spec_bytes() + msg@.subrange(0, i as int),
                header == spec_create_header(old(self)@),
                self == old(self),
            decreases msg.len() - i,
        {
            buf.push(msg[i]);
            proof {
                assert(buf@ =~= header.spec_bytes() + msg@.subrange(0, i + 1));
            }
            i = i + 1;
        }
        proof {
            assert(buf@ =~= spec_datagram(old(self)@, msg@));
        }
        self.outgoing_datagrams.send(buf);
        self.inflight.push(PacketInfo { header, sent_time: now });
        let assigned = self.outgoing_seq;
        self.outgoing_seq = if self.outgoing_seq == SEQUENCE_NR_MAX {
            0
        } else {
            self.outgoing_seq + 1
        };
        proof {
            assert(final(self)@ =~= spec_transmit(old(self)@, now));
        }
        assigned
    }

    /// Splits one raw datagram into its header and payload; fails with a
    /// framing error exactly when the datagram is too short to hold a
    /// header.
    pub fn parse_datagram(&self, datagram: &[u8]) -> (r: Result<
        (PacketHeader, Vec<u8>),
        FramingError,
    >)
        ensures
            match r {
                Ok(parts) => spec_read(datagram@) == Ok::<PacketHeader, FramingError>(parts.0)
                    && parts.1@ == spec_payload_of(datagram@),
                Err(e) => spec_read(datagram@) == Err::<PacketHeader, FramingError>(e),
            },
    {
        let header = match PacketHeader::read_from(datagram) {
            Ok(h) => h,
            Err(e) => {
                return Err(e);
            },
        };
        let mut payload: Vec<u8> = Vec::new();
        let mut i: usize = HEADER_SIZE;
        while i < datagram.len()
            invariant
                HEADER_SIZE <= i,
                i <= datagram.len() || i == HEADER_SIZE,
                datagram@.len() >= HEADER_SIZE,
                payload@ == datagram@.subrange(HEADER_SIZE as int, i as int),
            decreases datagram.len() - i,
        {
            payload.push(datagram[i]);
            proof {
                assert(payload@ =~= datagram@.subrange(HEADER_SIZE as int, i + 1));
            }
            i = i + 1;
        }
        proof {
            assert(payload@ =~= spec_payload_of(datagram@));
        }
        Ok((header, payload))
    }

    /// Drains every datagram currently buffered by the inbound endpoint and
    /// returns the payloads of the accepted ones, in arrival-processing
    /// order — never blocking and never waiting for more to arrive.
    /// Truncated datagrams and invalid headers are silently dropped; each
    /// accepted header advances the channel's state and retires
    /// acknowledged inflight entries. The one surfaced error is permanent
    /// closure of the inbound endpoint, after which the channel must be
    /// discarded; an empty result is not an error.
    pub fn recv(&mut self, now: u64) -> (r: Result<Vec<Vec<u8>>, RecvError>)
        requires
            old(self).wf(),
        ensures
            final(self).wf(),
            final(self)@ == spec_run(old(self)@, old(self).incoming_datagrams.spec_queue(), now),
            final(self).incoming_datagrams.spec_queue() == Seq::<Seq<u8>>::empty(),
            final(self).incoming_datagrams.spec_closed() == old(
                self,
            ).incoming_datagrams.spec_closed(),
            final(self).outgoing_datagrams == old(self).outgoing_datagrams,
            match r {
                Ok(msgs) => !old(self).incoming_datagrams.spec_closed() && views_of(msgs@)
                    == spec_payloads(
                    old(self)@,
                    old(self).incoming_datagrams.spec_queue(),
                    now,
                ),
                Err(e) => old(self).incoming_datagrams.spec_closed() && e == RecvError::TaskDied,
            },
    {
        let ghost q0: Seq<Seq<u8>> = self.incoming_datagrams.spec_queue();
        let mut messages: Vec<Vec<u8>> = Vec::new();
        while self.incoming_datagrams.queue.len() > 0
            invariant
                self.wf(),
                q0 == old(self).incoming_datagrams.spec_queue(),
                spec_run(self@, self.incoming_datagrams.spec_queue(), now) == spec_run(
                    old(self)@,
                    q0,
                    now,
                ),
                views_of(messages@) + spec_payloads(
                    self@,
                    self.incoming_datagrams.spec_queue(),
                    now,
                ) == spec_payloads(old(self)@, q0, now),
                self.incoming_datagrams.spec_closed() == old(
                    self,
                ).incoming_datagrams.spec_closed(),
                self.outgoing_datagrams == old(self).outgoing_datagrams,
            decreases self.incoming_datagrams.queue.len(),
        {
            let ghost st0 = self@;
            let ghost ds = self.incoming_datagrams.spec_queue();
            let ghost msgs0 = messages@;
            let datagram = self.incoming_datagrams.queue.remove(0);
            proof {
                assert(datagram@ == ds[0]);
                assert(self.incoming_datagrams.spec_queue() =~= ds.drop_first());
            }
            match self.parse_datagram(datagram.as_slice()) {
                Ok((header, payload)) => {
                    if self.is_header_valid(&header) {
                        self.ack(&header, now);
                        proof {
                            assert(self@ == spec_step(st0, ds[0], now));
                            assert(spec_step_accepts(st0, ds[0]));
                            assert(payload@ == spec_payload_of(ds[0]));
                        }
                        messages.push(payload);
                        proof {
                            assert(views_of(messages@) =~= views_of(msgs0).push(payload@));
                            assert(views_of(msgs0).push(payload@) + spec_payloads(
                                self@,
                                ds.drop_first(),
                                now,
                            ) =~= views_of(msgs0) + (seq![spec_payload_of(ds[0])] + spec_payloads(
                                self@,
                                ds.drop_first(),
                                now,
                            )));
                        }
                    } else {
                        proof {
                            assert(self@ == spec_step(st0, ds[0], now));
                            assert(!spec_step_accepts(st0, ds[0]));
                        }
                    }
                },
                Err(_) => {
                    proof {
                        assert(self@ == spec_step(st0, ds[0], now));
                        assert(!spec_step_accepts(st0, ds[0]));
                    }
                },
            }
        }
        proof {
            assert(self.incoming_datagrams.spec_queue() =~= Seq::<Seq<u8>>::empty());
            assert(views_of(messages@) + Seq::<Seq<u8>>::empty() =~= views_of(messages@));
        }
        if self.incoming_datagrams.closed {
            Err(RecvError::TaskDied)
        } else {
            Ok(messages)
        }
    }
}

} // verus!
