//! The hardware boundary of the driver.
//!
//! A [`BusPort`] owns the two chip-select lines, the data-ready line and the
//! SPI bus at its two clock configurations.  Every operation a port performs
//! is recorded in a ghost history of [`BusEvent`]s; the driver's contracts
//! are stated over that history, so they pin down exactly which frames reach
//! the chip and in which order.

use vstd::prelude::*;

verus! {

/// Faults reported by the driver.  Hardware-adjacent faults abort only the
/// current operation; the driver instance stays usable.
#[derive(Copy, Clone, Debug, PartialEq, Eq, Structural)]
pub enum DSPError {
    /// An SPI transaction failed.
    Spi,
    /// The command chip-select line (XCS) could not be driven.
    UnableToSetCSPin,
    /// The data chip-select line (XDCS) could not be driven.
    UnableToSetDCSPin,
    /// The data-ready line (DREQ) could not be read.
    UnableToGetDREQPin,
    /// The data-ready line did not assert within the bounded poll count.
    DataRequestTimeout,
}

/// One completed operation on the hardware, as recorded in a port's history.
pub enum BusEvent {
    /// The command chip-select line was driven to `high`.
    XcsSet { high: bool },
    /// The data chip-select line was driven to `high`.
    XdcsSet { high: bool },
    /// The data-ready line was sampled and read `high`.
    DreqRead { high: bool },
    /// `bytes` were clocked out over SPI, at the fast or the slow clock.
    SpiOut { fast: bool, bytes: Seq<u8> },
    /// A two-byte command was clocked out and two response bytes clocked in.
    SpiInOut { command: Seq<u8>, response: Seq<u8> },
}

/// The hardware port the driver runs against.  An implementation performs
/// the physical operation and its recorded history grows by exactly the
/// event describing it; a failed operation leaves the history unchanged and
/// reports the fault that names the line or the bus.
pub trait BusPort: Sized {
    /// The operations performed so far, oldest first.
    spec fn log(&self) -> Seq<BusEvent>;

    /// Drive the command chip-select line (XCS).
    fn set_xcs(&mut self, high: bool) -> (r: Result<(), DSPError>)
        ensures
            r is Ok ==> final(self).log() == old(self).log().push(BusEvent::XcsSet { high }),
            r is Err ==> final(self).log() == old(self).log()
                && r->Err_0 == DSPError::UnableToSetCSPin,
    ;

    /// Drive the data chip-select line (XDCS).
    fn set_xdcs(&mut self, high: bool) -> (r: Result<(), DSPError>)
        ensures
            r is Ok ==> final(self).log() == old(self).log().push(BusEvent::XdcsSet { high }),
            r is Err ==> final(self).log() == old(self).log()
                && r->Err_0 == DSPError::UnableToSetDCSPin,
    ;

    /// Sample the data-ready line (DREQ).
    fn read_dreq(&mut self) -> (r: Result<bool, DSPError>)
        ensures
            r is Ok ==> final(self).log() == old(self).log().push(
                BusEvent::DreqRead { high: r->Ok_0 },
            ),
            r is Err ==> final(self).log() == old(self).log()
                && r->Err_0 == DSPError::UnableToGetDREQPin,
    ;

    /// Clock `bytes` out over SPI, at the fast clock when `fast` is set and
    /// at the slow bring-up clock otherwise.
    fn spi_out(&mut self, fast: bool, bytes: &[u8]) -> (r: Result<(), DSPError>)
        ensures
            r is Ok ==> final(self).log() == old(self).log().push(
                BusEvent::SpiOut { fast, bytes: bytes@ },
            ),
            r is Err ==> final(self).log() == old(self).log() && r->Err_0 == DSPError::Spi,
    ;

    /// Clock the two command bytes out and two response bytes in, in one
    /// transaction at the fast clock.
    fn spi_in_out(&mut self, c0: u8, c1: u8) -> (r: Result<(u8, u8), DSPError>)
        ensures
            r is Ok ==> final(self).log() == old(self).log().push(
                BusEvent::SpiInOut {
                    command: seq![c0, c1],
                    response: seq![r->Ok_0.0, r->Ok_0.1],
                },
            ),
            r is Err ==> final(self).log() == old(self).log() && r->Err_0 == DSPError::Spi,
    ;

    /// Block for `ms` milliseconds.  Waiting performs no bus operation.
    fn delay_ms(&mut self, ms: u32)
        ensures
            final(self).log() == old(self).log(),
    ;
}

// ---------------------------------------------------------------------------
// Frames and event sequences
// ---------------------------------------------------------------------------

/// The high byte of a 16-bit word.
pub open spec fn hi_byte(v: u16) -> u8 {
    (v / 256) as u8
}

/// The low byte of a 16-bit word.
pub open spec fn lo_byte(v: u16) -> u8 {
    (v % 256) as u8
}

/// The 16-bit word read big-endian from two bytes.
pub open spec fn word16(hi: u8, lo: u8) -> u16 {
    (hi * 256 + lo) as u16
}

/// A 16-bit register value as its two big-endian bytes.
pub open spec fn be_bytes(v: u16) -> Seq<u8> {
    seq![hi_byte(v), lo_byte(v)]
}

/// The 4-byte frame of a register write: write opcode, address, value.
pub open spec fn write_frame(reg: u8, value: u16) -> Seq<u8> {
    seq![0x02u8, reg, hi_byte(value), lo_byte(value)]
}

/// The 2-byte command of a register read: read opcode, address.
pub open spec fn read_command(reg: u8) -> Seq<u8> {
    seq![0x03u8, reg]
}

/// `polls` not-ready samples of the data-ready line.
pub open spec fn low_polls(polls: nat) -> Seq<BusEvent> {
    Seq::new(polls, |i: int| BusEvent::DreqRead { high: false })
}

/// A completed wait for readiness: `polls` not-ready samples, then one
/// ready sample.
pub open spec fn ready_wait(polls: nat) -> Seq<BusEvent> {
    low_polls(polls).push(BusEvent::DreqRead { high: true })
}

/// The events of one register write: command mode on, the 4-byte frame at
/// the requested speed, a wait for readiness, command mode off.
pub open spec fn reg_write_events(fast: bool, reg: u8, value: u16, polls: nat) -> Seq<BusEvent> {
    seq![
        BusEvent::XdcsSet { high: true },
        BusEvent::XcsSet { high: false },
        BusEvent::SpiOut { fast, bytes: write_frame(reg, value) },
    ] + ready_wait(polls) + seq![BusEvent::XcsSet { high: true }]
}

/// The events of one register read returning `value`: command mode on, the
/// 2-byte command with its 2-byte big-endian response, a wait for
/// readiness, command mode off.
pub open spec fn reg_read_events(reg: u8, value: u16, polls: nat) -> Seq<BusEvent> {
    seq![
        BusEvent::XdcsSet { high: true },
        BusEvent::XcsSet { high: false },
        BusEvent::SpiInOut { command: read_command(reg), response: be_bytes(value) },
    ] + ready_wait(polls) + seq![BusEvent::XcsSet { high: true }]
}

/// The reset signaling at the head of the bring-up sequence: both selects
/// released, both asserted, both released again.
pub open spec fn reset_events() -> Seq<BusEvent> {
    seq![
        BusEvent::XdcsSet { high: true },
        BusEvent::XcsSet { high: true },
        BusEvent::XdcsSet { high: false },
        BusEvent::XcsSet { high: false },
        BusEvent::XdcsSet { high: true },
        BusEvent::XcsSet { high: true },
    ]
}

// ---------------------------------------------------------------------------
// Projections of an event history
// ---------------------------------------------------------------------------

/// The payloads of the SPI write transactions in `t`, in order.
pub open spec fn spi_out_payloads(t: Seq<BusEvent>) -> Seq<Seq<u8>>
    decreases t.len(),
{
    if t.len() == 0 {
        Seq::empty()
    } else {
        let rest = spi_out_payloads(t.drop_last());
        match t.last() {
            BusEvent::SpiOut { fast, bytes } => rest.push(bytes),
            _ => rest,
        }
    }
}

/// Every SPI write transaction in `t` uses the fast clock.
pub open spec fn all_spi_out_fast(t: Seq<BusEvent>) -> bool {
    forall|i: int|
        0 <= i < t.len() && t[i] is SpiOut ==> #[trigger] t[i]->SpiOut_fast
}

/// Every SPI write transaction in `t` uses the given clock: the fast one
/// when `fast` is set, the slow bring-up one otherwise.
pub open spec fn spi_out_at_speed(t: Seq<BusEvent>, fast: bool) -> bool {
    forall|i: int|
        0 <= i < t.len() && #[trigger] t[i] is SpiOut ==> t[i]->SpiOut_fast == fast
}

/// Clock discipline survives concatenation.
pub proof fn lemma_spi_speed_concat(a: Seq<BusEvent>, b: Seq<BusEvent>, fast: bool)
    requires
        spi_out_at_speed(a, fast),
        spi_out_at_speed(b, fast),
    ensures
        spi_out_at_speed(a + b, fast),
{
    assert forall|i: int| 0 <= i < (a + b).len() && (a + b)[i] is SpiOut implies #[trigger] (a
        + b)[i]->SpiOut_fast == fast by {
        if i < a.len() {
            assert((a + b)[i] == a[i]);
        } else {
            assert((a + b)[i] == b[i - a.len()]);
        }
    }
}

/// Every SPI write transaction in `t` directly follows a ready sample of
/// the data-ready line: the chip's buffer had space when the bytes went out.
pub open spec fn flow_controlled(t: Seq<BusEvent>) -> bool {
    forall|i: int|
        0 <= i < t.len() && t[i] is SpiOut ==> i > 0 && #[trigger] t[i - 1] == (BusEvent::DreqRead {
            high: true,
        })
}

// ---------------------------------------------------------------------------
// Register traffic
// ---------------------------------------------------------------------------

/// One register operation recovered from a bus frame: the value written to
/// or read back from a register.
pub enum RegOp {
    /// A 4-byte write frame carried this value.
    RegWrite(u16),
    /// A read transaction's response held this value.
    RegRead(u16),
}

/// The register operation a single event performs on register `reg`, if
/// any: a 4-byte write frame addressed to it, or a read transaction whose
/// command names it.
pub open spec fn event_reg_op(e: BusEvent, reg: u8) -> Option<RegOp> {
    match e {
        BusEvent::SpiOut { fast, bytes } => if bytes.len() == 4 && bytes[0] == 0x02 && bytes[1]
            == reg {
            Some(RegOp::RegWrite(word16(bytes[2], bytes[3])))
        } else {
            None
        },
        BusEvent::SpiInOut { command, response } => if command == read_command(reg)
            && response.len() == 2 {
            Some(RegOp::RegRead(word16(response[0], response[1])))
        } else {
            None
        },
        _ => None,
    }
}

/// The operations performed on register `reg` by the events of `t`, in
/// order.
pub open spec fn reg_traffic(t: Seq<BusEvent>, reg: u8) -> Seq<RegOp>
    decreases t.len(),
{
    if t.len() == 0 {
        Seq::empty()
    } else {
        let rest = reg_traffic(t.drop_last(), reg);
        match event_reg_op(t.last(), reg) {
            Some(op) => rest.push(op),
            None => rest,
        }
    }
}

/// `t` touches no register outside `a` and `b`.
pub open spec fn traffic_confined(t: Seq<BusEvent>, a: u8, b: u8) -> bool {
    forall|g: u8| g != a && g != b ==> #[trigger] reg_traffic(t, g) == Seq::<RegOp>::empty()
}

/// `t` performs no SPI transaction at all.
pub open spec fn quiet_events(t: Seq<BusEvent>) -> bool {
    forall|i: int|
        0 <= i < t.len() ==> !(#[trigger] t[i] is SpiOut) && !(t[i] is SpiInOut)
}

/// The events a history gained over an earlier state.
pub open spec fn events_since(post: Seq<BusEvent>, pre: Seq<BusEvent>) -> Seq<BusEvent> {
    post.skip(pre.len() as int)
}

/// Appending events leaves the earlier history a prefix, and the gained
/// events are exactly what was appended.
pub proof fn lemma_events_since(pre: Seq<BusEvent>, t: Seq<BusEvent>)
    ensures
        pre.is_prefix_of(pre + t),
        events_since(pre + t, pre) == t,
{
    assert(events_since(pre + t, pre) =~= t);
    assert(pre =~= (pre + t).subrange(0, pre.len() as int));
}

/// A history splits into a prefix and the events gained since it.
pub proof fn lemma_prefix_split(pre: Seq<BusEvent>, post: Seq<BusEvent>)
    requires
        pre.is_prefix_of(post),
    ensures
        post == pre + events_since(post, pre),
{
    assert(post =~= pre + events_since(post, pre));
}

/// Gained events compose across an intermediate history.
pub proof fn lemma_gained_compose(h0: Seq<BusEvent>, h1: Seq<BusEvent>, h2: Seq<BusEvent>)
    requires
        h0.is_prefix_of(h1),
        h1.is_prefix_of(h2),
    ensures
        h0.is_prefix_of(h2),
        events_since(h2, h0) == events_since(h1, h0) + events_since(h2, h1),
{
    lemma_prefix_split(h0, h1);
    lemma_prefix_split(h1, h2);
    assert(h0 =~= h2.subrange(0, h0.len() as int));
    assert(events_since(h2, h0) =~= events_since(h1, h0) + events_since(h2, h1));
}

/// A history extended by quiet events gains no register traffic.
pub proof fn lemma_quiet_extension(pre: Seq<BusEvent>, t: Seq<BusEvent>)
    requires
        quiet_events(t),
    ensures
        pre.is_prefix_of(pre + t),
        events_since(pre + t, pre) == t,
        forall|g: u8| #[trigger] reg_traffic(events_since(pre + t, pre), g) == Seq::<
            RegOp,
        >::empty(),
        no_short_out(events_since(pre + t, pre)),
{
    lemma_events_since(pre, t);
    assert forall|g: u8| #[trigger] reg_traffic(events_since(pre + t, pre), g) == Seq::<
        RegOp,
    >::empty() by {
        lemma_reg_traffic_quiet(t, g);
    }
}

/// A history extended by one SPI transaction amid quiet events gains
/// exactly that transaction's register operation.
pub proof fn lemma_frame_extension(
    pre: Seq<BusEvent>,
    pins: Seq<BusEvent>,
    e: BusEvent,
    post: Seq<BusEvent>,
)
    requires
        quiet_events(pins),
        quiet_events(post),
    ensures
        pre.is_prefix_of(pre + (pins + seq![e] + post)),
        events_since(pre + (pins + seq![e] + post), pre) == pins + seq![e] + post,
        forall|g: u8| #[trigger] reg_traffic(events_since(pre + (pins + seq![e] + post), pre), g)
            == (match event_reg_op(e, g) {
            Some(op) => seq![op],
            None => Seq::<RegOp>::empty(),
        }),
        (e is SpiOut ==> e->SpiOut_bytes.len() != 2) ==> no_short_out(
            events_since(pre + (pins + seq![e] + post), pre),
        ),
        forall|i: int|
            0 <= i < events_since(pre + (pins + seq![e] + post), pre).len()
                && #[trigger] events_since(pre + (pins + seq![e] + post), pre)[i] is SpiOut
                ==> events_since(pre + (pins + seq![e] + post), pre)[i] == e,
{
    lemma_events_since(pre, pins + seq![e] + post);
    assert forall|i: int|
        0 <= i < (pins + seq![e] + post).len() && #[trigger] (pins + seq![e] + post)[i]
            is SpiOut implies (pins + seq![e] + post)[i] == e by {
        if i < pins.len() {
            assert((pins + seq![e] + post)[i] == pins[i]);
        } else if i > pins.len() {
            assert((pins + seq![e] + post)[i] == post[i - pins.len() - 1]);
        }
    }
    if e is SpiOut ==> e->SpiOut_bytes.len() != 2 {
        let t = pins + seq![e] + post;
        assert forall|i: int| 0 <= i < t.len() && #[trigger] t[i] is SpiOut implies t[i]->SpiOut_bytes.len()
            != 2 by {
            if i < pins.len() {
                assert(t[i] == pins[i]);
            } else if i == pins.len() {
                assert(t[i] == e);
            } else {
                assert(t[i] == post[i - pins.len() - 1]);
            }
        }
    }
    assert forall|g: u8|
        #[trigger] reg_traffic(events_since(pre + (pins + seq![e] + post), pre), g) == (
        match event_reg_op(e, g) {
            Some(op) => seq![op],
            None => Seq::<RegOp>::empty(),
        }) by {
        lemma_reg_traffic_one_frame(pins, e, post, g);
    }
}

/// The big-endian bytes of a word built from two bytes are those bytes.
pub proof fn lemma_word16_split(b0: u8, b1: u8)
    ensures
        hi_byte(word16(b0, b1)) == b0,
        lo_byte(word16(b0, b1)) == b1,
        be_bytes(word16(b0, b1)) == seq![b0, b1],
{
    assert(be_bytes(word16(b0, b1)) =~= seq![b0, b1]);
}

/// The register traffic of a single SPI transaction surrounded by quiet
/// events is that transaction's own register operation, if it has one.
pub proof fn lemma_reg_traffic_one_frame(
    pre: Seq<BusEvent>,
    e: BusEvent,
    post: Seq<BusEvent>,
    g: u8,
)
    requires
        quiet_events(pre),
        quiet_events(post),
    ensures
        reg_traffic(pre + seq![e] + post, g) == match event_reg_op(e, g) {
            Some(op) => seq![op],
            None => Seq::<RegOp>::empty(),
        },
{
    lemma_reg_traffic_concat(pre + seq![e], post, g);
    lemma_reg_traffic_quiet(post, g);
    lemma_reg_traffic_quiet(pre, g);
    assert(pre + seq![e] =~= pre.push(e));
    assert(pre.push(e).drop_last() =~= pre);
    match event_reg_op(e, g) {
        Some(op) => {
            assert(reg_traffic(pre + seq![e] + post, g) =~= seq![op]);
        },
        None => {
            assert(reg_traffic(pre + seq![e] + post, g) =~= Seq::<RegOp>::empty());
        },
    }
}

/// Register traffic distributes over concatenation.
pub proof fn lemma_reg_traffic_concat(a: Seq<BusEvent>, b: Seq<BusEvent>, reg: u8)
    ensures
        reg_traffic(a + b, reg) == reg_traffic(a, reg) + reg_traffic(b, reg),
    decreases b.len(),
{
    if b.len() == 0 {
        assert(a + b =~= a);
        assert(reg_traffic(a, reg) + reg_traffic(b, reg) =~= reg_traffic(a, reg));
    } else {
        lemma_reg_traffic_concat(a, b.drop_last(), reg);
        assert((a + b).drop_last() =~= a + b.drop_last());
        assert((a + b).last() == b.last());
        match event_reg_op(b.last(), reg) {
            Some(op) => {
                assert(reg_traffic(a, reg) + reg_traffic(b, reg) =~= (reg_traffic(a, reg)
                    + reg_traffic(b.drop_last(), reg)).push(op));
            },
            None => {},
        }
    }
}

/// Events without SPI transactions leave no register traffic.
pub proof fn lemma_reg_traffic_quiet(t: Seq<BusEvent>, reg: u8)
    requires
        quiet_events(t),
    ensures
        reg_traffic(t, reg) == Seq::<RegOp>::empty(),
    decreases t.len(),
{
    if t.len() > 0 {
        assert(quiet_events(t.drop_last())) by {
            assert forall|i: int| 0 <= i < t.drop_last().len() implies !(#[trigger] t.drop_last()[i]
                is SpiOut) && !(t.drop_last()[i] is SpiInOut) by {
                assert(t.drop_last()[i] == t[i]);
            }
        }
        lemma_reg_traffic_quiet(t.drop_last(), reg);
        assert(!(t[t.len() - 1] is SpiOut) && !(t[t.len() - 1] is SpiInOut));
    }
}

/// A not-yet-ready poll run performs no SPI transaction.
pub proof fn lemma_low_polls_quiet(k: nat)
    ensures
        quiet_events(low_polls(k)),
        quiet_events(ready_wait(k)),
{
}

/// The two big-endian bytes of a word recombine to it.
pub proof fn lemma_word16_be(v: u16)
    ensures
        word16(hi_byte(v), lo_byte(v)) == v,
{
}



/// Projecting payloads distributes over concatenation.
pub proof fn lemma_spi_out_payloads_concat(a: Seq<BusEvent>, b: Seq<BusEvent>)
    ensures
        spi_out_payloads(a + b) == spi_out_payloads(a) + spi_out_payloads(b),
    decreases b.len(),
{
    if b.len() == 0 {
        assert(a + b =~= a);
        assert(spi_out_payloads(a) + spi_out_payloads(b) =~= spi_out_payloads(a));
    } else {
        lemma_spi_out_payloads_concat(a, b.drop_last());
        assert((a + b).drop_last() =~= a + b.drop_last());
        assert((a + b).last() == b.last());
        match b.last() {
            BusEvent::SpiOut { fast, bytes } => {
                assert(spi_out_payloads(a) + spi_out_payloads(b) =~= (spi_out_payloads(a)
                    + spi_out_payloads(b.drop_last())).push(bytes));
            },
            _ => {},
        }
    }
}

/// A sequence is a prefix of itself extended.
pub proof fn lemma_concat_prefix(a: Seq<Seq<u8>>, b: Seq<Seq<u8>>)
    ensures
        a.is_prefix_of(a + b),
{
    assert(a =~= (a + b).subrange(0, a.len() as int));
}

/// Events without SPI write transactions carry no payloads.
pub proof fn lemma_spi_out_payloads_quiet(t: Seq<BusEvent>)
    requires
        forall|i: int| 0 <= i < t.len() ==> !(#[trigger] t[i] is SpiOut),
    ensures
        spi_out_payloads(t) == Seq::<Seq<u8>>::empty(),
    decreases t.len(),
{
    if t.len() > 0 {
        assert forall|i: int| 0 <= i < t.drop_last().len() implies !(#[trigger] t.drop_last()[i]
            is SpiOut) by {
            assert(t.drop_last()[i] == t[i]);
        }
        lemma_spi_out_payloads_quiet(t.drop_last());
        assert(!(t[t.len() - 1] is SpiOut));
    }
}

/// The payloads of the 2-byte SPI write transactions in `t` — the shape of
/// filler traffic — in order.
pub open spec fn short_payloads(t: Seq<BusEvent>) -> Seq<Seq<u8>>
    decreases t.len(),
{
    if t.len() == 0 {
        Seq::empty()
    } else {
        let rest = short_payloads(t.drop_last());
        match t.last() {
            BusEvent::SpiOut { fast, bytes } => if bytes.len() == 2 {
                rest.push(bytes)
            } else {
                rest
            },
            _ => rest,
        }
    }
}

/// Projecting 2-byte payloads distributes over concatenation.
pub proof fn lemma_short_payloads_concat(a: Seq<BusEvent>, b: Seq<BusEvent>)
    ensures
        short_payloads(a + b) == short_payloads(a) + short_payloads(b),
    decreases b.len(),
{
    if b.len() == 0 {
        assert(a + b =~= a);
        assert(short_payloads(a) + short_payloads(b) =~= short_payloads(a));
    } else {
        lemma_short_payloads_concat(a, b.drop_last());
        assert((a + b).drop_last() =~= a + b.drop_last());
        assert((a + b).last() == b.last());
        match b.last() {
            BusEvent::SpiOut { fast, bytes } => if bytes.len() == 2 {
                assert(short_payloads(a) + short_payloads(b) =~= (short_payloads(a)
                    + short_payloads(b.drop_last())).push(bytes));
            },
            _ => {},
        }
    }
}

/// No 2-byte SPI write transaction occurs in `t`.
pub open spec fn no_short_out(t: Seq<BusEvent>) -> bool {
    forall|i: int|
        0 <= i < t.len() && #[trigger] t[i] is SpiOut ==> t[i]->SpiOut_bytes.len() != 2
}

/// Events without 2-byte SPI writes carry no 2-byte payloads.
pub proof fn lemma_short_payloads_none(t: Seq<BusEvent>)
    requires
        no_short_out(t),
    ensures
        short_payloads(t) == Seq::<Seq<u8>>::empty(),
    decreases t.len(),
{
    if t.len() > 0 {
        assert forall|i: int|
            0 <= i < t.drop_last().len() && #[trigger] t.drop_last()[i] is SpiOut implies t.drop_last()[i]->SpiOut_bytes.len()
            != 2 by {
            assert(t.drop_last()[i] == t[i]);
        }
        lemma_short_payloads_none(t.drop_last());
        assert(t[t.len() - 1] == t.last());
    }
}


/// Flow control survives concatenation when the appended run does not
/// open with an SPI write.
pub proof fn lemma_flow_concat(a: Seq<BusEvent>, b: Seq<BusEvent>)
    requires
        flow_controlled(a),
        flow_controlled(b),
        b.len() > 0 ==> !(b[0] is SpiOut),
    ensures
        flow_controlled(a + b),
{
    assert forall|i: int| 0 <= i < (a + b).len() && (a + b)[i] is SpiOut implies i > 0
        && #[trigger] (a + b)[i - 1] == (BusEvent::DreqRead { high: true }) by {
        if i < a.len() {
            assert((a + b)[i] == a[i]);
            assert((a + b)[i - 1] == a[i - 1]);
        } else if i == a.len() {
            assert((a + b)[i] == b[0]);
        } else {
            assert((a + b)[i] == b[i - a.len()]);
            assert((a + b)[i - 1] == b[i - a.len() - 1]);
        }
    }
}

/// Fast-clock discipline survives concatenation.
pub proof fn lemma_fast_concat(a: Seq<BusEvent>, b: Seq<BusEvent>)
    requires
        all_spi_out_fast(a),
        all_spi_out_fast(b),
    ensures
        all_spi_out_fast(a + b),
{
    assert forall|i: int| 0 <= i < (a + b).len() && (a + b)[i] is SpiOut implies #[trigger] (a
        + b)[i]->SpiOut_fast by {
        if i < a.len() {
            assert((a + b)[i] == a[i]);
        } else {
            assert((a + b)[i] == b[i - a.len()]);
        }
    }
}

/// No chip-select line is driven in `t`.
pub open spec fn no_select_events(t: Seq<BusEvent>) -> bool {
    forall|i: int| 0 <= i < t.len() ==> !(#[trigger] t[i] is XcsSet) && !(t[i] is XdcsSet)
}

/// The select discipline of one whole streaming call: nothing happened,
/// or only the first select of the bracket, or the full bracket — data
/// mode entered exactly once at the start, no select touched in between,
/// and at most one closing deselect at the very end.
pub open spec fn stream_events_shape(t: Seq<BusEvent>) -> bool {
    ||| t.len() == 0
    ||| t == seq![BusEvent::XcsSet { high: true }]
    ||| (t.len() >= 2 && t[0] == (BusEvent::XcsSet { high: true }) && t[1] == (
        BusEvent::XdcsSet { high: false }
    ) && (forall|i: int|
        2 <= i < t.len() && (#[trigger] t[i] is XcsSet || t[i] is XdcsSet) ==> i == t.len() - 1
            && t[i] == (BusEvent::XdcsSet { high: true })))
}

/// Events without SPI writes are trivially flow controlled and at the
/// fast clock.
pub proof fn lemma_no_out_stream_props(t: Seq<BusEvent>)
    requires
        forall|i: int| 0 <= i < t.len() ==> !(#[trigger] t[i] is SpiOut),
    ensures
        flow_controlled(t),
        all_spi_out_fast(t),
{
}

/// Poll runs touch no chip select and issue no SPI write.
pub proof fn lemma_polls_no_select(k: nat)
    ensures
        no_select_events(low_polls(k)),
        no_select_events(ready_wait(k)),
        forall|i: int| 0 <= i < low_polls(k).len() ==> !(#[trigger] low_polls(k)[i] is SpiOut),
        forall|i: int| 0 <= i < ready_wait(k).len() ==> !(#[trigger] ready_wait(k)[i] is SpiOut),
{
    assert forall|i: int| 0 <= i < ready_wait(k).len() implies !(#[trigger] ready_wait(k)[i]
        is XcsSet) && !(ready_wait(k)[i] is XdcsSet) && !(ready_wait(k)[i] is SpiOut) by {
        if i < low_polls(k).len() {
            assert(ready_wait(k)[i] == low_polls(k)[i]);
        }
    }
}

/// Runs without select traffic concatenate to a run without it.
pub proof fn lemma_no_select_concat(a: Seq<BusEvent>, b: Seq<BusEvent>)
    requires
        no_select_events(a),
        no_select_events(b),
    ensures
        no_select_events(a + b),
{
    assert forall|i: int| 0 <= i < (a + b).len() implies !(#[trigger] (a + b)[i] is XcsSet) && !((a
        + b)[i] is XdcsSet) by {
        if i < a.len() {
            assert((a + b)[i] == a[i]);
        } else {
            assert((a + b)[i] == b[i - a.len()]);
        }
    }
}

/// One streamed chunk's run — a ready wait, the chunk at the fast clock,
/// then any events without SPI writes or select traffic — is flow
/// controlled, fast, select-free and opens with a ready sample.
pub proof fn lemma_chunk_unit_props(k1: nat, bytes: Seq<u8>, tail: Seq<BusEvent>)
    requires
        forall|i: int|
            0 <= i < tail.len() ==> !(#[trigger] tail[i] is SpiOut) && !(tail[i] is XcsSet) && !(
            tail[i] is XdcsSet),
    ensures
        ({
            let t = ready_wait(k1) + seq![BusEvent::SpiOut { fast: true, bytes }] + tail;
            &&& flow_controlled(t)
            &&& all_spi_out_fast(t)
            &&& no_select_events(t)
            &&& t.len() > 0
            &&& t[0] is DreqRead
        }),
{
    let t = ready_wait(k1) + seq![BusEvent::SpiOut { fast: true, bytes }] + tail;
    let n1 = ready_wait(k1).len() as int;
    lemma_polls_no_select(k1);
    assert forall|i: int| 0 <= i < t.len() && t[i] is SpiOut implies i > 0 && #[trigger] t[i - 1]
        == (BusEvent::DreqRead { high: true }) by {
        if i < n1 {
            assert(t[i] == ready_wait(k1)[i]);
        } else if i == n1 {
            assert(t[i - 1] == ready_wait(k1)[n1 - 1]);
            assert(ready_wait(k1)[n1 - 1] == (BusEvent::DreqRead { high: true }));
        } else {
            assert(t[i] == tail[i - n1 - 1]);
        }
    }
    assert forall|i: int| 0 <= i < t.len() && t[i] is SpiOut implies #[trigger] t[i]->SpiOut_fast by {
        if i < n1 {
            assert(t[i] == ready_wait(k1)[i]);
        } else if i > n1 {
            assert(t[i] == tail[i - n1 - 1]);
        }
    }
    assert forall|i: int| 0 <= i < t.len() implies !(#[trigger] t[i] is XcsSet) && !(t[i]
        is XdcsSet) by {
        if i < n1 {
            assert(t[i] == ready_wait(k1)[i]);
        } else if i > n1 {
            assert(t[i] == tail[i - n1 - 1]);
        }
    }
    assert(t[0] == ready_wait(k1)[0]);
}

/// The event run of one streamed chunk — a ready wait, the chunk at the
/// fast clock, a ready wait — is flow controlled and carries exactly that
/// chunk as payload.
pub proof fn lemma_chunk_unit_trace(k1: nat, bytes: Seq<u8>, k2: nat)
    ensures
        ({
            let t = ready_wait(k1) + seq![BusEvent::SpiOut { fast: true, bytes }] + ready_wait(k2);
            &&& flow_controlled(t)
            &&& all_spi_out_fast(t)
            &&& spi_out_payloads(t) == seq![bytes]
            &&& t.len() > 0
            &&& t[0] is DreqRead
        }),
{
    let mid = seq![BusEvent::SpiOut { fast: true, bytes }];
    let t = ready_wait(k1) + mid + ready_wait(k2);
    let n1 = ready_wait(k1).len() as int;
    assert forall|i: int| 0 <= i < t.len() && t[i] is SpiOut implies i > 0 && #[trigger] t[i - 1]
        == (BusEvent::DreqRead { high: true }) by {
        if i < n1 {
            assert(t[i] == ready_wait(k1)[i]);
        } else if i == n1 {
            assert(t[i - 1] == ready_wait(k1)[n1 - 1]);
            assert(ready_wait(k1)[n1 - 1] == (BusEvent::DreqRead { high: true }));
        } else {
            assert(t[i] == ready_wait(k2)[i - n1 - 1]);
        }
    }
    assert forall|i: int| 0 <= i < t.len() && t[i] is SpiOut implies #[trigger] t[i]->SpiOut_fast by {
        if i < n1 {
            assert(t[i] == ready_wait(k1)[i]);
        } else if i > n1 {
            assert(t[i] == ready_wait(k2)[i - n1 - 1]);
        }
    }
    lemma_spi_out_payloads_concat(ready_wait(k1) + mid, ready_wait(k2));
    lemma_spi_out_payloads_concat(ready_wait(k1), mid);
    lemma_low_polls_quiet(k1);
    lemma_low_polls_quiet(k2);
    assert(forall|i: int| 0 <= i < ready_wait(k1).len() ==> !(#[trigger] ready_wait(k1)[i]
        is SpiOut));
    assert(forall|i: int| 0 <= i < ready_wait(k2).len() ==> !(#[trigger] ready_wait(k2)[i]
        is SpiOut));
    lemma_spi_out_payloads_quiet(ready_wait(k1));
    lemma_spi_out_payloads_quiet(ready_wait(k2));
    assert(mid.drop_last() =~= Seq::<BusEvent>::empty());
    assert(spi_out_payloads(Seq::<BusEvent>::empty()) == Seq::<Seq<u8>>::empty());
    assert(spi_out_payloads(mid) =~= seq![bytes]);
    assert(spi_out_payloads(t) =~= seq![bytes]);
    assert(t[0] == ready_wait(k1)[0]);
}

/// Extending a streamed run by events without SPI writes leaves its
/// payloads unchanged.
pub proof fn lemma_extend_no_out(
    hstart: Seq<BusEvent>,
    acc: Seq<BusEvent>,
    t: Seq<BusEvent>,
    he: Seq<BusEvent>,
)
    requires
        he == hstart + (acc + t),
        forall|i: int| 0 <= i < t.len() ==> !(#[trigger] t[i] is SpiOut),
    ensures
        hstart.is_prefix_of(he),
        spi_out_payloads(events_since(he, hstart)) == spi_out_payloads(acc),
{
    lemma_events_since(hstart, acc + t);
    lemma_spi_out_payloads_concat(acc, t);
    lemma_spi_out_payloads_quiet(t);
    assert(spi_out_payloads(acc) + Seq::<Seq<u8>>::empty() =~= spi_out_payloads(acc));
}

/// Extending a streamed run by one chunk unit — ready wait, chunk, and a
/// tail without SPI writes — appends exactly that chunk to its payloads.
pub proof fn lemma_extend_chunk(
    hstart: Seq<BusEvent>,
    acc: Seq<BusEvent>,
    k1: nat,
    bytes: Seq<u8>,
    tail: Seq<BusEvent>,
    he: Seq<BusEvent>,
)
    requires
        he == hstart + (acc + (ready_wait(k1) + seq![BusEvent::SpiOut { fast: true, bytes }]
            + tail)),
        forall|i: int| 0 <= i < tail.len() ==> !(#[trigger] tail[i] is SpiOut),
    ensures
        hstart.is_prefix_of(he),
        spi_out_payloads(events_since(he, hstart)) == spi_out_payloads(acc) + seq![bytes],
{
    let head = ready_wait(k1) + seq![BusEvent::SpiOut { fast: true, bytes }];
    let unit = head + tail;
    lemma_events_since(hstart, acc + unit);
    lemma_spi_out_payloads_concat(acc, unit);
    lemma_spi_out_payloads_concat(head, tail);
    lemma_spi_out_payloads_concat(ready_wait(k1), seq![BusEvent::SpiOut { fast: true, bytes }]);
    lemma_low_polls_quiet(k1);
    lemma_spi_out_payloads_quiet(ready_wait(k1));
    lemma_spi_out_payloads_quiet(tail);
    assert(seq![BusEvent::SpiOut { fast: true, bytes }].drop_last() =~= Seq::<BusEvent>::empty());
    assert(spi_out_payloads(Seq::<BusEvent>::empty()) == Seq::<Seq<u8>>::empty());
    assert(spi_out_payloads(seq![BusEvent::SpiOut { fast: true, bytes }]) =~= seq![bytes]);
    assert(spi_out_payloads(events_since(he, hstart)) =~= spi_out_payloads(acc) + seq![bytes]);
}

/// Extending a streamed run by one completed chunk unit preserves flow
/// control, the fast clock, and the opening ready sample.
pub proof fn lemma_extend_chunk_ok(
    hstart: Seq<BusEvent>,
    acc: Seq<BusEvent>,
    k1: nat,
    bytes: Seq<u8>,
    k2: nat,
    he: Seq<BusEvent>,
)
    requires
        he == hstart + (acc + (ready_wait(k1) + seq![BusEvent::SpiOut { fast: true, bytes }]
            + ready_wait(k2))),
        flow_controlled(acc),
        all_spi_out_fast(acc),
        acc.len() > 0 ==> acc[0] is DreqRead,
    ensures
        hstart.is_prefix_of(he),
        spi_out_payloads(events_since(he, hstart)) == spi_out_payloads(acc) + seq![bytes],
        flow_controlled(events_since(he, hstart)),
        all_spi_out_fast(events_since(he, hstart)),
        events_since(he, hstart).len() > 0,
        events_since(he, hstart)[0] is DreqRead,
{
    let unit = ready_wait(k1) + seq![BusEvent::SpiOut { fast: true, bytes }] + ready_wait(k2);
    lemma_chunk_unit_trace(k1, bytes, k2);
    lemma_extend_chunk(hstart, acc, k1, bytes, ready_wait(k2), he);
    lemma_flow_concat(acc, unit);
    lemma_fast_concat(acc, unit);
    lemma_events_since(hstart, acc + unit);
    if acc.len() == 0 {
        assert((acc + unit)[0] == unit[0]);
    } else {
        assert((acc + unit)[0] == acc[0]);
    }
}

// ---------------------------------------------------------------------------
// Self-test sweep accounting
// ---------------------------------------------------------------------------

/// One self-test step is bad when a readback differs from the written
/// value or the two readbacks differ from each other.
pub open spec fn step_mismatch(wrote: u16, r1: u16, r2: u16) -> bool {
    r1 != r2 || wrote != r1 || wrote != r2
}

/// The number of bad steps in a register-operation run of
/// write-read-read triples; a trailing partial triple counts nothing.
pub open spec fn sweep_mismatches(ops: Seq<RegOp>) -> nat
    decreases ops.len(),
{
    if ops.len() < 3 {
        0
    } else {
        let head: nat = match (ops[0], ops[1], ops[2]) {
            (RegOp::RegWrite(w), RegOp::RegRead(a), RegOp::RegRead(b)) => if step_mismatch(
                w,
                a,
                b,
            ) {
                1
            } else {
                0
            },
            _ => 0,
        };
        head + sweep_mismatches(ops.skip(3))
    }
}


/// One complete triple holds exactly its own mismatch.
pub proof fn lemma_sweep_triple(w: u16, a: u16, b: u16)
    ensures
        sweep_mismatches(seq![RegOp::RegWrite(w), RegOp::RegRead(a), RegOp::RegRead(b)]) == (
        if step_mismatch(w, a, b) {
            1nat
        } else {
            0nat
        }),
{
    let t = seq![RegOp::RegWrite(w), RegOp::RegRead(a), RegOp::RegRead(b)];
    assert(t.skip(3) =~= Seq::<RegOp>::empty());
    assert(sweep_mismatches(t.skip(3)) == 0);
}

/// Appending at most one triple to a whole number of triples adds exactly
/// the appended run's mismatches.
pub proof fn lemma_sweep_append(pre: Seq<RegOp>, step: Seq<RegOp>)
    requires
        pre.len() % 3 == 0,
        step.len() <= 3,
    ensures
        sweep_mismatches(pre + step) == sweep_mismatches(pre) + sweep_mismatches(step),
    decreases pre.len(),
{
    if pre.len() == 0 {
        assert(pre + step =~= step);
    } else {
        assert(pre.len() >= 3);
        lemma_sweep_append(pre.skip(3), step);
        assert((pre + step).skip(3) =~= pre.skip(3) + step);
        assert((pre + step)[0] == pre[0]);
        assert((pre + step)[1] == pre[1]);
        assert((pre + step)[2] == pre[2]);
    }
}

/// A run of at most one triple holds at most one bad step.
pub proof fn lemma_sweep_bound(ops: Seq<RegOp>)
    requires
        ops.len() <= 3,
    ensures
        sweep_mismatches(ops) <= 1,
{
    if ops.len() == 3 {
        assert(ops.skip(3) =~= Seq::<RegOp>::empty());
        assert(sweep_mismatches(ops.skip(3)) == 0);
    }
}

/// Confinement to a register pair composes across an intermediate
/// history, and the confined registers' traffic concatenates.
pub proof fn lemma_confined_compose(
    h0: Seq<BusEvent>,
    hmid: Seq<BusEvent>,
    he: Seq<BusEvent>,
    a: u8,
    b: u8,
)
    requires
        h0.is_prefix_of(hmid),
        hmid.is_prefix_of(he),
        traffic_confined(events_since(hmid, h0), a, b),
        traffic_confined(events_since(he, hmid), a, b),
    ensures
        h0.is_prefix_of(he),
        traffic_confined(events_since(he, h0), a, b),
        reg_traffic(events_since(he, h0), a) == reg_traffic(events_since(hmid, h0), a)
            + reg_traffic(events_since(he, hmid), a),
        reg_traffic(events_since(he, h0), b) == reg_traffic(events_since(hmid, h0), b)
            + reg_traffic(events_since(he, hmid), b),
{
    lemma_gained_compose(h0, hmid, he);
    lemma_reg_traffic_concat(events_since(hmid, h0), events_since(he, hmid), a);
    lemma_reg_traffic_concat(events_since(hmid, h0), events_since(he, hmid), b);
    assert forall|g: u8| g != a && g != b implies #[trigger] reg_traffic(events_since(he, h0), g)
        == Seq::<RegOp>::empty() by {
        lemma_reg_traffic_concat(events_since(hmid, h0), events_since(he, hmid), g);
        assert(reg_traffic(events_since(he, h0), g) =~= Seq::<RegOp>::empty());
    }
}

// ---------------------------------------------------------------------------
// Composition helpers for derived operations
// ---------------------------------------------------------------------------

/// Quiet events have no register traffic on any register and no payloads.
pub proof fn lemma_quiet_all(t: Seq<BusEvent>)
    requires
        quiet_events(t),
    ensures
        forall|g: u8| #[trigger] reg_traffic(t, g) == Seq::<RegOp>::empty(),
        no_short_out(t),
        short_payloads(t) == Seq::<Seq<u8>>::empty(),
{
    assert forall|g: u8| #[trigger] reg_traffic(t, g) == Seq::<RegOp>::empty() by {
        lemma_reg_traffic_quiet(t, g);
    }
    lemma_short_payloads_none(t);
}


/// Extending a history by a run without 2-byte writes, confined to the
/// same registers, keeps the filler payloads and the confinement.
pub proof fn lemma_extend_keeps_shorts(
    h0: Seq<BusEvent>,
    hmid: Seq<BusEvent>,
    he: Seq<BusEvent>,
    a: u8,
    b: u8,
)
    requires
        h0.is_prefix_of(hmid),
        hmid.is_prefix_of(he),
        no_short_out(events_since(he, hmid)),
        traffic_confined(events_since(hmid, h0), a, b),
        traffic_confined(events_since(he, hmid), a, b),
    ensures
        h0.is_prefix_of(he),
        short_payloads(events_since(he, h0)) == short_payloads(events_since(hmid, h0)),
        traffic_confined(events_since(he, h0), a, b),
{
    lemma_gained_compose(h0, hmid, he);
    lemma_short_payloads_concat(events_since(hmid, h0), events_since(he, hmid));
    lemma_short_payloads_none(events_since(he, hmid));
    assert(short_payloads(events_since(hmid, h0)) + Seq::<Seq<u8>>::empty() =~= short_payloads(
        events_since(hmid, h0),
    ));
    assert forall|g: u8| g != a && g != b implies #[trigger] reg_traffic(events_since(he, h0), g)
        == Seq::<RegOp>::empty() by {
        lemma_reg_traffic_concat(events_since(hmid, h0), events_since(he, hmid), g);
        assert(reg_traffic(events_since(he, h0), g) =~= Seq::<RegOp>::empty());
    }
}

/// Extending a history by one 2-byte write at the fast clock appends that
/// payload to the filler payloads and keeps the confinement.
pub proof fn lemma_extend_short_out(
    h0: Seq<BusEvent>,
    hmid: Seq<BusEvent>,
    he: Seq<BusEvent>,
    bytes: Seq<u8>,
    a: u8,
    b: u8,
)
    requires
        h0.is_prefix_of(hmid),
        he == hmid.push(BusEvent::SpiOut { fast: true, bytes }),
        bytes.len() == 2,
        traffic_confined(events_since(hmid, h0), a, b),
    ensures
        h0.is_prefix_of(he),
        short_payloads(events_since(he, h0)) == short_payloads(events_since(hmid, h0)).push(bytes),
        traffic_confined(events_since(he, h0), a, b),
        forall|g: u8| #[trigger] reg_traffic(events_since(he, h0), g) == reg_traffic(
            events_since(hmid, h0),
            g,
        ),
{
    let e = BusEvent::SpiOut { fast: true, bytes };
    assert(he =~= hmid + seq![e]);
    assert(hmid.is_prefix_of(he)) by {
        assert(hmid =~= he.subrange(0, hmid.len() as int));
    }
    lemma_gained_compose(h0, hmid, he);
    lemma_short_payloads_concat(events_since(hmid, h0), events_since(he, hmid));
    assert(events_since(he, hmid) =~= seq![e]);
    assert(seq![e].drop_last() =~= Seq::<BusEvent>::empty());
    assert(short_payloads(Seq::<BusEvent>::empty()) == Seq::<Seq<u8>>::empty());
    assert(short_payloads(seq![e]) =~= seq![bytes]);
    assert(short_payloads(events_since(he, h0)) =~= short_payloads(
        events_since(hmid, h0),
    ).push(bytes));
    assert forall|g: u8| #[trigger] reg_traffic(events_since(he, h0), g) == reg_traffic(
        events_since(hmid, h0),
        g,
    ) by {
        lemma_reg_traffic_concat(events_since(hmid, h0), events_since(he, hmid), g);
        lemma_reg_traffic_one_frame(Seq::<BusEvent>::empty(), e, Seq::<BusEvent>::empty(), g);
        assert(Seq::<BusEvent>::empty() + seq![e] + Seq::<BusEvent>::empty() =~= seq![e]);
        assert(reg_traffic(events_since(he, h0), g) =~= reg_traffic(events_since(hmid, h0), g));
    }
}

/// The values read back, in order, in a register-operation run.
pub open spec fn reg_reads_of(ops: Seq<RegOp>) -> Seq<u16>
    decreases ops.len(),
{
    if ops.len() == 0 {
        Seq::empty()
    } else {
        let rest = reg_reads_of(ops.drop_last());
        match ops.last() {
            RegOp::RegRead(v) => rest.push(v),
            RegOp::RegWrite(v) => rest,
        }
    }
}

/// Projecting readings distributes over concatenation.
pub proof fn lemma_reg_reads_of_concat(a: Seq<RegOp>, b: Seq<RegOp>)
    ensures
        reg_reads_of(a + b) == reg_reads_of(a) + reg_reads_of(b),
    decreases b.len(),
{
    if b.len() == 0 {
        assert(a + b =~= a);
        assert(reg_reads_of(a) + reg_reads_of(b) =~= reg_reads_of(a));
    } else {
        lemma_reg_reads_of_concat(a, b.drop_last());
        assert((a + b).drop_last() =~= a + b.drop_last());
        assert((a + b).last() == b.last());
        match b.last() {
            RegOp::RegRead(v) => {
                assert(reg_reads_of(a) + reg_reads_of(b) =~= (reg_reads_of(a) + reg_reads_of(
                    b.drop_last(),
                )).push(v));
            },
            RegOp::RegWrite(v) => {},
        }
    }
}

/// A register's readings gained across an intermediate history compose.
pub proof fn lemma_reg_reads_compose(
    h0: Seq<BusEvent>,
    hmid: Seq<BusEvent>,
    he: Seq<BusEvent>,
    reg: u8,
)
    requires
        h0.is_prefix_of(hmid),
        hmid.is_prefix_of(he),
    ensures
        h0.is_prefix_of(he),
        reg_traffic(events_since(he, h0), reg) == reg_traffic(events_since(hmid, h0), reg)
            + reg_traffic(events_since(he, hmid), reg),
        reg_reads_of(reg_traffic(events_since(he, h0), reg)) == reg_reads_of(
            reg_traffic(events_since(hmid, h0), reg),
        ) + reg_reads_of(reg_traffic(events_since(he, hmid), reg)),
{
    lemma_gained_compose(h0, hmid, he);
    lemma_reg_traffic_concat(events_since(hmid, h0), events_since(he, hmid), reg);
    lemma_reg_reads_of_concat(
        reg_traffic(events_since(hmid, h0), reg),
        reg_traffic(events_since(he, hmid), reg),
    );
}

/// The readings of a single register operation.
pub proof fn lemma_reg_reads_single(op: RegOp)
    ensures
        reg_reads_of(seq![op]) == (match op {
            RegOp::RegRead(v) => seq![v],
            RegOp::RegWrite(v) => Seq::<u16>::empty(),
        }),
{
    assert(seq![op].drop_last() =~= Seq::<RegOp>::empty());
    assert(reg_reads_of(Seq::<RegOp>::empty()) == Seq::<u16>::empty());
    match op {
        RegOp::RegRead(v) => {
            assert(reg_reads_of(seq![op]) =~= seq![v]);
        },
        RegOp::RegWrite(v) => {
            assert(reg_reads_of(seq![op]) =~= Seq::<u16>::empty());
        },
    }
}

/// A run of writes only has no readings.
pub proof fn lemma_reg_reads_of_writes(ops: Seq<RegOp>)
    requires
        forall|j: int| 0 <= j < ops.len() ==> #[trigger] ops[j] is RegWrite,
    ensures
        reg_reads_of(ops) == Seq::<u16>::empty(),
    decreases ops.len(),
{
    if ops.len() > 0 {
        assert forall|j: int| 0 <= j < ops.drop_last().len() implies #[trigger] ops.drop_last()[j]
            is RegWrite by {
            assert(ops.drop_last()[j] == ops[j]);
        }
        lemma_reg_reads_of_writes(ops.drop_last());
        assert(ops[ops.len() - 1] is RegWrite);
    }
}

/// There are at most as many readings as operations.
pub proof fn lemma_reg_reads_of_len(ops: Seq<RegOp>)
    ensures
        reg_reads_of(ops).len() <= ops.len(),
    decreases ops.len(),
{
    if ops.len() > 0 {
        lemma_reg_reads_of_len(ops.drop_last());
    }
}

/// Filler payloads gained across an intermediate history compose.
pub proof fn lemma_shorts_compose(h0: Seq<BusEvent>, hmid: Seq<BusEvent>, he: Seq<BusEvent>)
    requires
        h0.is_prefix_of(hmid),
        hmid.is_prefix_of(he),
    ensures
        h0.is_prefix_of(he),
        short_payloads(events_since(he, h0)) == short_payloads(events_since(hmid, h0))
            + short_payloads(events_since(he, hmid)),
{
    lemma_gained_compose(h0, hmid, he);
    lemma_short_payloads_concat(events_since(hmid, h0), events_since(he, hmid));
}

/// Every filler unit — a 2-byte SPI write — goes out two events after an
/// observed ready sample: the closing wait of the end-fill readback that
/// produced it, with only the command deselect in between.
pub open spec fn filler_flow_controlled(t: Seq<BusEvent>) -> bool {
    forall|i: int|
        0 <= i < t.len() && #[trigger] t[i] is SpiOut && t[i]->SpiOut_bytes.len() == 2 ==> i >= 2
            && t[i - 2] == (BusEvent::DreqRead { high: true })
}

/// Filler flow control survives extension by a run without 2-byte writes.
pub proof fn lemma_ffc_extend(a: Seq<BusEvent>, b: Seq<BusEvent>)
    requires
        filler_flow_controlled(a),
        no_short_out(b),
    ensures
        filler_flow_controlled(a + b),
{
    assert forall|i: int|
        0 <= i < (a + b).len() && #[trigger] (a + b)[i] is SpiOut && (a + b)[i]->SpiOut_bytes.len()
            == 2 implies i >= 2 && (a + b)[i - 2] == (BusEvent::DreqRead { high: true }) by {
        if i < a.len() {
            assert((a + b)[i] == a[i]);
            assert((a + b)[i - 2] == a[i - 2]);
        } else {
            assert((a + b)[i] == b[i - a.len()]);
        }
    }
}

/// Transitivity of the prefix order on histories.
pub proof fn lemma_prefix_trans(a: Seq<BusEvent>, b: Seq<BusEvent>, c: Seq<BusEvent>)
    requires
        a.is_prefix_of(b),
        b.is_prefix_of(c),
    ensures
        a.is_prefix_of(c),
{
    assert(a =~= c.subrange(0, a.len() as int));
}

} // verus!
