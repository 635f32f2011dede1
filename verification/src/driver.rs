//! The VS1053 protocol driver.
//!
//! The driver owns a [`BusPort`] and speaks the chip's register and
//! streaming protocol over it: command/data mode signaling on the two
//! chip-select lines, fixed-length register frames, data-ready flow
//! control, the self-test sweep, the volume model and the bring-up
//! sequence.  Every method's contract describes the exact bus traffic it
//! performs, as a suffix appended to the port's event history.

use crate::bus::{
    all_spi_out_fast, be_bytes, event_reg_op, events_since, flow_controlled, hi_byte,
    lemma_concat_prefix, lemma_fast_concat, lemma_flow_concat, lemma_frame_extension,
    lemma_gained_compose, lemma_low_polls_quiet, lemma_prefix_split, lemma_quiet_extension,
    lemma_reg_traffic_concat, lemma_spi_out_payloads_concat, lemma_spi_out_payloads_quiet,
    lemma_extend_keeps_shorts, lemma_word16_be, lemma_word16_split,
    lo_byte, low_polls, no_select_events, no_short_out, quiet_events, read_command, ready_wait,
    reg_read_events, reg_traffic, reg_write_events, reset_events, short_payloads,
    spi_out_at_speed, spi_out_payloads, stream_events_shape,
    sweep_mismatches, traffic_confined, write_frame, BusEvent, BusPort, DSPError, RegOp,
};
use crate::chunks::{chunk_seqs, lemma_chunk_seqs_unfold};
use crate::volume::{lemma_volume_pair_bounded, spec_volume_word, volume_word};
use vstd::prelude::*;
use vstd::slice::{slice_index_get, slice_subrange};

verus! {

/// Hardware buffer granularity of the data interface, in bytes.
pub const VS1053_CHUNK_SIZE: usize = 32;

/// Bounded poll count for a data-ready wait (about two seconds at one
/// sample per millisecond).
pub const DREQ_POLL_LIMIT: u32 = 2000;

// SCI registers.
/// Mode control register.
pub const SCI_MODE: u8 = 0x0;
/// Status register.
pub const SCI_STATUS: u8 = 0x1;
/// Bass/treble control register.
pub const SCI_BASS: u8 = 0x2;
/// Clock frequency and multiplier register.
pub const SCI_CLOCKF: u8 = 0x3;
/// Decode audio rate register.
pub const SCI_AUDATA: u8 = 0x5;
/// RAM window data register.
pub const SCI_WRAM: u8 = 0x6;
/// RAM window address pointer register.
pub const SCI_WRAMADDR: u8 = 0x7;
/// Volume register, one attenuation byte per channel.
pub const SCI_VOL: u8 = 0xB;

// SCI_MODE bit positions.
/// Soft reset bit.
pub const SM_RESET: u16 = 2;
/// Cancel-decoding bit.
pub const SM_CANCEL: u16 = 3;
/// Native SPI mode bit, always kept on.
pub const SM_SDINEW: u16 = 11;
/// Line input selection bit.
pub const SM_LINE1: u16 = 14;

/// RAM address of the GPIO direction register.
pub const ADDR_REG_GPIO_DDR_RW: u16 = 0xc017;
/// RAM address of the GPIO output data register.
pub const ADDR_REG_GPIO_ODATA_RW: u16 = 0xc019;
/// RAM address of the end-fill-byte parameter.
pub const ADDR_END_FILL_BYTE: u16 = 0x1E06;

/// The history `post` extends `pre` by exactly one register read of
/// `address` answering `value`, with some in-bound ready wait.
pub open spec fn gained_reg_read(
    post: Seq<BusEvent>,
    pre: Seq<BusEvent>,
    address: u8,
    value: u16,
) -> bool {
    exists|k: nat|
        k < DREQ_POLL_LIMIT && post == pre + #[trigger] reg_read_events(address, value, k)
}

/// The history `post` extends `pre` by exactly one register write of
/// `value` to `reg` at the given speed, with some in-bound ready wait.
pub open spec fn gained_reg_write(
    post: Seq<BusEvent>,
    pre: Seq<BusEvent>,
    fast: bool,
    reg: u8,
    value: u16,
) -> bool {
    exists|k: nat|
        k < DREQ_POLL_LIMIT && post == pre + #[trigger] reg_write_events(fast, reg, value, k)
}

/// The two events that enter command mode: data select released, command
/// select asserted.
pub open spec fn mode_on_events() -> Seq<BusEvent> {
    seq![BusEvent::XdcsSet { high: true }, BusEvent::XcsSet { high: false }]
}

/// `post` is `base` with the command select released afterward — or
/// `base` itself, when the release attempt failed on the pin.
pub open spec fn with_release_attempt(post: Seq<BusEvent>, base: Seq<BusEvent>) -> bool {
    post == base.push(BusEvent::XcsSet { high: true }) || post == base
}

/// The history `post` extends `pre` by a register write whose trailing
/// ready wait stalled after `polls` not-ready samples, with the release
/// attempted on the command select.
pub open spec fn stalled_reg_write(
    post: Seq<BusEvent>,
    pre: Seq<BusEvent>,
    fast: bool,
    reg: u8,
    value: u16,
    polls: nat,
) -> bool {
    with_release_attempt(
        post,
        pre + (mode_on_events() + seq![BusEvent::SpiOut { fast, bytes: write_frame(reg, value) }]
            + low_polls(polls)),
    )
}

/// The history `post` extends `pre` by a register read — some response
/// came back — whose trailing ready wait stalled after `polls` not-ready
/// samples, with the release attempted on the command select.
pub open spec fn stalled_reg_read(
    post: Seq<BusEvent>,
    pre: Seq<BusEvent>,
    address: u8,
    polls: nat,
) -> bool {
    exists|v: u16|
        #![trigger be_bytes(v)]
        with_release_attempt(
            post,
            pre + (mode_on_events() + seq![
                BusEvent::SpiInOut { command: read_command(address), response: be_bytes(v) },
            ] + low_polls(polls)),
        )
}

/// The history `post` extends `pre` by a completed register write and
/// ready wait whose closing release failed on the pin.
pub open spec fn unreleased_reg_write(
    post: Seq<BusEvent>,
    pre: Seq<BusEvent>,
    fast: bool,
    reg: u8,
    value: u16,
) -> bool {
    exists|k: nat|
        k < DREQ_POLL_LIMIT && post == pre + (mode_on_events() + seq![
            BusEvent::SpiOut { fast, bytes: write_frame(reg, value) },
        ] + #[trigger] ready_wait(k))
}

/// The history `post` extends `pre` by a completed register read and
/// ready wait whose closing release failed on the pin.
pub open spec fn unreleased_reg_read(post: Seq<BusEvent>, pre: Seq<BusEvent>, address: u8) -> bool {
    exists|v: u16, k: nat|
        #![trigger be_bytes(v), ready_wait(k)]
        k < DREQ_POLL_LIMIT && post == pre + (mode_on_events() + seq![
            BusEvent::SpiInOut { command: read_command(address), response: be_bytes(v) },
        ] + ready_wait(k))
}

/// The self-test sweep's step size for a probe speed.
pub open spec fn spec_sweep_delta(probe: ProbeSpeed) -> u32 {
    match probe {
        ProbeSpeed::SlowProbe => 300,
        ProbeSpeed::FastProbe => 3,
    }
}

/// How many steps a complete sweep across the 16-bit range takes at a
/// probe speed's step size.
pub open spec fn spec_sweep_steps(probe: ProbeSpeed) -> int {
    match probe {
        ProbeSpeed::SlowProbe => 219,
        ProbeSpeed::FastProbe => 21845,
    }
}

/// The register-operation run of a self-test sweep at step size `delta`:
/// every complete triple is one write of the stepped value followed by
/// two readbacks.
pub open spec fn sweep_shaped(ops: Seq<RegOp>, delta: u32) -> bool {
    forall|j: int|
        0 <= j && 3 * j + 2 < ops.len() ==> #[trigger] ops[3 * j] == RegOp::RegWrite(
            ((j * delta) as u16),
        ) && ops[3 * j + 1] is RegRead && ops[3 * j + 2] is RegRead
}

/// Once a sweep has accumulated its 20th bad step it aborts: the 20th
/// mismatch sits in the run's final triple, so no traffic follows it.
pub open spec fn sweep_aborted_at_20(ops: Seq<RegOp>) -> bool {
    sweep_mismatches(ops) == 20 ==> ops.len() >= 3 && sweep_mismatches(
        ops.take(ops.len() - 3),
    ) == 19
}

/// A self-test run that went the whole way and found the link clean: the
/// opening ready sample was high, the sweep traffic holds no mismatch and
/// has the full step count for the probe, and the run ends with the last
/// readback's completed ready wait and release — no fault cut it short.
pub open spec fn clean_complete_sweep(t: Seq<BusEvent>, probe: ProbeSpeed) -> bool {
    &&& t.len() >= 2
    &&& t[0] == (BusEvent::DreqRead { high: true })
    &&& t[t.len() - 2] == (BusEvent::DreqRead { high: true })
    &&& t.last() == (BusEvent::XcsSet { high: true })
    &&& sweep_mismatches(reg_traffic(t, SCI_VOL)) == 0
    &&& reg_traffic(t, SCI_VOL).len() == 3 * spec_sweep_steps(probe)
}

/// A status reading a connected chip never produces: all-zero or all-one,
/// the two patterns of a dead or floating bus.
pub open spec fn spec_status_connected(status: u16) -> bool {
    status != 0 && status != 0xFFFF
}

/// The chip's version number: bits 4 to 7 of the status register.
pub open spec fn version_from_status(status: u16) -> u16 {
    (status & 0x00F0) >> 4
}

/// A status-register read that aborted on a fault: nothing was driven,
/// or the transaction failed after the command-mode entry, or the read
/// stalled waiting for readiness, or a select pin could not be driven —
/// each with the release attempt the register protocol makes.
pub open spec fn aborted_status_read(post: Seq<BusEvent>, pre: Seq<BusEvent>) -> bool {
    ||| post == pre
    ||| with_release_attempt(post, pre + mode_on_events())
    ||| stalled_reg_read(post, pre, SCI_STATUS, DREQ_POLL_LIMIT as nat)
    ||| exists|k: nat|
        k < DREQ_POLL_LIMIT && #[trigger] stalled_reg_read(post, pre, SCI_STATUS, k)
    ||| post == pre.push(BusEvent::XdcsSet { high: true })
    ||| unreleased_reg_read(post, pre, SCI_STATUS)
}

/// The tone register word: four nibbles packed high to low.
pub open spec fn spec_tone_value(s: Seq<u8>) -> u16 {
    ((s[0] & 0xF) * 4096 + (s[1] & 0xF) * 256 + (s[2] & 0xF) * 16 + (s[3] & 0xF)) as u16
}

/// Classifies a status-register reading: connected unless the bus read
/// back all zeroes or all ones.
pub fn chip_status_connected(status: u16) -> (connected: bool)
    ensures
        connected <==> spec_status_connected(status),
{
    !(status == 0 || status == 0xFFFF)
}

/// Extracts the chip version from a status-register reading.
pub fn chip_version_of(status: u16) -> (v: u16)
    ensures
        v == version_from_status(status),
{
    (status & 0x00F0) >> 4u16
}

/// The low nibble of a byte.
fn low_nibble(b: u8) -> (n: u8)
    ensures
        n == b & 0xF,
        n <= 15,
{
    assert((b & 0xF) <= 15) by (bit_vector);
    b & 0xF
}

/// The history `post` extends `pre` by a RAM-window write: the address
/// into the pointer register, then the data into the window register.
pub open spec fn gained_wram_write(
    post: Seq<BusEvent>,
    pre: Seq<BusEvent>,
    address: u16,
    data: u16,
) -> bool {
    exists|k1: nat, k2: nat|
        k1 < DREQ_POLL_LIMIT && k2 < DREQ_POLL_LIMIT && post == pre + #[trigger] reg_write_events(
            true,
            SCI_WRAMADDR,
            address,
            k1,
        ) + #[trigger] reg_write_events(true, SCI_WRAM, data, k2)
}

/// The history `post` extends `pre` by a RAM-window read answering
/// `value`: the address into the pointer register, then a read of the
/// window register.
pub open spec fn gained_wram_read(
    post: Seq<BusEvent>,
    pre: Seq<BusEvent>,
    address: u16,
    value: u16,
) -> bool {
    exists|k1: nat, k2: nat|
        k1 < DREQ_POLL_LIMIT && k2 < DREQ_POLL_LIMIT && post == pre + #[trigger] reg_write_events(
            true,
            SCI_WRAMADDR,
            address,
            k1,
        ) + #[trigger] reg_read_events(SCI_WRAM, value, k2)
}

/// The mode-register word of a soft reset: native SPI mode with the
/// reset bit asserted.
pub open spec fn mode_reset_word() -> u16 {
    (1u16 << SM_SDINEW) | (1u16 << SM_RESET)
}

/// The mode-register word of the steady state after bring-up: native SPI
/// mode with the line-input bit.
pub open spec fn mode_line_word() -> u16 {
    (1u16 << SM_SDINEW) | (1u16 << SM_LINE1)
}

/// The clock-register word of the bring-up: multiplier raised to 3.0.
pub open spec fn clockf_word() -> u16 {
    6u16 << 12
}

/// The history `post` extends `pre` by the full bring-up: the reset
/// signaling, a clean and complete slow self-test sweep (volume-register
/// traffic only), the audio rate and the clock multiplier written at the
/// slow clock, the steady-state mode word at the fast clock, a best-effort
/// fast self-test (again volume-register traffic only, with the closing
/// readiness wait), and the end-fill-byte readback as the final probe.
pub open spec fn gained_bringup(post: Seq<BusEvent>, pre: Seq<BusEvent>) -> bool {
    exists|h2: Seq<BusEvent>, h3: Seq<BusEvent>, h4: Seq<BusEvent>, h5: Seq<BusEvent>, h6: Seq<
        BusEvent,
    >|
        #![trigger gained_reg_write(h3, h2, false, SCI_AUDATA, 44101), gained_reg_write(
            h4,
            h3,
            false,
            SCI_CLOCKF,
            clockf_word(),
        ), gained_reg_write(h5, h4, true, SCI_MODE, mode_line_word()), events_since(h6, h5)]
        {
            &&& (pre + reset_events()).is_prefix_of(h2)
            &&& traffic_confined(events_since(h2, pre + reset_events()), SCI_VOL, SCI_VOL)
            &&& clean_complete_sweep(
                events_since(h2, pre + reset_events()),
                ProbeSpeed::SlowProbe,
            )
            &&& spi_out_at_speed(events_since(h2, pre + reset_events()), false)
            &&& gained_reg_write(h3, h2, false, SCI_AUDATA, 44101)
            &&& gained_reg_write(h4, h3, false, SCI_CLOCKF, clockf_word())
            &&& gained_reg_write(h5, h4, true, SCI_MODE, mode_line_word())
            &&& h5.is_prefix_of(h6)
            &&& traffic_confined(events_since(h6, h5), SCI_VOL, SCI_VOL)
            &&& spi_out_at_speed(events_since(h6, h5), true)
            &&& exists|efb: u16| gained_wram_read(post, h6, ADDR_END_FILL_BYTE, efb)
        }
}

/// The history `post` extends `pre` by a degraded bring-up: the reset
/// signaling, then only the failing slow self-test's volume-register
/// traffic — no other register is touched, the clock is never raised.
pub open spec fn gained_bringup_degraded(post: Seq<BusEvent>, pre: Seq<BusEvent>) -> bool {
    &&& (pre + reset_events()).is_prefix_of(post)
    &&& traffic_confined(events_since(post, pre + reset_events()), SCI_VOL, SCI_VOL)
    &&& !clean_complete_sweep(events_since(post, pre + reset_events()), ProbeSpeed::SlowProbe)
}

/// A bring-up that failed after the reset signaling did so only past a
/// clean, complete slow self-test: a failing self-test never raises an
/// error of its own.
pub open spec fn bringup_error_after_reset(post: Seq<BusEvent>, pre: Seq<BusEvent>) -> bool {
    exists|h: Seq<BusEvent>|
        #![trigger events_since(h, pre + reset_events())]
        (pre + reset_events()).is_prefix_of(h) && h.is_prefix_of(post) && clean_complete_sweep(
            events_since(h, pre + reset_events()),
            ProbeSpeed::SlowProbe,
        )
}

/// The mode-register word that asks the chip to cancel decoding: native
/// SPI mode with the cancel bit asserted.
pub open spec fn cancel_word() -> u16 {
    (1u16 << SM_SDINEW) | (1u16 << SM_CANCEL)
}

/// The history `post` extends `pre` by a soft reset: the reset word into
/// the mode register, then a completed wait for readiness.
pub open spec fn gained_soft_reset(post: Seq<BusEvent>, pre: Seq<BusEvent>) -> bool {
    exists|k1: nat, k2: nat|
        k1 < DREQ_POLL_LIMIT && k2 < DREQ_POLL_LIMIT && post == pre + #[trigger] reg_write_events(
            true,
            SCI_MODE,
            mode_reset_word(),
            k1,
        ) + #[trigger] ready_wait(k2)
}

/// The history `post` extends `pre` by the decode-mode switch: the GPIO
/// direction and output words into the chip's RAM, then a soft reset.
pub open spec fn gained_mp3_switch(post: Seq<BusEvent>, pre: Seq<BusEvent>) -> bool {
    exists|h1: Seq<BusEvent>, h2: Seq<BusEvent>|
        #[trigger] gained_wram_write(h1, pre, ADDR_REG_GPIO_DDR_RW, 3)
            && #[trigger] gained_wram_write(h2, h1, ADDR_REG_GPIO_ODATA_RW, 0) && gained_soft_reset(
            post,
            h2,
        )
}

/// The history `post` extends `pre` by one streamed chunk: the bytes at
/// the fast clock, then a completed wait for readiness.
pub open spec fn gained_chunk_out(post: Seq<BusEvent>, pre: Seq<BusEvent>, bytes: Seq<u8>) -> bool {
    exists|k: nat|
        k < DREQ_POLL_LIMIT && post == pre + seq![BusEvent::SpiOut { fast: true, bytes }]
            + #[trigger] ready_wait(k)
}

/// The history `post` extends `pre` by a streamed chunk whose trailing
/// wait for readiness did not complete.
pub open spec fn gained_chunk_partial(
    post: Seq<BusEvent>,
    pre: Seq<BusEvent>,
    bytes: Seq<u8>,
) -> bool {
    exists|k: nat|
        k <= DREQ_POLL_LIMIT && post == pre + seq![BusEvent::SpiOut { fast: true, bytes }]
            + #[trigger] low_polls(k)
}

/// The self-test sweep's step size: a coarse step at the slow bring-up
/// clock, a fine step once the bus is known fast-capable.
#[derive(Copy, Clone, Debug, PartialEq, Eq, Structural)]
pub enum ProbeSpeed {
    /// Coarse sweep during slow-bus bring-up.
    SlowProbe,
    /// Fine sweep once the fast clock is trusted.
    FastProbe,
}


/// The decoder chip driver: a hardware port plus the user-facing volume
/// and balance settings.
pub struct VS1053<P> {
    port: P,
    current_volume: u8,
    current_balance: i8,
}

impl<P: BusPort> VS1053<P> {
    /// The port's event history.
    pub closed spec fn hist(&self) -> Seq<BusEvent> {
        self.port.log()
    }

    /// The stored volume setting.
    pub closed spec fn volume(&self) -> u8 {
        self.current_volume
    }

    /// The stored balance setting.
    pub closed spec fn balance(&self) -> i8 {
        self.current_balance
    }

    /// The stored settings stay in their user-facing ranges.
    pub open spec fn wf(&self) -> bool {
        self.volume() <= 100 && -100 <= self.balance() && self.balance() <= 100
    }

    /// Takes ownership of the hardware port.  No bus traffic is performed;
    /// volume starts at 50, balance centered.
    pub fn new(port: P) -> (d: Self)
        ensures
            d.wf(),
            d.volume() == 50,
            d.balance() == 0,
            d.hist() == port.log(),
    {
        VS1053 { port, current_volume: 50, current_balance: 0 }
    }

    /// Borrows the hardware port, for inspection.
    pub fn port(&self) -> (p: &P)
        ensures
            p.log() == self.hist(),
    {
        &self.port
    }

    /// The current volume setting.
    pub fn get_volume(&mut self) -> (v: u8)
        ensures
            *final(self) == *old(self),
            v == old(self).volume(),
    {
        self.current_volume
    }

    /// The current balance setting.
    pub fn get_balance(&mut self) -> (b: i8)
        ensures
            *final(self) == *old(self),
            b == old(self).balance(),
    {
        self.current_balance
    }

    /// Stores a balance setting, clamping it into -100..=100.  No bus
    /// traffic is performed; the register is rewritten by the next volume
    /// update.
    pub fn set_balance(&mut self, balance: i16)
        ensures
            final(self).balance() == (if balance > 100 {
                100i8
            } else if balance < -100 {
                -100i8
            } else {
                balance as i8
            }),
            final(self).volume() == old(self).volume(),
            final(self).hist() == old(self).hist(),
            old(self).wf() ==> final(self).wf(),
    {
        if balance > 100 {
            self.current_balance = 100;
        } else if balance < -100 {
            self.current_balance = -100;
        } else {
            self.current_balance = balance as i8;
        }
    }

    /// Sets the volume on both channels.  The stored setting is updated
    /// first, then the two channel bytes of the volume model — skewed by
    /// the stored balance — are packed and written to the volume register.
    pub fn set_volume(&mut self, vol: u8) -> (r: Result<(), DSPError>)
        requires
            old(self).wf(),
            vol <= 100,
        ensures
            final(self).wf(),
            final(self).volume() == vol,
            final(self).balance() == old(self).balance(),
            old(self).hist().is_prefix_of(final(self).hist()),
            r is Ok ==> gained_reg_write(
                final(self).hist(),
                old(self).hist(),
                true,
                SCI_VOL,
                spec_volume_word(vol, old(self).balance()) as u16,
            ),
            traffic_confined(final(self).gained(old(self).hist()), SCI_VOL, SCI_VOL),
    {
        self.current_volume = vol;
        let word = volume_word(vol, self.current_balance);
        proof {
            lemma_volume_pair_bounded(vol, self.current_balance);
        }
        self.write_register(true, SCI_VOL, word)
    }

    /// Sets the bass/treble control from four nibbles, packed high to low
    /// into the tone register.
    pub fn set_tone(&mut self, rtone: &[u8]) -> (r: Result<(), DSPError>)
        requires
            rtone@.len() == 4,
        ensures
            final(self).volume() == old(self).volume(),
            final(self).balance() == old(self).balance(),
            old(self).hist().is_prefix_of(final(self).hist()),
            r is Ok ==> gained_reg_write(
                final(self).hist(),
                old(self).hist(),
                true,
                SCI_BASS,
                spec_tone_value(rtone@),
            ),
            traffic_confined(final(self).gained(old(self).hist()), SCI_BASS, SCI_BASS),
    {
        let n0 = low_nibble(*slice_index_get(rtone, 0));
        let n1 = low_nibble(*slice_index_get(rtone, 1));
        let n2 = low_nibble(*slice_index_get(rtone, 2));
        let n3 = low_nibble(*slice_index_get(rtone, 3));
        let value: u16 = (n0 as u16) * 4096 + (n1 as u16) * 256 + (n2 as u16) * 16 + (n3 as u16);
        self.write_register(true, SCI_BASS, value)
    }

    /// Brings the chip up: reset signaling on both selects with fixed
    /// holds, then the self-test at the slow bus clock.  Only if that
    /// passes are the audio rate and the clock multiplier raised and the
    /// bus switched to the fast clock, with a best-effort fast self-test,
    /// a readiness wait and an end-fill-byte readback as the final probe.
    /// A failing slow self-test leaves the chip in its degraded bring-up
    /// state without an error.
    pub fn begin(&mut self) -> (r: Result<(), DSPError>)
        ensures
            final(self).volume() == old(self).volume(),
            final(self).balance() == old(self).balance(),
            old(self).hist().is_prefix_of(final(self).hist()),
            r is Ok ==> final(self).gained(old(self).hist()).len() >= 6 && final(self).gained(
                old(self).hist(),
            ).subrange(0, 6) == reset_events(),
            r is Ok ==> gained_bringup(final(self).hist(), old(self).hist())
                || gained_bringup_degraded(final(self).hist(), old(self).hist()),
            r is Err ==> (final(self).gained(old(self).hist()).len() < 6 && final(self).gained(
                old(self).hist(),
            ) == reset_events().take(final(self).gained(old(self).hist()).len() as int) && (
            r->Err_0 == DSPError::UnableToSetCSPin || r->Err_0 == DSPError::UnableToSetDCSPin))
                || (final(self).gained(old(self).hist()).len() >= 6 && final(self).gained(
                old(self).hist(),
            ).subrange(0, 6) == reset_events() && bringup_error_after_reset(
                final(self).hist(),
                old(self).hist(),
            )),
    {
        let ghost h0 = self.hist();
        match self.port.set_xdcs(true) {
            Ok(_) => {},
            Err(e) => {
                proof {
                    assert(self.hist() =~= h0 + reset_events().take(0));
                    self.lemma_begin_reset_partial(h0, 0);
                }
                return Err(e);
            },
        }
        match self.port.set_xcs(true) {
            Ok(_) => {},
            Err(e) => {
                proof {
                    assert(self.hist() =~= h0 + reset_events().take(1));
                    self.lemma_begin_reset_partial(h0, 1);
                }
                return Err(e);
            },
        }
        self.port.delay_ms(100);
        match self.port.set_xdcs(false) {
            Ok(_) => {},
            Err(e) => {
                proof {
                    assert(self.hist() =~= h0 + reset_events().take(2));
                    self.lemma_begin_reset_partial(h0, 2);
                }
                return Err(e);
            },
        }
        match self.port.set_xcs(false) {
            Ok(_) => {},
            Err(e) => {
                proof {
                    assert(self.hist() =~= h0 + reset_events().take(3));
                    self.lemma_begin_reset_partial(h0, 3);
                }
                return Err(e);
            },
        }
        self.port.delay_ms(500);
        match self.port.set_xdcs(true) {
            Ok(_) => {},
            Err(e) => {
                proof {
                    assert(self.hist() =~= h0 + reset_events().take(4));
                    self.lemma_begin_reset_partial(h0, 4);
                }
                return Err(e);
            },
        }
        match self.port.set_xcs(true) {
            Ok(_) => {},
            Err(e) => {
                proof {
                    assert(self.hist() =~= h0 + reset_events().take(5));
                    self.lemma_begin_reset_partial(h0, 5);
                }
                return Err(e);
            },
        }
        self.port.delay_ms(500);
        let ghost h6 = self.hist();
        proof {
            assert(h6 =~= h0 + reset_events());
            crate::bus::lemma_events_since(h0, reset_events());
        }
        if self.test_comm(ProbeSpeed::SlowProbe) {
            let ghost h7 = self.hist();
            proof {
                crate::bus::lemma_prefix_trans(h0, h6, h7);
            }
            match self.write_register(false, SCI_AUDATA, 44101) {
                Ok(_) => {},
                Err(e) => {
                    proof {
                        crate::bus::lemma_prefix_trans(h0, h7, self.hist());
                        crate::bus::lemma_prefix_trans(h6, h7, self.hist());
                        self.lemma_begin_reset_head(h0, h6);
                        self.lemma_begin_err_after_sweep(h0, h6, h7);
                    }
                    return Err(e);
                },
            }
            let ghost h8 = self.hist();
            proof {
                crate::bus::lemma_prefix_trans(h0, h7, h8);
                crate::bus::lemma_prefix_trans(h6, h7, h8);
            }
            match self.write_register(false, SCI_CLOCKF, 6u16 << 12) {
                Ok(_) => {},
                Err(e) => {
                    proof {
                        crate::bus::lemma_prefix_trans(h0, h8, self.hist());
                        crate::bus::lemma_prefix_trans(h6, h8, self.hist());
                        crate::bus::lemma_prefix_trans(h7, h8, self.hist());
                        self.lemma_begin_reset_head(h0, h6);
                        self.lemma_begin_err_after_sweep(h0, h6, h7);
                    }
                    return Err(e);
                },
            }
            let ghost h9 = self.hist();
            proof {
                crate::bus::lemma_prefix_trans(h0, h8, h9);
                crate::bus::lemma_prefix_trans(h6, h8, h9);
                crate::bus::lemma_prefix_trans(h7, h8, h9);
            }
            let mode_val: u16 = (1u16 << SM_SDINEW) | (1u16 << SM_LINE1);
            match self.write_register(true, SCI_MODE, mode_val) {
                Ok(_) => {},
                Err(e) => {
                    proof {
                        crate::bus::lemma_prefix_trans(h0, h9, self.hist());
                        crate::bus::lemma_prefix_trans(h6, h9, self.hist());
                        crate::bus::lemma_prefix_trans(h7, h9, self.hist());
                        self.lemma_begin_reset_head(h0, h6);
                        self.lemma_begin_err_after_sweep(h0, h6, h7);
                    }
                    return Err(e);
                },
            }
            let ghost h10 = self.hist();
            proof {
                crate::bus::lemma_prefix_trans(h0, h9, h10);
                crate::bus::lemma_prefix_trans(h6, h9, h10);
                crate::bus::lemma_prefix_trans(h7, h9, h10);
            }
            let _ = self.test_comm(ProbeSpeed::FastProbe);
            let ghost h11 = self.hist();
            proof {
                crate::bus::lemma_prefix_trans(h0, h10, h11);
                crate::bus::lemma_prefix_trans(h6, h10, h11);
                crate::bus::lemma_prefix_trans(h7, h10, h11);
            }
            self.port.delay_ms(10);
            match self.await_data_request() {
                Ok(_) => {},
                Err(e) => {
                    proof {
                        assert(h11.is_prefix_of(self.hist())) by {
                            assert(h11 =~= self.hist().subrange(0, h11.len() as int));
                        }
                        crate::bus::lemma_prefix_trans(h0, h11, self.hist());
                        crate::bus::lemma_prefix_trans(h6, h11, self.hist());
                        crate::bus::lemma_prefix_trans(h7, h11, self.hist());
                        self.lemma_begin_reset_head(h0, h6);
                        self.lemma_begin_err_after_sweep(h0, h6, h7);
                    }
                    return Err(e);
                },
            }
            let ghost h12 = self.hist();
            proof {
                assert(h11.is_prefix_of(h12)) by {
                    assert(h11 =~= h12.subrange(0, h11.len() as int));
                }
                crate::bus::lemma_prefix_trans(h0, h11, h12);
                crate::bus::lemma_prefix_trans(h6, h11, h12);
                crate::bus::lemma_prefix_trans(h7, h11, h12);
            }
            let efb_probe = match self._wram_read(ADDR_END_FILL_BYTE) {
                Ok(v) => v,
                Err(e) => {
                    proof {
                        crate::bus::lemma_prefix_trans(h0, h12, self.hist());
                        crate::bus::lemma_prefix_trans(h6, h12, self.hist());
                        crate::bus::lemma_prefix_trans(h7, h12, self.hist());
                        self.lemma_begin_reset_head(h0, h6);
                        self.lemma_begin_err_after_sweep(h0, h6, h7);
                    }
                    return Err(e);
                },
            };
            proof {
                crate::bus::lemma_prefix_trans(h0, h12, self.hist());
                crate::bus::lemma_prefix_trans(h6, h12, self.hist());
                self.lemma_begin_reset_head(h0, h6);
                // The fast self-test and the readiness wait touch only the
                // volume register between the mode write and the probe.
                let kk: nat = choose|k: nat|
                    k < DREQ_POLL_LIMIT && h12 == h11 + #[trigger] ready_wait(k);
                assert(h12 =~= h11 + ready_wait(kk));
                lemma_low_polls_quiet(kk);
                lemma_quiet_extension(h11, ready_wait(kk));
                assert(traffic_confined(events_since(h12, h11), SCI_VOL, SCI_VOL));
                crate::bus::lemma_confined_compose(h10, h11, h12, SCI_VOL, SCI_VOL);
                assert(gained_wram_read(self.hist(), h12, ADDR_END_FILL_BYTE, efb_probe));
                assert((h0 + reset_events()).is_prefix_of(h7));
                assert(traffic_confined(
                    events_since(h7, h0 + reset_events()),
                    SCI_VOL,
                    SCI_VOL,
                ));
                assert(events_since(h7, h0 + reset_events()) == events_since(h7, h6));
                assert(clean_complete_sweep(
                    events_since(h7, h0 + reset_events()),
                    ProbeSpeed::SlowProbe,
                ));
                assert(spi_out_at_speed(events_since(h7, h0 + reset_events()), false));
                lemma_gained_compose(h10, h11, h12);
                assert(spi_out_at_speed(events_since(h11, h10), true));
                assert(spi_out_at_speed(events_since(h12, h11), true)) by {
                    assert(forall|i: int|
                        0 <= i < events_since(h12, h11).len() ==> !(#[trigger] events_since(
                            h12,
                            h11,
                        )[i] is SpiOut));
                }
                crate::bus::lemma_spi_speed_concat(
                    events_since(h11, h10),
                    events_since(h12, h11),
                    true,
                );
                assert(gained_reg_write(h8, h7, false, SCI_AUDATA, 44101));
                assert(gained_reg_write(h9, h8, false, SCI_CLOCKF, clockf_word()));
                assert(gained_reg_write(h10, h9, true, SCI_MODE, mode_line_word()));
                assert(gained_bringup(self.hist(), h0));
            }
            self.port.delay_ms(100);
            return Ok(());
        }
        proof {
            crate::bus::lemma_prefix_trans(h0, h6, self.hist());
            self.lemma_begin_reset_head(h0, h6);
            assert((h0 + reset_events()).is_prefix_of(self.hist()));
            assert(traffic_confined(
                events_since(self.hist(), h0 + reset_events()),
                SCI_VOL,
                SCI_VOL,
            ));
            assert(events_since(self.hist(), h0 + reset_events()) == events_since(
                self.hist(),
                h6,
            ));
            assert(!clean_complete_sweep(
                events_since(self.hist(), h0 + reset_events()),
                ProbeSpeed::SlowProbe,
            ));
            assert(gained_bringup_degraded(self.hist(), h0));
        }
        Ok(())
    }

    /// An error past the reset signaling and the slow self-test certifies
    /// that the self-test had passed: the clean complete sweep sits right
    /// after the reset head.
    proof fn lemma_begin_err_after_sweep(
        &self,
        h0: Seq<BusEvent>,
        h6: Seq<BusEvent>,
        h7: Seq<BusEvent>,
    )
        requires
            h6 == h0 + reset_events(),
            h6.is_prefix_of(h7),
            h7.is_prefix_of(self.hist()),
            clean_complete_sweep(events_since(h7, h6), ProbeSpeed::SlowProbe),
        ensures
            bringup_error_after_reset(self.hist(), h0),
    {
        assert(events_since(h7, h0 + reset_events()) == events_since(h7, h6));
        assert(clean_complete_sweep(
            events_since(h7, h0 + reset_events()),
            ProbeSpeed::SlowProbe,
        ));
        assert((h0 + reset_events()).is_prefix_of(h7));
    }

    /// A failed drive during the reset signaling leaves exactly the head
    /// of the reset sequence in the gained events.
    proof fn lemma_begin_reset_partial(&self, h0: Seq<BusEvent>, n: int)
        requires
            0 <= n < 6,
            self.hist() == h0 + reset_events().take(n),
        ensures
            h0.is_prefix_of(self.hist()),
            events_since(self.hist(), h0) == reset_events().take(n),
            events_since(self.hist(), h0).len() < 6,
    {
        crate::bus::lemma_events_since(h0, reset_events().take(n));
    }

    /// Once the reset signaling stands at the head of the gained events,
    /// any further extension keeps it there.
    proof fn lemma_begin_reset_head(&self, h0: Seq<BusEvent>, h6: Seq<BusEvent>)
        requires
            h6 == h0 + reset_events(),
            h6.is_prefix_of(self.hist()),
            h0.is_prefix_of(self.hist()),
        ensures
            events_since(self.hist(), h0).len() >= 6,
            events_since(self.hist(), h0).subrange(0, 6) == reset_events(),
    {
        lemma_prefix_split(h6, self.hist());
        let rest = events_since(self.hist(), h6);
        assert(self.hist() =~= h0 + (reset_events() + rest));
        crate::bus::lemma_events_since(h0, reset_events() + rest);
        assert(events_since(self.hist(), h0).subrange(0, 6) =~= reset_events());
    }

    /// The self-test of the SPI link: checks that the data-ready line is
    /// asserted at all — a silent line means no chip is present — then
    /// sweeps the volume register, reused as a scratch register, across
    /// its 16-bit range at the probe's step size, writing each value at
    /// the probe's bus clock and reading it back twice.  A step is bad
    /// when a readback differs; the sweep aborts once 20 bad steps have
    /// accumulated, and the test passes exactly when the sweep ran to
    /// completion with zero bad steps.  Any fault fails the test.
    #[verifier::rlimit(60)]
    pub fn test_comm(&mut self, probe: ProbeSpeed) -> (r: bool)
        ensures
            final(self).volume() == old(self).volume(),
            final(self).balance() == old(self).balance(),
            old(self).hist().is_prefix_of(final(self).hist()),
            traffic_confined(final(self).gained(old(self).hist()), SCI_VOL, SCI_VOL),
            sweep_mismatches(reg_traffic(final(self).gained(old(self).hist()), SCI_VOL)) <= 20,
            r ==> final(self).gained(old(self).hist()).len() >= 1 && final(self).gained(
                old(self).hist(),
            )[0] == (BusEvent::DreqRead { high: true }) && sweep_mismatches(
                reg_traffic(final(self).gained(old(self).hist()), SCI_VOL),
            ) == 0,
            sweep_mismatches(reg_traffic(final(self).gained(old(self).hist()), SCI_VOL)) >= 1
                ==> !r,
            r ==> reg_traffic(final(self).gained(old(self).hist()), SCI_VOL).len() == 3
                * spec_sweep_steps(probe),
            sweep_shaped(
                reg_traffic(final(self).gained(old(self).hist()), SCI_VOL),
                spec_sweep_delta(probe),
            ),
            sweep_aborted_at_20(reg_traffic(final(self).gained(old(self).hist()), SCI_VOL)),
            final(self).gained(old(self).hist()).len() > 0 ==> final(self).gained(
                old(self).hist(),
            )[0] is DreqRead,
            spi_out_at_speed(
                final(self).gained(old(self).hist()),
                probe == ProbeSpeed::FastProbe,
            ),
            r <==> clean_complete_sweep(final(self).gained(old(self).hist()), probe),
            ({
                let g = final(self).gained(old(self).hist());
                g.len() >= 1 && g[0] == (BusEvent::DreqRead { high: false })
            }) ==> final(self).gained(old(self).hist()) == seq![
                BusEvent::DreqRead { high: false },
            ] && !r && reg_traffic(final(self).gained(old(self).hist()), SCI_VOL) == Seq::<
                RegOp,
            >::empty(),
    {
        let ghost h0 = self.hist();
        let dreq_level = match self.port.read_dreq() {
            Ok(b) => b,
            Err(_) => {
                proof {
                    assert(self.hist() =~= h0 + Seq::<BusEvent>::empty());
                    lemma_quiet_extension(h0, Seq::<BusEvent>::empty());
                    assert(self.gained(h0).len() == 0);
                    assert(!clean_complete_sweep(self.gained(h0), probe));
                }
                return false;
            },
        };
        if !dreq_level {
            proof {
                assert(self.hist() =~= h0 + seq![BusEvent::DreqRead { high: false }]);
                lemma_quiet_extension(h0, seq![BusEvent::DreqRead { high: false }]);
                assert(reg_traffic(self.gained(h0), SCI_VOL) == Seq::<RegOp>::empty());
                assert(self.gained(h0).len() == 1);
                assert(!clean_complete_sweep(self.gained(h0), probe));
                assert(self.gained(h0)[0] == (BusEvent::DreqRead { high: false }));
            }
            return false;
        }
        let ghost hd = self.hist();
        proof {
            assert(hd == h0.push(BusEvent::DreqRead { high: true }));
            assert(hd =~= hd + (Seq::<BusEvent>::empty() + Seq::<BusEvent>::empty()));
            assert(h0.is_prefix_of(hd)) by {
                assert(h0 =~= hd.subrange(0, h0.len() as int));
            }
            assert(events_since(hd, hd) =~= Seq::<BusEvent>::empty());
            assert(reg_traffic(Seq::<BusEvent>::empty(), SCI_VOL) == Seq::<RegOp>::empty());
            assert(crate::bus::sweep_mismatches(Seq::<RegOp>::empty()) == 0);
        }
        let delta: u32 = match probe {
            ProbeSpeed::SlowProbe => 300,
            ProbeSpeed::FastProbe => 3,
        };
        let fast_clock: bool = match probe {
            ProbeSpeed::SlowProbe => false,
            ProbeSpeed::FastProbe => true,
        };
        let mut cnt: u32 = 0;
        let mut value: u32 = 0;
        let ghost mut steps: int = 0;
        while value < 0xFFFF && cnt < 20
            invariant
                h0 == old(self).hist(),
                hd == h0.push(BusEvent::DreqRead { high: true }),
                h0.is_prefix_of(hd),
                hd.is_prefix_of(self.hist()),
                self.volume() == old(self).volume(),
                self.balance() == old(self).balance(),
                delta == 300 || delta == 3,
                delta == spec_sweep_delta(probe),
                fast_clock == (probe == ProbeSpeed::FastProbe),
                cnt <= 20,
                value <= 0xFFFF + 300,
                steps >= 0,
                value == delta * steps,
                value < 0xFFFF + delta,
                reg_traffic(events_since(self.hist(), hd), SCI_VOL).len() == 3 * steps,
                reg_traffic(events_since(self.hist(), hd), SCI_VOL).len() % 3 == 0,
                sweep_mismatches(reg_traffic(events_since(self.hist(), hd), SCI_VOL)) == cnt,
                traffic_confined(events_since(self.hist(), hd), SCI_VOL, SCI_VOL),
                sweep_shaped(reg_traffic(events_since(self.hist(), hd), SCI_VOL), delta),
                spi_out_at_speed(events_since(self.hist(), hd), fast_clock),
                steps > 0 ==> ({
                    let t = events_since(self.hist(), hd);
                    t.len() >= 2 && t[t.len() - 2] == (BusEvent::DreqRead { high: true })
                        && t.last() == (BusEvent::XcsSet { high: true })
                }),
                cnt == 20 ==> reg_traffic(events_since(self.hist(), hd), SCI_VOL).len() >= 3
                    && sweep_mismatches(
                    reg_traffic(events_since(self.hist(), hd), SCI_VOL).take(
                        reg_traffic(events_since(self.hist(), hd), SCI_VOL).len() - 3,
                    ),
                ) == 19,
            decreases 0xFFFF + 300 - value,
        {
            let ghost ha = self.hist();
            let ghost base = reg_traffic(events_since(ha, hd), SCI_VOL);
            let wrote: u16 = value as u16;
            match self.write_register(fast_clock, SCI_VOL, wrote) {
                Ok(_) => {},
                Err(_) => {
                    proof {
                        crate::bus::lemma_confined_compose(hd, ha, self.hist(), SCI_VOL, SCI_VOL);
                        lemma_gained_compose(hd, ha, self.hist());
                        let t = reg_traffic(events_since(self.hist(), ha), SCI_VOL);
                        crate::bus::lemma_sweep_append(base, t);
                        assert(sweep_mismatches(t) == 0);
                        let combined = reg_traffic(events_since(self.hist(), hd), SCI_VOL);
                        assert forall|j: int|
                            0 <= j && 3 * j + 2 < combined.len() implies #[trigger] combined[3 * j]
                            == RegOp::RegWrite(((j * delta) as u16)) && combined[3 * j + 1]
                            is RegRead && combined[3 * j + 2] is RegRead by {
                            assert(combined[3 * j] == base[3 * j]);
                            assert(combined[3 * j + 1] == base[3 * j + 1]);
                            assert(combined[3 * j + 2] == base[3 * j + 2]);
                        }
                        crate::bus::lemma_spi_speed_concat(
                            events_since(ha, hd),
                            events_since(self.hist(), ha),
                            fast_clock,
                        );
                        self.lemma_comm_exit(h0, hd, fast_clock);
                        if delta == 300 {
                            assert(steps <= 218);
                        } else {
                            assert(steps <= 21844);
                        }
                        assert(combined.len() < 3 * spec_sweep_steps(probe));
                        assert(!clean_complete_sweep(events_since(self.hist(), h0), probe));
                    }
                    return false;
                },
            }
            let ghost hb = self.hist();
            let r1 = match self.read_register(SCI_VOL) {
                Ok(v) => v,
                Err(_) => {
                    proof {
                        crate::bus::lemma_confined_compose(hd, ha, hb, SCI_VOL, SCI_VOL);
                        crate::bus::lemma_confined_compose(hd, hb, self.hist(), SCI_VOL, SCI_VOL);
                        lemma_gained_compose(hd, ha, hb);
                        lemma_gained_compose(hd, hb, self.hist());
                        let t = reg_traffic(events_since(self.hist(), hb), SCI_VOL);
                        let tw = reg_traffic(events_since(hb, ha), SCI_VOL);
                        assert(reg_traffic(events_since(self.hist(), hd), SCI_VOL) =~= base + (tw
                            + t));
                        crate::bus::lemma_sweep_append(base, tw + t);
                        assert(sweep_mismatches(tw + t) == 0);
                        let combined = reg_traffic(events_since(self.hist(), hd), SCI_VOL);
                        assert forall|j: int|
                            0 <= j && 3 * j + 2 < combined.len() implies #[trigger] combined[3 * j]
                            == RegOp::RegWrite(((j * delta) as u16)) && combined[3 * j + 1]
                            is RegRead && combined[3 * j + 2] is RegRead by {
                            assert(combined[3 * j] == base[3 * j]);
                            assert(combined[3 * j + 1] == base[3 * j + 1]);
                            assert(combined[3 * j + 2] == base[3 * j + 2]);
                        }
                        assert(spi_out_at_speed(events_since(self.hist(), hb), fast_clock));
                        crate::bus::lemma_spi_speed_concat(
                            events_since(ha, hd),
                            events_since(hb, ha),
                            fast_clock,
                        );
                        crate::bus::lemma_spi_speed_concat(
                            events_since(hb, hd),
                            events_since(self.hist(), hb),
                            fast_clock,
                        );
                        self.lemma_comm_exit(h0, hd, fast_clock);
                        if delta == 300 {
                            assert(steps <= 218);
                        } else {
                            assert(steps <= 21844);
                        }
                        assert(combined.len() < 3 * spec_sweep_steps(probe));
                        assert(!clean_complete_sweep(events_since(self.hist(), h0), probe));
                    }
                    return false;
                },
            };
            let ghost hc = self.hist();
            let r2 = match self.read_register(SCI_VOL) {
                Ok(v) => v,
                Err(e) => {
                    proof {
                        crate::bus::lemma_confined_compose(hd, ha, hb, SCI_VOL, SCI_VOL);
                        crate::bus::lemma_confined_compose(hd, hb, hc, SCI_VOL, SCI_VOL);
                        crate::bus::lemma_confined_compose(hd, hc, self.hist(), SCI_VOL, SCI_VOL);
                        let tw = reg_traffic(events_since(hb, ha), SCI_VOL);
                        let t1 = reg_traffic(events_since(hc, hb), SCI_VOL);
                        let t2 = reg_traffic(events_since(self.hist(), hc), SCI_VOL);
                        assert(reg_traffic(events_since(self.hist(), hd), SCI_VOL) =~= base + (tw
                            + t1 + t2));
                        crate::bus::lemma_sweep_append(base, tw + t1 + t2);
                        crate::bus::lemma_sweep_bound(tw + t1 + t2);
                        let combined = reg_traffic(events_since(self.hist(), hd), SCI_VOL);
                        assert(steps * delta == delta * steps) by (nonlinear_arith);
                        assert forall|j: int|
                            0 <= j && 3 * j + 2 < combined.len() implies #[trigger] combined[3 * j]
                            == RegOp::RegWrite(((j * delta) as u16)) && combined[3 * j + 1]
                            is RegRead && combined[3 * j + 2] is RegRead by {
                            if j < steps {
                                assert(combined[3 * j] == base[3 * j]);
                                assert(combined[3 * j + 1] == base[3 * j + 1]);
                                assert(combined[3 * j + 2] == base[3 * j + 2]);
                            } else {
                                assert(j == steps);
                                assert(combined[3 * j] == (tw + t1 + t2)[0]);
                                assert((tw + t1 + t2)[0] == tw[0]);
                                assert(combined[3 * j + 1] == (tw + t1 + t2)[1]);
                                assert((tw + t1 + t2)[1] == t1[0]);
                                assert(combined[3 * j + 2] == (tw + t1 + t2)[2]);
                                assert((tw + t1 + t2)[2] == t2[0]);
                            }
                        }
                        if sweep_mismatches(combined) == 20 {
                            assert(cnt == 19 && sweep_mismatches(tw + t1 + t2) == 1);
                            assert((tw + t1 + t2).len() == 3) by {
                                if (tw + t1 + t2).len() < 3 {
                                    assert(sweep_mismatches(tw + t1 + t2) == 0);
                                }
                            }
                            assert(combined.take(combined.len() - 3) =~= base);
                        }
                        lemma_gained_compose(hd, ha, hb);
                        lemma_gained_compose(hd, hb, hc);
                        lemma_gained_compose(hd, hc, self.hist());
                        assert(spi_out_at_speed(events_since(hc, hb), fast_clock));
                        assert(spi_out_at_speed(events_since(self.hist(), hc), fast_clock));
                        crate::bus::lemma_spi_speed_concat(
                            events_since(ha, hd),
                            events_since(hb, ha),
                            fast_clock,
                        );
                        crate::bus::lemma_spi_speed_concat(
                            events_since(hb, hd),
                            events_since(hc, hb),
                            fast_clock,
                        );
                        crate::bus::lemma_spi_speed_concat(
                            events_since(hc, hd),
                            events_since(self.hist(), hc),
                            fast_clock,
                        );
                        self.lemma_comm_exit(h0, hd, fast_clock);
                        assert(combined.len() == 3 * steps + 2 + t2.len());
                        self.lemma_comm_abort_not_clean(h0, hc, e, probe, delta, steps, combined);
                    }
                    return false;
                },
            };
            let bad = r1 != r2 || wrote != r1 || wrote != r2;
            if bad {
                cnt = cnt + 1;
                self.port.delay_ms(10);
            }
            proof {
                crate::bus::lemma_confined_compose(hd, ha, hb, SCI_VOL, SCI_VOL);
                crate::bus::lemma_confined_compose(hd, hb, hc, SCI_VOL, SCI_VOL);
                crate::bus::lemma_confined_compose(hd, hc, self.hist(), SCI_VOL, SCI_VOL);
                let step = seq![
                    RegOp::RegWrite(wrote),
                    RegOp::RegRead(r1),
                    RegOp::RegRead(r2),
                ];
                assert(reg_traffic(events_since(self.hist(), hd), SCI_VOL) =~= base + step);
                crate::bus::lemma_sweep_append(base, step);
                crate::bus::lemma_sweep_triple(wrote, r1, r2);
                assert(crate::bus::step_mismatch(wrote, r1, r2) == bad);
                let combined = reg_traffic(events_since(self.hist(), hd), SCI_VOL);
                assert(steps * delta == delta * steps) by (nonlinear_arith);
                assert forall|j: int|
                    0 <= j && 3 * j + 2 < combined.len() implies #[trigger] combined[3 * j]
                    == RegOp::RegWrite(((j * delta) as u16)) && combined[3 * j + 1] is RegRead
                    && combined[3 * j + 2] is RegRead by {
                    if j < steps {
                        assert(combined[3 * j] == base[3 * j]);
                        assert(combined[3 * j + 1] == base[3 * j + 1]);
                        assert(combined[3 * j + 2] == base[3 * j + 2]);
                    } else {
                        assert(j == steps);
                        assert(combined[3 * j] == step[0]);
                        assert(combined[3 * j + 1] == step[1]);
                        assert(combined[3 * j + 2] == step[2]);
                    }
                }
                if cnt == 20 {
                    assert(combined.take(combined.len() - 3) =~= base);
                    assert(sweep_mismatches(combined.take(combined.len() - 3)) == 19);
                }
                lemma_gained_compose(hd, ha, hb);
                lemma_gained_compose(hd, hb, hc);
                lemma_gained_compose(hd, hc, self.hist());
                assert(spi_out_at_speed(events_since(hc, hb), fast_clock));
                assert(spi_out_at_speed(events_since(self.hist(), hc), fast_clock));
                crate::bus::lemma_spi_speed_concat(
                    events_since(ha, hd),
                    events_since(hb, ha),
                    fast_clock,
                );
                crate::bus::lemma_spi_speed_concat(
                    events_since(hb, hd),
                    events_since(hc, hb),
                    fast_clock,
                );
                crate::bus::lemma_spi_speed_concat(
                    events_since(hc, hd),
                    events_since(self.hist(), hc),
                    fast_clock,
                );
                let kk3: nat = choose|k: nat|
                    k < DREQ_POLL_LIMIT && self.hist() == hc + #[trigger] reg_read_events(
                        SCI_VOL,
                        r2,
                        k,
                    );
                let rr = reg_read_events(SCI_VOL, r2, kk3);
                assert(rr.len() == 5 + kk3);
                assert(rr[rr.len() - 1] == (BusEvent::XcsSet { high: true }));
                assert(rr[rr.len() - 2] == ready_wait(kk3)[kk3 as int]);
                assert(ready_wait(kk3)[kk3 as int] == (BusEvent::DreqRead { high: true }));
                let tnew = events_since(self.hist(), hd);
                assert(tnew.len() >= 2);
                assert(tnew[tnew.len() - 1] == self.hist()[self.hist().len() - 1]);
                assert(tnew[tnew.len() - 2] == self.hist()[self.hist().len() - 2]);
                assert(self.hist()[self.hist().len() - 1] == rr[rr.len() - 1]);
                assert(self.hist()[self.hist().len() - 2] == rr[rr.len() - 2]);
            }
            value = value + delta;
            proof {
                steps = steps + 1;
                assert(delta * steps == delta * (steps - 1) + delta) by (nonlinear_arith);
            }
        }
        let result = cnt == 0;
        proof {
            self.lemma_comm_exit(h0, hd, fast_clock);
            let g = events_since(self.hist(), h0);
            let t = events_since(self.hist(), hd);
            if result {
                assert(value >= 0xFFFF);
                if delta == 300 {
                    assert(steps == 219);
                } else {
                    assert(steps == 21845);
                }
                assert(steps > 0);
                assert(g.len() == 1 + t.len());
                assert(g[g.len() - 1] == t[t.len() - 1]);
                assert(g[g.len() - 2] == t[t.len() - 2]);
                assert(clean_complete_sweep(g, probe));
            } else {
                assert(sweep_mismatches(reg_traffic(g, SCI_VOL)) == cnt);
                assert(!clean_complete_sweep(g, probe));
            }
        }
        result
    }

    /// A self-test aborted by a fault in a step's second readback is never
    /// a clean complete sweep: either its register traffic is short of the
    /// full step count, or the fault's own trace ending — a stall, a bare
    /// frame, or a missing release — breaks the completed-sweep shape.
    proof fn lemma_comm_abort_not_clean(
        &self,
        h0: Seq<BusEvent>,
        hc: Seq<BusEvent>,
        e: DSPError,
        probe: ProbeSpeed,
        delta: u32,
        steps: int,
        combined: Seq<RegOp>,
    )
        requires
            h0.is_prefix_of(hc),
            hc.is_prefix_of(self.hist()),
            reg_traffic(events_since(self.hist(), h0), SCI_VOL) == combined,
            combined.len() == 3 * steps + 2 + reg_traffic(
                events_since(self.hist(), hc),
                SCI_VOL,
            ).len(),
            reg_traffic(events_since(self.hist(), hc), SCI_VOL).len() <= 1,
            delta == spec_sweep_delta(probe),
            steps >= 0,
            delta * steps < 0xFFFF,
            e == DSPError::UnableToSetDCSPin ==> self.hist() == hc,
            e == DSPError::Spi ==> with_release_attempt(self.hist(), hc + mode_on_events()),
            e == DSPError::DataRequestTimeout ==> stalled_reg_read(
                self.hist(),
                hc,
                SCI_VOL,
                DREQ_POLL_LIMIT as nat,
            ),
            e == DSPError::UnableToGetDREQPin ==> exists|k: nat|
                k < DREQ_POLL_LIMIT && #[trigger] stalled_reg_read(self.hist(), hc, SCI_VOL, k),
            e == DSPError::UnableToSetCSPin ==> self.hist() == hc.push(
                BusEvent::XdcsSet { high: true },
            ) || unreleased_reg_read(self.hist(), hc, SCI_VOL),
        ensures
            !clean_complete_sweep(events_since(self.hist(), h0), probe),
    {
        let g = events_since(self.hist(), h0);
        let t2len = reg_traffic(events_since(self.hist(), hc), SCI_VOL).len();
        if delta == 300 {
            assert(steps <= 218);
        } else {
            assert(steps <= 21844);
        }
        if combined.len() != 3 * spec_sweep_steps(probe) || g.len() < 2 {
        } else {
            assert(g.len() == self.hist().len() - h0.len());
            assert(g[g.len() - 1] == self.hist()[self.hist().len() - 1]);
            assert(g[g.len() - 2] == self.hist()[self.hist().len() - 2]);
            // The traffic can only reach the full count with a recorded
            // response, so the fault struck at or after the stalled wait.
            assert(t2len == 1);
            if e == DSPError::UnableToSetDCSPin {
                assert(events_since(self.hist(), hc) =~= Seq::<BusEvent>::empty());
                assert(reg_traffic(events_since(self.hist(), hc), SCI_VOL) == Seq::<
                    RegOp,
                >::empty());
            } else if e == DSPError::Spi {
                let pins = mode_on_events();
                if self.hist() == hc + pins {
                    assert(events_since(self.hist(), hc) =~= pins);
                } else {
                    assert(events_since(self.hist(), hc) =~= pins.push(
                        BusEvent::XcsSet { high: true },
                    ));
                }
                self.lemma_quietish_traffic_empty(hc);
            } else if e == DSPError::DataRequestTimeout {
                let v = choose|v: u16|
                    #![trigger be_bytes(v)]
                    with_release_attempt(
                        self.hist(),
                        hc + (mode_on_events() + seq![
                            BusEvent::SpiInOut {
                                command: read_command(SCI_VOL),
                                response: be_bytes(v),
                            },
                        ] + low_polls(DREQ_POLL_LIMIT as nat)),
                    );
                self.lemma_stall_ending_breaks_sweep(h0, hc, v, DREQ_POLL_LIMIT as nat);
            } else if e == DSPError::UnableToGetDREQPin {
                let k = choose|k: nat|
                    k < DREQ_POLL_LIMIT && #[trigger] stalled_reg_read(
                        self.hist(),
                        hc,
                        SCI_VOL,
                        k,
                    );
                let v = choose|v: u16|
                    #![trigger be_bytes(v)]
                    with_release_attempt(
                        self.hist(),
                        hc + (mode_on_events() + seq![
                            BusEvent::SpiInOut {
                                command: read_command(SCI_VOL),
                                response: be_bytes(v),
                            },
                        ] + low_polls(k)),
                    );
                self.lemma_stall_ending_breaks_sweep(h0, hc, v, k);
            } else {
                assert(e == DSPError::UnableToSetCSPin);
                if self.hist() == hc.push(BusEvent::XdcsSet { high: true }) {
                    assert(events_since(self.hist(), hc) =~= seq![
                        BusEvent::XdcsSet { high: true },
                    ]);
                    self.lemma_quietish_traffic_empty(hc);
                } else {
                    let (v, k): (u16, nat) = choose|v: u16, k: nat|
                        #![trigger be_bytes(v), ready_wait(k)]
                        k < DREQ_POLL_LIMIT && self.hist() == hc + (mode_on_events() + seq![
                            BusEvent::SpiInOut {
                                command: read_command(SCI_VOL),
                                response: be_bytes(v),
                            },
                        ] + ready_wait(k));
                    let x = mode_on_events() + seq![
                        BusEvent::SpiInOut {
                            command: read_command(SCI_VOL),
                            response: be_bytes(v),
                        },
                    ] + ready_wait(k);
                    assert(x.len() == 4 + k);
                    assert(x[x.len() - 1] == ready_wait(k)[k as int]);
                    assert(ready_wait(k)[k as int] == (BusEvent::DreqRead { high: true }));
                    assert(self.hist()[self.hist().len() - 1] == x[x.len() - 1]);
                    assert(g.last() != (BusEvent::XcsSet { high: true }));
                }
            }
        }
    }

    /// A quiet extension of the history carries no register traffic; used
    /// to rule traffic out of pin-only fault tails.
    proof fn lemma_quietish_traffic_empty(&self, hc: Seq<BusEvent>)
        requires
            forall|i: int|
                0 <= i < events_since(self.hist(), hc).len() ==> !(#[trigger] events_since(
                    self.hist(),
                    hc,
                )[i] is SpiOut) && !(events_since(self.hist(), hc)[i] is SpiInOut),
        ensures
            reg_traffic(events_since(self.hist(), hc), SCI_VOL) == Seq::<RegOp>::empty(),
    {
        crate::bus::lemma_reg_traffic_quiet(events_since(self.hist(), hc), SCI_VOL);
    }

    /// A read that stalled waiting for readiness leaves a run whose ending
    /// cannot be a completed sweep's: the sample before the optional
    /// release is not ready, and without the release the run does not end
    /// on the command deselect.
    proof fn lemma_stall_ending_breaks_sweep(
        &self,
        h0: Seq<BusEvent>,
        hc: Seq<BusEvent>,
        v: u16,
        k: nat,
    )
        requires
            h0.is_prefix_of(hc),
            hc.is_prefix_of(self.hist()),
            with_release_attempt(
                self.hist(),
                hc + (mode_on_events() + seq![
                    BusEvent::SpiInOut { command: read_command(SCI_VOL), response: be_bytes(v) },
                ] + low_polls(k)),
            ),
        ensures
            !(events_since(self.hist(), h0).len() >= 2 && events_since(self.hist(), h0)[
                events_since(self.hist(), h0).len() - 2
            ] == (BusEvent::DreqRead { high: true }) && events_since(self.hist(), h0).last() == (
            BusEvent::XcsSet { high: true })),
    {
        let g = events_since(self.hist(), h0);
        let x = mode_on_events() + seq![
            BusEvent::SpiInOut { command: read_command(SCI_VOL), response: be_bytes(v) },
        ] + low_polls(k);
        let base = hc + x;
        assert(x.len() == 3 + k);
        if k >= 1 {
            assert(x[x.len() - 1] == low_polls(k)[k - 1]);
            assert(low_polls(k)[k - 1] == (BusEvent::DreqRead { high: false }));
        } else {
            assert(x[x.len() - 1] == (BusEvent::SpiInOut {
                command: read_command(SCI_VOL),
                response: be_bytes(v),
            }));
        }
        if g.len() >= 2 {
            assert(g.len() == self.hist().len() - h0.len());
            assert(g[g.len() - 1] == self.hist()[self.hist().len() - 1]);
            assert(g[g.len() - 2] == self.hist()[self.hist().len() - 2]);
            if self.hist() == base.push(BusEvent::XcsSet { high: true }) {
                assert(self.hist()[self.hist().len() - 2] == base[base.len() - 1]);
                assert(base[base.len() - 1] == x[x.len() - 1]);
                assert(g[g.len() - 2] != (BusEvent::DreqRead { high: true }));
            } else {
                assert(self.hist() == base);
                assert(self.hist()[self.hist().len() - 1] == x[x.len() - 1]);
                assert(g.last() != (BusEvent::XcsSet { high: true }));
            }
        }
    }

    /// Bundles the self-test exit facts: the gained run is the opening
    /// ready sample followed by the sweep, with the sweep's register
    /// traffic and clock discipline carrying over to the whole run.
    proof fn lemma_comm_exit(&self, h0: Seq<BusEvent>, hd: Seq<BusEvent>, fast_clock: bool)
        requires
            hd == h0.push(BusEvent::DreqRead { high: true }),
            h0.is_prefix_of(hd),
            hd.is_prefix_of(self.hist()),
            traffic_confined(events_since(self.hist(), hd), SCI_VOL, SCI_VOL),
            spi_out_at_speed(events_since(self.hist(), hd), fast_clock),
        ensures
            h0.is_prefix_of(self.hist()),
            traffic_confined(events_since(self.hist(), h0), SCI_VOL, SCI_VOL),
            reg_traffic(events_since(self.hist(), h0), SCI_VOL) == reg_traffic(
                events_since(self.hist(), hd),
                SCI_VOL,
            ),
            events_since(self.hist(), h0).len() >= 1,
            events_since(self.hist(), h0)[0] == (BusEvent::DreqRead { high: true }),
            events_since(self.hist(), h0) == seq![BusEvent::DreqRead { high: true }]
                + events_since(self.hist(), hd),
            spi_out_at_speed(events_since(self.hist(), h0), fast_clock),
    {
        self.lemma_comm_finish(h0, hd);
        let head = seq![BusEvent::DreqRead { high: true }];
        assert(spi_out_at_speed(head, fast_clock)) by {
            assert(head[0] == (BusEvent::DreqRead { high: true }));
        }
        crate::bus::lemma_spi_speed_concat(head, events_since(self.hist(), hd), fast_clock);
    }

    /// Relates the whole self-test's gained events to the sweep that
    /// follows the opening ready sample.
    proof fn lemma_comm_finish(&self, h0: Seq<BusEvent>, hd: Seq<BusEvent>)
        requires
            hd == h0.push(BusEvent::DreqRead { high: true }),
            h0.is_prefix_of(hd),
            hd.is_prefix_of(self.hist()),
            traffic_confined(events_since(self.hist(), hd), SCI_VOL, SCI_VOL),
        ensures
            h0.is_prefix_of(self.hist()),
            traffic_confined(events_since(self.hist(), h0), SCI_VOL, SCI_VOL),
            reg_traffic(events_since(self.hist(), h0), SCI_VOL) == reg_traffic(
                events_since(self.hist(), hd),
                SCI_VOL,
            ),
            events_since(self.hist(), h0).len() >= 1,
            events_since(self.hist(), h0)[0] == (BusEvent::DreqRead { high: true }),
            events_since(self.hist(), h0) == seq![BusEvent::DreqRead { high: true }]
                + events_since(self.hist(), hd),
    {
        lemma_prefix_split(hd, self.hist());
        let rest = events_since(self.hist(), hd);
        assert(self.hist() =~= h0 + (seq![BusEvent::DreqRead { high: true }] + rest));
        crate::bus::lemma_events_since(h0, seq![BusEvent::DreqRead { high: true }] + rest);
        assert(events_since(self.hist(), h0) == seq![BusEvent::DreqRead { high: true }] + rest);
        lemma_reg_traffic_concat(seq![BusEvent::DreqRead { high: true }], rest, SCI_VOL);
        crate::bus::lemma_reg_traffic_quiet(seq![BusEvent::DreqRead { high: true }], SCI_VOL);
        assert(reg_traffic(events_since(self.hist(), h0), SCI_VOL) =~= reg_traffic(rest, SCI_VOL));
        assert forall|g: u8| g != SCI_VOL && g != SCI_VOL implies #[trigger] reg_traffic(
            events_since(self.hist(), h0),
            g,
        ) == Seq::<RegOp>::empty() by {
            lemma_reg_traffic_concat(seq![BusEvent::DreqRead { high: true }], rest, g);
            crate::bus::lemma_reg_traffic_quiet(seq![BusEvent::DreqRead { high: true }], g);
            assert(reg_traffic(events_since(self.hist(), h0), g) =~= Seq::<RegOp>::empty());
        }
        assert(events_since(self.hist(), h0)[0] == (BusEvent::DreqRead { high: true }));
    }

    /// Soft-resets the decoder: asserts the reset bit in the mode
    /// register, holds briefly, and waits for readiness.
    pub fn soft_reset(&mut self) -> (r: Result<(), DSPError>)
        ensures
            final(self).volume() == old(self).volume(),
            final(self).balance() == old(self).balance(),
            old(self).hist().is_prefix_of(final(self).hist()),
            r is Ok ==> gained_soft_reset(final(self).hist(), old(self).hist()),
            traffic_confined(final(self).gained(old(self).hist()), SCI_MODE, SCI_MODE),
    {
        let ghost h0 = self.hist();
        let mode_val: u16 = (1u16 << SM_SDINEW) | (1u16 << SM_RESET);
        match self.write_register(true, SCI_MODE, mode_val) {
            Ok(_) => {},
            Err(e) => {
                return Err(e);
            },
        }
        let ghost h1 = self.hist();
        self.port.delay_ms(10);
        match self.await_data_request() {
            Ok(_) => {},
            Err(e) => {
                proof {
                    let kk: nat = if e == DSPError::DataRequestTimeout {
                        DREQ_POLL_LIMIT as nat
                    } else {
                        choose|k: nat|
                            k < DREQ_POLL_LIMIT && self.hist() == h1 + #[trigger] low_polls(k)
                    };
                    assert(self.hist() == h1 + low_polls(kk));
                    assert(h1.is_prefix_of(self.hist())) by {
                        assert(h1 =~= self.hist().subrange(0, h1.len() as int));
                    }
                    lemma_low_polls_quiet(kk);
                    crate::bus::lemma_events_since(h1, low_polls(kk));
                    self.lemma_confined_quiet_tail(h0, h1, SCI_MODE, SCI_MODE);
                }
                return Err(e);
            },
        }
        proof {
            let kk2: nat = choose|k: nat|
                k < DREQ_POLL_LIMIT && self.hist() == h1 + #[trigger] ready_wait(k);
            let kk1: nat = choose|k: nat|
                k < DREQ_POLL_LIMIT && h1 == h0 + #[trigger] reg_write_events(
                    true,
                    SCI_MODE,
                    mode_reset_word(),
                    k,
                );
            assert(self.hist() =~= h0 + reg_write_events(true, SCI_MODE, mode_reset_word(), kk1)
                + ready_wait(kk2));
            assert(gained_soft_reset(self.hist(), h0));
            assert(h1.is_prefix_of(self.hist())) by {
                assert(h1 =~= self.hist().subrange(0, h1.len() as int));
            }
            lemma_low_polls_quiet(kk2);
            crate::bus::lemma_events_since(h1, ready_wait(kk2));
            self.lemma_confined_quiet_tail(h0, h1, SCI_MODE, SCI_MODE);
        }
        Ok(())
    }

    /// A history extension confined to two registers, followed by a quiet
    /// tail, stays confined.
    proof fn lemma_confined_quiet_tail(&self, h0: Seq<BusEvent>, hmid: Seq<BusEvent>, a: u8, b: u8)
        requires
            h0.is_prefix_of(hmid),
            hmid.is_prefix_of(self.hist()),
            traffic_confined(events_since(hmid, h0), a, b),
            quiet_events(events_since(self.hist(), hmid)),
        ensures
            h0.is_prefix_of(self.hist()),
            traffic_confined(events_since(self.hist(), h0), a, b),
    {
        lemma_gained_compose(h0, hmid, self.hist());
        assert forall|g: u8| g != a && g != b implies #[trigger] reg_traffic(
            events_since(self.hist(), h0),
            g,
        ) == Seq::<RegOp>::empty() by {
            lemma_reg_traffic_concat(
                events_since(hmid, h0),
                events_since(self.hist(), hmid),
                g,
            );
            crate::bus::lemma_reg_traffic_quiet(events_since(self.hist(), hmid), g);
            assert(reg_traffic(events_since(self.hist(), h0), g) =~= Seq::<RegOp>::empty());
        }
    }

    /// Switches a chip that powered up in an alternate decode mode over
    /// to MP3 decoding: writes the GPIO direction and output words into
    /// the chip's RAM, holds briefly, then soft-resets.
    pub fn switch_to_mp3_mode(&mut self) -> (r: Result<(), DSPError>)
        ensures
            final(self).volume() == old(self).volume(),
            final(self).balance() == old(self).balance(),
            old(self).hist().is_prefix_of(final(self).hist()),
            r is Ok ==> gained_mp3_switch(final(self).hist(), old(self).hist()),
            forall|g: u8|
                g != SCI_WRAMADDR && g != SCI_WRAM && g != SCI_MODE ==> #[trigger] reg_traffic(
                    final(self).gained(old(self).hist()),
                    g,
                ) == Seq::<RegOp>::empty(),
    {
        let ghost h0 = self.hist();
        match self.wram_write(ADDR_REG_GPIO_DDR_RW, 3) {
            Ok(_) => {},
            Err(e) => {
                proof {
                    self.lemma_widen_confined(h0, h0, SCI_WRAMADDR, SCI_WRAM);
                }
                return Err(e);
            },
        }
        let ghost h1 = self.hist();
        match self.wram_write(ADDR_REG_GPIO_ODATA_RW, 0) {
            Ok(_) => {},
            Err(e) => {
                proof {
                    self.lemma_widen_confined(h0, h1, SCI_WRAMADDR, SCI_WRAM);
                }
                return Err(e);
            },
        }
        let ghost h2 = self.hist();
        self.port.delay_ms(100);
        let r3 = self.soft_reset();
        proof {
            lemma_gained_compose(h0, h1, h2);
            assert forall|g: u8| g != SCI_WRAMADDR && g != SCI_WRAM implies #[trigger] reg_traffic(
                events_since(h2, h0),
                g,
            ) == Seq::<RegOp>::empty() by {
                lemma_reg_traffic_concat(events_since(h1, h0), events_since(h2, h1), g);
                assert(reg_traffic(events_since(h2, h0), g) =~= Seq::<RegOp>::empty());
            }
            self.lemma_widen_confined(h0, h2, SCI_MODE, SCI_MODE);
            if r3 is Ok {
                assert(gained_wram_write(h1, h0, ADDR_REG_GPIO_DDR_RW, 3));
                assert(gained_wram_write(h2, h1, ADDR_REG_GPIO_ODATA_RW, 0));
                assert(gained_soft_reset(self.hist(), h2));
                assert(gained_mp3_switch(self.hist(), h0));
            }
        }
        r3
    }

    /// Joins two history extensions, the first confined to the RAM-window
    /// registers and the second to the given pair, into one confined to
    /// the three registers of the decode-mode switch.
    proof fn lemma_widen_confined(&self, h0: Seq<BusEvent>, hmid: Seq<BusEvent>, a: u8, b: u8)
        requires
            h0.is_prefix_of(hmid),
            hmid.is_prefix_of(self.hist()),
            traffic_confined(events_since(hmid, h0), SCI_WRAMADDR, SCI_WRAM),
            traffic_confined(events_since(self.hist(), hmid), a, b),
        ensures
            h0.is_prefix_of(self.hist()),
            forall|g: u8|
                g != SCI_WRAMADDR && g != SCI_WRAM && g != a && g != b ==> #[trigger] reg_traffic(
                    events_since(self.hist(), h0),
                    g,
                ) == Seq::<RegOp>::empty(),
    {
        lemma_gained_compose(h0, hmid, self.hist());
        assert forall|g: u8|
            g != SCI_WRAMADDR && g != SCI_WRAM && g != a && g != b implies #[trigger] reg_traffic(
            events_since(self.hist(), h0),
            g,
        ) == Seq::<RegOp>::empty() by {
            lemma_reg_traffic_concat(
                events_since(hmid, h0),
                events_since(self.hist(), hmid),
                g,
            );
            assert(reg_traffic(events_since(self.hist(), h0), g) =~= Seq::<RegOp>::empty());
        }
    }

    /// A lightweight wiring check: reads the status register and treats an
    /// all-zero or all-one reading — the two patterns a dead bus produces —
    /// as "no chip present".  A bus fault also reads as not connected.
    pub fn is_chip_connected(&mut self) -> (connected: bool)
        ensures
            final(self).volume() == old(self).volume(),
            final(self).balance() == old(self).balance(),
            old(self).hist().is_prefix_of(final(self).hist()),
            connected ==> exists|s: u16|
                s != 0 && s != 0xFFFF && #[trigger] gained_reg_read(
                    final(self).hist(),
                    old(self).hist(),
                    SCI_STATUS,
                    s,
                ),
            !connected ==> (exists|s: u16|
                !spec_status_connected(s) && #[trigger] gained_reg_read(
                    final(self).hist(),
                    old(self).hist(),
                    SCI_STATUS,
                    s,
                )) || aborted_status_read(final(self).hist(), old(self).hist()),
            traffic_confined(final(self).gained(old(self).hist()), SCI_STATUS, SCI_STATUS),
    {
        match self.read_register(SCI_STATUS) {
            Ok(status) => chip_status_connected(status),
            Err(_) => false,
        }
    }

    /// The chip's version number, bits 4 to 7 of the status register.  A
    /// bus fault reads as version 0.
    pub fn get_chip_version(&mut self) -> (v: u16)
        ensures
            final(self).volume() == old(self).volume(),
            final(self).balance() == old(self).balance(),
            old(self).hist().is_prefix_of(final(self).hist()),
            v != 0 ==> exists|s: u16|
                v == version_from_status(s) && #[trigger] gained_reg_read(
                    final(self).hist(),
                    old(self).hist(),
                    SCI_STATUS,
                    s,
                ),
            v == 0 ==> (exists|s: u16|
                version_from_status(s) == 0 && #[trigger] gained_reg_read(
                    final(self).hist(),
                    old(self).hist(),
                    SCI_STATUS,
                    s,
                )) || aborted_status_read(final(self).hist(), old(self).hist()),
            traffic_confined(final(self).gained(old(self).hist()), SCI_STATUS, SCI_STATUS),
    {
        match self.read_register(SCI_STATUS) {
            Ok(status) => chip_version_of(status),
            Err(_) => 0,
        }
    }

    /// Enters command mode: data select released, command select asserted.
    fn control_mode_on(&mut self) -> (r: Result<(), DSPError>)
        ensures
            final(self).volume() == old(self).volume(),
            final(self).balance() == old(self).balance(),
            r is Ok ==> final(self).hist() == old(self).hist() + seq![
                BusEvent::XdcsSet { high: true },
                BusEvent::XcsSet { high: false },
            ],
            r is Err ==> (r->Err_0 == DSPError::UnableToSetDCSPin && final(self).hist() == old(
                self,
            ).hist()) || (r->Err_0 == DSPError::UnableToSetCSPin && final(self).hist() == old(
                self,
            ).hist().push(BusEvent::XdcsSet { high: true })),
    {
        match self.port.set_xdcs(true) {
            Ok(_) => {},
            Err(e) => {
                return Err(e);
            },
        }
        match self.port.set_xcs(false) {
            Ok(_) => {},
            Err(e) => {
                return Err(e);
            },
        }
        proof {
            assert(old(self).hist().push(BusEvent::XdcsSet { high: true }).push(
                BusEvent::XcsSet { high: false },
            ) =~= old(self).hist() + seq![
                BusEvent::XdcsSet { high: true },
                BusEvent::XcsSet { high: false },
            ]);
        }
        Ok(())
    }

    /// Leaves command mode: command select released.
    fn control_mode_off(&mut self) -> (r: Result<(), DSPError>)
        ensures
            final(self).volume() == old(self).volume(),
            final(self).balance() == old(self).balance(),
            r is Ok ==> final(self).hist() == old(self).hist().push(
                BusEvent::XcsSet { high: true },
            ),
            r is Err ==> r->Err_0 == DSPError::UnableToSetCSPin && final(self).hist() == old(
                self,
            ).hist(),
    {
        match self.port.set_xcs(true) {
            Ok(_) => Ok(()),
            Err(e) => Err(e),
        }
    }

    /// Enters data mode: command select released, data select asserted.
    fn data_mode_on(&mut self) -> (r: Result<(), DSPError>)
        ensures
            final(self).volume() == old(self).volume(),
            final(self).balance() == old(self).balance(),
            r is Ok ==> final(self).hist() == old(self).hist() + seq![
                BusEvent::XcsSet { high: true },
                BusEvent::XdcsSet { high: false },
            ],
            r is Err ==> (r->Err_0 == DSPError::UnableToSetCSPin && final(self).hist() == old(
                self,
            ).hist()) || (r->Err_0 == DSPError::UnableToSetDCSPin && final(self).hist() == old(
                self,
            ).hist().push(BusEvent::XcsSet { high: true })),
    {
        match self.port.set_xcs(true) {
            Ok(_) => {},
            Err(e) => {
                return Err(e);
            },
        }
        match self.port.set_xdcs(false) {
            Ok(_) => {},
            Err(e) => {
                return Err(e);
            },
        }
        proof {
            assert(old(self).hist().push(BusEvent::XcsSet { high: true }).push(
                BusEvent::XdcsSet { high: false },
            ) =~= old(self).hist() + seq![
                BusEvent::XcsSet { high: true },
                BusEvent::XdcsSet { high: false },
            ]);
        }
        Ok(())
    }

    /// Leaves data mode: data select released.
    fn data_mode_off(&mut self) -> (r: Result<(), DSPError>)
        ensures
            final(self).volume() == old(self).volume(),
            final(self).balance() == old(self).balance(),
            r is Ok ==> final(self).hist() == old(self).hist().push(
                BusEvent::XdcsSet { high: true },
            ),
            r is Err ==> r->Err_0 == DSPError::UnableToSetDCSPin && final(self).hist() == old(
                self,
            ).hist(),
    {
        match self.port.set_xdcs(true) {
            Ok(_) => Ok(()),
            Err(e) => Err(e),
        }
    }

    /// Polls the data-ready line once per millisecond, up to `max_polls`
    /// samples.  Returns as soon as the line reads ready; reports a
    /// timeout once the bound is exhausted without a ready sample.
    pub fn await_ready(&mut self, max_polls: u32) -> (r: Result<(), DSPError>)
        ensures
            final(self).volume() == old(self).volume(),
            final(self).balance() == old(self).balance(),
            r is Ok ==> exists|k: nat|
                k < max_polls && final(self).hist() == old(self).hist() + #[trigger] ready_wait(k),
            r is Err ==> r->Err_0 == DSPError::DataRequestTimeout || r->Err_0
                == DSPError::UnableToGetDREQPin,
            r is Err && r->Err_0 == DSPError::DataRequestTimeout ==> final(self).hist() == old(
                self,
            ).hist() + low_polls(max_polls as nat),
            r is Err && r->Err_0 == DSPError::UnableToGetDREQPin ==> exists|k: nat|
                k < max_polls && final(self).hist() == old(self).hist() + #[trigger] low_polls(k),
    {
        let mut i: u32 = 0;
        while i < max_polls
            invariant
                i <= max_polls,
                self.volume() == old(self).volume(),
                self.balance() == old(self).balance(),
                self.hist() == old(self).hist() + low_polls(i as nat),
            decreases max_polls - i,
        {
            let level = match self.port.read_dreq() {
                Ok(b) => b,
                Err(e) => {
                    return Err(e);
                },
            };
            if level {
                proof {
                    assert(self.hist() =~= old(self).hist() + ready_wait(i as nat));
                }
                return Ok(());
            }
            self.port.delay_ms(1);
            i = i + 1;
            proof {
                assert(self.hist() =~= old(self).hist() + low_polls(i as nat));
            }
        }
        Err(DSPError::DataRequestTimeout)
    }

    /// The events the port history gained since an earlier history `pre`.
    pub open spec fn gained(&self, pre: Seq<BusEvent>) -> Seq<BusEvent> {
        crate::bus::events_since(self.hist(), pre)
    }

    /// Reads a 16-bit register: command mode on, the 2-byte read command
    /// answered by two big-endian response bytes, a wait for readiness,
    /// command mode off.  On a fault the release of the command select is
    /// still attempted before the error is reported, and each error names
    /// exactly what happened on the bus.
    pub fn read_register(&mut self, address: u8) -> (r: Result<u16, DSPError>)
        ensures
            final(self).volume() == old(self).volume(),
            final(self).balance() == old(self).balance(),
            old(self).hist().is_prefix_of(final(self).hist()),
            r matches Ok(v) ==> gained_reg_read(final(self).hist(), old(self).hist(), address, v),
            traffic_confined(final(self).gained(old(self).hist()), address, address),
            no_short_out(final(self).gained(old(self).hist())),
            r is Ok ==> reg_traffic(final(self).gained(old(self).hist()), address) == seq![
                RegOp::RegRead(r->Ok_0),
            ],
            r is Err ==> reg_traffic(final(self).gained(old(self).hist()), address).len() <= 1 && (
            forall|j: int|
                0 <= j < reg_traffic(final(self).gained(old(self).hist()), address).len()
                    ==> #[trigger] reg_traffic(final(self).gained(old(self).hist()), address)[j]
                    is RegRead),
            forall|i: int|
                0 <= i < final(self).gained(old(self).hist()).len()
                    ==> !(#[trigger] final(self).gained(old(self).hist())[i] is SpiOut),
            r is Err && r->Err_0 == DSPError::UnableToSetDCSPin ==> final(self).hist() == old(
                self,
            ).hist(),
            r is Err && r->Err_0 == DSPError::Spi ==> with_release_attempt(
                final(self).hist(),
                old(self).hist() + mode_on_events(),
            ),
            r is Err && r->Err_0 == DSPError::DataRequestTimeout ==> stalled_reg_read(
                final(self).hist(),
                old(self).hist(),
                address,
                DREQ_POLL_LIMIT as nat,
            ),
            r is Err && r->Err_0 == DSPError::UnableToGetDREQPin ==> exists|k: nat|
                k < DREQ_POLL_LIMIT && #[trigger] stalled_reg_read(
                    final(self).hist(),
                    old(self).hist(),
                    address,
                    k,
                ),
            r is Err && r->Err_0 == DSPError::UnableToSetCSPin ==> final(self).hist() == old(
                self,
            ).hist().push(BusEvent::XdcsSet { high: true }) || unreleased_reg_read(
                final(self).hist(),
                old(self).hist(),
                address,
            ),
    {
        let ghost h0 = self.hist();
        let ghost pins = mode_on_events();
        match self.control_mode_on() {
            Ok(_) => {},
            Err(e) => {
                proof {
                    if self.hist() == h0 {
                        assert(self.hist() =~= h0 + Seq::<BusEvent>::empty());
                        lemma_quiet_extension(h0, Seq::<BusEvent>::empty());
                    } else {
                        assert(self.hist() =~= h0 + seq![BusEvent::XdcsSet { high: true }]);
                        lemma_quiet_extension(h0, seq![BusEvent::XdcsSet { high: true }]);
                    }
                }
                return Err(e);
            },
        }
        let (b0, b1) = match self.port.spi_in_out(0x03, address) {
            Ok(pair) => pair,
            Err(e) => {
                let ghost he = self.hist();
                let _ = self.control_mode_off();
                proof {
                    assert(he =~= h0 + pins);
                    let t: Seq<BusEvent> = if self.hist() == he {
                        pins
                    } else {
                        pins.push(BusEvent::XcsSet { high: true })
                    };
                    assert(self.hist() =~= h0 + t);
                    assert forall|i: int| 0 <= i < t.len() implies !(#[trigger] t[i] is SpiOut)
                        && !(t[i] is SpiInOut) by {
                        if i < pins.len() {
                            assert(t[i] == pins[i]);
                        } else {
                            assert(t[i] == BusEvent::XcsSet { high: true });
                        }
                    }
                    assert(quiet_events(t));
                    lemma_quiet_extension(h0, t);
                    assert(with_release_attempt(self.hist(), h0 + mode_on_events()));
                }
                return Err(e);
            },
        };
        let value: u16 = (b0 as u16) * 256 + (b1 as u16);
        let ghost frame = BusEvent::SpiInOut {
            command: read_command(address),
            response: be_bytes(value),
        };
        proof {
            lemma_word16_split(b0, b1);
            assert(seq![b0, b1] =~= be_bytes(value));
            assert(self.hist() == (h0 + pins).push(frame));
        }
        let ghost h1 = self.hist();
        match self.await_data_request() {
            Ok(_) => {},
            Err(e) => {
                let ghost he = self.hist();
                let ghost kk: nat = if e == DSPError::DataRequestTimeout {
                    DREQ_POLL_LIMIT as nat
                } else {
                    choose|k: nat| k < DREQ_POLL_LIMIT && he == h1 + #[trigger] low_polls(k)
                };
                let _ = self.control_mode_off();
                proof {
                    assert(he == h1 + low_polls(kk));
                    lemma_low_polls_quiet(kk);
                    let post: Seq<BusEvent> = if self.hist() == he {
                        low_polls(kk)
                    } else {
                        low_polls(kk).push(BusEvent::XcsSet { high: true })
                    };
                    assert forall|i: int| 0 <= i < post.len() implies !(#[trigger] post[i]
                        is SpiOut) && !(post[i] is SpiInOut) by {
                        if i < low_polls(kk).len() {
                            assert(post[i] == low_polls(kk)[i]);
                        } else {
                            assert(post[i] == BusEvent::XcsSet { high: true });
                        }
                    }
                    assert(quiet_events(post));
                    assert(self.hist() =~= h0 + (pins + seq![frame] + post));
                    lemma_frame_extension(h0, pins, frame, post);
                    self.lemma_read_frame_traffic(h0, address, value);
                    let base = h0 + (mode_on_events() + seq![frame] + low_polls(kk));
                    if self.hist() == he {
                        assert(self.hist() =~= base);
                    } else {
                        assert(self.hist() =~= base.push(BusEvent::XcsSet { high: true }));
                    }
                    assert(with_release_attempt(self.hist(), base));
                    assert(stalled_reg_read(self.hist(), h0, address, kk));
                }
                return Err(e);
            },
        }
        let ghost kk: nat = choose|k: nat|
            k < DREQ_POLL_LIMIT && self.hist() == h1 + #[trigger] ready_wait(k);
        proof {
            assert(kk < DREQ_POLL_LIMIT && self.hist() == h1 + ready_wait(kk));
            lemma_low_polls_quiet(kk);
        }
        match self.control_mode_off() {
            Ok(_) => {},
            Err(e) => {
                proof {
                    assert(self.hist() =~= h0 + (pins + seq![frame] + ready_wait(kk)));
                    lemma_frame_extension(h0, pins, frame, ready_wait(kk));
                    self.lemma_read_frame_traffic(h0, address, value);
                    assert(self.hist() =~= h0 + (mode_on_events() + seq![frame] + ready_wait(
                        kk,
                    )));
                    assert(unreleased_reg_read(self.hist(), h0, address));
                }
                return Err(e);
            },
        }
        proof {
            let post = ready_wait(kk).push(BusEvent::XcsSet { high: true });
            assert forall|i: int| 0 <= i < post.len() implies !(#[trigger] post[i] is SpiOut) && !(
            post[i] is SpiInOut) by {
                if i < ready_wait(kk).len() {
                    assert(post[i] == ready_wait(kk)[i]);
                } else {
                    assert(post[i] == BusEvent::XcsSet { high: true });
                }
            }
            assert(quiet_events(post));
            assert(self.hist() =~= h0 + (pins + seq![frame] + post));
            lemma_frame_extension(h0, pins, frame, post);
            self.lemma_read_frame_traffic(h0, address, value);
            assert(self.hist() =~= h0 + reg_read_events(address, value, kk));
            assert(gained_reg_read(self.hist(), h0, address, value));
        }
        Ok(value)
    }

    /// After a read frame for `address` answering `value`, the gained
    /// traffic is that one read on `address` and nothing elsewhere.
    proof fn lemma_read_frame_traffic(&self, h0: Seq<BusEvent>, address: u8, value: u16)
        requires
            forall|g: u8| #[trigger] reg_traffic(self.gained(h0), g) == (match event_reg_op(
                BusEvent::SpiInOut { command: read_command(address), response: be_bytes(value) },
                g,
            ) {
                Some(op) => seq![op],
                None => Seq::<RegOp>::empty(),
            }),
        ensures
            traffic_confined(self.gained(h0), address, address),
            reg_traffic(self.gained(h0), address) == seq![RegOp::RegRead(value)],
    {
        lemma_word16_be(value);
        assert forall|g: u8| g != address && g != address implies #[trigger] reg_traffic(
            self.gained(h0),
            g,
        ) == Seq::<RegOp>::empty() by {
            assert(read_command(address)[1] == address);
            assert(read_command(g)[1] == g);
            assert(read_command(address) != read_command(g));
        }
        assert(reg_traffic(self.gained(h0), address) =~= seq![RegOp::RegRead(value)]);
    }

    /// Writes a 16-bit register: command mode on, the 4-byte write frame
    /// at the requested bus speed (slow during bring-up, fast afterward),
    /// a wait for readiness, command mode off.  On a fault the release of
    /// the command select is still attempted before the error is
    /// reported, and each error names exactly what happened on the bus.
    pub fn write_register(&mut self, is_high_speed: bool, reg: u8, value: u16) -> (r: Result<
        (),
        DSPError,
    >)
        ensures
            final(self).volume() == old(self).volume(),
            final(self).balance() == old(self).balance(),
            old(self).hist().is_prefix_of(final(self).hist()),
            r is Ok ==> gained_reg_write(
                final(self).hist(),
                old(self).hist(),
                is_high_speed,
                reg,
                value,
            ),
            traffic_confined(final(self).gained(old(self).hist()), reg, reg),
            no_short_out(final(self).gained(old(self).hist())),
            r is Ok ==> reg_traffic(final(self).gained(old(self).hist()), reg) == seq![
                RegOp::RegWrite(value),
            ],
            r is Err ==> reg_traffic(final(self).gained(old(self).hist()), reg).is_prefix_of(
                seq![RegOp::RegWrite(value)],
            ),
            spi_out_at_speed(final(self).gained(old(self).hist()), is_high_speed),
            r is Err && r->Err_0 == DSPError::UnableToSetDCSPin ==> final(self).hist() == old(
                self,
            ).hist(),
            r is Err && r->Err_0 == DSPError::Spi ==> with_release_attempt(
                final(self).hist(),
                old(self).hist() + mode_on_events(),
            ),
            r is Err && r->Err_0 == DSPError::DataRequestTimeout ==> stalled_reg_write(
                final(self).hist(),
                old(self).hist(),
                is_high_speed,
                reg,
                value,
                DREQ_POLL_LIMIT as nat,
            ),
            r is Err && r->Err_0 == DSPError::UnableToGetDREQPin ==> exists|k: nat|
                k < DREQ_POLL_LIMIT && #[trigger] stalled_reg_write(
                    final(self).hist(),
                    old(self).hist(),
                    is_high_speed,
                    reg,
                    value,
                    k,
                ),
            r is Err && r->Err_0 == DSPError::UnableToSetCSPin ==> final(self).hist() == old(
                self,
            ).hist().push(BusEvent::XdcsSet { high: true }) || unreleased_reg_write(
                final(self).hist(),
                old(self).hist(),
                is_high_speed,
                reg,
                value,
            ),
    {
        let ghost h0 = self.hist();
        let ghost pins = mode_on_events();
        match self.control_mode_on() {
            Ok(_) => {},
            Err(e) => {
                proof {
                    if self.hist() == h0 {
                        assert(self.hist() =~= h0 + Seq::<BusEvent>::empty());
                        lemma_quiet_extension(h0, Seq::<BusEvent>::empty());
                    } else {
                        assert(self.hist() =~= h0 + seq![BusEvent::XdcsSet { high: true }]);
                        lemma_quiet_extension(h0, seq![BusEvent::XdcsSet { high: true }]);
                    }
                }
                return Err(e);
            },
        }
        let hi: u8 = (value / 256) as u8;
        let lo: u8 = (value % 256) as u8;
        let mut frame_bytes: Vec<u8> = Vec::new();
        frame_bytes.push(0x02);
        frame_bytes.push(reg);
        frame_bytes.push(hi);
        frame_bytes.push(lo);
        proof {
            assert(frame_bytes@ =~= write_frame(reg, value));
        }
        match self.port.spi_out(is_high_speed, frame_bytes.as_slice()) {
            Ok(_) => {},
            Err(e) => {
                let ghost he = self.hist();
                let _ = self.control_mode_off();
                proof {
                    assert(he =~= h0 + pins);
                    let t: Seq<BusEvent> = if self.hist() == he {
                        pins
                    } else {
                        pins.push(BusEvent::XcsSet { high: true })
                    };
                    assert(self.hist() =~= h0 + t);
                    assert forall|i: int| 0 <= i < t.len() implies !(#[trigger] t[i] is SpiOut)
                        && !(t[i] is SpiInOut) by {
                        if i < pins.len() {
                            assert(t[i] == pins[i]);
                        } else {
                            assert(t[i] == BusEvent::XcsSet { high: true });
                        }
                    }
                    assert(quiet_events(t));
                    lemma_quiet_extension(h0, t);
                    assert(with_release_attempt(self.hist(), h0 + mode_on_events()));
                }
                return Err(e);
            },
        }
        let ghost frame = BusEvent::SpiOut { fast: is_high_speed, bytes: write_frame(reg, value) };
        proof {
            assert(self.hist() == (h0 + pins).push(frame));
        }
        let ghost h1 = self.hist();
        match self.await_data_request() {
            Ok(_) => {},
            Err(e) => {
                let ghost he = self.hist();
                let ghost kk: nat = if e == DSPError::DataRequestTimeout {
                    DREQ_POLL_LIMIT as nat
                } else {
                    choose|k: nat| k < DREQ_POLL_LIMIT && he == h1 + #[trigger] low_polls(k)
                };
                let _ = self.control_mode_off();
                proof {
                    assert(he == h1 + low_polls(kk));
                    lemma_low_polls_quiet(kk);
                    let post: Seq<BusEvent> = if self.hist() == he {
                        low_polls(kk)
                    } else {
                        low_polls(kk).push(BusEvent::XcsSet { high: true })
                    };
                    assert forall|i: int| 0 <= i < post.len() implies !(#[trigger] post[i]
                        is SpiOut) && !(post[i] is SpiInOut) by {
                        if i < low_polls(kk).len() {
                            assert(post[i] == low_polls(kk)[i]);
                        } else {
                            assert(post[i] == BusEvent::XcsSet { high: true });
                        }
                    }
                    assert(quiet_events(post));
                    assert(self.hist() =~= h0 + (pins + seq![frame] + post));
                    lemma_frame_extension(h0, pins, frame, post);
                    self.lemma_write_frame_traffic(h0, is_high_speed, reg, value);
                    let base = h0 + (mode_on_events() + seq![frame] + low_polls(kk));
                    if self.hist() == he {
                        assert(self.hist() =~= base);
                    } else {
                        assert(self.hist() =~= base.push(BusEvent::XcsSet { high: true }));
                    }
                    assert(with_release_attempt(self.hist(), base));
                    assert(stalled_reg_write(self.hist(), h0, is_high_speed, reg, value, kk));
                }
                return Err(e);
            },
        }
        let ghost kk: nat = choose|k: nat|
            k < DREQ_POLL_LIMIT && self.hist() == h1 + #[trigger] ready_wait(k);
        proof {
            assert(kk < DREQ_POLL_LIMIT && self.hist() == h1 + ready_wait(kk));
            lemma_low_polls_quiet(kk);
        }
        match self.control_mode_off() {
            Ok(_) => {},
            Err(e) => {
                proof {
                    assert(self.hist() =~= h0 + (pins + seq![frame] + ready_wait(kk)));
                    lemma_frame_extension(h0, pins, frame, ready_wait(kk));
                    self.lemma_write_frame_traffic(h0, is_high_speed, reg, value);
                    assert(self.hist() =~= h0 + (mode_on_events() + seq![frame] + ready_wait(
                        kk,
                    )));
                    assert(unreleased_reg_write(self.hist(), h0, is_high_speed, reg, value));
                }
                return Err(e);
            },
        }
        proof {
            let post = ready_wait(kk).push(BusEvent::XcsSet { high: true });
            assert forall|i: int| 0 <= i < post.len() implies !(#[trigger] post[i] is SpiOut) && !(
            post[i] is SpiInOut) by {
                if i < ready_wait(kk).len() {
                    assert(post[i] == ready_wait(kk)[i]);
                } else {
                    assert(post[i] == BusEvent::XcsSet { high: true });
                }
            }
            assert(quiet_events(post));
            assert(self.hist() =~= h0 + (pins + seq![frame] + post));
            lemma_frame_extension(h0, pins, frame, post);
            self.lemma_write_frame_traffic(h0, is_high_speed, reg, value);
            assert(self.hist() =~= h0 + reg_write_events(is_high_speed, reg, value, kk));
            assert(gained_reg_write(self.hist(), h0, is_high_speed, reg, value));
        }
        Ok(())
    }

    /// After a write frame of `value` to `reg`, the gained traffic is that
    /// one write on `reg` and nothing elsewhere.
    proof fn lemma_write_frame_traffic(&self, h0: Seq<BusEvent>, fast: bool, reg: u8, value: u16)
        requires
            forall|g: u8| #[trigger] reg_traffic(self.gained(h0), g) == (match event_reg_op(
                BusEvent::SpiOut { fast, bytes: write_frame(reg, value) },
                g,
            ) {
                Some(op) => seq![op],
                None => Seq::<RegOp>::empty(),
            }),
        ensures
            traffic_confined(self.gained(h0), reg, reg),
            reg_traffic(self.gained(h0), reg) == seq![RegOp::RegWrite(value)],
            reg_traffic(self.gained(h0), reg).is_prefix_of(seq![RegOp::RegWrite(value)]),
    {
        lemma_word16_be(value);
        assert(reg_traffic(self.gained(h0), reg) =~= seq![RegOp::RegWrite(value)]);
        assert(seq![RegOp::RegWrite(value)].is_prefix_of(seq![RegOp::RegWrite(value)]));
    }

    /// Clocks one chunk out over the data interface at the fast clock and
    /// waits for readiness again, so the chip's buffer is never overrun.
    fn write_bytes(&mut self, data: &[u8]) -> (r: Result<(), DSPError>)
        ensures
            final(self).volume() == old(self).volume(),
            final(self).balance() == old(self).balance(),
            old(self).hist().is_prefix_of(final(self).hist()),
            r is Ok ==> gained_chunk_out(final(self).hist(), old(self).hist(), data@),
            r is Err ==> final(self).hist() == old(self).hist() || gained_chunk_partial(
                final(self).hist(),
                old(self).hist(),
                data@,
            ),
    {
        let ghost h0 = self.hist();
        match self.port.spi_out(true, data) {
            Ok(_) => {},
            Err(e) => {
                proof {
                    assert(h0 =~= self.hist().subrange(0, h0.len() as int));
                }
                return Err(e);
            },
        }
        let ghost h1 = self.hist();
        match self.await_data_request() {
            Ok(_) => {
                proof {
                    let kk: nat = choose|k: nat|
                        k < DREQ_POLL_LIMIT && self.hist() == h1 + #[trigger] ready_wait(k);
                    assert(self.hist() =~= h0 + seq![
                        BusEvent::SpiOut { fast: true, bytes: data@ },
                    ] + ready_wait(kk));
                    assert(gained_chunk_out(self.hist(), h0, data@));
                    assert(h0 =~= self.hist().subrange(0, h0.len() as int));
                }
                Ok(())
            },
            Err(e) => {
                proof {
                    let kk: nat = if e == DSPError::DataRequestTimeout {
                        DREQ_POLL_LIMIT as nat
                    } else {
                        choose|k: nat|
                            k < DREQ_POLL_LIMIT && self.hist() == h1 + #[trigger] low_polls(k)
                    };
                    assert(self.hist() == h1 + low_polls(kk));
                    assert(self.hist() =~= h0 + seq![
                        BusEvent::SpiOut { fast: true, bytes: data@ },
                    ] + low_polls(kk));
                    assert(gained_chunk_partial(self.hist(), h0, data@));
                    assert(h0 =~= self.hist().subrange(0, h0.len() as int));
                }
                Err(e)
            },
        }
    }

    /// On a streaming fault, after the closing deselect attempt: the
    /// payloads the whole call issued are a prefix of the payload's chunk
    /// decomposition, every chunk that went out followed a ready sample
    /// at the fast clock, and the select discipline held.
    proof fn lemma_stream_error_final(
        &self,
        h0: Seq<BusEvent>,
        hstart: Seq<BusEvent>,
        he: Seq<BusEvent>,
        data: Seq<u8>,
        size: nat,
    )
        requires
            size > 0,
            hstart == h0 + seq![
                BusEvent::XcsSet { high: true },
                BusEvent::XdcsSet { high: false },
            ],
            hstart.is_prefix_of(he),
            spi_out_payloads(events_since(he, hstart)).is_prefix_of(chunk_seqs(data, size)),
            flow_controlled(events_since(he, hstart)),
            all_spi_out_fast(events_since(he, hstart)),
            no_select_events(events_since(he, hstart)),
            events_since(he, hstart).len() > 0 ==> events_since(he, hstart)[0] is DreqRead,
            self.hist() == he || self.hist() == he.push(BusEvent::XdcsSet { high: true }),
        ensures
            h0.is_prefix_of(self.hist()),
            spi_out_payloads(events_since(self.hist(), h0)).is_prefix_of(chunk_seqs(data, size)),
            flow_controlled(events_since(self.hist(), h0)),
            all_spi_out_fast(events_since(self.hist(), h0)),
            stream_events_shape(events_since(self.hist(), h0)),
    {
        let start = seq![
            BusEvent::XcsSet { high: true },
            BusEvent::XdcsSet { high: false },
        ];
        let mid = events_since(he, hstart);
        lemma_prefix_split(hstart, he);
        let tail: Seq<BusEvent> = if self.hist() == he {
            Seq::empty()
        } else {
            seq![BusEvent::XdcsSet { high: true }]
        };
        let added = start + mid + tail;
        assert(self.hist() =~= h0 + added);
        crate::bus::lemma_events_since(h0, added);
        lemma_spi_out_payloads_concat(start + mid, tail);
        lemma_spi_out_payloads_concat(start, mid);
        lemma_spi_out_payloads_quiet(start);
        lemma_spi_out_payloads_quiet(tail);
        assert(spi_out_payloads(added) =~= spi_out_payloads(mid));
        assert(forall|i: int| 0 <= i < start.len() ==> !(#[trigger] start[i] is SpiOut));
        assert(forall|i: int| 0 <= i < tail.len() ==> !(#[trigger] tail[i] is SpiOut));
        crate::bus::lemma_no_out_stream_props(start);
        crate::bus::lemma_no_out_stream_props(tail);
        lemma_flow_concat(start, mid);
        lemma_fast_concat(start, mid);
        lemma_flow_concat(start + mid, tail);
        lemma_fast_concat(start + mid, tail);
        assert(added[0] == (BusEvent::XcsSet { high: true }));
        assert(added[1] == (BusEvent::XdcsSet { high: false }));
        assert forall|i: int|
            2 <= i < added.len() && (#[trigger] added[i] is XcsSet || added[i] is XdcsSet) implies i
            == added.len() - 1 && added[i] == (BusEvent::XdcsSet { high: true }) by {
            if i < 2 + mid.len() {
                assert(added[i] == mid[i - 2]);
            } else {
                assert(added[i] == tail[i - 2 - mid.len()]);
                assert(added[i] == (BusEvent::XdcsSet { high: true }));
            }
        }
        assert(stream_events_shape(added));
    }

    /// Streams a payload to the data interface: data mode on once, then
    /// for each maximal chunk a wait for readiness, the chunk, and a wait
    /// again; data mode off once at the end.  The SPI writes issued are
    /// exactly the payload's chunk decomposition, in order, each preceded
    /// by an observed ready signal; on a fault, a prefix of it.
    pub fn play_chunk2(&mut self, data: &[u8], chunk_size: usize) -> (r: Result<(), DSPError>)
        requires
            chunk_size > 0,
        ensures
            final(self).volume() == old(self).volume(),
            final(self).balance() == old(self).balance(),
            old(self).hist().is_prefix_of(final(self).hist()),
            r is Ok ==> ({
                let added = final(self).gained(old(self).hist());
                &&& added.len() >= 3
                &&& added[0] == (BusEvent::XcsSet { high: true })
                &&& added[1] == (BusEvent::XdcsSet { high: false })
                &&& added.last() == (BusEvent::XdcsSet { high: true })
                &&& spi_out_payloads(added) == chunk_seqs(data@, chunk_size as nat)
                &&& all_spi_out_fast(added)
                &&& flow_controlled(added)
                &&& stream_events_shape(added)
            }),
            r is Err ==> spi_out_payloads(final(self).gained(old(self).hist())).is_prefix_of(
                chunk_seqs(data@, chunk_size as nat),
            ),
            r is Err ==> flow_controlled(final(self).gained(old(self).hist()))
                && all_spi_out_fast(final(self).gained(old(self).hist())) && stream_events_shape(
                final(self).gained(old(self).hist()),
            ),
            data@.len() == 0 && r is Ok ==> final(self).gained(old(self).hist()) == seq![
                BusEvent::XcsSet { high: true },
                BusEvent::XdcsSet { high: false },
                BusEvent::XdcsSet { high: true },
            ],
    {
        let ghost h0 = self.hist();
        match self.data_mode_on() {
            Ok(_) => {},
            Err(e) => {
                proof {
                    if self.hist() == h0 {
                        assert(self.hist() =~= h0 + Seq::<BusEvent>::empty());
                        lemma_quiet_extension(h0, Seq::<BusEvent>::empty());
                        lemma_spi_out_payloads_quiet(events_since(self.hist(), h0));
                    } else {
                        assert(self.hist() =~= h0 + seq![BusEvent::XcsSet { high: true }]);
                        lemma_quiet_extension(h0, seq![BusEvent::XcsSet { high: true }]);
                        lemma_spi_out_payloads_quiet(events_since(self.hist(), h0));
                    }
                    lemma_concat_prefix(
                        Seq::<Seq<u8>>::empty(),
                        chunk_seqs(data@, chunk_size as nat),
                    );
                    assert(Seq::<Seq<u8>>::empty() + chunk_seqs(data@, chunk_size as nat)
                        =~= chunk_seqs(data@, chunk_size as nat));
                    let g = events_since(self.hist(), h0);
                    assert(forall|i: int| 0 <= i < g.len() ==> !(#[trigger] g[i] is SpiOut));
                    crate::bus::lemma_no_out_stream_props(g);
                    assert(stream_events_shape(g));
                }
                return Err(e);
            },
        }
        let ghost hstart = self.hist();
        proof {
            assert(hstart == h0 + seq![
                BusEvent::XcsSet { high: true },
                BusEvent::XdcsSet { high: false },
            ]);
            assert(hstart =~= hstart + (Seq::<BusEvent>::empty() + Seq::<BusEvent>::empty()));
            crate::bus::lemma_extend_no_out(
                hstart,
                Seq::<BusEvent>::empty(),
                Seq::<BusEvent>::empty(),
                hstart,
            );
            assert(spi_out_payloads(Seq::<BusEvent>::empty()) == Seq::<Seq<u8>>::empty());
            assert(Seq::<Seq<u8>>::empty() + chunk_seqs(data@, chunk_size as nat) =~= chunk_seqs(
                data@,
                chunk_size as nat,
            ));
            assert(data@.skip(0) =~= data@);
        }
        let mut offset: usize = 0;
        while offset < data.len()
            invariant
                chunk_size > 0,
                offset <= data@.len(),
                self.volume() == old(self).volume(),
                self.balance() == old(self).balance(),
                h0 == old(self).hist(),
                hstart == h0 + seq![
                    BusEvent::XcsSet { high: true },
                    BusEvent::XdcsSet { high: false },
                ],
                hstart.is_prefix_of(self.hist()),
                spi_out_payloads(events_since(self.hist(), hstart)) + chunk_seqs(
                    data@.skip(offset as int),
                    chunk_size as nat,
                ) == chunk_seqs(data@, chunk_size as nat),
                all_spi_out_fast(events_since(self.hist(), hstart)),
                flow_controlled(events_since(self.hist(), hstart)),
                no_select_events(events_since(self.hist(), hstart)),
                events_since(self.hist(), hstart).len() > 0 ==> events_since(
                    self.hist(),
                    hstart,
                )[0] is DreqRead,
                data@.len() == 0 ==> self.hist() == hstart,
            decreases data@.len() - offset,
        {
            let remaining = data.len() - offset;
            let chunk_len = if remaining > chunk_size {
                chunk_size
            } else {
                remaining
            };
            let ghost acc = events_since(self.hist(), hstart);
            let ghost hpre = self.hist();
            proof {
                lemma_prefix_split(hstart, hpre);
            }
            match self.await_data_request() {
                Ok(_) => {},
                Err(e) => {
                    let ghost he = self.hist();
                    proof {
                        let kk: nat = if e == DSPError::DataRequestTimeout {
                            DREQ_POLL_LIMIT as nat
                        } else {
                            choose|k: nat|
                                k < DREQ_POLL_LIMIT && he == hpre + #[trigger] low_polls(k)
                        };
                        assert(he == hpre + low_polls(kk));
                        assert(he =~= hstart + (acc + low_polls(kk)));
                        crate::bus::lemma_extend_no_out(hstart, acc, low_polls(kk), he);
                        lemma_concat_prefix(
                            spi_out_payloads(acc),
                            chunk_seqs(data@.skip(offset as int), chunk_size as nat),
                        );
                        crate::bus::lemma_events_since(hstart, acc + low_polls(kk));
                        crate::bus::lemma_polls_no_select(kk);
                        crate::bus::lemma_no_out_stream_props(low_polls(kk));
                        lemma_flow_concat(acc, low_polls(kk));
                        lemma_fast_concat(acc, low_polls(kk));
                        crate::bus::lemma_no_select_concat(acc, low_polls(kk));
                        if acc.len() == 0 && kk > 0 {
                            assert((acc + low_polls(kk))[0] == low_polls(kk)[0]);
                        } else if acc.len() > 0 {
                            assert((acc + low_polls(kk))[0] == acc[0]);
                        }
                    }
                    let _ = self.data_mode_off();
                    proof {
                        self.lemma_stream_error_final(h0, hstart, he, data@, chunk_size as nat);
                    }
                    return Err(e);
                },
            }
            let ghost hmid = self.hist();
            let ghost kk1: nat = choose|k: nat|
                k < DREQ_POLL_LIMIT && hmid == hpre + #[trigger] ready_wait(k);
            let chunk = slice_subrange(data, offset, offset + chunk_len);
            proof {
                assert(chunk@ =~= data@.skip(offset as int).take(chunk_len as int));
                lemma_chunk_seqs_unfold(data@.skip(offset as int), chunk_size as nat);
                assert(data@.skip(offset as int).skip(chunk_len as int) =~= data@.skip(
                    offset as int + chunk_len as int,
                ));
                assert(chunk_seqs(data@.skip(offset as int), chunk_size as nat) == seq![chunk@]
                    + chunk_seqs(data@.skip(offset as int + chunk_len as int), chunk_size as nat));
            }
            match self.write_bytes(chunk) {
                Ok(_) => {},
                Err(e) => {
                    let ghost he = self.hist();
                    proof {
                        if he == hmid {
                            assert(he =~= hstart + (acc + ready_wait(kk1)));
                            lemma_low_polls_quiet(kk1);
                            crate::bus::lemma_extend_no_out(hstart, acc, ready_wait(kk1), he);
                            lemma_concat_prefix(
                                spi_out_payloads(acc),
                                chunk_seqs(data@.skip(offset as int), chunk_size as nat),
                            );
                            crate::bus::lemma_events_since(hstart, acc + ready_wait(kk1));
                            crate::bus::lemma_polls_no_select(kk1);
                            crate::bus::lemma_no_out_stream_props(ready_wait(kk1));
                            lemma_flow_concat(acc, ready_wait(kk1));
                            lemma_fast_concat(acc, ready_wait(kk1));
                            crate::bus::lemma_no_select_concat(acc, ready_wait(kk1));
                            if acc.len() == 0 {
                                assert((acc + ready_wait(kk1))[0] == ready_wait(kk1)[0]);
                            } else {
                                assert((acc + ready_wait(kk1))[0] == acc[0]);
                            }
                        } else {
                            let kk2: nat = choose|k: nat|
                                k <= DREQ_POLL_LIMIT && he == hmid + seq![
                                    BusEvent::SpiOut { fast: true, bytes: chunk@ },
                                ] + #[trigger] low_polls(k);
                            assert(he =~= hstart + (acc + (ready_wait(kk1) + seq![
                                BusEvent::SpiOut { fast: true, bytes: chunk@ },
                            ] + low_polls(kk2))));
                            lemma_low_polls_quiet(kk2);
                            crate::bus::lemma_extend_chunk(
                                hstart,
                                acc,
                                kk1,
                                chunk@,
                                low_polls(kk2),
                                he,
                            );
                            assert(spi_out_payloads(acc) + seq![chunk@] =~= spi_out_payloads(
                                acc,
                            ).push(chunk@));
                            assert((spi_out_payloads(acc) + seq![chunk@]) + chunk_seqs(
                                data@.skip(offset as int + chunk_len as int),
                                chunk_size as nat,
                            ) =~= chunk_seqs(data@, chunk_size as nat));
                            lemma_concat_prefix(
                                spi_out_payloads(acc) + seq![chunk@],
                                chunk_seqs(
                                    data@.skip(offset as int + chunk_len as int),
                                    chunk_size as nat,
                                ),
                            );
                            let unit = ready_wait(kk1) + seq![
                                BusEvent::SpiOut { fast: true, bytes: chunk@ },
                            ] + low_polls(kk2);
                            crate::bus::lemma_events_since(hstart, acc + unit);
                            crate::bus::lemma_polls_no_select(kk2);
                            crate::bus::lemma_chunk_unit_props(kk1, chunk@, low_polls(kk2));
                            lemma_flow_concat(acc, unit);
                            lemma_fast_concat(acc, unit);
                            crate::bus::lemma_no_select_concat(acc, unit);
                            if acc.len() == 0 {
                                assert((acc + unit)[0] == unit[0]);
                            } else {
                                assert((acc + unit)[0] == acc[0]);
                            }
                        }
                    }
                    let _ = self.data_mode_off();
                    proof {
                        self.lemma_stream_error_final(h0, hstart, he, data@, chunk_size as nat);
                    }
                    return Err(e);
                },
            }
            proof {
                let kk2: nat = choose|k: nat|
                    k < DREQ_POLL_LIMIT && self.hist() == hmid + seq![
                        BusEvent::SpiOut { fast: true, bytes: chunk@ },
                    ] + #[trigger] ready_wait(k);
                assert(self.hist() =~= hstart + (acc + (ready_wait(kk1) + seq![
                    BusEvent::SpiOut { fast: true, bytes: chunk@ },
                ] + ready_wait(kk2))));
                crate::bus::lemma_extend_chunk_ok(hstart, acc, kk1, chunk@, kk2, self.hist());
                assert(spi_out_payloads(acc) + seq![chunk@] + chunk_seqs(
                    data@.skip(offset as int + chunk_len as int),
                    chunk_size as nat,
                ) =~= chunk_seqs(data@, chunk_size as nat));
                let unit = ready_wait(kk1) + seq![
                    BusEvent::SpiOut { fast: true, bytes: chunk@ },
                ] + ready_wait(kk2);
                crate::bus::lemma_events_since(hstart, acc + unit);
                crate::bus::lemma_polls_no_select(kk2);
                crate::bus::lemma_chunk_unit_props(kk1, chunk@, ready_wait(kk2));
                crate::bus::lemma_no_select_concat(acc, unit);
            }
            offset = offset + chunk_len;
        }
        proof {
            assert(data@.skip(offset as int) =~= Seq::<u8>::empty());
            assert(chunk_seqs(Seq::<u8>::empty(), chunk_size as nat) == Seq::<Seq<u8>>::empty());
            assert(spi_out_payloads(events_since(self.hist(), hstart)) + Seq::<Seq<u8>>::empty()
                =~= spi_out_payloads(events_since(self.hist(), hstart)));
        }
        let ghost hdone = self.hist();
        match self.data_mode_off() {
            Ok(_) => {},
            Err(e) => {
                proof {
                    lemma_concat_prefix(
                        spi_out_payloads(events_since(hdone, hstart)),
                        Seq::<Seq<u8>>::empty(),
                    );
                    assert(spi_out_payloads(events_since(hdone, hstart)) + Seq::<Seq<u8>>::empty()
                        =~= spi_out_payloads(events_since(hdone, hstart)));
                    self.lemma_stream_error_final(h0, hstart, hdone, data@, chunk_size as nat);
                }
                return Err(e);
            },
        }
        proof {
            self.lemma_stream_finish(h0, hstart, hdone, data@, chunk_size as nat);
            if data@.len() == 0 {
                assert(hdone == hstart);
                assert(self.gained(h0) =~= seq![
                    BusEvent::XcsSet { high: true },
                    BusEvent::XdcsSet { high: false },
                    BusEvent::XdcsSet { high: true },
                ]);
            }
        }
        Ok(())
    }

    /// After a completed stream and the closing deselect, the whole call's
    /// event run opens with the data-mode bracket, closes with the
    /// deselect, and carries exactly the streamed payloads, flow
    /// controlled and at the fast clock.
    proof fn lemma_stream_finish(
        &self,
        h0: Seq<BusEvent>,
        hstart: Seq<BusEvent>,
        hdone: Seq<BusEvent>,
        data: Seq<u8>,
        size: nat,
    )
        requires
            size > 0,
            hstart == h0 + seq![
                BusEvent::XcsSet { high: true },
                BusEvent::XdcsSet { high: false },
            ],
            hstart.is_prefix_of(hdone),
            spi_out_payloads(events_since(hdone, hstart)) == chunk_seqs(data, size),
            all_spi_out_fast(events_since(hdone, hstart)),
            flow_controlled(events_since(hdone, hstart)),
            no_select_events(events_since(hdone, hstart)),
            events_since(hdone, hstart).len() > 0 ==> events_since(hdone, hstart)[0] is DreqRead,
            self.hist() == hdone.push(BusEvent::XdcsSet { high: true }),
        ensures
            h0.is_prefix_of(self.hist()),
            ({
                let added = events_since(self.hist(), h0);
                &&& added.len() >= 3
                &&& added[0] == (BusEvent::XcsSet { high: true })
                &&& added[1] == (BusEvent::XdcsSet { high: false })
                &&& added.last() == (BusEvent::XdcsSet { high: true })
                &&& spi_out_payloads(added) == chunk_seqs(data, size)
                &&& all_spi_out_fast(added)
                &&& flow_controlled(added)
                &&& stream_events_shape(added)
            }),
    {
        let start = seq![
            BusEvent::XcsSet { high: true },
            BusEvent::XdcsSet { high: false },
        ];
        let acc = events_since(hdone, hstart);
        lemma_prefix_split(hstart, hdone);
        let added = start + acc + seq![BusEvent::XdcsSet { high: true }];
        assert(self.hist() =~= h0 + added);
        crate::bus::lemma_events_since(h0, added);
        lemma_spi_out_payloads_concat(start + acc, seq![BusEvent::XdcsSet { high: true }]);
        lemma_spi_out_payloads_concat(start, acc);
        lemma_spi_out_payloads_quiet(start);
        lemma_spi_out_payloads_quiet(seq![BusEvent::XdcsSet { high: true }]);
        assert(spi_out_payloads(added) =~= spi_out_payloads(acc));
        lemma_fast_concat(start, acc);
        lemma_fast_concat(start + acc, seq![BusEvent::XdcsSet { high: true }]);
        lemma_flow_concat(start, acc);
        lemma_flow_concat(start + acc, seq![BusEvent::XdcsSet { high: true }]);
        assert(added[0] == (BusEvent::XcsSet { high: true }));
        assert(added[1] == (BusEvent::XdcsSet { high: false }));
        assert(added.last() == (BusEvent::XdcsSet { high: true }));
        assert forall|i: int|
            2 <= i < added.len() && (#[trigger] added[i] is XcsSet || added[i] is XdcsSet) implies i
            == added.len() - 1 && added[i] == (BusEvent::XdcsSet { high: true }) by {
            if i < 2 + acc.len() {
                assert(added[i] == acc[i - 2]);
            } else {
                assert(added[i] == (BusEvent::XdcsSet { high: true }));
            }
        }
        assert(stream_events_shape(added));
    }

    /// Feeds `length` filler units to the data interface to drain the
    /// chip's decode pipeline: data mode on, then per unit the end-fill
    /// byte is fetched from the chip's RAM and sent as a 2-byte word whose
    /// high byte is zero, with a wait for readiness ahead of each batch;
    /// data mode off at the end.
    #[verifier::rlimit(60)]
    pub fn sdi_send_fillers(&mut self, length: usize) -> (r: Result<(), DSPError>)
        ensures
            final(self).volume() == old(self).volume(),
            final(self).balance() == old(self).balance(),
            old(self).hist().is_prefix_of(final(self).hist()),
            traffic_confined(final(self).gained(old(self).hist()), SCI_WRAMADDR, SCI_WRAM),
            r is Ok ==> short_payloads(final(self).gained(old(self).hist())).len() == length,
            short_payloads(final(self).gained(old(self).hist())).len() <= length,
            forall|i: int|
                0 <= i < short_payloads(final(self).gained(old(self).hist())).len()
                    ==> #[trigger] short_payloads(final(self).gained(old(self).hist()))[i]
                    == seq![0u8, short_payloads(final(self).gained(old(self).hist()))[i][1]],
            r is Ok ==> crate::bus::reg_reads_of(
                reg_traffic(final(self).gained(old(self).hist()), SCI_WRAM),
            ).len() == length,
            r is Ok ==> forall|i: int|
                0 <= i < length ==> #[trigger] short_payloads(
                    final(self).gained(old(self).hist()),
                )[i] == seq![
                    0u8,
                    (crate::bus::reg_reads_of(
                        reg_traffic(final(self).gained(old(self).hist()), SCI_WRAM),
                    )[i] & 0xFF) as u8,
                ],
            r is Ok ==> reg_traffic(final(self).gained(old(self).hist()), SCI_WRAMADDR).len()
                == length && (forall|j: int|
                0 <= j < length ==> #[trigger] reg_traffic(
                    final(self).gained(old(self).hist()),
                    SCI_WRAMADDR,
                )[j] == RegOp::RegWrite(ADDR_END_FILL_BYTE)),
            r is Ok ==> ({
                let g = final(self).gained(old(self).hist());
                g.len() >= 3 && g[0] == (BusEvent::XcsSet { high: true }) && g[1] == (
                BusEvent::XdcsSet { high: false }) && g.last() == (BusEvent::XdcsSet {
                    high: true,
                })
            }),
            crate::bus::filler_flow_controlled(final(self).gained(old(self).hist())),
    {
        let ghost h0 = self.hist();
        match self.data_mode_on() {
            Ok(_) => {},
            Err(e) => {
                proof {
                    if self.hist() == h0 {
                        assert(self.hist() =~= h0 + Seq::<BusEvent>::empty());
                        lemma_quiet_extension(h0, Seq::<BusEvent>::empty());
                    } else {
                        assert(self.hist() =~= h0 + seq![BusEvent::XcsSet { high: true }]);
                        lemma_quiet_extension(h0, seq![BusEvent::XcsSet { high: true }]);
                    }
                    crate::bus::lemma_short_payloads_none(self.gained(h0));
                    assert(crate::bus::filler_flow_controlled(self.gained(h0)));
                }
                return Err(e);
            },
        }
        proof {
            let start = seq![
                BusEvent::XcsSet { high: true },
                BusEvent::XdcsSet { high: false },
            ];
            assert(self.hist() =~= h0 + start);
            lemma_quiet_extension(h0, start);
            crate::bus::lemma_short_payloads_none(self.gained(h0));
            assert(reg_traffic(self.gained(h0), SCI_WRAM) == Seq::<RegOp>::empty());
            assert(reg_traffic(self.gained(h0), SCI_WRAMADDR) == Seq::<RegOp>::empty());
            assert(crate::bus::reg_reads_of(Seq::<RegOp>::empty()) == Seq::<u16>::empty());
            assert(self.gained(h0)[0] == (BusEvent::XcsSet { high: true }));
            assert(self.gained(h0)[1] == (BusEvent::XdcsSet { high: false }));
            assert(crate::bus::filler_flow_controlled(self.gained(h0)));
        }
        let mut sent: usize = 0;
        while sent < length
            invariant
                sent <= length,
                self.volume() == old(self).volume(),
                self.balance() == old(self).balance(),
                h0 == old(self).hist(),
                h0.is_prefix_of(self.hist()),
                short_payloads(events_since(self.hist(), h0)).len() == sent,
                forall|i: int|
                    0 <= i < sent ==> #[trigger] short_payloads(events_since(self.hist(), h0))[i]
                        == seq![0u8, short_payloads(events_since(self.hist(), h0))[i][1]],
                crate::bus::reg_reads_of(
                    reg_traffic(events_since(self.hist(), h0), SCI_WRAM),
                ).len() == sent,
                forall|i: int|
                    0 <= i < sent ==> #[trigger] short_payloads(events_since(self.hist(), h0))[i]
                        == seq![
                        0u8,
                        (crate::bus::reg_reads_of(
                            reg_traffic(events_since(self.hist(), h0), SCI_WRAM),
                        )[i] & 0xFF) as u8,
                    ],
                traffic_confined(events_since(self.hist(), h0), SCI_WRAMADDR, SCI_WRAM),
                reg_traffic(events_since(self.hist(), h0), SCI_WRAMADDR).len() == sent,
                forall|j: int|
                    0 <= j < sent ==> #[trigger] reg_traffic(
                        events_since(self.hist(), h0),
                        SCI_WRAMADDR,
                    )[j] == RegOp::RegWrite(ADDR_END_FILL_BYTE),
                events_since(self.hist(), h0).len() >= 2,
                events_since(self.hist(), h0)[0] == (BusEvent::XcsSet { high: true }),
                events_since(self.hist(), h0)[1] == (BusEvent::XdcsSet { high: false }),
                crate::bus::filler_flow_controlled(events_since(self.hist(), h0)),
            decreases length - sent,
        {
            let ghost hpre = self.hist();
            if sent % (VS1053_CHUNK_SIZE as usize) == 0 {
                match self.await_data_request() {
                    Ok(_) => {},
                    Err(e) => {
                        let ghost he = self.hist();
                        proof {
                            self.lemma_filler_quiet_wait(h0, hpre);
                        }
                        let _ = self.data_mode_off();
                        proof {
                            self.lemma_filler_cleanup(h0, he);
                        }
                        return Err(e);
                    },
                }
                proof {
                    self.lemma_filler_quiet_wait_ok(h0, hpre);
                }
            }
            let ghost hwait = self.hist();
            let efb = match self._wram_read(ADDR_END_FILL_BYTE) {
                Ok(v) => v,
                Err(e) => {
                    let ghost he = self.hist();
                    proof {
                        lemma_extend_keeps_shorts(h0, hwait, he, SCI_WRAMADDR, SCI_WRAM);
                        lemma_gained_compose(h0, hwait, he);
                        crate::bus::lemma_ffc_extend(
                            events_since(hwait, h0),
                            events_since(he, hwait),
                        );
                    }
                    let _ = self.data_mode_off();
                    proof {
                        self.lemma_filler_cleanup(h0, he);
                    }
                    return Err(e);
                },
            };
            let ghost hread = self.hist();
            proof {
                lemma_extend_keeps_shorts(h0, hwait, hread, SCI_WRAMADDR, SCI_WRAM);
                lemma_gained_compose(h0, hwait, hread);
                crate::bus::lemma_ffc_extend(events_since(hwait, h0), events_since(hread, hwait));
                crate::bus::lemma_reg_reads_compose(h0, hwait, hread, SCI_WRAM);
                crate::bus::lemma_reg_reads_single(RegOp::RegRead(efb));
                crate::bus::lemma_reg_reads_compose(h0, hwait, hread, SCI_WRAMADDR);
                assert(reg_traffic(events_since(hread, h0), SCI_WRAMADDR) =~= reg_traffic(
                    events_since(hwait, h0),
                    SCI_WRAMADDR,
                ).push(RegOp::RegWrite(ADDR_END_FILL_BYTE)));
            }
            let end_fill_byte: u16 = efb & 0xFF;
            let fill_lo: u8 = (end_fill_byte % 256) as u8;
            let mut unit: Vec<u8> = Vec::new();
            unit.push(0);
            unit.push(fill_lo);
            match self.port.spi_out(true, unit.as_slice()) {
                Ok(_) => {},
                Err(e) => {
                    let ghost he = self.hist();
                    let _ = self.data_mode_off();
                    proof {
                        self.lemma_filler_cleanup(h0, he);
                    }
                    return Err(e);
                },
            }
            proof {
                assert(unit@ =~= seq![0u8, fill_lo]);
                assert((efb & 0xFF) <= 0xFF) by (bit_vector);
                assert(fill_lo == (efb & 0xFF) as u8);
                crate::bus::lemma_extend_short_out(
                    h0,
                    hread,
                    self.hist(),
                    unit@,
                    SCI_WRAMADDR,
                    SCI_WRAM,
                );
                let fills = short_payloads(events_since(self.hist(), h0));
                let reads = crate::bus::reg_reads_of(
                    reg_traffic(events_since(self.hist(), h0), SCI_WRAM),
                );
                assert(reads == crate::bus::reg_reads_of(
                    reg_traffic(events_since(hwait, h0), SCI_WRAM),
                ).push(efb));
                assert forall|i: int| 0 <= i < sent + 1 implies #[trigger] fills[i] == seq![
                    0u8,
                    (reads[i] & 0xFF) as u8,
                ] by {
                    if i < sent {
                        assert(fills[i] == short_payloads(events_since(hread, h0))[i]);
                        assert(reads[i] == crate::bus::reg_reads_of(
                            reg_traffic(events_since(hwait, h0), SCI_WRAM),
                        )[i]);
                    } else {
                        assert(fills[i] == unit@);
                        assert(reads[i] == efb);
                    }
                }
                assert forall|i: int| 0 <= i < sent + 1 implies #[trigger] fills[i] == seq![
                    0u8,
                    fills[i][1],
                ] by {
                    assert(fills[i] == seq![0u8, (reads[i] & 0xFF) as u8]);
                }
                let ptr = reg_traffic(events_since(self.hist(), h0), SCI_WRAMADDR);
                assert(ptr == reg_traffic(events_since(hread, h0), SCI_WRAMADDR));
                assert forall|j: int| 0 <= j < sent + 1 implies #[trigger] ptr[j]
                    == RegOp::RegWrite(ADDR_END_FILL_BYTE) by {
                    if j < sent {
                        assert(ptr[j] == reg_traffic(events_since(hwait, h0), SCI_WRAMADDR)[j]);
                    }
                }
                crate::bus::lemma_prefix_trans(h0, hwait, hread);
                assert(hread.is_prefix_of(self.hist())) by {
                    assert(hread =~= self.hist().subrange(0, hread.len() as int));
                }
                crate::bus::lemma_prefix_trans(h0, hpre, hwait);
                self.lemma_head_events_stable(h0, hpre);
                let (k1, k2): (nat, nat) = choose|k1: nat, k2: nat|
                    k1 < DREQ_POLL_LIMIT && k2 < DREQ_POLL_LIMIT && hread == hwait
                        + #[trigger] reg_write_events(true, SCI_WRAMADDR, ADDR_END_FILL_BYTE, k1)
                        + #[trigger] reg_read_events(SCI_WRAM, efb, k2);
                let rr = reg_read_events(SCI_WRAM, efb, k2);
                assert(rr.len() == 5 + k2);
                assert(rr[rr.len() - 1] == (BusEvent::XcsSet { high: true }));
                assert(rr[rr.len() - 2] == ready_wait(k2)[k2 as int]);
                assert(ready_wait(k2)[k2 as int] == (BusEvent::DreqRead { high: true }));
                assert(hread[hread.len() - 2] == rr[rr.len() - 2]);
                let gold = events_since(hread, h0);
                let gnew = events_since(self.hist(), h0);
                assert(gnew.len() == gold.len() + 1);
                assert forall|i: int|
                    0 <= i < gnew.len() && #[trigger] gnew[i] is SpiOut
                        && gnew[i]->SpiOut_bytes.len() == 2 implies i >= 2 && gnew[i - 2] == (
                BusEvent::DreqRead { high: true }) by {
                    if i < gold.len() {
                        assert(gnew[i] == gold[i]);
                        if i >= 2 {
                            assert(gnew[i - 2] == gold[i - 2]);
                        }
                    } else {
                        assert(gnew[i - 2] == self.hist()[i - 2 + h0.len() as int]);
                        assert(self.hist()[i - 2 + h0.len() as int] == hread[hread.len() - 2]);
                    }
                }
                assert(crate::bus::filler_flow_controlled(gnew));
            }
            sent = sent + 1;
        }
        let ghost hdone = self.hist();
        match self.data_mode_off() {
            Ok(_) => {},
            Err(e) => {
                proof {
                    self.lemma_filler_cleanup(h0, hdone);
                }
                return Err(e);
            },
        }
        proof {
            self.lemma_filler_cleanup(h0, hdone);
            assert(self.hist() == hdone.push(BusEvent::XdcsSet { high: true }));
            assert(hdone.is_prefix_of(self.hist())) by {
                assert(hdone =~= self.hist().subrange(0, hdone.len() as int));
            }
            self.lemma_head_events_stable(h0, hdone);
            assert(self.gained(h0).last() == (BusEvent::XdcsSet { high: true }));
        }
        Ok(())
    }

    /// After a failed wait during filler traffic, the gained events stay
    /// quiet beyond what was already sent.
    proof fn lemma_filler_quiet_wait(&self, h0: Seq<BusEvent>, hpre: Seq<BusEvent>)
        requires
            h0.is_prefix_of(hpre),
            traffic_confined(events_since(hpre, h0), SCI_WRAMADDR, SCI_WRAM),
            exists|k: nat| self.hist() == hpre + #[trigger] low_polls(k),
        ensures
            h0.is_prefix_of(self.hist()),
            short_payloads(events_since(self.hist(), h0)) == short_payloads(
                events_since(hpre, h0),
            ),
            traffic_confined(events_since(self.hist(), h0), SCI_WRAMADDR, SCI_WRAM),
            reg_traffic(events_since(self.hist(), h0), SCI_WRAM) == reg_traffic(
                events_since(hpre, h0),
                SCI_WRAM,
            ),
            reg_traffic(events_since(self.hist(), h0), SCI_WRAMADDR) == reg_traffic(
                events_since(hpre, h0),
                SCI_WRAMADDR,
            ),
            crate::bus::filler_flow_controlled(events_since(hpre, h0))
                ==> crate::bus::filler_flow_controlled(events_since(self.hist(), h0)),
    {
        let kk: nat = choose|k: nat| self.hist() == hpre + #[trigger] low_polls(k);
        lemma_low_polls_quiet(kk);
        assert(hpre.is_prefix_of(self.hist())) by {
            assert(hpre =~= self.hist().subrange(0, hpre.len() as int));
        }
        crate::bus::lemma_events_since(hpre, low_polls(kk));
        crate::bus::lemma_quiet_all(low_polls(kk));
        lemma_extend_keeps_shorts(h0, hpre, self.hist(), SCI_WRAMADDR, SCI_WRAM);
        lemma_gained_compose(h0, hpre, self.hist());
        lemma_reg_traffic_concat(
            events_since(hpre, h0),
            events_since(self.hist(), hpre),
            SCI_WRAM,
        );
        assert(reg_traffic(events_since(self.hist(), h0), SCI_WRAM) =~= reg_traffic(
            events_since(hpre, h0),
            SCI_WRAM,
        ));
        lemma_reg_traffic_concat(
            events_since(hpre, h0),
            events_since(self.hist(), hpre),
            SCI_WRAMADDR,
        );
        assert(reg_traffic(events_since(self.hist(), h0), SCI_WRAMADDR) =~= reg_traffic(
            events_since(hpre, h0),
            SCI_WRAMADDR,
        ));
        if crate::bus::filler_flow_controlled(events_since(hpre, h0)) {
            crate::bus::lemma_ffc_extend(events_since(hpre, h0), events_since(self.hist(), hpre));
        }
    }

    /// After a completed wait during filler traffic, the gained events
    /// stay quiet beyond what was already sent.
    proof fn lemma_filler_quiet_wait_ok(&self, h0: Seq<BusEvent>, hpre: Seq<BusEvent>)
        requires
            h0.is_prefix_of(hpre),
            traffic_confined(events_since(hpre, h0), SCI_WRAMADDR, SCI_WRAM),
            exists|k: nat| self.hist() == hpre + #[trigger] ready_wait(k),
        ensures
            h0.is_prefix_of(self.hist()),
            short_payloads(events_since(self.hist(), h0)) == short_payloads(
                events_since(hpre, h0),
            ),
            traffic_confined(events_since(self.hist(), h0), SCI_WRAMADDR, SCI_WRAM),
            reg_traffic(events_since(self.hist(), h0), SCI_WRAM) == reg_traffic(
                events_since(hpre, h0),
                SCI_WRAM,
            ),
            reg_traffic(events_since(self.hist(), h0), SCI_WRAMADDR) == reg_traffic(
                events_since(hpre, h0),
                SCI_WRAMADDR,
            ),
            crate::bus::filler_flow_controlled(events_since(hpre, h0))
                ==> crate::bus::filler_flow_controlled(events_since(self.hist(), h0)),
    {
        let kk: nat = choose|k: nat| self.hist() == hpre + #[trigger] ready_wait(k);
        lemma_low_polls_quiet(kk);
        assert(hpre.is_prefix_of(self.hist())) by {
            assert(hpre =~= self.hist().subrange(0, hpre.len() as int));
        }
        crate::bus::lemma_events_since(hpre, ready_wait(kk));
        crate::bus::lemma_quiet_all(ready_wait(kk));
        lemma_extend_keeps_shorts(h0, hpre, self.hist(), SCI_WRAMADDR, SCI_WRAM);
        lemma_gained_compose(h0, hpre, self.hist());
        lemma_reg_traffic_concat(
            events_since(hpre, h0),
            events_since(self.hist(), hpre),
            SCI_WRAM,
        );
        assert(reg_traffic(events_since(self.hist(), h0), SCI_WRAM) =~= reg_traffic(
            events_since(hpre, h0),
            SCI_WRAM,
        ));
        lemma_reg_traffic_concat(
            events_since(hpre, h0),
            events_since(self.hist(), hpre),
            SCI_WRAMADDR,
        );
        assert(reg_traffic(events_since(self.hist(), h0), SCI_WRAMADDR) =~= reg_traffic(
            events_since(hpre, h0),
            SCI_WRAMADDR,
        ));
        if crate::bus::filler_flow_controlled(events_since(hpre, h0)) {
            crate::bus::lemma_ffc_extend(events_since(hpre, h0), events_since(self.hist(), hpre));
        }
    }

    /// After the closing deselect attempt of filler traffic, payloads and
    /// confinement carry over unchanged.
    proof fn lemma_filler_cleanup(&self, h0: Seq<BusEvent>, he: Seq<BusEvent>)
        requires
            h0.is_prefix_of(he),
            traffic_confined(events_since(he, h0), SCI_WRAMADDR, SCI_WRAM),
            self.hist() == he || self.hist() == he.push(BusEvent::XdcsSet { high: true }),
        ensures
            h0.is_prefix_of(self.hist()),
            short_payloads(events_since(self.hist(), h0)) == short_payloads(events_since(he, h0)),
            traffic_confined(events_since(self.hist(), h0), SCI_WRAMADDR, SCI_WRAM),
            reg_traffic(events_since(self.hist(), h0), SCI_WRAM) == reg_traffic(
                events_since(he, h0),
                SCI_WRAM,
            ),
            reg_traffic(events_since(self.hist(), h0), SCI_WRAMADDR) == reg_traffic(
                events_since(he, h0),
                SCI_WRAMADDR,
            ),
            crate::bus::filler_flow_controlled(events_since(he, h0))
                ==> crate::bus::filler_flow_controlled(events_since(self.hist(), h0)),
    {
        let t: Seq<BusEvent> = if self.hist() == he {
            Seq::empty()
        } else {
            seq![BusEvent::XdcsSet { high: true }]
        };
        assert(self.hist() =~= he + t);
        assert(he.is_prefix_of(self.hist())) by {
            assert(he =~= self.hist().subrange(0, he.len() as int));
        }
        crate::bus::lemma_events_since(he, t);
        crate::bus::lemma_quiet_all(t);
        lemma_extend_keeps_shorts(h0, he, self.hist(), SCI_WRAMADDR, SCI_WRAM);
        lemma_gained_compose(h0, he, self.hist());
        lemma_reg_traffic_concat(events_since(he, h0), events_since(self.hist(), he), SCI_WRAM);
        assert(reg_traffic(events_since(self.hist(), h0), SCI_WRAM) =~= reg_traffic(
            events_since(he, h0),
            SCI_WRAM,
        ));
        lemma_reg_traffic_concat(
            events_since(he, h0),
            events_since(self.hist(), he),
            SCI_WRAMADDR,
        );
        assert(reg_traffic(events_since(self.hist(), h0), SCI_WRAMADDR) =~= reg_traffic(
            events_since(he, h0),
            SCI_WRAMADDR,
        ));
        if crate::bus::filler_flow_controlled(events_since(he, h0)) {
            crate::bus::lemma_ffc_extend(events_since(he, h0), events_since(self.hist(), he));
        }
    }

    /// The opening events of a gained run survive any later extension.
    proof fn lemma_head_events_stable(&self, h0: Seq<BusEvent>, hmid: Seq<BusEvent>)
        requires
            h0.is_prefix_of(hmid),
            hmid.is_prefix_of(self.hist()),
            events_since(hmid, h0).len() >= 2,
        ensures
            h0.is_prefix_of(self.hist()),
            events_since(self.hist(), h0).len() >= events_since(hmid, h0).len(),
            events_since(self.hist(), h0)[0] == events_since(hmid, h0)[0],
            events_since(self.hist(), h0)[1] == events_since(hmid, h0)[1],
    {
        lemma_gained_compose(h0, hmid, self.hist());
        assert(events_since(self.hist(), h0)[0] == events_since(hmid, h0)[0]);
        assert(events_since(self.hist(), h0)[1] == events_since(hmid, h0)[1]);
    }

    /// The mode-register readings taken since an earlier history.
    pub open spec fn mode_reads(&self, pre: Seq<BusEvent>) -> Seq<u16> {
        crate::bus::reg_reads_of(reg_traffic(self.gained(pre), SCI_MODE))
    }

    /// A history extension confined away from the mode register gains no
    /// mode readings.
    proof fn lemma_mode_seg_confined(&self, h0: Seq<BusEvent>, hmid: Seq<BusEvent>)
        requires
            h0.is_prefix_of(hmid),
            hmid.is_prefix_of(self.hist()),
            traffic_confined(events_since(self.hist(), hmid), SCI_WRAMADDR, SCI_WRAM),
        ensures
            h0.is_prefix_of(self.hist()),
            self.mode_reads(h0) == crate::bus::reg_reads_of(
                reg_traffic(events_since(hmid, h0), SCI_MODE),
            ),
    {
        crate::bus::lemma_reg_reads_compose(h0, hmid, self.hist(), SCI_MODE);
        assert(reg_traffic(events_since(self.hist(), hmid), SCI_MODE) == Seq::<RegOp>::empty());
        assert(crate::bus::reg_reads_of(Seq::<RegOp>::empty()) == Seq::<u16>::empty());
        assert(self.mode_reads(h0) =~= crate::bus::reg_reads_of(
            reg_traffic(events_since(hmid, h0), SCI_MODE),
        ));
    }

    /// A history extension whose mode traffic is at most one write gains
    /// no mode readings.
    proof fn lemma_mode_seg_writes(&self, h0: Seq<BusEvent>, hmid: Seq<BusEvent>, value: u16)
        requires
            h0.is_prefix_of(hmid),
            hmid.is_prefix_of(self.hist()),
            reg_traffic(events_since(self.hist(), hmid), SCI_MODE).is_prefix_of(
                seq![RegOp::RegWrite(value)],
            ),
        ensures
            h0.is_prefix_of(self.hist()),
            self.mode_reads(h0) == crate::bus::reg_reads_of(
                reg_traffic(events_since(hmid, h0), SCI_MODE),
            ),
    {
        crate::bus::lemma_reg_reads_compose(h0, hmid, self.hist(), SCI_MODE);
        let t = reg_traffic(events_since(self.hist(), hmid), SCI_MODE);
        assert forall|j: int| 0 <= j < t.len() implies #[trigger] t[j] is RegWrite by {
            assert(t[j] == seq![RegOp::RegWrite(value)][j]);
        }
        crate::bus::lemma_reg_reads_of_writes(t);
        assert(self.mode_reads(h0) =~= crate::bus::reg_reads_of(
            reg_traffic(events_since(hmid, h0), SCI_MODE),
        ));
    }

    /// A history extension whose mode traffic is one read gains exactly
    /// that reading.
    proof fn lemma_mode_seg_read(&self, h0: Seq<BusEvent>, hmid: Seq<BusEvent>, v: u16)
        requires
            h0.is_prefix_of(hmid),
            hmid.is_prefix_of(self.hist()),
            reg_traffic(events_since(self.hist(), hmid), SCI_MODE) == seq![RegOp::RegRead(v)],
        ensures
            h0.is_prefix_of(self.hist()),
            self.mode_reads(h0) == crate::bus::reg_reads_of(
                reg_traffic(events_since(hmid, h0), SCI_MODE),
            ).push(v),
    {
        crate::bus::lemma_reg_reads_compose(h0, hmid, self.hist(), SCI_MODE);
        crate::bus::lemma_reg_reads_single(RegOp::RegRead(v));
        assert(self.mode_reads(h0) =~= crate::bus::reg_reads_of(
            reg_traffic(events_since(hmid, h0), SCI_MODE),
        ).push(v));
    }

    /// A history extension whose mode traffic is at most one read gains
    /// at most one reading.
    proof fn lemma_mode_seg_read_err(&self, h0: Seq<BusEvent>, hmid: Seq<BusEvent>)
        requires
            h0.is_prefix_of(hmid),
            hmid.is_prefix_of(self.hist()),
            reg_traffic(events_since(self.hist(), hmid), SCI_MODE).len() <= 1,
        ensures
            h0.is_prefix_of(self.hist()),
            self.mode_reads(h0).len() <= crate::bus::reg_reads_of(
                reg_traffic(events_since(hmid, h0), SCI_MODE),
            ).len() + 1,
    {
        crate::bus::lemma_reg_reads_compose(h0, hmid, self.hist(), SCI_MODE);
        crate::bus::lemma_reg_reads_of_len(reg_traffic(events_since(self.hist(), hmid), SCI_MODE));
    }

    /// Stops the current song: a large filler flush, the cancel bit into
    /// the mode register, then up to 200 rounds of a small filler flush
    /// and a mode readback.  Returns `Ok(true)` — a clean stop — once the
    /// chip clears the cancel bit, after a final large flush; `Ok(false)`
    /// — a forced stop — when the bit never cleared within the bound.
    pub fn stop_song(&mut self) -> (r: Result<bool, DSPError>)
        ensures
            final(self).volume() == old(self).volume(),
            final(self).balance() == old(self).balance(),
            old(self).hist().is_prefix_of(final(self).hist()),
            final(self).mode_reads(old(self).hist()).len() <= 200,
            r == Ok::<bool, DSPError>(true) ==> ({
                let reads = final(self).mode_reads(old(self).hist());
                reads.len() >= 1 && reads.last() & (1u16 << SM_CANCEL) == 0
            }),
            r == Ok::<bool, DSPError>(false) ==> ({
                let reads = final(self).mode_reads(old(self).hist());
                reads.len() == 200 && forall|j: int|
                    0 <= j < reads.len() ==> #[trigger] reads[j] & (1u16 << SM_CANCEL) != 0
            }),
            r is Ok ==> ({
                let traffic = reg_traffic(final(self).gained(old(self).hist()), SCI_MODE);
                &&& traffic.len() == 1 + final(self).mode_reads(old(self).hist()).len()
                &&& traffic[0] == RegOp::RegWrite(cancel_word())
                &&& forall|k: int| 1 <= k < traffic.len() ==> #[trigger] traffic[k] is RegRead
            }),
            r == Ok::<bool, DSPError>(true) ==> short_payloads(
                final(self).gained(old(self).hist()),
            ).len() == 2052 + 32 * final(self).mode_reads(old(self).hist()).len() + 2052,
            r == Ok::<bool, DSPError>(false) ==> short_payloads(
                final(self).gained(old(self).hist()),
            ).len() == 2052 + 32 * 200,
            r == Ok::<bool, DSPError>(true) ==> (forall|j: int|
                0 <= j < final(self).mode_reads(old(self).hist()).len() - 1
                    ==> #[trigger] final(self).mode_reads(old(self).hist())[j] & (1u16
                    << SM_CANCEL) != 0),
    {
        let ghost h0 = self.hist();
        proof {
            assert(self.gained(h0) =~= Seq::<BusEvent>::empty());
            assert(self.mode_reads(h0) =~= Seq::<u16>::empty());
            assert(h0 =~= self.hist().subrange(0, h0.len() as int));
        }
        match self.sdi_send_fillers(2052) {
            Ok(_) => {},
            Err(e) => {
                proof {
                    self.lemma_mode_seg_confined(h0, h0);
                }
                return Err(e);
            },
        }
        let ghost h1 = self.hist();
        proof {
            self.lemma_mode_seg_confined(h0, h0);
            assert(self.mode_reads(h0) == Seq::<u16>::empty());
        }
        self.port.delay_ms(10);
        let cancel_val: u16 = (1u16 << SM_SDINEW) | (1u16 << SM_CANCEL);
        match self.write_register(true, SCI_MODE, cancel_val) {
            Ok(_) => {},
            Err(e) => {
                proof {
                    self.lemma_mode_seg_writes(h0, h1, cancel_val);
                }
                return Err(e);
            },
        }
        proof {
            assert(reg_traffic(events_since(self.hist(), h1), SCI_MODE).is_prefix_of(
                seq![RegOp::RegWrite(cancel_val)],
            )) by {
                let t = reg_traffic(events_since(self.hist(), h1), SCI_MODE);
                assert(t =~= seq![RegOp::RegWrite(cancel_val)].subrange(0, t.len() as int));
            }
            self.lemma_mode_seg_writes(h0, h1, cancel_val);
            crate::bus::lemma_shorts_compose(h0, h1, self.hist());
            crate::bus::lemma_short_payloads_none(events_since(self.hist(), h1));
            assert(short_payloads(events_since(self.hist(), h0)) =~= short_payloads(
                events_since(h1, h0),
            ));
            crate::bus::lemma_reg_reads_compose(h0, h1, self.hist(), SCI_MODE);
            assert(reg_traffic(events_since(h1, h0), SCI_MODE) == Seq::<RegOp>::empty());
            assert(reg_traffic(events_since(self.hist(), h0), SCI_MODE) =~= seq![
                RegOp::RegWrite(cancel_val),
            ]);
        }
        let mut i: u32 = 0;
        while i < 200
            invariant
                i <= 200,
                self.volume() == old(self).volume(),
                self.balance() == old(self).balance(),
                h0 == old(self).hist(),
                h0.is_prefix_of(self.hist()),
                self.mode_reads(h0).len() == i,
                forall|j: int|
                    0 <= j < i ==> #[trigger] self.mode_reads(h0)[j] & (1u16 << SM_CANCEL) != 0,
                short_payloads(events_since(self.hist(), h0)).len() == 2052 + 32 * i,
                reg_traffic(events_since(self.hist(), h0), SCI_MODE).len() == 1 + i,
                reg_traffic(events_since(self.hist(), h0), SCI_MODE)[0] == RegOp::RegWrite(
                    cancel_word(),
                ),
                forall|k: int|
                    1 <= k < reg_traffic(events_since(self.hist(), h0), SCI_MODE).len()
                        ==> #[trigger] reg_traffic(events_since(self.hist(), h0), SCI_MODE)[k]
                        is RegRead,
            decreases 200 - i,
        {
            let ghost ha = self.hist();
            match self.sdi_send_fillers(32) {
                Ok(_) => {},
                Err(e) => {
                    proof {
                        self.lemma_mode_seg_confined(h0, ha);
                    }
                    return Err(e);
                },
            }
            proof {
                self.lemma_mode_seg_confined(h0, ha);
                crate::bus::lemma_shorts_compose(h0, ha, self.hist());
                crate::bus::lemma_reg_reads_compose(h0, ha, self.hist(), SCI_MODE);
                assert(reg_traffic(events_since(self.hist(), ha), SCI_MODE) == Seq::<
                    RegOp,
                >::empty());
                assert(reg_traffic(events_since(self.hist(), h0), SCI_MODE) =~= reg_traffic(
                    events_since(ha, h0),
                    SCI_MODE,
                ));
            }
            let ghost hb = self.hist();
            let modereg = match self.read_register(SCI_MODE) {
                Ok(v) => v,
                Err(e) => {
                    proof {
                        self.lemma_mode_seg_read_err(h0, hb);
                    }
                    return Err(e);
                },
            };
            proof {
                self.lemma_mode_seg_read(h0, hb, modereg);
                assert(self.mode_reads(h0).last() == modereg);
                crate::bus::lemma_shorts_compose(h0, hb, self.hist());
                crate::bus::lemma_short_payloads_none(events_since(self.hist(), hb));
                assert(short_payloads(events_since(self.hist(), h0)) =~= short_payloads(
                    events_since(hb, h0),
                ));
                crate::bus::lemma_reg_reads_compose(h0, hb, self.hist(), SCI_MODE);
                assert(reg_traffic(events_since(self.hist(), h0), SCI_MODE) =~= reg_traffic(
                    events_since(hb, h0),
                    SCI_MODE,
                ) + seq![RegOp::RegRead(modereg)]);
                assert forall|k: int|
                    1 <= k < reg_traffic(events_since(self.hist(), h0), SCI_MODE).len() implies #[trigger] reg_traffic(
                    events_since(self.hist(), h0),
                    SCI_MODE,
                )[k] is RegRead by {
                    let tb = reg_traffic(events_since(hb, h0), SCI_MODE);
                    if k < tb.len() {
                        assert(reg_traffic(events_since(self.hist(), h0), SCI_MODE)[k] == tb[k]);
                    }
                }
            }
            let ghost hc = self.hist();
            if modereg & (1u16 << SM_CANCEL) == 0 {
                match self.sdi_send_fillers(2052) {
                    Ok(_) => {},
                    Err(e) => {
                        proof {
                            self.lemma_mode_seg_confined(h0, hc);
                        }
                        return Err(e);
                    },
                }
                proof {
                    self.lemma_mode_seg_confined(h0, hc);
                    assert(self.mode_reads(h0).last() == modereg);
                    crate::bus::lemma_shorts_compose(h0, hc, self.hist());
                    crate::bus::lemma_reg_reads_compose(h0, hc, self.hist(), SCI_MODE);
                    assert(reg_traffic(events_since(self.hist(), hc), SCI_MODE) == Seq::<
                        RegOp,
                    >::empty());
                    assert(reg_traffic(events_since(self.hist(), h0), SCI_MODE) =~= reg_traffic(
                        events_since(hc, h0),
                        SCI_MODE,
                    ));
                }
                return Ok(true);
            }
            self.port.delay_ms(10);
            proof {
                assert forall|j: int| 0 <= j < i + 1 implies #[trigger] self.mode_reads(h0)[j] & (
                1u16 << SM_CANCEL) != 0 by {
                    if j < i {
                        assert(self.mode_reads(h0)[j] == crate::bus::reg_reads_of(
                            reg_traffic(events_since(hb, h0), SCI_MODE),
                        )[j]);
                    } else {
                        assert(self.mode_reads(h0)[j] == modereg);
                    }
                }
            }
            i = i + 1;
        }
        Ok(false)
    }

    /// Primes the decode pipeline with a short filler burst before a new
    /// stream.
    pub fn start_song(&mut self) -> (r: Result<(), DSPError>)
        ensures
            final(self).volume() == old(self).volume(),
            final(self).balance() == old(self).balance(),
            old(self).hist().is_prefix_of(final(self).hist()),
            traffic_confined(final(self).gained(old(self).hist()), SCI_WRAMADDR, SCI_WRAM),
            r is Ok ==> short_payloads(final(self).gained(old(self).hist())).len() == 10,
    {
        self.sdi_send_fillers(10)
    }

    /// Streams a payload in chunks of the hardware buffer granularity.
    pub fn sdi_send_buffer(&mut self, data: &[u8]) -> (r: Result<(), DSPError>)
        ensures
            final(self).volume() == old(self).volume(),
            final(self).balance() == old(self).balance(),
            old(self).hist().is_prefix_of(final(self).hist()),
            r is Ok ==> ({
                let added = final(self).gained(old(self).hist());
                &&& spi_out_payloads(added) == chunk_seqs(data@, VS1053_CHUNK_SIZE as nat)
                &&& all_spi_out_fast(added)
                &&& flow_controlled(added)
                &&& stream_events_shape(added)
            }),
            r is Err ==> spi_out_payloads(final(self).gained(old(self).hist())).is_prefix_of(
                chunk_seqs(data@, VS1053_CHUNK_SIZE as nat),
            ) && flow_controlled(final(self).gained(old(self).hist())) && all_spi_out_fast(
                final(self).gained(old(self).hist()),
            ) && stream_events_shape(final(self).gained(old(self).hist())),
            data@.len() == 0 && r is Ok ==> final(self).gained(old(self).hist()) == seq![
                BusEvent::XcsSet { high: true },
                BusEvent::XdcsSet { high: false },
                BusEvent::XdcsSet { high: true },
            ],
    {
        self.play_chunk2(data, VS1053_CHUNK_SIZE)
    }

    /// Streams the first `len` bytes of a buffer in chunks of the
    /// hardware buffer granularity.
    pub fn play_chunk(&mut self, data: &[u8], len: usize) -> (r: Result<(), DSPError>)
        requires
            len <= data@.len(),
        ensures
            final(self).volume() == old(self).volume(),
            final(self).balance() == old(self).balance(),
            old(self).hist().is_prefix_of(final(self).hist()),
            r is Ok ==> ({
                let added = final(self).gained(old(self).hist());
                &&& spi_out_payloads(added) == chunk_seqs(
                    data@.take(len as int),
                    VS1053_CHUNK_SIZE as nat,
                )
                &&& all_spi_out_fast(added)
                &&& flow_controlled(added)
                &&& stream_events_shape(added)
            }),
            r is Err ==> spi_out_payloads(final(self).gained(old(self).hist())).is_prefix_of(
                chunk_seqs(data@.take(len as int), VS1053_CHUNK_SIZE as nat),
            ) && flow_controlled(final(self).gained(old(self).hist())) && stream_events_shape(
                final(self).gained(old(self).hist()),
            ),
            len == 0 && r is Ok ==> final(self).gained(old(self).hist()) == seq![
                BusEvent::XcsSet { high: true },
                BusEvent::XdcsSet { high: false },
                BusEvent::XdcsSet { high: true },
            ],
    {
        let head = slice_subrange(data, 0, len);
        proof {
            assert(head@ =~= data@.take(len as int));
        }
        self.sdi_send_buffer(head)
    }

    /// Writes a word into the chip's RAM window: the address goes to the
    /// pointer register, the data to the window register.
    pub fn wram_write(&mut self, address: u16, data: u16) -> (r: Result<(), DSPError>)
        ensures
            final(self).volume() == old(self).volume(),
            final(self).balance() == old(self).balance(),
            old(self).hist().is_prefix_of(final(self).hist()),
            r is Ok ==> gained_wram_write(final(self).hist(), old(self).hist(), address, data),
            traffic_confined(final(self).gained(old(self).hist()), SCI_WRAMADDR, SCI_WRAM),
            no_short_out(final(self).gained(old(self).hist())),
            r is Ok ==> reg_traffic(final(self).gained(old(self).hist()), SCI_WRAMADDR) == seq![
                RegOp::RegWrite(address),
            ] && reg_traffic(final(self).gained(old(self).hist()), SCI_WRAM) == seq![
                RegOp::RegWrite(data),
            ],
            r is Err ==> reg_traffic(final(self).gained(old(self).hist()), SCI_WRAM) == Seq::<
                RegOp,
            >::empty() || reg_traffic(final(self).gained(old(self).hist()), SCI_WRAMADDR) == seq![
                RegOp::RegWrite(address),
            ],
    {
        let ghost h0 = self.hist();
        match self.write_register(true, SCI_WRAMADDR, address) {
            Ok(_) => {},
            Err(e) => {
                proof {
                    assert(reg_traffic(self.gained(h0), SCI_WRAM) == Seq::<RegOp>::empty());
                }
                return Err(e);
            },
        }
        let ghost h1 = self.hist();
        let r2 = self.write_register(true, SCI_WRAM, data);
        proof {
            lemma_gained_compose(h0, h1, self.hist());
            lemma_reg_traffic_concat(
                crate::bus::events_since(h1, h0),
                crate::bus::events_since(self.hist(), h1),
                SCI_WRAMADDR,
            );
            assert(reg_traffic(self.gained(h0), SCI_WRAMADDR) =~= seq![RegOp::RegWrite(address)]);
            assert forall|g: u8| g != SCI_WRAMADDR && g != SCI_WRAM implies #[trigger] reg_traffic(
                self.gained(h0),
                g,
            ) == Seq::<RegOp>::empty() by {
                lemma_reg_traffic_concat(
                    crate::bus::events_since(h1, h0),
                    crate::bus::events_since(self.hist(), h1),
                    g,
                );
                assert(reg_traffic(self.gained(h0), g) =~= Seq::<RegOp>::empty());
            }
            if r2 is Ok {
                let k1: nat = choose|k: nat|
                    k < DREQ_POLL_LIMIT && h1 == h0 + #[trigger] reg_write_events(
                        true,
                        SCI_WRAMADDR,
                        address,
                        k,
                    );
                let k2: nat = choose|k: nat|
                    k < DREQ_POLL_LIMIT && self.hist() == h1 + #[trigger] reg_write_events(
                        true,
                        SCI_WRAM,
                        data,
                        k,
                    );
                assert(self.hist() =~= h0 + reg_write_events(true, SCI_WRAMADDR, address, k1)
                    + reg_write_events(true, SCI_WRAM, data, k2));
                assert(gained_wram_write(self.hist(), h0, address, data));
                lemma_reg_traffic_concat(
                    crate::bus::events_since(h1, h0),
                    crate::bus::events_since(self.hist(), h1),
                    SCI_WRAMADDR,
                );
                lemma_reg_traffic_concat(
                    crate::bus::events_since(h1, h0),
                    crate::bus::events_since(self.hist(), h1),
                    SCI_WRAM,
                );
                assert(reg_traffic(self.gained(h0), SCI_WRAMADDR) =~= seq![
                    RegOp::RegWrite(address),
                ]);
                assert(reg_traffic(self.gained(h0), SCI_WRAM) =~= seq![RegOp::RegWrite(data)]);
            }
        }
        r2
    }

    /// Reads a word back from the chip's RAM window: the address goes to
    /// the pointer register, the window register is read.
    pub fn _wram_read(&mut self, address: u16) -> (r: Result<u16, DSPError>)
        ensures
            final(self).volume() == old(self).volume(),
            final(self).balance() == old(self).balance(),
            old(self).hist().is_prefix_of(final(self).hist()),
            r matches Ok(v) ==> gained_wram_read(final(self).hist(), old(self).hist(), address, v),
            traffic_confined(final(self).gained(old(self).hist()), SCI_WRAMADDR, SCI_WRAM),
            no_short_out(final(self).gained(old(self).hist())),
            r matches Ok(v) ==> reg_traffic(final(self).gained(old(self).hist()), SCI_WRAMADDR)
                == seq![RegOp::RegWrite(address)] && reg_traffic(
                final(self).gained(old(self).hist()),
                SCI_WRAM,
            ) == seq![RegOp::RegRead(v)],
            r is Err ==> reg_traffic(final(self).gained(old(self).hist()), SCI_WRAM) == Seq::<
                RegOp,
            >::empty() || reg_traffic(final(self).gained(old(self).hist()), SCI_WRAMADDR) == seq![
                RegOp::RegWrite(address),
            ],
    {
        let ghost h0 = self.hist();
        match self.write_register(true, SCI_WRAMADDR, address) {
            Ok(_) => {},
            Err(e) => {
                proof {
                    assert(reg_traffic(self.gained(h0), SCI_WRAM) == Seq::<RegOp>::empty());
                }
                return Err(e);
            },
        }
        let ghost h1 = self.hist();
        let r2 = self.read_register(SCI_WRAM);
        proof {
            lemma_gained_compose(h0, h1, self.hist());
            lemma_reg_traffic_concat(
                crate::bus::events_since(h1, h0),
                crate::bus::events_since(self.hist(), h1),
                SCI_WRAMADDR,
            );
            assert(reg_traffic(self.gained(h0), SCI_WRAMADDR) =~= seq![RegOp::RegWrite(address)]);
            assert forall|g: u8| g != SCI_WRAMADDR && g != SCI_WRAM implies #[trigger] reg_traffic(
                self.gained(h0),
                g,
            ) == Seq::<RegOp>::empty() by {
                lemma_reg_traffic_concat(
                    crate::bus::events_since(h1, h0),
                    crate::bus::events_since(self.hist(), h1),
                    g,
                );
                assert(reg_traffic(self.gained(h0), g) =~= Seq::<RegOp>::empty());
            }
            if r2 is Ok {
                let v = r2->Ok_0;
                let k1: nat = choose|k: nat|
                    k < DREQ_POLL_LIMIT && h1 == h0 + #[trigger] reg_write_events(
                        true,
                        SCI_WRAMADDR,
                        address,
                        k,
                    );
                let k2: nat = choose|k: nat|
                    k < DREQ_POLL_LIMIT && self.hist() == h1 + #[trigger] reg_read_events(
                        SCI_WRAM,
                        v,
                        k,
                    );
                assert(self.hist() =~= h0 + reg_write_events(true, SCI_WRAMADDR, address, k1)
                    + reg_read_events(SCI_WRAM, v, k2));
                assert(gained_wram_read(self.hist(), h0, address, v));
                lemma_reg_traffic_concat(
                    crate::bus::events_since(h1, h0),
                    crate::bus::events_since(self.hist(), h1),
                    SCI_WRAMADDR,
                );
                lemma_reg_traffic_concat(
                    crate::bus::events_since(h1, h0),
                    crate::bus::events_since(self.hist(), h1),
                    SCI_WRAM,
                );
                assert(reg_traffic(self.gained(h0), SCI_WRAMADDR) =~= seq![
                    RegOp::RegWrite(address),
                ]);
                assert(reg_traffic(self.gained(h0), SCI_WRAM) =~= seq![RegOp::RegRead(v)]);
            }
        }
        r2
    }

    /// Waits for the data-ready line at the driver's fixed poll bound.
    pub fn await_data_request(&mut self) -> (r: Result<(), DSPError>)
        ensures
            final(self).volume() == old(self).volume(),
            final(self).balance() == old(self).balance(),
            r is Ok ==> exists|k: nat|
                k < DREQ_POLL_LIMIT && final(self).hist() == old(self).hist()
                    + #[trigger] ready_wait(k),
            r is Err ==> r->Err_0 == DSPError::DataRequestTimeout || r->Err_0
                == DSPError::UnableToGetDREQPin,
            r is Err && r->Err_0 == DSPError::DataRequestTimeout ==> final(self).hist() == old(
                self,
            ).hist() + low_polls(DREQ_POLL_LIMIT as nat),
            r is Err && r->Err_0 == DSPError::UnableToGetDREQPin ==> exists|k: nat|
                k < DREQ_POLL_LIMIT && final(self).hist() == old(self).hist()
                    + #[trigger] low_polls(k),
    {
        self.await_ready(DREQ_POLL_LIMIT)
    }
}

} // verus!
