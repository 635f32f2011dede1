//! A scripted, in-memory hardware port.
//!
//! Bench runs need a port with no hardware behind it: pin drives and SPI
//! frames are recorded as they happen, data-ready readings and SPI read
//! responses come from scripts (falling back to a default once a script
//! is exhausted), and each line's fault can be injected.  The recorded
//! operations are exactly the port's event history, so a bench run can
//! check the driver's traffic operation by operation.

use crate::bus::{be_bytes, BusEvent, BusPort, DSPError};
use vstd::prelude::*;
use vstd::slice::slice_index_get;

verus! {

/// One operation performed on the simulated port, with its concrete data.
pub enum RecordedOp {
    /// The command chip-select line was driven to `high`.
    XcsSet { high: bool },
    /// The data chip-select line was driven to `high`.
    XdcsSet { high: bool },
    /// The data-ready line was sampled and read `high`.
    DreqRead { high: bool },
    /// `bytes` were clocked out, at the fast or the slow clock.
    SpiOut { fast: bool, bytes: Vec<u8> },
    /// A two-byte command was answered with a 16-bit response.
    SpiInOut { c0: u8, c1: u8, response: u16 },
}

/// The bus event a recorded operation stands for.
pub open spec fn event_of(op: RecordedOp) -> BusEvent {
    match op {
        RecordedOp::XcsSet { high } => BusEvent::XcsSet { high },
        RecordedOp::XdcsSet { high } => BusEvent::XdcsSet { high },
        RecordedOp::DreqRead { high } => BusEvent::DreqRead { high },
        RecordedOp::SpiOut { fast, bytes } => BusEvent::SpiOut { fast, bytes: bytes@ },
        RecordedOp::SpiInOut { c0, c1, response } => BusEvent::SpiInOut {
            command: seq![c0, c1],
            response: be_bytes(response),
        },
    }
}

/// The bus events a record of operations stands for, in order.
pub open spec fn events_of(ops: Seq<RecordedOp>) -> Seq<BusEvent>
    decreases ops.len(),
{
    if ops.len() == 0 {
        Seq::empty()
    } else {
        events_of(ops.drop_last()).push(event_of(ops.last()))
    }
}

proof fn lemma_events_of_push(ops: Seq<RecordedOp>, op: RecordedOp)
    ensures
        events_of(ops.push(op)) == events_of(ops).push(event_of(op)),
{
    assert(ops.push(op).drop_last() =~= ops);
    assert(ops.push(op).last() == op);
}

fn copy_bytes(bytes: &[u8]) -> (v: Vec<u8>)
    ensures
        v@ == bytes@,
{
    let mut v: Vec<u8> = Vec::new();
    let mut i: usize = 0;
    while i < bytes.len()
        invariant
            i <= bytes@.len(),
            v@ == bytes@.take(i as int),
        decreases bytes@.len() - i,
    {
        v.push(*slice_index_get(bytes, i));
        i = i + 1;
        proof {
            assert(v@ =~= bytes@.take(i as int));
        }
    }
    proof {
        assert(bytes@.take(i as int) =~= bytes@);
    }
    v
}

/// A scripted hardware port for bench runs.
pub struct SimPort {
    /// Every operation performed, oldest first.
    pub ops: Vec<RecordedOp>,
    /// Scripted data-ready readings, consumed front to back.
    pub dreq_script: Vec<bool>,
    /// How many scripted readings have been consumed.
    pub dreq_pos: usize,
    /// The reading served once the script is exhausted.
    pub dreq_default: bool,
    /// Scripted SPI read responses, consumed front to back.
    pub response_script: Vec<u16>,
    /// How many scripted responses have been consumed.
    pub response_pos: usize,
    /// The response served once the script is exhausted.
    pub response_default: u16,
    /// When set, driving the command chip-select line fails.
    pub fail_xcs: bool,
    /// When set, driving the data chip-select line fails.
    pub fail_xdcs: bool,
    /// When set, sampling the data-ready line fails.
    pub fail_dreq: bool,
    /// When set, every SPI transaction fails.
    pub fail_spi: bool,
}

impl SimPort {
    /// A fresh port with empty scripts, the given fallbacks, and no
    /// injected faults.
    pub fn new(dreq_default: bool, response_default: u16) -> (p: SimPort)
        ensures
            p.log() == Seq::<BusEvent>::empty(),
            p.ops@ == Seq::<RecordedOp>::empty(),
    {
        SimPort {
            ops: Vec::new(),
            dreq_script: Vec::new(),
            dreq_pos: 0,
            dreq_default,
            response_script: Vec::new(),
            response_pos: 0,
            response_default,
            fail_xcs: false,
            fail_xdcs: false,
            fail_dreq: false,
            fail_spi: false,
        }
    }

    /// Appends one scripted data-ready reading.
    pub fn queue_dreq(&mut self, level: bool)
        ensures
            final(self).log() == old(self).log(),
    {
        self.dreq_script.push(level);
    }

    /// Appends one scripted SPI read response.
    pub fn queue_response(&mut self, value: u16)
        ensures
            final(self).log() == old(self).log(),
    {
        self.response_script.push(value);
    }

    /// The operations performed so far, for inspection.
    pub fn recorded(&self) -> (r: &Vec<RecordedOp>)
        ensures
            r@ == self.ops@,
    {
        &self.ops
    }
}

impl BusPort for SimPort {
    open spec fn log(&self) -> Seq<BusEvent> {
        events_of(self.ops@)
    }

    fn set_xcs(&mut self, high: bool) -> (r: Result<(), DSPError>) {
        if self.fail_xcs {
            return Err(DSPError::UnableToSetCSPin);
        }
        let ghost pre = self.ops@;
        self.ops.push(RecordedOp::XcsSet { high });
        proof {
            lemma_events_of_push(pre, RecordedOp::XcsSet { high });
        }
        Ok(())
    }

    fn set_xdcs(&mut self, high: bool) -> (r: Result<(), DSPError>) {
        if self.fail_xdcs {
            return Err(DSPError::UnableToSetDCSPin);
        }
        let ghost pre = self.ops@;
        self.ops.push(RecordedOp::XdcsSet { high });
        proof {
            lemma_events_of_push(pre, RecordedOp::XdcsSet { high });
        }
        Ok(())
    }

    fn read_dreq(&mut self) -> (r: Result<bool, DSPError>) {
        if self.fail_dreq {
            return Err(DSPError::UnableToGetDREQPin);
        }
        let level: bool = if self.dreq_pos < self.dreq_script.len() {
            let l = self.dreq_script[self.dreq_pos];
            self.dreq_pos = self.dreq_pos + 1;
            l
        } else {
            self.dreq_default
        };
        let ghost pre = self.ops@;
        self.ops.push(RecordedOp::DreqRead { high: level });
        proof {
            lemma_events_of_push(pre, RecordedOp::DreqRead { high: level });
        }
        Ok(level)
    }

    fn spi_out(&mut self, fast: bool, bytes: &[u8]) -> (r: Result<(), DSPError>) {
        if self.fail_spi {
            return Err(DSPError::Spi);
        }
        let copied = copy_bytes(bytes);
        let ghost pre = self.ops@;
        self.ops.push(RecordedOp::SpiOut { fast, bytes: copied });
        proof {
            lemma_events_of_push(pre, self.ops@.last());
        }
        Ok(())
    }

    fn spi_in_out(&mut self, c0: u8, c1: u8) -> (r: Result<(u8, u8), DSPError>) {
        if self.fail_spi {
            return Err(DSPError::Spi);
        }
        let value: u16 = if self.response_pos < self.response_script.len() {
            let v = self.response_script[self.response_pos];
            self.response_pos = self.response_pos + 1;
            v
        } else {
            self.response_default
        };
        let ghost pre = self.ops@;
        self.ops.push(RecordedOp::SpiInOut { c0, c1, response: value });
        proof {
            lemma_events_of_push(pre, RecordedOp::SpiInOut { c0, c1, response: value });
        }
        let hi: u8 = (value / 256) as u8;
        let lo: u8 = (value % 256) as u8;
        proof {
            assert(be_bytes(value) =~= seq![hi, lo]);
        }
        Ok((hi, lo))
    }

    fn delay_ms(&mut self, ms: u32) {
    }
}

} // verus!
