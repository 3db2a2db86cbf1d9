//! The command channel: the write-only sink that physically carries device
//! commands and pixel data to a display controller.
//!
//! The engine consumes this interface; it never implements the transport
//! itself. Like a renderer, a channel carries a trace of what was sent, so
//! that the chunked renderer's flush and bring-up contracts can say exactly
//! which commands went out and in what order. The opcode encoding of a
//! command is the transport's business, not the engine's.

use vstd::prelude::*;

verus! {

/// A device-level transport failure.
#[derive(Clone, Copy, PartialEq, Eq, Structural, Debug)]
pub enum ChannelError {
    /// The device did not acknowledge a transfer.
    NoAcknowledge,
    /// The transfer timed out.
    Timeout,
}

/// The device commands the engine can ask a transport to send. Values are
/// carried symbolically; the transport owns their bit-level encoding.
#[derive(Clone, Copy, PartialEq, Eq, Structural, Debug)]
pub enum ChannelCommand {
    /// Turn the display panel on or off.
    DisplayOn(bool),
    /// Set the display clock divide ratio and oscillator frequency.
    DisplayClockDiv(u8, u8),
    /// Set the multiplex ratio.
    Multiplex(u8),
    /// Set the display start line.
    StartLine(u8),
    /// Enable or disable the charge pump.
    ChargePump(bool),
    /// Set the output contrast.
    Contrast(u8),
    /// Set the pre-charge period (phase one, phase two).
    PreChargePeriod(u8, u8),
    /// Select the VCOM deselect level; the selector's meaning is device
    /// family defined.
    VcomhDeselect(u8),
    /// Force every pixel on, or return to RAM content.
    AllOn(bool),
    /// Invert the display, or show it normally.
    Invert(bool),
    /// Set the display offset.
    DisplayOffset(u8),
    /// Set the COM pin hardware configuration.
    ComPinConfig(bool),
    /// Select the page (byte row) that following data is written to.
    PageAddress(u8),
    /// Set the low nibble of the column address.
    ColumnAddressLow(u8),
    /// Set the high nibble of the column address.
    ColumnAddressHigh(u8),
}

/// One transfer as it appears in a channel's trace: a command, or a buffer
/// of pixel data bytes.
pub enum ChannelEvent {
    Command(ChannelCommand),
    Data(Seq<u8>),
}

/// A write-only command/data sink with device-level failures. A transfer
/// that fails delivers nothing; one that succeeds is appended to the trace.
pub trait CommandChannel: Sized {
    /// Everything successfully sent over this channel so far, oldest first.
    spec fn log(&self) -> Seq<ChannelEvent>;

    /// Send one command.
    fn send_command(&mut self, command: ChannelCommand) -> (r: Result<(), ChannelError>)
        ensures
            r is Ok ==> final(self).log() == old(self).log().push(
                ChannelEvent::Command(command),
            ),
            r is Err ==> final(self).log() == old(self).log(),
    ;

    /// Send one buffer of pixel data.
    fn send_data(&mut self, data: &[u8]) -> (r: Result<(), ChannelError>)
        ensures
            r is Ok ==> final(self).log() == old(self).log().push(ChannelEvent::Data(data@)),
            r is Err ==> final(self).log() == old(self).log(),
    ;
}

/// One transfer held by a `CollectingChannel`, as a plain value.
#[derive(Clone, PartialEq, Eq, Debug)]
pub enum ChannelItem {
    Command(ChannelCommand),
    Data(Vec<u8>),
}

impl View for ChannelItem {
    type V = ChannelEvent;

    closed spec fn view(&self) -> ChannelEvent {
        match self {
            ChannelItem::Command(c) => ChannelEvent::Command(*c),
            ChannelItem::Data(d) => ChannelEvent::Data(d@),
        }
    }
}

impl ChannelItem {
    /// This transfer carries the given command.
    pub fn is_command(&self, command: ChannelCommand) -> (r: bool)
        ensures
            r == (self@ == ChannelEvent::Command(command)),
    {
        match self {
            ChannelItem::Command(c) => *c == command,
            ChannelItem::Data(_) => false,
        }
    }

    /// The pixel data this transfer carries, if it is a data transfer.
    pub fn data(&self) -> (r: Option<&Vec<u8>>)
        ensures
            match r {
                Some(d) => self@ == ChannelEvent::Data(d@),
                None => self@ is Command,
            },
    {
        match self {
            ChannelItem::Command(_) => None,
            ChannelItem::Data(d) => Some(d),
        }
    }
}

/// A transport that delivers into memory: it keeps every transfer, in
/// order, as a value callers can read back. Every transfer succeeds.
pub struct CollectingChannel {
    sent: Vec<ChannelItem>,
}

impl CollectingChannel {
    pub fn new() -> (r: Self)
        ensures
            r.log() == Seq::<ChannelEvent>::empty(),
    {
        let r = CollectingChannel { sent: Vec::new() };
        proof {
            assert(r.log() =~= Seq::<ChannelEvent>::empty());
        }
        r
    }

    /// Take every collected transfer out, oldest first, leaving the channel
    /// empty: the caller forwards them and the channel's memory is reused,
    /// frame after frame.
    pub fn drain(&mut self) -> (r: Vec<ChannelItem>)
        ensures
            final(self).log() == Seq::<ChannelEvent>::empty(),
            r@.len() == old(self).log().len(),
            forall|i: int| 0 <= i < r@.len() ==> r@[i]@ == old(self).log()[i],
    {
        let mut taken: Vec<ChannelItem> = Vec::new();
        core::mem::swap(&mut taken, &mut self.sent);
        proof {
            assert(self.log() =~= Seq::<ChannelEvent>::empty());
        }
        taken
    }

    /// The transfers collected so far, oldest first.
    pub fn sent(&self) -> (r: &Vec<ChannelItem>)
        ensures
            r@.len() == self.log().len(),
            forall|i: int| 0 <= i < r@.len() ==> r@[i]@ == self.log()[i],
    {
        &self.sent
    }
}

impl CommandChannel for CollectingChannel {
    closed spec fn log(&self) -> Seq<ChannelEvent> {
        self.sent@.map_values(|it: ChannelItem| it@)
    }

    fn send_command(&mut self, command: ChannelCommand) -> (r: Result<(), ChannelError>)
        ensures
            r is Ok,
    {
        self.sent.push(ChannelItem::Command(command));
        proof {
            assert(self.log() =~= old(self).log().push(ChannelEvent::Command(command)));
        }
        Ok(())
    }

    fn send_data(&mut self, data: &[u8]) -> (r: Result<(), ChannelError>)
        ensures
            r is Ok,
    {
        let mut copy: Vec<u8> = Vec::new();
        let mut i: usize = 0;
        while i < data.len()
            invariant
                i <= data@.len(),
                copy@ == data@.subrange(0, i as int),
            decreases data@.len() - i,
        {
            copy.push(data[i]);
            proof {
                assert(copy@ =~= data@.subrange(0, i as int + 1));
            }
            i = i + 1;
        }
        proof {
            assert(copy@ =~= data@);
        }
        self.sent.push(ChannelItem::Data(copy));
        proof {
            assert(self.log() =~= old(self).log().push(ChannelEvent::Data(data@)));
        }
        Ok(())
    }
}

} // verus!
