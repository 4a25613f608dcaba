//! Block transfers over a card bus.
//!
//! A [`BlockTransport`] owns the bus. Before the first transfer of a session
//! it runs the card's handshake (reset, voltage check, capacity query); later
//! transfers reuse the session. The chip-select line is asserted while a
//! command runs and released before the call returns.
use vstd::prelude::*;
use crate::block::Block;
use crate::bus::{image_wf, CardBus, Stage};
use crate::error::TransportError;

verus! {

/// A card bus with the session that was established on it, if any.
pub struct BlockTransport<B: CardBus> {
    pub bus: B,
    /// Whether the handshake was completed and the session not ended since.
    pub established: bool,
    /// Number of sectors that the card reported in the handshake.
    pub sectors: u32,
}

impl<B: CardBus> BlockTransport<B> {
    /// The bus and the card's sectors are sound, the line is released, and
    /// an established session matches the card.
    pub open spec fn wf(&self) -> bool {
        &&& self.bus.inv()
        &&& image_wf(self.bus.image())
        &&& !self.bus.selected()
        &&& self.established ==> self.bus.stage() == Stage::Ready && self.sectors
            == self.bus.image().len()
    }

    /// The sectors the card stores.
    pub open spec fn image(&self) -> Seq<Seq<u8>> {
        self.bus.image()
    }

    /// Whether every command from now on completes.
    pub open spec fn reliable(&self) -> bool {
        self.bus.reliable()
    }

    /// How many handshakes have been started on the card.
    pub open spec fn handshakes(&self) -> nat {
        self.bus.resets()
    }

    /// One more handshake than before if no session stood, else the same.
    pub open spec fn handshakes_after(&self) -> nat {
        if self.established {
            self.bus.resets()
        } else {
            self.bus.resets() + 1
        }
    }

    /// Takes the bus over, with the line released and no session.
    pub fn new(bus: B) -> (t: BlockTransport<B>)
        requires
            bus.inv(),
            image_wf(bus.image()),
        ensures
            t.wf(),
            !t.established,
            t.image() == bus.image(),
            t.handshakes() == bus.resets(),
            t.reliable() == bus.reliable(),
    {
        let mut bus = bus;
        bus.deselect();
        BlockTransport { bus, established: false, sectors: 0 }
    }

    /// Gives the bus back.
    pub fn into_bus(self) -> (bus: B)
        ensures
            bus == self.bus,
    {
        self.bus
    }

    /// Whether a session stands.
    pub fn is_established(&self) -> (b: bool)
        ensures
            b == self.established,
    {
        self.established
    }

    /// Ends the session: the next transfer runs the handshake again.
    pub fn release(&mut self)
        requires
            old(self).wf(),
        ensures
            final(self).wf(),
            !final(self).established,
            final(self).bus == old(self).bus,
    {
        self.established = false;
    }

    /// The three steps of the handshake, with the line asserted.
    fn handshake(&mut self) -> (r: Result<(), TransportError>)
        requires
            old(self).bus.inv(),
            old(self).bus.selected(),
            !old(self).established,
        ensures
            final(self).bus.inv(),
            final(self).bus.selected(),
            final(self).image() == old(self).image(),
            final(self).handshakes() == old(self).handshakes() + 1,
            final(self).established == (r is Ok),
            r is Ok ==> final(self).bus.stage() == Stage::Ready && final(self).sectors == final(self).image().len(),
            old(self).reliable() ==> r is Ok && final(self).reliable(),
    {
        match self.bus.reset() {
            Err(e) => {
                return Err(e);
            },
            Ok(()) => {},
        }
        match self.bus.check_voltage() {
            Err(e) => {
                return Err(e);
            },
            Ok(()) => {},
        }
        match self.bus.query_capacity() {
            Err(e) => Err(e),
            Ok(n) => {
                self.sectors = n;
                self.established = true;
                Ok(())
            },
        }
    }

    /// Establishes a session unless one stands.
    ///
    /// Runs the handshake exactly when no session stood, and succeeds
    /// whenever the card answers all three steps.
    pub fn acquire(&mut self) -> (r: Result<(), TransportError>)
        requires
            old(self).wf(),
        ensures
            final(self).wf(),
            final(self).image() == old(self).image(),
            final(self).handshakes() == old(self).handshakes_after(),
            final(self).established == (r is Ok),
            old(self).established ==> r is Ok && final(self).bus == old(self).bus,
            old(self).reliable() ==> r is Ok && final(self).reliable(),
    {
        if self.established {
            return Ok(());
        }
        self.bus.select();
        let r = self.handshake();
        self.bus.deselect();
        r
    }

    /// Number of sectors on the card, from the session's handshake.
    pub fn capacity(&mut self) -> (r: Result<u32, TransportError>)
        requires
            old(self).wf(),
        ensures
            final(self).wf(),
            final(self).image() == old(self).image(),
            final(self).handshakes() == old(self).handshakes_after(),
            final(self).established == (r is Ok),
            r matches Ok(n) ==> n == old(self).image().len(),
            old(self).reliable() ==> r is Ok && final(self).reliable(),
    {
        match self.acquire() {
            Err(e) => Err(e),
            Ok(()) => Ok(self.sectors),
        }
    }

    /// Reads sector `index`.
    ///
    /// The card's sectors stay as they are. On success the block holds the
    /// sector's bytes. A reliable card fails the call exactly when it has no
    /// such sector.
    pub fn read_block(&mut self, index: u32) -> (r: Result<Block, TransportError>)
        requires
            old(self).wf(),
        ensures
            final(self).wf(),
            final(self).image() == old(self).image(),
            final(self).handshakes() == old(self).handshakes_after(),
            old(self).established ==> final(self).established,
            r matches Ok(b) ==> final(self).established && index < old(self).image().len() && b@
                == old(self).image()[index as int],
            old(self).reliable() ==> final(self).reliable() && final(self).established && (r is Ok
                <==> index < old(self).image().len()),
    {
        match self.acquire() {
            Err(e) => {
                return Err(e);
            },
            Ok(()) => {},
        }
        self.bus.select();
        let r = self.bus.transfer_in(index);
        self.bus.deselect();
        r
    }

    /// Stores `block` as sector `index`.
    ///
    /// On success that sector, and no other, has changed. On failure no
    /// sector has changed. A reliable card fails the call exactly when it
    /// has no such sector.
    pub fn write_block(&mut self, index: u32, block: &Block) -> (r: Result<(), TransportError>)
        requires
            old(self).wf(),
        ensures
            final(self).wf(),
            final(self).handshakes() == old(self).handshakes_after(),
            old(self).established ==> final(self).established,
            r is Ok ==> final(self).established && index < old(self).image().len() && final(self).image() == old(self).image().update(index as int, block@),
            r is Err ==> final(self).image() == old(self).image(),
            old(self).reliable() ==> final(self).reliable() && final(self).established && (r is Ok
                <==> index < old(self).image().len()),
    {
        match self.acquire() {
            Err(e) => {
                return Err(e);
            },
            Ok(()) => {},
        }
        self.bus.select();
        let r = self.bus.transfer_out(index, block);
        self.bus.deselect();
        r
    }
}

} // verus!
