//! A card held in memory, with a fault that can be armed.
use vstd::prelude::*;
use crate::block::Block;
use crate::bus::{image_wf, CardBus, Stage};
use crate::error::TransportError;

verus! {

/// A card whose sectors live in a vector.
///
/// A fault armed with [`MemCard::arm_fault`] makes one later command time
/// out; every other command completes.
pub struct MemCard {
    pub sectors: Vec<Block>,
    /// Whether the chip-select line is asserted.
    pub line: bool,
    /// How far the handshake has come.
    pub progress: Stage,
    /// Reset commands seen.
    pub reset_total: Ghost<nat>,
    /// Reset commands seen, as far as 64 bits count them.
    pub reset_log: u64,
    /// Commands that still complete before one times out, if a fault is
    /// armed.
    pub fault_in: Option<u32>,
}

impl MemCard {
    /// A card of `count` zeroed sectors, with no fault armed.
    pub fn new(count: u32) -> (card: MemCard)
        ensures
            card.inv(),
            image_wf(card.image()),
            card.image() == Seq::new(count as nat, |i: int| Seq::new(512, |j: int| 0u8)),
            !card.selected(),
            card.stage() == Stage::Cold,
            card.resets() == 0,
            card.reliable(),
    {
        let mut sectors: Vec<Block> = Vec::new();
        let mut i: u32 = 0;
        while i < count
            invariant
                i <= count,
                sectors@.len() == i,
                forall|k: int| 0 <= k < i ==> (#[trigger] sectors@[k])@ == Seq::new(512, |j: int| 0u8),
            decreases count - i,
        {
            sectors.push(Block::zeroed());
            i = i + 1;
        }
        let card = MemCard {
            sectors,
            line: false,
            progress: Stage::Cold,
            reset_total: Ghost(0),
            reset_log: 0,
            fault_in: None,
        };
        assert(card.image() =~= Seq::new(count as nat, |i: int| Seq::new(512, |j: int| 0u8)));
        card
    }

    /// Every sector of the card holds 512 bytes, and there are no more
    /// than 32 bits can number.
    pub proof fn lemma_sectors_sound(&self)
        requires
            self.inv(),
        ensures
            image_wf(self.image()),
    {
    }

    /// Number of sectors.
    pub fn sector_count(&self) -> (n: u32)
        requires
            self.inv(),
        ensures
            n == self.image().len(),
    {
        self.sectors.len() as u32
    }

    /// A copy of sector `index`, read without a bus command.
    pub fn peek(&self, index: u32) -> (b: Option<Block>)
        requires
            self.inv(),
        ensures
            index < self.image().len() ==> (b matches Some(blk) && blk@ == self.image()[index as int]),
            index >= self.image().len() ==> b is None,
    {
        if (index as usize) < self.sectors.len() {
            Some(self.sectors[index as usize].duplicate())
        } else {
            None
        }
    }

    /// Replaces sector `index` without a bus command. Returns whether the
    /// card has such a sector.
    pub fn poke(&mut self, index: u32, block: &Block) -> (done: bool)
        requires
            old(self).inv(),
        ensures
            final(self).inv(),
            done == (index < old(self).image().len()),
            done ==> final(self).image() == old(self).image().update(index as int, block@),
            !done ==> final(self).image() == old(self).image(),
            final(self).selected() == old(self).selected(),
            final(self).stage() == old(self).stage(),
            final(self).resets() == old(self).resets(),
            final(self).reliable() == old(self).reliable(),
    {
        if (index as usize) < self.sectors.len() {
            self.sectors[index as usize] = block.duplicate();
            assert(self.image() =~= old(self).image().update(index as int, block@));
            true
        } else {
            false
        }
    }

    /// Arms a fault: after `after` more commands complete, the next one
    /// times out. Replaces a fault armed before.
    pub fn arm_fault(&mut self, after: u32)
        requires
            old(self).inv(),
        ensures
            final(self).inv(),
            final(self).fault_in == Some(after),
            final(self).image() == old(self).image(),
            final(self).selected() == old(self).selected(),
            final(self).stage() == old(self).stage(),
            final(self).resets() == old(self).resets(),
    {
        self.fault_in = Some(after);
    }

    /// Removes an armed fault.
    pub fn disarm(&mut self)
        requires
            old(self).inv(),
        ensures
            final(self).inv(),
            final(self).reliable(),
            final(self).image() == old(self).image(),
            final(self).selected() == old(self).selected(),
            final(self).stage() == old(self).stage(),
            final(self).resets() == old(self).resets(),
    {
        self.fault_in = None;
    }

    /// How many reset commands the card has seen, up to `u64::MAX`.
    pub fn reset_count(&self) -> (n: u64)
        requires
            self.inv(),
        ensures
            n == (if self.resets() <= u64::MAX {
                self.resets() as int
            } else {
                u64::MAX as int
            }),
    {
        self.reset_log
    }

    /// Whether the chip-select line is asserted.
    pub fn is_selected(&self) -> (b: bool)
        ensures
            b == self.selected(),
    {
        self.line
    }

    /// Counts one command against the armed fault; `true` when the command
    /// is to fail.
    fn tick(&mut self) -> (fails: bool)
        ensures
            fails == (old(self).fault_in == Some(0u32)),
            final(self).fault_in == (match old(self).fault_in {
                None => None::<u32>,
                Some(n) => if n == 0 {
                    None::<u32>
                } else {
                    Some((n - 1) as u32)
                },
            }),
            final(self).sectors == old(self).sectors,
            final(self).line == old(self).line,
            final(self).progress == old(self).progress,
            final(self).reset_total == old(self).reset_total,
            final(self).reset_log == old(self).reset_log,
    {
        match self.fault_in {
            None => false,
            Some(n) => {
                if n == 0 {
                    self.fault_in = None;
                    true
                } else {
                    self.fault_in = Some(n - 1);
                    false
                }
            },
        }
    }
}

impl CardBus for MemCard {
    open spec fn image(&self) -> Seq<Seq<u8>> {
        Seq::new(self.sectors@.len(), |i: int| self.sectors@[i]@)
    }

    open spec fn selected(&self) -> bool {
        self.line
    }

    open spec fn stage(&self) -> Stage {
        self.progress
    }

    open spec fn resets(&self) -> nat {
        self.reset_total@
    }

    open spec fn reliable(&self) -> bool {
        self.fault_in is None
    }

    open spec fn inv(&self) -> bool {
        &&& self.sectors@.len() <= u32::MAX
        &&& self.reset_log == (if self.reset_total@ <= u64::MAX {
            self.reset_total@ as int
        } else {
            u64::MAX as int
        })
    }

    fn select(&mut self) {
        self.line = true;
    }

    fn deselect(&mut self) {
        self.line = false;
    }

    fn reset(&mut self) -> (r: Result<(), TransportError>) {
        let fails = self.tick();
        self.reset_log = self.reset_log.saturating_add(1);
        proof {
            self.reset_total@ = self.reset_total@ + 1;
        }
        if fails {
            self.progress = Stage::Cold;
            Err(TransportError::Timeout)
        } else {
            self.progress = Stage::Reset;
            Ok(())
        }
    }

    fn check_voltage(&mut self) -> (r: Result<(), TransportError>) {
        if self.tick() {
            self.progress = Stage::Cold;
            Err(TransportError::Timeout)
        } else {
            self.progress = Stage::Checked;
            Ok(())
        }
    }

    fn query_capacity(&mut self) -> (r: Result<u32, TransportError>) {
        if self.tick() {
            self.progress = Stage::Cold;
            Err(TransportError::Timeout)
        } else {
            self.progress = Stage::Ready;
            Ok(self.sectors.len() as u32)
        }
    }

    fn transfer_in(&mut self, index: u32) -> (r: Result<Block, TransportError>) {
        if self.tick() {
            Err(TransportError::Timeout)
        } else if (index as usize) < self.sectors.len() {
            Ok(self.sectors[index as usize].duplicate())
        } else {
            Err(TransportError::Protocol)
        }
    }

    fn transfer_out(&mut self, index: u32, block: &Block) -> (r: Result<(), TransportError>) {
        if self.tick() {
            Err(TransportError::Timeout)
        } else if (index as usize) < self.sectors.len() {
            self.sectors[index as usize] = block.duplicate();
            assert(self.image() =~= old(self).image().update(index as int, block@));
            Ok(())
        } else {
            Err(TransportError::Protocol)
        }
    }
}

} // verus!
