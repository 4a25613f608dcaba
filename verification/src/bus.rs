//! What a card on a serial bus does, as far as this crate relies on it.
//!
//! A bus carries commands to one card. The card stores sectors, goes
//! through the stages of its initialisation handshake, and accepts block
//! transfers once it is ready. The chip-select line must be asserted while a
//! command runs. Every command may fail; a failed command changes no sector.
//!
//! Everything above the bus is proved from the contracts of [`CardBus`]. An
//! implementation that drives real hardware cannot be proved against them:
//! it is trusted to keep them, and the proofs hold as far as it does.
use vstd::prelude::*;
use crate::block::Block;
use crate::error::TransportError;

verus! {

/// How far the card's initialisation handshake has come.
#[derive(Clone, Copy, Debug, PartialEq, Eq, Structural)]
pub enum Stage {
    /// Nothing is known of the card.
    Cold,
    /// The card was reset.
    Reset,
    /// The card accepted the supply voltage.
    Checked,
    /// The capacity is known; the card accepts block transfers.
    Ready,
}

/// Every sector holds 512 bytes, and sector numbers fit in 32 bits.
pub open spec fn image_wf(image: Seq<Seq<u8>>) -> bool {
    &&& image.len() <= u32::MAX
    &&& forall|i: int| 0 <= i < image.len() ==> (#[trigger] image[i]).len() == 512
}

/// One card behind a chip-select line.
///
/// The functions that say what the card holds have bodies that say nothing
/// of it; an implementation states its own.
pub trait CardBus: Sized {
    /// The sectors the card stores.
    open spec fn image(&self) -> Seq<Seq<u8>> {
        Seq::empty()
    }

    /// Whether the chip-select line is asserted.
    open spec fn selected(&self) -> bool {
        false
    }

    /// How far the handshake has come.
    open spec fn stage(&self) -> Stage {
        Stage::Cold
    }

    /// How many reset commands the card has been sent.
    open spec fn resets(&self) -> nat {
        0
    }

    /// Whether every command from now on completes.
    open spec fn reliable(&self) -> bool {
        false
    }

    /// What the implementation keeps true of itself.
    open spec fn inv(&self) -> bool {
        true
    }

    /// Asserts the chip-select line.
    fn select(&mut self)
        requires
            old(self).inv(),
        ensures
            final(self).inv(),
            final(self).selected(),
            final(self).image() == old(self).image(),
            final(self).stage() == old(self).stage(),
            final(self).resets() == old(self).resets(),
            final(self).reliable() == old(self).reliable(),
    ;

    /// Releases the chip-select line.
    fn deselect(&mut self)
        requires
            old(self).inv(),
        ensures
            final(self).inv(),
            !final(self).selected(),
            final(self).image() == old(self).image(),
            final(self).stage() == old(self).stage(),
            final(self).resets() == old(self).resets(),
            final(self).reliable() == old(self).reliable(),
    ;

    /// First step of the handshake: puts the card into its idle state.
    fn reset(&mut self) -> (r: Result<(), TransportError>)
        requires
            old(self).inv(),
            old(self).selected(),
        ensures
            final(self).inv(),
            final(self).selected(),
            final(self).image() == old(self).image(),
            final(self).resets() == old(self).resets() + 1,
            final(self).stage() == (if r is Ok {
                Stage::Reset
            } else {
                Stage::Cold
            }),
            old(self).reliable() ==> r is Ok && final(self).reliable(),
    ;

    /// Second step of the handshake: the card confirms the supply voltage.
    fn check_voltage(&mut self) -> (r: Result<(), TransportError>)
        requires
            old(self).inv(),
            old(self).selected(),
            old(self).stage() == Stage::Reset,
        ensures
            final(self).inv(),
            final(self).selected(),
            final(self).image() == old(self).image(),
            final(self).resets() == old(self).resets(),
            final(self).stage() == (if r is Ok {
                Stage::Checked
            } else {
                Stage::Cold
            }),
            old(self).reliable() ==> r is Ok && final(self).reliable(),
    ;

    /// Last step of the handshake: the card reports how many sectors it holds.
    fn query_capacity(&mut self) -> (r: Result<u32, TransportError>)
        requires
            old(self).inv(),
            old(self).selected(),
            old(self).stage() == Stage::Checked,
        ensures
            final(self).inv(),
            final(self).selected(),
            final(self).image() == old(self).image(),
            final(self).resets() == old(self).resets(),
            final(self).stage() == (if r is Ok {
                Stage::Ready
            } else {
                Stage::Cold
            }),
            r matches Ok(n) ==> n == old(self).image().len(),
            old(self).reliable() ==> r is Ok && final(self).reliable(),
    ;

    /// Reads sector `index` from the card.
    fn transfer_in(&mut self, index: u32) -> (r: Result<Block, TransportError>)
        requires
            old(self).inv(),
            old(self).selected(),
            old(self).stage() == Stage::Ready,
        ensures
            final(self).inv(),
            final(self).selected(),
            final(self).image() == old(self).image(),
            final(self).resets() == old(self).resets(),
            final(self).stage() == Stage::Ready,
            r matches Ok(b) ==> index < old(self).image().len() && b@ == old(self).image()[index as int],
            old(self).reliable() ==> final(self).reliable() && (r is Ok <==> index < old(self).image().len()),
    ;

    /// Stores `block` as sector `index` of the card.
    fn transfer_out(&mut self, index: u32, block: &Block) -> (r: Result<(), TransportError>)
        requires
            old(self).inv(),
            old(self).selected(),
            old(self).stage() == Stage::Ready,
        ensures
            final(self).inv(),
            final(self).selected(),
            final(self).resets() == old(self).resets(),
            final(self).stage() == Stage::Ready,
            r is Ok ==> index < old(self).image().len() && final(self).image() == old(self).image().update(index as int, block@),
            r is Err ==> final(self).image() == old(self).image(),
            old(self).reliable() ==> final(self).reliable() && (r is Ok <==> index < old(self).image().len()),
    ;
}

} // verus!
