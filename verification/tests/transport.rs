use sdmmc_log::block::Block;
use sdmmc_log::bus::{CardBus, Stage};
use sdmmc_log::error::TransportError;
use sdmmc_log::memcard::MemCard;
use sdmmc_log::transport::BlockTransport;

fn filled(byte: u8) -> Block {
    Block { data: [byte; 512] }
}

/// A bus whose card answers the handshake and then fails every transfer.
struct Broken {
    line: bool,
    commands: u32,
}

impl CardBus for Broken {
    fn select(&mut self) {
        self.line = true;
    }

    fn deselect(&mut self) {
        self.line = false;
    }

    fn reset(&mut self) -> Result<(), TransportError> {
        self.commands += 1;
        Ok(())
    }

    fn check_voltage(&mut self) -> Result<(), TransportError> {
        self.commands += 1;
        Ok(())
    }

    fn query_capacity(&mut self) -> Result<u32, TransportError> {
        self.commands += 1;
        Ok(8)
    }

    fn transfer_in(&mut self, _index: u32) -> Result<Block, TransportError> {
        assert!(self.line);
        self.commands += 1;
        Err(TransportError::Bus)
    }

    fn transfer_out(&mut self, _index: u32, _block: &Block) -> Result<(), TransportError> {
        assert!(self.line);
        self.commands += 1;
        Err(TransportError::Bus)
    }
}

#[test]
fn a_new_card_is_zeroed_cold_and_released() {
    let card = MemCard::new(5);
    assert_eq!(card.sector_count(), 5);
    assert_eq!(card.reset_count(), 0);
    assert!(!card.is_selected());
    assert_eq!(card.progress, Stage::Cold);
    assert_eq!(card.peek(4), Some(Block::zeroed()));
    assert_eq!(card.peek(5), None);
}

#[test]
fn poke_replaces_one_sector() {
    let mut card = MemCard::new(3);
    assert!(card.poke(1, &filled(7)));
    assert!(!card.poke(3, &filled(9)));
    assert_eq!(card.peek(0), Some(Block::zeroed()));
    assert_eq!(card.peek(1), Some(filled(7)));
    assert_eq!(card.peek(2), Some(Block::zeroed()));
}

#[test]
fn the_handshake_runs_once_per_session() {
    let mut transport = BlockTransport::new(MemCard::new(4));
    assert!(!transport.is_established());
    assert_eq!(transport.bus.reset_count(), 0);
    transport.read_block(0).unwrap();
    assert!(transport.is_established());
    assert_eq!(transport.bus.progress, Stage::Ready);
    transport.read_block(1).unwrap();
    transport.write_block(2, &filled(1)).unwrap();
    assert_eq!(transport.acquire(), Ok(()));
    assert_eq!(transport.capacity(), Ok(4));
    assert_eq!(transport.bus.reset_count(), 1);
    transport.release();
    assert!(!transport.is_established());
    transport.write_block(3, &filled(2)).unwrap();
    assert_eq!(transport.bus.reset_count(), 2);
}

#[test]
fn the_line_is_released_after_every_call() {
    let mut card = MemCard::new(4);
    card.select();
    let mut transport = BlockTransport::new(card);
    assert!(!transport.bus.is_selected());
    transport.acquire().unwrap();
    assert!(!transport.bus.is_selected());
    transport.read_block(0).unwrap();
    assert!(!transport.bus.is_selected());
    transport.write_block(0, &filled(3)).unwrap();
    assert!(!transport.bus.is_selected());
    assert!(transport.read_block(9).is_err());
    assert!(!transport.bus.is_selected());
    transport.bus.arm_fault(0);
    assert!(transport.write_block(0, &filled(4)).is_err());
    assert!(!transport.bus.is_selected());
}

#[test]
fn a_failed_handshake_is_run_again() {
    for step in 0..3 {
        let mut transport = BlockTransport::new(MemCard::new(4));
        transport.bus.arm_fault(step);
        assert_eq!(transport.read_block(0).err(), Some(TransportError::Timeout));
        assert!(!transport.is_established());
        assert_eq!(transport.bus.progress, Stage::Cold);
        assert!(!transport.bus.is_selected());
        assert_eq!(transport.bus.reset_count(), 1);
        assert_eq!(transport.read_block(0).unwrap(), Block::zeroed());
        assert!(transport.is_established());
        assert_eq!(transport.bus.reset_count(), 2);
    }
}

#[test]
fn a_failed_transfer_keeps_the_session() {
    let mut transport = BlockTransport::new(MemCard::new(4));
    transport.bus.arm_fault(3);
    assert_eq!(transport.read_block(0).err(), Some(TransportError::Timeout));
    assert!(transport.is_established());
    transport.read_block(0).unwrap();
    assert_eq!(transport.bus.reset_count(), 1);
}

#[test]
fn a_written_block_reads_back() {
    let mut transport = BlockTransport::new(MemCard::new(4));
    transport.write_block(2, &filled(0xAB)).unwrap();
    assert_eq!(transport.read_block(2).unwrap(), filled(0xAB));
    assert_eq!(transport.read_block(1).unwrap(), Block::zeroed());
    assert_eq!(transport.read_block(3).unwrap(), Block::zeroed());
}

#[test]
fn a_failed_write_changes_no_sector() {
    let mut transport = BlockTransport::new(MemCard::new(4));
    transport.write_block(2, &filled(1)).unwrap();
    transport.bus.arm_fault(0);
    assert_eq!(transport.write_block(2, &filled(2)), Err(TransportError::Timeout));
    assert_eq!(transport.read_block(2).unwrap(), filled(1));
}

#[test]
fn a_sector_beyond_the_card_is_refused() {
    let mut transport = BlockTransport::new(MemCard::new(4));
    assert_eq!(transport.read_block(4).err(), Some(TransportError::Protocol));
    assert_eq!(transport.write_block(4, &filled(1)), Err(TransportError::Protocol));
    assert_eq!(transport.read_block(u32::MAX).err(), Some(TransportError::Protocol));
    assert!(transport.read_block(3).is_ok());
}

#[test]
fn an_armed_fault_fires_once_at_its_turn() {
    let mut transport = BlockTransport::new(MemCard::new(4));
    transport.acquire().unwrap();
    transport.bus.arm_fault(2);
    assert!(transport.read_block(0).is_ok());
    assert!(transport.read_block(0).is_ok());
    assert_eq!(transport.read_block(0).err(), Some(TransportError::Timeout));
    assert!(transport.read_block(0).is_ok());
    transport.bus.arm_fault(5);
    transport.bus.disarm();
    for _ in 0..10 {
        assert!(transport.read_block(0).is_ok());
    }
}

#[test]
fn a_bus_error_is_passed_on() {
    let mut transport = BlockTransport::new(Broken { line: true, commands: 0 });
    assert!(!transport.bus.line);
    assert_eq!(transport.capacity(), Ok(8));
    assert_eq!(transport.read_block(0).err(), Some(TransportError::Bus));
    assert_eq!(transport.write_block(0, &filled(1)), Err(TransportError::Bus));
    assert!(!transport.bus.line);
    assert_eq!(transport.bus.commands, 5);
    let bus = transport.into_bus();
    assert_eq!(bus.commands, 5);
}

#[test]
fn little_endian_fields_read_and_write() {
    let mut block = Block::zeroed();
    block.set_le16(10, 0xBEEF);
    block.set_le32(20, 0x0123_4567);
    assert_eq!(&block.data[10..12], &[0xEF, 0xBE]);
    assert_eq!(&block.data[20..24], &[0x67, 0x45, 0x23, 0x01]);
    assert_eq!(block.get_le16(10), 0xBEEF);
    assert_eq!(block.get_le32(20), 0x0123_4567);
    assert_eq!(block.get_le16(11), 0x00BE);
    block.set(511, 9);
    assert_eq!(block.get(511), 9);
    assert_eq!(block.duplicate(), block);
    block.set_le16(510, 0xFFFF);
    block.set_le32(0, u32::MAX);
    assert_eq!(block.get_le16(510), 0xFFFF);
    assert_eq!(block.get_le32(0), u32::MAX);
}
