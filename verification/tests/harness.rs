use sdmmc_log::block::Block;
use sdmmc_log::clock::SdMmcClock;
use sdmmc_log::error::{FsError, TransportError, VolumeError};
use sdmmc_log::file::read_file;
use sdmmc_log::harness::{run_attempt, Action, Event, Harness, HarnessState};
use sdmmc_log::memcard::MemCard;
use sdmmc_log::name::ShortName;
use sdmmc_log::transport::BlockTransport;
use sdmmc_log::volume::mount;

fn put16(block: &mut Block, at: usize, v: u16) {
    block.data[at] = (v & 0xFF) as u8;
    block.data[at + 1] = (v >> 8) as u8;
}

fn put32(block: &mut Block, at: usize, v: u32) {
    put16(block, at, (v & 0xFFFF) as u16);
    put16(block, at + 2, (v >> 16) as u16);
}

fn formatted() -> MemCard {
    let total = 36 + 4100;
    let mut card = MemCard::new(1 + total);
    let mut table = Block::zeroed();
    table.data[450] = 0x06;
    put32(&mut table, 454, 1);
    put32(&mut table, 458, total);
    table.data[510] = 0x55;
    table.data[511] = 0xAA;
    assert!(card.poke(0, &table));
    let mut boot = Block::zeroed();
    put16(&mut boot, 11, 512);
    boot.data[13] = 1;
    put16(&mut boot, 14, 1);
    boot.data[16] = 2;
    put16(&mut boot, 17, 16);
    put16(&mut boot, 19, total as u16);
    put16(&mut boot, 22, 17);
    boot.data[510] = 0x55;
    boot.data[511] = 0xAA;
    assert!(card.poke(1, &boot));
    card
}

fn content(transport: &mut BlockTransport<MemCard>, name: &str) -> Option<Vec<u8>> {
    let volume = mount(transport).unwrap();
    read_file(&volume, transport, &ShortName::parse(name).unwrap()).unwrap()
}

#[test]
fn an_attempt_walks_through_its_states() {
    let mut harness = Harness::new(2, 50, 100);
    assert_eq!(harness.state, HarnessState::Idle);
    assert_eq!(harness.on_event(Event::Wake), Action::Acquire);
    assert_eq!(harness.state, HarnessState::Acquiring);
    assert_eq!(harness.remaining, 1);
    assert_eq!(harness.on_event(Event::Done), Action::OpenFile);
    assert_eq!(harness.state, HarnessState::Mounted);
    assert_eq!(harness.on_event(Event::Done), Action::AppendAndClose);
    assert_eq!(harness.state, HarnessState::FileOpen);
    assert_eq!(harness.on_event(Event::Done), Action::Rest(50));
    assert_eq!(harness.state, HarnessState::Idle);
    assert_eq!(harness.remaining, 1);
}

#[test]
fn a_failure_in_any_state_leads_back_to_idle() {
    for steps in 0..3 {
        let mut harness = Harness::new(5, 50, 100);
        harness.on_event(Event::Wake);
        for _ in 0..steps {
            harness.on_event(Event::Done);
        }
        assert_ne!(harness.state, HarnessState::Idle);
        assert_eq!(harness.on_event(Event::Failed), Action::Rest(50));
        assert_eq!(harness.state, HarnessState::Idle);
        assert_eq!(harness.remaining, 4);
        assert_eq!(harness.on_event(Event::Wake), Action::Acquire);
        assert_eq!(harness.remaining, 3);
    }
}

#[test]
fn the_machine_parks_when_the_budget_is_spent() {
    let mut harness = Harness::new(9, 50, 100);
    let mut attempts = 0;
    loop {
        match harness.on_event(Event::Wake) {
            Action::Acquire => {
                attempts += 1;
                harness.on_event(if attempts % 2 == 0 { Event::Failed } else { Event::Done });
                if harness.state == HarnessState::Mounted {
                    harness.on_event(Event::Done);
                    harness.on_event(Event::Done);
                }
            }
            Action::Park(ms) => {
                assert_eq!(ms, 100);
                break;
            }
            other => panic!("unexpected {:?}", other),
        }
    }
    assert_eq!(attempts, 9);
    assert_eq!(harness.remaining, 0);
    for event in [Event::Wake, Event::Done, Event::Failed, Event::Wake] {
        assert_eq!(harness.on_event(event), Action::Park(100));
        assert_eq!(harness.state, HarnessState::Parked);
    }
}

#[test]
fn a_machine_without_budget_parks_at_once() {
    let mut harness = Harness::new(0, 1, 2);
    assert_eq!(harness.on_event(Event::Wake), Action::Park(2));
    assert_eq!(harness.state, HarnessState::Parked);
}

#[test]
fn events_that_do_not_fit_the_state_change_nothing() {
    let mut harness = Harness::new(3, 50, 100);
    assert_eq!(harness.on_event(Event::Done), Action::Rest(50));
    assert_eq!(harness.on_event(Event::Failed), Action::Rest(50));
    assert_eq!(harness, Harness::new(3, 50, 100));
    harness.on_event(Event::Wake);
    assert_eq!(harness.on_event(Event::Wake), Action::Acquire);
    assert_eq!(harness.remaining, 2);
    harness.on_event(Event::Done);
    assert_eq!(harness.on_event(Event::Wake), Action::OpenFile);
    harness.on_event(Event::Done);
    assert_eq!(harness.on_event(Event::Wake), Action::AppendAndClose);
    assert_eq!(harness.remaining, 2);
}

#[test]
fn nine_attempts_log_nine_lines() {
    let mut transport = BlockTransport::new(formatted());
    let mut harness = Harness::new(9, 50, 100);
    let now = SdMmcClock.get_timestamp();
    let mut rests = 0;
    loop {
        match harness.on_event(Event::Wake) {
            Action::Acquire => {
                let report = run_attempt(&mut harness, &mut transport, "GpsLog.txt", b"0123456789\n", &now);
                assert_eq!(report.reached, HarnessState::FileOpen);
                assert_eq!(report.result, Ok(11));
                assert_eq!(harness.state, HarnessState::Idle);
                assert!(!transport.is_established());
                rests += 1;
            }
            Action::Park(_) => break,
            other => panic!("unexpected {:?}", other),
        }
    }
    assert_eq!(rests, 9);
    assert_eq!(transport.bus.reset_count(), 9);
    assert_eq!(content(&mut transport, "GpsLog.txt"), Some(b"0123456789\n".repeat(9)));
}

#[test]
fn a_failed_attempt_does_not_end_the_loop() {
    let mut transport = BlockTransport::new(formatted());
    let mut harness = Harness::new(4, 50, 100);
    let now = SdMmcClock.get_timestamp();
    let mut results = Vec::new();
    let mut round = 0;
    while harness.on_event(Event::Wake) == Action::Acquire {
        if round == 1 {
            transport.bus.arm_fault(0);
        }
        if round == 2 {
            transport.bus.arm_fault(8);
        }
        let report = run_attempt(&mut harness, &mut transport, "LOG.TXT", b"line\n", &now);
        results.push((report.reached, report.result));
        round += 1;
    }
    assert_eq!(
        results,
        vec![
            (HarnessState::FileOpen, Ok(5)),
            (HarnessState::Acquiring, Err(FsError::Transport(TransportError::Timeout))),
            (HarnessState::FileOpen, Err(FsError::Transport(TransportError::Timeout))),
            (HarnessState::FileOpen, Ok(5)),
        ]
    );
    assert_eq!(harness.state, HarnessState::Parked);
    assert_eq!(content(&mut transport, "LOG.TXT"), Some(b"line\nline\n".to_vec()));
}

#[test]
fn an_attempt_reports_where_it_ended() {
    let now = SdMmcClock.get_timestamp();
    let mut harness = Harness::new(1, 50, 100);
    harness.on_event(Event::Wake);
    let mut blank = BlockTransport::new(MemCard::new(100));
    let report = run_attempt(&mut harness, &mut blank, "LOG.TXT", b"x", &now);
    assert_eq!(report.reached, HarnessState::Acquiring);
    assert_eq!(report.result, Err(FsError::Volume(VolumeError::NoSignature)));
    assert_eq!(harness.state, HarnessState::Idle);

    let mut harness = Harness::new(1, 50, 100);
    harness.on_event(Event::Wake);
    let mut transport = BlockTransport::new(formatted());
    let report = run_attempt(&mut harness, &mut transport, "NO GOOD", b"x", &now);
    assert_eq!(report.reached, HarnessState::Mounted);
    assert_eq!(report.result, Err(FsError::Volume(VolumeError::BadName)));
    assert_eq!(harness.state, HarnessState::Idle);
    assert_eq!(harness.remaining, 0);
    assert!(!transport.is_established());
}
