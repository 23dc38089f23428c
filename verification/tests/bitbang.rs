use mpu6050_validation::bitbang::{
    address_probe_line, AddressProbe, BitbangCore, Error, OpenDrainPin, Transfer,
};
use mpu6050_validation::bringup::DelayMs;
use std::{cell::RefCell, rc::Rc};

#[derive(Clone)]
struct Pin {
    name: &'static str,
    high: bool,
    forced_low: bool,
    reads: Rc<RefCell<Vec<bool>>>,
    log: Rc<RefCell<Vec<&'static str>>>,
}

impl Pin {
    fn new(name: &'static str, log: Rc<RefCell<Vec<&'static str>>>) -> Self {
        Self {
            name,
            high: true,
            forced_low: false,
            reads: Rc::new(RefCell::new(Vec::new())),
            log,
        }
    }

    fn with_reads(self, reads: &[bool]) -> Self {
        *self.reads.borrow_mut() = reads.iter().rev().copied().collect();
        self
    }

    fn stuck_low(mut self) -> Self {
        self.forced_low = true;
        self
    }
}

impl OpenDrainPin for Pin {
    fn set_high(&mut self) {
        self.high = true;
        self.log
            .borrow_mut()
            .push(if self.name == "scl" { "SCLH" } else { "SDAH" });
    }

    fn set_low(&mut self) {
        self.high = false;
        self.log
            .borrow_mut()
            .push(if self.name == "scl" { "SCLL" } else { "SDAL" });
    }

    fn is_high(&self) -> bool {
        if self.forced_low {
            false
        } else {
            self.reads.borrow_mut().pop().unwrap_or(self.high)
        }
    }
}

fn core_with_sda_reads(reads: &[bool]) -> (BitbangCore<Pin, Pin>, Rc<RefCell<Vec<&'static str>>>) {
    let log = Rc::new(RefCell::new(Vec::new()));
    let scl = Pin::new("scl", log.clone());
    let sda = Pin::new("sda", log.clone()).with_reads(reads);
    (BitbangCore::new(scl, sda), log)
}

#[test]
fn start_stop_sequence_releases_scl_before_sda_edges() {
    let (mut i2c, log) = core_with_sda_reads(&[]);
    i2c.start().unwrap();
    i2c.stop().unwrap();
    let log = log.borrow();
    assert!(log.windows(2).any(|w| w == ["SCLH", "SDAL"]));
    assert!(log.windows(2).any(|w| w == ["SCLH", "SDAH"]));
}

#[test]
fn address_ack_and_nack_are_reported() {
    let (mut ack, _) = core_with_sda_reads(&[false]);
    assert_eq!(ack.write_byte(0xD0, Error::AddressNack), Ok(()));
    let (mut nack, _) = core_with_sda_reads(&[true]);
    assert_eq!(nack.write_byte(0xD0, Error::AddressNack), Err(Error::AddressNack));
}

#[test]
fn write_read_uses_repeated_start() {
    let (mut i2c, log) = core_with_sda_reads(&[
        false, false, false, true, false, true, false, true, false, true, false,
    ]);
    i2c.start().unwrap();
    i2c.write_byte(0xD0, Error::AddressNack).unwrap();
    i2c.write_byte(0x75, Error::DataNack).unwrap();
    i2c.start().unwrap();
    i2c.write_byte(0xD1, Error::AddressNack).unwrap();
    let _ = i2c.read_byte(false).unwrap();
    assert!(log.borrow().windows(2).filter(|w| *w == ["SCLH", "SDAL"]).count() >= 2);
}

#[test]
fn read_byte_sends_ack_or_nack_after_byte() {
    let (mut ack, log_ack) = core_with_sda_reads(&[false; 8]);
    assert_eq!(ack.read_byte(true), Ok(0));
    assert!(log_ack.borrow().windows(2).any(|w| w == ["SDAL", "SCLH"]));
    let (mut nack, log_nack) = core_with_sda_reads(&[true; 8]);
    assert_eq!(nack.read_byte(false), Ok(0xFF));
    assert!(log_nack.borrow().windows(2).any(|w| w == ["SDAH", "SCLH"]));
}

#[test]
fn bus_recovery_clocks_nine_times() {
    let (mut i2c, log) = core_with_sda_reads(&[]);
    i2c.recover_bus().unwrap();
    assert_eq!(log.borrow().iter().filter(|&&e| e == "SCLH").count(), 10);
}

#[test]
fn scl_stuck_low_returns_bus_error() {
    let log = Rc::new(RefCell::new(Vec::new()));
    let scl = Pin::new("scl", log.clone()).stuck_low();
    let sda = Pin::new("sda", log);
    let mut i2c = BitbangCore::new(scl, sda);
    assert_eq!(i2c.start(), Err(Error::Bus));
}

#[test]
fn read_byte_assembles_bits_most_significant_first() {
    let (mut i2c, _) = core_with_sda_reads(&[true, false, true, false, false, false, true, true]);
    assert_eq!(i2c.read_byte(false), Ok(0xA3));
}

#[test]
fn bus_write_read_frames_transfer_and_fills_buffer() {
    // Address ACK, register ACK, read-address ACK, then the byte 0x68.
    let (mut i2c, log) = core_with_sda_reads(&[
        false, false, false, false, true, true, false, true, false, false, false,
    ]);
    let mut buffer = [0u8; 1];
    assert_eq!(i2c.bus_write_read(0x68, &[0x75], &mut buffer), Ok(()));
    assert_eq!(buffer, [0x68]);
    let log = log.borrow();
    assert_eq!(log.windows(2).filter(|w| *w == ["SCLH", "SDAL"]).count(), 2);
    assert_eq!(log.last(), Some(&"SDAH"));
}

#[test]
fn bus_write_reports_address_nack_and_still_stops() {
    let (mut i2c, log) = core_with_sda_reads(&[true]);
    assert_eq!(i2c.bus_write(0x68, &[0x6B, 0x00]), Err(Error::AddressNack));
    let log = log.borrow();
    assert_eq!(&log[log.len() - 3..], &["SDAL", "SCLH", "SDAH"]);
}

fn count_starts(log: &[&str]) -> usize {
    log.windows(2).filter(|w| *w == ["SCLH", "SDAL"]).count()
}

fn count_scl_highs(log: &[&str]) -> usize {
    log.iter().filter(|&&e| e == "SCLH").count()
}

#[test]
fn transaction_write_write_has_one_start_one_address() {
    let (mut i2c, log) = core_with_sda_reads(&[false, false, false]);
    let mut ops = vec![Transfer::Write(vec![0x75]), Transfer::Write(vec![0x6B])];

    i2c.transaction(0x68, &mut ops).unwrap();

    let log = log.borrow();
    assert_eq!(count_starts(&log), 1);
    // One address byte/ACK plus two data bytes/ACK.
    assert_eq!(count_scl_highs(&log), 28);
}

#[test]
fn transaction_write_read_has_repeated_start() {
    let (mut i2c, log) = core_with_sda_reads(&[
        false, false, false, true, false, true, false, true, false, true, false,
    ]);
    let mut ops = vec![Transfer::Write(vec![0x75]), Transfer::Read(vec![0u8])];

    i2c.transaction(0x68, &mut ops).unwrap();

    let log = log.borrow();
    assert_eq!(count_starts(&log), 2);
    // Direction changes once: one repeated START and a second address byte.
    assert_eq!(count_scl_highs(&log), 38);
}

#[test]
fn transaction_read_read_has_one_start_one_address() {
    let (mut i2c, log) = core_with_sda_reads(&[
        false, false, false, false, true, true, false, false, true, true, false, false, true,
        true, false, false, true,
    ]);
    let mut ops = vec![Transfer::Read(vec![0u8]), Transfer::Read(vec![0u8])];

    i2c.transaction(0x68, &mut ops).unwrap();

    let log = log.borrow();
    assert_eq!(count_starts(&log), 1);
    // One read address byte/ACK plus two read bytes/ACK-or-NACK.
    assert_eq!(count_scl_highs(&log), 28);
}

#[test]
fn transaction_fills_read_parts_and_keeps_write_parts() {
    let (mut i2c, _) = core_with_sda_reads(&[
        false, false, false, false, true, true, false, false, true, true, false, false, true,
        true, false, false, true,
    ]);
    let mut ops = vec![Transfer::Read(vec![0u8]), Transfer::Read(vec![0u8])];
    assert_eq!(i2c.transaction(0x68, &mut ops), Ok(()));
    assert_eq!(ops, vec![Transfer::Read(vec![0x19]), Transfer::Read(vec![0x99])]);

    let (mut i2c, _) = core_with_sda_reads(&[
        false, false, false, true, false, true, false, true, false, true, false,
    ]);
    let mut ops = vec![Transfer::Write(vec![0x75]), Transfer::Read(vec![0u8])];
    assert_eq!(i2c.transaction(0x68, &mut ops), Ok(()));
    assert_eq!(ops, vec![Transfer::Write(vec![0x75]), Transfer::Read(vec![0xAA])]);
}

#[test]
fn bus_transaction_stops_once_and_does_nothing_for_no_parts() {
    let (mut i2c, log) = core_with_sda_reads(&[false, false, false]);
    let mut ops = vec![Transfer::Write(vec![0x6B]), Transfer::Write(vec![0x00])];
    assert_eq!(i2c.bus_transaction(0x68, &mut ops), Ok(()));
    {
        let log = log.borrow();
        assert_eq!(count_starts(&log), 1);
        assert_eq!(&log[log.len() - 3..], &["SDAL", "SCLH", "SDAH"]);
    }

    let (mut idle, idle_log) = core_with_sda_reads(&[]);
    let mut none: Vec<Transfer> = Vec::new();
    assert_eq!(idle.bus_transaction(0x68, &mut none), Ok(()));
    assert!(idle_log.borrow().is_empty());
}

#[test]
fn transaction_reports_data_nack() {
    let (mut i2c, _) = core_with_sda_reads(&[false, true]);
    let mut ops = vec![Transfer::Write(vec![0x75, 0x00])];
    assert_eq!(i2c.transaction(0x68, &mut ops), Err(Error::DataNack));
}

#[test]
fn bus_transaction_sends_stop_after_a_data_nack() {
    let (mut i2c, log) = core_with_sda_reads(&[false, false, true]);
    let mut ops = vec![Transfer::Write(vec![0x6B, 0x00]), Transfer::Write(vec![0x01])];
    assert_eq!(i2c.bus_transaction(0x68, &mut ops), Err(Error::DataNack));
    let log = log.borrow();
    assert_eq!(count_starts(&log), 1);
    // START, the address and two data bytes, then STOP.
    assert_eq!(count_scl_highs(&log), 29);
    assert_eq!(&log[log.len() - 3..], &["SDAL", "SCLH", "SDAH"]);
}

#[test]
fn bus_transaction_on_a_stuck_clock_gives_up_and_still_tries_to_stop() {
    let log = Rc::new(RefCell::new(Vec::new()));
    let scl = Pin::new("scl", log.clone()).stuck_low();
    let sda = Pin::new("sda", log.clone());
    let mut i2c = BitbangCore::new(scl, sda);
    let mut ops = vec![Transfer::Write(vec![0x6B, 0x00])];
    assert_eq!(i2c.bus_transaction(0x68, &mut ops), Err(Error::Bus));
    // The START stops at its clock, and so does the STOP sent after it.
    assert_eq!(*log.borrow(), vec!["SDAH", "SCLH", "SDAL", "SCLH"]);
}

#[test]
fn bus_write_read_on_a_stuck_clock_reports_a_bus_error() {
    let log = Rc::new(RefCell::new(Vec::new()));
    let scl = Pin::new("scl", log.clone()).stuck_low();
    let sda = Pin::new("sda", log.clone());
    let mut i2c = BitbangCore::new(scl, sda);
    let mut buffer = [0u8; 2];
    assert_eq!(i2c.bus_write_read(0x68, &[0x3B], &mut buffer), Err(Error::Bus));
    assert_eq!(buffer, [0, 0]);
    assert_eq!(*log.borrow(), vec!["SDAH", "SCLH"]);
}

struct NoDelay;

impl DelayMs for NoDelay {
    fn delay_millis(&self, _ms: u32) {}
}

#[test]
fn address_probe_reports_ack_and_idle_levels() {
    let (mut i2c, log) = core_with_sda_reads(&[true, false]);
    let probe = i2c.probe_address(&NoDelay, 0xD0);
    assert_eq!(probe, AddressProbe { ack: true, scl_idle_high: true, sda_idle_high: true });
    {
        let log = log.borrow();
        assert_eq!(&log[..2], &["SCLH", "SDAH"]);
        assert_eq!(count_starts(&log), 1);
        // Release, START, eight bits and the acknowledge, STOP.
        assert_eq!(count_scl_highs(&log), 12);
        assert_eq!(&log[log.len() - 3..], &["SDAL", "SCLH", "SDAH"]);
    }
    assert_eq!(
        address_probe_line("low", 0x68, probe),
        "bitbang_i2c ad0=low address=0x68 ack=true scl_idle=HIGH sda_idle=HIGH"
    );

    let (mut nack, _) = core_with_sda_reads(&[false, true]);
    let probe = nack.probe_address(&NoDelay, 0xD2);
    assert_eq!(probe, AddressProbe { ack: false, scl_idle_high: true, sda_idle_high: false });
    assert_eq!(
        address_probe_line("high", 0x69, probe),
        "bitbang_i2c ad0=high address=0x69 ack=false scl_idle=HIGH sda_idle=LOW"
    );

    let log = Rc::new(RefCell::new(Vec::new()));
    let scl = Pin::new("scl", log.clone()).stuck_low();
    let sda = Pin::new("sda", log);
    let mut stuck = BitbangCore::new(scl, sda);
    assert!(!stuck.probe_address(&NoDelay, 0xD0).scl_idle_high);
}
