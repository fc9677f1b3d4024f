//! Tests for the bit-banged transport, driven through mock pins and a mock
//! timing source that record everything that happens on the wire.

use mdio::bb::{ClockPin, DataPin, Mdio, Timer};
use mdio::miim::{read_ctrl_bits, write_ctrl_bits};
use mdio::{Read, Write};

/// A mock data pin: records every level driven, and answers senses from a
/// script, low once the script is exhausted.
struct MockData {
    drives: Vec<bool>,
    senses: Vec<bool>,
    next_sense: usize,
}

impl MockData {
    fn new(senses: Vec<bool>) -> Self {
        MockData { drives: Vec::new(), senses, next_sense: 0 }
    }
}

impl DataPin for MockData {
    type Error = ();

    fn set_high(&mut self) -> Result<(), ()> {
        self.drives.push(true);
        Ok(())
    }

    fn set_low(&mut self) -> Result<(), ()> {
        self.drives.push(false);
        Ok(())
    }

    fn is_high(&mut self) -> Result<bool, ()> {
        let level = self.senses.get(self.next_sense).copied().unwrap_or(false);
        self.next_sense += 1;
        Ok(level)
    }
}

/// A mock data pin whose drives start failing after a given number of
/// operations.
struct FlakyData {
    remaining: usize,
}

impl DataPin for FlakyData {
    type Error = ();

    fn set_high(&mut self) -> Result<(), ()> {
        if self.remaining == 0 {
            return Err(());
        }
        self.remaining -= 1;
        Ok(())
    }

    fn set_low(&mut self) -> Result<(), ()> {
        self.set_high()
    }

    fn is_high(&mut self) -> Result<bool, ()> {
        Ok(false)
    }
}

/// A mock clock pin recording every level driven.
struct MockClock {
    levels: Vec<bool>,
}

impl ClockPin for MockClock {
    type Error = ();

    fn set_high(&mut self) -> Result<(), ()> {
        self.levels.push(true);
        Ok(())
    }

    fn set_low(&mut self) -> Result<(), ()> {
        self.levels.push(false);
        Ok(())
    }
}

/// A mock timing source counting the periods waited for.
struct MockTimer {
    waits: usize,
}

impl Timer for MockTimer {
    type Error = ();

    fn wait(&mut self) -> Result<(), ()> {
        self.waits += 1;
        Ok(())
    }
}

fn mock_mdio(senses: Vec<bool>) -> Mdio<MockData, MockClock, MockTimer> {
    Mdio::new(MockData::new(senses), MockClock { levels: Vec::new() }, MockTimer { waits: 0 })
}

/// The bits of `w`, most significant first.
fn bits_msb(w: u16) -> Vec<bool> {
    (0..16).map(|i| (w >> (15 - i)) & 1 == 1).collect()
}

#[test]
fn write_u8_drives_bits_most_significant_first() {
    let mut mdio = mock_mdio(Vec::new());
    mdio.write_u8(0b1011_0000).unwrap();
    let (data, clock, timer) = mdio.into_parts();
    assert_eq!(data.drives, vec![true, false, true, true, false, false, false, false]);
    assert_eq!(clock.levels.len(), 16);
    assert_eq!(timer.waits, 16);
}

#[test]
fn write_bits_stops_after_count_bits() {
    let mut mdio = mock_mdio(Vec::new());
    mdio.write_bits(0b1011_0000, 6).unwrap();
    let (data, clock, timer) = mdio.into_parts();
    assert_eq!(data.drives, vec![true, false, true, true, false, false]);
    assert_eq!(clock.levels.len(), 12);
    assert_eq!(timer.waits, 12);
}

#[test]
fn write_bits_clamps_the_count_to_eight() {
    let mut mdio = mock_mdio(Vec::new());
    mdio.write_bits(0b1011_0000, 20).unwrap();
    let (data, clock, _) = mdio.into_parts();
    assert_eq!(data.drives, vec![true, false, true, true, false, false, false, false]);
    assert_eq!(clock.levels.len(), 16);
}

#[test]
fn preamble_pulses_the_clock_32_times_with_the_line_held_high() {
    let mut mdio = mock_mdio(Vec::new());
    mdio.preamble().unwrap();
    let (data, clock, timer) = mdio.into_parts();
    assert_eq!(data.drives, vec![true]);
    assert_eq!(clock.levels.len(), 64);
    for (i, level) in clock.levels.iter().enumerate() {
        assert_eq!(*level, i % 2 == 0);
    }
    assert_eq!(timer.waits, 128 / 2);
}

#[test]
fn write_emits_preamble_then_ctrl_then_data() {
    let ctrl = write_ctrl_bits(0x01, 0x02);
    let data_word = 0xbeef;
    let mut mdio = mock_mdio(Vec::new());
    mdio.write(ctrl, data_word).unwrap();
    let (data, clock, timer) = mdio.into_parts();
    // one drive for the preamble, then each control and data bit
    assert_eq!(data.drives.len(), 1 + 16 + 16);
    assert!(data.drives[0]);
    assert_eq!(&data.drives[1..17], bits_msb(ctrl).as_slice());
    assert_eq!(&data.drives[17..33], bits_msb(data_word).as_slice());
    // 32 preamble + 16 ctrl + 16 data pulses, two levels and two waits each
    assert_eq!(clock.levels.len(), 2 * 64);
    assert_eq!(timer.waits, 2 * 64);
}

#[test]
fn read_writes_14_ctrl_bits_then_two_turnaround_pulses_then_senses() {
    let ctrl = read_ctrl_bits(0x01, 0x02);
    let word = 0xa5c3;
    let mut mdio = mock_mdio(bits_msb(word));
    let got = mdio.read(ctrl).unwrap();
    assert_eq!(got, word);
    let (data, clock, timer) = mdio.into_parts();
    // preamble drive, then only the 14 most significant control bits:
    // the two turnaround bit times are not driven by this side
    assert_eq!(data.drives.len(), 1 + 14);
    assert!(data.drives[0]);
    assert_eq!(&data.drives[1..15], &bits_msb(ctrl)[..14]);
    // all 16 data bits were sensed
    assert_eq!(data.next_sense, 16);
    // 32 preamble + 14 ctrl + 2 turnaround + 16 data pulses
    assert_eq!(clock.levels.len(), 2 * 64);
    assert_eq!(timer.waits, 2 * 64);
}

#[test]
fn read_assembles_sensed_bits_most_significant_first() {
    let ctrl = read_ctrl_bits(0x00, 0x00);
    let mut senses = vec![false; 16];
    senses[0] = true; // most significant bit of the result
    senses[15] = true; // least significant bit of the result
    let mut mdio = mock_mdio(senses);
    assert_eq!(mdio.read(ctrl).unwrap(), 0x8001);
}

#[test]
fn round_trip_against_an_echoing_remote() {
    let data_word = 0x1234;
    let write_ctrl = write_ctrl_bits(0x01, 0x02);
    let read_ctrl = read_ctrl_bits(0x01, 0x02);

    let mut mdio = mock_mdio(Vec::new());
    mdio.write(write_ctrl, data_word).unwrap();
    let (data, clock, timer) = mdio.into_parts();

    // the remote echoes the data word it last saw written
    let echoed: Vec<bool> = data.drives[data.drives.len() - 16..].to_vec();
    let mut mdio = Mdio::new(MockData::new(echoed), clock, timer);
    assert_eq!(mdio.read(read_ctrl).unwrap(), data_word);
}

#[test]
fn pin_errors_abort_the_transaction() {
    // fails on the very first drive: nothing gets on the wire
    let mdio_pin = FlakyData { remaining: 0 };
    let clock = MockClock { levels: Vec::new() };
    let timer = MockTimer { waits: 0 };
    let mut mdio = Mdio::new(mdio_pin, clock, timer);
    assert_eq!(mdio.write(0xffff, 0xffff), Err(()));
    let (_, clock, _) = mdio.into_parts();
    assert_eq!(clock.levels.len(), 0);

    // fails mid-frame: the frame is cut short right there
    let mdio_pin = FlakyData { remaining: 3 };
    let clock = MockClock { levels: Vec::new() };
    let timer = MockTimer { waits: 0 };
    let mut mdio = Mdio::new(mdio_pin, clock, timer);
    assert_eq!(mdio.write(0xffff, 0xffff), Err(()));
    let (_, clock, _) = mdio.into_parts();
    // preamble (32 pulses) and two written bits completed, the third did not
    assert_eq!(clock.levels.len(), 2 * 34);
}

#[test]
fn miim_read_composes_the_read_control_word() {
    let mut mdio = mock_mdio(bits_msb(0x0700));
    let got = mdio::miim::Read::read(&mut mdio, 0x01, 0x02).unwrap();
    assert_eq!(got, 0x0700);
    let (data, _, _) = mdio.into_parts();
    assert_eq!(&data.drives[1..15], &bits_msb(0b0110_0000_1000_1000)[..14]);
}

#[test]
fn miim_write_composes_the_write_control_word() {
    let mut mdio = mock_mdio(Vec::new());
    mdio::miim::Write::write(&mut mdio, 0x01, 0x02, 0x0700).unwrap();
    let (data, _, _) = mdio.into_parts();
    assert_eq!(&data.drives[1..17], bits_msb(0b0101_0000_1000_1010).as_slice());
    assert_eq!(&data.drives[17..33], bits_msb(0x0700).as_slice());
}
