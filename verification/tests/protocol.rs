//! Tests for the MIIM control-word composition layer.

use mdio::miim::{read_ctrl_bits, write_ctrl_bits};

#[test]
fn read_ctrl_bits_concrete() {
    // start `01`, op `10`, addr `00001`, reg `00010`, turnaround `00`
    assert_eq!(read_ctrl_bits(0x01, 0x02), 0b0110_0000_1000_1000);
}

#[test]
fn write_ctrl_bits_concrete() {
    // start `01`, op `01`, addr `00001`, reg `00010`, turnaround `10`
    assert_eq!(write_ctrl_bits(0x01, 0x02), 0b0101_0000_1000_1010);
}

#[test]
fn masking_is_total_and_idempotent() {
    assert_eq!(read_ctrl_bits(0xff, 0x02), read_ctrl_bits(0xff & 0x1f, 0x02));
    assert_eq!(write_ctrl_bits(0xff, 0xe2), write_ctrl_bits(0x1f, 0x02));
    for d in 0u16..=255 {
        for r in [0x00u8, 0x02, 0x1f, 0x20, 0xe2, 0xff] {
            let d = d as u8;
            assert_eq!(read_ctrl_bits(d, r), read_ctrl_bits(d & 0x1f, r & 0x1f));
            assert_eq!(write_ctrl_bits(d, r), write_ctrl_bits(d & 0x1f, r & 0x1f));
        }
    }
}

#[test]
fn read_and_write_ctrl_differ_only_in_op_and_turnaround() {
    for d in 0u8..32 {
        for r in 0u8..32 {
            let rc = read_ctrl_bits(d, r);
            let wc = write_ctrl_bits(d, r);
            // all bits outside the op-code and turnaround positions agree
            assert_eq!(rc & 0xcffc, wc & 0xcffc);
            // fixed start of frame
            assert_eq!(rc & 0xc000, 0x4000);
            assert_eq!(wc & 0xc000, 0x4000);
            // op codes
            assert_eq!(rc & 0x3000, 0x2000);
            assert_eq!(wc & 0x3000, 0x1000);
            // turnaround bits
            assert_eq!(rc & 0x0003, 0x0000);
            assert_eq!(wc & 0x0003, 0x0002);
        }
    }
}

#[test]
fn address_fields_sit_at_their_offsets() {
    for d in 0u8..32 {
        for r in 0u8..32 {
            let rc = read_ctrl_bits(d, r);
            let wc = write_ctrl_bits(d, r);
            assert_eq!((rc >> 7) & 0x1f, d as u16);
            assert_eq!((rc >> 2) & 0x1f, r as u16);
            assert_eq!((wc >> 7) & 0x1f, d as u16);
            assert_eq!((wc >> 2) & 0x1f, r as u16);
        }
    }
}
