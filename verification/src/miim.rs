//! MII Management (MIIM) Interface.
//!
//! The IEEE 802.3 MII Management Interface. Allows for upper-layer devices to
//! monitor and control the state of one or more PHYs.
//!
//! Each of the 16-bit registers is indexed via a 5-bit address, preceded by a
//! 5-bit PHY address. The 16-bit control word of a transaction carries, from
//! most to least significant bit: the start of frame `01` (2 bits), the op
//! code (2 bits, `10` read and `01` write), the PHY address (5 bits, at bit
//! offset 7 from the least-significant end), the register address (5 bits, at
//! bit offset 2) and the turnaround bits (2 bits, driven as `10` on a write
//! and left undriven on a read).
//!
//! A blanket implementation of the `mdio::miim::{Read, Write}` traits is
//! provided for types implementing the `mdio::{Read, Write}` traits.

use vstd::prelude::*;

verus! {

/// The PHY address field of a control word: the low five bits of the
/// address, shifted to bit offset 7.
pub open spec fn phy_field(phy_addr: u8) -> u16 {
    (((phy_addr & 0x1f) as u16) << 7u16)
}

/// The register address field of a control word: the low five bits of the
/// address, shifted to bit offset 2.
pub open spec fn reg_field(reg_addr: u8) -> u16 {
    (((reg_addr & 0x1f) as u16) << 2u16)
}

/// The control word of an MIIM read: start of frame `01`, op code `10`, the
/// two address fields, and clear turnaround bits (the line is released).
pub open spec fn read_ctrl_spec(phy_addr: u8, reg_addr: u8) -> u16 {
    0b0110_0000_0000_0000u16 | phy_field(phy_addr) | reg_field(reg_addr)
}

/// The control word of an MIIM write: start of frame `01`, op code `01`, the
/// two address fields, and turnaround bits `10`.
pub open spec fn write_ctrl_spec(phy_addr: u8, reg_addr: u8) -> u16 {
    0b0101_0000_0000_0010u16 | phy_field(phy_addr) | reg_field(reg_addr)
}

/// Every field of a control word sits in its own position: the fixed start
/// of frame and op code patterns, the five masked bits of each address at
/// their offsets, and the fixed turnaround bits.
pub proof fn lemma_ctrl_fields(phy_addr: u8, reg_addr: u8)
    ensures
        read_ctrl_spec(phy_addr, reg_addr) & 0xc000 == 0x4000,
        write_ctrl_spec(phy_addr, reg_addr) & 0xc000 == 0x4000,
        read_ctrl_spec(phy_addr, reg_addr) & 0x3000 == 0x2000,
        write_ctrl_spec(phy_addr, reg_addr) & 0x3000 == 0x1000,
        (read_ctrl_spec(phy_addr, reg_addr) >> 7u16) & 0x1f == (phy_addr & 0x1f) as u16,
        (write_ctrl_spec(phy_addr, reg_addr) >> 7u16) & 0x1f == (phy_addr & 0x1f) as u16,
        (read_ctrl_spec(phy_addr, reg_addr) >> 2u16) & 0x1f == (reg_addr & 0x1f) as u16,
        (write_ctrl_spec(phy_addr, reg_addr) >> 2u16) & 0x1f == (reg_addr & 0x1f) as u16,
        read_ctrl_spec(phy_addr, reg_addr) & 0x0003 == 0x0000,
        write_ctrl_spec(phy_addr, reg_addr) & 0x0003 == 0x0002,
{
    let p = phy_addr;
    let r = reg_addr;
    assert((0b0110_0000_0000_0000u16 | (((p & 0x1f) as u16) << 7u16) | (((r & 0x1f) as u16)
        << 2u16)) & 0xc000 == 0x4000) by (bit_vector);
    assert((0b0101_0000_0000_0010u16 | (((p & 0x1f) as u16) << 7u16) | (((r & 0x1f) as u16)
        << 2u16)) & 0xc000 == 0x4000) by (bit_vector);
    assert((0b0110_0000_0000_0000u16 | (((p & 0x1f) as u16) << 7u16) | (((r & 0x1f) as u16)
        << 2u16)) & 0x3000 == 0x2000) by (bit_vector);
    assert((0b0101_0000_0000_0010u16 | (((p & 0x1f) as u16) << 7u16) | (((r & 0x1f) as u16)
        << 2u16)) & 0x3000 == 0x1000) by (bit_vector);
    assert(((0b0110_0000_0000_0000u16 | (((p & 0x1f) as u16) << 7u16) | (((r & 0x1f) as u16)
        << 2u16)) >> 7u16) & 0x1f == (p & 0x1f) as u16) by (bit_vector);
    assert(((0b0101_0000_0000_0010u16 | (((p & 0x1f) as u16) << 7u16) | (((r & 0x1f) as u16)
        << 2u16)) >> 7u16) & 0x1f == (p & 0x1f) as u16) by (bit_vector);
    assert(((0b0110_0000_0000_0000u16 | (((p & 0x1f) as u16) << 7u16) | (((r & 0x1f) as u16)
        << 2u16)) >> 2u16) & 0x1f == (r & 0x1f) as u16) by (bit_vector);
    assert(((0b0101_0000_0000_0010u16 | (((p & 0x1f) as u16) << 7u16) | (((r & 0x1f) as u16)
        << 2u16)) >> 2u16) & 0x1f == (r & 0x1f) as u16) by (bit_vector);
    assert((0b0110_0000_0000_0000u16 | (((p & 0x1f) as u16) << 7u16) | (((r & 0x1f) as u16)
        << 2u16)) & 0x0003 == 0x0000) by (bit_vector);
    assert((0b0101_0000_0000_0010u16 | (((p & 0x1f) as u16) << 7u16) | (((r & 0x1f) as u16)
        << 2u16)) & 0x0003 == 0x0002) by (bit_vector);
}

/// For any pair of addresses, the read and the write control word agree on
/// every bit outside the op code positions (mask `0x3000`) and the
/// turnaround positions (mask `0x0003`).
pub proof fn lemma_read_write_ctrl_agree(phy_addr: u8, reg_addr: u8)
    ensures
        read_ctrl_spec(phy_addr, reg_addr) & 0xcffc == write_ctrl_spec(phy_addr, reg_addr)
            & 0xcffc,
{
    let p = phy_addr;
    let r = reg_addr;
    assert((0b0110_0000_0000_0000u16 | (((p & 0x1f) as u16) << 7u16) | (((r & 0x1f) as u16)
        << 2u16)) & 0xcffc == (0b0101_0000_0000_0010u16 | (((p & 0x1f) as u16) << 7u16) | (((r
        & 0x1f) as u16) << 2u16)) & 0xcffc) by (bit_vector);
}

/// Address masking is total and idempotent: only the low five bits of each
/// address reach the control word, so any wider value yields the same word
/// as its masked form.
pub proof fn lemma_ctrl_masking(phy_addr: u8, reg_addr: u8)
    ensures
        read_ctrl_spec(phy_addr, reg_addr) == read_ctrl_spec(phy_addr & 0x1f, reg_addr & 0x1f),
        write_ctrl_spec(phy_addr, reg_addr) == write_ctrl_spec(phy_addr & 0x1f, reg_addr & 0x1f),
{
    let p = phy_addr;
    let r = reg_addr;
    assert((p & 0x1f) & 0x1f == p & 0x1f) by (bit_vector);
    assert((r & 0x1f) & 0x1f == r & 0x1f) by (bit_vector);
}

fn phy_addr_ctrl_bits(phy_addr: u8) -> (r: u16)
    ensures
        r == phy_field(phy_addr),
{
    ((phy_addr & 0b0001_1111) as u16) << 7
}

fn reg_addr_ctrl_bits(reg_addr: u8) -> (r: u16)
    ensures
        r == reg_field(reg_addr),
{
    ((reg_addr & 0b0001_1111) as u16) << 2
}

/// Given the PHY and register addresses, produce the control bits for an
/// MDIO read operation.
pub fn read_ctrl_bits(phy_addr: u8, reg_addr: u8) -> (r: u16)
    ensures
        r == read_ctrl_spec(phy_addr, reg_addr),
{
    0b0110_0000_0000_0000u16 | phy_addr_ctrl_bits(phy_addr) | reg_addr_ctrl_bits(reg_addr)
}

/// Given the PHY and register addresses, produce the control bits for an
/// MDIO write operation.
pub fn write_ctrl_bits(phy_addr: u8, reg_addr: u8) -> (r: u16)
    ensures
        r == write_ctrl_spec(phy_addr, reg_addr),
{
    0b0101_0000_0000_0010u16 | phy_addr_ctrl_bits(phy_addr) | reg_addr_ctrl_bits(reg_addr)
}

/// A trait for reading the standard MIIM protocol.
///
/// A blanket implementation is provided for types implementing the
/// lower-level `mdio::Read` trait.
pub trait Read {
    /// Errors that might occur on the MIIM interface.
    type Error;

    /// The MIIM read transactions completed so far, oldest first: the
    /// control word that went out for them and the data word returned.
    /// Verified implementations override this model; the default stands in
    /// for implementations outside the proof's reach.
    open spec fn miim_read_log(&self) -> Seq<(u16, u16)> {
        Seq::empty()
    }

    /// Read the data from the given register address associated with the
    /// specified PHY.
    fn read(&mut self, phy_addr: u8, reg_addr: u8) -> (r: Result<u16, Self::Error>)
        ensures
            (r matches Ok(data) ==> final(self).miim_read_log() == old(self).miim_read_log().push(
                (read_ctrl_spec(phy_addr, reg_addr), data))),
            r is Err ==> final(self).miim_read_log() == old(self).miim_read_log(),
    ;
}

/// A trait for writing the standard MIIM protocol.
///
/// A blanket implementation is provided for types implementing the
/// lower-level `mdio::Write` trait.
pub trait Write {
    /// Errors that might occur on the MIIM interface.
    type Error;

    /// The MIIM write transactions completed so far, oldest first: the
    /// control word that went out for them and the data word submitted.
    /// Verified implementations override this model; the default stands in
    /// for implementations outside the proof's reach.
    open spec fn miim_write_log(&self) -> Seq<(u16, u16)> {
        Seq::empty()
    }

    /// Write to the register at the given address associated with the
    /// specified PHY.
    fn write(&mut self, phy_addr: u8, reg_addr: u8, data: u16) -> (r: Result<
        (),
        Self::Error,
    >)
        ensures
            r is Ok ==> final(self).miim_write_log() == old(self).miim_write_log().push(
                (write_ctrl_spec(phy_addr, reg_addr), data)),
            r is Err ==> final(self).miim_write_log() == old(self).miim_write_log(),
    ;
}

impl<T: crate::Read> Read for T {
    type Error = <T as crate::Read>::Error;

    open spec fn miim_read_log(&self) -> Seq<(u16, u16)> {
        crate::Read::read_log(self)
    }

    fn read(&mut self, phy_addr: u8, reg_addr: u8) -> (r: Result<u16, Self::Error>) {
        crate::Read::read(self, read_ctrl_bits(phy_addr, reg_addr))
    }
}

impl<T: crate::Write> Write for T {
    type Error = <T as crate::Write>::Error;

    open spec fn miim_write_log(&self) -> Seq<(u16, u16)> {
        crate::Write::write_log(self)
    }

    fn write(&mut self, phy_addr: u8, reg_addr: u8, data: u16) -> (r: Result<
        (),
        Self::Error,
    >) {
        crate::Write::write(self, write_ctrl_bits(phy_addr, reg_addr), data)
    }
}

} // verus!
