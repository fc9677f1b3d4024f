//! Management Data Input/Output (MDIO) interface access, including an
//! implementation of the standard Media Independent Interface Management
//! (MIIM) protocol.
//!
//! MDIO here refers to the two-pin (data + clock) I/O interface, while MIIM
//! refers to the standard MII Management protocol communicated via the MDIO
//! pins. Distinguishing the two leaves room both for the standard MIIM
//! protocol and for the non-standard variations found on some Ethernet
//! switches.
//!
//! The `Read` and `Write` traits below should be implemented for interfaces
//! where, given 16 control bits, an MDIO operation can be performed. Each
//! trait carries a ghost log of the transactions completed through it, so
//! that callers can reason about exactly which control words went out on the
//! wire and which data words came back.

use vstd::prelude::*;

pub mod bb;
pub mod bits;
pub mod miim;

verus! {

/// Performing read operations via an MDIO interface.
pub trait Read {
    /// Errors that might occur during MDIO operation.
    type Error;

    /// The read transactions completed so far, oldest first: each entry is
    /// the 16 control bits submitted and the 16 data bits returned.
    /// Verified implementations override this model; the default stands in
    /// for implementations outside the proof's reach.
    open spec fn read_log(&self) -> Seq<(u16, u16)> {
        Seq::empty()
    }

    /// Given the 16 control bits, perform an MDIO read operation.
    ///
    /// In the standard MIIM protocol, the `ctrl_bits` contain, in order: a
    /// start of frame (2 bits, `01`), an op code (2 bits, `10`), the PHY
    /// address (5 bits) and the register address (5 bits); the final 2
    /// turnaround bit times are not driven by this side.
    fn read(&mut self, ctrl_bits: u16) -> (r: Result<u16, Self::Error>)
        ensures
            (r matches Ok(data) ==> final(self).read_log()
                == old(self).read_log().push((ctrl_bits, data))),
            r is Err ==> final(self).read_log() == old(self).read_log(),
    ;
}

/// Performing write operations via an MDIO interface.
pub trait Write {
    /// Errors that might occur during MDIO operation.
    type Error;

    /// The write transactions completed so far, oldest first: each entry is
    /// the 16 control bits and the 16 data bits submitted.
    /// Verified implementations override this model; the default stands in
    /// for implementations outside the proof's reach.
    open spec fn write_log(&self) -> Seq<(u16, u16)> {
        Seq::empty()
    }

    /// Given the 16 control bits and 16 bits of data, perform an MDIO write
    /// operation.
    ///
    /// In the standard MIIM protocol, the `ctrl_bits` contain, in order: a
    /// start of frame (2 bits, `01`), an op code (2 bits, `01`), the PHY
    /// address (5 bits), the register address (5 bits) and the turnaround
    /// bits (`10`).
    fn write(&mut self, ctrl_bits: u16, data_bits: u16) -> (r: Result<(), Self::Error>)
        ensures
            r is Ok ==> final(self).write_log()
                == old(self).write_log().push((ctrl_bits, data_bits)),
            r is Err ==> final(self).write_log() == old(self).write_log(),
    ;
}

} // verus!
