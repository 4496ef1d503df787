//! Fixed-size transport packets.
//!
//! One packet carries one chunk of the canvas: a 0-based chunk index and a
//! payload of `PAYLOAD_SIZE - 2` bytes.  On the wire the packet becomes a
//! report of `PAYLOAD_SIZE` bytes: the report-type byte, the index byte,
//! then the payload.

use vstd::prelude::*;

use crate::transport::{DriverError, HidAdapter};

verus! {

/// Total length in bytes of one transport report: the report-type byte, the
/// index byte, and the payload.
pub const PAYLOAD_SIZE: usize = 32;

/// Value of byte 0 of every report.
pub const REPORT_TYPE: u8 = 1;

/// Mathematical content of one packet: its chunk index and payload bytes.
pub struct PacketModel {
    pub index: u8,
    pub payload: Seq<u8>,
}

/// One fixed-size transport unit.
pub struct DataPacket {
    index: u8,
    payload: Vec<u8>,
}

impl View for DataPacket {
    type V = PacketModel;

    closed spec fn view(&self) -> PacketModel {
        PacketModel { index: self.index, payload: self.payload@ }
    }
}

/// Wire form of a packet: report type, index, then the payload.
pub open spec fn report_bytes(m: PacketModel) -> Seq<u8> {
    seq![REPORT_TYPE, m.index] + m.payload
}

impl DataPacket {
    /// The payload holds exactly one chunk's worth of bytes.
    pub open spec fn wf(self) -> bool {
        self@.payload.len() == PAYLOAD_SIZE - 2
    }

    pub fn new(starting_index: u8, payload: Vec<u8>) -> (r: Self)
        requires
            payload@.len() == PAYLOAD_SIZE - 2,
        ensures
            r.wf(),
            r@ == (PacketModel { index: starting_index, payload: payload@ }),
    {
        Self { index: starting_index, payload }
    }

    /// The packet's report: report-type byte, index byte, then the payload.
    pub fn to_bytes(&self) -> (r: Vec<u8>)
        ensures
            r@ == report_bytes(self@),
    {
        let mut bytes: Vec<u8> = Vec::new();
        bytes.push(REPORT_TYPE);
        bytes.push(self.index);
        let mut i: usize = 0;
        while i < self.payload.len()
            invariant
                i <= self.payload@.len(),
                bytes@ == seq![REPORT_TYPE, self@.index] + self.payload@.take(i as int),
            decreases self.payload@.len() - i,
        {
            bytes.push(self.payload[i]);
            proof {
                assert(self.payload@.take(i + 1) =~= self.payload@.take(i as int).push(
                    self.payload@[i as int],
                ));
                assert(bytes@ =~= seq![REPORT_TYPE, self@.index] + self.payload@.take(i + 1));
            }
            i += 1;
        }
        proof {
            assert(self.payload@.take(self.payload@.len() as int) =~= self.payload@);
            assert(bytes@ =~= report_bytes(self@));
        }
        bytes
    }

    /// The packet's chunk index.
    pub fn index(&self) -> (r: u8)
        ensures
            r == self@.index,
    {
        self.index
    }

    /// Writes the packet's report through the transport, surfacing any write
    /// failure to the caller.
    pub fn send<T: HidAdapter>(&self, device: &T) -> (r: Result<(), DriverError>)
    {
        let bytes = self.to_bytes();
        match device.write(bytes.as_slice()) {
            Ok(_) => Ok(()),
            Err(e) => Err(e),
        }
    }
}

/// The packet contents of a sequence of packets, in order.
pub open spec fn packet_views(s: Seq<DataPacket>) -> Seq<PacketModel> {
    s.map_values(|p: DataPacket| p@)
}

/// Structural packet equality: same index and same payload bytes.
impl PartialEq for DataPacket {
    fn eq(&self, other: &Self) -> (r: bool) {
        if self.index != other.index {
            return false;
        }
        if self.payload.len() != other.payload.len() {
            return false;
        }
        let mut i: usize = 0;
        while i < self.payload.len()
            invariant
                i <= self.payload@.len(),
                self.payload@.len() == other.payload@.len(),
                self.index == other.index,
                forall|j: int| 0 <= j < i ==> self.payload@[j] == other.payload@[j],
            decreases self.payload@.len() - i,
        {
            if self.payload[i] != other.payload[i] {
                return false;
            }
            i += 1;
        }
        proof {
            assert(self.payload@ =~= other.payload@);
        }
        true
    }
}

impl vstd::std_specs::cmp::PartialEqSpecImpl for DataPacket {
    open spec fn obeys_eq_spec() -> bool {
        true
    }

    open spec fn eq_spec(&self, other: &Self) -> bool {
        self@ == other@
    }
}

} // verus!
