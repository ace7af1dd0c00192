//! What two nodes exchange before they transfer anything: the endpoints of their
//! queue pairs and the memory that the other may access.

use vstd::prelude::*;
use vstd::string::*;

verus! {

/// Why a transfer cannot be made.
#[derive(Debug, PartialEq, Eq)]
pub enum TransferError {
    InvalidArgument(&'static str),
    MemoryNotRegistered { ptr: u64 },
    Backend(String),
}

/// Whether an error is a refused argument, for this reason.
pub open spec fn refused(e: TransferError, reason: Seq<char>) -> bool {
    e matches TransferError::InvalidArgument(m) && m@ == reason
}

/// Whether an error is one of the backend, with this message.
pub open spec fn backend_error(e: TransferError, message: Seq<char>) -> bool {
    e matches TransferError::Backend(m) && m@ == message
}

/// One end of a queue pair.
#[derive(Clone, Copy, Debug, PartialEq, Eq)]
pub struct RcEndpoint {
    pub gid: [u8; 16],
    pub lid: u16,
    pub qp_num: u32,
    pub psn: u32,
}

/// A registered region of memory, and the key for remote access to it.
#[derive(Clone, Copy, Debug, PartialEq, Eq, Structural)]
pub struct RegisteredMemoryRegion {
    pub base_ptr: u64,
    pub len: u64,
    pub rkey: u32,
}

/// What is exchanged for one NIC: an endpoint for each queue pair, and the
/// registered memory.
#[derive(Debug)]
pub struct NicHandshake {
    pub endpoints: Vec<RcEndpoint>,
    pub memory_regions: Vec<RegisteredMemoryRegion>,
}

/// What is exchanged with a peer: one part for each NIC, by index.
#[derive(Debug)]
pub struct HandshakeMetadata {
    pub nics: Vec<NicHandshake>,
}

/// An endpoint as plain values.
pub type EndpointView = (Seq<u8>, u16, u32, u32);

/// A registered region as plain values.
pub type RegionView = (u64, u64, u32);

/// The part of one NIC as plain values.
pub type NicView = (Seq<EndpointView>, Seq<RegionView>);

/// An endpoint as a tuple, which is encoded as the struct is: field by field.
pub type EndpointTuple = ([u8; 16], u16, u32, u32);

/// The part of one NIC as a tuple.
pub type NicTuple = (Vec<EndpointTuple>, Vec<(u64, u64, u32)>);

/// The plain values of an endpoint.
pub open spec fn endpoint_view(e: RcEndpoint) -> EndpointView {
    (e.gid@, e.lid, e.qp_num, e.psn)
}

/// The plain values of a region.
pub open spec fn region_view(r: RegisteredMemoryRegion) -> RegionView {
    (r.base_ptr, r.len, r.rkey)
}

impl View for NicHandshake {
    type V = NicView;

    open spec fn view(&self) -> NicView {
        (
            self.endpoints@.map_values(|e: RcEndpoint| endpoint_view(e)),
            self.memory_regions@.map_values(|r: RegisteredMemoryRegion| region_view(r)),
        )
    }
}

impl View for HandshakeMetadata {
    type V = Seq<NicView>;

    open spec fn view(&self) -> Seq<NicView> {
        self.nics@.map_values(|n: NicHandshake| n@)
    }
}

/// The plain values of a tuple.
pub open spec fn nic_tuple_view(t: NicTuple) -> NicView {
    (t.0@.map_values(|e: EndpointTuple| (e.0@, e.1, e.2, e.3)), t.1@)
}

/// The plain values of tuples.
pub open spec fn tuples_view(v: Seq<NicTuple>) -> Seq<NicView> {
    v.map_values(|t: NicTuple| nic_tuple_view(t))
}

/// The bytes that `bincode::serde::encode_to_vec` writes for the parts of all
/// NICs, with the standard configuration.
pub uninterp spec fn handshake_encoding(nics: Seq<NicView>) -> Seq<u8>;

/// What `bincode::serde::decode_from_slice` reads from bytes, with the standard
/// configuration: the parts of all NICs and how many bytes they took, or nothing
/// where it reports an error.
pub uninterp spec fn handshake_decoding(bytes: Seq<u8>) -> Option<(Seq<NicView>, nat)>;

/// The error of `bincode::serde::decode_from_slice`.
#[verifier::external_type_specification]
#[verifier::external_body]
pub struct ExDecodeError(bincode::error::DecodeError);

/// `bincode::serde::encode_to_vec` encodes sequences of known length, tuples and
/// integers without an error. What it wrote, `bincode::serde::decode_from_slice`
/// reads back whole, with the same configuration, whatever bytes follow: it reads
/// one value from the front and looks no further.
#[verifier::external_body]
pub(crate) fn encode_tuples(nics: &Vec<NicTuple>) -> (r: Vec<u8>)
    ensures
        r@ == handshake_encoding(tuples_view(nics@)),
        handshake_decoding(r@) == Some((tuples_view(nics@), r@.len())),
        forall|more: Seq<u8>| #[trigger]
            handshake_decoding(r@ + more) == Some((tuples_view(nics@), r@.len())),
{
    bincode::serde::encode_to_vec(nics, bincode::config::standard()).expect("plain values encode")
}

/// `bincode::serde::decode_from_slice` reads one value from the front of the
/// bytes and reports how many bytes it took, or an error.
#[verifier::external_body]
pub(crate) fn decode_tuples(bytes: &[u8]) -> (r: Result<
    (Vec<NicTuple>, usize),
    bincode::error::DecodeError,
>)
    ensures
        match r {
            Ok((nics, taken)) => handshake_decoding(bytes@) == Some(
                (tuples_view(nics@), taken as nat),
            ),
            Err(_) => handshake_decoding(bytes@) is None,
        },
{
    bincode::serde::decode_from_slice(bytes, bincode::config::standard())
}

impl NicHandshake {
    fn to_tuple(&self) -> (r: NicTuple)
        ensures
            nic_tuple_view(r) == self@,
    {
        let mut endpoints: Vec<EndpointTuple> = Vec::new();
        let mut i: usize = 0;
        while i < self.endpoints.len()
            invariant
                i <= self.endpoints@.len(),
                endpoints@.len() == i,
                forall|k: int|
                    0 <= k < i ==> {
                        &&& (#[trigger] endpoints@[k]).0@ == self.endpoints@[k].gid@
                        &&& endpoints@[k].1 == self.endpoints@[k].lid
                        &&& endpoints@[k].2 == self.endpoints@[k].qp_num
                        &&& endpoints@[k].3 == self.endpoints@[k].psn
                    },
            decreases self.endpoints@.len() - i,
        {
            let e: RcEndpoint = self.endpoints[i];
            endpoints.push((e.gid, e.lid, e.qp_num, e.psn));
            i += 1;
        }
        let mut regions: Vec<(u64, u64, u32)> = Vec::new();
        let mut j: usize = 0;
        while j < self.memory_regions.len()
            invariant
                j <= self.memory_regions@.len(),
                regions@.len() == j,
                forall|k: int|
                    0 <= k < j ==> #[trigger] regions@[k] == region_view(self.memory_regions@[k]),
            decreases self.memory_regions@.len() - j,
        {
            let r: RegisteredMemoryRegion = self.memory_regions[j];
            regions.push((r.base_ptr, r.len, r.rkey));
            j += 1;
        }
        let t: NicTuple = (endpoints, regions);
        proof {
            assert(nic_tuple_view(t).0 =~= self@.0);
            assert(nic_tuple_view(t).1 =~= self@.1);
        }
        t
    }

    fn from_tuple(t: &NicTuple) -> (r: Self)
        ensures
            r@ == nic_tuple_view(*t),
    {
        let mut endpoints: Vec<RcEndpoint> = Vec::new();
        let mut i: usize = 0;
        while i < t.0.len()
            invariant
                i <= t.0@.len(),
                endpoints@.len() == i,
                forall|k: int|
                    0 <= k < i ==> {
                        &&& (#[trigger] endpoints@[k]).gid@ == t.0@[k].0@
                        &&& endpoints@[k].lid == t.0@[k].1
                        &&& endpoints@[k].qp_num == t.0@[k].2
                        &&& endpoints@[k].psn == t.0@[k].3
                    },
            decreases t.0@.len() - i,
        {
            let e: EndpointTuple = t.0[i];
            endpoints.push(RcEndpoint { gid: e.0, lid: e.1, qp_num: e.2, psn: e.3 });
            i += 1;
        }
        let mut memory_regions: Vec<RegisteredMemoryRegion> = Vec::new();
        let mut j: usize = 0;
        while j < t.1.len()
            invariant
                j <= t.1@.len(),
                memory_regions@.len() == j,
                forall|k: int|
                    0 <= k < j ==> region_view(#[trigger] memory_regions@[k]) == t.1@[k],
            decreases t.1@.len() - j,
        {
            let r: (u64, u64, u32) = t.1[j];
            memory_regions.push(
                RegisteredMemoryRegion { base_ptr: r.0, len: r.1, rkey: r.2 },
            );
            j += 1;
        }
        let n: NicHandshake = NicHandshake { endpoints, memory_regions };
        proof {
            assert(n@.0 =~= nic_tuple_view(*t).0);
            assert(n@.1 =~= nic_tuple_view(*t).1);
        }
        n
    }

    /// A copy.
    pub fn duplicate(&self) -> (r: Self)
        ensures
            r@ == self@,
            r.endpoints@ == self.endpoints@,
            r.memory_regions@ == self.memory_regions@,
    {
        let mut endpoints: Vec<RcEndpoint> = Vec::new();
        let mut i: usize = 0;
        while i < self.endpoints.len()
            invariant
                i <= self.endpoints@.len(),
                endpoints@ == self.endpoints@.take(i as int),
            decreases self.endpoints@.len() - i,
        {
            endpoints.push(self.endpoints[i]);
            i += 1;
            assert(endpoints@ =~= self.endpoints@.take(i as int));
        }
        assert(endpoints@ =~= self.endpoints@);
        let mut memory_regions: Vec<RegisteredMemoryRegion> = Vec::new();
        let mut j: usize = 0;
        while j < self.memory_regions.len()
            invariant
                j <= self.memory_regions@.len(),
                memory_regions@ == self.memory_regions@.take(j as int),
            decreases self.memory_regions@.len() - j,
        {
            memory_regions.push(self.memory_regions[j]);
            j += 1;
            assert(memory_regions@ =~= self.memory_regions@.take(j as int));
        }
        assert(memory_regions@ =~= self.memory_regions@);
        NicHandshake { endpoints, memory_regions }
    }
}

impl HandshakeMetadata {
    /// The bytes to send to a peer. The peer reads the same metadata from them.
    pub fn to_bytes(&self) -> (r: Vec<u8>)
        ensures
            r@ == handshake_encoding(self@),
            handshake_decoding(r@) == Some((self@, r@.len())),
            forall|more: Seq<u8>| #[trigger]
                handshake_decoding(r@ + more) == Some((self@, r@.len())),
    {
        let mut tuples: Vec<NicTuple> = Vec::new();
        let mut i: usize = 0;
        while i < self.nics.len()
            invariant
                i <= self.nics@.len(),
                tuples@.len() == i,
                forall|k: int|
                    0 <= k < i ==> nic_tuple_view(#[trigger] tuples@[k]) == self.nics@[k]@,
            decreases self.nics@.len() - i,
        {
            tuples.push(self.nics[i].to_tuple());
            i += 1;
        }
        assert(tuples_view(tuples@) =~= self@);
        encode_tuples(&tuples)
    }

    /// The metadata in bytes that a peer sent. Bytes that cannot be decoded, and
    /// bytes behind the metadata, are refused.
    pub fn from_bytes(bytes: &[u8]) -> (r: Result<Self, TransferError>)
        ensures
            match handshake_decoding(bytes@) {
                None => r matches Err(e) && refused(e, "invalid handshake metadata"@),
                Some((nics, taken)) => if taken != bytes@.len() {
                    r matches Err(e) && refused(e, "trailing bytes in handshake metadata"@)
                } else {
                    r matches Ok(m) && m@ == nics
                },
            },
    {
        match decode_tuples(bytes) {
            Ok((tuples, taken)) => Self::from_decoded(Some((tuples, taken)), bytes.len()),
            Err(_) => Self::from_decoded(None, bytes.len()),
        }
    }

    /// The metadata that was decoded from `total` bytes, if any was, and if it
    /// took all of them.
    pub fn from_decoded(decoded: Option<(Vec<NicTuple>, usize)>, total: usize) -> (r: Result<
        Self,
        TransferError,
    >)
        ensures
            match decoded {
                None => r matches Err(e) && refused(e, "invalid handshake metadata"@),
                Some((tuples, taken)) => if taken != total {
                    r matches Err(e) && refused(e, "trailing bytes in handshake metadata"@)
                } else {
                    r matches Ok(m) && m@ == tuples_view(tuples@)
                },
            },
    {
        match decoded {
            None => Err(TransferError::InvalidArgument("invalid handshake metadata")),
            Some((tuples, taken)) => {
                if taken != total {
                    return Err(
                        TransferError::InvalidArgument("trailing bytes in handshake metadata"),
                    );
                }
                let mut nics: Vec<NicHandshake> = Vec::new();
                let mut i: usize = 0;
                while i < tuples.len()
                    invariant
                        i <= tuples@.len(),
                        nics@.len() == i,
                        forall|k: int|
                            0 <= k < i ==> (#[trigger] nics@[k])@ == nic_tuple_view(tuples@[k]),
                    decreases tuples@.len() - i,
                {
                    nics.push(NicHandshake::from_tuple(&tuples[i]));
                    i += 1;
                }
                let m: HandshakeMetadata = HandshakeMetadata { nics };
                assert(m@ =~= tuples_view(tuples@));
                Ok(m)
            },
        }
    }
}

/// Handshake metadata is shown whole: every NIC with all its queue pairs and all its memory, and each
/// of these with everything that it is made of.
pub proof fn law_handshakes_are_shown_whole(
    meta: HandshakeMetadata,
    e: RcEndpoint,
    r: RegisteredMemoryRegion,
    k: int,
    i: int,
)
    requires
        0 <= k < meta.nics@.len(),
    ensures
        meta@.len() == meta.nics@.len(),
        meta@[k].0.len() == meta.nics@[k].endpoints@.len(),
        meta@[k].1.len() == meta.nics@[k].memory_regions@.len(),
        0 <= i < meta.nics@[k].endpoints@.len() ==> meta@[k].0[i] == endpoint_view(
            meta.nics@[k].endpoints@[i],
        ),
        0 <= i < meta.nics@[k].memory_regions@.len() ==> meta@[k].1[i] == region_view(
            meta.nics@[k].memory_regions@[i],
        ),
        endpoint_view(e) == (e.gid@, e.lid, e.qp_num, e.psn),
        region_view(r) == (r.base_ptr, r.len, r.rkey),
{
}

} // verus!
