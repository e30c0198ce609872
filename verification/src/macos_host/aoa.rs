//! The Android Open Accessory protocol, as far as the host decides it: which device to talk to,
//! what to send it, when it has become an accessory, and which endpoints to use.

use vstd::prelude::*;
use vstd::string::StringSliceAdditionalSpecFns;
use crate::io::IoError;

verus! {

/// The control request that asks a device for its protocol version.
pub const AOA_GET_PROTOCOL: u8 = 51;

/// The control request that sends a device one of the identity strings.
pub const AOA_SEND_STRING: u8 = 52;

/// The control request that makes a device start as an accessory.
pub const AOA_START: u8 = 53;

/// The vendor of a phone, and of an accessory.
pub const AOA_VID: u16 = 0x18D1;

/// The first product of an accessory.
pub const AOA_PID_LO: u16 = 0x2D00;

/// The last product of an accessory.
pub const AOA_PID_HI: u16 = 0x2D05;

/// The identity strings, by their numbers: manufacturer, model, description, version, address and
/// serial number. The phone's accessory filter has to hold the same manufacturer, model and
/// version.
pub open spec fn identity_of(id: int) -> Option<&'static str> {
    if id == 0 {
        Some("RustScreen")
    } else if id == 1 {
        Some("RustScreen Host")
    } else if id == 2 {
        Some("USB second-monitor link")
    } else if id == 3 {
        Some("1.0")
    } else if id == 4 {
        Some("https://github.com/PeterXMR/rustscreen")
    } else if id == 5 {
        Some("rs-0001")
    } else {
        None
    }
}

/// The identity string of a number.
pub fn identity(id: u16) -> (r: Option<&'static str>)
    ensures
        r == identity_of(id as int),
{
    match id {
        0 => Some("RustScreen"),
        1 => Some("RustScreen Host"),
        2 => Some("USB second-monitor link"),
        3 => Some("1.0"),
        4 => Some("https://github.com/PeterXMR/rustscreen"),
        5 => Some("rs-0001"),
        _ => None,
    }
}

/// Why a device cannot be used.
#[derive(Clone, Copy, Debug, PartialEq, Eq, Structural)]
pub enum AoaError {
    /// The protocol version was not answered in full.
    ShortReply,
    /// The device does not know the protocol.
    Unsupported,
    /// There is no phone among the devices.
    NoDevice,
    /// The phone did not come back as an accessory in time.
    NotReacquired,
    /// The accessory has no bulk endpoint to read from.
    NoBulkIn,
    /// The accessory has no bulk endpoint to write to.
    NoBulkOut,
}

impl AoaError {
    /// The kind of input/output error that this amounts to.
    pub open spec fn kind_of(self) -> IoError {
        match self {
            AoaError::ShortReply => IoError::InvalidData,
            AoaError::Unsupported => IoError::Unsupported,
            AoaError::NotReacquired => IoError::TimedOut,
            AoaError::NoDevice | AoaError::NoBulkIn | AoaError::NoBulkOut => IoError::NotFound,
        }
    }

    /// The kind of input/output error that this amounts to.
    pub fn kind(&self) -> (r: IoError)
        ensures
            r == self.kind_of(),
    {
        match self {
            AoaError::ShortReply => IoError::InvalidData,
            AoaError::Unsupported => IoError::Unsupported,
            AoaError::NotReacquired => IoError::TimedOut,
            AoaError::NoDevice | AoaError::NoBulkIn | AoaError::NoBulkOut => IoError::NotFound,
        }
    }
}

/// The answer to the question for the protocol version: a number of two bytes, the low one first,
/// of at least one.
pub open spec fn protocol_of(reply: Seq<u8>) -> Result<u16, AoaError> {
    if reply.len() < 2 {
        Err(AoaError::ShortReply)
    } else if reply[0] + reply[1] * 256 < 1 {
        Err(AoaError::Unsupported)
    } else {
        Ok((reply[0] + reply[1] * 256) as u16)
    }
}

/// Read the answer to the question for the protocol version.
pub fn check_protocol(reply: &[u8]) -> (r: Result<u16, AoaError>)
    ensures
        r == protocol_of(reply@),
{
    if reply.len() < 2 {
        return Err(AoaError::ShortReply);
    }
    let version: u16 = reply[0] as u16 + reply[1] as u16 * 256;
    if version < 1 {
        return Err(AoaError::Unsupported);
    }
    Ok(version)
}

/// A control request to send.
#[derive(Clone, Debug, PartialEq, Eq)]
pub struct ControlRequest {
    pub request: u8,
    pub index: u16,
    pub data: Vec<u8>,
}

/// A control request by its values.
pub struct ControlRequestView {
    pub request: u8,
    pub index: u16,
    pub data: Seq<u8>,
}

impl View for ControlRequest {
    type V = ControlRequestView;

    open spec fn view(&self) -> ControlRequestView {
        ControlRequestView { request: self.request, index: self.index, data: self.data@ }
    }
}

/// The request at a place of the handshake: the six identity strings, without a byte behind their
/// text, and then the start.
pub open spec fn handshake_request(at: int) -> ControlRequestView {
    match identity_of(at) {
        Some(text) => ControlRequestView {
            request: AOA_SEND_STRING,
            index: at as u16,
            data: text.spec_bytes(),
        },
        None => ControlRequestView { request: AOA_START, index: 0, data: Seq::empty() },
    }
}

/// The requests that turn a phone into an accessory, once it has answered that it knows the
/// protocol.
pub fn handshake_requests() -> (r: Vec<ControlRequest>)
    ensures
        r@.len() == 7,
        forall|i: int| 0 <= i < 7 ==> (#[trigger] r@[i])@ == handshake_request(i),
{
    let mut requests: Vec<ControlRequest> = Vec::new();
    let mut id: u16 = 0;
    while id < 6
        invariant
            id <= 6,
            requests@.len() == id,
            forall|i: int| 0 <= i < id ==> (#[trigger] requests@[i])@ == handshake_request(i),
        decreases 6 - id,
    {
        if let Some(text) = identity(id) {
            let data: Vec<u8> = vstd::slice::slice_to_vec(text.as_bytes());
            requests.push(ControlRequest { request: AOA_SEND_STRING, index: id, data });
        }
        id += 1;
    }
    requests.push(ControlRequest { request: AOA_START, index: 0, data: Vec::new() });
    requests
}

/// The vendor and the product of a device on the bus.
#[derive(Clone, Copy, Debug, PartialEq, Eq, Structural)]
pub struct UsbId {
    pub vendor: u16,
    pub product: u16,
}

/// Whether a device is an accessory.
pub open spec fn accessory(id: UsbId) -> bool {
    id.vendor == AOA_VID && AOA_PID_LO <= id.product <= AOA_PID_HI
}

/// Whether `at` is the first device of a list for which `wanted` holds.
pub open spec fn first_device(
    devices: Seq<UsbId>,
    wanted: spec_fn(UsbId) -> bool,
    at: Option<usize>,
) -> bool {
    match at {
        Some(at) => {
            &&& at < devices.len()
            &&& wanted(devices[at as int])
            &&& forall|i: int| 0 <= i < at ==> !wanted(#[trigger] devices[i])
        },
        None => forall|i: int| 0 <= i < devices.len() ==> !wanted(#[trigger] devices[i]),
    }
}

/// Find the accessory among the devices on the bus.
pub fn find_accessory(devices: &Vec<UsbId>) -> (r: Option<usize>)
    ensures
        first_device(devices@, |id: UsbId| accessory(id), r),
{
    let mut i: usize = 0;
    while i < devices.len()
        invariant
            i <= devices@.len(),
            forall|j: int| 0 <= j < i ==> !accessory(#[trigger] devices@[j]),
        decreases devices.len() - i,
    {
        let id: UsbId = devices[i];
        if id.vendor == AOA_VID && AOA_PID_LO <= id.product && id.product <= AOA_PID_HI {
            return Some(i);
        }
        i += 1;
    }
    None
}

/// Find the device to talk to: one that is an accessory already, or else a phone, and never any
/// other.
pub fn find_candidate(devices: &Vec<UsbId>) -> (r: Result<usize, AoaError>)
    ensures
        match r {
            Ok(at) => {
                ||| first_device(devices@, |id: UsbId| accessory(id), Some(at))
                ||| {
                    &&& first_device(devices@, |id: UsbId| accessory(id), None)
                    &&& first_device(devices@, |id: UsbId| id.vendor == AOA_VID, Some(at))
                }
            },
            Err(e) => {
                &&& e == AoaError::NoDevice
                &&& first_device(devices@, |id: UsbId| id.vendor == AOA_VID, None)
            },
        },
{
    if let Some(at) = find_accessory(devices) {
        return Ok(at);
    }
    let mut i: usize = 0;
    while i < devices.len()
        invariant
            i <= devices@.len(),
            first_device(devices@, |id: UsbId| accessory(id), None),
            forall|j: int| 0 <= j < i ==> (#[trigger] devices@[j]).vendor != AOA_VID,
        decreases devices.len() - i,
    {
        if devices[i].vendor == AOA_VID {
            return Ok(i);
        }
        i += 1;
    }
    Err(AoaError::NoDevice)
}

/// The device that is chosen is a phone or an accessory, and an accessory wherever there is one.
pub proof fn law_candidate_is_ours(devices: Seq<UsbId>, at: usize)
    requires
        ({
            ||| first_device(devices, |id: UsbId| accessory(id), Some(at))
            ||| {
                &&& first_device(devices, |id: UsbId| accessory(id), None)
                &&& first_device(devices, |id: UsbId| id.vendor == AOA_VID, Some(at))
            }
        }),
    ensures
        at < devices.len(),
        devices[at as int].vendor == AOA_VID,
        (exists|i: int| 0 <= i < devices.len() && accessory(#[trigger] devices[i]))
            ==> accessory(devices[at as int]),
{
}

/// What to do while waiting for the phone to come back as an accessory.
#[derive(Clone, Copy, Debug, PartialEq, Eq, Structural)]
pub enum Reacquired {
    /// Open this device.
    Open(usize),
    /// Wait a tenth of a second and look again.
    Wait,
    /// Give up.
    TimedOut,
}

/// Look for the accessory, having waited `waited_ms` of at most `timeout_ms` milliseconds. The
/// devices are looked at before the time is.
pub fn reacquire(devices: &Vec<UsbId>, waited_ms: u64, timeout_ms: u64) -> (r: Reacquired)
    ensures
        match r {
            Reacquired::Open(at) => first_device(devices@, |id: UsbId| accessory(id), Some(at)),
            Reacquired::Wait => first_device(devices@, |id: UsbId| accessory(id), None)
                && waited_ms < timeout_ms,
            Reacquired::TimedOut => first_device(devices@, |id: UsbId| accessory(id), None)
                && waited_ms >= timeout_ms,
        },
{
    match find_accessory(devices) {
        Some(at) => Reacquired::Open(at),
        None => if waited_ms >= timeout_ms {
            Reacquired::TimedOut
        } else {
            Reacquired::Wait
        },
    }
}

/// An endpoint of an interface.
#[derive(Clone, Copy, Debug, PartialEq, Eq, Structural)]
pub struct EndpointInfo {
    /// Whether it moves bulk data.
    pub bulk: bool,
    /// Whether data comes in over it.
    pub inbound: bool,
    pub address: u8,
}

/// The address of the last bulk endpoint of a direction.
pub open spec fn last_bulk(endpoints: Seq<EndpointInfo>, inbound: bool) -> Option<u8>
    decreases endpoints.len(),
{
    if endpoints.len() == 0 {
        None
    } else if endpoints.last().bulk && endpoints.last().inbound == inbound {
        Some(endpoints.last().address)
    } else {
        last_bulk(endpoints.drop_last(), inbound)
    }
}

/// The endpoints to read from and to write to.
pub open spec fn endpoints_of(endpoints: Seq<EndpointInfo>) -> Result<(u8, u8), AoaError> {
    match (last_bulk(endpoints, true), last_bulk(endpoints, false)) {
        (None, _) => Err(AoaError::NoBulkIn),
        (Some(_), None) => Err(AoaError::NoBulkOut),
        (Some(from), Some(to)) => Ok((from, to)),
    }
}

/// Choose the endpoints to read from and to write to.
pub fn choose_endpoints(endpoints: &Vec<EndpointInfo>) -> (r: Result<(u8, u8), AoaError>)
    ensures
        r == endpoints_of(endpoints@),
{
    let mut bulk_in: Option<u8> = None;
    let mut bulk_out: Option<u8> = None;
    let mut i: usize = 0;
    while i < endpoints.len()
        invariant
            i <= endpoints@.len(),
            bulk_in == last_bulk(endpoints@.take(i as int), true),
            bulk_out == last_bulk(endpoints@.take(i as int), false),
        decreases endpoints.len() - i,
    {
        let endpoint: EndpointInfo = endpoints[i];
        if endpoint.bulk {
            if endpoint.inbound {
                bulk_in = Some(endpoint.address);
            } else {
                bulk_out = Some(endpoint.address);
            }
        }
        proof {
            assert(endpoints@.take(i + 1).drop_last() =~= endpoints@.take(i as int));
            assert(endpoints@.take(i + 1).last() == endpoint);
        }
        i += 1;
    }
    proof {
        assert(endpoints@.take(i as int) =~= endpoints@);
    }
    let from: u8 = match bulk_in {
        Some(address) => address,
        None => {
            return Err(AoaError::NoBulkIn);
        },
    };
    let to: u8 = match bulk_out {
        Some(address) => address,
        None => {
            return Err(AoaError::NoBulkOut);
        },
    };
    Ok((from, to))
}

/// The protocol version is the number whose low byte comes first and whose high byte comes second.
/// It takes two bytes to read it, and zero stands for a device that does not know the protocol.
pub proof fn law_version_is_little_endian(reply: Seq<u8>)
    ensures
        reply.len() < 2 <==> protocol_of(reply) == Err::<u16, AoaError>(AoaError::ShortReply),
        reply.len() >= 2 && reply[0] == 0 && reply[1] == 0 <==> protocol_of(reply) == Err::<
            u16,
            AoaError,
        >(AoaError::Unsupported),
        protocol_of(reply) matches Ok(version) ==> version % 256 == reply[0] && version / 256
            == reply[1] && version > 0,
{
}

/// The handshake tells the phone six things by their numbers, each as the bytes of its text, and
/// only then asks it to start.
pub proof fn law_handshake_names_then_starts(at: int)
    ensures
        0 <= at < 6 ==> {
            &&& handshake_request(at).request == 52
            &&& handshake_request(at).index == at
            &&& identity_of(at) is Some
            &&& handshake_request(at).data == identity_of(at)->0.spec_bytes()
        },
        at == 6 ==> {
            &&& handshake_request(at).request == 53
            &&& handshake_request(at).index == 0
            &&& handshake_request(at).data.len() == 0
        },
        identity_of(0) == Some("RustScreen"),
        identity_of(1) == Some("RustScreen Host"),
        identity_of(2) == Some("USB second-monitor link"),
        identity_of(3) == Some("1.0"),
{
}

/// Accessories are the devices of one vendor with one of six products in a row.
pub proof fn law_accessories(id: UsbId)
    ensures
        accessory(id) <==> id.vendor == 0x18D1 && id.product >= 0x2D00 && id.product < 0x2D00 + 6,
{
}

/// The endpoint of a direction is the last of the bulk endpoints of that direction, and is missing
/// only where there is none.
pub proof fn law_last_bulk_endpoint(endpoints: Seq<EndpointInfo>, inbound: bool)
    ensures
        match last_bulk(endpoints, inbound) {
            Some(address) => exists|i: int|
                {
                    &&& 0 <= i < endpoints.len()
                    &&& (#[trigger] endpoints[i]).bulk
                    &&& endpoints[i].inbound == inbound
                    &&& endpoints[i].address == address
                    &&& forall|j: int|
                        i < j < endpoints.len() ==> !(#[trigger] endpoints[j]).bulk
                            || endpoints[j].inbound != inbound
                },
            None => forall|j: int|
                0 <= j < endpoints.len() ==> !(#[trigger] endpoints[j]).bulk
                    || endpoints[j].inbound != inbound,
        },
    decreases endpoints.len(),
{
    if endpoints.len() > 0 {
        let front = endpoints.drop_last();
        let n = endpoints.len() - 1;
        assert(endpoints[n] == endpoints.last());
        law_last_bulk_endpoint(front, inbound);
        if !(endpoints[n].bulk && endpoints[n].inbound == inbound) {
            match last_bulk(front, inbound) {
                Some(address) => {
                    let i = choose|i: int|
                        {
                            &&& 0 <= i < front.len()
                            &&& (#[trigger] front[i]).bulk
                            &&& front[i].inbound == inbound
                            &&& front[i].address == address
                            &&& forall|j: int|
                                i < j < front.len() ==> !(#[trigger] front[j]).bulk
                                    || front[j].inbound != inbound
                        };
                    assert(endpoints[i] == front[i]);
                    assert forall|j: int| i < j < endpoints.len() implies !(
                    #[trigger] endpoints[j]).bulk || endpoints[j].inbound != inbound by {
                        if j < n {
                            assert(front[j] == endpoints[j]);
                        }
                    }
                },
                None => {
                    assert forall|j: int| 0 <= j < endpoints.len() implies !(
                    #[trigger] endpoints[j]).bulk || endpoints[j].inbound != inbound by {
                        if j < n {
                            assert(front[j] == endpoints[j]);
                        }
                    }
                },
            }
        }
    }
}

/// The host reads from a bulk endpoint over which data comes in and writes to one over which it goes
/// out. It needs both: without the first it is that one which is missed.
pub proof fn law_endpoints_have_their_direction(endpoints: Seq<EndpointInfo>)
    ensures
        match endpoints_of(endpoints) {
            Ok((from, to)) => {
                &&& exists|i: int|
                    0 <= i < endpoints.len() && #[trigger] endpoints[i] == (EndpointInfo {
                        bulk: true,
                        inbound: true,
                        address: from,
                    })
                &&& exists|i: int|
                    0 <= i < endpoints.len() && #[trigger] endpoints[i] == (EndpointInfo {
                        bulk: true,
                        inbound: false,
                        address: to,
                    })
            },
            Err(AoaError::NoBulkIn) => forall|j: int|
                0 <= j < endpoints.len() ==> !(#[trigger] endpoints[j]).bulk
                    || !endpoints[j].inbound,
            Err(e) => {
                &&& e == AoaError::NoBulkOut
                &&& forall|j: int|
                    0 <= j < endpoints.len() ==> !(#[trigger] endpoints[j]).bulk
                        || endpoints[j].inbound
            },
        },
{
    law_last_bulk_endpoint(endpoints, true);
    law_last_bulk_endpoint(endpoints, false);
    if let Ok((from, to)) = endpoints_of(endpoints) {
        let i = choose|i: int|
            0 <= i < endpoints.len() && (#[trigger] endpoints[i]).bulk && endpoints[i].inbound
                && endpoints[i].address == from;
        let j = choose|j: int|
            0 <= j < endpoints.len() && (#[trigger] endpoints[j]).bulk && !endpoints[j].inbound
                && endpoints[j].address == to;
        assert(endpoints[i] == (EndpointInfo { bulk: true, inbound: true, address: from }));
        assert(endpoints[j] == (EndpointInfo { bulk: true, inbound: false, address: to }));
    }
}

/// What is missing was not found, what is not answered in full is wrong data, what the phone cannot
/// do is unsupported, and a phone that does not come back is out of time.
pub proof fn law_kinds_of_refusals(e: AoaError)
    ensures
        e.kind_of() == IoError::NotFound <==> e == AoaError::NoDevice || e == AoaError::NoBulkIn || e
            == AoaError::NoBulkOut,
        e.kind_of() == IoError::InvalidData <==> e == AoaError::ShortReply,
        e.kind_of() == IoError::Unsupported <==> e == AoaError::Unsupported,
        e.kind_of() == IoError::TimedOut <==> e == AoaError::NotReacquired,
{
}

} // verus!
