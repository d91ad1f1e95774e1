//! Open Glider Network device identifiers: the eight hexadecimal digits of an `id`
//! comment, which pack the device's flags, aircraft type and address.
//! http://wiki.glidernet.org/wiki:ogn-flavoured-aprs
pub mod ddb;

use crate::text::{parse_int, parse_int_spec};
use vstd::prelude::*;
use vstd::string::StringSliceAdditionalSpecFns;

verus! {

pub const OGN_APRS_URL: &'static str = "aprs.glidernet.org:14580";

#[derive(Copy, Clone, Debug, Eq, PartialEq, Structural)]
pub enum AircraftType {
    Reserved,
    Glider,
    TowPlane,
    Helicopter,
    Skydiver,
    DropPlane,
    HandGlider,
    Paraglider,
    Aircraft,
    JetAircraft,
    Unknown,
    Balloon,
    Airship,
    Unmaned,
    Reserved2,
    StaticObstacle,
}

/// The aircraft type of each code; codes past 15 are `Unknown`.
pub open spec fn aircraft_type_of(i: u8) -> AircraftType {
    if i == 0 {
        AircraftType::Reserved
    } else if i == 1 {
        AircraftType::Glider
    } else if i == 2 {
        AircraftType::TowPlane
    } else if i == 3 {
        AircraftType::Helicopter
    } else if i == 4 {
        AircraftType::Skydiver
    } else if i == 5 {
        AircraftType::DropPlane
    } else if i == 6 {
        AircraftType::HandGlider
    } else if i == 7 {
        AircraftType::Paraglider
    } else if i == 8 {
        AircraftType::Aircraft
    } else if i == 9 {
        AircraftType::JetAircraft
    } else if i == 0xA {
        AircraftType::Unknown
    } else if i == 0xB {
        AircraftType::Balloon
    } else if i == 0xC {
        AircraftType::Airship
    } else if i == 0xD {
        AircraftType::Unmaned
    } else if i == 0xE {
        AircraftType::Reserved2
    } else if i == 0xF {
        AircraftType::StaticObstacle
    } else {
        AircraftType::Unknown
    }
}

/// The code of each aircraft type.
pub open spec fn aircraft_type_code(t: AircraftType) -> u8 {
    match t {
        AircraftType::Reserved => 0,
        AircraftType::Glider => 1,
        AircraftType::TowPlane => 2,
        AircraftType::Helicopter => 3,
        AircraftType::Skydiver => 4,
        AircraftType::DropPlane => 5,
        AircraftType::HandGlider => 6,
        AircraftType::Paraglider => 7,
        AircraftType::Aircraft => 8,
        AircraftType::JetAircraft => 9,
        AircraftType::Unknown => 0xA,
        AircraftType::Balloon => 0xB,
        AircraftType::Airship => 0xC,
        AircraftType::Unmaned => 0xD,
        AircraftType::Reserved2 => 0xE,
        AircraftType::StaticObstacle => 0xF,
    }
}

impl AircraftType {
    pub fn from_u8(i: u8) -> (r: AircraftType)
        ensures
            r == aircraft_type_of(i),
    {
        if i == 0 {
            AircraftType::Reserved
        } else if i == 1 {
            AircraftType::Glider
        } else if i == 2 {
            AircraftType::TowPlane
        } else if i == 3 {
            AircraftType::Helicopter
        } else if i == 4 {
            AircraftType::Skydiver
        } else if i == 5 {
            AircraftType::DropPlane
        } else if i == 6 {
            AircraftType::HandGlider
        } else if i == 7 {
            AircraftType::Paraglider
        } else if i == 8 {
            AircraftType::Aircraft
        } else if i == 9 {
            AircraftType::JetAircraft
        } else if i == 0xA {
            AircraftType::Unknown
        } else if i == 0xB {
            AircraftType::Balloon
        } else if i == 0xC {
            AircraftType::Airship
        } else if i == 0xD {
            AircraftType::Unmaned
        } else if i == 0xE {
            AircraftType::Reserved2
        } else if i == 0xF {
            AircraftType::StaticObstacle
        } else {
            AircraftType::Unknown
        }
    }

    pub fn to_u8(self) -> (r: u8)
        ensures
            r == aircraft_type_code(self),
    {
        match self {
            AircraftType::Reserved => 0,
            AircraftType::Glider => 1,
            AircraftType::TowPlane => 2,
            AircraftType::Helicopter => 3,
            AircraftType::Skydiver => 4,
            AircraftType::DropPlane => 5,
            AircraftType::HandGlider => 6,
            AircraftType::Paraglider => 7,
            AircraftType::Aircraft => 8,
            AircraftType::JetAircraft => 9,
            AircraftType::Unknown => 0xA,
            AircraftType::Balloon => 0xB,
            AircraftType::Airship => 0xC,
            AircraftType::Unmaned => 0xD,
            AircraftType::Reserved2 => 0xE,
            AircraftType::StaticObstacle => 0xF,
        }
    }
}

impl From<u8> for AircraftType {
    fn from(i: u8) -> (r: Self) {
        AircraftType::from_u8(i)
    }
}

impl vstd::std_specs::convert::FromSpecImpl<u8> for AircraftType {
    open spec fn obeys_from_spec() -> bool {
        true
    }

    open spec fn from_spec(i: u8) -> Self {
        aircraft_type_of(i)
    }
}

impl From<AircraftType> for u8 {
    fn from(t: AircraftType) -> (r: u8) {
        t.to_u8()
    }
}

impl vstd::std_specs::convert::FromSpecImpl<AircraftType> for u8 {
    open spec fn obeys_from_spec() -> bool {
        true
    }

    open spec fn from_spec(t: AircraftType) -> u8 {
        aircraft_type_code(t)
    }
}

/// Every aircraft type comes back from its code, and every code below 16 from its type.
pub proof fn aircraft_type_code_roundtrip(t: AircraftType, i: u8)
    ensures
        aircraft_type_of(aircraft_type_code(t)) == t,
        i < 16 ==> aircraft_type_code(aircraft_type_of(i)) == i,
        i >= 16 ==> aircraft_type_of(i) == AircraftType::Unknown,
{
}

/// The OGN aircraft type codes: 0 reserved, 1 glider, 2 tow plane, 3 helicopter, 4 skydiver,
/// 5 drop plane, 6 hang glider, 7 paraglider, 8 aircraft, 9 jet aircraft, 10 unknown,
/// 11 balloon, 12 airship, 13 unmanned, 14 reserved, 15 static obstacle; each type is written
/// with its code, and a code past 15 reads as unknown.
pub proof fn aircraft_type_table(i: u8)
    ensures
        i == 0 <==> aircraft_type_of(i) == AircraftType::Reserved,
        i == 1 <==> aircraft_type_of(i) == AircraftType::Glider,
        i == 2 <==> aircraft_type_of(i) == AircraftType::TowPlane,
        i == 3 <==> aircraft_type_of(i) == AircraftType::Helicopter,
        i == 4 <==> aircraft_type_of(i) == AircraftType::Skydiver,
        i == 5 <==> aircraft_type_of(i) == AircraftType::DropPlane,
        i == 6 <==> aircraft_type_of(i) == AircraftType::HandGlider,
        i == 7 <==> aircraft_type_of(i) == AircraftType::Paraglider,
        i == 8 <==> aircraft_type_of(i) == AircraftType::Aircraft,
        i == 9 <==> aircraft_type_of(i) == AircraftType::JetAircraft,
        (i == 10 || i >= 16) <==> aircraft_type_of(i) == AircraftType::Unknown,
        i == 11 <==> aircraft_type_of(i) == AircraftType::Balloon,
        i == 12 <==> aircraft_type_of(i) == AircraftType::Airship,
        i == 13 <==> aircraft_type_of(i) == AircraftType::Unmaned,
        i == 14 <==> aircraft_type_of(i) == AircraftType::Reserved2,
        i == 15 <==> aircraft_type_of(i) == AircraftType::StaticObstacle,
        i < 16 ==> aircraft_type_code(aircraft_type_of(i)) == i,
{
}

#[derive(Copy, Clone, Debug, Eq, PartialEq, Structural)]
pub enum AddressType {
    Unknown,
    ICAO,
    Flarm,
    OgnTracker,
}

pub open spec fn address_type_of(i: u8) -> AddressType {
    if i == 1 {
        AddressType::ICAO
    } else if i == 2 {
        AddressType::Flarm
    } else if i == 3 {
        AddressType::OgnTracker
    } else {
        AddressType::Unknown
    }
}

pub open spec fn address_type_code(t: AddressType) -> u8 {
    match t {
        AddressType::Unknown => 0,
        AddressType::ICAO => 1,
        AddressType::Flarm => 2,
        AddressType::OgnTracker => 3,
    }
}

impl AddressType {
    pub fn from_u8(i: u8) -> (r: AddressType)
        ensures
            r == address_type_of(i),
    {
        if i == 1 {
            AddressType::ICAO
        } else if i == 2 {
            AddressType::Flarm
        } else if i == 3 {
            AddressType::OgnTracker
        } else {
            AddressType::Unknown
        }
    }

    pub fn to_u8(self) -> (r: u8)
        ensures
            r == address_type_code(self),
    {
        match self {
            AddressType::Unknown => 0,
            AddressType::ICAO => 1,
            AddressType::Flarm => 2,
            AddressType::OgnTracker => 3,
        }
    }
}

impl From<u8> for AddressType {
    fn from(i: u8) -> (r: Self) {
        AddressType::from_u8(i)
    }
}

impl vstd::std_specs::convert::FromSpecImpl<u8> for AddressType {
    open spec fn obeys_from_spec() -> bool {
        true
    }

    open spec fn from_spec(i: u8) -> Self {
        address_type_of(i)
    }
}

impl From<AddressType> for u8 {
    fn from(t: AddressType) -> (r: u8) {
        t.to_u8()
    }
}

impl vstd::std_specs::convert::FromSpecImpl<AddressType> for u8 {
    open spec fn obeys_from_spec() -> bool {
        true
    }

    open spec fn from_spec(t: AddressType) -> u8 {
        address_type_code(t)
    }
}

/// Every address type comes back from its code, and every code below 4 from its type.
pub proof fn address_type_code_roundtrip(t: AddressType, i: u8)
    ensures
        address_type_of(address_type_code(t)) == t,
        i < 4 ==> address_type_code(address_type_of(i)) == i,
{
}

/// The OGN address type codes: 1 ICAO, 2 FLARM, 3 OGN tracker; any other code is unknown,
/// which is written as 0.
pub proof fn address_type_table(i: u8)
    ensures
        i == 1 <==> address_type_of(i) == AddressType::ICAO,
        i == 2 <==> address_type_of(i) == AddressType::Flarm,
        i == 3 <==> address_type_of(i) == AddressType::OgnTracker,
        (i == 0 || i > 3) <==> address_type_of(i) == AddressType::Unknown,
        address_type_code(AddressType::Unknown) == 0,
        i < 4 ==> address_type_code(address_type_of(i)) == i,
{
}

/// OGN-format beacon.
/// http://wiki.glidernet.org/wiki:ogn-flavoured-aprs
#[derive(Clone, Debug, Eq, PartialEq, Structural)]
pub struct Beacon {
    pub stealth: bool,
    pub no_tracking: bool,
    pub aircraft_type: AircraftType,
    pub address_type: AddressType,
    pub address: u32,
}

/// The text is no 32-bit hexadecimal number.
#[derive(Clone, Copy, Debug, Eq, PartialEq, Structural)]
pub struct ParseBeaconError;

/// The beacon that a 32-bit identifier packs: the top byte holds the stealth flag (bit 7),
/// the no-tracking flag (bit 6), the aircraft type (bits 2 to 5) and the address type
/// (bits 0 and 1); the lower three bytes hold the address.
pub open spec fn beacon_of(n: u32) -> Beacon {
    let info = n / 0x100_0000;
    Beacon {
        stealth: info / 128 % 2 == 1,
        no_tracking: info / 64 % 2 == 1,
        aircraft_type: aircraft_type_of((info / 4 % 16) as u8),
        address_type: address_type_of((info % 4) as u8),
        address: (n % 0x100_0000) as u32,
    }
}

/// The 32-bit identifier of a beacon.
pub open spec fn beacon_number(b: Beacon) -> int {
    ((if b.stealth { 128int } else { 0 }) + (if b.no_tracking { 64int } else { 0 })
        + aircraft_type_code(b.aircraft_type) * 4 + address_type_code(b.address_type))
        * 0x100_0000 + b.address
}

/// A beacon holds every bit of the identifier it was read from.
pub proof fn beacon_roundtrip(n: u32)
    ensures
        beacon_number(beacon_of(n)) == n,
{
    let info = n / 0x100_0000;
    assert(info < 256);
    assert(info == (info / 128 % 2) * 128 + (info / 64 % 2) * 64 + (info / 4 % 16) * 4 + info % 4);
    assert(n == info * 0x100_0000 + n % 0x100_0000);
}

/// The bits of an identifier: bit 31 is the stealth flag, bit 30 the no-tracking flag, bits
/// 26 to 29 the aircraft type code, bits 24 and 25 the address type code, and the low 24
/// bits the address.
pub proof fn beacon_bits(n: u32)
    ensures
        beacon_of(n).stealth <==> n & 0x8000_0000 != 0,
        beacon_of(n).no_tracking <==> n & 0x4000_0000 != 0,
        beacon_of(n).aircraft_type == aircraft_type_of(((n >> 26) & 0xF) as u8),
        beacon_of(n).address_type == address_type_of(((n >> 24) & 0x3) as u8),
        beacon_of(n).address == n & 0xFF_FFFF,
{
    assert((n / 0x100_0000 / 128 % 2 == 1) == (n & 0x8000_0000 != 0)) by (bit_vector);
    assert((n / 0x100_0000 / 64 % 2 == 1) == (n & 0x4000_0000 != 0)) by (bit_vector);
    assert(n / 0x100_0000 / 4 % 16 == (n >> 26) & 0xF) by (bit_vector);
    assert(n / 0x100_0000 % 4 == (n >> 24) & 0x3) by (bit_vector);
    assert(n % 0x100_0000 == n & 0xFF_FFFF) by (bit_vector);
}

impl Beacon {
    fn get_address(beacon: u32) -> (r: u32)
        ensures
            r == beacon % 0x100_0000,
    {
        beacon % 0x100_0000
    }

    /// Reads a beacon from its identifier written in hexadecimal (as `u32::from_str_radix`
    /// reads it).
    pub fn from_hex(s: &str) -> (r: Result<Beacon, ParseBeaconError>)
        ensures
            match parse_int_spec(s.spec_bytes(), 16, false, 0, u32::MAX as int) {
                Some(n) => r == Ok::<Beacon, ParseBeaconError>(beacon_of(n as u32)),
                None => r is Err,
            },
    {
        let b = s.as_bytes();
        assert(b@.subrange(0, b@.len() as int) =~= b@);
        let number = match parse_int(b, 0, b.len(), 16, false, 0, u32::MAX as i64) {
            Some(n) => n as u32,
            None => return Err(ParseBeaconError),
        };
        let info = number / 0x100_0000;
        let stealth = info / 128 % 2 == 1;
        let no_tracking = info / 64 % 2 == 1;
        let aircraft_type = AircraftType::from_u8((info / 4 % 16) as u8);
        let address_type = AddressType::from_u8((info % 4) as u8);
        let address = Self::get_address(number);
        Ok(Beacon { stealth, no_tracking, aircraft_type, address_type, address })
    }
}

impl core::str::FromStr for Beacon {
    type Err = ParseBeaconError;

    fn from_str(s: &str) -> (r: Result<Self, Self::Err>)
        ensures
            match parse_int_spec(s.spec_bytes(), 16, false, 0, u32::MAX as int) {
                Some(n) => r == Ok::<Beacon, ParseBeaconError>(beacon_of(n as u32)),
                None => r is Err,
            },
    {
        Beacon::from_hex(s)
    }
}

} // verus!
