//! Telemetry events: a navigation record tagged with the device it came from.
use vstd::prelude::*;
use vstd::utf8::{decode_utf8, valid_utf8};
use crate::number::Decimal;
use crate::short_data_packet::ShortDataPacket;
use crate::text::string_from_utf8;
use crate::timestamp::Timestamp;

verus! {

/// What the sink receives for each navigation record.
#[derive(Debug)]
pub struct GeoPacket {
    pub imei: String,
    pub timestamp: Timestamp,
    pub lat: Decimal,
    pub lon: Decimal,
    pub speed: i16,
    pub course: i16,
    pub height: i16,
    pub sats: i16,
}

pub struct GeoView {
    pub imei: Seq<char>,
    pub nav: ShortDataPacket,
}

impl View for GeoPacket {
    type V = GeoView;

    open spec fn view(&self) -> GeoView {
        GeoView {
            imei: self.imei@,
            nav: ShortDataPacket {
                timestamp: self.timestamp,
                lat: self.lat,
                lon: self.lon,
                speed: self.speed,
                course: self.course,
                height: self.height,
                sats: self.sats,
            },
        }
    }
}

/// The event for the navigation record `data` of the device whose
/// identifier is the UTF-8 text `client`.
pub open spec fn event_of(client: Seq<u8>, data: ShortDataPacket) -> GeoView {
    GeoView { imei: decode_utf8(client), nav: data }
}

impl GeoPacket {
    /// The event for `data` from the device `client`.
    pub fn new(client: Vec<u8>, data: &ShortDataPacket) -> (r: GeoPacket)
        requires
            valid_utf8(client@),
        ensures
            r@ == event_of(client@, *data),
    {
        let imei = match string_from_utf8(client) {
            Some(s) => s,
            None => String::new(),
        };
        GeoPacket {
            imei,
            timestamp: data.timestamp,
            lat: data.lat,
            lon: data.lon,
            speed: data.speed,
            course: data.course,
            height: data.height,
            sats: data.sats,
        }
    }
}

/// A sink that writes each event to standard output.
#[derive(Clone, Copy, Debug)]
pub struct ConsoleStore {}

impl ConsoleStore {
    pub fn new() -> (r: ConsoleStore)
        ensures
            r == (ConsoleStore {}),
    {
        ConsoleStore {}
    }
}

} // verus!
