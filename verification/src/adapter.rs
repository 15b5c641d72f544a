//! The portable side of the ESP-IDF BLE adapter: a collector over any
//! scanner driver, and the classification of BLE addresses.

use vstd::prelude::*;

use crate::ble::model::{AddressType, Advertisement, Collector, ManufacturerData, ServiceData};

verus! {

/// Testable boundary over an ESP-IDF BLE scanner.
pub trait BleDriver {
    type Error;

    /// What the latest scan appended to the list it was handed. The
    /// implementations in this library define it; the default (nothing)
    /// stands for an implementation that does not describe its scans, whose
    /// contract is taken on trust.
    closed spec fn scanned(&self) -> Seq<Advertisement> {
        Seq::empty()
    }

    /// Whether the latest scan succeeded (defined alongside `scanned`).
    closed spec fn scan_succeeded(&self) -> bool {
        true
    }

    /// Appends the advertisements of one scan to `output`, keeping what it
    /// held before.
    fn scan(&mut self, output: &mut Vec<Advertisement>) -> (r: Result<(), Self::Error>)
        ensures
            final(output)@ == old(output)@ + final(self).scanned(),
            r is Ok <==> final(self).scan_succeeded(),
    ;
}

/// A BLE collector owning a scanner driver.
pub struct EspIdfBleCollector<D> {
    driver: D,
}

impl<D> EspIdfBleCollector<D> {
    /// The driver that the collector owns.
    pub closed spec fn driver(&self) -> D {
        self.driver
    }

    pub fn new(driver: D) -> (c: Self)
        ensures
            c.driver() == driver,
    {
        EspIdfBleCollector { driver }
    }

    pub fn driver_mut(&mut self) -> (d: &mut D)
        ensures
            *d == old(self).driver(),
            final(self).driver() == *final(d),
    {
        &mut self.driver
    }

    pub fn into_inner(self) -> (d: D)
        ensures
            d == self.driver(),
    {
        self.driver
    }
}

impl<D: BleDriver> Collector for EspIdfBleCollector<D> {
    type Error = D::Error;

    /// What the driver's latest scan appended.
    open spec fn scanned(&self) -> Seq<Advertisement> {
        self.driver().scanned()
    }

    /// Whether the driver's latest scan succeeded.
    open spec fn scan_succeeded(&self) -> bool {
        self.driver().scan_succeeded()
    }

    /// Scans with the driver.
    fn scan(&mut self, output: &mut Vec<Advertisement>) -> Result<(), Self::Error> {
        self.driver.scan(output)
    }
}

/// How a scanner labels the address of an advertiser.
#[derive(Debug, Clone, Copy, PartialEq, Eq, Structural)]
pub enum BleAddressKind {
    Public,
    PublicId,
    Random,
    RandomId,
}

/// The kind of a BLE address: public ones as reported; random ones by the two
/// most significant bits of the address (0b11 static, 0b01 resolvable
/// private, 0b00 non-resolvable private, otherwise unknown).
pub open spec fn address_type_spec(kind: BleAddressKind, most_significant_byte: u8) -> AddressType {
    match kind {
        BleAddressKind::Public | BleAddressKind::PublicId => AddressType::Public,
        _ => {
            let top = most_significant_byte / 64;
            if top == 3 {
                AddressType::RandomStatic
            } else if top == 1 {
                AddressType::ResolvablePrivate
            } else if top == 0 {
                AddressType::NonResolvablePrivate
            } else {
                AddressType::Unknown
            }
        },
    }
}

/// Classifies a BLE address from its label and its most significant byte.
pub fn address_type(kind: BleAddressKind, most_significant_byte: u8) -> (t: AddressType)
    ensures
        t == address_type_spec(kind, most_significant_byte),
{
    match kind {
        BleAddressKind::Public | BleAddressKind::PublicId => AddressType::Public,
        BleAddressKind::Random | BleAddressKind::RandomId => {
            let top = most_significant_byte >> 6;
            assert(top == most_significant_byte / 64) by (bit_vector)
                requires
                    top == most_significant_byte >> 6,
            ;
            match top {
                3 => AddressType::RandomStatic,
                1 => AddressType::ResolvablePrivate,
                0 => AddressType::NonResolvablePrivate,
                _ => AddressType::Unknown,
            }
        },
    }
}

/// How an advertisement was sent, as the scanner labels it.
#[derive(Debug, Clone, Copy, PartialEq, Eq, Structural)]
pub enum BleAdvertisingKind {
    Ind,
    DirectInd,
    ScanInd,
    NonconnInd,
    ScanResponse,
    Extended,
}

/// Only undirected and directed connectable advertising accepts connections.
pub open spec fn connectable_spec(kind: BleAdvertisingKind) -> bool {
    kind == BleAdvertisingKind::Ind || kind == BleAdvertisingKind::DirectInd
}

/// A transmit power byte read as a two's-complement dBm value.
pub open spec fn tx_power_spec(raw: u8) -> int {
    if raw < 128 {
        raw as int
    } else {
        raw - 256
    }
}

/// One entry of a list that holds at most the given item.
pub open spec fn at_most_one<T>(item: Option<T>) -> Seq<T> {
    match item {
        Some(x) => seq![x],
        None => seq![],
    }
}

fn one_or_none<T>(item: Option<T>) -> (v: Vec<T>)
    ensures
        v@ == at_most_one(item),
{
    let mut v = Vec::new();
    if let Some(x) = item {
        v.push(x);
    }
    v
}

/// Builds the portable advertisement from what a scanner reported: the
/// address and its label and first byte, the name, the signal, the raw
/// transmit power byte, the advertising kind, the service UUIDs and at most
/// one manufacturer and one service-data record.
pub fn advertisement_from_scan(
    address: String,
    address_kind: BleAddressKind,
    most_significant_byte: u8,
    local_name: Option<String>,
    rssi_dbm: i8,
    tx_power: Option<u8>,
    advertising: BleAdvertisingKind,
    service_uuids: Vec<String>,
    manufacturer: Option<ManufacturerData>,
    service: Option<ServiceData>,
) -> (a: Advertisement)
    ensures
        a.address == address,
        a.address_type == address_type_spec(address_kind, most_significant_byte),
        a.local_name == local_name,
        a.rssi_dbm == rssi_dbm,
        a.tx_power_dbm.is_some() == tx_power.is_some(),
        tx_power matches Some(raw) ==> a.tx_power_dbm.unwrap() == tx_power_spec(raw),
        a.connectable == Some(connectable_spec(advertising)),
        a.service_uuids@ == service_uuids@,
        a.manufacturer_data@ == at_most_one(manufacturer),
        a.service_data@ == at_most_one(service),
        a.protocol_identity.is_none(),
{
    let tx_power_dbm = match tx_power {
        Some(raw) => {
            let signed = raw as i8;
            assert(signed as int == tx_power_spec(raw)) by (bit_vector)
                requires
                    signed == raw as i8,
            ;
            Some(signed as i16)
        },
        None => None,
    };
    let connectable = match advertising {
        BleAdvertisingKind::Ind | BleAdvertisingKind::DirectInd => true,
        _ => false,
    };
    Advertisement {
        address,
        address_type: address_type(address_kind, most_significant_byte),
        local_name,
        rssi_dbm: rssi_dbm as i16,
        tx_power_dbm,
        connectable: Some(connectable),
        service_uuids,
        manufacturer_data: one_or_none(manufacturer),
        service_data: one_or_none(service),
        protocol_identity: None,
    }
}

} // verus!
