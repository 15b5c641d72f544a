//! Protocol-aware identity fingerprints and payload hashes.

use vstd::prelude::*;
use vstd::relations::sorted_by;
use vstd::string::StringSliceAdditionalSpecFns;
use vstd::utf8::encode_utf8;

use crate::ble::model::{
    strs, AddressType, Advertisement, Identity, IdentityConfidence, IdentityView,
    ManufacturerData, ServiceData,
};
use crate::text::{
    chars_of, hex_fixed, lemma_str_leq_total, lemma_str_leq_transitive, lemma_str_order_total,
    push_hex_fixed, str_le, str_leq, str_order,
};

verus! {

/// FNV-1a 64-bit offset basis.
pub const FNV_OFFSET: u64 = 0xcbf29ce484222325;

/// FNV-1a 64-bit prime.
pub const FNV_PRIME: u64 = 0x100000001b3;

/// 64-bit FNV-1a hash of a byte sequence.
pub open spec fn fnv1a64_spec(bytes: Seq<u8>) -> u64
    decreases bytes.len(),
{
    if bytes.len() == 0 {
        FNV_OFFSET
    } else {
        (fnv1a64_spec(bytes.drop_last()) ^ (bytes.last() as u64)).wrapping_mul(FNV_PRIME)
    }
}

fn fnv1a64(bytes: &Vec<u8>) -> (h: u64)
    ensures
        h == fnv1a64_spec(bytes@),
{
    let mut hash: u64 = FNV_OFFSET;
    let mut i: usize = 0;
    assert(bytes@.take(0) =~= Seq::<u8>::empty());
    while i < bytes.len()
        invariant
            i <= bytes@.len(),
            hash == fnv1a64_spec(bytes@.take(i as int)),
        decreases bytes.len() - i,
    {
        assert(bytes@.take(i + 1).drop_last() =~= bytes@.take(i as int));
        hash = hash ^ (bytes[i] as u64);
        hash = hash.wrapping_mul(FNV_PRIME);
        i = i + 1;
    }
    assert(bytes@.take(i as int) =~= bytes@);
    hash
}

/// The `n` low bytes of `v`, least significant first.
pub open spec fn le_bytes(v: nat, n: nat) -> Seq<u8>
    decreases n,
{
    if n == 0 {
        seq![]
    } else {
        seq![(v % 256) as u8] + le_bytes(v / 256, (n - 1) as nat)
    }
}

/// A little-endian form has exactly the bytes asked for.
pub proof fn lemma_le_bytes_len(v: nat, n: nat)
    ensures
        le_bytes(v, n).len() == n,
    decreases n,
{
    if n > 0 {
        lemma_le_bytes_len(v / 256, (n - 1) as nat);
    }
}

fn push_le(out: &mut Vec<u8>, v: u64, n: usize)
    ensures
        final(out)@ == old(out)@ + le_bytes(v as nat, n as nat),
    decreases n,
{
    if n > 0 {
        out.push((v % 256) as u8);
        push_le(out, v / 256, n - 1);
        assert(final(out)@ =~= old(out)@ + le_bytes(v as nat, n as nat));
    }
}

fn push_bytes(out: &mut Vec<u8>, b: &[u8])
    ensures
        final(out)@ == old(out)@ + b@,
{
    let ghost start = out@;
    let mut i: usize = 0;
    while i < b.len()
        invariant
            i <= b@.len(),
            out@ == start + b@.take(i as int),
        decreases b.len() - i,
    {
        out.push(b[i]);
        i = i + 1;
        assert(out@ =~= start + b@.take(i as int));
    }
    assert(b@.take(i as int) =~= b@);
}

/// A text field: its byte length as eight little-endian bytes, then its bytes.
pub open spec fn text_bytes(b: Seq<u8>) -> Seq<u8> {
    le_bytes(b.len(), 8) + b
}

fn push_text(out: &mut Vec<u8>, b: &[u8])
    ensures
        final(out)@ == old(out)@ + text_bytes(b@),
{
    push_le(out, b.len() as u64, 8);
    push_bytes(out, b);
    assert(final(out)@ =~= old(out)@ + text_bytes(b@));
}

/// An ASCII hexadecimal digit.
pub open spec fn is_hex_char(c: char) -> bool {
    let u = c as u32;
    (48 <= u <= 57) || (65 <= u <= 70) || (97 <= u <= 102)
}

/// The lower-case ASCII code of a hexadecimal digit.
pub open spec fn lower_hex_byte(c: char) -> u8 {
    let u = c as u32;
    if 65 <= u <= 70 {
        (u + 32) as u8
    } else {
        u as u8
    }
}

/// A UUID reduced to its hexadecimal digits in lower case, as ASCII bytes.
pub open spec fn normalized_uuid(s: Seq<char>) -> Seq<u8>
    decreases s.len(),
{
    if s.len() == 0 {
        seq![]
    } else if is_hex_char(s.last()) {
        normalized_uuid(s.drop_last()).push(lower_hex_byte(s.last()))
    } else {
        normalized_uuid(s.drop_last())
    }
}

fn normalized_uuid_bytes(value: &str) -> (r: Vec<u8>)
    ensures
        r@ == normalized_uuid(value@),
{
    let cs = chars_of(value);
    let mut out: Vec<u8> = Vec::new();
    let mut i: usize = 0;
    assert(value@.take(0) =~= Seq::<char>::empty());
    while i < cs.len()
        invariant
            cs@ == value@,
            i <= cs@.len(),
            out@ == normalized_uuid(value@.take(i as int)),
        decreases cs.len() - i,
    {
        assert(value@.take(i + 1).drop_last() =~= value@.take(i as int));
        let u = cs[i] as u32;
        if 48 <= u && u <= 57 || 97 <= u && u <= 102 {
            out.push(u as u8);
        } else if 65 <= u && u <= 70 {
            out.push((u + 32) as u8);
        }
        i = i + 1;
    }
    assert(value@.take(i as int) =~= value@);
    out
}

/// A copy of strings sorted in lexicographic order.
fn sorted_strings(v: &Vec<String>) -> (r: Vec<String>)
    ensures
        strs(r@) == strs(v@).sort_by(str_order()),
{
    let mut out: Vec<String> = Vec::new();
    let n = v.len();
    let ghost src = strs(v@);
    proof {
        lemma_str_order_total();
        broadcast use vstd::seq_lib::group_to_multiset_ensures;
        broadcast use vstd::multiset::group_multiset_axioms;
        assert(src.take(0) =~= Seq::<Seq<char>>::empty());
        assert(strs(out@) =~= Seq::<Seq<char>>::empty());
    }
    let mut i: usize = 0;
    while i < n
        invariant
            n == v@.len(),
            src == strs(v@),
            i <= n,
            sorted_by(strs(out@), str_order()),
            strs(out@).to_multiset() == src.take(i as int).to_multiset(),
        decreases n - i,
    {
        let x = v[i].clone();
        let mut j: usize = 0;
        while j < out.len() && str_le(out[j].as_str(), x.as_str())
            invariant
                j <= out@.len(),
                forall|k: int| 0 <= k < j ==> str_leq(#[trigger] out@[k]@, x@),
            decreases out.len() - j,
        {
            j = j + 1;
        }
        let ghost before = strs(out@);
        out.insert(j, x);
        proof {
            broadcast use vstd::seq_lib::group_to_multiset_ensures;
            broadcast use vstd::multiset::group_multiset_axioms;
            let after = strs(out@);
            assert(after =~= before.insert(j as int, v@[i as int]@));
            assert(after.remove(j as int) =~= before);
            assert(after.to_multiset().remove(v@[i as int]@) =~= before.to_multiset());
            assert(after.to_multiset().count(v@[i as int]@) > 0);
            assert(after.to_multiset() =~= before.to_multiset().insert(v@[i as int]@));
            assert(src.take(i + 1) =~= src.take(i as int).push(src[i as int]));
            assert forall|a: int, b: int| 0 <= a < b < after.len() implies #[trigger] str_order()(after[a], after[b]) by {
                let xv = v@[i as int]@;
                if b < j {
                    assert(str_order()(before[a], before[b]));
                } else if b == j {
                    assert(str_leq(before[a], xv));
                } else if a == j {
                    // x sorts before the element that was at j, and so before later ones
                    if (j as int) < before.len() {
                        assert(!str_leq(before[j as int], xv));
                        lemma_str_leq_total(before[j as int], xv);
                        if b - 1 > j {
                            assert(str_order()(before[j as int], before[b - 1]));
                            lemma_str_leq_transitive(xv, before[j as int], before[b - 1]);
                        }
                    }
                } else if a < j {
                    assert(str_leq(before[a], xv));
                    if (j as int) < before.len() {
                        assert(str_order()(before[a], before[b - 1]));
                    }
                } else {
                    assert(str_order()(before[a - 1], before[b - 1]));
                }
            }
        }
        i = i + 1;
    }
    proof {
        assert(src.take(n as int) =~= src);
        src.lemma_sort_by_ensures(str_order());
        vstd::seq_lib::lemma_sorted_unique(strs(out@), src.sort_by(str_order()), str_order());
    }
    out
}


/// Index of the first iBeacon item at or after `i`.
pub open spec fn first_ibeacon(s: Seq<ManufacturerData>, i: int) -> Option<int>
    decreases s.len() - i,
{
    if i < 0 || i >= s.len() {
        None
    } else if is_ibeacon(s[i]) {
        Some(i)
    } else {
        first_ibeacon(s, i + 1)
    }
}

/// Index of the first Eddystone-UID item at or after `i`.
pub open spec fn first_eddystone_uid(s: Seq<ServiceData>, i: int) -> Option<int>
    decreases s.len() - i,
{
    if i < 0 || i >= s.len() {
        None
    } else if is_eddystone_uid(s[i]) {
        Some(i)
    } else {
        first_eddystone_uid(s, i + 1)
    }
}

/// Apple iBeacon manufacturer data: company 0x004C, type 0x02, length 0x15.
pub open spec fn is_ibeacon(m: ManufacturerData) -> bool {
    &&& m.company_id == 0x004c
    &&& m.data@.len() >= 23
    &&& m.data@[0] == 0x02
    &&& m.data@[1] == 0x15
}

/// The iBeacon identity (UUID, major, minor) of the first iBeacon item.
pub open spec fn ibeacon_bytes(a: Advertisement) -> Option<Seq<u8>> {
    match first_ibeacon(a.manufacturer_data@, 0) {
        Some(i) => Some(a.manufacturer_data@[i].data@.subrange(2, 22)),
        None => None,
    }
}

/// Eddystone-UID service data: service `…feaa`, frame type 0x00.
pub open spec fn is_eddystone_uid(sd: ServiceData) -> bool {
    let u = normalized_uuid(sd.uuid@);
    &&& u.len() >= 4
    &&& u.subrange(u.len() - 4, u.len() as int) == seq![102u8, 101u8, 97u8, 97u8]
    &&& sd.data@.len() >= 18
    &&& sd.data@[0] == 0x00
}

/// The Eddystone-UID namespace and instance of the first Eddystone-UID item.
pub open spec fn eddystone_bytes(a: Advertisement) -> Option<Seq<u8>> {
    match first_eddystone_uid(a.service_data@, 0) {
        Some(i) => Some(a.service_data@[i].data@.subrange(2, 18)),
        None => None,
    }
}

/// The identity key of a byte sequence: a versioned FNV-1a fingerprint.
pub open spec fn identity_key(bytes: Seq<u8>) -> Seq<char> {
    "ble-id-v1:"@ + hex_fixed(fnv1a64_spec(bytes) as nat, 16)
}

/// How far an address alone can be trusted as an identity.
pub open spec fn address_confidence(t: AddressType) -> IdentityConfidence {
    match t {
        AddressType::Public | AddressType::RandomStatic => IdentityConfidence::StaticAddress,
        _ => IdentityConfidence::EphemeralAddress,
    }
}

/// The identity of an advertisement: a caller-supplied identity first, then
/// a decoded iBeacon, then an Eddystone-UID, and only then the address.
pub open spec fn identify_spec(a: Advertisement) -> IdentityView {
    match a.protocol_identity {
        Some(v) => IdentityView {
            key: identity_key(encode_utf8(v@)),
            confidence: IdentityConfidence::CallerProvided,
            protocol: Some("caller"@),
        },
        None => match ibeacon_bytes(a) {
            Some(b) => IdentityView {
                key: identity_key(b),
                confidence: IdentityConfidence::Protocol,
                protocol: Some("ibeacon"@),
            },
            None => match eddystone_bytes(a) {
                Some(b) => IdentityView {
                    key: identity_key(b),
                    confidence: IdentityConfidence::Protocol,
                    protocol: Some("eddystone_uid"@),
                },
                None => IdentityView {
                    key: identity_key(encode_utf8(a.address@)),
                    confidence: address_confidence(a.address_type),
                    protocol: None,
                },
            },
        },
    }
}

/// A copy of `v[a..b]`.
fn copy_range(v: &Vec<u8>, a: usize, b: usize) -> (r: Vec<u8>)
    requires
        a <= b <= v@.len(),
    ensures
        r@ == v@.subrange(a as int, b as int),
{
    let mut out: Vec<u8> = Vec::new();
    let mut k = a;
    while k < b
        invariant
            a <= k <= b <= v@.len(),
            out@ == v@.subrange(a as int, k as int),
        decreases b - k,
    {
        out.push(v[k]);
        k = k + 1;
        assert(out@ =~= v@.subrange(a as int, k as int));
    }
    out
}

fn ibeacon_identity(advertisement: &Advertisement) -> (r: Option<Vec<u8>>)
    ensures
        match r {
            Some(b) => ibeacon_bytes(*advertisement) == Some(b@),
            None => ibeacon_bytes(*advertisement) is None,
        },
{
    let items = &advertisement.manufacturer_data;
    let mut i: usize = 0;
    while i < items.len()
        invariant
            i <= items@.len(),
            items@ == advertisement.manufacturer_data@,
            first_ibeacon(items@, 0) == first_ibeacon(items@, i as int),
        decreases items.len() - i,
    {
        let item = &items[i];
        if item.company_id == 0x004c && item.data.len() >= 23 && item.data[0] == 0x02 && item.data[1] == 0x15 {
            return Some(copy_range(&item.data, 2, 22));
        }
        i = i + 1;
    }
    None
}

/// Whether the last four bytes are ASCII `feaa`.
fn ends_with_feaa(u: &Vec<u8>) -> (r: bool)
    ensures
        r == (u@.len() >= 4 && u@.subrange(u@.len() - 4, u@.len() as int) == seq![102u8, 101u8, 97u8, 97u8]),
{
    let n = u.len();
    if n < 4 {
        return false;
    }
    let r = u[n - 4] == 102 && u[n - 3] == 101 && u[n - 2] == 97 && u[n - 1] == 97;
    proof {
        let tail = u@.subrange(n - 4, n as int);
        if r {
            assert(tail =~= seq![102u8, 101u8, 97u8, 97u8]);
        } else {
            assert(tail != seq![102u8, 101u8, 97u8, 97u8]) by {
                if tail == seq![102u8, 101u8, 97u8, 97u8] {
                    assert(tail[0] == u@[n - 4]);
                    assert(tail[1] == u@[n - 3]);
                    assert(tail[2] == u@[n - 2]);
                    assert(tail[3] == u@[n - 1]);
                }
            }
        }
    }
    r
}

fn eddystone_uid(advertisement: &Advertisement) -> (r: Option<Vec<u8>>)
    ensures
        match r {
            Some(b) => eddystone_bytes(*advertisement) == Some(b@),
            None => eddystone_bytes(*advertisement) is None,
        },
{
    let items = &advertisement.service_data;
    let mut i: usize = 0;
    while i < items.len()
        invariant
            i <= items@.len(),
            items@ == advertisement.service_data@,
            first_eddystone_uid(items@, 0) == first_eddystone_uid(items@, i as int),
        decreases items.len() - i,
    {
        let item = &items[i];
        let uuid = normalized_uuid_bytes(item.uuid.as_str());
        if ends_with_feaa(&uuid) && item.data.len() >= 18 && item.data[0] == 0x00 {
            return Some(copy_range(&item.data, 2, 18));
        }
        i = i + 1;
    }
    None
}

/// The identity key of a byte sequence.
fn identity_key_of(bytes: &Vec<u8>) -> (r: String)
    ensures
        r@ == identity_key(bytes@),
{
    let mut key = "ble-id-v1:".to_owned();
    push_hex_fixed(&mut key, fnv1a64(bytes), 16);
    key
}

fn identity(protocol: Option<&str>, bytes: &Vec<u8>, confidence: IdentityConfidence) -> (r: Identity)
    ensures
        r@.key == identity_key(bytes@),
        r@.confidence == confidence,
        r@.protocol == match protocol {
            Some(p) => Some(p@),
            None => None::<Seq<char>>,
        },
{
    Identity {
        key: identity_key_of(bytes),
        confidence,
        protocol: match protocol {
            Some(p) => Some(p.to_owned()),
            None => None,
        },
    }
}

fn str_bytes(s: &str) -> (r: Vec<u8>)
    ensures
        r@ == encode_utf8(s@),
{
    let mut out: Vec<u8> = Vec::new();
    push_bytes(&mut out, s.as_bytes());
    out
}

/// The identity of an advertisement.
pub fn identify(advertisement: &Advertisement) -> (r: Identity)
    ensures
        r@ == identify_spec(*advertisement),
{
    if let Some(value) = &advertisement.protocol_identity {
        return identity(Some("caller"), &str_bytes(value.as_str()), IdentityConfidence::CallerProvided);
    }
    if let Some(bytes) = ibeacon_identity(advertisement) {
        return identity(Some("ibeacon"), &bytes, IdentityConfidence::Protocol);
    }
    if let Some(bytes) = eddystone_uid(advertisement) {
        return identity(Some("eddystone_uid"), &bytes, IdentityConfidence::Protocol);
    }
    let confidence = match advertisement.address_type {
        AddressType::Public | AddressType::RandomStatic => IdentityConfidence::StaticAddress,
        AddressType::ResolvablePrivate
        | AddressType::NonResolvablePrivate
        | AddressType::Unknown => IdentityConfidence::EphemeralAddress,
    };
    identity(None, &str_bytes(advertisement.address.as_str()), confidence)
}


/// The text fields of service UUIDs, normalized, in the given order.
pub open spec fn services_bytes(ss: Seq<Seq<char>>) -> Seq<u8>
    decreases ss.len(),
{
    if ss.len() == 0 {
        seq![]
    } else {
        services_bytes(ss.drop_last()) + text_bytes(normalized_uuid(ss.last()))
    }
}

/// Manufacturer data items: the company id (two little-endian bytes), then the data.
pub open spec fn manufacturer_bytes(ms: Seq<ManufacturerData>) -> Seq<u8>
    decreases ms.len(),
{
    if ms.len() == 0 {
        seq![]
    } else {
        manufacturer_bytes(ms.drop_last()) + le_bytes(ms.last().company_id as nat, 2) + ms.last().data@
    }
}

/// Service data items: the normalized UUID as a text field, then the data.
pub open spec fn service_data_bytes(sd: Seq<ServiceData>) -> Seq<u8>
    decreases sd.len(),
{
    if sd.len() == 0 {
        seq![]
    } else {
        service_data_bytes(sd.drop_last()) + text_bytes(normalized_uuid(sd.last().uuid@))
            + sd.last().data@
    }
}

/// The UTF-8 bytes of the local name, empty when there is none.
pub open spec fn local_name_bytes(a: Advertisement) -> Seq<u8> {
    match a.local_name {
        Some(n) => encode_utf8(n@),
        None => seq![],
    }
}

/// The bytes that the payload hash covers: the local name, the service UUIDs
/// in sorted order, the manufacturer data and the service data. The address
/// and the signal strength are left out.
pub open spec fn payload_bytes(a: Advertisement) -> Seq<u8> {
    text_bytes(local_name_bytes(a)) + services_bytes(strs(a.service_uuids@).sort_by(str_order()))
        + manufacturer_bytes(a.manufacturer_data@) + service_data_bytes(a.service_data@)
}

/// The versioned payload fingerprint of an advertisement.
pub open spec fn payload_hash_spec(a: Advertisement) -> Seq<char> {
    "ble-payload-v1:"@ + hex_fixed(fnv1a64_spec(payload_bytes(a)) as nat, 16)
}

/// A fingerprint of what an advertisement carries, independent of the
/// address it was sent from and of the order of its service UUIDs.
pub fn payload_hash(advertisement: &Advertisement) -> (r: String)
    ensures
        r@ == payload_hash_spec(*advertisement),
{
    let mut bytes: Vec<u8> = Vec::new();
    match &advertisement.local_name {
        Some(name) => push_text(&mut bytes, name.as_str().as_bytes()),
        None => {
            let empty: Vec<u8> = Vec::new();
            push_text(&mut bytes, empty.as_slice());
        },
    }
    assert(bytes@ =~= text_bytes(local_name_bytes(*advertisement)));
    let services = sorted_strings(&advertisement.service_uuids);
    let ghost sorted = strs(services@);
    let ghost start = bytes@;
    let mut i: usize = 0;
    assert(sorted.take(0) =~= Seq::<Seq<char>>::empty());
    while i < services.len()
        invariant
            sorted == strs(services@),
            i <= services@.len(),
            bytes@ == start + services_bytes(sorted.take(i as int)),
        decreases services.len() - i,
    {
        let uuid = normalized_uuid_bytes(services[i].as_str());
        push_text(&mut bytes, uuid.as_slice());
        assert(sorted.take(i + 1).drop_last() =~= sorted.take(i as int));
        i = i + 1;
        assert(bytes@ =~= start + services_bytes(sorted.take(i as int)));
    }
    assert(sorted.take(i as int) =~= sorted);
    let ghost start2 = bytes@;
    let items = &advertisement.manufacturer_data;
    let mut j: usize = 0;
    assert(items@.take(0) =~= Seq::<ManufacturerData>::empty());
    while j < items.len()
        invariant
            items@ == advertisement.manufacturer_data@,
            j <= items@.len(),
            bytes@ == start2 + manufacturer_bytes(items@.take(j as int)),
        decreases items.len() - j,
    {
        push_le(&mut bytes, items[j].company_id as u64, 2);
        push_bytes(&mut bytes, items[j].data.as_slice());
        assert(items@.take(j + 1).drop_last() =~= items@.take(j as int));
        j = j + 1;
        assert(bytes@ =~= start2 + manufacturer_bytes(items@.take(j as int)));
    }
    assert(items@.take(j as int) =~= items@);
    let ghost start3 = bytes@;
    let sd = &advertisement.service_data;
    let mut k: usize = 0;
    assert(sd@.take(0) =~= Seq::<ServiceData>::empty());
    while k < sd.len()
        invariant
            sd@ == advertisement.service_data@,
            k <= sd@.len(),
            bytes@ == start3 + service_data_bytes(sd@.take(k as int)),
        decreases sd.len() - k,
    {
        let uuid = normalized_uuid_bytes(sd[k].uuid.as_str());
        push_text(&mut bytes, uuid.as_slice());
        push_bytes(&mut bytes, sd[k].data.as_slice());
        assert(sd@.take(k + 1).drop_last() =~= sd@.take(k as int));
        k = k + 1;
        assert(bytes@ =~= start3 + service_data_bytes(sd@.take(k as int)));
    }
    assert(sd@.take(k as int) =~= sd@);
    assert(bytes@ =~= payload_bytes(*advertisement));
    let mut out = "ble-payload-v1:".to_owned();
    push_hex_fixed(&mut out, fnv1a64(&bytes), 16);
    out
}

} // verus!
