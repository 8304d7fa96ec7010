//! The calls that this library makes into other crates and into parts of
//! `std` that Verus has no specification for.  The wrappers, the outside
//! types and the names without a body are trusted: their contracts are
//! taken as given and the wrappers' bodies are not verified.  The spec
//! functions with a body, and the lemma about them, are verified.

use vstd::prelude::*;
use base64::Engine;
use std::io::Read;
use crate::meta::RatMetaObject;

verus! {

// ---------------------------------------------------------------------------
// Outside types that the library carries without looking inside.
// ---------------------------------------------------------------------------

/// `std::path::PathBuf`, carried opaquely.
#[verifier::external_type_specification]
#[verifier::external_body]
pub struct ExPathBuf(std::path::PathBuf);

/// `serde_json::Value`, carried opaquely.
#[verifier::external_type_specification]
#[verifier::external_body]
pub struct ExJsonValue(serde_json::Value);

/// `serde_json::Map`, a JSON object, carried opaquely; the fields of a
/// `Map<String, Value>` are named by `json_object_fields`.
#[verifier::external_type_specification]
#[verifier::external_body]
#[verifier::reject_recursive_types(K)]
#[verifier::reject_recursive_types(V)]
pub struct ExJsonMap<K, V>(serde_json::Map<K, V>);

/// `std::time::SystemTime`, carried opaquely.
#[verifier::external_type_specification]
#[verifier::external_body]
pub struct ExSystemTime(std::time::SystemTime);

// ---------------------------------------------------------------------------
// Names for results of outside functions.
// ---------------------------------------------------------------------------

/// What `base64`'s URL-safe, padded engine (`Engine::decode`) makes of some
/// bytes: `None` where it reports an error.
pub uninterp spec fn b64_decoded(data: Seq<u8>) -> Option<Seq<u8>>;

/// What bzip2 compression at a level (1 to 9) makes of some bytes
/// (`bzip2::read::BzEncoder` read to the end): `None` where it reports an
/// error.
pub uninterp spec fn bz_compressed(data: Seq<u8>, level: u32) -> Option<Seq<u8>>;

/// What bzip2 decompression of one stream makes of some bytes
/// (`bzip2::read::BzDecoder` read to the end): `None` where it reports an
/// error.
pub uninterp spec fn bz_decompressed(data: Seq<u8>) -> Option<Seq<u8>>;

/// The 128-bit value of the UUID that `uuid::Uuid::parse_str` reads from a
/// text: `None` where it reports an error.
pub uninterp spec fn uuid_parsed(text: Seq<char>) -> Option<u128>;

/// The fields of a JSON object (`serde_json::Map<String, Value>`): each
/// field's name, as text, mapped to its value.
pub uninterp spec fn json_object_fields(m: RatMetaObject) -> Map<
    Seq<char>,
    serde_json::Value,
>;

/// The JSON string value (`serde_json::Value::String`) holding a text.
pub uninterp spec fn json_string(text: Seq<char>) -> serde_json::Value;

// ---------------------------------------------------------------------------
// What the wrappers' contracts say, in plain terms.
// ---------------------------------------------------------------------------

/// The fields of an empty JSON object: none.
pub open spec fn no_fields() -> Map<Seq<char>, serde_json::Value> {
    Map::empty()
}

/// The bytes of base64's URL-safe alphabet, and its padding byte `=`.
pub open spec fn is_url_safe_b64_byte(b: u8) -> bool {
    ||| (65 <= b && b <= 90)  // A-Z
    ||| (97 <= b && b <= 122)  // a-z
    ||| (48 <= b && b <= 57)  // 0-9
    ||| b == 45  // -
    ||| b == 95  // _
    ||| b == 61  // =
}

/// The 48-bit big-endian number that six node-id bytes stand for.
pub open spec fn node_id_value(n: Seq<u8>) -> int {
    n[0] * 0x100_0000_0000 + n[1] * 0x1_0000_0000 + n[2] * 0x100_0000 + n[3] * 0x1_0000 + n[4]
        * 0x100 + n[5]
}

/// The symbol of base64's URL-safe alphabet for a six-bit value: `A-Z`,
/// `a-z`, `0-9`, then `-` and `_`.
pub open spec fn b64_symbol(v: int) -> u8 {
    if v < 26 {
        (65 + v) as u8
    } else if v < 52 {
        (97 + (v - 26)) as u8
    } else if v < 62 {
        (48 + (v - 52)) as u8
    } else if v == 62 {
        45
    } else {
        95
    }
}

/// URL-safe base64 with `=` padding (RFC 4648, section 5): each group of
/// three bytes becomes four symbols of six bits each, the high bits first;
/// a last group of one or two bytes becomes two or three symbols (the bits
/// missing taken as zero) and then one or two `=`.
pub open spec fn b64_encoded(data: Seq<u8>) -> Seq<u8>
    decreases data.len(),
{
    let d0 = data[0] as int;
    let d1 = data[1] as int;
    let d2 = data[2] as int;
    if data.len() == 0 {
        seq![]
    } else if data.len() == 1 {
        seq![b64_symbol(d0 / 4), b64_symbol((d0 % 4) * 16), 61u8, 61u8]
    } else if data.len() == 2 {
        seq![b64_symbol(d0 / 4), b64_symbol((d0 % 4) * 16 + d1 / 16), b64_symbol((d1 % 16) * 4), 61u8]
    } else {
        b64_group(d0, d1, d2) + b64_encoded(data.skip(3))
    }
}

/// The four symbols of a group of three bytes.
pub open spec fn b64_group(d0: int, d1: int, d2: int) -> Seq<u8> {
    seq![
        b64_symbol(d0 / 4),
        b64_symbol((d0 % 4) * 16 + d1 / 16),
        b64_symbol((d1 % 16) * 4 + d2 / 64),
        b64_symbol(d2 % 64),
    ]
}

/// Every byte of an encoding is in the URL-safe alphabet or is the padding.
pub proof fn lemma_b64_alphabet(data: Seq<u8>)
    ensures
        forall|i: int|
            0 <= i < b64_encoded(data).len() ==> is_url_safe_b64_byte(
                #[trigger] b64_encoded(data)[i],
            ),
    decreases data.len(),
{
    if data.len() >= 3 {
        lemma_b64_alphabet(data.skip(3));
        let tail = b64_encoded(data.skip(3));
        assert forall|i: int| 0 <= i < b64_encoded(data).len() implies is_url_safe_b64_byte(
            #[trigger] b64_encoded(data)[i],
        ) by {
            if i >= 4 {
                assert(b64_encoded(data)[i] == tail[i - 4]);
            }
        }
    }
}

// ---------------------------------------------------------------------------
// Wrappers.
// ---------------------------------------------------------------------------

/// `Engine::encode` of base64's URL-safe, padded engine
/// (`base64::engine::general_purpose::URL_SAFE`: the alphabet
/// `A-Z a-z 0-9 - _`, padding with `=`).  Claimed: the result is
/// `b64_encoded(data)`, the RFC 4648 encoding that the engine's alphabet
/// and padded config define, and decoding it with the same engine gives
/// `data` back.  The length bound keeps the encoded length's computation
/// from overflowing, on which the crate panics.
#[verifier::external_body]
pub(crate) fn b64_encode(data: &[u8]) -> (res: Vec<u8>)
    requires
        data@.len() <= usize::MAX / 2,
    ensures
        res@ == b64_encoded(data@),
        b64_decoded(res@) == Some(data@),
{
    base64::engine::general_purpose::URL_SAFE.encode(data).into_bytes()
}

/// `Engine::decode` of base64's URL-safe, padded engine.  Claimed: the
/// result is the named decoding of `data`, `None` where the crate returns
/// an error.
#[verifier::external_body]
pub(crate) fn b64_decode(data: &[u8]) -> (res: Option<Vec<u8>>)
    ensures
        match res {
            Some(v) => b64_decoded(data@) == Some(v@),
            None => b64_decoded(data@) is None,
        },
{
    match base64::engine::general_purpose::URL_SAFE.decode(data) {
        Ok(v) => Some(v),
        Err(_) => None,
    }
}

/// bzip2 compression of `data` at `level` (`bzip2::read::BzEncoder` over
/// the bytes, read to the end).  Claimed: the result is the named
/// compression of `data` at `level`, and decompressing it (one bzip2
/// stream) gives `data` back, the round trip that the crate's own
/// documentation shows.  `Compression::new` panics outside `1..=9`.
#[verifier::external_body]
pub(crate) fn bz_compress(data: &[u8], level: u32) -> (res: Option<Vec<u8>>)
    requires
        1 <= level <= 9,
    ensures
        match res {
            Some(v) => bz_compressed(data@, level) == Some(v@) && bz_decompressed(v@) == Some(
                data@,
            ),
            None => bz_compressed(data@, level) is None,
        },
{
    let mut out: Vec<u8> = Vec::new();
    match bzip2::read::BzEncoder::new(data, bzip2::Compression::new(level)).read_to_end(&mut out) {
        Ok(_) => Some(out),
        Err(_) => None,
    }
}

/// bzip2 decompression of `data` (`bzip2::read::BzDecoder` over the bytes,
/// read to the end).  Claimed: the result is the named decompression of
/// `data`, `None` where the crate returns an error.
#[verifier::external_body]
pub(crate) fn bz_decompress(data: &[u8]) -> (res: Option<Vec<u8>>)
    ensures
        match res {
            Some(v) => bz_decompressed(data@) == Some(v@),
            None => bz_decompressed(data@) is None,
        },
{
    let mut out: Vec<u8> = Vec::new();
    match bzip2::read::BzDecoder::new(data).read_to_end(&mut out) {
        Ok(_) => Some(out),
        Err(_) => None,
    }
}

/// The 128-bit value of the version-1 UUID that `uuid::Uuid::new_v1` makes
/// for a Unix time of `secs` seconds and `nanos` nanoseconds, a clock
/// sequence `counter` and the node id `node`, as `uuid` encodes it: the
/// 60-bit count of 100-nanosecond ticks since 1582-10-15 (wrapping at 64
/// bits) split into its low 32 bits, its next 16 bits and its top 12 bits
/// with the version nibble 1; then the variant bits `10` with the low 14
/// bits of the clock sequence; then the node id.
pub open spec fn uuid_v1_value(secs: u64, nanos: u32, counter: u16, node: Seq<u8>) -> int {
    let t = (0x01B2_1DD2_1381_4000 + secs * 10_000_000 + nanos / 100) % 0x1_0000_0000_0000_0000;
    (t % 0x1_0000_0000) * 0x1_0000_0000_0000_0000_0000_0000 + ((t / 0x1_0000_0000) % 0x1_0000)
        * 0x1_0000_0000_0000_0000_0000 + (0x1000 + (t / 0x1_0000_0000_0000) % 0x1000)
        * 0x1_0000_0000_0000_0000 + (0x8000 + counter % 0x4000) * 0x1_0000_0000_0000
        + node_id_value(node)
}

/// A version-1 UUID for a given Unix time and clock sequence, with the
/// given node id (`uuid::Uuid::new_v1` of `uuid::Timestamp::from_unix`
/// with a `uuid::ContextV1` started at `counter`), as its 128-bit value
/// (`Uuid::as_u128`, big-endian).  Claimed: the value is `uuid_v1_value`
/// of the arguments, as `uuid`'s `encode_gregorian_timestamp` and
/// `ContextV1` build it (the context hands out its starting count, masked
/// to 14 bits); so its last six bytes are the node id, its version nibble
/// (bits 76 to 79) is 1 and its variant bits (62 and 63) are `10`.  The
/// nanoseconds must be below one second, as a clock reading's are; the
/// crate then keeps the seconds as given.  The call does not read the
/// clock or a random source and does not panic.
#[verifier::external_body]
pub(crate) fn uuid_v1(secs: u64, nanos: u32, counter: u16, node_id: [u8; 6]) -> (res: u128)
    requires
        nanos < 1_000_000_000,
    ensures
        res == uuid_v1_value(secs, nanos, counter, node_id@),
        res % 0x1_0000_0000_0000 == node_id_value(node_id@),
        (res / 0x1000_0000_0000_0000_0000) % 16 == 1,
        (res / 0x4000_0000_0000_0000) % 4 == 2,
{
    let ts = uuid::Timestamp::from_unix(uuid::ContextV1::new(counter), secs, nanos);
    uuid::Uuid::new_v1(ts, &node_id).as_u128()
}

/// `uuid::Uuid::parse_str`, as the parsed UUID's 128-bit value.  Claimed:
/// the result is the named parse of `text`, `None` where the crate returns
/// an error.
#[verifier::external_body]
pub(crate) fn uuid_parse(text: &str) -> (res: Option<u128>)
    ensures
        res == uuid_parsed(text@),
{
    match uuid::Uuid::parse_str(text) {
        Ok(u) => Some(u.as_u128()),
        Err(_) => None,
    }
}

/// `std::time::SystemTime::now`.  Nothing is claimed of the clock.
#[verifier::external_body]
pub(crate) fn system_now() -> (res: std::time::SystemTime) {
    std::time::SystemTime::now()
}

/// The time from the Unix epoch to `t` (`SystemTime::duration_since` of
/// `UNIX_EPOCH`), as whole seconds and the nanoseconds beyond them
/// (`Duration::as_secs`, `Duration::subsec_nanos`); `None` where `t` is
/// before the epoch.  Claimed only what `Duration` documents of every
/// value: the nanoseconds are below one second.
#[verifier::external_body]
pub(crate) fn since_epoch(t: std::time::SystemTime) -> (res: Option<(u64, u32)>)
    ensures
        res matches Some(d) ==> d.1 < 1_000_000_000,
{
    match t.duration_since(std::time::UNIX_EPOCH) {
        Ok(d) => Some((d.as_secs(), d.subsec_nanos())),
        Err(_) => None,
    }
}

/// `serde_json::Value::String`.  Claimed: the value is the named JSON
/// string holding `text`.
#[verifier::external_body]
pub(crate) fn json_string_value(text: String) -> (res: serde_json::Value)
    ensures
        res == json_string(text@),
{
    serde_json::Value::String(text)
}

/// `serde_json::Map::new`.  Claimed: the object has no fields.
#[verifier::external_body]
pub(crate) fn json_object_new() -> (res: RatMetaObject)
    ensures
        json_object_fields(res) == no_fields(),
{
    serde_json::Map::new()
}

/// `serde_json::Map::insert`.  Claimed: afterwards the field `key` holds
/// `value` and every other field is as it was, as the crate's map (a
/// `BTreeMap`, or an `IndexMap` with `preserve_order`) inserts or replaces
/// the entry.  The value it hands back, the one replaced, is dropped.
#[verifier::external_body]
pub(crate) fn json_object_insert(
    m: &mut RatMetaObject,
    key: String,
    value: serde_json::Value,
)
    ensures
        json_object_fields(*final(m)) == json_object_fields(*old(m)).insert(key@, value),
{
    m.insert(key, value);
}

/// `String::push`.  Claimed: the string afterwards is the string before
/// with `c` appended.
#[verifier::external_body]
pub(crate) fn push_char(s: &mut String, c: char)
    ensures
        final(s)@ == old(s)@.push(c),
{
    s.push(c);
}

} // verus!
