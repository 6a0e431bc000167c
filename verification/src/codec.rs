use vstd::prelude::*;

use crate::database::{tables_view, Database, DatabaseV};
use crate::entry::{pairs_view, Entry, EntryV};
use crate::fields::{Field, FieldRequirement, FieldType, FieldV};
use crate::table::{entries_view, schema_view, Table, TableV};
use vstd::utf8::{decode_utf8, encode_utf8, encode_utf8_decode_utf8, encode_utf8_valid_utf8,
    valid_utf8};

verus! {

// The persisted image of a database is built from a handful of scalar
// encodings: fixed-width little-endian integers, a tag byte for each
// enum, and length-prefixed UTF-8 for strings. Each `enc_*` spec
// function defines the encoding of one layer; each `dec_*` spec function
// parses one layer from the front of a byte sequence and returns the
// value with the unread remainder. The executable encoders and decoders
// are proved against these functions, and the decode-of-encode lemmas
// give the round trip.
/// The little-endian bytes of `x`.
pub open spec fn enc_u64(x: u64) -> Seq<u8> {
    seq![
        (x & 0xff) as u8,
        ((x >> 8) & 0xff) as u8,
        ((x >> 16) & 0xff) as u8,
        ((x >> 24) & 0xff) as u8,
        ((x >> 32) & 0xff) as u8,
        ((x >> 40) & 0xff) as u8,
        ((x >> 48) & 0xff) as u8,
        ((x >> 56) & 0xff) as u8,
    ]
}

/// The value read back from eight little-endian bytes.
pub open spec fn u64_of_le(
    b0: u8,
    b1: u8,
    b2: u8,
    b3: u8,
    b4: u8,
    b5: u8,
    b6: u8,
    b7: u8,
) -> u64 {
    (b0 as u64) | ((b1 as u64) << 8) | ((b2 as u64) << 16) | ((b3 as u64) << 24) | ((b4 as u64)
        << 32) | ((b5 as u64) << 40) | ((b6 as u64) << 48) | ((b7 as u64) << 56)
}

/// Parses eight little-endian bytes.
pub open spec fn dec_u64(b: Seq<u8>) -> Option<(u64, Seq<u8>)> {
    if b.len() >= 8 {
        Some((u64_of_le(b[0], b[1], b[2], b[3], b[4], b[5], b[6], b[7]), b.skip(8)))
    } else {
        None
    }
}

/// Reading back the little-endian bytes of `x` yields `x`.
pub proof fn lemma_u64_round_trip(x: u64)
    ensures
        u64_of_le(
            (x & 0xff) as u8,
            ((x >> 8) & 0xff) as u8,
            ((x >> 16) & 0xff) as u8,
            ((x >> 24) & 0xff) as u8,
            ((x >> 32) & 0xff) as u8,
            ((x >> 40) & 0xff) as u8,
            ((x >> 48) & 0xff) as u8,
            ((x >> 56) & 0xff) as u8,
        ) == x,
{
    assert(((x & 0xff) as u8) as u64 | ((((x >> 8) & 0xff) as u8) as u64) << 8 | ((((x >> 16)
        & 0xff) as u8) as u64) << 16 | ((((x >> 24) & 0xff) as u8) as u64) << 24 | ((((x >> 32)
        & 0xff) as u8) as u64) << 32 | ((((x >> 40) & 0xff) as u8) as u64) << 40 | ((((x >> 48)
        & 0xff) as u8) as u64) << 48 | ((((x >> 56) & 0xff) as u8) as u64) << 56 == x)
        by (bit_vector);
}

/// Parsing bytes that begin with the encoding of `x` yields `x` and the
/// trailing bytes.
pub proof fn lemma_dec_enc_u64(x: u64, rest: Seq<u8>)
    ensures
        dec_u64(enc_u64(x) + rest) == Some((x, rest)),
{
    let b = enc_u64(x) + rest;
    lemma_u64_round_trip(x);
    assert(b.skip(8) =~= rest);
    assert(dec_u64(b) == Some((x, rest)));
}

/// The little-endian bytes of `x`.
pub open spec fn enc_u32(x: u32) -> Seq<u8> {
    seq![
        (x & 0xff) as u8,
        ((x >> 8) & 0xff) as u8,
        ((x >> 16) & 0xff) as u8,
        ((x >> 24) & 0xff) as u8,
    ]
}

/// The value read back from four little-endian bytes.
pub open spec fn u32_of_le(b0: u8, b1: u8, b2: u8, b3: u8) -> u32 {
    (b0 as u32) | ((b1 as u32) << 8) | ((b2 as u32) << 16) | ((b3 as u32) << 24)
}

/// Parses four little-endian bytes.
pub open spec fn dec_u32(b: Seq<u8>) -> Option<(u32, Seq<u8>)> {
    if b.len() >= 4 {
        Some((u32_of_le(b[0], b[1], b[2], b[3]), b.skip(4)))
    } else {
        None
    }
}

/// Reading back the little-endian bytes of `x` yields `x`.
pub proof fn lemma_u32_round_trip(x: u32)
    ensures
        u32_of_le(
            (x & 0xff) as u8,
            ((x >> 8) & 0xff) as u8,
            ((x >> 16) & 0xff) as u8,
            ((x >> 24) & 0xff) as u8,
        ) == x,
{
    assert(((x & 0xff) as u8) as u32 | ((((x >> 8) & 0xff) as u8) as u32) << 8 | ((((x >> 16)
        & 0xff) as u8) as u32) << 16 | ((((x >> 24) & 0xff) as u8) as u32) << 24 == x)
        by (bit_vector);
}

/// Parsing bytes that begin with the encoding of `x` yields `x` and the
/// trailing bytes.
pub proof fn lemma_dec_enc_u32(x: u32, rest: Seq<u8>)
    ensures
        dec_u32(enc_u32(x) + rest) == Some((x, rest)),
{
    let b = enc_u32(x) + rest;
    lemma_u32_round_trip(x);
    assert(b.skip(4) =~= rest);
    assert(dec_u32(b) == Some((x, rest)));
}

/// A signed value is stored as its unsigned bit pattern.
pub open spec fn enc_i64(x: i64) -> Seq<u8> {
    enc_u64(x as u64)
}

/// Parses a signed 64-bit value.
pub open spec fn dec_i64(b: Seq<u8>) -> Option<(i64, Seq<u8>)> {
    match dec_u64(b) {
        Some((x, rest)) => Some((x as i64, rest)),
        None => None,
    }
}

/// Parsing bytes that begin with the encoding of `x` yields `x` and the
/// trailing bytes.
pub proof fn lemma_dec_enc_i64(x: i64, rest: Seq<u8>)
    ensures
        dec_i64(enc_i64(x) + rest) == Some((x, rest)),
{
    lemma_dec_enc_u64(x as u64, rest);
    assert((x as u64) as i64 == x) by (bit_vector);
}

/// A signed value is stored as its unsigned bit pattern.
pub open spec fn enc_i32(x: i32) -> Seq<u8> {
    enc_u32(x as u32)
}

/// Parses a signed 32-bit value.
pub open spec fn dec_i32(b: Seq<u8>) -> Option<(i32, Seq<u8>)> {
    match dec_u32(b) {
        Some((x, rest)) => Some((x as i32, rest)),
        None => None,
    }
}

/// Parsing bytes that begin with the encoding of `x` yields `x` and the
/// trailing bytes.
pub proof fn lemma_dec_enc_i32(x: i32, rest: Seq<u8>)
    ensures
        dec_i32(enc_i32(x) + rest) == Some((x, rest)),
{
    lemma_dec_enc_u32(x as u32, rest);
    assert((x as u32) as i32 == x) by (bit_vector);
}

/// An optional value is a presence byte, then the value if present.
pub open spec fn enc_opt_u64(x: Option<u64>) -> Seq<u8> {
    match x {
        None => seq![0u8],
        Some(v) => seq![1u8] + enc_u64(v),
    }
}

/// Parses an optional 64-bit value.
pub open spec fn dec_opt_u64(b: Seq<u8>) -> Option<(Option<u64>, Seq<u8>)> {
    if b.len() < 1 {
        None
    } else if b[0] == 0u8 {
        Some((None, b.skip(1)))
    } else if b[0] == 1u8 {
        match dec_u64(b.skip(1)) {
            Some((v, rest)) => Some((Some(v), rest)),
            None => None,
        }
    } else {
        None
    }
}

/// Parsing bytes that begin with the encoding of `x` yields `x` and the
/// trailing bytes.
pub proof fn lemma_dec_enc_opt_u64(x: Option<u64>, rest: Seq<u8>)
    ensures
        dec_opt_u64(enc_opt_u64(x) + rest) == Some((x, rest)),
{
    let b = enc_opt_u64(x) + rest;
    match x {
        None => {
            assert(b.skip(1) =~= rest);
        },
        Some(v) => {
            assert(b.skip(1) =~= enc_u64(v) + rest);
            lemma_dec_enc_u64(v, rest);
        },
    }
}

/// A string is stored as its UTF-8 byte length, then its UTF-8 bytes.
#[verifier::opaque]
pub open spec fn enc_str(s: Seq<char>) -> Seq<u8> {
    enc_u64(encode_utf8(s).len() as u64) + encode_utf8(s)
}

/// The string's UTF-8 form fits the length prefix.
pub open spec fn str_ok(s: Seq<char>) -> bool {
    encode_utf8(s).len() < 0x1_0000_0000_0000_0000
}

/// Parses a length-prefixed UTF-8 string.
#[verifier::opaque]
pub open spec fn dec_str(b: Seq<u8>) -> Option<(Seq<char>, Seq<u8>)> {
    match dec_u64(b) {
        Some((n, rest)) => if n <= rest.len() && valid_utf8(rest.take(n as int)) {
            Some((decode_utf8(rest.take(n as int)), rest.skip(n as int)))
        } else {
            None
        },
        None => None,
    }
}

/// Parsing bytes that begin with the encoding of `s` yields `s` and the
/// trailing bytes.
pub proof fn lemma_dec_enc_str(s: Seq<char>, rest: Seq<u8>)
    requires
        str_ok(s),
    ensures
        dec_str(enc_str(s) + rest) == Some((s, rest)),
{
    reveal(enc_str);
    reveal(dec_str);
    let octets = encode_utf8(s);
    let n = octets.len() as u64;
    let b = enc_str(s) + rest;
    assert(b =~= enc_u64(n) + (octets + rest));
    lemma_dec_enc_u64(n, octets + rest);
    assert((octets + rest).take(n as int) =~= octets);
    assert((octets + rest).skip(n as int) =~= rest);
    encode_utf8_valid_utf8(s);
    encode_utf8_decode_utf8(s);
}

/// The tag byte of a concrete type; the absent marker gets the one tag
/// the decoder refuses.
pub open spec fn type_tag(t: FieldType) -> u8 {
    match t {
        FieldType::String => 0u8,
        FieldType::I64 => 1u8,
        FieldType::I32 => 2u8,
        FieldType::U64 => 3u8,
        FieldType::U32 => 4u8,
        FieldType::Date => 5u8,
        FieldType::Absent => 6u8,
    }
}

/// A type is stored as its tag byte.
pub open spec fn enc_field_type(t: FieldType) -> Seq<u8> {
    seq![type_tag(t)]
}

/// Parses a concrete type tag; the absent marker is refused, since no
/// stored schema or value carries it.
pub open spec fn dec_field_type(b: Seq<u8>) -> Option<(FieldType, Seq<u8>)> {
    if b.len() < 1 {
        None
    } else if b[0] == 0u8 {
        Some((FieldType::String, b.skip(1)))
    } else if b[0] == 1u8 {
        Some((FieldType::I64, b.skip(1)))
    } else if b[0] == 2u8 {
        Some((FieldType::I32, b.skip(1)))
    } else if b[0] == 3u8 {
        Some((FieldType::U64, b.skip(1)))
    } else if b[0] == 4u8 {
        Some((FieldType::U32, b.skip(1)))
    } else if b[0] == 5u8 {
        Some((FieldType::Date, b.skip(1)))
    } else {
        None
    }
}

/// Parsing bytes that begin with the encoding of a concrete type yields
/// it and the trailing bytes.
pub proof fn lemma_dec_enc_field_type(t: FieldType, rest: Seq<u8>)
    requires
        t != FieldType::Absent,
    ensures
        dec_field_type(enc_field_type(t) + rest) == Some((t, rest)),
{
    let b = enc_field_type(t) + rest;
    assert(b.skip(1) =~= rest);
}

/// A requirement is a presence byte, then the declared type.
pub open spec fn enc_req(r: FieldRequirement) -> Seq<u8> {
    match r {
        FieldRequirement::Required(t) => seq![0u8] + enc_field_type(t),
        FieldRequirement::Optional(t) => seq![1u8] + enc_field_type(t),
    }
}

/// Parses a field requirement.
pub open spec fn dec_req(b: Seq<u8>) -> Option<(FieldRequirement, Seq<u8>)> {
    if b.len() < 1 {
        None
    } else if b[0] == 0u8 {
        match dec_field_type(b.skip(1)) {
            Some((t, rest)) => Some((FieldRequirement::Required(t), rest)),
            None => None,
        }
    } else if b[0] == 1u8 {
        match dec_field_type(b.skip(1)) {
            Some((t, rest)) => Some((FieldRequirement::Optional(t), rest)),
            None => None,
        }
    } else {
        None
    }
}

/// Parsing bytes that begin with the encoding of `r` yields `r` and the
/// trailing bytes.
pub proof fn lemma_dec_enc_req(r: FieldRequirement, rest: Seq<u8>)
    requires
        r.spec_field_type() != FieldType::Absent,
    ensures
        dec_req(enc_req(r) + rest) == Some((r, rest)),
{
    let b = enc_req(r) + rest;
    assert(b.skip(1) =~= enc_field_type(r.spec_field_type()) + rest);
    lemma_dec_enc_field_type(r.spec_field_type(), rest);
}

/// A value is its type's tag byte, then its payload.
#[verifier::opaque]
pub open spec fn enc_field(f: FieldV) -> Seq<u8> {
    match f {
        FieldV::Str(s) => seq![0u8] + enc_str(s),
        FieldV::I64(x) => seq![1u8] + enc_i64(x),
        FieldV::I32(x) => seq![2u8] + enc_i32(x),
        FieldV::U64(x) => seq![3u8] + enc_u64(x),
        FieldV::U32(x) => seq![4u8] + enc_u32(x),
        FieldV::Date(x) => seq![5u8] + enc_u64(x),
        FieldV::Absent => seq![6u8],
    }
}

/// A value whose string payload, if any, fits the length prefix.
pub open spec fn field_ok(f: FieldV) -> bool {
    match f {
        FieldV::Str(s) => str_ok(s),
        _ => true,
    }
}

/// Parses a concrete value; the absent marker is refused, since no
/// stored value carries it.
#[verifier::opaque]
pub open spec fn dec_field(b: Seq<u8>) -> Option<(FieldV, Seq<u8>)> {
    if b.len() < 1 {
        None
    } else if b[0] == 0u8 {
        match dec_str(b.skip(1)) {
            Some((s, rest)) => Some((FieldV::Str(s), rest)),
            None => None,
        }
    } else if b[0] == 1u8 {
        match dec_i64(b.skip(1)) {
            Some((x, rest)) => Some((FieldV::I64(x), rest)),
            None => None,
        }
    } else if b[0] == 2u8 {
        match dec_i32(b.skip(1)) {
            Some((x, rest)) => Some((FieldV::I32(x), rest)),
            None => None,
        }
    } else if b[0] == 3u8 {
        match dec_u64(b.skip(1)) {
            Some((x, rest)) => Some((FieldV::U64(x), rest)),
            None => None,
        }
    } else if b[0] == 4u8 {
        match dec_u32(b.skip(1)) {
            Some((x, rest)) => Some((FieldV::U32(x), rest)),
            None => None,
        }
    } else if b[0] == 5u8 {
        match dec_u64(b.skip(1)) {
            Some((x, rest)) => Some((FieldV::Date(x), rest)),
            None => None,
        }
    } else {
        None
    }
}

/// Parsing bytes that begin with the encoding of a concrete value
/// yields it and the trailing bytes.
pub proof fn lemma_dec_enc_field(f: FieldV, rest: Seq<u8>)
    requires
        f.is_concrete(),
        field_ok(f),
    ensures
        dec_field(enc_field(f) + rest) == Some((f, rest)),
{
    reveal(enc_field);
    reveal(dec_field);
    let b = enc_field(f) + rest;
    match f {
        FieldV::Str(s) => {
            assert(b.skip(1) =~= enc_str(s) + rest);
            lemma_dec_enc_str(s, rest);
        },
        FieldV::I64(x) => {
            assert(b.skip(1) =~= enc_i64(x) + rest);
            lemma_dec_enc_i64(x, rest);
        },
        FieldV::I32(x) => {
            assert(b.skip(1) =~= enc_i32(x) + rest);
            lemma_dec_enc_i32(x, rest);
        },
        FieldV::U64(x) => {
            assert(b.skip(1) =~= enc_u64(x) + rest);
            lemma_dec_enc_u64(x, rest);
        },
        FieldV::U32(x) => {
            assert(b.skip(1) =~= enc_u32(x) + rest);
            lemma_dec_enc_u32(x, rest);
        },
        FieldV::Date(x) => {
            assert(b.skip(1) =~= enc_u64(x) + rest);
            lemma_dec_enc_u64(x, rest);
        },
        FieldV::Absent => {},
    }
}

/// An entry's field list is stored pair by pair, name then value.
pub open spec fn enc_epairs(s: Seq<(Seq<char>, FieldV)>) -> Seq<u8>
    decreases s.len(),
{
    if s.len() == 0 {
        Seq::empty()
    } else {
        enc_str(s[0].0) + enc_field(s[0].1) + enc_epairs(s.skip(1))
    }
}

/// Parses `n` name/value pairs.
pub open spec fn dec_epairs(b: Seq<u8>, n: nat) -> Option<(Seq<(Seq<char>, FieldV)>, Seq<u8>)>
    decreases n,
{
    if n == 0 {
        Some((Seq::empty(), b))
    } else {
        match dec_str(b) {
            Some((k, b1)) => match dec_field(b1) {
                Some((v, b2)) => match dec_epairs(b2, (n - 1) as nat) {
                    Some((tail, b3)) => Some((seq![(k, v)] + tail, b3)),
                    None => None,
                },
                None => None,
            },
            None => None,
        }
    }
}

/// Every pair of an entry's field list can be stored: names fit their
/// length prefix and values are concrete with bounded payloads.
pub open spec fn epairs_ok(s: Seq<(Seq<char>, FieldV)>) -> bool {
    forall|i: int| 0 <= i < s.len() ==> str_ok((#[trigger] s[i]).0) && field_ok(s[i].1)
        && s[i].1.is_concrete()
}

/// Parsing bytes that begin with the encoding of `s` yields `s` and the
/// trailing bytes.
#[verifier::rlimit(100)]
#[verifier::spinoff_prover]
pub proof fn lemma_dec_enc_epairs(s: Seq<(Seq<char>, FieldV)>, rest: Seq<u8>)
    requires
        epairs_ok(s),
    ensures
        dec_epairs(enc_epairs(s) + rest, s.len() as nat) == Some((s, rest)),
    decreases s.len(),
{
    if s.len() == 0 {
        assert(enc_epairs(s) + rest =~= rest);
    } else {
        let tail_bytes = enc_epairs(s.skip(1)) + rest;
        assert(enc_epairs(s) + rest =~= enc_str(s[0].0) + (enc_field(s[0].1) + tail_bytes));
        lemma_dec_enc_str(s[0].0, enc_field(s[0].1) + tail_bytes);
        lemma_dec_enc_field(s[0].1, tail_bytes);
        assert(epairs_ok(s.skip(1))) by {
            assert forall|i: int| 0 <= i < s.skip(1).len() implies str_ok(
                (#[trigger] s.skip(1)[i]).0,
            ) && field_ok(s.skip(1)[i].1) && s.skip(1)[i].1.is_concrete() by {
                assert(s.skip(1)[i] == s[i + 1]);
            }
        }
        lemma_dec_enc_epairs(s.skip(1), rest);
        assert(seq![(s[0].0, s[0].1)] + s.skip(1) =~= s);
    }
}

/// An entry is its primary key, its field count and fields, then its
/// write timestamp.
#[verifier::opaque]
pub open spec fn enc_entry(e: EntryV) -> Seq<u8> {
    enc_field(e.primary) + enc_u64(e.fields.len() as u64) + enc_epairs(e.fields) + enc_opt_u64(
        e.last,
    )
}

/// Parses one entry.
#[verifier::opaque]
pub open spec fn dec_entry(b: Seq<u8>) -> Option<(EntryV, Seq<u8>)> {
    match dec_field(b) {
        Some((primary, b1)) => match dec_u64(b1) {
            Some((n, b2)) => match dec_epairs(b2, n as nat) {
                Some((fields, b3)) => match dec_opt_u64(b3) {
                    Some((last, b4)) => Some((EntryV { primary, fields, last }, b4)),
                    None => None,
                },
                None => None,
            },
            None => None,
        },
        None => None,
    }
}

/// The entry's parts all fit their length prefixes.
pub open spec fn entry_bounded(e: EntryV) -> bool {
    &&& field_ok(e.primary)
    &&& e.fields.len() < 0x1_0000_0000_0000_0000
    &&& epairs_ok(e.fields)
}

/// Parsing bytes that begin with the encoding of a well-formed entry
/// yields it and the trailing bytes.
#[verifier::rlimit(100)]
pub proof fn lemma_dec_enc_entry(e: EntryV, rest: Seq<u8>)
    requires
        entry_bounded(e),
        e.primary.is_concrete(),
    ensures
        dec_entry(enc_entry(e) + rest) == Some((e, rest)),
{
    reveal(enc_entry);
    reveal(dec_entry);
    let n = e.fields.len() as u64;
    let b3 = enc_opt_u64(e.last) + rest;
    let b2 = enc_epairs(e.fields) + b3;
    let b1 = enc_u64(n) + b2;
    assert(enc_entry(e) + rest =~= enc_field(e.primary) + b1);
    lemma_dec_enc_field(e.primary, b1);
    lemma_dec_enc_u64(n, b2);
    lemma_dec_enc_epairs(e.fields, b3);
    lemma_dec_enc_opt_u64(e.last, rest);
    assert(dec_entry(enc_entry(e) + rest) == Some((EntryV { ..e }, rest)));
    assert((EntryV { ..e }) =~= e);
}

/// A schema's field list is stored pair by pair, name then requirement.
pub open spec fn enc_spairs(s: Seq<(Seq<char>, FieldRequirement)>) -> Seq<u8>
    decreases s.len(),
{
    if s.len() == 0 {
        Seq::empty()
    } else {
        enc_str(s[0].0) + enc_req(s[0].1) + enc_spairs(s.skip(1))
    }
}

/// Parses `n` name/requirement pairs.
pub open spec fn dec_spairs(b: Seq<u8>, n: nat) -> Option<
    (Seq<(Seq<char>, FieldRequirement)>, Seq<u8>),
>
    decreases n,
{
    if n == 0 {
        Some((Seq::empty(), b))
    } else {
        match dec_str(b) {
            Some((k, b1)) => match dec_req(b1) {
                Some((v, b2)) => match dec_spairs(b2, (n - 1) as nat) {
                    Some((tail, b3)) => Some((seq![(k, v)] + tail, b3)),
                    None => None,
                },
                None => None,
            },
            None => None,
        }
    }
}

/// Every declared field can be stored: names fit their length prefix and
/// declared types are concrete.
pub open spec fn spairs_ok(s: Seq<(Seq<char>, FieldRequirement)>) -> bool {
    forall|i: int| 0 <= i < s.len() ==> str_ok((#[trigger] s[i]).0)
        && s[i].1.spec_field_type() != FieldType::Absent
}

/// Parsing bytes that begin with the encoding of `s` yields `s` and the
/// trailing bytes.
#[verifier::rlimit(100)]
pub proof fn lemma_dec_enc_spairs(s: Seq<(Seq<char>, FieldRequirement)>, rest: Seq<u8>)
    requires
        spairs_ok(s),
    ensures
        dec_spairs(enc_spairs(s) + rest, s.len() as nat) == Some((s, rest)),
    decreases s.len(),
{
    if s.len() == 0 {
        assert(enc_spairs(s) + rest =~= rest);
    } else {
        let tail_bytes = enc_spairs(s.skip(1)) + rest;
        assert(enc_spairs(s) + rest =~= enc_str(s[0].0) + (enc_req(s[0].1) + tail_bytes));
        lemma_dec_enc_str(s[0].0, enc_req(s[0].1) + tail_bytes);
        lemma_dec_enc_req(s[0].1, tail_bytes);
        assert(spairs_ok(s.skip(1))) by {
            assert forall|i: int| 0 <= i < s.skip(1).len() implies str_ok(
                (#[trigger] s.skip(1)[i]).0,
            ) && s.skip(1)[i].1.spec_field_type() != FieldType::Absent by {
                assert(s.skip(1)[i] == s[i + 1]);
            }
        }
        lemma_dec_enc_spairs(s.skip(1), rest);
        assert(seq![(s[0].0, s[0].1)] + s.skip(1) =~= s);
    }
}

/// A table's entries are stored one after the other.
pub open spec fn enc_entries(s: Seq<EntryV>) -> Seq<u8>
    decreases s.len(),
{
    if s.len() == 0 {
        Seq::empty()
    } else {
        enc_entry(s[0]) + enc_entries(s.skip(1))
    }
}

/// Parses `n` entries.
pub open spec fn dec_entries(b: Seq<u8>, n: nat) -> Option<(Seq<EntryV>, Seq<u8>)>
    decreases n,
{
    if n == 0 {
        Some((Seq::empty(), b))
    } else {
        match dec_entry(b) {
            Some((e, b1)) => match dec_entries(b1, (n - 1) as nat) {
                Some((tail, b2)) => Some((seq![e] + tail, b2)),
                None => None,
            },
            None => None,
        }
    }
}

/// Every entry of the list can be stored.
pub open spec fn entries_ok(s: Seq<EntryV>) -> bool {
    forall|i: int| 0 <= i < s.len() ==> entry_bounded(#[trigger] s[i])
        && s[i].primary.is_concrete()
}

/// Parsing bytes that begin with the encoding of `s` yields `s` and the
/// trailing bytes.
#[verifier::rlimit(50)]
pub proof fn lemma_dec_enc_entries(s: Seq<EntryV>, rest: Seq<u8>)
    requires
        entries_ok(s),
    ensures
        dec_entries(enc_entries(s) + rest, s.len() as nat) == Some((s, rest)),
    decreases s.len(),
{
    if s.len() == 0 {
        assert(enc_entries(s) + rest =~= rest);
    } else {
        let tail_bytes = enc_entries(s.skip(1)) + rest;
        assert(enc_entries(s) + rest =~= enc_entry(s[0]) + tail_bytes);
        lemma_dec_enc_entry(s[0], tail_bytes);
        assert(entries_ok(s.skip(1))) by {
            assert forall|i: int| 0 <= i < s.skip(1).len() implies entry_bounded(
                #[trigger] s.skip(1)[i],
            ) && s.skip(1)[i].primary.is_concrete() by {
                assert(s.skip(1)[i] == s[i + 1]);
            }
        }
        lemma_dec_enc_entries(s.skip(1), rest);
        assert(seq![s[0]] + s.skip(1) =~= s);
    }
}

/// A table is its name, its primary key type, its declared fields, its
/// entries, then its expiration window.
#[verifier::opaque]
pub open spec fn enc_table(t: TableV) -> Seq<u8> {
    enc_str(t.name) + enc_field_type(t.primary_type) + enc_u64(t.fields.len() as u64)
        + enc_spairs(t.fields) + enc_u64(t.entries.len() as u64) + enc_entries(t.entries)
        + enc_opt_u64(t.expire)
}

/// Parses one table.
#[verifier::opaque]
pub open spec fn dec_table(b: Seq<u8>) -> Option<(TableV, Seq<u8>)> {
    match dec_str(b) {
        Some((name, b1)) => match dec_field_type(b1) {
            Some((primary_type, b2)) => match dec_u64(b2) {
                Some((nf, b3)) => match dec_spairs(b3, nf as nat) {
                    Some((fields, b4)) => match dec_u64(b4) {
                        Some((ne, b5)) => match dec_entries(b5, ne as nat) {
                            Some((entries, b6)) => match dec_opt_u64(b6) {
                                Some((expire, b7)) => Some(
                                    (TableV { name, primary_type, fields, entries, expire }, b7),
                                ),
                                None => None,
                            },
                            None => None,
                        },
                        None => None,
                    },
                    None => None,
                },
                None => None,
            },
            None => None,
        },
        None => None,
    }
}

/// The table's parts all fit their length prefixes.
pub open spec fn table_bounded(t: TableV) -> bool {
    &&& str_ok(t.name)
    &&& t.fields.len() < 0x1_0000_0000_0000_0000
    &&& spairs_ok(t.fields)
    &&& t.entries.len() < 0x1_0000_0000_0000_0000
    &&& entries_ok(t.entries)
}

/// Parsing bytes that begin with the encoding of a bounded table with a
/// concrete primary key type yields it and the trailing bytes.
#[verifier::rlimit(50)]
pub proof fn lemma_dec_enc_table(t: TableV, rest: Seq<u8>)
    requires
        table_bounded(t),
        t.primary_type != FieldType::Absent,
    ensures
        dec_table(enc_table(t) + rest) == Some((t, rest)),
{
    reveal(enc_table);
    reveal(dec_table);
    let nf = t.fields.len() as u64;
    let ne = t.entries.len() as u64;
    let b6 = enc_opt_u64(t.expire) + rest;
    let b5 = enc_entries(t.entries) + b6;
    let b4 = enc_u64(ne) + b5;
    let b3 = enc_spairs(t.fields) + b4;
    let b2 = enc_u64(nf) + b3;
    let b1 = enc_field_type(t.primary_type) + b2;
    assert(enc_table(t) + rest =~= enc_str(t.name) + b1);
    lemma_dec_enc_str(t.name, b1);
    lemma_dec_enc_field_type(t.primary_type, b2);
    lemma_dec_enc_u64(nf, b3);
    lemma_dec_enc_spairs(t.fields, b4);
    lemma_dec_enc_u64(ne, b5);
    lemma_dec_enc_entries(t.entries, b6);
    lemma_dec_enc_opt_u64(t.expire, rest);
    assert(dec_table(enc_table(t) + rest) == Some((TableV { ..t }, rest)));
    assert((TableV { ..t }) =~= t);
}

/// A database's tables are stored one after the other.
pub open spec fn enc_tables(s: Seq<TableV>) -> Seq<u8>
    decreases s.len(),
{
    if s.len() == 0 {
        Seq::empty()
    } else {
        enc_table(s[0]) + enc_tables(s.skip(1))
    }
}

/// Parses `n` tables.
pub open spec fn dec_tables(b: Seq<u8>, n: nat) -> Option<(Seq<TableV>, Seq<u8>)>
    decreases n,
{
    if n == 0 {
        Some((Seq::empty(), b))
    } else {
        match dec_table(b) {
            Some((t, b1)) => match dec_tables(b1, (n - 1) as nat) {
                Some((tail, b2)) => Some((seq![t] + tail, b2)),
                None => None,
            },
            None => None,
        }
    }
}

/// Every table of the list can be stored.
pub open spec fn tables_ok(s: Seq<TableV>) -> bool {
    forall|i: int| 0 <= i < s.len() ==> table_bounded(#[trigger] s[i]) && s[i].primary_type
        != FieldType::Absent
}

/// Parsing bytes that begin with the encoding of `s` yields `s` and the
/// trailing bytes.
#[verifier::rlimit(50)]
#[verifier::rlimit(100)]
pub proof fn lemma_dec_enc_tables(s: Seq<TableV>, rest: Seq<u8>)
    requires
        tables_ok(s),
    ensures
        dec_tables(enc_tables(s) + rest, s.len() as nat) == Some((s, rest)),
    decreases s.len(),
{
    if s.len() == 0 {
        assert(enc_tables(s) + rest =~= rest);
    } else {
        let tail_bytes = enc_tables(s.skip(1)) + rest;
        assert(enc_tables(s) + rest =~= enc_table(s[0]) + tail_bytes);
        lemma_dec_enc_table(s[0], tail_bytes);
        assert(tables_ok(s.skip(1))) by {
            assert forall|i: int| 0 <= i < s.skip(1).len() implies table_bounded(
                #[trigger] s.skip(1)[i],
            ) && s.skip(1)[i].primary_type != FieldType::Absent by {
                assert(s.skip(1)[i] == s[i + 1]);
            }
        }
        lemma_dec_enc_tables(s.skip(1), rest);
        assert(seq![s[0]] + s.skip(1) =~= s);
    }
}

/// A database is its maintenance interval, then its table count and
/// tables.
pub open spec fn enc_db(d: DatabaseV) -> Seq<u8> {
    enc_opt_u64(d.sync_interval) + enc_u64(d.tables.len() as u64) + enc_tables(d.tables)
}

/// Parses one database.
pub open spec fn dec_db(b: Seq<u8>) -> Option<(DatabaseV, Seq<u8>)> {
    match dec_opt_u64(b) {
        Some((sync_interval, b1)) => match dec_u64(b1) {
            Some((n, b2)) => match dec_tables(b2, n as nat) {
                Some((tables, b3)) => Some((DatabaseV { sync_interval, tables }, b3)),
                None => None,
            },
            None => None,
        },
        None => None,
    }
}

/// The database's parts all fit their length prefixes: true of every
/// database a machine can hold.
pub open spec fn db_bounded(d: DatabaseV) -> bool {
    &&& d.tables.len() < 0x1_0000_0000_0000_0000
    &&& tables_ok(d.tables)
}

/// The round trip of the persistence encoding: parsing the bytes of any
/// bounded database whose tables have concrete primary key types yields
/// that database exactly, with the trailing bytes untouched.
#[verifier::rlimit(50)]
pub proof fn lemma_dec_enc_db(d: DatabaseV, rest: Seq<u8>)
    requires
        db_bounded(d),
    ensures
        dec_db(enc_db(d) + rest) == Some((d, rest)),
{
    let n = d.tables.len() as u64;
    let b2 = enc_tables(d.tables) + rest;
    let b1 = enc_u64(n) + b2;
    assert(enc_db(d) + rest =~= enc_opt_u64(d.sync_interval) + b1);
    lemma_dec_enc_opt_u64(d.sync_interval, b1);
    lemma_dec_enc_u64(n, b2);
    lemma_dec_enc_tables(d.tables, rest);
    assert(dec_db(enc_db(d) + rest) == Some((DatabaseV { ..d }, rest)));
    assert((DatabaseV { ..d }) =~= d);
}

/// Appending one pair extends the field-list encoding by that pair's
/// encoding.
proof fn lemma_enc_epairs_push(s: Seq<(Seq<char>, FieldV)>, p: (Seq<char>, FieldV))
    ensures
        enc_epairs(s.push(p)) == enc_epairs(s) + enc_str(p.0) + enc_field(p.1),
    decreases s.len(),
{
    reveal_with_fuel(enc_epairs, 2);
    if s.len() == 0 {
        assert(s.push(p)[0] == p);
        assert(s.push(p).skip(1) =~= Seq::<(Seq<char>, FieldV)>::empty());
        assert(enc_epairs(s.push(p)) =~= enc_epairs(s) + enc_str(p.0) + enc_field(p.1));
    } else {
        assert(s.push(p)[0] == s[0]);
        assert(s.push(p).skip(1) =~= s.skip(1).push(p));
        lemma_enc_epairs_push(s.skip(1), p);
        assert(enc_epairs(s.push(p)) =~= enc_epairs(s) + enc_str(p.0) + enc_field(p.1));
    }
}

/// Appending one pair extends the schema encoding by that pair's
/// encoding.
proof fn lemma_enc_spairs_push(s: Seq<(Seq<char>, FieldRequirement)>, p: (Seq<char>, FieldRequirement))
    ensures
        enc_spairs(s.push(p)) == enc_spairs(s) + enc_str(p.0) + enc_req(p.1),
    decreases s.len(),
{
    reveal_with_fuel(enc_spairs, 2);
    if s.len() == 0 {
        assert(s.push(p)[0] == p);
        assert(s.push(p).skip(1) =~= Seq::<(Seq<char>, FieldRequirement)>::empty());
        assert(enc_spairs(s.push(p)) =~= enc_spairs(s) + enc_str(p.0) + enc_req(p.1));
    } else {
        assert(s.push(p)[0] == s[0]);
        assert(s.push(p).skip(1) =~= s.skip(1).push(p));
        lemma_enc_spairs_push(s.skip(1), p);
        assert(enc_spairs(s.push(p)) =~= enc_spairs(s) + enc_str(p.0) + enc_req(p.1));
    }
}

/// Appending one entry extends the entry-list encoding by that entry's
/// encoding.
proof fn lemma_enc_entries_push(s: Seq<EntryV>, e: EntryV)
    ensures
        enc_entries(s.push(e)) == enc_entries(s) + enc_entry(e),
    decreases s.len(),
{
    reveal_with_fuel(enc_entries, 2);
    if s.len() == 0 {
        assert(s.push(e)[0] == e);
        assert(s.push(e).skip(1) =~= Seq::<EntryV>::empty());
        assert(enc_entries(s.push(e)) =~= enc_entries(s) + enc_entry(e));
    } else {
        assert(s.push(e)[0] == s[0]);
        assert(s.push(e).skip(1) =~= s.skip(1).push(e));
        lemma_enc_entries_push(s.skip(1), e);
        assert(enc_entries(s.push(e)) =~= enc_entries(s) + enc_entry(e));
    }
}

/// Appending one table extends the table-list encoding by that table's
/// encoding.
proof fn lemma_enc_tables_push(s: Seq<TableV>, t: TableV)
    ensures
        enc_tables(s.push(t)) == enc_tables(s) + enc_table(t),
    decreases s.len(),
{
    reveal_with_fuel(enc_tables, 2);
    if s.len() == 0 {
        assert(s.push(t)[0] == t);
        assert(s.push(t).skip(1) =~= Seq::<TableV>::empty());
        assert(enc_tables(s.push(t)) =~= enc_tables(s) + enc_table(t));
    } else {
        assert(s.push(t)[0] == s[0]);
        assert(s.push(t).skip(1) =~= s.skip(1).push(t));
        lemma_enc_tables_push(s.skip(1), t);
        assert(enc_tables(s.push(t)) =~= enc_tables(s) + enc_table(t));
    }
}

/// Appends the little-endian bytes of `x`.
fn encode_u64(x: u64, out: &mut Vec<u8>)
    ensures
        final(out)@ == old(out)@ + enc_u64(x),
{
    out.push((x & 0xff) as u8);
    out.push(((x >> 8) & 0xff) as u8);
    out.push(((x >> 16) & 0xff) as u8);
    out.push(((x >> 24) & 0xff) as u8);
    out.push(((x >> 32) & 0xff) as u8);
    out.push(((x >> 40) & 0xff) as u8);
    out.push(((x >> 48) & 0xff) as u8);
    out.push(((x >> 56) & 0xff) as u8);
    proof {
        assert(final(out)@ =~= old(out)@ + enc_u64(x));
    }
}

/// Appends the little-endian bytes of `x`.
fn encode_u32(x: u32, out: &mut Vec<u8>)
    ensures
        final(out)@ == old(out)@ + enc_u32(x),
{
    out.push((x & 0xff) as u8);
    out.push(((x >> 8) & 0xff) as u8);
    out.push(((x >> 16) & 0xff) as u8);
    out.push(((x >> 24) & 0xff) as u8);
    proof {
        assert(final(out)@ =~= old(out)@ + enc_u32(x));
    }
}

/// Appends an optional value: a presence byte, then the value if
/// present.
fn encode_opt_u64(x: &Option<u64>, out: &mut Vec<u8>)
    ensures
        final(out)@ == old(out)@ + enc_opt_u64(*x),
{
    match x {
        None => {
            out.push(0u8);
            proof {
                assert(final(out)@ =~= old(out)@ + enc_opt_u64(*x));
            }
        },
        Some(v) => {
            out.push(1u8);
            encode_u64(*v, out);
            proof {
                assert(final(out)@ =~= old(out)@ + enc_opt_u64(*x));
            }
        },
    }
}

/// Appends a length-prefixed UTF-8 string.
fn encode_str(s: &String, out: &mut Vec<u8>)
    ensures
        final(out)@ == old(out)@ + enc_str(s@),
{
    let bytes = s.as_str().as_bytes();
    encode_u64(bytes.len() as u64, out);
    out.extend_from_slice(bytes);
    proof {
        reveal(enc_str);
        assert(final(out)@ =~= old(out)@ + enc_str(s@));
    }
}

/// Appends a value: its type's tag byte, then its payload.
fn encode_field(f: &Field, out: &mut Vec<u8>)
    ensures
        final(out)@ == old(out)@ + enc_field(f@),
{
    match f {
        Field::String(s) => {
            out.push(0u8);
            encode_str(s, out);
        },
        Field::I64(x) => {
            out.push(1u8);
            encode_u64(*x as u64, out);
        },
        Field::I32(x) => {
            out.push(2u8);
            encode_u32(*x as u32, out);
        },
        Field::U64(x) => {
            out.push(3u8);
            encode_u64(*x, out);
        },
        Field::U32(x) => {
            out.push(4u8);
            encode_u32(*x, out);
        },
        Field::Date(x) => {
            out.push(5u8);
            encode_u64(*x, out);
        },
        Field::NotImplemented => {
            out.push(6u8);
        },
    }
    proof {
        reveal(enc_field);
        assert(final(out)@ =~= old(out)@ + enc_field(f@));
    }
}

/// Appends a type's tag byte.
fn encode_field_type(t: FieldType, out: &mut Vec<u8>)
    ensures
        final(out)@ == old(out)@ + enc_field_type(t),
{
    let tag: u8 = match t {
        FieldType::String => 0u8,
        FieldType::I64 => 1u8,
        FieldType::I32 => 2u8,
        FieldType::U64 => 3u8,
        FieldType::U32 => 4u8,
        FieldType::Date => 5u8,
        FieldType::Absent => 6u8,
    };
    out.push(tag);
    proof {
        assert(final(out)@ =~= old(out)@ + enc_field_type(t));
    }
}

/// Appends a requirement: a presence byte, then the declared type.
fn encode_req(r: &FieldRequirement, out: &mut Vec<u8>)
    ensures
        final(out)@ == old(out)@ + enc_req(*r),
{
    match r {
        FieldRequirement::Required(t) => {
            out.push(0u8);
            encode_field_type(*t, out);
        },
        FieldRequirement::Optional(t) => {
            out.push(1u8);
            encode_field_type(*t, out);
        },
    }
    proof {
        assert(final(out)@ =~= old(out)@ + enc_req(*r));
    }
}

/// Appends an entry: its primary key, its field count and fields, then
/// its write timestamp.
fn encode_entry(e: &Entry, out: &mut Vec<u8>)
    ensures
        final(out)@ == old(out)@ + enc_entry(e@),
{
    proof {
        reveal(enc_entry);
    }
    encode_field(&e.primary_field, out);
    encode_u64(e.fields.len() as u64, out);
    let ghost pairs = pairs_view(e.fields@);
    let ghost base = out@;
    let mut i: usize = 0;
    while i < e.fields.len()
        invariant
            i <= e.fields.len(),
            pairs == pairs_view(e.fields@),
            out@ == base + enc_epairs(pairs.take(i as int)),
        decreases e.fields.len() - i,
    {
        let ghost prefix = pairs.take(i as int);
        encode_str(&e.fields[i].0, out);
        encode_field(&e.fields[i].1, out);
        proof {
            assert(prefix.push(pairs[i as int]) =~= pairs.take(i + 1));
            lemma_enc_epairs_push(prefix, pairs[i as int]);
            assert(out@ =~= base + enc_epairs(pairs.take(i + 1)));
        }
        i += 1;
    }
    proof {
        assert(pairs.take(pairs.len() as int) =~= pairs);
    }
    encode_opt_u64(&e.last_timestamp, out);
    proof {
        assert(final(out)@ =~= old(out)@ + enc_entry(e@));
    }
}

/// Appends a table: its name, primary key type, declared fields,
/// entries, then its expiration window.
fn encode_table(t: &Table, out: &mut Vec<u8>)
    ensures
        final(out)@ == old(out)@ + enc_table(t@),
{
    proof {
        reveal(enc_table);
    }
    encode_str(t.get_name(), out);
    encode_field_type(t.get_primary_type(), out);
    let fields = t.fields_ref();
    encode_u64(fields.len() as u64, out);
    let ghost spairs = schema_view(fields@);
    let ghost base = out@;
    let mut i: usize = 0;
    while i < fields.len()
        invariant
            i <= fields.len(),
            spairs == schema_view(fields@),
            out@ == base + enc_spairs(spairs.take(i as int)),
        decreases fields.len() - i,
    {
        let ghost prefix = spairs.take(i as int);
        encode_str(&fields[i].0, out);
        encode_req(&fields[i].1, out);
        proof {
            assert(prefix.push(spairs[i as int]) =~= spairs.take(i + 1));
            lemma_enc_spairs_push(prefix, spairs[i as int]);
            assert(out@ =~= base + enc_spairs(spairs.take(i + 1)));
        }
        i += 1;
    }
    proof {
        assert(spairs.take(spairs.len() as int) =~= spairs);
    }
    let entries = t.entries_ref();
    encode_u64(entries.len() as u64, out);
    let ghost evs = entries_view(entries@);
    let ghost base2 = out@;
    let mut k: usize = 0;
    while k < entries.len()
        invariant
            k <= entries.len(),
            evs == entries_view(entries@),
            out@ == base2 + enc_entries(evs.take(k as int)),
        decreases entries.len() - k,
    {
        let ghost prefix = evs.take(k as int);
        encode_entry(&entries[k], out);
        proof {
            assert(prefix.push(evs[k as int]) =~= evs.take(k + 1));
            lemma_enc_entries_push(prefix, evs[k as int]);
            assert(out@ =~= base2 + enc_entries(evs.take(k + 1)));
        }
        k += 1;
    }
    proof {
        assert(evs.take(evs.len() as int) =~= evs);
    }
    encode_opt_u64(&t.get_expiration(), out);
    proof {
        assert(final(out)@ =~= old(out)@ + enc_table(t@));
    }
}

/// Encodes the whole database: its maintenance interval, then its table
/// count and tables.
pub fn encode_db(d: &Database) -> (r: Vec<u8>)
    ensures
        r@ == enc_db(d@),
{
    let mut out: Vec<u8> = Vec::new();
    encode_opt_u64(&d.get_sync_interval(), &mut out);
    let tables = d.tables_ref();
    encode_u64(tables.len() as u64, &mut out);
    let ghost tvs = tables_view(tables@);
    let ghost base = out@;
    let mut i: usize = 0;
    while i < tables.len()
        invariant
            i <= tables.len(),
            tvs == tables_view(tables@),
            out@ == base + enc_tables(tvs.take(i as int)),
        decreases tables.len() - i,
    {
        let ghost prefix = tvs.take(i as int);
        encode_table(&tables[i], &mut out);
        proof {
            assert(prefix.push(tvs[i as int]) =~= tvs.take(i + 1));
            lemma_enc_tables_push(prefix, tvs[i as int]);
            assert(out@ =~= base + enc_tables(tvs.take(i + 1)));
        }
        i += 1;
    }
    proof {
        assert(tvs.take(tvs.len() as int) =~= tvs);
        assert(out@ =~= enc_db(d@));
    }
    out
}

/// Relies on `String::from_utf8` of std: it succeeds exactly on valid
/// UTF-8 input, and the returned string's UTF-8 form is the input.
#[verifier::external_body]
fn string_from_utf8(v: Vec<u8>) -> (r: Option<String>)
    ensures
        r is Some <==> valid_utf8(v@),
        r matches Some(s) ==> encode_utf8(s@) == v@,
{
    String::from_utf8(v).ok()
}

/// `o` with `front` prepended to its parsed list, if it parsed.
pub open spec fn dec_prepend<A>(o: Option<(Seq<A>, Seq<u8>)>, front: Seq<A>) -> Option<
    (Seq<A>, Seq<u8>),
> {
    match o {
        Some((tail, rem)) => Some((front + tail, rem)),
        None => None,
    }
}

/// Reads eight little-endian bytes at `pos`.
fn decode_u64(buf: &Vec<u8>, pos: usize) -> (r: Option<(u64, usize)>)
    requires
        pos <= buf@.len(),
    ensures
        r matches Some(p) ==> pos <= p.1 <= buf@.len() && dec_u64(buf@.skip(pos as int))
            == Some((p.0, buf@.skip(p.1 as int))),
        r is None ==> dec_u64(buf@.skip(pos as int)) is None,
{
    if buf.len() - pos >= 8 {
        let x = (buf[pos] as u64) | ((buf[pos + 1] as u64) << 8) | ((buf[pos + 2] as u64) << 16)
            | ((buf[pos + 3] as u64) << 24) | ((buf[pos + 4] as u64) << 32) | ((buf[pos
            + 5] as u64) << 40) | ((buf[pos + 6] as u64) << 48) | ((buf[pos + 7] as u64) << 56);
        proof {
            let b = buf@.skip(pos as int);
            assert(b.skip(8) =~= buf@.skip(pos + 8));
            assert(b[0] == buf@[pos as int] && b[1] == buf@[pos + 1] && b[2] == buf@[pos + 2]
                && b[3] == buf@[pos + 3] && b[4] == buf@[pos + 4] && b[5] == buf@[pos + 5]
                && b[6] == buf@[pos + 6] && b[7] == buf@[pos + 7]);
        }
        Some((x, pos + 8))
    } else {
        None
    }
}

/// Reads four little-endian bytes at `pos`.
fn decode_u32(buf: &Vec<u8>, pos: usize) -> (r: Option<(u32, usize)>)
    requires
        pos <= buf@.len(),
    ensures
        r matches Some(p) ==> pos <= p.1 <= buf@.len() && dec_u32(buf@.skip(pos as int))
            == Some((p.0, buf@.skip(p.1 as int))),
        r is None ==> dec_u32(buf@.skip(pos as int)) is None,
{
    if buf.len() - pos >= 4 {
        let x = (buf[pos] as u32) | ((buf[pos + 1] as u32) << 8) | ((buf[pos + 2] as u32) << 16)
            | ((buf[pos + 3] as u32) << 24);
        proof {
            let b = buf@.skip(pos as int);
            assert(b.skip(4) =~= buf@.skip(pos + 4));
            assert(b[0] == buf@[pos as int] && b[1] == buf@[pos + 1] && b[2] == buf@[pos + 2]
                && b[3] == buf@[pos + 3]);
        }
        Some((x, pos + 4))
    } else {
        None
    }
}

/// Reads an optional value at `pos`.
fn decode_opt_u64(buf: &Vec<u8>, pos: usize) -> (r: Option<(Option<u64>, usize)>)
    requires
        pos <= buf@.len(),
    ensures
        r matches Some(p) ==> pos <= p.1 <= buf@.len() && dec_opt_u64(buf@.skip(pos as int))
            == Some((p.0, buf@.skip(p.1 as int))),
        r is None ==> dec_opt_u64(buf@.skip(pos as int)) is None,
{
    if pos >= buf.len() {
        return None;
    }
    let tag = buf[pos];
    proof {
        assert(buf@.skip(pos as int)[0] == buf@[pos as int]);
        assert(buf@.skip(pos as int).skip(1) =~= buf@.skip(pos + 1));
    }
    if tag == 0u8 {
        Some((None, pos + 1))
    } else if tag == 1u8 {
        match decode_u64(buf, pos + 1) {
            Some((v, end)) => Some((Some(v), end)),
            None => None,
        }
    } else {
        None
    }
}

/// Reads a length-prefixed UTF-8 string at `pos`.
fn decode_str(buf: &Vec<u8>, pos: usize) -> (r: Option<(String, usize)>)
    requires
        pos <= buf@.len(),
    ensures
        r matches Some(p) ==> pos <= p.1 <= buf@.len() && dec_str(buf@.skip(pos as int))
            == Some((p.0@, buf@.skip(p.1 as int))),
        r is None ==> dec_str(buf@.skip(pos as int)) is None,
{
    proof {
        reveal(dec_str);
    }
    let (n, p1) = match decode_u64(buf, pos) {
        Some(p) => p,
        None => {
            return None;
        },
    };
    if n > (buf.len() - p1) as u64 {
        proof {
            assert(buf@.skip(p1 as int).len() == buf@.len() - p1);
        }
        return None;
    }
    let m = n as usize;
    let octets = vstd::slice::slice_to_vec(
        vstd::slice::slice_subrange(buf.as_slice(), p1, p1 + m),
    );
    proof {
        assert(octets@ =~= buf@.skip(p1 as int).take(n as int));
    }
    match string_from_utf8(octets) {
        Some(s) => {
            proof {
                encode_utf8_decode_utf8(s@);
                assert(buf@.skip(p1 as int).skip(n as int) =~= buf@.skip(p1 + m));
            }
            Some((s, p1 + m))
        },
        None => None,
    }
}

/// Reads a concrete type tag at `pos`.
fn decode_field_type(buf: &Vec<u8>, pos: usize) -> (r: Option<(FieldType, usize)>)
    requires
        pos <= buf@.len(),
    ensures
        r matches Some(p) ==> pos <= p.1 <= buf@.len() && dec_field_type(buf@.skip(pos as int))
            == Some((p.0, buf@.skip(p.1 as int))),
        r is None ==> dec_field_type(buf@.skip(pos as int)) is None,
{
    if pos >= buf.len() {
        return None;
    }
    let tag = buf[pos];
    proof {
        assert(buf@.skip(pos as int)[0] == buf@[pos as int]);
        assert(buf@.skip(pos as int).skip(1) =~= buf@.skip(pos + 1));
    }
    let t = match tag {
        0u8 => FieldType::String,
        1u8 => FieldType::I64,
        2u8 => FieldType::I32,
        3u8 => FieldType::U64,
        4u8 => FieldType::U32,
        5u8 => FieldType::Date,
        _ => {
            return None;
        },
    };
    Some((t, pos + 1))
}

/// Reads a field requirement at `pos`.
fn decode_req(buf: &Vec<u8>, pos: usize) -> (r: Option<(FieldRequirement, usize)>)
    requires
        pos <= buf@.len(),
    ensures
        r matches Some(p) ==> pos <= p.1 <= buf@.len() && dec_req(buf@.skip(pos as int))
            == Some((p.0, buf@.skip(p.1 as int))),
        r is None ==> dec_req(buf@.skip(pos as int)) is None,
{
    if pos >= buf.len() {
        return None;
    }
    let tag = buf[pos];
    proof {
        assert(buf@.skip(pos as int)[0] == buf@[pos as int]);
        assert(buf@.skip(pos as int).skip(1) =~= buf@.skip(pos + 1));
    }
    if tag == 0u8 {
        match decode_field_type(buf, pos + 1) {
            Some((t, end)) => Some((FieldRequirement::Required(t), end)),
            None => None,
        }
    } else if tag == 1u8 {
        match decode_field_type(buf, pos + 1) {
            Some((t, end)) => Some((FieldRequirement::Optional(t), end)),
            None => None,
        }
    } else {
        None
    }
}

/// Reads a concrete value at `pos`.
fn decode_field(buf: &Vec<u8>, pos: usize) -> (r: Option<(Field, usize)>)
    requires
        pos <= buf@.len(),
    ensures
        r matches Some(p) ==> pos <= p.1 <= buf@.len() && dec_field(buf@.skip(pos as int))
            == Some((p.0@, buf@.skip(p.1 as int))),
        r is None ==> dec_field(buf@.skip(pos as int)) is None,
{
    proof {
        reveal(dec_field);
    }
    if pos >= buf.len() {
        return None;
    }
    let tag = buf[pos];
    proof {
        assert(buf@.skip(pos as int)[0] == buf@[pos as int]);
        assert(buf@.skip(pos as int).skip(1) =~= buf@.skip(pos + 1));
    }
    if tag == 0u8 {
        match decode_str(buf, pos + 1) {
            Some((v, end)) => Some((Field::String(v), end)),
            None => None,
        }
    } else if tag == 1u8 {
        match decode_u64(buf, pos + 1) {
            Some((v, end)) => {
                proof {
                    assert((v as i64) as u64 == v) by (bit_vector);
                }
                Some((Field::I64(v as i64), end))
            },
            None => None,
        }
    } else if tag == 2u8 {
        match decode_u32(buf, pos + 1) {
            Some((v, end)) => {
                proof {
                    assert((v as i32) as u32 == v) by (bit_vector);
                }
                Some((Field::I32(v as i32), end))
            },
            None => None,
        }
    } else if tag == 3u8 {
        match decode_u64(buf, pos + 1) {
            Some((v, end)) => Some((Field::U64(v), end)),
            None => None,
        }
    } else if tag == 4u8 {
        match decode_u32(buf, pos + 1) {
            Some((v, end)) => Some((Field::U32(v), end)),
            None => None,
        }
    } else if tag == 5u8 {
        match decode_u64(buf, pos + 1) {
            Some((v, end)) => Some((Field::Date(v), end)),
            None => None,
        }
    } else {
        None
    }
}

/// Reads `n` name/value pairs at `pos`.
fn decode_epairs(buf: &Vec<u8>, pos: usize, n: u64) -> (r: Option<(Vec<(String, Field)>, usize)>)
    requires
        pos <= buf@.len(),
    ensures
        r matches Some(p) ==> pos <= p.1 <= buf@.len() && dec_epairs(
            buf@.skip(pos as int),
            n as nat,
        ) == Some((pairs_view(p.0@), buf@.skip(p.1 as int))),
        r is None ==> dec_epairs(buf@.skip(pos as int), n as nat) is None,
{
    let mut out: Vec<(String, Field)> = Vec::new();
    let mut cur: usize = pos;
    let mut k: u64 = 0;
    while k < n
        invariant
            pos <= cur <= buf@.len(),
            k <= n,
            dec_epairs(buf@.skip(pos as int), n as nat) == dec_prepend(
                dec_epairs(buf@.skip(cur as int), (n - k) as nat),
                pairs_view(out@),
            ),
        decreases n - k,
    {
        let ghost front = pairs_view(out@);
        let ghost mid = buf@.skip(cur as int);
        let (key, p1) = match decode_str(buf, cur) {
            Some(p) => p,
            None => {
                return None;
            },
        };
        let (val, p2) = match decode_field(buf, p1) {
            Some(p) => p,
            None => {
                return None;
            },
        };
        out.push((key, val));
        proof {
            let tail_o = dec_epairs(buf@.skip(p2 as int), (n - k - 1) as nat);
            assert(dec_epairs(mid, (n - k) as nat) == dec_prepend(
                tail_o,
                seq![(key@, val@)],
            ));
            assert(pairs_view(out@) =~= front.push((key@, val@)));
            match tail_o {
                Some((tail, rem)) => {
                    assert(front + (seq![(key@, val@)] + tail) =~= pairs_view(out@) + tail);
                },
                None => {},
            }
        }
        cur = p2;
        k += 1;
    }
    proof {
        assert(dec_epairs(buf@.skip(cur as int), 0) == Some(
            (Seq::<(Seq<char>, FieldV)>::empty(), buf@.skip(cur as int)),
        ));
        assert(pairs_view(out@) + Seq::<(Seq<char>, FieldV)>::empty() =~= pairs_view(out@));
    }
    Some((out, cur))
}

/// Reads one entry at `pos`.
fn decode_entry(buf: &Vec<u8>, pos: usize) -> (r: Option<(Entry, usize)>)
    requires
        pos <= buf@.len(),
    ensures
        r matches Some(p) ==> pos <= p.1 <= buf@.len() && dec_entry(buf@.skip(pos as int))
            == Some((p.0@, buf@.skip(p.1 as int))),
        r is None ==> dec_entry(buf@.skip(pos as int)) is None,
{
    proof {
        reveal(dec_entry);
    }
    let (primary, p1) = match decode_field(buf, pos) {
        Some(p) => p,
        None => {
            return None;
        },
    };
    let (n, p2) = match decode_u64(buf, p1) {
        Some(p) => p,
        None => {
            return None;
        },
    };
    let (fields, p3) = match decode_epairs(buf, p2, n) {
        Some(p) => p,
        None => {
            return None;
        },
    };
    let (last, p4) = match decode_opt_u64(buf, p3) {
        Some(p) => p,
        None => {
            return None;
        },
    };
    let e = Entry { primary_field: primary, fields, last_timestamp: last };
    proof {
        let parsed = dec_entry(buf@.skip(pos as int));
        assert(parsed matches Some(q) && q.0 =~= e@ && q.1 == buf@.skip(p4 as int));
    }
    Some((e, p4))
}

/// Reads `n` name/requirement pairs at `pos`.
fn decode_spairs(buf: &Vec<u8>, pos: usize, n: u64) -> (r: Option<
    (Vec<(String, FieldRequirement)>, usize),
>)
    requires
        pos <= buf@.len(),
    ensures
        r matches Some(p) ==> pos <= p.1 <= buf@.len() && dec_spairs(
            buf@.skip(pos as int),
            n as nat,
        ) == Some((schema_view(p.0@), buf@.skip(p.1 as int))),
        r is None ==> dec_spairs(buf@.skip(pos as int), n as nat) is None,
{
    let mut out: Vec<(String, FieldRequirement)> = Vec::new();
    let mut cur: usize = pos;
    let mut k: u64 = 0;
    while k < n
        invariant
            pos <= cur <= buf@.len(),
            k <= n,
            dec_spairs(buf@.skip(pos as int), n as nat) == dec_prepend(
                dec_spairs(buf@.skip(cur as int), (n - k) as nat),
                schema_view(out@),
            ),
        decreases n - k,
    {
        let ghost front = schema_view(out@);
        let ghost mid = buf@.skip(cur as int);
        let (key, p1) = match decode_str(buf, cur) {
            Some(p) => p,
            None => {
                return None;
            },
        };
        let (req, p2) = match decode_req(buf, p1) {
            Some(p) => p,
            None => {
                return None;
            },
        };
        out.push((key, req));
        proof {
            let tail_o = dec_spairs(buf@.skip(p2 as int), (n - k - 1) as nat);
            assert(dec_spairs(mid, (n - k) as nat) == dec_prepend(tail_o, seq![(key@, req)]));
            assert(schema_view(out@) =~= front.push((key@, req)));
            match tail_o {
                Some((tail, rem)) => {
                    assert(front + (seq![(key@, req)] + tail) =~= schema_view(out@) + tail);
                },
                None => {},
            }
        }
        cur = p2;
        k += 1;
    }
    proof {
        assert(dec_spairs(buf@.skip(cur as int), 0) == Some(
            (Seq::<(Seq<char>, FieldRequirement)>::empty(), buf@.skip(cur as int)),
        ));
        assert(schema_view(out@) + Seq::<(Seq<char>, FieldRequirement)>::empty() =~= schema_view(
            out@,
        ));
    }
    Some((out, cur))
}

/// Reads `n` entries at `pos`.
fn decode_entries(buf: &Vec<u8>, pos: usize, n: u64) -> (r: Option<(Vec<Entry>, usize)>)
    requires
        pos <= buf@.len(),
    ensures
        r matches Some(p) ==> pos <= p.1 <= buf@.len() && dec_entries(
            buf@.skip(pos as int),
            n as nat,
        ) == Some((entries_view(p.0@), buf@.skip(p.1 as int))),
        r is None ==> dec_entries(buf@.skip(pos as int), n as nat) is None,
{
    let mut out: Vec<Entry> = Vec::new();
    let mut cur: usize = pos;
    let mut k: u64 = 0;
    while k < n
        invariant
            pos <= cur <= buf@.len(),
            k <= n,
            dec_entries(buf@.skip(pos as int), n as nat) == dec_prepend(
                dec_entries(buf@.skip(cur as int), (n - k) as nat),
                entries_view(out@),
            ),
        decreases n - k,
    {
        let ghost front = entries_view(out@);
        let ghost mid = buf@.skip(cur as int);
        let (e, p1) = match decode_entry(buf, cur) {
            Some(p) => p,
            None => {
                return None;
            },
        };
        out.push(e);
        proof {
            let tail_o = dec_entries(buf@.skip(p1 as int), (n - k - 1) as nat);
            assert(dec_entries(mid, (n - k) as nat) == dec_prepend(tail_o, seq![e@]));
            assert(entries_view(out@) =~= front.push(e@));
            match tail_o {
                Some((tail, rem)) => {
                    assert(front + (seq![e@] + tail) =~= entries_view(out@) + tail);
                },
                None => {},
            }
        }
        cur = p1;
        k += 1;
    }
    proof {
        assert(dec_entries(buf@.skip(cur as int), 0) == Some(
            (Seq::<EntryV>::empty(), buf@.skip(cur as int)),
        ));
        assert(entries_view(out@) + Seq::<EntryV>::empty() =~= entries_view(out@));
    }
    Some((out, cur))
}

/// Reads one table at `pos`.
fn decode_table(buf: &Vec<u8>, pos: usize) -> (r: Option<(Table, usize)>)
    requires
        pos <= buf@.len(),
    ensures
        r matches Some(p) ==> pos <= p.1 <= buf@.len() && dec_table(buf@.skip(pos as int))
            == Some((p.0@, buf@.skip(p.1 as int))),
        r is None ==> dec_table(buf@.skip(pos as int)) is None,
{
    proof {
        reveal(dec_table);
    }
    let (name, p1) = match decode_str(buf, pos) {
        Some(p) => p,
        None => {
            return None;
        },
    };
    let (primary, p2) = match decode_field_type(buf, p1) {
        Some(p) => p,
        None => {
            return None;
        },
    };
    let (nf, p3) = match decode_u64(buf, p2) {
        Some(p) => p,
        None => {
            return None;
        },
    };
    let (fields, p4) = match decode_spairs(buf, p3, nf) {
        Some(p) => p,
        None => {
            return None;
        },
    };
    let (ne, p5) = match decode_u64(buf, p4) {
        Some(p) => p,
        None => {
            return None;
        },
    };
    let (entries, p6) = match decode_entries(buf, p5, ne) {
        Some(p) => p,
        None => {
            return None;
        },
    };
    let (expire, p7) = match decode_opt_u64(buf, p6) {
        Some(p) => p,
        None => {
            return None;
        },
    };
    let t = Table::from_parts(name, primary, fields, entries, expire);
    proof {
        let parsed = dec_table(buf@.skip(pos as int));
        assert(parsed matches Some(q) && q.0 =~= t@ && q.1 == buf@.skip(p7 as int));
    }
    Some((t, p7))
}

/// Reads `n` tables at `pos`.
fn decode_tables(buf: &Vec<u8>, pos: usize, n: u64) -> (r: Option<(Vec<Table>, usize)>)
    requires
        pos <= buf@.len(),
    ensures
        r matches Some(p) ==> pos <= p.1 <= buf@.len() && dec_tables(
            buf@.skip(pos as int),
            n as nat,
        ) == Some((tables_view(p.0@), buf@.skip(p.1 as int))),
        r is None ==> dec_tables(buf@.skip(pos as int), n as nat) is None,
{
    let mut out: Vec<Table> = Vec::new();
    let mut cur: usize = pos;
    let mut k: u64 = 0;
    while k < n
        invariant
            pos <= cur <= buf@.len(),
            k <= n,
            dec_tables(buf@.skip(pos as int), n as nat) == dec_prepend(
                dec_tables(buf@.skip(cur as int), (n - k) as nat),
                tables_view(out@),
            ),
        decreases n - k,
    {
        let ghost front = tables_view(out@);
        let ghost mid = buf@.skip(cur as int);
        let (t, p1) = match decode_table(buf, cur) {
            Some(p) => p,
            None => {
                return None;
            },
        };
        out.push(t);
        proof {
            let tail_o = dec_tables(buf@.skip(p1 as int), (n - k - 1) as nat);
            assert(dec_tables(mid, (n - k) as nat) == dec_prepend(tail_o, seq![t@]));
            assert(tables_view(out@) =~= front.push(t@));
            match tail_o {
                Some((tail, rem)) => {
                    assert(front + (seq![t@] + tail) =~= tables_view(out@) + tail);
                },
                None => {},
            }
        }
        cur = p1;
        k += 1;
    }
    proof {
        assert(dec_tables(buf@.skip(cur as int), 0) == Some(
            (Seq::<TableV>::empty(), buf@.skip(cur as int)),
        ));
        assert(tables_view(out@) + Seq::<TableV>::empty() =~= tables_view(out@));
    }
    Some((out, cur))
}

/// Reads one database at `pos`, without checking its invariants.
pub(crate) fn decode_db(buf: &Vec<u8>, pos: usize) -> (r: Option<(Database, usize)>)
    requires
        pos <= buf@.len(),
    ensures
        r matches Some(p) ==> pos <= p.1 <= buf@.len() && dec_db(buf@.skip(pos as int)) == Some(
            (p.0@, buf@.skip(p.1 as int)),
        ),
        r is None ==> dec_db(buf@.skip(pos as int)) is None,
{
    let (sync, p1) = match decode_opt_u64(buf, pos) {
        Some(p) => p,
        None => {
            return None;
        },
    };
    let (n, p2) = match decode_u64(buf, p1) {
        Some(p) => p,
        None => {
            return None;
        },
    };
    let (tables, p3) = match decode_tables(buf, p2, n) {
        Some(p) => p,
        None => {
            return None;
        },
    };
    let d = Database::from_parts(sync, tables);
    proof {
        let parsed = dec_db(buf@.skip(pos as int));
        assert(parsed matches Some(q) && q.0 =~= d@ && q.1 == buf@.skip(p3 as int));
    }
    Some((d, p3))
}


/// Law: the persistence round trip. Decoding the encoded image of any
/// machine-sized database yields that database exactly — its tables,
/// schemas, entries and maintenance interval — with no bytes left over.
pub proof fn lemma_save_round_trip(d: DatabaseV)
    requires
        db_bounded(d),
    ensures
        dec_db(enc_db(d)) == Some((d, Seq::<u8>::empty())),
{
    lemma_dec_enc_db(d, Seq::<u8>::empty());
    assert(enc_db(d) + Seq::<u8>::empty() =~= enc_db(d));
}

} // verus!
