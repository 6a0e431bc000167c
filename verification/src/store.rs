use vstd::prelude::*;

use crate::codec::{dec_db, decode_db, enc_db, encode_db};
use crate::database::Database;
use crate::errors::DatabaseError;

verus! {

/// What `lz4_flex::compress_prepend_size` returns for the given bytes: a
/// function of the bytes alone.
pub uninterp spec fn lz4_compressed(b: Seq<u8>) -> Seq<u8>;

/// What `lz4_flex::decompress_size_prepended` returns for the given
/// bytes: the decompressed bytes, or nothing when the block is refused.
pub uninterp spec fn lz4_decompressed(b: Seq<u8>) -> Option<Seq<u8>>;

/// Relies on `lz4_flex::compress_prepend_size`: it compresses the input
/// deterministically, prepending the uncompressed length, and the crate
/// documents that `decompress_size_prepended` recovers the input from
/// its result. The length prefix is 32 bits, so inputs must stay below
/// that bound.
#[verifier::external_body]
fn lz4_compress(data: &Vec<u8>) -> (r: Vec<u8>)
    requires
        data@.len() < 0x1_0000_0000,
    ensures
        r@ == lz4_compressed(data@),
        lz4_decompressed(r@) == Some(data@),
{
    lz4_flex::compress_prepend_size(data.as_slice())
}

/// Relies on `lz4_flex::decompress_size_prepended`: it deterministically
/// decompresses a length-prefixed block, and reports an error on input
/// it refuses.
#[verifier::external_body]
fn lz4_decompress(data: &Vec<u8>) -> (r: Result<Vec<u8>, DatabaseError>)
    ensures
        r is Ok <==> lz4_decompressed(data@) is Some,
        r matches Ok(v) ==> lz4_decompressed(data@) == Some(v@),
        r matches Err(e) ==> e is DatabaseDecompressionError,
{
    match lz4_flex::decompress_size_prepended(data.as_slice()) {
        Ok(v) => Ok(v),
        Err(_) => Err(DatabaseError::DatabaseDecompressionError),
    }
}

/// Encodes the database and compresses the image: the bytes that a save
/// writes to disk. Fails with `DatabaseCompressionError` exactly when
/// the encoded image overflows the compressor's 32-bit length prefix.
pub fn save_bytes(db: &Database) -> (r: Result<Vec<u8>, DatabaseError>)
    ensures
        r is Ok <==> enc_db(db@).len() < 0x1_0000_0000,
        r matches Ok(v) ==> v@ == lz4_compressed(enc_db(db@)) && lz4_decompressed(v@) == Some(
            enc_db(db@),
        ),
        r matches Err(e) ==> e is DatabaseCompressionError,
{
    let encoded = encode_db(db);
    if (encoded.len() as u64) >= 0x1_0000_0000u64 {
        return Err(DatabaseError::DatabaseCompressionError);
    }
    Ok(lz4_compress(&encoded))
}

/// Decompresses and decodes a saved image. Fails with
/// `DatabaseDecompressionError` when the block is corrupt, and with
/// `DatabaseSerializationError` when the decompressed bytes are not
/// exactly the image of one well-formed database.
pub fn load_bytes(bytes: &Vec<u8>) -> (r: Result<Database, DatabaseError>)
    ensures
        r is Ok <==> (lz4_decompressed(bytes@) matches Some(raw) && dec_db(raw) matches Some(p)
            && p.1.len() == 0 && p.0.wf()),
        r matches Ok(d) ==> d@.wf() && (lz4_decompressed(bytes@) matches Some(raw) && dec_db(raw)
            matches Some(p) && p.0 == d@),
        r matches Err(e) ==> if lz4_decompressed(bytes@) is None {
            e is DatabaseDecompressionError
        } else {
            e is DatabaseSerializationError
        },
{
    let raw = match lz4_decompress(bytes) {
        Ok(v) => v,
        Err(e) => {
            return Err(e);
        },
    };
    proof {
        assert(raw@.skip(0) =~= raw@);
    }
    let (db, end) = match decode_db(&raw, 0) {
        Some(p) => p,
        None => {
            return Err(DatabaseError::DatabaseSerializationError);
        },
    };
    if end != raw.len() {
        proof {
            assert(raw@.skip(end as int).len() == raw@.len() - end);
        }
        return Err(DatabaseError::DatabaseSerializationError);
    }
    if !db.check_wf() {
        return Err(DatabaseError::DatabaseSerializationError);
    }
    Ok(db)
}

} // verus!
