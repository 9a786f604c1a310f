//! Compression of byte payloads through several outside codecs, and the
//! choice of whichever one compresses a given payload best.
use vstd::prelude::*;

verus! {

/// The compression codecs a payload may be stored under.
#[derive(Debug, Clone, Copy, PartialEq, Eq, Structural)]
pub enum CompressionMethod {
    NoCompression,
    Bzip2,
    Gzip,
    Zstd,
}

/// A payload together with the codec it is compressed under.
#[derive(Debug, Clone)]
pub struct CompressedData {
    pub method: CompressionMethod,
    pub data: Vec<u8>,
}

/// Why a payload could not be decompressed: the bytes are not a valid
/// stream of the named codec.
#[derive(Debug, Clone, Copy, PartialEq, Eq, Structural)]
pub enum CompressError {
    InvalidData,
}

/// What `bzip2`'s best-level encoder produces for the given bytes: a
/// function of the input alone.
pub uninterp spec fn bzip2_of(data: Seq<u8>) -> Seq<u8>;

/// What `flate2`'s default-level gzip encoder produces for the given
/// bytes: a function of the input alone, since the header it writes holds
/// no timestamp and a fixed operating-system byte.
pub uninterp spec fn gzip_of(data: Seq<u8>) -> Seq<u8>;

/// What `zstd`'s default-level encoder produces for the given bytes: a
/// function of the input alone.
pub uninterp spec fn zstd_of(data: Seq<u8>) -> Seq<u8>;

/// The bytes the given codec stores for a payload.
pub open spec fn compressed_of(method: CompressionMethod, data: Seq<u8>) -> Seq<u8> {
    match method {
        CompressionMethod::NoCompression => data,
        CompressionMethod::Bzip2 => bzip2_of(data),
        CompressionMethod::Gzip => gzip_of(data),
        CompressionMethod::Zstd => zstd_of(data),
    }
}

/// The order in which the codecs are tried.
pub open spec fn method_index(method: CompressionMethod) -> int {
    match method {
        CompressionMethod::NoCompression => 0,
        CompressionMethod::Bzip2 => 1,
        CompressionMethod::Gzip => 2,
        CompressionMethod::Zstd => 3,
    }
}

/// Relies on `bzip2::write::BzEncoder` at the best level: compression into
/// a vector cannot fail, and its output is a function of the input alone.
#[verifier::external_body]
fn bzip2_compress(data: &[u8]) -> (r: Vec<u8>)
    ensures
        r@ == bzip2_of(data@),
{
    let mut e = bzip2::write::BzEncoder::new(Vec::new(), bzip2::Compression::best());
    std::io::Write::write_all(&mut e, data).unwrap();
    e.finish().unwrap()
}

/// Relies on `bzip2::bufread::BzDecoder`: decompression is lossless, so a
/// stream the encoder produced for some bytes reads back as those bytes.
#[verifier::external_body]
fn bzip2_decompress(data: &[u8]) -> (r: Result<Vec<u8>, CompressError>)
    ensures
        match r {
            Ok(v) => forall|x: Seq<u8>| data@ == bzip2_of(x) ==> v@ == x,
            Err(_) => forall|x: Seq<u8>| data@ != bzip2_of(x),
        },
{
    let mut d = bzip2::bufread::BzDecoder::new(std::io::BufReader::new(data));
    let mut out = vec![];
    match std::io::Read::read_to_end(&mut d, &mut out) {
        Ok(_) => Ok(out),
        Err(_) => Err(CompressError::InvalidData),
    }
}

/// Relies on `flate2::write::GzEncoder` at the default level: compression
/// into a vector cannot fail, and with the default builder the header holds
/// no timestamp, so the output is a function of the input alone.
#[verifier::external_body]
fn gzip_compress(data: &[u8]) -> (r: Vec<u8>)
    ensures
        r@ == gzip_of(data@),
{
    let mut e = flate2::write::GzEncoder::new(Vec::new(), flate2::Compression::default());
    std::io::Write::write_all(&mut e, data).unwrap();
    e.finish().unwrap()
}

/// Relies on `flate2::read::GzDecoder`: decompression is lossless, so a
/// stream the encoder produced for some bytes reads back as those bytes.
#[verifier::external_body]
fn gzip_decompress(data: &[u8]) -> (r: Result<Vec<u8>, CompressError>)
    ensures
        match r {
            Ok(v) => forall|x: Seq<u8>| data@ == gzip_of(x) ==> v@ == x,
            Err(_) => forall|x: Seq<u8>| data@ != gzip_of(x),
        },
{
    let mut d = flate2::read::GzDecoder::new(std::io::BufReader::new(data));
    let mut out = vec![];
    match std::io::Read::read_to_end(&mut d, &mut out) {
        Ok(_) => Ok(out),
        Err(_) => Err(CompressError::InvalidData),
    }
}

/// Relies on `zstd::stream::encode_all` at the default level: compression
/// of an in-memory slice cannot fail, and its output is a function of the
/// input alone.
#[verifier::external_body]
fn zstd_compress(data: &[u8]) -> (r: Vec<u8>)
    ensures
        r@ == zstd_of(data@),
{
    zstd::stream::encode_all(data, 0).unwrap()
}

/// Relies on `zstd::stream::decode_all`: decompression is lossless, so a
/// stream the encoder produced for some bytes reads back as those bytes.
#[verifier::external_body]
fn zstd_decompress(data: &[u8]) -> (r: Result<Vec<u8>, CompressError>)
    ensures
        match r {
            Ok(v) => forall|x: Seq<u8>| data@ == zstd_of(x) ==> v@ == x,
            Err(_) => forall|x: Seq<u8>| data@ != zstd_of(x),
        },
{
    match zstd::stream::decode_all(data) {
        Ok(v) => Ok(v),
        Err(_) => Err(CompressError::InvalidData),
    }
}

/// Compresses a payload under the given codec.
pub fn compress(method: CompressionMethod, data: &[u8]) -> (r: Result<
    CompressedData,
    CompressError,
>)
    ensures
        r matches Ok(cd) && cd.method == method && cd.data@ == compressed_of(method, data@),
{
    let out: Vec<u8> = match method {
        CompressionMethod::NoCompression => vstd::slice::slice_to_vec(data),
        CompressionMethod::Bzip2 => bzip2_compress(data),
        CompressionMethod::Gzip => gzip_compress(data),
        CompressionMethod::Zstd => zstd_compress(data),
    };
    Ok(CompressedData { method, data: out })
}

/// Recovers the payload a `CompressedData` stores: whatever bytes its codec
/// compressed, uncompressed data verbatim, and an error on bytes the codec
/// cannot read back.
pub fn decompress(compressed_data: CompressedData) -> (r: Result<Vec<u8>, CompressError>)
    ensures
        forall|x: Seq<u8>|
            compressed_data.data@ == compressed_of(compressed_data.method, x) ==> (r matches Ok(v)
                && v@ == x),
        compressed_data.method is NoCompression ==> (r matches Ok(v) && v@
            == compressed_data.data@),
{
    match compressed_data.method {
        CompressionMethod::NoCompression => Ok(compressed_data.data),
        CompressionMethod::Bzip2 => bzip2_decompress(compressed_data.data.as_slice()),
        CompressionMethod::Gzip => gzip_decompress(compressed_data.data.as_slice()),
        CompressionMethod::Zstd => zstd_decompress(compressed_data.data.as_slice()),
    }
}

/// Compresses a payload under every codec and keeps the smallest result,
/// preferring the codec tried last among equally small ones. The winner is
/// never larger than the uncompressed payload itself.
pub fn compress_best(data: &[u8]) -> (r: Result<CompressedData, CompressError>)
    ensures
        r matches Ok(cd) && {
            &&& cd.data@ == compressed_of(cd.method, data@)
            &&& forall|m: CompressionMethod| cd.data@.len() <= compressed_of(m, data@).len()
            &&& forall|m: CompressionMethod|
                method_index(m) > method_index(cd.method) ==> compressed_of(m, data@).len()
                    > cd.data@.len()
            &&& cd.data@.len() <= data@.len()
        },
{
    let c0 = match compress(CompressionMethod::NoCompression, data) {
        Ok(c) => c,
        Err(e) => {
            return Err(e);
        },
    };
    let c1 = match compress(CompressionMethod::Bzip2, data) {
        Ok(c) => c,
        Err(e) => {
            return Err(e);
        },
    };
    let c2 = match compress(CompressionMethod::Gzip, data) {
        Ok(c) => c,
        Err(e) => {
            return Err(e);
        },
    };
    let c3 = match compress(CompressionMethod::Zstd, data) {
        Ok(c) => c,
        Err(e) => {
            return Err(e);
        },
    };
    let mut best = c0;
    if c1.data.len() <= best.data.len() {
        best = c1;
    }
    if c2.data.len() <= best.data.len() {
        best = c2;
    }
    if c3.data.len() <= best.data.len() {
        best = c3;
    }
    proof {
        assert forall|m: CompressionMethod| best.data@.len() <= compressed_of(
            m,
            data@,
        ).len() by {
            match m {
                CompressionMethod::NoCompression => {},
                CompressionMethod::Bzip2 => {},
                CompressionMethod::Gzip => {},
                CompressionMethod::Zstd => {},
            }
        }
        assert forall|m: CompressionMethod|
            method_index(m) > method_index(best.method) implies compressed_of(m, data@).len()
            > best.data@.len() by {
            match m {
                CompressionMethod::NoCompression => {},
                CompressionMethod::Bzip2 => {},
                CompressionMethod::Gzip => {},
                CompressionMethod::Zstd => {},
            }
        }
    }
    Ok(best)
}

} // verus!
