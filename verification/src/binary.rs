//! The binary file format: the magic bytes `LIST`, a version byte, and the
//! zlib-compressed serialized document.
use vstd::prelude::*;
use crate::text::push_decimal;
use std::io::Read;
use std::io::Write;

verus! {

/// The version byte of the format.
pub const BINARY_VERSION: u8 = 1;

/// The header of a binary file: `LIST` and the version.
pub open spec fn header() -> Seq<u8> {
    seq![0x4cu8, 0x49u8, 0x53u8, 0x54u8, BINARY_VERSION]
}

/// A binary file holding `payload`.
pub open spec fn framed(payload: Seq<u8>) -> Seq<u8> {
    header() + payload
}

/// What reading a binary file's frame gives: the payload, or the error.
pub open spec fn unframed(content: Seq<u8>) -> Result<Seq<u8>, Seq<char>> {
    if content.len() < 5 {
        Err("文件太小，不是有效的二进制文件"@)
    } else if content.take(4) != header().take(4) {
        Err("无效的文件格式 (magic不匹配)"@)
    } else if content[4] != BINARY_VERSION {
        Err("不支持的版本: "@ + crate::text::decimal(content[4] as nat))
    } else {
        Ok(content.skip(5))
    }
}

/// What `flate2`'s zlib encoder at `Compression::best()` writes for `data`,
/// or none when the encoder reports an error.
pub uninterp spec fn zlib_deflated(data: Seq<u8>) -> Option<Seq<u8>>;

/// What `flate2`'s zlib decoder reads from `data`: the decompressed bytes,
/// or none for data that is not a zlib stream.
pub uninterp spec fn zlib_inflated(data: Seq<u8>) -> Option<Seq<u8>>;

/// Compresses `data` with `flate2::write::ZlibEncoder` at
/// `Compression::best()` (`write_all`, then `finish`). Trusted: it succeeds
/// exactly when the encoder does, with the encoder's output for `data`. The
/// text of an error is not stated.
#[verifier::external_body]
fn zlib_compress(data: &[u8]) -> (r: Result<Vec<u8>, String>)
    ensures
        match r {
            Ok(v) => zlib_deflated(data@) == Some(v@),
            Err(_) => zlib_deflated(data@) is None,
        },
{
    let mut encoder = flate2::write::ZlibEncoder::new(Vec::new(), flate2::Compression::best());
    if let Err(e) = encoder.write_all(data) {
        return Err(format!("压缩数据失败: {}", e));
    }
    encoder.finish().map_err(|e| format!("压缩完成失败: {}", e))
}

/// Decompresses `data` with `flate2::read::ZlibDecoder` (`read_to_end`).
/// Trusted: it succeeds exactly on zlib streams, with their decompressed
/// bytes, and the encoder's output for any bytes decompresses to those
/// bytes. The text of an error is not stated.
#[verifier::external_body]
fn zlib_decompress(data: &[u8]) -> (r: Result<Vec<u8>, String>)
    ensures
        match r {
            Ok(v) => zlib_inflated(data@) == Some(v@),
            Err(_) => zlib_inflated(data@) is None,
        },
        forall|x: Seq<u8>| zlib_deflated(x) == Some(data@) ==> (r is Ok && r->Ok_0@ == x),
{
    let mut decoder = flate2::read::ZlibDecoder::new(data);
    let mut out = Vec::new();
    match decoder.read_to_end(&mut out) {
        Ok(_) => Ok(out),
        Err(e) => Err(format!("解压失败: {}", e)),
    }
}

/// The file content that holds `payload`.
pub fn frame_binary(payload: &[u8]) -> (r: Vec<u8>)
    ensures
        r@ == framed(payload@),
{
    let mut r: Vec<u8> = Vec::new();
    r.push(0x4c);
    r.push(0x49);
    r.push(0x53);
    r.push(0x54);
    r.push(BINARY_VERSION);
    let mut i: usize = 0;
    while i < payload.len()
        invariant
            i <= payload.len(),
            r@ == header() + payload@.take(i as int),
        decreases payload.len() - i,
    {
        r.push(payload[i]);
        i = i + 1;
        assert(r@ =~= header() + payload@.take(i as int));
    }
    assert(payload@.take(payload.len() as int) =~= payload@);
    r
}

/// The payload of a binary file, after checking its size, magic bytes and
/// version.
pub fn unframe_binary(content: &[u8]) -> (r: Result<Vec<u8>, String>)
    ensures
        match r {
            Ok(v) => unframed(content@) == Ok::<Seq<u8>, Seq<char>>(v@),
            Err(e) => unframed(content@) == Err::<Seq<u8>, Seq<char>>(e@),
        },
{
    if content.len() < 5 {
        return Err(String::from_str("文件太小，不是有效的二进制文件"));
    }
    if !(content[0] == 0x4c && content[1] == 0x49 && content[2] == 0x53 && content[3] == 0x54) {
        assert(content@.take(4) != header().take(4)) by {
            if content@.take(4) == header().take(4) {
                assert(content@.take(4)[0] == content@[0]);
                assert(content@.take(4)[1] == content@[1]);
                assert(content@.take(4)[2] == content@[2]);
                assert(content@.take(4)[3] == content@[3]);
            }
        }
        return Err(String::from_str("无效的文件格式 (magic不匹配)"));
    }
    assert(content@.take(4) =~= header().take(4));
    let version = content[4];
    if version != BINARY_VERSION {
        let mut m = String::from_str("不支持的版本: ");
        push_decimal(&mut m, version as usize);
        return Err(m);
    }
    let mut r: Vec<u8> = Vec::new();
    let mut i: usize = 5;
    while i < content.len()
        invariant
            5 <= i <= content.len(),
            r@ == content@.subrange(5, i as int),
        decreases content.len() - i,
    {
        r.push(content[i]);
        i = i + 1;
        assert(r@ =~= content@.subrange(5, i as int));
    }
    Ok(r)
}

/// The binary file content for a serialized document: compressed, then
/// framed; an error exactly when the compression fails.
pub fn pack_binary(serialized: &[u8]) -> (r: Result<Vec<u8>, String>)
    ensures
        match zlib_deflated(serialized@) {
            Some(c) => r matches Ok(v) && v@ == framed(c),
            None => r is Err,
        },
{
    match zlib_compress(serialized) {
        Ok(c) => Ok(frame_binary(c.as_slice())),
        Err(e) => Err(e),
    }
}

/// The serialized document in a binary file's content: the frame checked,
/// then decompressed.
pub fn unpack_binary(content: &[u8]) -> (r: Result<Vec<u8>, String>)
    ensures
        match unframed(content@) {
            Ok(p) => match r {
                Ok(v) => zlib_inflated(p) == Some(v@),
                Err(_) => zlib_inflated(p) is None,
            },
            Err(m) => r matches Err(e) && e@ == m,
        },
        forall|x: Seq<u8>|
            (#[trigger] zlib_deflated(x) matches Some(c) && content@ == framed(c)) ==> (r matches Ok(
                v,
            ) && v@ == x),
{
    match unframe_binary(content) {
        Ok(p) => {
            proof {
                assert forall|x: Seq<u8>|
                    (#[trigger] zlib_deflated(x) matches Some(c) && content@ == framed(c)) implies Some(p@)
                    == zlib_deflated(x) by {
                    assert(content@.skip(5) =~= zlib_deflated(x)->0);
                }
            }
            zlib_decompress(p.as_slice())
        },
        Err(m) => {
            proof {
                assert forall|x: Seq<u8>|
                    !(#[trigger] zlib_deflated(x) matches Some(c) && content@ == framed(c)) by {
                    if zlib_deflated(x) matches Some(c) && content@ == framed(c) {
                        assert(content@.take(4) =~= header().take(4));
                        assert(content@[4] == BINARY_VERSION);
                    }
                }
            }
            Err(m)
        },
    }
}

} // verus!
