//! The fixed byte sequences of the PDF grammar.

use vstd::prelude::*;

verus! {

/// `stream` as a byte sequence.
pub open spec fn kw_stream() -> Seq<u8> {
    seq![0x73u8, 0x74, 0x72, 0x65, 0x61, 0x6d]
}

/// Builds `stream` as bytes.
pub fn stream_keyword() -> (r: Vec<u8>)
    ensures
        r@ == kw_stream(),
{
    let v: Vec<u8> = vec![0x73u8, 0x74, 0x72, 0x65, 0x61, 0x6d];
    proof {
        assert(v@ =~= kw_stream());
    }
    v
}

/// `endstream` as a byte sequence.
pub open spec fn kw_endstream() -> Seq<u8> {
    seq![0x65u8, 0x6e, 0x64, 0x73, 0x74, 0x72, 0x65, 0x61, 0x6d]
}

/// Builds `endstream` as bytes.
pub fn endstream_keyword() -> (r: Vec<u8>)
    ensures
        r@ == kw_endstream(),
{
    let v: Vec<u8> = vec![0x65u8, 0x6e, 0x64, 0x73, 0x74, 0x72, 0x65, 0x61, 0x6d];
    proof {
        assert(v@ =~= kw_endstream());
    }
    v
}

/// `startxref` as a byte sequence.
pub open spec fn kw_startxref() -> Seq<u8> {
    seq![0x73u8, 0x74, 0x61, 0x72, 0x74, 0x78, 0x72, 0x65, 0x66]
}

/// Builds `startxref` as bytes.
pub fn startxref_keyword() -> (r: Vec<u8>)
    ensures
        r@ == kw_startxref(),
{
    let v: Vec<u8> = vec![0x73u8, 0x74, 0x61, 0x72, 0x74, 0x78, 0x72, 0x65, 0x66];
    proof {
        assert(v@ =~= kw_startxref());
    }
    v
}

/// `xref` as a byte sequence.
pub open spec fn kw_xref() -> Seq<u8> {
    seq![0x78u8, 0x72, 0x65, 0x66]
}

/// Builds `xref` as bytes.
pub fn xref_keyword() -> (r: Vec<u8>)
    ensures
        r@ == kw_xref(),
{
    let v: Vec<u8> = vec![0x78u8, 0x72, 0x65, 0x66];
    proof {
        assert(v@ =~= kw_xref());
    }
    v
}

/// `trailer` as a byte sequence.
pub open spec fn kw_trailer() -> Seq<u8> {
    seq![0x74u8, 0x72, 0x61, 0x69, 0x6c, 0x65, 0x72]
}

/// Builds `trailer` as bytes.
pub fn trailer_keyword() -> (r: Vec<u8>)
    ensures
        r@ == kw_trailer(),
{
    let v: Vec<u8> = vec![0x74u8, 0x72, 0x61, 0x69, 0x6c, 0x65, 0x72];
    proof {
        assert(v@ =~= kw_trailer());
    }
    v
}

/// `obj` as a byte sequence.
pub open spec fn kw_obj() -> Seq<u8> {
    seq![0x6fu8, 0x62, 0x6a]
}

/// Builds `obj` as bytes.
pub fn obj_keyword() -> (r: Vec<u8>)
    ensures
        r@ == kw_obj(),
{
    let v: Vec<u8> = vec![0x6fu8, 0x62, 0x6a];
    proof {
        assert(v@ =~= kw_obj());
    }
    v
}

/// `endobj` as a byte sequence.
pub open spec fn kw_endobj() -> Seq<u8> {
    seq![0x65u8, 0x6e, 0x64, 0x6f, 0x62, 0x6a]
}

/// Builds `endobj` as bytes.
pub fn endobj_keyword() -> (r: Vec<u8>)
    ensures
        r@ == kw_endobj(),
{
    let v: Vec<u8> = vec![0x65u8, 0x6e, 0x64, 0x6f, 0x62, 0x6a];
    proof {
        assert(v@ =~= kw_endobj());
    }
    v
}

/// `true` as a byte sequence.
pub open spec fn kw_true() -> Seq<u8> {
    seq![0x74u8, 0x72, 0x75, 0x65]
}

/// Builds `true` as bytes.
pub fn true_keyword() -> (r: Vec<u8>)
    ensures
        r@ == kw_true(),
{
    let v: Vec<u8> = vec![0x74u8, 0x72, 0x75, 0x65];
    proof {
        assert(v@ =~= kw_true());
    }
    v
}

/// `false` as a byte sequence.
pub open spec fn kw_false() -> Seq<u8> {
    seq![0x66u8, 0x61, 0x6c, 0x73, 0x65]
}

/// Builds `false` as bytes.
pub fn false_keyword() -> (r: Vec<u8>)
    ensures
        r@ == kw_false(),
{
    let v: Vec<u8> = vec![0x66u8, 0x61, 0x6c, 0x73, 0x65];
    proof {
        assert(v@ =~= kw_false());
    }
    v
}

/// `null` as a byte sequence.
pub open spec fn kw_null() -> Seq<u8> {
    seq![0x6eu8, 0x75, 0x6c, 0x6c]
}

/// Builds `null` as bytes.
pub fn null_keyword() -> (r: Vec<u8>)
    ensures
        r@ == kw_null(),
{
    let v: Vec<u8> = vec![0x6eu8, 0x75, 0x6c, 0x6c];
    proof {
        assert(v@ =~= kw_null());
    }
    v
}

/// `R` as a byte sequence.
pub open spec fn kw_r() -> Seq<u8> {
    seq![0x52u8]
}

/// Builds `R` as bytes.
pub fn r_keyword() -> (r: Vec<u8>)
    ensures
        r@ == kw_r(),
{
    let v: Vec<u8> = vec![0x52u8];
    proof {
        assert(v@ =~= kw_r());
    }
    v
}

/// `%PDF-` as a byte sequence.
pub open spec fn kw_header() -> Seq<u8> {
    seq![0x25u8, 0x50, 0x44, 0x46, 0x2d]
}

/// Builds `%PDF-` as bytes.
pub fn header_prefix() -> (r: Vec<u8>)
    ensures
        r@ == kw_header(),
{
    let v: Vec<u8> = vec![0x25u8, 0x50, 0x44, 0x46, 0x2d];
    proof {
        assert(v@ =~= kw_header());
    }
    v
}

/// `%%EOF` as a byte sequence.
pub open spec fn kw_eof_marker() -> Seq<u8> {
    seq![0x25u8, 0x25, 0x45, 0x4f, 0x46]
}

/// Builds `%%EOF` as bytes.
pub fn eof_marker() -> (r: Vec<u8>)
    ensures
        r@ == kw_eof_marker(),
{
    let v: Vec<u8> = vec![0x25u8, 0x25, 0x45, 0x4f, 0x46];
    proof {
        assert(v@ =~= kw_eof_marker());
    }
    v
}

/// `FlateDecode` as a byte sequence.
pub open spec fn kw_flate_decode() -> Seq<u8> {
    seq![0x46u8, 0x6c, 0x61, 0x74, 0x65, 0x44, 0x65, 0x63, 0x6f, 0x64, 0x65]
}

/// Builds `FlateDecode` as bytes.
pub fn flate_decode_name() -> (r: Vec<u8>)
    ensures
        r@ == kw_flate_decode(),
{
    let v: Vec<u8> = vec![0x46u8, 0x6c, 0x61, 0x74, 0x65, 0x44, 0x65, 0x63, 0x6f, 0x64, 0x65];
    proof {
        assert(v@ =~= kw_flate_decode());
    }
    v
}

/// `Filter` as a byte sequence.
pub open spec fn kw_filter_name() -> Seq<u8> {
    seq![0x46u8, 0x69, 0x6c, 0x74, 0x65, 0x72]
}

/// Builds `Filter` as bytes.
pub fn filter_key() -> (r: Vec<u8>)
    ensures
        r@ == kw_filter_name(),
{
    let v: Vec<u8> = vec![0x46u8, 0x69, 0x6c, 0x74, 0x65, 0x72];
    proof {
        assert(v@ =~= kw_filter_name());
    }
    v
}

} // verus!
