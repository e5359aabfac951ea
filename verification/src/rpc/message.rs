//! Request and response encodings, carried inside frames:
//! an 8-byte little-endian id, one byte (method, or ok), then the payload.

use crate::le::{append, copy_range, get_u64, lemma_le_roundtrips, put_u64};
use vstd::bytes::*;
use vstd::prelude::*;

verus! {

#[derive(Debug, Clone, PartialEq, Eq)]
pub struct Request {
    pub id: u64,
    pub method: u8,
    pub payload: Vec<u8>,
}

#[derive(Debug, Clone, PartialEq, Eq)]
pub struct Response {
    pub id: u64,
    /// Whether the handler succeeded (for the key-value service, `false`
    /// also means "not found").
    pub ok: bool,
    pub payload: Vec<u8>,
}

pub struct RequestModel {
    pub id: u64,
    pub method: u8,
    pub payload: Seq<u8>,
}

pub struct ResponseModel {
    pub id: u64,
    pub ok: bool,
    pub payload: Seq<u8>,
}

impl View for Request {
    type V = RequestModel;

    open spec fn view(&self) -> RequestModel {
        RequestModel { id: self.id, method: self.method, payload: self.payload@ }
    }
}

impl View for Response {
    type V = ResponseModel;

    open spec fn view(&self) -> ResponseModel {
        ResponseModel { id: self.id, ok: self.ok, payload: self.payload@ }
    }
}

pub open spec fn spec_encode_request(r: RequestModel) -> Seq<u8> {
    spec_u64_to_le_bytes(r.id) + seq![r.method] + r.payload
}

pub open spec fn spec_decode_request(b: Seq<u8>) -> Option<RequestModel> {
    if b.len() < 9 {
        None
    } else {
        Some(
            RequestModel {
                id: spec_u64_from_le_bytes(b.subrange(0, 8)),
                method: b[8],
                payload: b.skip(9),
            },
        )
    }
}

pub open spec fn spec_encode_response(r: ResponseModel) -> Seq<u8> {
    spec_u64_to_le_bytes(r.id) + seq![if r.ok { 1u8 } else { 0u8 }] + r.payload
}

pub open spec fn spec_decode_response(b: Seq<u8>) -> Option<ResponseModel> {
    if b.len() < 9 {
        None
    } else {
        Some(
            ResponseModel {
                id: spec_u64_from_le_bytes(b.subrange(0, 8)),
                ok: b[8] != 0,
                payload: b.skip(9),
            },
        )
    }
}

impl Request {
    pub fn encode(&self) -> (out: Vec<u8>)
        ensures
            out@ == spec_encode_request(self@),
    {
        let mut out: Vec<u8> = Vec::new();
        put_u64(&mut out, self.id);
        out.push(self.method);
        append(&mut out, self.payload.as_slice());
        out
    }

    /// `None` when `bytes` is shorter than the 9-byte header.
    pub fn decode(bytes: &[u8]) -> (r: Option<Request>)
        ensures
            match r {
                Some(q) => spec_decode_request(bytes@) == Some(q@),
                None => spec_decode_request(bytes@) is None,
            },
    {
        if bytes.len() < 9 {
            return None;
        }
        let id = get_u64(bytes, 0);
        let payload = copy_range(bytes, 9, bytes.len());
        let r = Request { id, method: bytes[8], payload };
        assert(r@.payload =~= bytes@.skip(9));
        Some(r)
    }

    /// A copy of this request.
    pub fn duplicate(&self) -> (r: Request)
        ensures
            r@ == self@,
    {
        let payload = copy_range(self.payload.as_slice(), 0, self.payload.len());
        assert(payload@ =~= self.payload@);
        Request { id: self.id, method: self.method, payload }
    }
}

impl Response {
    pub fn encode(&self) -> (out: Vec<u8>)
        ensures
            out@ == spec_encode_response(self@),
    {
        let mut out: Vec<u8> = Vec::new();
        put_u64(&mut out, self.id);
        out.push(if self.ok { 1u8 } else { 0u8 });
        append(&mut out, self.payload.as_slice());
        out
    }

    /// `None` when `bytes` is shorter than the 9-byte header.
    pub fn decode(bytes: &[u8]) -> (r: Option<Response>)
        ensures
            match r {
                Some(q) => spec_decode_response(bytes@) == Some(q@),
                None => spec_decode_response(bytes@) is None,
            },
    {
        if bytes.len() < 9 {
            return None;
        }
        let id = get_u64(bytes, 0);
        let payload = copy_range(bytes, 9, bytes.len());
        let r = Response { id, ok: bytes[8] != 0, payload };
        assert(r@.payload =~= bytes@.skip(9));
        Some(r)
    }

    /// A copy of this response.
    pub fn duplicate(&self) -> (r: Response)
        ensures
            r@ == self@,
    {
        let payload = copy_range(self.payload.as_slice(), 0, self.payload.len());
        assert(payload@ =~= self.payload@);
        Response { id: self.id, ok: self.ok, payload }
    }
}

/// Decoding an encoded request gives it back.
pub proof fn lemma_request_roundtrip(r: RequestModel)
    ensures
        spec_decode_request(spec_encode_request(r)) == Some(r),
{
    lemma_le_roundtrips();
    let b = spec_encode_request(r);
    assert(b.subrange(0, 8) =~= spec_u64_to_le_bytes(r.id));
    assert(b.skip(9) =~= r.payload);
}

/// Decoding an encoded response gives it back, `ok` included.
pub proof fn lemma_response_roundtrip(r: ResponseModel)
    ensures
        spec_decode_response(spec_encode_response(r)) == Some(r),
{
    lemma_le_roundtrips();
    let b = spec_encode_response(r);
    assert(b.subrange(0, 8) =~= spec_u64_to_le_bytes(r.id));
    assert(b.skip(9) =~= r.payload);
}

} // verus!
