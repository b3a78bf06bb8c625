//! Client for the key-stream operations: open, read, write, seek,
//! flush and release.
//!
//! A [`Key`] holds the remote-assigned [`ApiToken`], the local stream
//! offset and the cached stream length.  Requests are built here as
//! tagged buffers and responses parsed here; the exchange itself, and
//! the two scalar confirmations (flush, release), are injected by the
//! caller as plain values.  Releasing consumes the handle, so a second
//! release of the same token cannot be expressed.

use vstd::prelude::*;

verus! {

use crate::senres::{
    RecDes,
    SenSer,
    SenresReader,
    SenresStack,
    SenresWriter,
    PAGE_SIZE,
    SENRES_V1_MAGIC,
    bytes_has_tag,
    lemma_enc_list_u8,
    str_dec,
    str_enc,
    str_enc_ok,
};
use vstd::bytes::{
    spec_u32_from_le_bytes,
    spec_u32_to_le_bytes,
    spec_u64_from_le_bytes,
    spec_u64_to_le_bytes,
};

/// Remote status codes of the storage service, one byte on the wire.
#[derive(Debug, Clone, Copy, PartialEq, Eq, Structural)]
pub enum PddbRetcode {
    /// The remote never filled in the status field.
    Uninit,
    /// The operation succeeded.
    Success,
    /// The entry vanished, e.g. its basis was unmounted.
    BasisLost,
    /// The caller may not touch this entry.
    AccessDenied,
    /// The stream ended before the requested range.
    UnexpectedEof,
    /// The remote failed internally.
    InternalError,
    /// No space is left on the remote store.
    DiskFull,
    /// Any status byte outside the known table.
    Invalid,
}

/// The status named by a wire byte; bytes outside the table are the
/// explicit invalid sentinel.
pub open spec fn spec_retcode_from(b: u8) -> PddbRetcode {
    if b == 0 {
        PddbRetcode::Uninit
    } else if b == 1 {
        PddbRetcode::Success
    } else if b == 2 {
        PddbRetcode::BasisLost
    } else if b == 3 {
        PddbRetcode::AccessDenied
    } else if b == 4 {
        PddbRetcode::UnexpectedEof
    } else if b == 5 {
        PddbRetcode::InternalError
    } else if b == 6 {
        PddbRetcode::DiskFull
    } else {
        PddbRetcode::Invalid
    }
}

/// The status named by a scalar confirmation value.
pub open spec fn spec_retcode_from_usize(v: usize) -> PddbRetcode {
    if v <= 255 {
        spec_retcode_from(v as u8)
    } else {
        PddbRetcode::Invalid
    }
}

/// Decode a wire status byte.
pub fn retcode_from_u8(b: u8) -> (r: PddbRetcode)
    ensures
        r == spec_retcode_from(b),
{
    if b == 0 {
        PddbRetcode::Uninit
    } else if b == 1 {
        PddbRetcode::Success
    } else if b == 2 {
        PddbRetcode::BasisLost
    } else if b == 3 {
        PddbRetcode::AccessDenied
    } else if b == 4 {
        PddbRetcode::UnexpectedEof
    } else if b == 5 {
        PddbRetcode::InternalError
    } else if b == 6 {
        PddbRetcode::DiskFull
    } else {
        PddbRetcode::Invalid
    }
}

/// Decode a scalar confirmation value.
pub fn retcode_from_usize(v: usize) -> (r: PddbRetcode)
    ensures
        r == spec_retcode_from_usize(v),
{
    if v <= 255 {
        retcode_from_u8(v as u8)
    } else {
        PddbRetcode::Invalid
    }
}

/// Errors surfaced by the key-stream clients.
#[derive(Debug, Clone, Copy, PartialEq, Eq, Structural)]
pub enum KeyError {
    /// The buffer failed marker, tag or field validation.
    Framing,
    /// The remote did not return the memory.
    Transport,
    /// The remote and this client have desynchronised.
    Protocol,
    /// A seek would move before zero or past the representable range.
    InvalidInput,
    /// The remote reported a status other than success.
    Status(PddbRetcode),
}

/// Where a seek is measured from.
#[derive(Debug, Clone, Copy, PartialEq, Eq, Structural)]
pub enum SeekFrom {
    Start(u64),
    Current(i64),
    End(i64),
}

/// Opaque remote-assigned handle for one open key stream.
#[derive(Debug, Clone, Copy, PartialEq, Eq, Structural)]
pub struct ApiToken {
    pub w0: u32,
    pub w1: u32,
    pub w2: u32,
}

/// One open key stream: its token, connection, local offset and
/// cached length.
pub struct Key {
    fd: ApiToken,
    connection: u32,
    offset: u64,
    len: u64,
}

/// The offset a seek resolves to, if it stays within `u64` range.
pub open spec fn spec_seek(offset: u64, len: u64, pos: SeekFrom) -> Option<u64> {
    let target: int = match pos {
        SeekFrom::Start(o) => o as int,
        SeekFrom::Current(by) => offset + by,
        SeekFrom::End(by) => len + by,
    };
    if 0 <= target <= u64::MAX {
        Some(target as u64)
    } else {
        None
    }
}

impl Key {
    pub closed spec fn spec_token(&self) -> ApiToken {
        self.fd
    }

    pub closed spec fn spec_connection(&self) -> u32 {
        self.connection
    }

    pub closed spec fn spec_offset(&self) -> u64 {
        self.offset
    }

    pub closed spec fn spec_len(&self) -> u64 {
        self.len
    }

    /// The remote handle, for the caller's scalar messages.
    pub fn token(&self) -> (r: ApiToken)
        ensures
            r == self.spec_token(),
    {
        self.fd
    }

    /// The connection this stream was opened over.
    pub fn connection(&self) -> (r: u32)
        ensures
            r == self.spec_connection(),
    {
        self.connection
    }

    /// The local stream offset.
    pub fn stream_offset(&self) -> (r: u64)
        ensures
            r == self.spec_offset(),
    {
        self.offset
    }

    /// The cached stream length, as last reported or grown by writes.
    pub fn stream_len(&self) -> (r: u64)
        ensures
            r == self.spec_len(),
    {
        self.len
    }

    /// Move the local offset.  Purely local arithmetic: seeking past
    /// the end is legal and changes nothing but the offset; seeking
    /// before zero or past the representable range fails without any
    /// state change, and the remote is never contacted.
    pub fn seek(&mut self, pos: SeekFrom) -> (r: Result<u64, KeyError>)
        ensures
            final(self).spec_token() == old(self).spec_token(),
            final(self).spec_connection() == old(self).spec_connection(),
            final(self).spec_len() == old(self).spec_len(),
            match r {
                Ok(o) => spec_seek(old(self).spec_offset(), old(self).spec_len(), pos) == Some(o)
                    && final(self).spec_offset() == o,
                Err(e) => e == KeyError::InvalidInput && spec_seek(
                    old(self).spec_offset(),
                    old(self).spec_len(),
                    pos,
                ) is None && final(self).spec_offset() == old(self).spec_offset(),
            },
    {
        let (point, by): (u64, i64) = match pos {
            SeekFrom::Start(o) => {
                self.offset = o;
                return Ok(o);
            },
            SeekFrom::Current(by) => (self.offset, by),
            SeekFrom::End(by) => (self.len, by),
        };
        if by < 0 {
            let mag: u64 = if by == i64::MIN {
                9223372036854775808u64
            } else {
                (0i64 - by) as u64
            };
            proof {
                assert(mag == -(by as int));
            }
            if point < mag {
                Err(KeyError::InvalidInput)
            } else {
                self.offset = point - mag;
                Ok(self.offset)
            }
        } else {
            let byu = by as u64;
            if point > u64::MAX - byu {
                Err(KeyError::InvalidInput)
            } else {
                self.offset = point + byu;
                Ok(self.offset)
            }
        }
    }

    /// Interpret the scalar confirmation of a flush.  A missing or
    /// malformed confirmation means the remote and client have
    /// desynchronised; a status other than success is reported as that
    /// status.  Flushing changes no local state.
    pub fn finish_flush(&self, reply: Option<usize>) -> (r: Result<(), KeyError>)
        ensures
            match reply {
                None => r == Err::<(), KeyError>(KeyError::Protocol),
                Some(v) => if v == 1 {
                    r is Ok
                } else {
                    r == Err::<(), KeyError>(KeyError::Status(spec_retcode_from_usize(v)))
                },
            },
    {
        match reply {
            None => Err(KeyError::Protocol),
            Some(v) => {
                if v == 1 {
                    Ok(())
                } else {
                    Err(KeyError::Status(retcode_from_usize(v)))
                }
            },
        }
    }

    /// Interpret the scalar confirmation of the one-shot release and
    /// consume the handle, so that no second release of this token can
    /// be issued.  Any confirmation but the expected one is a protocol
    /// violation, reported rather than ignored.
    pub fn release(self, reply: Option<usize>) -> (r: Result<(), KeyError>)
        ensures
            r is Ok <==> reply == Some(1usize),
            r is Err ==> r == Err::<(), KeyError>(KeyError::Protocol),
    {
        match reply {
            Some(1) => Ok(()),
            _ => Err(KeyError::Protocol),
        }
    }
}

/// Tag of an open-key request (ASCII `OkyQ`).
pub const TAG_OPEN_KEY_REQUEST: u32 = 0x5179_6B4F;

/// Tag of an open-key response (ASCII `OkyR`).
pub const TAG_OPEN_KEY_RESPONSE: u32 = 0x5279_6B4F;

/// Tag of a read-key request (ASCII `RkyQ`).
pub const TAG_READ_KEY_REQUEST: u32 = 0x5179_6B52;

/// Tag of a read-key response (ASCII `RkyR`).
pub const TAG_READ_KEY_RESPONSE: u32 = 0x5279_6B52;

/// Tag of a write-key request (ASCII `WkyQ`).
pub const TAG_WRITE_KEY_REQUEST: u32 = 0x5179_6B57;

/// Tag of a write-key response (ASCII `WkyR`).
pub const TAG_WRITE_KEY_RESPONSE: u32 = 0x5279_6B57;

/// Protocol version spoken by the key-stream clients.
pub const KEY_VERSION: u32 = 1;

/// Payload bytes a read response can carry: the buffer capacity minus
/// its header (marker, tag, status, count).
pub const MAX_READ_PAYLOAD: u32 = 4083;

/// Payload bytes a write request can carry: the buffer capacity minus
/// its header (marker, tag, token, position, count).
pub const MAX_WRITE_PAYLOAD: usize = 4064;

/// Encoding of an optional string: presence byte, then the string.
pub open spec fn opt_str_enc(v: Option<Seq<char>>) -> Seq<u8> {
    match v {
        Some(s) => seq![1u8] + str_enc(s),
        None => seq![0u8],
    }
}

/// Encoding of an optional 64-bit value: presence byte, then the value.
pub open spec fn opt_u64_enc(v: Option<u64>) -> Seq<u8> {
    match v {
        Some(x) => seq![1u8] + spec_u64_to_le_bytes(x),
        None => seq![0u8],
    }
}

/// Wire byte of a flag.
pub open spec fn bool_byte(b: bool) -> u8 {
    if b {
        1u8
    } else {
        0u8
    }
}

/// The bytes of an open-key request.
pub open spec fn spec_open_key_request(
    basis: Option<Seq<char>>,
    dict: Seq<char>,
    key: Seq<char>,
    create_dict: bool,
    create_key: bool,
    alloc_hint: Option<u64>,
) -> Seq<u8> {
    spec_u32_to_le_bytes(SENRES_V1_MAGIC) + spec_u32_to_le_bytes(TAG_OPEN_KEY_REQUEST)
        + spec_u32_to_le_bytes(KEY_VERSION) + opt_str_enc(basis) + str_enc(dict) + str_enc(key)
        + seq![bool_byte(create_dict)] + seq![bool_byte(create_key)] + opt_u64_enc(alloc_hint)
}

/// Whether an open-key request is encodable and fits in one buffer.
pub open spec fn spec_open_key_request_ok(
    basis: Option<Seq<char>>,
    dict: Seq<char>,
    key: Seq<char>,
    create_dict: bool,
    create_key: bool,
    alloc_hint: Option<u64>,
) -> bool {
    &&& match basis {
        Some(b) => str_enc_ok(b),
        None => true,
    }
    &&& str_enc_ok(dict)
    &&& str_enc_ok(key)
    &&& spec_open_key_request(basis, dict, key, create_dict, create_key, alloc_hint).len()
        <= PAGE_SIZE
}

/// A request buffer asking the remote to open one key stream.
pub struct OpenKeyRequest {
    stack: SenresStack,
}

impl View for OpenKeyRequest {
    type V = Seq<u8>;

    closed spec fn view(&self) -> Seq<u8> {
        self.stack@
    }
}

impl OpenKeyRequest {
    /// Build the request; fails when the names do not fit in one
    /// buffer.
    pub fn new(
        basis: Option<&str>,
        dict: &str,
        key: &str,
        create_dict: bool,
        create_key: bool,
        alloc_hint: Option<u64>,
    ) -> (r: Option<OpenKeyRequest>)
        ensures
            ({
                let enc = spec_open_key_request(
                    basis.deep_view(),
                    dict@,
                    key@,
                    create_dict,
                    create_key,
                    alloc_hint,
                );
                match r {
                    Some(req) => req@.len() == PAGE_SIZE && req@.take(enc.len() as int) == enc
                        && spec_open_key_request_ok(
                        basis.deep_view(),
                        dict@,
                        key@,
                        create_dict,
                        create_key,
                        alloc_hint,
                    ),
                    None => !spec_open_key_request_ok(
                        basis.deep_view(),
                        dict@,
                        key@,
                        create_dict,
                        create_key,
                        alloc_hint,
                    ),
                }
            }),
    {
        proof {
            vstd::bytes::lemma_auto_spec_u32_to_from_le_bytes();
        }
        let ghost enc = spec_open_key_request(
            basis.deep_view(),
            dict@,
            key@,
            create_dict,
            create_key,
            alloc_hint,
        );
        let stack = SenresStack::new(PAGE_SIZE);
        let mut w = stack.writer_tagged(TAG_OPEN_KEY_REQUEST);
        let version: u32 = KEY_VERSION;
        let _ok = w.append(&version);
        proof {
            assert(opt_str_enc(basis.deep_view()) == basis.enc());
            assert(opt_u64_enc(alloc_hint) == alloc_hint.enc());
        }
        if !w.append(&basis) {
            return None;
        }
        if !w.append(dict) {
            return None;
        }
        if !w.append(key) {
            return None;
        }
        let cd: u8 = if create_dict {
            1
        } else {
            0
        };
        let ck: u8 = if create_key {
            1
        } else {
            0
        };
        if !w.append(&cd) {
            return None;
        }
        if !w.append(&ck) {
            return None;
        }
        if !w.append(&alloc_hint) {
            return None;
        }
        proof {
            assert(w@ =~= enc);
        }
        Some(OpenKeyRequest { stack: w.finish() })
    }

    /// Hand the request buffer to the caller for the exchange.
    pub fn into_stack(self) -> (r: SenresStack)
        ensures
            r@ == self@,
    {
        self.stack
    }
}

/// The token and length carried by an open-key response, or the error
/// it reports.
pub open spec fn spec_open_response(s: Seq<u8>) -> Result<(ApiToken, u64), KeyError> {
    if !bytes_has_tag(s, TAG_OPEN_KEY_RESPONSE) || s.len() < 9 {
        Err(KeyError::Framing)
    } else {
        let rc = spec_retcode_from(s[8]);
        if rc != PddbRetcode::Success {
            Err(KeyError::Status(rc))
        } else if s.len() < 29 {
            Err(KeyError::Framing)
        } else {
            Ok(
                (
                    ApiToken {
                        w0: spec_u32_from_le_bytes(s.subrange(9, 13)),
                        w1: spec_u32_from_le_bytes(s.subrange(13, 17)),
                        w2: spec_u32_from_le_bytes(s.subrange(17, 21)),
                    },
                    spec_u64_from_le_bytes(s.subrange(21, 29)),
                ),
            )
        }
    }
}

impl Key {
    /// Adopt an open-key response: on success the handle starts at
    /// offset zero with the remote-reported length.  The marker and
    /// tag are validated before any field, and failure leaves no
    /// partially-decoded handle behind.
    pub fn open(connection: u32, response: &SenresStack) -> (r: Result<Key, KeyError>)
        ensures
            match r {
                Ok(k) => spec_open_response(response@) matches Ok(tl) && k.spec_token() == tl.0
                    && k.spec_len() == tl.1 && k.spec_offset() == 0 && k.spec_connection()
                    == connection,
                Err(e) => spec_open_response(response@) == Err::<(ApiToken, u64), KeyError>(e),
            },
    {
        proof {
            vstd::bytes::lemma_auto_spec_u32_to_from_le_bytes();
            vstd::bytes::lemma_auto_spec_u64_to_from_le_bytes();
        }
        let mut reader = match response.reader_tagged(TAG_OPEN_KEY_RESPONSE) {
            Some(rd) => rd,
            None => {
                return Err(KeyError::Framing);
            },
        };
        let status: u8 = match reader.try_get_from() {
            Ok(v) => v,
            Err(_) => {
                return Err(KeyError::Framing);
            },
        };
        proof {
            assert(response@.skip(8)[0] == response@[8]);
        }
        let rc = retcode_from_u8(status);
        if !matches!(rc, PddbRetcode::Success) {
            return Err(KeyError::Status(rc));
        }
        let w0: u32 = match reader.try_get_from() {
            Ok(v) => v,
            Err(_) => {
                return Err(KeyError::Framing);
            },
        };
        let w1: u32 = match reader.try_get_from() {
            Ok(v) => v,
            Err(_) => {
                return Err(KeyError::Framing);
            },
        };
        let w2: u32 = match reader.try_get_from() {
            Ok(v) => v,
            Err(_) => {
                return Err(KeyError::Framing);
            },
        };
        let len: u64 = match reader.try_get_from() {
            Ok(v) => v,
            Err(_) => {
                return Err(KeyError::Framing);
            },
        };
        proof {
            let s = response@;
            assert(s.skip(9).take(4) =~= s.subrange(9, 13));
            assert(s.skip(13).take(4) =~= s.subrange(13, 17));
            assert(s.skip(17).take(4) =~= s.subrange(17, 21));
            assert(s.skip(21).take(8) =~= s.subrange(21, 29));
            assert(s.skip(9) =~= s.skip(8).skip(1));
            assert(s.skip(13) =~= s.skip(9).skip(4));
            assert(s.skip(17) =~= s.skip(13).skip(4));
            assert(s.skip(21) =~= s.skip(17).skip(4));
        }
        Ok(Key { fd: ApiToken { w0, w1, w2 }, connection, offset: 0, len })
    }
}

/// The bytes of a read-key request: the token, the stream position,
/// and the requested length.
pub open spec fn spec_read_request(t: ApiToken, position: u64, len: u32) -> Seq<u8> {
    spec_u32_to_le_bytes(SENRES_V1_MAGIC) + spec_u32_to_le_bytes(TAG_READ_KEY_REQUEST)
        + spec_u32_to_le_bytes(t.w0) + spec_u32_to_le_bytes(t.w1) + spec_u32_to_le_bytes(t.w2)
        + spec_u64_to_le_bytes(position) + spec_u32_to_le_bytes(len)
}

/// The requested length after capping at one page's payload.
pub open spec fn spec_read_cap(len: u32) -> u32 {
    if len > MAX_READ_PAYLOAD {
        MAX_READ_PAYLOAD
    } else {
        len
    }
}

/// The payload carried by a read-key response, or the error it
/// reports.
pub open spec fn spec_read_response(s: Seq<u8>) -> Result<Seq<u8>, KeyError> {
    if !bytes_has_tag(s, TAG_READ_KEY_RESPONSE) || s.len() < 9 {
        Err(KeyError::Framing)
    } else {
        let rc = spec_retcode_from(s[8]);
        if rc != PddbRetcode::Success {
            Err(KeyError::Status(rc))
        } else if s.len() < 13 {
            Err(KeyError::Framing)
        } else {
            let nb = spec_u32_from_le_bytes(s.subrange(9, 13)) as int;
            if 13 + nb <= s.len() {
                Ok(s.subrange(13, 13 + nb))
            } else {
                Err(KeyError::Framing)
            }
        }
    }
}

/// The bytes of a write-key request: the token, the stream position,
/// and the length-prefixed payload.
pub open spec fn spec_write_request(t: ApiToken, position: u64, payload: Seq<u8>) -> Seq<u8> {
    spec_u32_to_le_bytes(SENRES_V1_MAGIC) + spec_u32_to_le_bytes(TAG_WRITE_KEY_REQUEST)
        + spec_u32_to_le_bytes(t.w0) + spec_u32_to_le_bytes(t.w1) + spec_u32_to_le_bytes(t.w2)
        + spec_u64_to_le_bytes(position) + spec_u32_to_le_bytes(payload.len() as u32) + payload
}

/// The byte count confirmed by a write-key response, or the error it
/// reports.
pub open spec fn spec_write_response(s: Seq<u8>) -> Result<u32, KeyError> {
    if !bytes_has_tag(s, TAG_WRITE_KEY_RESPONSE) || s.len() < 9 {
        Err(KeyError::Framing)
    } else {
        let rc = spec_retcode_from(s[8]);
        if rc != PddbRetcode::Success {
            Err(KeyError::Status(rc))
        } else if s.len() < 13 {
            Err(KeyError::Framing)
        } else {
            Ok(spec_u32_from_le_bytes(s.subrange(9, 13)))
        }
    }
}

impl Key {
    /// Build a request for up to `max_len` bytes at the current
    /// offset; the length is capped at one page's payload.
    pub fn read_request(&self, max_len: u32) -> (r: SenresStack)
        ensures
            r@.len() == PAGE_SIZE,
            r@.take(32) == spec_read_request(
                self.spec_token(),
                self.spec_offset(),
                spec_read_cap(max_len),
            ),
    {
        proof {
            vstd::bytes::lemma_auto_spec_u32_to_from_le_bytes();
            vstd::bytes::lemma_auto_spec_u64_to_from_le_bytes();
        }
        let capped: u32 = if max_len > MAX_READ_PAYLOAD {
            MAX_READ_PAYLOAD
        } else {
            max_len
        };
        let stack = SenresStack::new(PAGE_SIZE);
        let mut w = stack.writer_tagged(TAG_READ_KEY_REQUEST);
        let _ok = w.append(&self.fd.w0);
        let _ok = w.append(&self.fd.w1);
        let _ok = w.append(&self.fd.w2);
        let _ok = w.append(&self.offset);
        let _ok = w.append(&capped);
        proof {
            assert(w@ =~= spec_read_request(self.spec_token(), self.spec_offset(), capped));
        }
        w.finish()
    }

    /// Adopt a read-key response: on success the returned bytes (which
    /// may be fewer than requested) advance the local offset by their
    /// number; the cached length never changes on a read.  On any
    /// error the handle is left exactly as it was.
    pub fn finish_read(&mut self, response: &SenresStack) -> (r: Result<Vec<u8>, KeyError>)
        ensures
            final(self).spec_token() == old(self).spec_token(),
            final(self).spec_connection() == old(self).spec_connection(),
            final(self).spec_len() == old(self).spec_len(),
            match r {
                Ok(d) => spec_read_response(response@) == Ok::<Seq<u8>, KeyError>(d@) && old(
                    self,
                ).spec_offset() + d@.len() <= u64::MAX && final(self).spec_offset() == old(
                    self,
                ).spec_offset() + d@.len(),
                Err(e) => final(self).spec_offset() == old(self).spec_offset() && (match
                    spec_read_response(response@) {
                    Ok(d) => e == KeyError::Protocol && old(self).spec_offset() + d.len()
                        > u64::MAX,
                    Err(e2) => e == e2,
                }),
            },
    {
        proof {
            vstd::bytes::lemma_auto_spec_u32_to_from_le_bytes();
        }
        let mut reader = match response.reader_tagged(TAG_READ_KEY_RESPONSE) {
            Some(rd) => rd,
            None => {
                return Err(KeyError::Framing);
            },
        };
        let status: u8 = match reader.try_get_from() {
            Ok(v) => v,
            Err(_) => {
                return Err(KeyError::Framing);
            },
        };
        proof {
            assert(response@.skip(8)[0] == response@[8]);
        }
        let rc = retcode_from_u8(status);
        if !matches!(rc, PddbRetcode::Success) {
            return Err(KeyError::Status(rc));
        }
        let bytes = match reader.try_get_bytes_ref() {
            Ok(b) => b,
            Err(_) => {
                proof {
                    let s = response@;
                    assert(s.skip(9) =~= s.skip(8).skip(1));
                    if s.len() >= 13 {
                        assert(s.skip(9).take(4) =~= s.subrange(9, 13));
                    }
                }
                return Err(KeyError::Framing);
            },
        };
        proof {
            let s = response@;
            assert(s.skip(9).take(4) =~= s.subrange(9, 13));
            assert(s.skip(9) =~= s.skip(8).skip(1));
            assert(s.skip(9).subrange(4, 4 + bytes@.len() as int) =~= s.subrange(
                13,
                13 + bytes@.len() as int,
            ));
        }
        let n = bytes.len();
        let n64 = n as u64;
        if self.offset > u64::MAX - n64 {
            return Err(KeyError::Protocol);
        }
        self.offset = self.offset + n64;
        Ok(vstd::slice::slice_to_vec(bytes))
    }

    /// Build a request writing `data` (capped at one page's payload)
    /// at the current offset.  Returns the request and the number of
    /// payload bytes it carries.
    pub fn write_request(&self, data: &[u8]) -> (r: (SenresStack, usize))
        ensures
            r.1 == if data@.len() > MAX_WRITE_PAYLOAD {
                MAX_WRITE_PAYLOAD as int
            } else {
                data@.len() as int
            },
            r.0@.len() == PAGE_SIZE,
            r.0@.take(32 + r.1 as int) == spec_write_request(
                self.spec_token(),
                self.spec_offset(),
                data@.take(r.1 as int),
            ),
    {
        proof {
            vstd::bytes::lemma_auto_spec_u32_to_from_le_bytes();
            vstd::bytes::lemma_auto_spec_u64_to_from_le_bytes();
        }
        let m: usize = if data.len() > MAX_WRITE_PAYLOAD {
            MAX_WRITE_PAYLOAD
        } else {
            data.len()
        };
        let payload = vstd::slice::slice_to_vec(vstd::slice::slice_subrange(data, 0, m));
        let stack = SenresStack::new(PAGE_SIZE);
        let mut w = stack.writer_tagged(TAG_WRITE_KEY_REQUEST);
        let _ok = w.append(&self.fd.w0);
        let _ok = w.append(&self.fd.w1);
        let _ok = w.append(&self.fd.w2);
        let _ok = w.append(&self.offset);
        proof {
            lemma_enc_list_u8(payload@);
        }
        let _ok = w.append(&payload);
        proof {
            assert(w@ =~= spec_write_request(
                self.spec_token(),
                self.spec_offset(),
                data@.take(m as int),
            ));
        }
        (w.finish(), m)
    }

    /// Adopt a write-key response: on success the confirmed count
    /// advances the local offset, and the cached length grows when the
    /// offset moves past it.  On any error the handle is left exactly
    /// as it was.
    pub fn finish_write(&mut self, response: &SenresStack) -> (r: Result<usize, KeyError>)
        ensures
            final(self).spec_token() == old(self).spec_token(),
            final(self).spec_connection() == old(self).spec_connection(),
            match r {
                Ok(n) => {
                    &&& n <= u32::MAX
                    &&& spec_write_response(response@) == Ok::<u32, KeyError>(n as u32)
                    &&& old(self).spec_offset() + n <= u64::MAX
                    &&& final(self).spec_offset() == old(self).spec_offset() + n
                    &&& final(self).spec_len() == (if final(self).spec_offset() > old(self).spec_len() {
                        final(self).spec_offset()
                    } else {
                        old(self).spec_len()
                    })
                },
                Err(e) => {
                    &&& final(self).spec_offset() == old(self).spec_offset()
                    &&& final(self).spec_len() == old(self).spec_len()
                    &&& match spec_write_response(response@) {
                        Ok(n) => e == KeyError::Protocol && old(self).spec_offset() + n
                            > u64::MAX,
                        Err(e2) => e == e2,
                    }
                },
            },
    {
        proof {
            vstd::bytes::lemma_auto_spec_u32_to_from_le_bytes();
        }
        let mut reader = match response.reader_tagged(TAG_WRITE_KEY_RESPONSE) {
            Some(rd) => rd,
            None => {
                return Err(KeyError::Framing);
            },
        };
        let status: u8 = match reader.try_get_from() {
            Ok(v) => v,
            Err(_) => {
                return Err(KeyError::Framing);
            },
        };
        proof {
            assert(response@.skip(8)[0] == response@[8]);
        }
        let rc = retcode_from_u8(status);
        if !matches!(rc, PddbRetcode::Success) {
            return Err(KeyError::Status(rc));
        }
        let n: u32 = match reader.try_get_from() {
            Ok(v) => v,
            Err(_) => {
                return Err(KeyError::Framing);
            },
        };
        proof {
            let s = response@;
            assert(s.skip(9).take(4) =~= s.subrange(9, 13));
            assert(s.skip(9) =~= s.skip(8).skip(1));
        }
        let n64 = n as u64;
        if self.offset > u64::MAX - n64 {
            return Err(KeyError::Protocol);
        }
        self.offset = self.offset + n64;
        if self.offset > self.len {
            self.len = self.offset;
        }
        Ok(n as usize)
    }
}

/// Tag of an enumerate-keys request (ASCII `keyQ`).
pub const TAG_LIST_KEY_REQUEST: u32 = 0x5179_656B;

/// Tag of an enumerate-keys response (ASCII `keyR`).
pub const TAG_LIST_KEY_RESPONSE: u32 = 0x5279_656B;

/// The bytes of an enumerate-keys request.
pub open spec fn spec_list_key_request(basis: Option<Seq<char>>, dict: Seq<char>) -> Seq<u8> {
    spec_u32_to_le_bytes(SENRES_V1_MAGIC) + spec_u32_to_le_bytes(TAG_LIST_KEY_REQUEST)
        + spec_u32_to_le_bytes(KEY_VERSION) + opt_str_enc(basis) + str_enc(dict)
}

/// Whether an enumerate-keys request is encodable and fits in one
/// buffer.
pub open spec fn spec_list_key_request_ok(basis: Option<Seq<char>>, dict: Seq<char>) -> bool {
    &&& match basis {
        Some(b) => str_enc_ok(b),
        None => true,
    }
    &&& str_enc_ok(dict)
    &&& spec_list_key_request(basis, dict).len() <= PAGE_SIZE
}

/// A request buffer asking the remote to enumerate a dictionary's
/// keys.
pub struct ListKeyRequest {
    stack: SenresStack,
}

impl View for ListKeyRequest {
    type V = Seq<u8>;

    closed spec fn view(&self) -> Seq<u8> {
        self.stack@
    }
}

impl ListKeyRequest {
    /// Build the request; fails when the names do not fit in one
    /// buffer.
    pub fn new(basis: Option<&str>, dict: &str) -> (r: Option<ListKeyRequest>)
        ensures
            ({
                let enc = spec_list_key_request(basis.deep_view(), dict@);
                match r {
                    Some(req) => req@.len() == PAGE_SIZE && req@.take(enc.len() as int) == enc
                        && spec_list_key_request_ok(basis.deep_view(), dict@),
                    None => !spec_list_key_request_ok(basis.deep_view(), dict@),
                }
            }),
    {
        proof {
            vstd::bytes::lemma_auto_spec_u32_to_from_le_bytes();
        }
        let stack = SenresStack::new(PAGE_SIZE);
        let mut w = stack.writer_tagged(TAG_LIST_KEY_REQUEST);
        let version: u32 = KEY_VERSION;
        let _ok = w.append(&version);
        proof {
            assert(opt_str_enc(basis.deep_view()) == basis.enc());
        }
        if !w.append(&basis) {
            return None;
        }
        if !w.append(dict) {
            return None;
        }
        proof {
            assert(w@ =~= spec_list_key_request(basis.deep_view(), dict@));
        }
        Some(ListKeyRequest { stack: w.finish() })
    }

    /// Hand the request buffer to the caller for the exchange.
    pub fn into_stack(self) -> (r: SenresStack)
        ensures
            r@ == self@,
    {
        self.stack
    }
}

/// The count field of a well-formed enumerate-keys response.
pub open spec fn spec_key_list_count(s: Seq<u8>) -> Option<u32> {
    if bytes_has_tag(s, TAG_LIST_KEY_RESPONSE) && s.len() >= 16 && s.subrange(8, 12)
        == spec_u32_to_le_bytes(KEY_VERSION) {
        Some(spec_u32_from_le_bytes(s.subrange(12, 16)))
    } else {
        None
    }
}

/// A response buffer holding an enumeration of key names.
pub struct KeyList {
    stack: SenresStack,
    count: u32,
}

impl KeyList {
    /// The underlying response bytes.
    pub closed spec fn view(&self) -> Seq<u8> {
        self.stack@
    }

    pub closed spec fn wf(&self) -> bool {
        spec_key_list_count(self.stack@) == Some(self.count)
    }

    pub closed spec fn spec_count(&self) -> u32 {
        self.count
    }

    /// Adopt a remote-filled response buffer.  The marker, tag and
    /// version are validated before any entry is exposed.
    pub fn new(stack: SenresStack) -> (r: Option<KeyList>)
        ensures
            match r {
                Some(list) => list.wf() && list@ == stack@ && spec_key_list_count(stack@) == Some(
                    list.spec_count(),
                ),
                None => spec_key_list_count(stack@) is None,
            },
    {
        proof {
            vstd::bytes::lemma_auto_spec_u32_to_from_le_bytes();
        }
        let mut reader = match stack.reader_tagged(TAG_LIST_KEY_RESPONSE) {
            Some(rd) => rd,
            None => {
                return None;
            },
        };
        let version: u32 = match reader.try_get_from() {
            Ok(v) => v,
            Err(_) => {
                return None;
            },
        };
        proof {
            assert(stack@.skip(8).take(4) =~= stack@.subrange(8, 12));
            assert(spec_u32_to_le_bytes(version).len() == 4);
            assert(spec_u32_to_le_bytes(KEY_VERSION).len() == 4);
        }
        if version != KEY_VERSION {
            return None;
        }
        let count: u32 = match reader.try_get_from() {
            Ok(v) => v,
            Err(_) => {
                return None;
            },
        };
        proof {
            assert(stack@.skip(8).skip(4) =~= stack@.skip(12));
            assert(stack@.skip(12).take(4) =~= stack@.subrange(12, 16));
            assert(spec_u32_to_le_bytes(count).len() == 4);
        }
        Some(KeyList { stack, count })
    }

    /// Number of key names in the response.
    pub fn len(&self) -> (r: usize)
        requires
            self.wf(),
        ensures
            r == self.spec_count(),
    {
        self.count as usize
    }

    /// Walk the names without materialising them.
    pub fn iter<'a>(&'a self) -> (r: KeyListIter<'a>)
        requires
            self.wf(),
        ensures
            r.wf(),
            r.spec_remaining() == self.spec_count(),
            r.spec_rest() == self@.skip(16),
    {
        KeyListIter::new(self)
    }
}

/// A lazy, forward-only walk over the names in a [`KeyList`].
pub struct KeyListIter<'a> {
    reader: SenresReader<'a>,
    index: u32,
    count: u32,
}

impl<'a> KeyListIter<'a> {
    pub closed spec fn wf(&self) -> bool {
        self.reader.wf() && self.index <= self.count
    }

    /// How many names have not been yielded yet.
    pub closed spec fn spec_remaining(&self) -> int {
        self.count - self.index
    }

    /// The undecoded bytes the next name will be read from.
    pub closed spec fn spec_rest(&self) -> Seq<u8> {
        self.reader.remaining()
    }

    /// Position the cursor just past the response header (marker,
    /// tag, version and count), at the first length-prefixed name.
    pub fn new(list: &'a KeyList) -> (r: KeyListIter<'a>)
        requires
            list.wf(),
        ensures
            r.wf(),
            r.spec_remaining() == list.spec_count(),
            r.spec_rest() == list@.skip(16),
    {
        proof {
            vstd::bytes::lemma_auto_spec_u32_to_from_le_bytes();
        }
        let reader = match list.stack.reader_tagged(TAG_LIST_KEY_RESPONSE) {
            Some(rd) => rd,
            None => {
                proof {
                    assert(false);
                }
                vstd::pervasive::unreached()
            },
        };
        let mut it = KeyListIter { reader, index: 0, count: list.count };
        let version: u32 = match it.reader.try_get_from() {
            Ok(v) => v,
            Err(_) => {
                proof {
                    assert(false);
                }
                vstd::pervasive::unreached()
            },
        };
        let count: u32 = match it.reader.try_get_from() {
            Ok(v) => v,
            Err(_) => {
                proof {
                    assert(false);
                }
                vstd::pervasive::unreached()
            },
        };
        proof {
            assert(spec_u32_to_le_bytes(version).len() == 4);
            assert(spec_u32_to_le_bytes(count).len() == 4);
            assert(it.reader.remaining() =~= list@.skip(16));
        }
        it
    }

    /// Yield the next name as a zero-copy view into the response, or
    /// nothing once the advertised count is exhausted (in particular,
    /// immediately for an empty enumeration) or when an entry is
    /// malformed.
    pub fn next(&mut self) -> (r: Option<&'a str>)
        requires
            old(self).wf(),
        ensures
            final(self).wf(),
            old(self).spec_remaining() == 0 ==> r is None && *final(self) == *old(self),
            old(self).spec_remaining() > 0 ==> match r {
                Some(s) => {
                    &&& str_dec(old(self).spec_rest()) == Some((s@, str_enc(s@).len() as int))
                    &&& final(self).spec_rest() == old(self).spec_rest().skip(
                        str_enc(s@).len() as int,
                    )
                    &&& final(self).spec_remaining() == old(self).spec_remaining() - 1
                },
                None => {
                    &&& str_dec(old(self).spec_rest()) is None
                    &&& final(self).spec_rest() == old(self).spec_rest()
                    &&& final(self).spec_remaining() == old(self).spec_remaining()
                },
            },
    {
        if self.index >= self.count {
            return None;
        }
        let entry = match self.reader.try_get_ref_from() {
            Ok(s) => s,
            Err(_) => {
                return None;
            },
        };
        self.index = self.index + 1;
        proof {
            let k = str_enc(entry@).len() as int;
            let b = self.reader.buf();
            let o = old(self).reader.offset();
            assert(b.skip(o).skip(k) =~= b.skip(o + k));
        }
        Some(entry)
    }
}

} // verus!
