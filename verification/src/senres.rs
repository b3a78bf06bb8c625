//! Self-describing binary codec over fixed-size, page-sized buffers.
//!
//! A [`SenresStack`] owns one buffer whose capacity is a multiple of the
//! 4096-byte page size.  A [`SenresWriter`] appends typed values after a
//! format marker (and, for tagged operation families, a direction tag);
//! a [`SenresReader`] validates the marker and tag before any field is
//! decoded.  Every encodable kind carries its mathematical encoding as a
//! spec-level byte sequence ([`SenSer::enc`]) and every decodable kind a
//! spec-level parser ([`RecDes::dec`]), so that decoding is proved to
//! invert encoding.

use vstd::prelude::*;

verus! {

use vstd::bytes::*;
use vstd::string::StringSliceAdditionalSpecFns;

/// Format marker found in the first four bytes of every valid buffer.
pub const SENRES_V1_MAGIC: u32 = 0x344cb6ca;

/// Page size every buffer capacity must be a multiple of.
pub const PAGE_SIZE: usize = 4096;

/// Whether a byte sequence begins with the format marker.
pub open spec fn bytes_has_magic(s: Seq<u8>) -> bool {
    s.len() >= 4 && s.subrange(0, 4) == spec_u32_to_le_bytes(SENRES_V1_MAGIC)
}

/// Whether a byte sequence begins with the format marker followed by
/// the little-endian direction tag `tag`.
pub open spec fn bytes_has_tag(s: Seq<u8>, tag: u32) -> bool {
    bytes_has_magic(s) && s.len() >= 8 && s.subrange(4, 8) == spec_u32_to_le_bytes(tag)
}

/// A fixed-size byte buffer exchanged with the remote service.
#[derive(Debug)]
pub struct SenresStack {
    data: Vec<u8>,
}

impl Default for SenresStack {
    /// A zero-filled buffer of one page.
    fn default() -> (r: SenresStack)
        ensures
            r.wf(),
            r@.len() == PAGE_SIZE,
            forall|i: int| 0 <= i < PAGE_SIZE ==> r@[i] == 0u8,
    {
        SenresStack::new(PAGE_SIZE)
    }
}

impl View for SenresStack {
    type V = Seq<u8>;

    closed spec fn view(&self) -> Seq<u8> {
        self.data@
    }
}

impl SenresStack {
    /// Capacity is a positive multiple of the page size.
    pub open spec fn wf(&self) -> bool {
        self@.len() % (PAGE_SIZE as nat) == 0 && self@.len() >= PAGE_SIZE
    }

    /// A zero-filled buffer of the given capacity.
    pub fn new(capacity: usize) -> (r: SenresStack)
        requires
            capacity % PAGE_SIZE == 0,
            capacity >= PAGE_SIZE,
        ensures
            r.wf(),
            r@.len() == capacity,
            forall|i: int| 0 <= i < capacity ==> r@[i] == 0u8,
    {
        SenresStack { data: vec![0u8; capacity] }
    }

    /// Capacity of the buffer in bytes.
    pub fn capacity(&self) -> (r: usize)
        ensures
            r == self@.len(),
    {
        self.data.len()
    }

    /// Hand the raw bytes to the caller (for the buffer exchange).
    pub fn into_vec(self) -> (r: Vec<u8>)
        ensures
            r@ == self@,
    {
        self.data
    }

    /// Rebuild a buffer from raw bytes; fails unless the length is a
    /// positive multiple of the page size.
    pub fn from_vec(data: Vec<u8>) -> (r: Option<SenresStack>)
        ensures
            match r {
                Some(s) => s.wf() && s@ == data@ && data@.len() % (
                PAGE_SIZE as nat) == 0 && data@.len() >= PAGE_SIZE,
                None => !(data@.len() % (PAGE_SIZE as nat) == 0 && data@.len() >= PAGE_SIZE),
            },
    {
        if data.len() % PAGE_SIZE == 0 && data.len() >= PAGE_SIZE {
            Some(SenresStack { data })
        } else {
            None
        }
    }

    /// Begin writing: the format marker is laid down first.
    pub fn writer(self) -> (w: SenresWriter)
        requires
            self.wf(),
        ensures
            w.wf(),
            w.cap() == self@.len(),
            w@ == spec_u32_to_le_bytes(SENRES_V1_MAGIC),
    {
        let mut w = SenresWriter { data: self.data, offset: 0 };
        proof {
            lemma_auto_spec_u32_to_from_le_bytes();
        }
        let bytes = u32_to_le_bytes(SENRES_V1_MAGIC);
        let _ok = w.push_bytes(bytes.as_slice());
        w
    }

    /// Begin writing a tagged request: marker, then the direction tag.
    pub fn writer_tagged(self, tag: u32) -> (w: SenresWriter)
        requires
            self.wf(),
        ensures
            w.wf(),
            w.cap() == self@.len(),
            w@ == spec_u32_to_le_bytes(SENRES_V1_MAGIC) + spec_u32_to_le_bytes(tag),
    {
        let mut w = self.writer();
        proof {
            lemma_auto_spec_u32_to_from_le_bytes();
        }
        let bytes = u32_to_le_bytes(tag);
        let _ok = w.push_bytes(bytes.as_slice());
        w
    }

    /// Whether the buffer begins with the format marker.
    pub open spec fn has_magic(self) -> bool {
        bytes_has_magic(self@)
    }

    /// Whether the buffer begins with the format marker followed by `tag`.
    pub open spec fn has_tag(self, tag: u32) -> bool {
        bytes_has_tag(self@, tag)
    }

    /// Begin reading; fails unless the format marker is present.
    pub fn reader<'a>(&'a self) -> (r: Option<SenresReader<'a>>)
        ensures
            match r {
                Some(rd) => rd.wf() && rd.buf() == self@ && rd.offset() == 4 && self.has_magic(),
                None => !self.has_magic(),
            },
    {
        proof {
            lemma_auto_spec_u32_to_from_le_bytes();
        }
        if self.data.len() < 4 {
            return None;
        }
        let head = u32_from_le_bytes(vstd::slice::slice_subrange(self.data.as_slice(), 0, 4));
        proof {
            assert(self@.subrange(0, 4) =~= self@.take(4).subrange(0, 4));
        }
        if head == SENRES_V1_MAGIC {
            Some(SenresReader { data: &self.data, offset: 4 })
        } else {
            None
        }
    }

    /// Begin reading a tagged response; fails unless the marker and the
    /// expected tag are both present.  A buffer written under a
    /// different tag is refused here, before any field access.
    pub fn reader_tagged<'a>(&'a self, tag: u32) -> (r: Option<SenresReader<'a>>)
        ensures
            match r {
                Some(rd) => rd.wf() && rd.buf() == self@ && rd.offset() == 8 && self.has_tag(tag),
                None => !self.has_tag(tag),
            },
    {
        proof {
            lemma_auto_spec_u32_to_from_le_bytes();
        }
        let rd = self.reader();
        if rd.is_none() {
            return None;
        }
        if self.data.len() < 8 {
            return None;
        }
        let found = u32_from_le_bytes(vstd::slice::slice_subrange(self.data.as_slice(), 4, 8));
        proof {
            assert(self@.subrange(4, 8).len() == 4);
            assert(spec_u32_to_le_bytes(spec_u32_from_le_bytes(self@.subrange(4, 8))) == self@
                .subrange(4, 8));
        }
        if found == tag {
            Some(SenresReader { data: &self.data, offset: 8 })
        } else {
            None
        }
    }
}

/// A forward-only encoding cursor over a buffer.
pub struct SenresWriter {
    data: Vec<u8>,
    offset: usize,
}

impl View for SenresWriter {
    type V = Seq<u8>;

    /// The bytes written so far.
    closed spec fn view(&self) -> Seq<u8> {
        self.data@.take(self.offset as int)
    }
}

impl SenresWriter {
    /// Total capacity of the underlying buffer.
    pub closed spec fn cap(&self) -> int {
        self.data@.len() as int
    }

    pub closed spec fn wf(&self) -> bool {
        self.offset <= self.data@.len() && self.data@.len() % (PAGE_SIZE as nat) == 0
            && self.data@.len() >= PAGE_SIZE
    }

    /// Number of bytes written so far.
    pub fn offset(&self) -> (r: usize)
        requires
            self.wf(),
        ensures
            r == self@.len(),
    {
        self.offset
    }

    /// Finish writing and recover the buffer.  The bytes written form a
    /// prefix of the buffer; the rest is unchanged filler.
    pub fn finish(self) -> (s: SenresStack)
        requires
            self.wf(),
        ensures
            s.wf(),
            s@.len() == self.cap(),
            s@.take(self@.len() as int) == self@,
    {
        SenresStack { data: self.data }
    }

    /// Append raw bytes, all or nothing.
    fn push_bytes(&mut self, bytes: &[u8]) -> (r: bool)
        requires
            old(self).wf(),
        ensures
            final(self).wf(),
            final(self).cap() == old(self).cap(),
            r <==> old(self)@.len() + bytes@.len() <= old(self).cap(),
            r ==> final(self)@ == old(self)@ + bytes@,
            !r ==> final(self)@ == old(self)@,
    {
        let n = bytes.len();
        if n > self.data.len() - self.offset {
            return false;
        }
        let mut i: usize = 0;
        while i < n
            invariant
                i <= n,
                n == bytes@.len(),
                self.offset == old(self).offset,
                self.offset + n <= self.data@.len(),
                self.data@.len() <= usize::MAX,
                self.data@.len() == old(self).data@.len(),
                forall|j: int|
                    0 <= j < self.data@.len() && !(self.offset <= j < self.offset + i)
                        ==> self.data@[j] == old(self).data@[j],
                forall|j: int| 0 <= j < i ==> self.data@[self.offset + j] == bytes@[j],
            decreases n - i,
        {
            let b = *vstd::slice::slice_index_get(bytes, i);
            self.data[self.offset + i] = b;
            i += 1;
        }
        self.offset = self.offset + n;
        proof {
            assert(self@ =~= old(self)@ + bytes@);
        }
        true
    }

    /// Drop everything written at or past position `to`.
    fn rewind(&mut self, to: usize)
        requires
            old(self).wf(),
            to <= old(self)@.len(),
        ensures
            final(self).wf(),
            final(self).cap() == old(self).cap(),
            final(self)@ == old(self)@.take(to as int),
    {
        self.offset = to;
        proof {
            assert(self@ =~= old(self)@.take(to as int));
        }
    }
}

/// A forward-only decoding cursor over a borrowed buffer.
pub struct SenresReader<'a> {
    data: &'a Vec<u8>,
    offset: usize,
}

impl<'a> SenresReader<'a> {
    /// The whole underlying buffer.
    pub closed spec fn buf(&self) -> Seq<u8> {
        self.data@
    }

    /// Position of the cursor.
    pub closed spec fn offset(&self) -> int {
        self.offset as int
    }

    pub open spec fn wf(&self) -> bool {
        0 <= self.offset() <= self.buf().len()
    }

    /// The bytes not yet consumed.
    pub open spec fn remaining(&self) -> Seq<u8> {
        self.buf().skip(self.offset())
    }

    /// Position of the cursor, for callers comparing against a writer.
    pub fn position(&self) -> (r: usize)
        requires
            self.wf(),
        ensures
            r == self.offset(),
    {
        self.offset
    }

    /// Number of bytes not yet consumed.
    fn remaining_len(&self) -> (r: usize)
        requires
            self.wf(),
        ensures
            r == self.remaining().len(),
    {
        self.data.len() - self.offset
    }

    /// Borrow the next `n` bytes without consuming them.
    fn peek(&self, n: usize) -> (r: &'a [u8])
        requires
            self.wf(),
            n <= self.remaining().len(),
        ensures
            r@ == self.remaining().take(n as int),
    {
        let total = self.data.len();
        let r = vstd::slice::slice_subrange(self.data.as_slice(), self.offset, self.offset + n);
        proof {
            assert(r@ =~= self.remaining().take(n as int));
        }
        r
    }

    /// Consume `n` bytes.
    fn advance(&mut self, n: usize)
        requires
            old(self).wf(),
            n <= old(self).remaining().len(),
        ensures
            final(self).wf(),
            final(self).buf() == old(self).buf(),
            final(self).offset() == old(self).offset() + n,
    {
        let total = self.data.len();
        self.offset = self.offset + n;
    }

    /// Put the cursor back at an earlier position, so that a failed
    /// decode leaves no partial advance behind.
    fn reset(&mut self, to: usize)
        requires
            old(self).wf(),
            to <= old(self).buf().len(),
        ensures
            final(self).wf(),
            final(self).buf() == old(self).buf(),
            final(self).offset() == to,
    {
        self.offset = to;
    }

    /// Decode the next owned value of type `T`.
    pub fn try_get_from<T: RecDes>(&mut self) -> (res: Result<T, ()>)
        requires
            old(self).wf(),
        ensures
            final(self).wf(),
            final(self).buf() == old(self).buf(),
            match res {
                Ok(v) => {
                    &&& v.enc_ok()
                    &&& T::dec(old(self).remaining()) == Some(
                        (v.deep_view(), v.enc().len() as int),
                    )
                    &&& v.enc().is_prefix_of(old(self).remaining())
                    &&& final(self).offset() == old(self).offset() + v.enc().len()
                },
                Err(_) => {
                    &&& T::dec(old(self).remaining()) is None
                    &&& final(self).offset() == old(self).offset()
                },
            },
    {
        T::try_get_from(self)
    }
}

/// A value that can be appended to a writer.
///
/// `enc` is the value's byte encoding; `enc_ok` says whether the value
/// is encodable at all (every length prefix fits in 32 bits).  An
/// append either writes exactly `enc` or leaves the writer unchanged,
/// and it succeeds exactly when the value is encodable and fits in the
/// remaining capacity.
pub trait SenSer {
    /// The byte encoding of this value.
    spec fn enc(&self) -> Seq<u8>;

    /// Whether the value is encodable.
    spec fn enc_ok(&self) -> bool;

    /// Append the encoding of `self`, all or nothing.
    fn append_to(&self, w: &mut SenresWriter) -> (r: bool)
        requires
            old(w).wf(),
        ensures
            final(w).wf(),
            final(w).cap() == old(w).cap(),
            r ==> final(w)@ == old(w)@ + self.enc(),
            !r ==> final(w)@ == old(w)@,
            r <==> (self.enc_ok() && old(w)@.len() + self.enc().len() <= old(w).cap()),
    ;
}

impl SenresWriter {
    /// Append a typed value, all or nothing.
    pub fn append<T: SenSer + ?Sized>(&mut self, other: &T) -> (r: bool)
        requires
            old(self).wf(),
        ensures
            final(self).wf(),
            final(self).cap() == old(self).cap(),
            r ==> final(self)@ == old(self)@ + other.enc(),
            !r ==> final(self)@ == old(self)@,
            r <==> (other.enc_ok() && old(self)@.len() + other.enc().len() <= old(self).cap()),
    {
        other.append_to(self)
    }
}

/// A value that can be decoded from a reader, owned.
///
/// `dec` is the spec-level parser: given the bytes at the cursor it
/// yields the decoded value's abstract form and the number of bytes
/// consumed, or nothing if the bytes do not begin with a valid
/// encoding.  [`RecDes::lemma_dec_enc`] is the round-trip law: the
/// parser, applied to an encoding, returns exactly the encoded value.
pub trait RecDes: SenSer + Sized + DeepView {
    /// Spec-level parser for this kind.
    spec fn dec(s: Seq<u8>) -> Option<(<Self as DeepView>::V, int)>;

    /// Round trip: decoding an encoding yields the encoded value and
    /// consumes exactly the encoding.
    proof fn lemma_dec_enc(&self, rest: Seq<u8>)
        requires
            self.enc_ok(),
        ensures
            Self::dec(self.enc() + rest) == Some((self.deep_view(), self.enc().len() as int)),
    ;

    /// Decode the next value of this kind.
    fn try_get_from(r: &mut SenresReader<'_>) -> (res: Result<Self, ()>)
        requires
            old(r).wf(),
        ensures
            final(r).wf(),
            final(r).buf() == old(r).buf(),
            match res {
                Ok(v) => {
                    &&& v.enc_ok()
                    &&& Self::dec(old(r).remaining()) == Some(
                        (v.deep_view(), v.enc().len() as int),
                    )
                    &&& v.enc().is_prefix_of(old(r).remaining())
                    &&& final(r).offset() == old(r).offset() + v.enc().len()
                },
                Err(_) => {
                    &&& Self::dec(old(r).remaining()) is None
                    &&& final(r).offset() == old(r).offset()
                },
            },
    ;
}

impl SenSer for u32 {
    open spec fn enc(&self) -> Seq<u8> {
        spec_u32_to_le_bytes(*self)
    }

    open spec fn enc_ok(&self) -> bool {
        true
    }

    fn append_to(&self, w: &mut SenresWriter) -> (r: bool) {
        proof {
            lemma_auto_spec_u32_to_from_le_bytes();
        }
        let bytes = u32_to_le_bytes(*self);
        w.push_bytes(bytes.as_slice())
    }
}

impl RecDes for u32 {
    open spec fn dec(s: Seq<u8>) -> Option<(u32, int)> {
        if s.len() >= 4 {
            Some((spec_u32_from_le_bytes(s.take(4)), 4))
        } else {
            None
        }
    }

    proof fn lemma_dec_enc(&self, rest: Seq<u8>) {
        lemma_auto_spec_u32_to_from_le_bytes();
        assert((self.enc() + rest).take(4) =~= self.enc());
    }

    fn try_get_from(r: &mut SenresReader<'_>) -> (res: Result<Self, ()>) {
        proof {
            lemma_auto_spec_u32_to_from_le_bytes();
        }
        if r.remaining_len() < 4 {
            return Err(());
        }
        let v = u32_from_le_bytes(r.peek(4));
        r.advance(4);
        Ok(v)
    }
}

impl SenSer for u8 {
    open spec fn enc(&self) -> Seq<u8> {
        seq![*self]
    }

    open spec fn enc_ok(&self) -> bool {
        true
    }

    fn append_to(&self, w: &mut SenresWriter) -> (r: bool) {
        let bytes = vec![*self];
        w.push_bytes(bytes.as_slice())
    }
}

impl RecDes for u8 {
    open spec fn dec(s: Seq<u8>) -> Option<(u8, int)> {
        if s.len() >= 1 {
            Some((s[0], 1))
        } else {
            None
        }
    }

    proof fn lemma_dec_enc(&self, rest: Seq<u8>) {
    }

    fn try_get_from(r: &mut SenresReader<'_>) -> (res: Result<Self, ()>) {
        if r.remaining_len() < 1 {
            return Err(());
        }
        let v = *vstd::slice::slice_index_get(r.peek(1), 0);
        r.advance(1);
        Ok(v)
    }
}

impl SenSer for u16 {
    open spec fn enc(&self) -> Seq<u8> {
        spec_u16_to_le_bytes(*self)
    }

    open spec fn enc_ok(&self) -> bool {
        true
    }

    fn append_to(&self, w: &mut SenresWriter) -> (r: bool) {
        proof {
            lemma_auto_spec_u16_to_from_le_bytes();
        }
        let bytes = u16_to_le_bytes(*self);
        w.push_bytes(bytes.as_slice())
    }
}

impl RecDes for u16 {
    open spec fn dec(s: Seq<u8>) -> Option<(u16, int)> {
        if s.len() >= 2 {
            Some((spec_u16_from_le_bytes(s.take(2)), 2))
        } else {
            None
        }
    }

    proof fn lemma_dec_enc(&self, rest: Seq<u8>) {
        lemma_auto_spec_u16_to_from_le_bytes();
        assert((self.enc() + rest).take(2) =~= self.enc());
    }

    fn try_get_from(r: &mut SenresReader<'_>) -> (res: Result<Self, ()>) {
        proof {
            lemma_auto_spec_u16_to_from_le_bytes();
        }
        if r.remaining_len() < 2 {
            return Err(());
        }
        let v = u16_from_le_bytes(r.peek(2));
        r.advance(2);
        Ok(v)
    }
}

impl SenSer for u64 {
    open spec fn enc(&self) -> Seq<u8> {
        spec_u64_to_le_bytes(*self)
    }

    open spec fn enc_ok(&self) -> bool {
        true
    }

    fn append_to(&self, w: &mut SenresWriter) -> (r: bool) {
        proof {
            lemma_auto_spec_u64_to_from_le_bytes();
        }
        let bytes = u64_to_le_bytes(*self);
        w.push_bytes(bytes.as_slice())
    }
}

impl RecDes for u64 {
    open spec fn dec(s: Seq<u8>) -> Option<(u64, int)> {
        if s.len() >= 8 {
            Some((spec_u64_from_le_bytes(s.take(8)), 8))
        } else {
            None
        }
    }

    proof fn lemma_dec_enc(&self, rest: Seq<u8>) {
        lemma_auto_spec_u64_to_from_le_bytes();
        assert((self.enc() + rest).take(8) =~= self.enc());
    }

    fn try_get_from(r: &mut SenresReader<'_>) -> (res: Result<Self, ()>) {
        proof {
            lemma_auto_spec_u64_to_from_le_bytes();
        }
        if r.remaining_len() < 8 {
            return Err(());
        }
        let v = u64_from_le_bytes(r.peek(8));
        r.advance(8);
        Ok(v)
    }
}

impl SenSer for i8 {
    open spec fn enc(&self) -> Seq<u8> {
        seq![*self as u8]
    }

    open spec fn enc_ok(&self) -> bool {
        true
    }

    fn append_to(&self, w: &mut SenresWriter) -> (r: bool) {
        let b = #[verifier::truncate] (*self as u8);
        let bytes = vec![b];
        w.push_bytes(bytes.as_slice())
    }
}

impl RecDes for i8 {
    open spec fn dec(s: Seq<u8>) -> Option<(i8, int)> {
        if s.len() >= 1 {
            Some((s[0] as i8, 1))
        } else {
            None
        }
    }

    proof fn lemma_dec_enc(&self, rest: Seq<u8>) {
        let v = *self;
        assert((v as u8) as i8 == v) by (bit_vector);
    }

    fn try_get_from(r: &mut SenresReader<'_>) -> (res: Result<Self, ()>) {
        if r.remaining_len() < 1 {
            return Err(());
        }
        let b = *vstd::slice::slice_index_get(r.peek(1), 0);
        let v = #[verifier::truncate] (b as i8);
        r.advance(1);
        proof {
            assert((b as i8) as u8 == b) by (bit_vector);
        }
        Ok(v)
    }
}

impl SenSer for i16 {
    open spec fn enc(&self) -> Seq<u8> {
        spec_u16_to_le_bytes(*self as u16)
    }

    open spec fn enc_ok(&self) -> bool {
        true
    }

    fn append_to(&self, w: &mut SenresWriter) -> (r: bool) {
        proof {
            lemma_auto_spec_u16_to_from_le_bytes();
        }
        let bytes = u16_to_le_bytes(#[verifier::truncate] (*self as u16));
        w.push_bytes(bytes.as_slice())
    }
}

impl RecDes for i16 {
    open spec fn dec(s: Seq<u8>) -> Option<(i16, int)> {
        if s.len() >= 2 {
            Some((spec_u16_from_le_bytes(s.take(2)) as i16, 2))
        } else {
            None
        }
    }

    proof fn lemma_dec_enc(&self, rest: Seq<u8>) {
        lemma_auto_spec_u16_to_from_le_bytes();
        assert((self.enc() + rest).take(2) =~= self.enc());
        let v = *self;
        assert((v as u16) as i16 == v) by (bit_vector);
    }

    fn try_get_from(r: &mut SenresReader<'_>) -> (res: Result<Self, ()>) {
        proof {
            lemma_auto_spec_u16_to_from_le_bytes();
        }
        if r.remaining_len() < 2 {
            return Err(());
        }
        let u = u16_from_le_bytes(r.peek(2));
        let v = #[verifier::truncate] (u as i16);
        r.advance(2);
        proof {
            assert((u as i16) as u16 == u) by (bit_vector);
        }
        Ok(v)
    }
}

impl SenSer for i32 {
    open spec fn enc(&self) -> Seq<u8> {
        spec_u32_to_le_bytes(*self as u32)
    }

    open spec fn enc_ok(&self) -> bool {
        true
    }

    fn append_to(&self, w: &mut SenresWriter) -> (r: bool) {
        proof {
            lemma_auto_spec_u32_to_from_le_bytes();
        }
        let bytes = u32_to_le_bytes(#[verifier::truncate] (*self as u32));
        w.push_bytes(bytes.as_slice())
    }
}

impl RecDes for i32 {
    open spec fn dec(s: Seq<u8>) -> Option<(i32, int)> {
        if s.len() >= 4 {
            Some((spec_u32_from_le_bytes(s.take(4)) as i32, 4))
        } else {
            None
        }
    }

    proof fn lemma_dec_enc(&self, rest: Seq<u8>) {
        lemma_auto_spec_u32_to_from_le_bytes();
        assert((self.enc() + rest).take(4) =~= self.enc());
        let v = *self;
        assert((v as u32) as i32 == v) by (bit_vector);
    }

    fn try_get_from(r: &mut SenresReader<'_>) -> (res: Result<Self, ()>) {
        proof {
            lemma_auto_spec_u32_to_from_le_bytes();
        }
        if r.remaining_len() < 4 {
            return Err(());
        }
        let u = u32_from_le_bytes(r.peek(4));
        let v = #[verifier::truncate] (u as i32);
        r.advance(4);
        proof {
            assert((u as i32) as u32 == u) by (bit_vector);
        }
        Ok(v)
    }
}

impl SenSer for i64 {
    open spec fn enc(&self) -> Seq<u8> {
        spec_u64_to_le_bytes(*self as u64)
    }

    open spec fn enc_ok(&self) -> bool {
        true
    }

    fn append_to(&self, w: &mut SenresWriter) -> (r: bool) {
        proof {
            lemma_auto_spec_u64_to_from_le_bytes();
        }
        let bytes = u64_to_le_bytes(#[verifier::truncate] (*self as u64));
        w.push_bytes(bytes.as_slice())
    }
}

impl RecDes for i64 {
    open spec fn dec(s: Seq<u8>) -> Option<(i64, int)> {
        if s.len() >= 8 {
            Some((spec_u64_from_le_bytes(s.take(8)) as i64, 8))
        } else {
            None
        }
    }

    proof fn lemma_dec_enc(&self, rest: Seq<u8>) {
        lemma_auto_spec_u64_to_from_le_bytes();
        assert((self.enc() + rest).take(8) =~= self.enc());
        let v = *self;
        assert((v as u64) as i64 == v) by (bit_vector);
    }

    fn try_get_from(r: &mut SenresReader<'_>) -> (res: Result<Self, ()>) {
        proof {
            lemma_auto_spec_u64_to_from_le_bytes();
        }
        if r.remaining_len() < 8 {
            return Err(());
        }
        let u = u64_from_le_bytes(r.peek(8));
        let v = #[verifier::truncate] (u as i64);
        r.advance(8);
        proof {
            assert((u as i64) as u64 == u) by (bit_vector);
        }
        Ok(v)
    }
}

impl<T: SenSer> SenSer for Option<T> {
    open spec fn enc(&self) -> Seq<u8> {
        match self {
            Some(v) => seq![1u8] + v.enc(),
            None => seq![0u8],
        }
    }

    open spec fn enc_ok(&self) -> bool {
        match self {
            Some(v) => v.enc_ok(),
            None => true,
        }
    }

    fn append_to(&self, w: &mut SenresWriter) -> (r: bool) {
        match self {
            None => {
                let flag: u8 = 0;
                flag.append_to(w)
            },
            Some(v) => {
                let save = w.offset();
                let flag: u8 = 1;
                let ok = flag.append_to(w);
                if !ok {
                    return false;
                }
                let ok2 = v.append_to(w);
                if !ok2 {
                    w.rewind(save);
                    proof {
                        assert(w@ =~= old(w)@);
                    }
                    return false;
                }
                proof {
                    assert(w@ =~= old(w)@ + self.enc());
                }
                true
            },
        }
    }
}

impl<T: RecDes> RecDes for Option<T> {
    open spec fn dec(s: Seq<u8>) -> Option<(Option<<T as DeepView>::V>, int)> {
        if s.len() < 1 {
            None
        } else if s[0] == 0 {
            Some((None, 1))
        } else if s[0] == 1 {
            match T::dec(s.skip(1)) {
                Some((v, n)) => Some((Some(v), n + 1)),
                None => None,
            }
        } else {
            None
        }
    }

    proof fn lemma_dec_enc(&self, rest: Seq<u8>) {
        match self {
            None => {
                assert((self.enc() + rest)[0] == 0);
            },
            Some(v) => {
                let s = self.enc() + rest;
                assert(s[0] == 1);
                assert(s.skip(1) =~= v.enc() + rest);
                v.lemma_dec_enc(rest);
            },
        }
    }

    fn try_get_from(r: &mut SenresReader<'_>) -> (res: Result<Self, ()>) {
        let save = r.position();
        let flag = match u8::try_get_from(r) {
            Ok(f) => f,
            Err(_) => {
                return Err(());
            },
        };
        if flag == 0 {
            return Ok(None);
        }
        if flag != 1 {
            r.reset(save);
            return Err(());
        }
        proof {
            assert(r.remaining() =~= old(r).remaining().skip(1));
        }
        match T::try_get_from(r) {
            Ok(v) => {
                proof {
                    let whole = seq![1u8] + v.enc();
                    assert(whole =~= old(r).remaining().subrange(0, whole.len() as int));
                }
                Ok(Some(v))
            },
            Err(_) => {
                r.reset(save);
                Err(())
            },
        }
    }
}

/// Byte encoding of a character sequence: a 4-byte little-endian count
/// of UTF-8 bytes, then those bytes, with no terminator.
pub open spec fn str_enc(chars: Seq<char>) -> Seq<u8> {
    spec_u32_to_le_bytes(vstd::utf8::encode_utf8(chars).len() as u32) + vstd::utf8::encode_utf8(
        chars,
    )
}

/// Whether a character sequence is encodable: its UTF-8 form must be
/// countable by the 32-bit length prefix.
pub open spec fn str_enc_ok(chars: Seq<char>) -> bool {
    vstd::utf8::encode_utf8(chars).len() <= u32::MAX
}

/// Spec-level parser for a length-prefixed string.
pub open spec fn str_dec(s: Seq<u8>) -> Option<(Seq<char>, int)> {
    if s.len() < 4 {
        None
    } else {
        let n = spec_u32_from_le_bytes(s.take(4)) as int;
        if 4 + n <= s.len() && vstd::utf8::valid_utf8(s.subrange(4, 4 + n)) {
            Some((vstd::utf8::decode_utf8(s.subrange(4, 4 + n)), 4 + n))
        } else {
            None
        }
    }
}

/// Relies on `core::str::from_utf8`: it succeeds exactly on valid
/// UTF-8 input, and the returned string slice views the given bytes.
#[verifier::external_body]
fn bytes_to_str<'b>(b: &'b [u8]) -> (r: Option<&'b str>)
    ensures
        match r {
            Some(s) => s.spec_bytes() == b@,
            None => true,
        },
        r is Some <==> vstd::utf8::valid_utf8(b@),
{
    core::str::from_utf8(b).ok()
}

impl SenSer for str {
    open spec fn enc(&self) -> Seq<u8> {
        str_enc(self@)
    }

    open spec fn enc_ok(&self) -> bool {
        str_enc_ok(self@)
    }

    fn append_to(&self, w: &mut SenresWriter) -> (r: bool) {
        proof {
            lemma_auto_spec_u32_to_from_le_bytes();
        }
        let bytes = self.as_bytes();
        let n = bytes.len();
        if n > (u32::MAX as usize) {
            return false;
        }
        let save = w.offset();
        let n32: u32 = n as u32;
        let ok = n32.append_to(w);
        if !ok {
            return false;
        }
        let ok2 = w.push_bytes(bytes);
        if !ok2 {
            w.rewind(save);
            proof {
                assert(w@ =~= old(w)@);
            }
            return false;
        }
        proof {
            assert(w@ =~= old(w)@ + self.enc());
        }
        true
    }
}

impl SenSer for &str {
    open spec fn enc(&self) -> Seq<u8> {
        str_enc((*self)@)
    }

    open spec fn enc_ok(&self) -> bool {
        str_enc_ok((*self)@)
    }

    fn append_to(&self, w: &mut SenresWriter) -> (r: bool) {
        (*self).append_to(w)
    }
}

impl SenSer for String {
    open spec fn enc(&self) -> Seq<u8> {
        str_enc(self@)
    }

    open spec fn enc_ok(&self) -> bool {
        str_enc_ok(self@)
    }

    fn append_to(&self, w: &mut SenresWriter) -> (r: bool) {
        self.as_str().append_to(w)
    }
}

impl RecDes for String {
    open spec fn dec(s: Seq<u8>) -> Option<(Seq<char>, int)> {
        str_dec(s)
    }

    proof fn lemma_dec_enc(&self, rest: Seq<u8>) {
        lemma_str_dec_enc(self@, rest);
    }

    fn try_get_from(r: &mut SenresReader<'_>) -> (res: Result<Self, ()>) {
        match r.try_get_ref_from() {
            Ok(s) => Ok(s.to_owned()),
            Err(_) => Err(()),
        }
    }
}

/// Round trip for the string encoding: parsing an encoding yields the
/// encoded characters and consumes exactly the encoding.
pub proof fn lemma_str_dec_enc(chars: Seq<char>, rest: Seq<u8>)
    requires
        str_enc_ok(chars),
    ensures
        str_dec(str_enc(chars) + rest) == Some((chars, str_enc(chars).len() as int)),
{
    lemma_auto_spec_u32_to_from_le_bytes();
    let bytes = vstd::utf8::encode_utf8(chars);
    let s = str_enc(chars) + rest;
    assert(s.take(4) =~= spec_u32_to_le_bytes(bytes.len() as u32));
    assert(s.subrange(4, 4 + bytes.len() as int) =~= bytes);
    vstd::utf8::encode_utf8_valid_utf8(chars);
    vstd::utf8::encode_utf8_decode_utf8(chars);
}

impl<'a> SenresReader<'a> {
    /// Decode the next length-prefixed string as a borrowed view into
    /// the buffer, without copying.
    pub fn try_get_ref_from(&mut self) -> (res: Result<&'a str, ()>)
        requires
            old(self).wf(),
        ensures
            final(self).wf(),
            final(self).buf() == old(self).buf(),
            match res {
                Ok(s) => {
                    &&& str_enc_ok(s@)
                    &&& str_dec(old(self).remaining()) == Some(
                        (s@, str_enc(s@).len() as int),
                    )
                    &&& str_enc(s@).is_prefix_of(old(self).remaining())
                    &&& final(self).offset() == old(self).offset() + str_enc(s@).len()
                },
                Err(_) => {
                    &&& str_dec(old(self).remaining()) is None
                    &&& final(self).offset() == old(self).offset()
                },
            },
    {
        proof {
            lemma_auto_spec_u32_to_from_le_bytes();
        }
        let save = self.position();
        let n32 = match u32::try_get_from(self) {
            Ok(v) => v,
            Err(_) => {
                return Err(());
            },
        };
        let n = n32 as usize;
        if n > self.remaining_len() {
            self.reset(save);
            return Err(());
        }
        let bytes = self.peek(n);
        proof {
            assert(bytes@ =~= old(self).remaining().subrange(4, 4 + n as int));
        }
        match bytes_to_str(bytes) {
            Some(s) => {
                self.advance(n);
                proof {
                    vstd::utf8::encode_utf8_decode_utf8(s@);
                    assert(str_enc(s@) =~= old(self).remaining().take(4 + n as int));
                    assert(str_enc(s@).is_prefix_of(old(self).remaining()));
                }
                Ok(s)
            },
            None => {
                self.reset(save);
                Err(())
            },
        }
    }

    /// Decode the next length-prefixed byte sequence as a borrowed
    /// view into the buffer, without copying.
    pub fn try_get_bytes_ref(&mut self) -> (res: Result<&'a [u8], ()>)
        requires
            old(self).wf(),
        ensures
            final(self).wf(),
            final(self).buf() == old(self).buf(),
            match res {
                Ok(b) => {
                    &&& b@.len() <= u32::MAX
                    &&& old(self).remaining().len() >= 4 + b@.len()
                    &&& old(self).remaining().take(4) == spec_u32_to_le_bytes(b@.len() as u32)
                    &&& b@ == old(self).remaining().subrange(4, 4 + b@.len() as int)
                    &&& final(self).offset() == old(self).offset() + 4 + b@.len()
                },
                Err(_) => {
                    &&& {
                        ||| old(self).remaining().len() < 4
                        ||| old(self).remaining().len() < 4 + spec_u32_from_le_bytes(
                            old(self).remaining().take(4),
                        )
                    }
                    &&& final(self).offset() == old(self).offset()
                },
            },
    {
        proof {
            lemma_auto_spec_u32_to_from_le_bytes();
        }
        let save = self.position();
        let n32 = match u32::try_get_from(self) {
            Ok(v) => v,
            Err(_) => {
                return Err(());
            },
        };
        let n = n32 as usize;
        if n > self.remaining_len() {
            self.reset(save);
            return Err(());
        }
        let bytes = self.peek(n);
        self.advance(n);
        proof {
            assert(bytes@ =~= old(self).remaining().subrange(4, 4 + n as int));
            assert(old(self).remaining().take(4) =~= spec_u32_to_le_bytes(n32));
        }
        Ok(bytes)
    }
}

/// Concatenated encodings of a sequence of values.
pub open spec fn spec_enc_list<T: SenSer>(s: Seq<T>) -> Seq<u8>
    decreases s.len(),
{
    if s.len() == 0 {
        Seq::empty()
    } else {
        s[0].enc() + spec_enc_list(s.drop_first())
    }
}

/// Every element of the sequence is encodable.
pub open spec fn spec_enc_list_ok<T: SenSer>(s: Seq<T>) -> bool {
    forall|i: int| 0 <= i < s.len() ==> (#[trigger] s[i]).enc_ok()
}

/// Deep views of the elements of a sequence.
pub open spec fn deep_of_seq<T: DeepView>(s: Seq<T>) -> Seq<<T as DeepView>::V> {
    Seq::new(s.len(), |i: int| s[i].deep_view())
}

/// Appending one element extends the concatenated encoding by that
/// element's encoding.
pub proof fn lemma_enc_list_snoc<T: SenSer>(s: Seq<T>, e: T)
    ensures
        spec_enc_list(s.push(e)) =~= spec_enc_list(s) + e.enc(),
    decreases s.len(),
{
    if s.len() == 0 {
        assert(s.push(e)[0] == e);
        assert(s.push(e).drop_first() =~= Seq::<T>::empty());
        assert(spec_enc_list(s.push(e)) == e.enc() + spec_enc_list(Seq::<T>::empty()));
        assert(spec_enc_list(s) == Seq::<u8>::empty());
    } else {
        lemma_enc_list_snoc(s.drop_first(), e);
        assert(s.push(e).drop_first() =~= s.drop_first().push(e));
        assert(s.push(e)[0] == s[0]);
        assert(spec_enc_list(s.push(e)) == s[0].enc() + spec_enc_list(s.drop_first().push(e)));
    }
}

/// A byte sequence is its own concatenated encoding: each byte
/// encodes as itself.
pub proof fn lemma_enc_list_u8(s: Seq<u8>)
    ensures
        spec_enc_list::<u8>(s) =~= s,
    decreases s.len(),
{
    if s.len() > 0 {
        lemma_enc_list_u8(s.drop_first());
    }
}

/// The concatenated encoding splits at any element boundary.
pub proof fn lemma_enc_list_split<T: SenSer>(s: Seq<T>, i: int)
    requires
        0 <= i <= s.len(),
    ensures
        spec_enc_list(s) =~= spec_enc_list(s.take(i)) + spec_enc_list(s.skip(i)),
    decreases i,
{
    if i == 0 {
        assert(s.take(0) =~= Seq::<T>::empty());
        assert(s.skip(0) =~= s);
    } else {
        lemma_enc_list_split(s.drop_first(), i - 1);
        assert(s.take(i).drop_first() =~= s.drop_first().take(i - 1));
        assert(s.skip(i) =~= s.drop_first().skip(i - 1));
        assert(s.take(i)[0] == s[0]);
        assert(s.take(i).len() == i);
    }
}

/// Spec-level parser for `n` consecutive values of one kind.
pub open spec fn spec_dec_list<T: RecDes>(s: Seq<u8>, n: nat) -> Option<
    (Seq<<T as DeepView>::V>, int),
>
    decreases n,
{
    if n == 0 {
        Some((Seq::empty(), 0))
    } else {
        match T::dec(s) {
            None => None,
            Some((v, k)) => match spec_dec_list::<T>(s.skip(k), (n - 1) as nat) {
                None => None,
                Some((vs, m)) => Some((seq![v] + vs, k + m)),
            },
        }
    }
}

/// Round trip for element lists: parsing the concatenation of `n`
/// encodings yields the `n` encoded values.
pub proof fn lemma_dec_list_enc<T: RecDes>(elems: Seq<T>, rest: Seq<u8>)
    requires
        spec_enc_list_ok(elems),
    ensures
        spec_dec_list::<T>(spec_enc_list(elems) + rest, elems.len()) == Some(
            (deep_of_seq(elems), spec_enc_list(elems).len() as int),
        ),
    decreases elems.len(),
{
    if elems.len() == 0 {
        assert(deep_of_seq(elems) =~= Seq::<<T as DeepView>::V>::empty());
    } else {
        let e0 = elems[0];
        let tail = elems.drop_first();
        let s = spec_enc_list(elems) + rest;
        assert(s =~= e0.enc() + (spec_enc_list(tail) + rest));
        e0.lemma_dec_enc(spec_enc_list(tail) + rest);
        assert(s.skip(e0.enc().len() as int) =~= spec_enc_list(tail) + rest);
        lemma_dec_list_enc(tail, rest);
        assert(seq![e0.deep_view()] + deep_of_seq(tail) =~= deep_of_seq(elems));
    }
}

impl<T: SenSer> SenSer for Vec<T> {
    open spec fn enc(&self) -> Seq<u8> {
        spec_u32_to_le_bytes(self@.len() as u32) + spec_enc_list(self@)
    }

    open spec fn enc_ok(&self) -> bool {
        self@.len() <= u32::MAX && spec_enc_list_ok(self@)
    }

    fn append_to(&self, w: &mut SenresWriter) -> (r: bool) {
        proof {
            lemma_auto_spec_u32_to_from_le_bytes();
        }
        let n = self.len();
        if n > (u32::MAX as usize) {
            return false;
        }
        let save = w.offset();
        let n32: u32 = n as u32;
        let ok = n32.append_to(w);
        if !ok {
            return false;
        }
        let elems = self.as_slice();
        let mut i: usize = 0;
        while i < n
            invariant
                i <= n,
                n == self@.len(),
                n <= u32::MAX,
                n32 == n as u32,
                elems@ == self@,
                save == old(w)@.len(),
                w.wf(),
                w.cap() == old(w).cap(),
                w@ == old(w)@ + spec_u32_to_le_bytes(n32) + spec_enc_list(self@.take(i as int)),
                spec_enc_list_ok(self@.take(i as int)),
            decreases n - i,
        {
            let e = vstd::slice::slice_index_get(elems, i);
            let ok2 = e.append_to(w);
            if !ok2 {
                proof {
                    lemma_enc_list_split(self@, i as int);
                    assert(self@.skip(i as int)[0] == self@[i as int]);
                }
                w.rewind(save);
                proof {
                    assert(w@ =~= old(w)@);
                }
                return false;
            }
            proof {
                lemma_enc_list_snoc(self@.take(i as int), self@[i as int]);
                assert(self@.take(i as int).push(self@[i as int]) =~= self@.take(i + 1));
                assert(w@ =~= old(w)@ + spec_u32_to_le_bytes(n32) + spec_enc_list(
                    self@.take(i + 1),
                ));
            }
            i += 1;
        }
        proof {
            assert(self@.take(n as int) =~= self@);
            assert(w@ =~= old(w)@ + self.enc());
        }
        true
    }
}

impl<T: RecDes> RecDes for Vec<T> {
    open spec fn dec(s: Seq<u8>) -> Option<(Seq<<T as DeepView>::V>, int)> {
        if s.len() < 4 {
            None
        } else {
            match spec_dec_list::<T>(s.skip(4), spec_u32_from_le_bytes(s.take(4)) as nat) {
                None => None,
                Some((vs, m)) => Some((vs, 4 + m)),
            }
        }
    }

    proof fn lemma_dec_enc(&self, rest: Seq<u8>) {
        lemma_auto_spec_u32_to_from_le_bytes();
        let s = self.enc() + rest;
        assert(s.take(4) =~= spec_u32_to_le_bytes(self@.len() as u32));
        assert(s.skip(4) =~= spec_enc_list(self@) + rest);
        lemma_dec_list_enc(self@, rest);
        assert(self.deep_view() =~= deep_of_seq(self@));
    }

    fn try_get_from(r: &mut SenresReader<'_>) -> (res: Result<Self, ()>) {
        proof {
            lemma_auto_spec_u32_to_from_le_bytes();
        }
        let save = r.position();
        let n32 = match u32::try_get_from(r) {
            Ok(v) => v,
            Err(_) => {
                return Err(());
            },
        };
        let n = n32 as usize;
        let ghost rem0 = r.remaining();
        let mut out: Vec<T> = Vec::new();
        let mut i: usize = 0;
        while i < n
            invariant
                i <= n,
                n32 == n as u32,
                n <= u32::MAX,
                r.wf(),
                r.buf() == old(r).buf(),
                rem0 == old(r).remaining().skip(4),
                old(r).remaining().len() >= 4,
                old(r).wf(),
                save == old(r).offset(),
                spec_u32_from_le_bytes(old(r).remaining().take(4)) == n32,
                out@.len() == i,
                spec_enc_list_ok(out@),
                spec_enc_list(out@).is_prefix_of(rem0),
                r.offset() == old(r).offset() + 4 + spec_enc_list(out@).len(),
                spec_dec_list::<T>(rem0, n as nat) == (match spec_dec_list::<T>(
                    r.remaining(),
                    (n - i) as nat,
                ) {
                    None => None::<(Seq<<T as DeepView>::V>, int)>,
                    Some((vs, m)) => Some(
                        (deep_of_seq(out@) + vs, spec_enc_list(out@).len() + m),
                    ),
                }),
            decreases n - i,
        {
            let ghost rem_i = r.remaining();
            match T::try_get_from(r) {
                Ok(v) => {
                    proof {
                        assert(r.remaining() =~= rem_i.skip(v.enc().len() as int));
                        lemma_enc_list_snoc(out@, v);
                        assert(out@.push(v) =~= out@.push(v));
                    }
                    let ghost old_out = out@;
                    out.push(v);
                    i += 1;
                    proof {
                        assert(out@ == old_out.push(v));
                        assert(deep_of_seq(out@) =~= deep_of_seq(old_out) + seq![v.deep_view()]);
                        assert(spec_enc_list(out@) =~= spec_enc_list(old_out) + v.enc());
                        assert(spec_enc_list(out@).is_prefix_of(rem0)) by {
                            assert(spec_enc_list(out@) =~= rem0.subrange(
                                0,
                                spec_enc_list(out@).len() as int,
                            ));
                        }
                        assert forall|vs: Seq<<T as DeepView>::V>, m: int|
                            spec_dec_list::<T>(r.remaining(), (n - i) as nat) == Some((vs, m))
                            implies deep_of_seq(old_out) + (seq![v.deep_view()] + vs) =~= deep_of_seq(
                            out@,
                        ) + vs by {}
                    }
                },
                Err(_) => {
                    proof {
                        assert(spec_dec_list::<T>(rem_i, (n - i) as nat) is None);
                        assert(spec_dec_list::<T>(rem0, n as nat) is None);
                        let orem = old(r).remaining();
                        assert(orem.len() >= 4);
                        assert(spec_u32_from_le_bytes(orem.take(4)) == n32);
                        assert(orem.skip(4) =~= rem0);
                        assert(spec_u32_from_le_bytes(orem.take(4)) as nat == n as nat);
                        assert(<Vec<T> as RecDes>::dec(orem) is None);
                    }
                    r.reset(save);
                    return Err(());
                },
            }
        }
        proof {
            assert(spec_dec_list::<T>(r.remaining(), 0) == Some(
                (Seq::<<T as DeepView>::V>::empty(), 0int),
            ));
            assert(deep_of_seq(out@) + Seq::<<T as DeepView>::V>::empty() =~= deep_of_seq(out@));
            assert(out.deep_view() =~= deep_of_seq(out@));
            assert(out.enc() =~= old(r).remaining().subrange(0, out.enc().len() as int));
        }
        Ok(out)
    }
}

} // verus!
