//! Client for the enumerate-bases operation.
//!
//! The request is a tagged buffer holding only the protocol version;
//! the response is the version, a count, and that many basis names.
//! The exchange itself is injected by the caller: it sends the request
//! buffer and hands the remote-filled buffer to [`BasisList::new`].

use vstd::prelude::*;

verus! {

use crate::senres::{
    RecDes,
    SenSer,
    SenresReader,
    SenresStack,
    PAGE_SIZE,
    SENRES_V1_MAGIC,
    bytes_has_tag,
    str_dec,
    str_enc,
};
use vstd::bytes::spec_u32_to_le_bytes;

/// Tag of an enumerate-bases request (ASCII `basQ`).
pub const TAG_BASIS_REQUEST: u32 = 0x5173_6162;

/// Tag of an enumerate-bases response (ASCII `basR`).
pub const TAG_BASIS_RESPONSE: u32 = 0x5273_6162;

/// Protocol version spoken by this client.
pub const LIST_VERSION: u32 = 1;

/// The bytes of an enumerate-bases request.
pub open spec fn spec_basis_list_request() -> Seq<u8> {
    spec_u32_to_le_bytes(SENRES_V1_MAGIC) + spec_u32_to_le_bytes(TAG_BASIS_REQUEST)
        + spec_u32_to_le_bytes(LIST_VERSION)
}

/// Build the request buffer for enumerating bases.
pub fn basis_list_request() -> (r: SenresStack)
    ensures
        r@.len() == PAGE_SIZE,
        r@.take(spec_basis_list_request().len() as int) == spec_basis_list_request(),
{
    proof {
        vstd::bytes::lemma_auto_spec_u32_to_from_le_bytes();
    }
    let stack = SenresStack::new(PAGE_SIZE);
    let mut w = stack.writer_tagged(TAG_BASIS_REQUEST);
    let version: u32 = LIST_VERSION;
    let _ok = w.append(&version);
    w.finish()
}

/// The count field of a well-formed enumerate-bases response: the
/// marker, the response tag, and the expected version must all be
/// present before the count is read.
pub open spec fn spec_basis_list_count(s: Seq<u8>) -> Option<u32> {
    if bytes_has_tag(s, TAG_BASIS_RESPONSE) && s.len() >= 16 && s.subrange(8, 12)
        == spec_u32_to_le_bytes(LIST_VERSION) {
        Some(vstd::bytes::spec_u32_from_le_bytes(s.subrange(12, 16)))
    } else {
        None
    }
}

/// A response buffer holding an enumeration of basis names.
pub struct BasisList {
    stack: SenresStack,
    count: u32,
}

impl BasisList {
    /// The underlying response bytes.
    pub closed spec fn view(&self) -> Seq<u8> {
        self.stack@
    }

    pub closed spec fn wf(&self) -> bool {
        spec_basis_list_count(self.stack@) == Some(self.count)
    }

    pub closed spec fn spec_count(&self) -> u32 {
        self.count
    }

    /// Adopt a remote-filled response buffer.  The marker, tag and
    /// version are validated before any entry is exposed; a buffer
    /// written under another tag or version is refused whole.
    pub fn new(stack: SenresStack) -> (r: Option<BasisList>)
        ensures
            match r {
                Some(list) => list.wf() && list@ == stack@ && spec_basis_list_count(stack@)
                    == Some(list.spec_count()),
                None => spec_basis_list_count(stack@) is None,
            },
    {
        proof {
            vstd::bytes::lemma_auto_spec_u32_to_from_le_bytes();
        }
        let (version, count) = match read_header(&stack) {
            Some(pair) => pair,
            None => {
                return None;
            },
        };
        if version != LIST_VERSION {
            proof {
                assert(spec_u32_to_le_bytes(version).len() == 4);
                assert(spec_u32_to_le_bytes(LIST_VERSION).len() == 4);
                assert(vstd::bytes::spec_u32_from_le_bytes(spec_u32_to_le_bytes(version))
                    == version);
                assert(vstd::bytes::spec_u32_from_le_bytes(spec_u32_to_le_bytes(LIST_VERSION))
                    == LIST_VERSION);
                assert(stack@.subrange(8, 12) != spec_u32_to_le_bytes(LIST_VERSION));
            }
            return None;
        }
        proof {
            assert(spec_u32_to_le_bytes(count).len() == 4);
        }
        Some(BasisList { stack, count })
    }

    /// Number of basis names in the response.
    pub fn len(&self) -> (r: usize)
        requires
            self.wf(),
        ensures
            r == self.spec_count(),
    {
        self.count as usize
    }

    /// Walk the names without materialising them.
    pub fn iter<'a>(&'a self) -> (r: BasisListIter<'a>)
        requires
            self.wf(),
        ensures
            r.wf(),
            r.spec_remaining() == self.spec_count(),
            r.spec_rest() == self@.skip(16),
    {
        BasisListIter::new(self)
    }
}

/// Read version and count from a tagged list response.
fn read_header(stack: &SenresStack) -> (r: Option<(u32, u32)>)
    ensures
        match r {
            Some((version, count)) => {
                &&& bytes_has_tag(stack@, TAG_BASIS_RESPONSE)
                &&& stack@.len() >= 16
                &&& stack@.subrange(8, 12) == spec_u32_to_le_bytes(version)
                &&& stack@.subrange(12, 16) == spec_u32_to_le_bytes(count)
            },
            None => !(bytes_has_tag(stack@, TAG_BASIS_RESPONSE) && stack@.len() >= 16),
        },
{
    proof {
        vstd::bytes::lemma_auto_spec_u32_to_from_le_bytes();
    }
    let mut reader = match stack.reader_tagged(TAG_BASIS_RESPONSE) {
        Some(rd) => rd,
        None => {
            return None;
        },
    };
    let version: u32 = match reader.try_get_from() {
        Ok(v) => v,
        Err(_) => {
            return None;
        },
    };
    let count: u32 = match reader.try_get_from() {
        Ok(v) => v,
        Err(_) => {
            return None;
        },
    };
    proof {
        assert(stack@.skip(8).take(4) =~= stack@.subrange(8, 12));
        assert(stack@.skip(8).skip(4) =~= stack@.skip(12));
        assert(stack@.skip(12).take(4) =~= stack@.subrange(12, 16));
        assert(spec_u32_to_le_bytes(version) =~= stack@.subrange(8, 12));
        assert(spec_u32_to_le_bytes(count) =~= stack@.subrange(12, 16));
    }
    Some((version, count))
}

/// A lazy, forward-only walk over the names in a [`BasisList`].
pub struct BasisListIter<'a> {
    reader: SenresReader<'a>,
    index: u32,
    count: u32,
}

impl<'a> BasisListIter<'a> {
    pub closed spec fn wf(&self) -> bool {
        self.reader.wf() && self.index <= self.count
    }

    /// How many names have not been yielded yet.
    pub closed spec fn spec_remaining(&self) -> int {
        self.count - self.index
    }

    /// The undecoded bytes the next name will be read from.
    pub closed spec fn spec_rest(&self) -> Seq<u8> {
        self.reader.remaining()
    }

    /// Position the cursor just past the response header (marker,
    /// tag, version and count), at the first length-prefixed name.
    pub fn new(list: &'a BasisList) -> (r: BasisListIter<'a>)
        requires
            list.wf(),
        ensures
            r.wf(),
            r.spec_remaining() == list.spec_count(),
            r.spec_rest() == list@.skip(16),
    {
        proof {
            vstd::bytes::lemma_auto_spec_u32_to_from_le_bytes();
        }
        let reader = match list.stack.reader_tagged(TAG_BASIS_RESPONSE) {
            Some(rd) => rd,
            None => {
                proof {
                    assert(false);
                }
                vstd::pervasive::unreached()
            },
        };
        let mut it = BasisListIter { reader, index: 0, count: list.count };
        let version: u32 = match it.reader.try_get_from() {
            Ok(v) => v,
            Err(_) => {
                proof {
                    assert(false);
                }
                vstd::pervasive::unreached()
            },
        };
        let count: u32 = match it.reader.try_get_from() {
            Ok(v) => v,
            Err(_) => {
                proof {
                    assert(false);
                }
                vstd::pervasive::unreached()
            },
        };
        proof {
            assert(spec_u32_to_le_bytes(version).len() == 4);
            assert(spec_u32_to_le_bytes(count).len() == 4);
            assert(it.reader.remaining() =~= list@.skip(16));
        }
        it
    }

    /// Yield the next name as a zero-copy view into the response, or
    /// nothing once the advertised count is exhausted (in particular,
    /// immediately for an empty enumeration) or when an entry is
    /// malformed.
    pub fn next(&mut self) -> (r: Option<&'a str>)
        requires
            old(self).wf(),
        ensures
            final(self).wf(),
            old(self).spec_remaining() == 0 ==> r is None && *final(self) == *old(self),
            old(self).spec_remaining() > 0 ==> match r {
                Some(s) => {
                    &&& str_dec(old(self).spec_rest()) == Some((s@, str_enc(s@).len() as int))
                    &&& final(self).spec_rest() == old(self).spec_rest().skip(
                        str_enc(s@).len() as int,
                    )
                    &&& final(self).spec_remaining() == old(self).spec_remaining() - 1
                },
                None => {
                    &&& str_dec(old(self).spec_rest()) is None
                    &&& final(self).spec_rest() == old(self).spec_rest()
                    &&& final(self).spec_remaining() == old(self).spec_remaining()
                },
            },
    {
        if self.index >= self.count {
            return None;
        }
        let entry = match self.reader.try_get_ref_from() {
            Ok(s) => s,
            Err(_) => {
                return None;
            },
        };
        self.index = self.index + 1;
        proof {
            let k = str_enc(entry@).len() as int;
            let b = self.reader.buf();
            let o = old(self).reader.offset();
            assert(self.reader.buf() == old(self).reader.buf());
            assert(self.reader.offset() == o + k);
            assert(self.reader.remaining() == b.skip(o + k));
            assert(old(self).reader.remaining() == b.skip(o));
            assert(0 <= o);
            assert(o + k <= b.len());
            assert(b.skip(o).skip(k) =~= b.skip(o + k));
        }
        Some(entry)
    }
}

} // verus!
