//! Client for the enumerate-path operation.
//!
//! The request carries the protocol version and the path string; the
//! response is a count followed by that many `(name, kind)` pairs,
//! where the kind says whether the entry is a basis, a dictionary or a
//! key.  The buffer exchange is injected by the caller.

use vstd::prelude::*;

verus! {

use crate::path::{spec_split_basis_and_dict, split_basis_and_dict, PathError};
use crate::senres::{
    RecDes,
    SenSer,
    SenresStack,
    PAGE_SIZE,
    SENRES_V1_MAGIC,
    bytes_has_tag,
    str_dec,
    str_enc,
    str_enc_ok,
};
use vstd::bytes::{spec_u32_from_le_bytes, spec_u32_to_le_bytes};

/// Tag of an enumerate-path request (ASCII `PthQ`).
pub const TAG_PATH_REQUEST: u32 = 0x5168_7450;

/// Tag of an enumerate-path response (ASCII `PthR`).
pub const TAG_PATH_RESPONSE: u32 = 0x5268_7450;

/// Protocol version spoken by this client.
pub const PATH_LIST_VERSION: u32 = 1;

/// What a listed entry names within the hierarchical namespace.
#[derive(Debug, Clone, Copy, PartialEq, Eq, Structural)]
pub enum EntryKind {
    Basis,
    Dict,
    Key,
}

/// The entry kind encoded by a discriminant byte, if the byte is known.
pub open spec fn spec_kind_from(b: u8) -> Option<EntryKind> {
    if b == 0 {
        Some(EntryKind::Basis)
    } else if b == 1 {
        Some(EntryKind::Dict)
    } else if b == 2 {
        Some(EntryKind::Key)
    } else {
        None
    }
}

/// Decode an entry-kind discriminant byte.
pub fn kind_from_u8(b: u8) -> (r: Option<EntryKind>)
    ensures
        r == spec_kind_from(b),
{
    if b == 0 {
        Some(EntryKind::Basis)
    } else if b == 1 {
        Some(EntryKind::Dict)
    } else if b == 2 {
        Some(EntryKind::Key)
    } else {
        None
    }
}

/// One listed entry: a name and what it names.
#[derive(Debug)]
pub struct Entry {
    pub name: String,
    pub kind: EntryKind,
}

/// The bytes of an enumerate-path request for `path`.
pub open spec fn spec_path_list_request(path: Seq<char>) -> Seq<u8> {
    spec_u32_to_le_bytes(SENRES_V1_MAGIC) + spec_u32_to_le_bytes(TAG_PATH_REQUEST)
        + spec_u32_to_le_bytes(PATH_LIST_VERSION) + str_enc(path)
}

/// Build the request buffer for enumerating a path.  The path is held
/// to the addressing grammar first, with no default basis substituted
/// (the remote resolves defaults): an illegal path -- one whose final
/// resolved token carries a trailing separator -- is refused here,
/// before any request is built, as is a path that does not fit in one
/// buffer.
pub fn path_list_request(path: &str) -> (r: Result<SenresStack, PathError>)
    ensures
        match r {
            Ok(s) => {
                &&& spec_split_basis_and_dict(path@, None::<Seq<char>>) is Some
                &&& str_enc_ok(path@)
                &&& s@.len() == PAGE_SIZE
                &&& s@.take(spec_path_list_request(path@).len() as int) == spec_path_list_request(
                    path@,
                )
            },
            Err(_) => !(spec_split_basis_and_dict(path@, None::<Seq<char>>) is Some && str_enc_ok(
                path@,
            ) && spec_path_list_request(path@).len() <= PAGE_SIZE),
        },
{
    proof {
        vstd::bytes::lemma_auto_spec_u32_to_from_le_bytes();
    }
    if split_basis_and_dict(path, None).is_err() {
        return Err(PathError);
    }
    let stack = SenresStack::new(PAGE_SIZE);
    let mut w = stack.writer_tagged(TAG_PATH_REQUEST);
    let version: u32 = PATH_LIST_VERSION;
    let _ok = w.append(&version);
    let ok2 = w.append(path);
    if !ok2 {
        return Err(PathError);
    }
    Ok(w.finish())
}

/// Spec-level parser for one `(name, kind byte)` entry.
pub open spec fn spec_dec_entry(s: Seq<u8>) -> Option<((Seq<char>, u8), int)> {
    match str_dec(s) {
        None => None,
        Some((nm, k)) => if k + 1 <= s.len() {
            Some(((nm, s[k]), k + 1))
        } else {
            None
        },
    }
}

/// Spec-level parser for `n` consecutive entries.
pub open spec fn spec_dec_entries(s: Seq<u8>, n: nat) -> Option<(Seq<(Seq<char>, u8)>, int)>
    decreases n,
{
    if n == 0 {
        Some((Seq::empty(), 0))
    } else {
        match spec_dec_entry(s) {
            None => None,
            Some((e, k)) => match spec_dec_entries(s.skip(k), (n - 1) as nat) {
                None => None,
                Some((es, m)) => Some((seq![e] + es, k + m)),
            },
        }
    }
}

/// The `(name, kind byte)` pairs carried by a well-formed
/// enumerate-path response.
pub open spec fn spec_path_list(s: Seq<u8>) -> Option<Seq<(Seq<char>, u8)>> {
    if bytes_has_tag(s, TAG_PATH_RESPONSE) && s.len() >= 16 && s.subrange(8, 12)
        == spec_u32_to_le_bytes(PATH_LIST_VERSION) {
        match spec_dec_entries(s.skip(16), spec_u32_from_le_bytes(s.subrange(12, 16)) as nat) {
            Some((es, _)) => Some(es),
            None => None,
        }
    } else {
        None
    }
}

/// The decoded entries of an enumerate-path response.
pub struct PathList {
    entries: Vec<Entry>,
}

impl View for PathList {
    type V = Seq<Entry>;

    closed spec fn view(&self) -> Seq<Entry> {
        self.entries@
    }
}

impl PathList {
    /// Decode a remote-filled response buffer whole.  The marker, tag
    /// and version are validated before any entry is read, and an
    /// unrecognised entry-kind discriminant fails the whole decode.
    pub fn new(stack: SenresStack) -> (r: Option<PathList>)
        ensures
            match r {
                Some(pl) => spec_path_list(stack@) matches Some(es) && pl@.len() == es.len()
                    && (forall|i: int|
                    0 <= i < es.len() ==> (#[trigger] pl@[i]).name@ == es[i].0 && spec_kind_from(
                        es[i].1,
                    ) == Some(pl@[i].kind)),
                None => {
                    ||| spec_path_list(stack@) is None
                    ||| (spec_path_list(stack@) matches Some(es) && exists|i: int|
                        0 <= i < es.len() && spec_kind_from((#[trigger] es[i]).1) is None)
                },
            },
    {
        proof {
            vstd::bytes::lemma_auto_spec_u32_to_from_le_bytes();
        }
        let mut reader = match stack.reader_tagged(TAG_PATH_RESPONSE) {
            Some(rd) => rd,
            None => {
                return None;
            },
        };
        let version: u32 = match reader.try_get_from() {
            Ok(v) => v,
            Err(_) => {
                return None;
            },
        };
        proof {
            assert(stack@.skip(8).take(4) =~= stack@.subrange(8, 12));
            assert(spec_u32_to_le_bytes(version).len() == 4);
            assert(spec_u32_to_le_bytes(PATH_LIST_VERSION).len() == 4);
        }
        if version != PATH_LIST_VERSION {
            return None;
        }
        let count: u32 = match reader.try_get_from() {
            Ok(v) => v,
            Err(_) => {
                return None;
            },
        };
        proof {
            assert(stack@.skip(8).skip(4) =~= stack@.skip(12));
            assert(stack@.skip(12).take(4) =~= stack@.subrange(12, 16));
            assert(stack@.skip(12).skip(4) =~= stack@.skip(16));
            assert(spec_u32_to_le_bytes(count).len() == 4);
        }
        let n = count as usize;
        let ghost rem0 = reader.remaining();
        let ghost off0 = reader.offset();
        let mut entries: Vec<Entry> = Vec::new();
        let ghost raw: Seq<(Seq<char>, u8)> = Seq::empty();
        let mut i: usize = 0;
        while i < n
            invariant
                i <= n,
                n == count as int,
                reader.wf(),
                reader.buf() == stack@,
                rem0 == stack@.skip(16),
                off0 == 16,
                bytes_has_tag(stack@, TAG_PATH_RESPONSE),
                stack@.len() >= 16,
                stack@.subrange(8, 12) == spec_u32_to_le_bytes(PATH_LIST_VERSION),
                spec_u32_from_le_bytes(stack@.subrange(12, 16)) == count,
                reader.offset() >= off0,
                entries@.len() == i,
                raw.len() == i,
                forall|j: int|
                    0 <= j < i ==> (#[trigger] entries@[j]).name@ == raw[j].0 && spec_kind_from(
                        raw[j].1,
                    ) == Some(entries@[j].kind),
                spec_dec_entries(rem0, n as nat) == (match spec_dec_entries(
                    reader.remaining(),
                    (n - i) as nat,
                ) {
                    None => None::<(Seq<(Seq<char>, u8)>, int)>,
                    Some((es, m)) => Some((raw + es, reader.offset() - off0 + m)),
                }),
            decreases n - i,
        {
            let ghost rem_i = reader.remaining();
            let name: String = match reader.try_get_from() {
                Ok(v) => v,
                Err(_) => {
                    proof {
                        assert(spec_dec_entry(rem_i) is None);
                        assert(spec_dec_entries(rem_i, (n - i) as nat) is None);
                    }
                    return None;
                },
            };
            let ghost rem_k = reader.remaining();
            let kind_byte: u8 = match reader.try_get_from() {
                Ok(v) => v,
                Err(_) => {
                    proof {
                        assert(rem_k =~= rem_i.skip(str_enc(name@).len() as int));
                        assert(spec_dec_entry(rem_i) is None);
                        assert(spec_dec_entries(rem_i, (n - i) as nat) is None);
                    }
                    return None;
                },
            };
            proof {
                assert(rem_k =~= rem_i.skip(str_enc(name@).len() as int));
                assert(rem_i[str_enc(name@).len() as int] == kind_byte);
                assert(spec_dec_entry(rem_i) == Some(
                    ((name@, kind_byte), str_enc(name@).len() as int + 1),
                ));
                assert(reader.remaining() =~= rem_i.skip(str_enc(name@).len() as int + 1));
            }
            let kind = match kind_from_u8(kind_byte) {
                Some(k) => k,
                None => {
                    proof {
                        let tail = spec_dec_entries(
                            reader.remaining(),
                            (n - i - 1) as nat,
                        );
                        if tail is Some {
                            let es_all = spec_dec_entries(rem0, n as nat).unwrap().0;
                            assert(es_all == raw + (seq![(name@, kind_byte)] + tail.unwrap().0));
                            assert(es_all[i as int] == (name@, kind_byte));
                        }
                    }
                    return None;
                },
            };
            entries.push(Entry { name, kind });
            proof {
                raw = raw.push((entries@[i as int].name@, kind_byte));
                assert(raw.drop_last() + seq![raw.last()] =~= raw);
            }
            i += 1;
            proof {
                assert(forall|j: int|
                    0 <= j < i ==> (#[trigger] entries@[j]).name@ == raw[j].0 && spec_kind_from(
                        raw[j].1,
                    ) == Some(entries@[j].kind));
                assert forall|es2: Seq<(Seq<char>, u8)>, m2: int|
                    spec_dec_entries(reader.remaining(), (n - i) as nat) == Some((es2, m2))
                    implies raw.drop_last() + (seq![raw.last()] + es2) =~= raw + es2 by {}
            }
        }
        proof {
            assert(spec_dec_entries(reader.remaining(), 0) == Some(
                (Seq::<(Seq<char>, u8)>::empty(), 0int),
            ));
            assert(raw + Seq::<(Seq<char>, u8)>::empty() =~= raw);
        }
        Some(PathList { entries })
    }

    /// Number of entries listed.
    pub fn len(&self) -> (r: usize)
        ensures
            r == self@.len(),
    {
        self.entries.len()
    }

    /// Borrow the decoded entries in response order.
    pub fn iter(&self) -> (r: &Vec<Entry>)
        ensures
            r@ == self@,
    {
        &self.entries
    }
}

/// Tag of an enumerate-dictionaries request (ASCII `dicQ`).
pub const TAG_DICT_REQUEST: u32 = 0x5163_6964;

/// Tag of an enumerate-dictionaries response (ASCII `dicR`).
pub const TAG_DICT_RESPONSE: u32 = 0x5263_6964;

/// The bytes of an enumerate-dictionaries request.
pub open spec fn spec_list_dict_request(basis: Option<Seq<char>>) -> Seq<u8> {
    spec_u32_to_le_bytes(SENRES_V1_MAGIC) + spec_u32_to_le_bytes(TAG_DICT_REQUEST)
        + spec_u32_to_le_bytes(PATH_LIST_VERSION) + crate::key::opt_str_enc(basis)
}

/// Build the request buffer for enumerating the dictionaries of a
/// basis (or of the union view); fails when the basis name does not
/// fit in one buffer.
pub fn list_dict_request(basis: Option<&str>) -> (r: Option<SenresStack>)
    ensures
        ({
            let enc = spec_list_dict_request(basis.deep_view());
            match r {
                Some(s) => s@.len() == PAGE_SIZE && s@.take(enc.len() as int) == enc,
                None => !(match basis.deep_view() {
                    Some(b) => str_enc_ok(b),
                    None => true,
                } && enc.len() <= PAGE_SIZE),
            }
        }),
{
    proof {
        vstd::bytes::lemma_auto_spec_u32_to_from_le_bytes();
    }
    let stack = SenresStack::new(PAGE_SIZE);
    let mut w = stack.writer_tagged(TAG_DICT_REQUEST);
    let version: u32 = PATH_LIST_VERSION;
    let _ok = w.append(&version);
    proof {
        assert(crate::key::opt_str_enc(basis.deep_view()) == basis.enc());
    }
    if !w.append(&basis) {
        return None;
    }
    proof {
        assert(w@ =~= spec_list_dict_request(basis.deep_view()));
    }
    Some(w.finish())
}

/// The count field of a well-formed enumerate-dictionaries response.
pub open spec fn spec_dict_list_count(s: Seq<u8>) -> Option<u32> {
    if bytes_has_tag(s, TAG_DICT_RESPONSE) && s.len() >= 16 && s.subrange(8, 12)
        == spec_u32_to_le_bytes(PATH_LIST_VERSION) {
        Some(spec_u32_from_le_bytes(s.subrange(12, 16)))
    } else {
        None
    }
}

/// A response buffer holding an enumeration of dictionary names.
pub struct DictList {
    stack: SenresStack,
    count: u32,
}

impl DictList {
    /// The underlying response bytes.
    pub closed spec fn view(&self) -> Seq<u8> {
        self.stack@
    }

    pub closed spec fn wf(&self) -> bool {
        spec_dict_list_count(self.stack@) == Some(self.count)
    }

    pub closed spec fn spec_count(&self) -> u32 {
        self.count
    }

    /// Adopt a remote-filled response buffer.  The marker, tag and
    /// version are validated before any entry is exposed.
    pub fn new(stack: SenresStack) -> (r: Option<DictList>)
        ensures
            match r {
                Some(list) => list.wf() && list@ == stack@ && spec_dict_list_count(stack@) == Some(
                    list.spec_count(),
                ),
                None => spec_dict_list_count(stack@) is None,
            },
    {
        proof {
            vstd::bytes::lemma_auto_spec_u32_to_from_le_bytes();
        }
        let mut reader = match stack.reader_tagged(TAG_DICT_RESPONSE) {
            Some(rd) => rd,
            None => {
                return None;
            },
        };
        let version: u32 = match reader.try_get_from() {
            Ok(v) => v,
            Err(_) => {
                return None;
            },
        };
        proof {
            assert(stack@.skip(8).take(4) =~= stack@.subrange(8, 12));
            assert(spec_u32_to_le_bytes(version).len() == 4);
            assert(spec_u32_to_le_bytes(PATH_LIST_VERSION).len() == 4);
        }
        if version != PATH_LIST_VERSION {
            return None;
        }
        let count: u32 = match reader.try_get_from() {
            Ok(v) => v,
            Err(_) => {
                return None;
            },
        };
        proof {
            assert(stack@.skip(8).skip(4) =~= stack@.skip(12));
            assert(stack@.skip(12).take(4) =~= stack@.subrange(12, 16));
            assert(spec_u32_to_le_bytes(count).len() == 4);
        }
        Some(DictList { stack, count })
    }

    /// Number of dictionary names in the response.
    pub fn len(&self) -> (r: usize)
        requires
            self.wf(),
        ensures
            r == self.spec_count(),
    {
        self.count as usize
    }

    /// Walk the names without materialising them.  The cursor starts
    /// just past the response header (marker, tag, version and count),
    /// at the first length-prefixed name.
    pub fn iter<'a>(&'a self) -> (r: DictListIter<'a>)
        requires
            self.wf(),
        ensures
            r.wf(),
            r.spec_remaining() == self.spec_count(),
            r.spec_rest() == self@.skip(16),
    {
        proof {
            vstd::bytes::lemma_auto_spec_u32_to_from_le_bytes();
        }
        let reader = match self.stack.reader_tagged(TAG_DICT_RESPONSE) {
            Some(rd) => rd,
            None => {
                proof {
                    assert(false);
                }
                vstd::pervasive::unreached()
            },
        };
        let mut it = DictListIter { reader, index: 0, count: self.count };
        let version: u32 = match it.reader.try_get_from() {
            Ok(v) => v,
            Err(_) => {
                proof {
                    assert(false);
                }
                vstd::pervasive::unreached()
            },
        };
        let count: u32 = match it.reader.try_get_from() {
            Ok(v) => v,
            Err(_) => {
                proof {
                    assert(false);
                }
                vstd::pervasive::unreached()
            },
        };
        proof {
            assert(spec_u32_to_le_bytes(version).len() == 4);
            assert(spec_u32_to_le_bytes(count).len() == 4);
            assert(it.reader.remaining() =~= self@.skip(16));
        }
        it
    }
}

/// A lazy, forward-only walk over the names in a [`DictList`].
pub struct DictListIter<'a> {
    reader: crate::senres::SenresReader<'a>,
    index: u32,
    count: u32,
}

impl<'a> DictListIter<'a> {
    pub closed spec fn wf(&self) -> bool {
        self.reader.wf() && self.index <= self.count
    }

    /// How many names have not been yielded yet.
    pub closed spec fn spec_remaining(&self) -> int {
        self.count - self.index
    }

    /// The undecoded bytes the next name will be read from.
    pub closed spec fn spec_rest(&self) -> Seq<u8> {
        self.reader.remaining()
    }

    /// Yield the next name as a zero-copy view into the response, or
    /// nothing once the advertised count is exhausted (in particular,
    /// immediately for an empty enumeration) or when an entry is
    /// malformed.
    pub fn next(&mut self) -> (r: Option<&'a str>)
        requires
            old(self).wf(),
        ensures
            final(self).wf(),
            old(self).spec_remaining() == 0 ==> r is None && *final(self) == *old(self),
            old(self).spec_remaining() > 0 ==> match r {
                Some(s) => {
                    &&& str_dec(old(self).spec_rest()) == Some((s@, str_enc(s@).len() as int))
                    &&& final(self).spec_rest() == old(self).spec_rest().skip(
                        str_enc(s@).len() as int,
                    )
                    &&& final(self).spec_remaining() == old(self).spec_remaining() - 1
                },
                None => {
                    &&& str_dec(old(self).spec_rest()) is None
                    &&& final(self).spec_rest() == old(self).spec_rest()
                    &&& final(self).spec_remaining() == old(self).spec_remaining()
                },
            },
    {
        if self.index >= self.count {
            return None;
        }
        let entry = match self.reader.try_get_ref_from() {
            Ok(s) => s,
            Err(_) => {
                return None;
            },
        };
        self.index = self.index + 1;
        proof {
            let k = str_enc(entry@).len() as int;
            let b = self.reader.buf();
            let o = old(self).reader.offset();
            assert(b.skip(o).skip(k) =~= b.skip(o + k));
        }
        Some(entry)
    }
}

} // verus!
