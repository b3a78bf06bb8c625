//! Addressing grammar for the three-level `basis:dict:key` namespace.
//!
//! A path is a single `:`-separated string.  A leading separator
//! introduces an explicit basis segment; an empty basis token selects
//! the caller-supplied default; everything after the second separator
//! is a verbatim dictionary/key remainder.  A trailing separator on a
//! resolved basis or dictionary token is ambiguous and is rejected.

use vstd::prelude::*;

verus! {

/// The separator character of the grammar.
pub const MAIN_SEP: char = ':';

/// Whether the byte is the path separator (`:`, 0x3a).
pub fn is_sep_byte(b: u8) -> (r: bool)
    ensures
        r <==> b == 0x3a,
{
    b == 0x3a
}

/// Whether the byte is the path separator in verbatim paths; the
/// grammar has no escaping, so this is the same predicate.
pub fn is_verbatim_sep(b: u8) -> (r: bool)
    ensures
        r <==> b == 0x3a,
{
    b == 0x3a
}

/// A path whose final resolved token carries a trailing separator.
#[derive(Debug, Clone, Copy, PartialEq, Eq, Structural)]
pub struct PathError;

/// Index of the first separator, if any.
pub open spec fn find_sep(s: Seq<char>) -> Option<int>
    decreases s.len(),
{
    if s.len() == 0 {
        None
    } else if s[0] == MAIN_SEP {
        Some(0)
    } else {
        match find_sep(s.drop_first()) {
            Some(i) => Some(i + 1),
            None => None,
        }
    }
}

/// Whether the sequence contains a separator.
pub open spec fn has_sep(s: Seq<char>) -> bool {
    find_sep(s) is Some
}

/// Whether the sequence ends with a separator.
pub open spec fn ends_with_sep(s: Seq<char>) -> bool {
    s.len() > 0 && s[s.len() - 1] == MAIN_SEP
}

/// The trailing-separator legality check applied to a parsed pair.
pub open spec fn check_trailing(basis: Option<Seq<char>>, dict: Option<Seq<char>>) -> Option<
    (Option<Seq<char>>, Option<Seq<char>>),
> {
    if (match basis {
        Some(b) => ends_with_sep(b),
        None => false,
    }) || (match dict {
        Some(d) => ends_with_sep(d),
        None => false,
    }) {
        None
    } else {
        Some((basis, dict))
    }
}

/// The grammar: split a path into optional basis and optional
/// dictionary/key remainder, or nothing if the path is illegal.
pub open spec fn spec_split_basis_and_dict(src: Seq<char>, default: Option<Seq<char>>) -> Option<
    (Option<Seq<char>>, Option<Seq<char>>),
> {
    if src.len() == 0 {
        Some((None, Some(Seq::empty())))
    } else if src[0] == MAIN_SEP {
        let rest = src.skip(1);
        match find_sep(rest) {
            Some(i) => {
                let basis = if rest.take(i).len() > 0 {
                    Some(rest.take(i))
                } else {
                    default
                };
                let dict = if rest.skip(i + 1).len() == 0 {
                    None
                } else {
                    Some(rest.skip(i + 1))
                };
                check_trailing(basis, dict)
            },
            None => {
                let basis = if rest.len() > 0 {
                    Some(rest)
                } else {
                    None
                };
                check_trailing(basis, None)
            },
        }
    } else {
        check_trailing(None, Some(src))
    }
}

/// A found separator at the first separator-free position is the first
/// separator.
proof fn lemma_find_sep_at(s: Seq<char>, i: int)
    requires
        0 <= i < s.len(),
        s[i] == MAIN_SEP,
        forall|k: int| 0 <= k < i ==> s[k] != MAIN_SEP,
    ensures
        find_sep(s) == Some(i),
    decreases i,
{
    if i > 0 {
        lemma_find_sep_at(s.drop_first(), i - 1);
    }
}

/// A sequence without separators has none to find.
proof fn lemma_find_sep_none(s: Seq<char>)
    requires
        forall|k: int| 0 <= k < s.len() ==> s[k] != MAIN_SEP,
    ensures
        find_sep(s) is None,
    decreases s.len(),
{
    if s.len() > 0 {
        lemma_find_sep_none(s.drop_first());
    }
}

/// Find the first separator at or after position `from`.
fn scan_sep(s: &str, from: usize, n: usize) -> (r: Option<usize>)
    requires
        n == s@.len(),
        from <= n,
    ensures
        match r {
            Some(j) => from <= j < n && s@[j as int] == MAIN_SEP && (forall|k: int|
                from <= k < j ==> s@[k] != MAIN_SEP) && find_sep(s@.skip(from as int)) == Some(
                j - from,
            ),
            None => (forall|k: int| from <= k < n ==> s@[k] != MAIN_SEP) && find_sep(
                s@.skip(from as int),
            ) is None,
        },
{
    let mut j: usize = from;
    while j < n
        invariant
            from <= j <= n,
            n == s@.len(),
            forall|k: int| from <= k < j ==> s@[k] != MAIN_SEP,
        decreases n - j,
    {
        if s.get_char(j) == MAIN_SEP {
            proof {
                lemma_find_sep_at(s@.skip(from as int), j - from);
            }
            return Some(j);
        }
        j += 1;
    }
    proof {
        lemma_find_sep_none(s@.skip(from as int));
    }
    None
}

/// Split a path into its constituent basis and dictionary/key parts,
/// if the path is legal.  The default basis is only substituted for an
/// explicitly empty basis token; it is never resolved here.
pub fn split_basis_and_dict<'a>(src: &'a str, default: Option<&'a str>) -> (r: Result<
    (Option<&'a str>, Option<&'a str>),
    PathError,
>)
    ensures
        match r {
            Ok(pair) => spec_split_basis_and_dict(src@, default.deep_view()) == Some(
                (pair.0.deep_view(), pair.1.deep_view()),
            ),
            Err(_) => spec_split_basis_and_dict(src@, default.deep_view()) is None,
        },
{
    let n = src.unicode_len();
    if n == 0 {
        proof {
            reveal_strlit("");
        }
        return Ok((None, Some("")));
    }
    let basis: Option<&'a str>;
    let dict: Option<&'a str>;
    if src.get_char(0) == MAIN_SEP {
        match scan_sep(src, 1, n) {
            Some(j) => {
                proof {
                    assert(src@.skip(1).take(j - 1) =~= src@.subrange(1, j as int));
                    assert(src@.skip(1).skip(j - 1 + 1) =~= src@.subrange(j + 1, n as int));
                }
                basis = if j > 1 {
                    Some(src.substring_char(1, j))
                } else {
                    default
                };
                dict = if j + 1 == n {
                    None
                } else {
                    Some(src.substring_char(j + 1, n))
                };
            },
            None => {
                proof {
                    assert(src@.skip(1).take(n - 1) =~= src@.subrange(1, n as int));
                    assert(src@.skip(1) =~= src@.subrange(1, n as int));
                }
                basis = if n > 1 {
                    Some(src.substring_char(1, n))
                } else {
                    None
                };
                dict = None;
            },
        }
    } else {
        basis = None;
        dict = Some(src);
    }
    if let Some(b) = basis {
        let bn = b.unicode_len();
        if bn > 0 && b.get_char(bn - 1) == MAIN_SEP {
            return Err(PathError);
        }
    }
    if let Some(d) = dict {
        let dn = d.unicode_len();
        if dn > 0 && d.get_char(dn - 1) == MAIN_SEP {
            return Err(PathError);
        }
    }
    Ok((basis, dict))
}

/// The remainder of `s` under `prefix`, when `s` names exactly one
/// further separator-free segment below it.  An empty prefix names the
/// root, below which `s` itself must be separator-free.
pub open spec fn spec_get_path(s: Seq<char>, prefix: Seq<char>) -> Option<Seq<char>> {
    if s.len() == 0 {
        None
    } else if prefix.len() == 0 {
        if has_sep(s) {
            None
        } else {
            Some(s)
        }
    } else if s.len() >= prefix.len() + 1 && s.take(prefix.len() as int) == prefix && s[prefix.len() as int]
        == MAIN_SEP {
        let rem = s.skip(prefix.len() as int + 1);
        if has_sep(rem) {
            None
        } else {
            Some(rem)
        }
    } else {
        None
    }
}

/// The child segment that `s` names directly below `prefix`, if any.
pub fn get_path<'a>(s: &'a str, prefix: &'a str) -> (r: Option<&'a str>)
    ensures
        r.deep_view() == spec_get_path(s@, prefix@),
{
    let n = s.unicode_len();
    if n == 0 {
        return None;
    }
    let p = prefix.unicode_len();
    if p == 0 {
        match scan_sep(s, 0, n) {
            Some(_) => {
                proof {
                    assert(s@.skip(0) =~= s@);
                }
                None
            },
            None => {
                proof {
                    assert(s@.skip(0) =~= s@);
                }
                Some(s)
            },
        }
    } else {
        if n <= p {
            return None;
        }
        let mut k: usize = 0;
        while k < p
            invariant
                k <= p,
                p < n,
                n == s@.len(),
                p == prefix@.len(),
                forall|t: int| 0 <= t < k ==> s@[t] == prefix@[t],
            decreases p - k,
        {
            if s.get_char(k) != prefix.get_char(k) {
                proof {
                    assert(s@.take(p as int)[k as int] != prefix@[k as int]);
                }
                return None;
            }
            k += 1;
        }
        proof {
            assert(s@.take(p as int) =~= prefix@);
        }
        if s.get_char(p) != MAIN_SEP {
            return None;
        }
        match scan_sep(s, p + 1, n) {
            Some(_) => None,
            None => {
                proof {
                    assert(s@.skip(p as int + 1) =~= s@.subrange(p as int + 1, n as int));
                }
                Some(s.substring_char(p + 1, n))
            },
        }
    }
}

} // verus!

