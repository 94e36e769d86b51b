//! Canonical keys: normalized dotted identifier strings.
//!
//! A canonical key is the normalized form under which taxonomy nodes are
//! registered, ordered and hashed. Ordering of keys is byte-wise on the
//! normalized form.

use vstd::prelude::*;
use vstd::string::StringSliceAdditionalSpecFns;
use vstd::utf8::{encode_utf8, valid_utf8};

use crate::error::{Result, WMMSCoreError};
use crate::path::{check_valid_key, valid_key};

verus! {

/// The ASCII slash of a file-layout path.
pub const SLASH: u8 = 47;

/// The ASCII backslash normalized into a slash.
pub const BACKSLASH: u8 = 92;

/// ASCII whitespace trimmed from path ends.
pub open spec fn is_ws(b: u8) -> bool {
    b == 32 || b == 9 || b == 10 || b == 13
}

/// The sequence with its leading bytes satisfying `p` removed.
pub open spec fn trim_front(s: Seq<u8>, p: spec_fn(u8) -> bool) -> Seq<u8>
    decreases s.len(),
{
    if s.len() > 0 && p(s[0]) {
        trim_front(s.drop_first(), p)
    } else {
        s
    }
}

/// The sequence with its trailing bytes satisfying `p` removed.
pub open spec fn trim_back(s: Seq<u8>, p: spec_fn(u8) -> bool) -> Seq<u8>
    decreases s.len(),
{
    if s.len() > 0 && p(s.last()) {
        trim_back(s.drop_last(), p)
    } else {
        s
    }
}

/// Backslashes normalized to slashes.
pub open spec fn map_separators(s: Seq<u8>) -> Seq<u8> {
    s.map_values(|b: u8| if b == BACKSLASH {
        SLASH
    } else {
        b
    })
}

/// The first `n` bytes with every slash that precedes another slash
/// dropped: runs of slashes collapse to one.
pub open spec fn collapse_to(s: Seq<u8>, n: int) -> Seq<u8>
    decreases n,
{
    if n <= 0 {
        Seq::<u8>::empty()
    } else {
        collapse_to(s, n - 1) + (if s[n - 1] == SLASH && n < s.len() && s[n] == SLASH {
            Seq::<u8>::empty()
        } else {
            seq![s[n - 1]]
        })
    }
}

/// Runs of slashes collapsed to single slashes.
pub open spec fn collapse_slashes(s: Seq<u8>) -> Seq<u8> {
    collapse_to(s, s.len() as int)
}

/// The bytes of the asset-file extension that is stripped.
pub open spec fn asset_suffix() -> Seq<u8> {
    seq![46u8, 97u8, 108u8, 101u8, 109u8, 98u8]
}

/// The asset-file extension stripped from the end, when present.
pub open spec fn strip_asset_suffix(s: Seq<u8>) -> Seq<u8> {
    if s.len() >= 6 && s.subrange(s.len() - 6, s.len() as int) == asset_suffix() {
        s.take(s.len() - 6)
    } else {
        s
    }
}

/// Full file-layout normalization: trim whitespace, normalize separators,
/// collapse slash runs, strip the asset extension, trim outer slashes.
pub open spec fn path_canon(s: Seq<u8>) -> Seq<u8> {
    let t = trim_back(trim_front(s, |b: u8| is_ws(b)), |b: u8| is_ws(b));
    let a = strip_asset_suffix(collapse_slashes(map_separators(t)));
    trim_back(trim_front(a, |b: u8| b == SLASH), |b: u8| b == SLASH)
}

/// A prefix of kept bytes pins `trim_front` to a suffix.
proof fn lemma_trim_front_skip(s: Seq<u8>, p: spec_fn(u8) -> bool, k: int)
    requires
        0 <= k <= s.len(),
        forall|j: int| 0 <= j < k ==> p(#[trigger] s[j]),
        k < s.len() ==> !p(s[k]),
    ensures
        trim_front(s, p) == s.skip(k),
    decreases k,
{
    if k == 0 {
        assert(s.skip(0) =~= s);
    } else {
        assert(p(s[0]));
        let d = s.drop_first();
        assert(forall|j: int| 0 <= j < k - 1 ==> p(#[trigger] d[j]));
        lemma_trim_front_skip(d, p, k - 1);
        assert(d.skip(k - 1) =~= s.skip(k));
    }
}

/// A suffix of kept bytes pins `trim_back` to a prefix.
proof fn lemma_trim_back_take(s: Seq<u8>, p: spec_fn(u8) -> bool, k: int)
    requires
        0 <= k <= s.len(),
        forall|j: int| k <= j < s.len() ==> p(#[trigger] s[j]),
        k > 0 ==> !p(s[k - 1]),
    ensures
        trim_back(s, p) == s.take(k),
    decreases s.len() - k,
{
    if k == s.len() {
        assert(s.take(k) =~= s);
    } else {
        assert(p(s.last()));
        let d = s.drop_last();
        assert(forall|j: int| k <= j < d.len() ==> p(#[trigger] d[j]));
        lemma_trim_back_take(d, p, k);
        assert(d.take(k) =~= s.take(k));
    }
}

/// Relies on String::from_utf8: succeeds exactly on valid UTF-8 and wraps
/// exactly those bytes.
#[verifier::external_body]
fn string_from_utf8(v: Vec<u8>) -> (r: Option<String>)
    ensures
        match r {
            Some(s) => encode_utf8(s@) == v@ && valid_utf8(v@),
            None => !valid_utf8(v@),
        },
{
    String::from_utf8(v).ok()
}

/// An immutable normalized key string.
#[derive(Debug, Clone)]
pub struct CanonicalKey {
    s: String,
}

impl View for CanonicalKey {
    type V = Seq<u8>;

    closed spec fn view(&self) -> Seq<u8> {
        encode_utf8(self.s@)
    }
}

impl CanonicalKey {
    /// The normalized key as a string slice.
    pub fn as_str(&self) -> (r: &str)
        ensures
            r.spec_bytes() == self@,
    {
        self.s.as_str()
    }

    /// Wraps an already-normalized string as a key.
    pub(crate) fn from_valid_str(s: &str) -> (k: CanonicalKey)
        ensures
            k@ == s.spec_bytes(),
    {
        CanonicalKey { s: s.to_owned() }
    }

    /// Normalizes a file-layout path into a key: trims whitespace,
    /// normalizes separators, collapses slash runs, strips the asset
    /// extension and trims outer slashes. Fails with `InvalidPath` exactly
    /// when nothing is left, or when the result is not valid UTF-8.
    pub fn from_path(input: &str) -> (r: Result<CanonicalKey>)
        ensures
            match r {
                Ok(k) => k@ == path_canon(input.spec_bytes()) && path_canon(
                    input.spec_bytes(),
                ).len() > 0 && valid_utf8(path_canon(input.spec_bytes())),
                Err(e) => (path_canon(input.spec_bytes()).len() == 0 || !valid_utf8(
                    path_canon(input.spec_bytes()),
                )) && (e matches WMMSCoreError::InvalidPath(_)),
            },
    {
        let ghost sb = input.spec_bytes();
        let b = input.as_bytes();
        let n = b.len();
        // trim ASCII whitespace
        let mut start: usize = 0;
        while start < n && is_ws_byte(b[start])
            invariant
                n == b@.len(),
                start <= n,
                forall|j: int| 0 <= j < start ==> is_ws(#[trigger] b@[j]),
            decreases n - start,
        {
            start += 1;
        }
        let mut end: usize = n;
        while end > start && is_ws_byte(b[end - 1])
            invariant
                n == b@.len(),
                start <= end <= n,
                forall|j: int| 0 <= j < start ==> is_ws(#[trigger] b@[j]),
                forall|j: int| end <= j < n ==> is_ws(#[trigger] b@[j]),
            decreases end,
        {
            end -= 1;
        }
        let ghost t = trim_back(trim_front(sb, |x: u8| is_ws(x)), |x: u8| is_ws(x));
        proof {
            lemma_trim_front_skip(sb, |x: u8| is_ws(x), start as int);
            lemma_trim_back_take(sb.skip(start as int), |x: u8| is_ws(x), end - start);
            assert(t =~= sb.subrange(start as int, end as int));
        }
        // normalize separators
        let mut m: Vec<u8> = Vec::new();
        let mut i: usize = start;
        while i < end
            invariant
                n == b@.len(),
                b@ == sb,
                start <= i <= end <= n,
                t == sb.subrange(start as int, end as int),
                m@ == map_separators(t).take(i - start),
            decreases end - i,
        {
            let c = b[i];
            if c == BACKSLASH {
                m.push(SLASH);
            } else {
                m.push(c);
            }
            proof {
                assert(m@ =~= map_separators(t).take(i + 1 - start));
            }
            i += 1;
        }
        proof {
            assert(map_separators(t).take(end - start) =~= map_separators(t));
        }
        // collapse slash runs
        let ghost ms = map_separators(t);
        let mlen = m.len();
        let mut c: Vec<u8> = Vec::new();
        let mut i: usize = 0;
        while i < mlen
            invariant
                mlen == m@.len(),
                m@ == ms,
                i <= mlen,
                c@ == collapse_to(ms, i as int),
            decreases mlen - i,
        {
            let keep = !(m[i] == SLASH && i + 1 < mlen && m[i + 1] == SLASH);
            if keep {
                c.push(m[i]);
            }
            proof {
                if keep {
                    assert(c@ =~= collapse_to(ms, i + 1));
                } else {
                    assert(c@ =~= collapse_to(ms, i + 1));
                }
            }
            i += 1;
        }
        // strip the asset extension
        let ghost cs = collapse_slashes(ms);
        proof {
            assert(c@ == cs);
        }
        let clen = c.len();
        if clen >= 6 {
            let tail_matches = c[clen - 6] == 46 && c[clen - 5] == 97 && c[clen - 4] == 108 && c[
                clen - 3] == 101 && c[clen - 2] == 109 && c[clen - 1] == 98;
            if tail_matches {
                proof {
                    assert(cs.subrange(cs.len() - 6, cs.len() as int) =~= asset_suffix());
                }
                c.truncate(clen - 6);
            } else {
                proof {
                    if cs.len() >= 6 && cs.subrange(cs.len() - 6, cs.len() as int)
                        == asset_suffix() {
                        assert(cs[cs.len() - 6] == asset_suffix()[0]);
                        assert(cs[cs.len() - 5] == asset_suffix()[1]);
                        assert(cs[cs.len() - 4] == asset_suffix()[2]);
                        assert(cs[cs.len() - 3] == asset_suffix()[3]);
                        assert(cs[cs.len() - 2] == asset_suffix()[4]);
                        assert(cs[cs.len() - 1] == asset_suffix()[5]);
                        assert(false);
                    }
                }
            }
        }
        let ghost a = strip_asset_suffix(cs);
        proof {
            assert(c@ == a);
        }
        // trim outer slashes
        let alen = c.len();
        let mut start2: usize = 0;
        while start2 < alen && c[start2] == SLASH
            invariant
                alen == c@.len(),
                c@ == a,
                start2 <= alen,
                forall|j: int| 0 <= j < start2 ==> #[trigger] c@[j] == SLASH,
            decreases alen - start2,
        {
            start2 += 1;
        }
        let mut end2: usize = alen;
        while end2 > start2 && c[end2 - 1] == SLASH
            invariant
                alen == c@.len(),
                c@ == a,
                start2 <= end2 <= alen,
                forall|j: int| 0 <= j < start2 ==> #[trigger] c@[j] == SLASH,
                forall|j: int| end2 <= j < alen ==> #[trigger] c@[j] == SLASH,
            decreases end2,
        {
            end2 -= 1;
        }
        proof {
            lemma_trim_front_skip(a, |x: u8| x == SLASH, start2 as int);
            lemma_trim_back_take(a.skip(start2 as int), |x: u8| x == SLASH, end2 - start2);
            assert(path_canon(sb) =~= a.subrange(start2 as int, end2 as int));
        }
        let mut out: Vec<u8> = Vec::new();
        let mut i: usize = start2;
        while i < end2
            invariant
                alen == c@.len(),
                c@ == a,
                start2 <= i <= end2 <= alen,
                path_canon(sb) == a.subrange(start2 as int, end2 as int),
                out@ == a.subrange(start2 as int, i as int),
            decreases end2 - i,
        {
            out.push(c[i]);
            proof {
                assert(out@ =~= a.subrange(start2 as int, i + 1));
            }
            i += 1;
        }
        if out.len() == 0 {
            return Err(WMMSCoreError::InvalidPath(input.to_owned()));
        }
        match string_from_utf8(out) {
            Some(s) => Ok(CanonicalKey { s }),
            None => Err(WMMSCoreError::InvalidPath(input.to_owned())),
        }
    }

    /// Validates `input` as a dotted identifier key.
    ///
    /// Succeeds exactly when `input` is non-empty dot-separated
    /// `[A-Za-z0-9_]+` segments; fails with `InvalidPath` otherwise.
    pub fn from_dotted_ident(input: &str) -> (r: Result<CanonicalKey>)
        ensures
            match r {
                Ok(k) => valid_key(input.spec_bytes()) && k@ == input.spec_bytes(),
                Err(e) => !valid_key(input.spec_bytes()) && (e matches
                    WMMSCoreError::InvalidPath(_)),
            },
    {
        if check_valid_key(input) {
            Ok(CanonicalKey { s: input.to_owned() })
        } else {
            Err(WMMSCoreError::InvalidPath(input.to_owned()))
        }
    }
}

/// Whether the byte is ASCII whitespace.
fn is_ws_byte(b: u8) -> (r: bool)
    ensures
        r == is_ws(b),
{
    b == 32 || b == 9 || b == 10 || b == 13
}

} // verus!
