//! Dotted identifier paths: validation, byte-wise ordering, parent prefixes.
//!
//! A path is a non-empty sequence of dot-separated segments, each segment a
//! non-empty run of ASCII alphanumerics or underscores. All reasoning is over
//! the UTF-8 bytes of the string, which for valid paths are plain ASCII; the
//! ordering of paths is byte-wise.

use vstd::prelude::*;
use vstd::string::StringSliceAdditionalSpecFns;
use vstd::string::StrSliceExecFns;
use vstd::utf8::encode_utf8;

use crate::error::{AspectError, AspectResult};

verus! {

/// The ASCII dot that separates path segments.
pub const DOT: u8 = 46;

/// A byte allowed inside a path segment: ASCII alphanumeric or underscore.
pub open spec fn is_ident_byte(b: u8) -> bool {
    (65 <= b && b <= 90) || (97 <= b && b <= 122) || (48 <= b && b <= 57) || b == 95
}

/// A valid path: non-empty dot-separated identifier segments, no empty
/// segment (so no leading, trailing or doubled dot).
pub open spec fn valid_key(s: Seq<u8>) -> bool {
    &&& s.len() > 0
    &&& is_ident_byte(s[0])
    &&& is_ident_byte(s[s.len() - 1])
    &&& forall|i: int| 0 <= i < s.len() ==> is_ident_byte(#[trigger] s[i]) || s[i] == DOT
    &&& forall|i: int| 0 <= i < s.len() - 1 ==> !(#[trigger] s[i] == DOT && s[i + 1] == DOT)
}

/// Strict byte-wise lexicographic order.
pub open spec fn lex_lt(a: Seq<u8>, b: Seq<u8>) -> bool
    decreases a.len(),
{
    if b.len() == 0 {
        false
    } else if a.len() == 0 {
        true
    } else if a[0] < b[0] {
        true
    } else if a[0] > b[0] {
        false
    } else {
        lex_lt(a.drop_first(), b.drop_first())
    }
}

/// Whether the path contains a dot, i.e. has a strict dot-prefix.
pub open spec fn has_dot(s: Seq<u8>) -> bool {
    exists|i: int| 0 <= i < s.len() && s[i] == DOT
}

/// Index of the last dot, or -1 when there is none.
pub open spec fn last_dot_index(s: Seq<u8>) -> int
    decreases s.len(),
{
    if s.len() == 0 {
        -1
    } else if s[s.len() - 1] == DOT {
        s.len() - 1
    } else {
        last_dot_index(s.take(s.len() - 1))
    }
}

/// The parent path: everything before the last dot.
pub open spec fn parent_bytes(s: Seq<u8>) -> Seq<u8> {
    s.take(last_dot_index(s))
}

/// Number of dots in the path; for a valid path this is the depth of the
/// node in the taxonomy tree.
pub open spec fn dot_count(s: Seq<u8>) -> nat
    decreases s.len(),
{
    if s.len() == 0 {
        0
    } else {
        (if s[s.len() - 1] == DOT {
            1nat
        } else {
            0nat
        }) + dot_count(s.take(s.len() - 1))
    }
}

/// `p` names a strict ancestor of `s`: `p` is a proper prefix of `s` and the
/// next byte of `s` is a dot.
pub open spec fn is_strict_dot_prefix(p: Seq<u8>, s: Seq<u8>) -> bool {
    &&& p.len() < s.len()
    &&& s.take(p.len() as int) == p
    &&& s[p.len() as int] == DOT
}

pub proof fn lemma_last_dot(s: Seq<u8>)
    ensures
        -1 <= last_dot_index(s) < s.len(),
        last_dot_index(s) >= 0 ==> s[last_dot_index(s)] == DOT,
        forall|j: int| last_dot_index(s) < j < s.len() ==> #[trigger] s[j] != DOT,
        has_dot(s) <==> last_dot_index(s) >= 0,
    decreases s.len(),
{
    if s.len() == 0 {
    } else if s[s.len() - 1] == DOT {
    } else {
        let s0 = s.take(s.len() - 1);
        lemma_last_dot(s0);
        assert(forall|j: int| 0 <= j < s0.len() ==> s0[j] == #[trigger] s[j]);
        if has_dot(s) {
            let i = choose|i: int| 0 <= i < s.len() && s[i] == DOT;
            assert(i < s.len() - 1);
            assert(s0[i] == DOT);
            assert(has_dot(s0));
        }
        if has_dot(s0) {
            let i = choose|i: int| 0 <= i < s0.len() && s0[i] == DOT;
            assert(s[i] == DOT);
        }
    }
}

/// The parent of a valid dotted path is itself a valid path, strictly
/// shorter, and a strict dot-prefix.
pub proof fn lemma_parent_valid(s: Seq<u8>)
    requires
        valid_key(s),
        has_dot(s),
    ensures
        valid_key(parent_bytes(s)),
        is_strict_dot_prefix(parent_bytes(s), s),
        parent_bytes(s).len() >= 1,
{
    lemma_last_dot(s);
    let k = last_dot_index(s);
    let p = parent_bytes(s);
    assert(s[k] == DOT);
    assert(k != 0);
    assert(k != s.len() - 1);
    assert(p.len() == k);
    assert(p[0] == s[0]);
    assert(!(s[k - 1] == DOT && s[k] == DOT));
    assert(p[k - 1] == s[k - 1]);
    assert(forall|i: int| 0 <= i < p.len() ==> #[trigger] p[i] == s[i]);
}

pub proof fn lemma_lex_irrefl(a: Seq<u8>)
    ensures
        !lex_lt(a, a),
    decreases a.len(),
{
    if a.len() > 0 {
        lemma_lex_irrefl(a.drop_first());
    }
}

pub proof fn lemma_lex_trichotomy(a: Seq<u8>, b: Seq<u8>)
    ensures
        lex_lt(a, b) || lex_lt(b, a) || a == b,
    decreases a.len(),
{
    if a.len() == 0 && b.len() == 0 {
        assert(a =~= b);
    } else if a.len() > 0 && b.len() > 0 && a[0] == b[0] {
        lemma_lex_trichotomy(a.drop_first(), b.drop_first());
        if a.drop_first() == b.drop_first() {
            assert(a.len() == b.len());
            assert forall|i: int| 0 <= i < a.len() implies a[i] == b[i] by {
                if i > 0 {
                    assert(a[i] == a.drop_first()[i - 1]);
                    assert(b[i] == b.drop_first()[i - 1]);
                }
            }
            assert(a =~= b);
        }
    }
}

pub proof fn lemma_lex_trans(a: Seq<u8>, b: Seq<u8>, c: Seq<u8>)
    requires
        lex_lt(a, b),
        lex_lt(b, c),
    ensures
        lex_lt(a, c),
    decreases a.len(),
{
    if a.len() > 0 && b.len() > 0 && c.len() > 0 && a[0] == b[0] && b[0] == c[0] {
        lemma_lex_trans(a.drop_first(), b.drop_first(), c.drop_first());
    }
}

/// A proper prefix is lexicographically smaller than its extension.
pub proof fn lemma_lex_prefix(p: Seq<u8>, s: Seq<u8>)
    requires
        p.len() < s.len(),
        s.take(p.len() as int) == p,
    ensures
        lex_lt(p, s),
    decreases p.len(),
{
    if p.len() > 0 {
        assert(s.take(p.len() as int)[0] == s[0]);
        assert(s.drop_first().take(p.len() - 1) =~= p.drop_first());
        lemma_lex_prefix(p.drop_first(), s.drop_first());
    }
}

/// Equal prefixes of length `k` leave the order to the remainders.
pub proof fn lemma_lex_skip(a: Seq<u8>, b: Seq<u8>, k: int)
    requires
        0 <= k <= a.len(),
        k <= b.len(),
        forall|j: int| 0 <= j < k ==> a[j] == #[trigger] b[j],
    ensures
        lex_lt(a, b) == lex_lt(a.skip(k), b.skip(k)),
    decreases k,
{
    if k > 0 {
        assert(a[0] == b[0]);
        lemma_lex_skip(a.drop_first(), b.drop_first(), k - 1);
        assert(a.drop_first().skip(k - 1) =~= a.skip(k));
        assert(b.drop_first().skip(k - 1) =~= b.skip(k));
    } else {
        assert(a.skip(0) =~= a);
        assert(b.skip(0) =~= b);
    }
}

/// The strict dot-prefixes of a valid path are its parent together with the
/// parent's own strict dot-prefixes.
pub proof fn lemma_dot_prefix_step(p: Seq<u8>, s: Seq<u8>)
    requires
        valid_key(s),
    ensures
        is_strict_dot_prefix(p, s) <==> (has_dot(s) && (p == parent_bytes(s)
            || is_strict_dot_prefix(p, parent_bytes(s)))),
{
    lemma_last_dot(s);
    let ldi = last_dot_index(s);
    let q = parent_bytes(s);
    if has_dot(s) {
        assert(s.take(q.len() as int) =~= q);
        if is_strict_dot_prefix(p, q) {
            assert(q.take(p.len() as int) =~= s.take(p.len() as int));
            assert(q[p.len() as int] == s[p.len() as int]);
        }
        if is_strict_dot_prefix(p, s) && p != q {
            let k = p.len() as int;
            assert(s[k] == DOT);
            assert(k <= ldi);
            if k == ldi {
                assert(p =~= q);
            } else {
                assert(q.take(k) =~= s.take(k));
                assert(q[k] == s[k]);
                assert(is_strict_dot_prefix(p, q));
            }
        }
    } else {
        if is_strict_dot_prefix(p, s) {
            assert(s[p.len() as int] == DOT);
        }
    }
}

/// Ancestry is transitive.
pub proof fn lemma_sdp_trans(a: Seq<u8>, b: Seq<u8>, c: Seq<u8>)
    requires
        is_strict_dot_prefix(a, b),
        is_strict_dot_prefix(b, c),
    ensures
        is_strict_dot_prefix(a, c),
{
    assert(c.take(a.len() as int) =~= b.take(a.len() as int));
    assert(c[a.len() as int] == b[a.len() as int]);
}

/// Two ancestors of one path are nested: the shorter is an ancestor of the
/// longer.
pub proof fn lemma_sdp_nested(x: Seq<u8>, y: Seq<u8>, s: Seq<u8>)
    requires
        is_strict_dot_prefix(x, s),
        is_strict_dot_prefix(y, s),
        x.len() < y.len(),
    ensures
        is_strict_dot_prefix(x, y),
{
    assert(y.take(x.len() as int) =~= s.take(x.len() as int));
    assert(y[x.len() as int] == s[x.len() as int]);
}

/// A path has fewer dots than bytes.
pub proof fn lemma_dot_count_le(s: Seq<u8>)
    ensures
        dot_count(s) <= s.len(),
    decreases s.len(),
{
    if s.len() > 0 {
        lemma_dot_count_le(s.take(s.len() - 1));
    }
}

/// Dots are preserved under removing a dot-free suffix.
proof fn lemma_dot_count_no_dot_suffix(s: Seq<u8>, k: int)
    requires
        0 <= k <= s.len(),
        forall|j: int| k <= j < s.len() ==> #[trigger] s[j] != DOT,
    ensures
        dot_count(s) == dot_count(s.take(k)),
    decreases s.len() - k,
{
    if k < s.len() {
        let s0 = s.take(s.len() - 1);
        assert(forall|j: int| k <= j < s0.len() ==> #[trigger] s0[j] != DOT);
        lemma_dot_count_no_dot_suffix(s0, k);
        assert(s0.take(k) =~= s.take(k));
    } else {
        assert(s.take(k) =~= s);
    }
}

/// The depth of a valid path is one more than the depth of its parent.
pub proof fn lemma_dot_count_parent(s: Seq<u8>)
    requires
        valid_key(s),
    ensures
        has_dot(s) ==> dot_count(s) == dot_count(parent_bytes(s)) + 1,
        !has_dot(s) ==> dot_count(s) == 0,
    decreases s.len(),
{
    lemma_last_dot(s);
    if has_dot(s) {
        let ldi = last_dot_index(s);
        lemma_dot_count_no_dot_suffix(s, ldi + 1);
        let t = s.take(ldi + 1);
        assert(t[t.len() - 1] == DOT);
        assert(t.take(t.len() - 1) =~= s.take(ldi));
        assert(dot_count(t) == 1 + dot_count(parent_bytes(s)));
    } else {
        lemma_dot_count_no_dot_suffix(s, 0);
        assert(s.take(0) =~= Seq::<u8>::empty());
    }
}

/// A validated, normalized dotted identifier path.
#[derive(Debug, Clone)]
pub struct AspectPath {
    s: String,
}

impl View for AspectPath {
    type V = Seq<u8>;

    closed spec fn view(&self) -> Seq<u8> {
        encode_utf8(self.s@)
    }
}

impl AspectPath {
    /// Every constructed path satisfies the dotted-identifier grammar.
    pub open spec fn wf(&self) -> bool {
        valid_key(self@)
    }

    /// Validates `input` as a dotted identifier path.
    ///
    /// Returns the path when `input` is non-empty dot-separated
    /// `[A-Za-z0-9_]+` segments, and `InvalidPath` otherwise.
    pub fn parse(input: &str) -> (r: AspectResult<AspectPath>)
        ensures
            match r {
                Ok(p) => valid_key(input.spec_bytes()) && p@ == input.spec_bytes() && p.wf(),
                Err(e) => !valid_key(input.spec_bytes()) && (e matches AspectError::InvalidPath(_)),
            },
    {
        if check_valid_key(input) {
            Ok(AspectPath { s: input.to_owned() })
        } else {
            Err(AspectError::InvalidPath(input.to_owned()))
        }
    }

    /// The normalized path as a string slice.
    pub fn as_str(&self) -> (r: &str)
        ensures
            r.spec_bytes() == self@,
    {
        self.s.as_str()
    }

    /// The parent path: everything before the last dot, or `None` for a
    /// root path without dots.
    pub fn parent(&self) -> (r: Option<AspectPath>)
        requires
            self.wf(),
        ensures
            r is Some <==> has_dot(self@),
            r matches Some(p) ==> p@ == parent_bytes(self@) && p.wf(),
    {
        let st = self.s.as_str();
        proof {
            assert(st.spec_bytes() == self@);
        }
        match find_last_dot(st) {
            Some(idx) => {
                proof {
                    lemma_last_dot(self@);
                    lemma_parent_valid(self@);
                    broadcast use vstd::utf8::encode_utf8_valid_utf8;
                    broadcast use vstd::utf8::is_char_boundary_iff_not_is_continuation_byte;

                    assert(vstd::utf8::valid_utf8(self@));
                    assert(self@[idx as int] == DOT);
                    assert(!vstd::utf8::is_continuation_byte(self@[idx as int]));
                    assert(vstd::utf8::is_char_boundary(st.spec_bytes(), idx as int));
                }
                let (head, _) = st.split_at(idx);
                proof {
                    assert(head.spec_bytes() =~= parent_bytes(self@));
                }
                Some(AspectPath { s: head.to_owned() })
            },
            None => None,
        }
    }
}

/// Whether the string's bytes form a valid dotted identifier path.
pub fn check_valid_key(input: &str) -> (r: bool)
    ensures
        r == valid_key(input.spec_bytes()),
{
    let b = input.as_bytes();
    let n = b.len();
    if n == 0 {
        return false;
    }
    if !is_ident(b[0]) || !is_ident(b[n - 1]) {
        return false;
    }
    let mut i: usize = 0;
    while i < n
        invariant
            n == b@.len(),
            b@ == input.spec_bytes(),
            i <= n,
            is_ident_byte(b@[0]),
            is_ident_byte(b@[n - 1]),
            forall|j: int|
                0 <= j < i ==> (is_ident_byte(#[trigger] b@[j]) || b@[j] == DOT),
            forall|j: int|
                0 <= j < i && j < n - 1 ==> !(#[trigger] b@[j] == DOT && b@[j + 1] == DOT),
        decreases n - i,
    {
        if b[i] == DOT {
            // the last byte is an identifier byte, so a dot is never last
            if i + 1 >= n || b[i + 1] == DOT {
                proof {
                    if valid_key(b@) {
                        assert(is_ident_byte(b@[n - 1]));
                        if i + 1 < n {
                            assert(!(b@[i as int] == DOT && b@[i + 1] == DOT));
                        }
                    }
                }
                return false;
            }
        } else if !is_ident(b[i]) {
            proof {
                if valid_key(b@) {
                    assert(is_ident_byte(b@[i as int]) || b@[i as int] == DOT);
                }
            }
            return false;
        }
        i += 1;
    }
    true
}

/// Whether the byte may stand inside a path segment.
fn is_ident(b: u8) -> (r: bool)
    ensures
        r == is_ident_byte(b),
{
    (65 <= b && b <= 90) || (97 <= b && b <= 122) || (48 <= b && b <= 57) || b == 95
}

/// Byte index of the last dot of an ASCII string, if any.
pub(crate) fn find_last_dot(s: &str) -> (r: Option<usize>)
    ensures
        r is Some <==> has_dot(s.spec_bytes()),
        r matches Some(idx) ==> idx == last_dot_index(s.spec_bytes()),
{
    let b = s.as_bytes();
    let n = b.len();
    proof {
        lemma_last_dot(s.spec_bytes());
    }
    let mut i: usize = n;
    while i > 0
        invariant
            n == b@.len(),
            i <= n,
            b@ == s.spec_bytes(),
            forall|j: int| i <= j < n ==> #[trigger] b@[j] != DOT,
        decreases i,
    {
        i -= 1;
        if b[i] == DOT {
            proof {
                lemma_last_dot(s.spec_bytes());
                assert(last_dot_index(s.spec_bytes()) >= i);
                assert(last_dot_index(s.spec_bytes()) <= i);
            }
            return Some(i);
        }
    }
    None
}

/// Byte-wise lexicographic comparison of two strings.
pub fn str_lex_lt(a: &str, b: &str) -> (r: bool)
    ensures
        r == lex_lt(a.spec_bytes(), b.spec_bytes()),
{
    let ab = a.as_bytes();
    let bb = b.as_bytes();
    let na = ab.len();
    let nb = bb.len();
    let mut i: usize = 0;
    loop
        invariant
            na == ab@.len(),
            nb == bb@.len(),
            ab@ == a.spec_bytes(),
            bb@ == b.spec_bytes(),
            i <= na,
            i <= nb,
            forall|j: int| 0 <= j < i ==> ab@[j] == #[trigger] bb@[j],
        decreases na - i,
    {
        proof {
            lemma_lex_skip(ab@, bb@, i as int);
        }
        if i >= na {
            return na < nb;
        }
        if i >= nb {
            return false;
        }
        if ab[i] < bb[i] {
            return true;
        }
        if ab[i] > bb[i] {
            return false;
        }
        i += 1;
    }
}

} // verus!
