//! The aspect taxonomy: a builder that accumulates paths and a sealed,
//! immutable registry with stable handles.
//!
//! The builder keeps the registered canonical keys strictly sorted by their
//! bytes and closed under dot-prefix parents (registering a path implicitly
//! registers every ancestor). Sealing assigns handles in ascending key
//! order, so the whole structure is a pure function of the registered key
//! set, whatever the registration order.

use vstd::prelude::*;
use vstd::string::StringSliceAdditionalSpecFns;

use crate::canon::CanonicalKey;
use crate::error::{AspectError, AspectResult};
use crate::hash::{hash128, hash128_of, Hash128};
use crate::ids::{id_input, AspectId};
use crate::path::{
    dot_count, has_dot, is_strict_dot_prefix, last_dot_index, lemma_dot_count_le,
    lemma_dot_count_parent, lemma_dot_prefix_step, lemma_last_dot, lemma_lex_irrefl,
    lemma_lex_prefix, lemma_lex_trans, lemma_lex_trichotomy, lemma_parent_valid, lemma_sdp_nested,
    lemma_sdp_trans, lex_lt, parent_bytes, str_lex_lt, valid_key, AspectPath, DOT,
};
use crate::set::{rids_sorted, AspectSet};

verus! {

/// Dense session-stable handle of a taxonomy node. Handles are assigned at
/// seal time in ascending canonical-key order, so they are a pure function
/// of the registered key set.
#[derive(Clone, Copy, Debug, PartialEq, Eq, Structural, Hash)]
pub struct AspectRid(pub u32);

/// The key bytes are strictly increasing, hence duplicate-free.
pub open spec fn keys_sorted(ks: Seq<Seq<u8>>) -> bool {
    forall|i: int, j: int| 0 <= i < j < ks.len() ==> lex_lt(#[trigger] ks[i], #[trigger] ks[j])
}

/// Every key is a valid dotted identifier path.
pub open spec fn keys_valid(ks: Seq<Seq<u8>>) -> bool {
    forall|i: int| 0 <= i < ks.len() ==> valid_key(#[trigger] ks[i])
}

/// Every key's parent is present: the set is closed under ancestors.
pub open spec fn keys_prefix_closed(ks: Seq<Seq<u8>>) -> bool {
    forall|i: int|
        0 <= i < ks.len() && has_dot(#[trigger] ks[i]) ==> ks.contains(parent_bytes(ks[i]))
}

/// Accumulates registered paths; sealing turns it into the immutable
/// registry.
pub struct AspectRegistryBuilder {
    keys: Vec<CanonicalKey>,
    sealed: bool,
}

impl AspectRegistryBuilder {
    /// The byte views of the registered keys, in storage order.
    pub closed spec fn keys_view(&self) -> Seq<Seq<u8>> {
        self.keys@.map_values(|k: CanonicalKey| k@)
    }

    /// Whether the builder refuses further registrations.
    pub closed spec fn is_sealed(&self) -> bool {
        self.sealed
    }

    /// The keys stay strictly sorted, valid, and closed under ancestors.
    pub open spec fn wf(&self) -> bool {
        &&& keys_sorted(self.keys_view())
        &&& keys_valid(self.keys_view())
        &&& keys_prefix_closed(self.keys_view())
    }

    /// An empty, open builder.
    pub fn new() -> (r: AspectRegistryBuilder)
        ensures
            r.wf(),
            r.keys_view() == Seq::<Seq<u8>>::empty(),
            !r.is_sealed(),
    {
        let r = AspectRegistryBuilder { keys: Vec::new(), sealed: false };
        proof {
            assert(r.keys_view() =~= Seq::<Seq<u8>>::empty());
        }
        r
    }

    /// Registers a path together with every ancestor prefix.
    ///
    /// Fails with `Sealed` after sealing and with `InvalidPath` on a
    /// malformed path; registration is idempotent and order-independent:
    /// afterwards the key set holds exactly the old keys, the path, and the
    /// path's strict dot-prefixes.
    pub fn register(&mut self, path: &str) -> (r: AspectResult<()>)
        requires
            old(self).wf(),
        ensures
            final(self).wf(),
            final(self).is_sealed() == old(self).is_sealed(),
            old(self).is_sealed() ==> (r matches Err(AspectError::Sealed)) && final(
                self).keys_view() == old(self).keys_view(),
            !old(self).is_sealed() && !valid_key(path.spec_bytes()) ==> (r matches Err(
                AspectError::InvalidPath(_))) && final(self).keys_view() == old(self).keys_view(),
            !old(self).is_sealed() && valid_key(path.spec_bytes()) ==> (r is Ok)
                && (forall|k: Seq<u8>|
                #![trigger final(self).keys_view().contains(k)]
                final(self).keys_view().contains(k) <==> (old(self).keys_view().contains(k) || k
                    == path.spec_bytes() || is_strict_dot_prefix(k, path.spec_bytes()))),
            final(self).keys_view().len() <= old(self).keys_view().len() + path.spec_bytes().len(),
    {
        if self.sealed {
            return Err(AspectError::Sealed);
        }
        match AspectPath::parse(path) {
            Err(e) => Err(e),
            Ok(p) => {
                self.insert_with_ancestors(&p);
                proof {
                    lemma_dot_count_le(p@.take(p@.len() - 1));
                    assert(p@[p@.len() - 1] != crate::path::DOT);
                    assert(dot_count(p@) == dot_count(p@.take(p@.len() - 1)));
                    assert(forall|k: Seq<u8>|
                        self.keys_view().contains(k) <==> (old(self).keys_view().contains(k) || k
                            == path.spec_bytes() || is_strict_dot_prefix(k, path.spec_bytes())));
                }
                Ok(())
            },
        }
    }

    /// Inserts the path's key and walks its parents, inserting each.
    fn insert_with_ancestors(&mut self, p: &AspectPath)
        requires
            old(self).wf(),
            p.wf(),
        ensures
            final(self).wf(),
            final(self).is_sealed() == old(self).is_sealed(),
            forall|k: Seq<u8>|
                #![trigger final(self).keys_view().contains(k)]
                final(self).keys_view().contains(k) <==> (old(self).keys_view().contains(k) || k
                    == p@ || is_strict_dot_prefix(k, p@)),
            final(self).keys_view().len() <= old(self).keys_view().len() + dot_count(p@) + 1,
    {
        let ghost old_kv = self.keys_view();
        let ghost pb = p@;
        self.insert_key(CanonicalKey::from_valid_str(p.as_str()), Ghost(pb));
        let mut cur: Option<AspectPath> = p.parent();
        proof {
            if cur is Some {
                lemma_parent_valid(pb);
                lemma_dot_count_parent(pb);
            }
            assert forall|k: Seq<u8>| #![trigger self.keys_view().contains(k)]
                self.keys_view().contains(k) <==> (
                old_kv.contains(k) || ((k == pb || is_strict_dot_prefix(k, pb)) && (
                cur matches Some(q) ==> k.len() > q@.len()))) by {
                if is_strict_dot_prefix(k, pb) && (cur matches Some(q) ==> k.len() > q@.len()) {
                    if cur matches Some(q) {
                        lemma_dot_prefix_step(k, pb);
                        if is_strict_dot_prefix(k, parent_bytes(pb)) {
                            assert(k.len() < parent_bytes(pb).len());
                        }
                        assert(k == parent_bytes(pb));
                        assert(false);
                    } else {
                        lemma_dot_prefix_step(k, pb);
                        assert(false);
                    }
                }
            }
        }
        while cur.is_some()
            invariant
                self.wf_sorted_valid(),
                self.is_sealed() == old(self).is_sealed(),
                cur matches Some(q) ==> q.wf() && is_strict_dot_prefix(q@, pb) && valid_key(pb),
                forall|k: Seq<u8>|
                    #![trigger self.keys_view().contains(k)]
                    self.keys_view().contains(k) <==> (old_kv.contains(k) || ((k == pb
                        || is_strict_dot_prefix(k, pb)) && (cur matches Some(q) ==> k.len()
                        > q@.len()))),
                self.keys_view().len() + (match cur {
                    Some(q) => dot_count(q@) + 1,
                    None => 0,
                }) <= old_kv.len() + dot_count(pb) + 1,
                keys_prefix_closed_except(self.keys_view(), old_kv, cur),
            decreases (match cur {
                Some(q) => q@.len() + 1,
                None => 0,
            }),
        {
            let q = cur.unwrap();
            let ghost pre_kv = self.keys_view();
            self.insert_key(CanonicalKey::from_valid_str(q.as_str()), Ghost(q@));
            let next = q.parent();
            proof {
                lemma_dot_count_parent(q@);
                if next is Some {
                    lemma_parent_valid(q@);
                    lemma_sdp_trans(parent_bytes(q@), q@, pb);
                }
                assert forall|k: Seq<u8>| #![trigger self.keys_view().contains(k)]
                    self.keys_view().contains(k) <==> (
                    old_kv.contains(k) || ((k == pb || is_strict_dot_prefix(k, pb)) && (
                    next matches Some(n2) ==> k.len() > n2@.len()))) by {
                    if self.keys_view().contains(k) {
                        if !pre_kv.contains(k) {
                            // the newly inserted key is the current chain element
                            assert(k == q@);
                            match next {
                                Some(n2) => {
                                    assert(n2@.len() < q@.len());
                                },
                                None => {},
                            }
                        }
                    } else {
                        assert(!pre_kv.contains(k) && k != q@);
                    }
                    if !self.keys_view().contains(k) && (k == pb || is_strict_dot_prefix(k, pb))
                        && (next matches Some(n2) ==> k.len() > n2@.len()) {
                        // anything at or above q's child was present before this step
                        if k == pb || k.len() > q@.len() {
                            assert(pre_kv.contains(k));
                            assert(self.keys_view().contains(k));
                            assert(false);
                        }
                        assert(k != q@);
                        assert(is_strict_dot_prefix(k, pb));
                        if k.len() == q@.len() {
                            lemma_sdp_same_len(k, q@, pb);
                            assert(false);
                        }
                        if k.len() < q@.len() {
                            lemma_sdp_nested(k, q@, pb);
                            lemma_dot_prefix_step(k, q@);
                            match next {
                                Some(n2) => {
                                    assert(k == parent_bytes(q@) || is_strict_dot_prefix(k,
                                        parent_bytes(q@)));
                                    if is_strict_dot_prefix(k, parent_bytes(q@)) {
                                        assert(k.len() < parent_bytes(q@).len());
                                    }
                                    assert(k == n2@);
                                    assert(self.keys_view().contains(k));
                                },
                                None => {
                                    assert(!has_dot(q@));
                                    assert(false);
                                },
                            }
                        }
                    }
                }
            }
            cur = next;
            proof {
                assert(forall|k: Seq<u8>|
                    #![trigger self.keys_view().contains(k)]
                    self.keys_view().contains(k) <==> (old_kv.contains(k) || ((k == pb
                        || is_strict_dot_prefix(k, pb)) && (cur matches Some(q2) ==> k.len()
                        > q2@.len()))));
            }
        }
        proof {
            assert forall|k: Seq<u8>|
                self.keys_view().contains(k) && has_dot(k) implies self.keys_view().contains(
                parent_bytes(k)) by {
                assert(keys_prefix_closed_except(self.keys_view(), old_kv, cur));
            }
        }
    }

    /// Sortedness and validity alone (ancestor closure is restored only at
    /// the end of a registration).
    pub open spec fn wf_sorted_valid(&self) -> bool {
        keys_sorted(self.keys_view()) && keys_valid(self.keys_view())
    }

    /// Ordered insert of one key; no-op when its bytes are present.
    fn insert_key(&mut self, k: CanonicalKey, kb: Ghost<Seq<u8>>)
        requires
            old(self).wf_sorted_valid(),
            k@ == kb@,
            valid_key(kb@),
        ensures
            final(self).wf_sorted_valid(),
            final(self).is_sealed() == old(self).is_sealed(),
            forall|x: Seq<u8>|
                final(self).keys_view().contains(x) <==> (old(self).keys_view().contains(x) || x
                    == kb@),
            final(self).keys_view().len() <= old(self).keys_view().len() + 1,
    {
        let n = self.keys.len();
        let mut pos: usize = 0;
        while pos < n && str_lex_lt(self.keys[pos].as_str(), k.as_str())
            invariant
                n == self.keys@.len(),
                pos <= n,
                k@ == kb@,
                forall|j: int| 0 <= j < pos ==> lex_lt(#[trigger] self.keys_view()[j], kb@),
            decreases n - pos,
        {
            pos += 1;
        }
        proof {
            assert(forall|j: int| 0 <= j < pos ==> lex_lt(#[trigger] self.keys_view()[j], kb@));
        }
        if pos < n && !str_lex_lt(k.as_str(), self.keys[pos].as_str()) {
            proof {
                lemma_lex_trichotomy(kb@, self.keys_view()[pos as int]);
                assert(self.keys_view()[pos as int] == kb@);
                assert(self.keys_view().contains(kb@));
            }
            return;
        }
        proof {
            let kv = self.keys_view();
            assert forall|j: int| pos <= j < n implies lex_lt(kb@, #[trigger] kv[j]) by {
                if j == pos {
                    lemma_lex_trichotomy(kb@, kv[pos as int]);
                    if kv[pos as int] == kb@ {
                        lemma_lex_irrefl(kb@);
                    }
                } else {
                    lemma_lex_trichotomy(kb@, kv[pos as int]);
                    if kv[pos as int] == kb@ {
                        lemma_lex_irrefl(kb@);
                    }
                    lemma_lex_trans(kb@, kv[pos as int], kv[j]);
                }
            }
            if kv.contains(kb@) {
                let j = choose|j: int| 0 <= j < kv.len() && kv[j] == kb@;
                lemma_lex_irrefl(kb@);
                assert(false);
            }
        }
        self.keys.insert(pos, k);
        proof {
            let s = self.keys_view();
            let o = old(self).keys_view();
            assert(s.len() == o.len() + 1);
            assert(forall|j: int| 0 <= j < pos ==> #[trigger] s[j] == o[j]);
            assert(forall|j: int| pos < j < s.len() ==> #[trigger] s[j] == o[j - 1]);
            assert(s[pos as int] == kb@);
            assert forall|i: int, j: int| 0 <= i < j < s.len() implies lex_lt(
                #[trigger] s[i], #[trigger] s[j]) by {
                if i != pos && j != pos {
                    let io: int = if i < pos { i } else { i - 1 };
                    let jo: int = if j < pos { j } else { j - 1 };
                    assert(s[i] == o[io] && s[j] == o[jo]);
                }
            }
            assert forall|x: Seq<u8>| s.contains(x) <==> (o.contains(x) || x == kb@) by {
                if s.contains(x) {
                    let j = choose|j: int| 0 <= j < s.len() && s[j] == x;
                    if j < pos {
                        assert(o[j] == x);
                    } else if j > pos {
                        assert(o[j - 1] == x);
                    }
                }
                if o.contains(x) {
                    let j = choose|j: int| 0 <= j < o.len() && o[j] == x;
                    if j < pos {
                        assert(s[j] == x);
                    } else {
                        assert(s[j + 1] == x);
                    }
                }
                if x == kb@ {
                    assert(s[pos as int] == x);
                }
            }
            assert forall|i: int| 0 <= i < s.len() implies valid_key(#[trigger] s[i]) by {
                if i < pos {
                    assert(s[i] == o[i]);
                } else if i > pos {
                    assert(s[i] == o[i - 1]);
                }
            }
        }
    }
}

/// Two distinct ancestors of one path never share a length.
proof fn lemma_sdp_same_len(x: Seq<u8>, y: Seq<u8>, s: Seq<u8>)
    requires
        is_strict_dot_prefix(x, s),
        is_strict_dot_prefix(y, s),
        x.len() == y.len(),
    ensures
        x == y,
{
    assert(x =~= s.take(x.len() as int));
    assert(y =~= s.take(y.len() as int));
}

/// The ASCII bar separating key and parent key in a registry-hash line.
pub const BAR: u8 = 124;

/// The ASCII newline ending each registry-hash line.
pub const NL: u8 = 10;

/// The content identifier a sealed registry assigns to a key.
pub open spec fn aspect_id_of(k: Seq<u8>) -> u128 {
    hash128_of(id_input("aspect".spec_bytes(), k))
}

/// The depth a sealed registry assigns to a key: its dot count, saturated
/// to the field width.
pub open spec fn depth_of(k: Seq<u8>) -> u16 {
    if dot_count(k) > 65535 {
        65535u16
    } else {
        dot_count(k) as u16
    }
}

/// One line of the registry-hash input: key, separator, parent key (empty
/// for a root), newline.
pub open spec fn hash_line(k: Seq<u8>) -> Seq<u8> {
    k + seq![BAR] + (if has_dot(k) {
        parent_bytes(k)
    } else {
        Seq::<u8>::empty()
    }) + seq![NL]
}

/// The registry-hash input: the lines of all keys in handle order.
pub open spec fn hash_acc(ks: Seq<Seq<u8>>) -> Seq<u8>
    decreases ks.len(),
{
    if ks.len() == 0 {
        Seq::<u8>::empty()
    } else {
        hash_acc(ks.drop_last()) + hash_line(ks.last())
    }
}

/// One node of the sealed taxonomy tree.
pub struct AspectNode {
    pub rid: AspectRid,
    pub id: AspectId,
    pub key: CanonicalKey,
    pub parent: Option<AspectRid>,
    pub children: Vec<AspectRid>,
    pub depth: u16,
}

/// The immutable sealed taxonomy: a dense arena of nodes indexed by handle,
/// in ascending canonical-key order.
pub struct AspectRegistry {
    nodes: Vec<AspectNode>,
    /// 128-bit digest over the ordered (key, parent-key) pairs; equal hashes
    /// certify identical taxonomy structure and enumeration order.
    pub registry_hash: Hash128,
}

/// One parent entry is consistent with the keys: present exactly for dotted
/// keys and pointing at the node holding the parent key.
pub open spec fn parent_entry_ok(ks: Seq<Seq<u8>>, ps: Seq<Option<AspectRid>>, i: int) -> bool {
    &&& (ps[i] is Some <==> has_dot(ks[i]))
    &&& (ps[i] matches Some(p) ==> p.0 < i && ks[p.0 as int] == parent_bytes(ks[i]))
}

impl AspectRegistry {
    /// The node arena in handle order.
    pub closed spec fn nodes_seq(&self) -> Seq<AspectNode> {
        self.nodes@
    }

    /// The registry hash as a number.
    pub closed spec fn hash_spec(&self) -> u128 {
        self.registry_hash.0
    }

    /// The byte views of the node keys, in handle order.
    pub open spec fn keys_view(&self) -> Seq<Seq<u8>> {
        self.nodes_seq().map_values(|n: AspectNode| n.key@)
    }

    /// Everything a sealed registry promises: nodes sit at their own handle,
    /// keys are sorted, valid and ancestor-closed, parent links point at the
    /// dot-prefix truncation, children lists are the exact sorted inverses
    /// of the parent links, depths count dots, identifiers and the registry
    /// hash are the fixed functions of the keys.
    pub open spec fn wf(&self) -> bool {
        let ks = self.keys_view();
        let ns = self.nodes_seq();
        &&& ns.len() <= u32::MAX
        &&& keys_sorted(ks)
        &&& keys_valid(ks)
        &&& keys_prefix_closed(ks)
        &&& forall|i: int| 0 <= i < ns.len() ==> (#[trigger] ns[i]).rid.0 == i
        &&& forall|i: int| 0 <= i < ns.len() ==> (#[trigger] ns[i]).id.0.0 == aspect_id_of(ks[i])
        &&& forall|i: int| 0 <= i < ns.len() ==> (#[trigger] ns[i]).depth == depth_of(ks[i])
        &&& forall|i: int|
            0 <= i < ns.len() ==> ((#[trigger] ns[i]).parent is Some <==> has_dot(ks[i]))
        &&& forall|i: int|
            0 <= i < ns.len() ==> ((#[trigger] ns[i]).parent matches Some(p) ==> p.0 < i && ks[
                p.0 as int] == parent_bytes(ks[i]))
        &&& forall|i: int| 0 <= i < ns.len() ==> rids_sorted((#[trigger] ns[i]).children@)
        &&& forall|i: int, j: int|
            0 <= i < ns.len() && 0 <= j < ns[i].children@.len() ==> ((
            #[trigger] ns[i].children@[j]).0 < ns.len() && ns[ns[i].children@[j].0 as int].parent
                == Some(AspectRid(i as u32)))
        &&& forall|c: int|
            0 <= c < ns.len() ==> ((#[trigger] ns[c]).parent matches Some(p) ==> ns[
                p.0 as int].children@.contains(AspectRid(c as u32)))
        &&& self.hash_spec() == hash128_of(hash_acc(ks))
    }
}

impl AspectRegistryBuilder {
    /// Seals the builder: assigns handles in ascending key order, links
    /// parents and children, computes depths, content identifiers and the
    /// registry hash. Always succeeds on a well-formed builder; the
    /// `UnknownAspect` branch is defensive and unreachable because ancestors
    /// are auto-inserted.
    pub fn seal(self) -> (r: AspectResult<AspectRegistry>)
        requires
            self.wf(),
            self.keys_view().len() <= u32::MAX,
        ensures
            r matches Ok(reg) && reg.wf() && reg.keys_view() == self.keys_view(),
    {
        let AspectRegistryBuilder { keys, sealed: _ } = self;
        let ghost kv = keys@.map_values(|k: CanonicalKey| k@);
        proof {
            assert(kv == self.keys_view());
        }
        let n = keys.len();

        // parent links by dot-prefix truncation
        let mut parents: Vec<Option<AspectRid>> = Vec::new();
        let mut idx: usize = 0;
        while idx < n
            invariant
                n == keys@.len(),
                n <= u32::MAX,
                kv == keys@.map_values(|k: CanonicalKey| k@),
                keys_sorted(kv) && keys_valid(kv) && keys_prefix_closed(kv),
                idx <= n,
                parents@.len() == idx,
                forall|i: int| 0 <= i < idx ==> parent_entry_ok(kv, parents@, i),
            decreases n - idx,
        {
            let ks = keys[idx].as_str();
            let ghost pre_parents = parents@;
            proof {
                assert(kv[idx as int] == keys@[idx as int]@);
                assert(ks.spec_bytes() == kv[idx as int]);
            }
            match crate::path::find_last_dot(ks) {
                None => {
                    parents.push(None);
                },
                Some(ld) => {
                    proof {
                        lemma_last_dot(kv[idx as int]);
                        lemma_parent_valid(kv[idx as int]);
                    }
                    let mut j: usize = 0;
                    let mut found: Option<usize> = None;
                    while j < idx && found.is_none()
                        invariant
                            n == keys@.len(),
                            kv == keys@.map_values(|k: CanonicalKey| k@),
                            idx < n,
                            j <= idx,
                            ld == last_dot_index(kv[idx as int]),
                            0 <= ld < kv[idx as int].len(),
                            ks.spec_bytes() == kv[idx as int],
                            found matches Some(f) ==> f < idx && kv[f as int] == parent_bytes(
                                kv[idx as int]),
                            found is None ==> forall|j2: int|
                                0 <= j2 < j ==> #[trigger] kv[j2] != parent_bytes(kv[idx as int]),
                        decreases idx - j + (if found is None { 1int } else { 0int }),
                    {
                        proof {
                            assert(kv[j as int] == keys@[j as int]@);
                        }
                        if bytes_eq_prefix(keys[j].as_str().as_bytes(), ks.as_bytes(), ld) {
                            found = Some(j);
                        } else {
                            j += 1;
                        }
                    }
                    match found {
                        Some(f) => {
                            parents.push(Some(AspectRid(f as u32)));
                        },
                        None => {
                            proof {
                                // ancestors are auto-inserted, so the parent is present
                                let pb = parent_bytes(kv[idx as int]);
                                assert(kv.contains(pb));
                                let pj = choose|pj: int| 0 <= pj < kv.len() && kv[pj] == pb;
                                lemma_lex_prefix(pb, kv[idx as int]);
                                if pj > idx {
                                    lemma_lex_trans(kv[idx as int], kv[pj], kv[idx as int]);
                                    lemma_lex_irrefl(kv[idx as int]);
                                }
                                if pj == idx {
                                    lemma_lex_irrefl(kv[idx as int]);
                                }
                                assert(pj < idx);
                                assert(false);
                            }
                            return Err(AspectError::UnknownAspect(ks.to_owned()));
                        },
                    }
                },
            }
            proof {
                assert(parents@.drop_last() =~= pre_parents);
                assert forall|i: int| 0 <= i < idx + 1 implies parent_entry_ok(kv, parents@,
                    i) by {
                    if i < idx {
                        assert(parents@[i] == pre_parents[i]);
                        assert(parent_entry_ok(kv, pre_parents, i));
                    }
                }
            }
            idx += 1;
        }

        // children: the sorted inverse of the parent links
        let mut children: Vec<Vec<AspectRid>> = Vec::new();
        while children.len() < n
            invariant
                children@.len() <= n,
                forall|q: int| 0 <= q < children@.len() ==> (#[trigger] children@[q])@.len() == 0,
            decreases n - children@.len(),
        {
            children.push(Vec::new());
        }
        let mut idx: usize = 0;
        while idx < n
            invariant
                n == keys@.len(),
                n <= u32::MAX,
                idx <= n,
                parents@.len() == n,
                children@.len() == n,
                forall|i: int| 0 <= i < n ==> parent_entry_ok(kv, parents@, i),
                forall|q: int| 0 <= q < n ==> rids_sorted((#[trigger] children@[q])@),
                forall|q: int, t: int|
                    0 <= q < n && 0 <= t < children@[q]@.len() ==> (#[trigger] children@[q]@[
                        t]).0 < idx,
                forall|q: int, c: AspectRid|
                    0 <= q < n ==> ((#[trigger] children@[q]@.contains(c)) <==> (c.0 < idx
                        && parents@[c.0 as int] == Some(AspectRid(q as u32)))),
            decreases n - idx,
        {
            match parents[idx] {
                Some(p) => {
                    proof {
                        assert(parent_entry_ok(kv, parents@, idx as int));
                    }
                    let pi = p.0 as usize;
                    let ghost pre = children@;
                    let rid = AspectRid(idx as u32);
                    children[pi].push(rid);
                    proof {
                        assert(children@[pi as int]@ =~= pre[pi as int]@.push(rid));
                        assert(forall|q: int|
                            0 <= q < n && q != pi ==> children@[q] == pre[q]);
                        let newrow = children@[pi as int]@;
                        assert(newrow.drop_last() =~= pre[pi as int]@);
                        assert forall|q: int, c: AspectRid|
                            0 <= q < n implies ((#[trigger] children@[q]@.contains(c)) <==> (c.0
                                < idx + 1 && parents@[c.0 as int] == Some(AspectRid(
                            q as u32)))) by {
                            if q != pi {
                                if children@[q]@.contains(c) {
                                    assert(c.0 < idx);
                                }
                                if c.0 < idx + 1 && parents@[c.0 as int] == Some(AspectRid(
                                    q as u32)) {
                                    if c.0 == idx {
                                        assert(parents@[idx as int] == Some(p));
                                        assert(p.0 == q);
                                        assert(false);
                                    }
                                }
                            } else {
                                if children@[q]@.contains(c) {
                                    let t = choose|t: int|
                                        0 <= t < newrow.len() && newrow[t] == c;
                                    if t < newrow.len() - 1 {
                                        assert(pre[pi as int]@[t] == c);
                                        assert(pre[pi as int]@.contains(c));
                                    } else {
                                        assert(c == rid);
                                    }
                                }
                                if c.0 < idx + 1 && parents@[c.0 as int] == Some(AspectRid(
                                    q as u32)) && c.0 < idx {
                                    assert(pre[pi as int]@.contains(c));
                                    let t = choose|t: int|
                                        0 <= t < pre[pi as int]@.len() && pre[pi as int]@[t] == c;
                                    assert(newrow[t] == c);
                                }
                                if c == rid {
                                    assert(newrow.last() == c);
                                }
                            }
                        }
                        assert forall|q: int|
                            0 <= q < n implies rids_sorted((#[trigger] children@[q])@) by {
                            if q == pi {
                                assert forall|a: int, b: int|
                                    0 <= a < b < newrow.len() implies (#[trigger] newrow[a]).0 < (
                                    #[trigger] newrow[b]).0 by {
                                    if b < newrow.len() - 1 {
                                        assert(pre[pi as int]@[a] == newrow[a]);
                                        assert(pre[pi as int]@[b] == newrow[b]);
                                    } else {
                                        assert(newrow[b] == rid);
                                        assert(pre[pi as int]@[a] == newrow[a]);
                                        assert(newrow[a].0 < idx);
                                    }
                                }
                            }
                        }
                    }
                },
                None => {
                    proof {
                        assert forall|q: int, c: AspectRid|
                            0 <= q < n implies ((#[trigger] children@[q]@.contains(c)) <==> (c.0
                                < idx + 1 && parents@[c.0 as int] == Some(AspectRid(
                            q as u32)))) by {
                            if c.0 == idx {
                                assert(parents@[idx as int] is None);
                            }
                        }
                    }
                },
            }
            idx += 1;
        }

        // depths: dot counts, saturated
        let mut depths: Vec<u16> = Vec::new();
        let mut idx: usize = 0;
        while idx < n
            invariant
                n == keys@.len(),
                kv == keys@.map_values(|k: CanonicalKey| k@),
                idx <= n,
                depths@.len() == idx,
                forall|i: int| 0 <= i < idx ==> #[trigger] depths@[i] == depth_of(kv[i]),
            decreases n - idx,
        {
            proof {
                assert(kv[idx as int] == keys@[idx as int]@);
            }
            let d = count_dots(keys[idx].as_str().as_bytes());
            if d > 65535 {
                depths.push(65535u16);
            } else {
                depths.push(d as u16);
            }
            idx += 1;
        }

        // content identifiers
        let mut ids: Vec<AspectId> = Vec::new();
        let mut idx: usize = 0;
        while idx < n
            invariant
                n == keys@.len(),
                kv == keys@.map_values(|k: CanonicalKey| k@),
                idx <= n,
                ids@.len() == idx,
                forall|i: int| 0 <= i < idx ==> (#[trigger] ids@[i]).0.0 == aspect_id_of(kv[i]),
            decreases n - idx,
        {
            proof {
                assert(kv[idx as int] == keys@[idx as int]@);
            }
            ids.push(AspectId::new(keys[idx].as_str()));
            idx += 1;
        }

        // registry hash over the ordered (key, parent-key) pairs
        let mut acc: Vec<u8> = Vec::new();
        let mut idx: usize = 0;
        while idx < n
            invariant
                n == keys@.len(),
                kv == keys@.map_values(|k: CanonicalKey| k@),
                keys_valid(kv),
                idx <= n,
                parents@.len() == n,
                forall|i: int| 0 <= i < n ==> parent_entry_ok(kv, parents@, i),
                acc@ == hash_acc(kv.take(idx as int)),
            decreases n - idx,
        {
            proof {
                assert(kv[idx as int] == keys@[idx as int]@);
            }
            proof {
                assert(parent_entry_ok(kv, parents@, idx as int));
            }
            append_slice_bytes(&mut acc, keys[idx].as_str().as_bytes());
            acc.push(BAR);
            match parents[idx] {
                Some(p) => {
                    proof {
                        assert(parent_entry_ok(kv, parents@, idx as int));
                        assert(kv[p.0 as int] == keys@[p.0 as int]@);
                    }
                    append_slice_bytes(&mut acc, keys[p.0 as usize].as_str().as_bytes());
                },
                None => {},
            }
            acc.push(NL);
            proof {
                let t1 = kv.take(idx + 1);
                assert(t1.drop_last() =~= kv.take(idx as int));
                assert(t1.last() == kv[idx as int]);
                assert(acc@ =~= hash_acc(kv.take(idx as int)) + hash_line(kv[idx as int]));
            }
            idx += 1;
        }
        proof {
            assert(kv.take(n as int) =~= kv);
        }
        let registry_hash = hash128(acc.as_slice());

        // assemble the arena
        let mut rest_keys = keys;
        let mut rest_children = children;
        let ghost ch_full = rest_children@;
        let mut nodes: Vec<AspectNode> = Vec::new();
        let mut idx: usize = 0;
        while idx < n
            invariant
                n == kv.len(),
                n <= u32::MAX,
                idx <= n,
                rest_keys@.len() == n - idx,
                rest_children@.len() == n - idx,
                forall|i: int| 0 <= i < n - idx ==> #[trigger] rest_keys@[i]@ == kv[idx + i],
                forall|i: int|
                    0 <= i < n - idx ==> #[trigger] rest_children@[i] == ch_full[idx + i],
                parents@.len() == n,
                depths@.len() == n,
                ids@.len() == n,
                ch_full.len() == n,
                nodes@.len() == idx,
                forall|i: int|
                    0 <= i < idx ==> {
                        let nd = #[trigger] nodes@[i];
                        nd.rid.0 == i && nd.key@ == kv[i] && nd.parent == parents@[i]
                            && nd.children == ch_full[i] && nd.depth == depths@[i] && nd.id
                            == ids@[i]
                    },
            decreases n - idx,
        {
            let key = rest_keys.remove(0);
            let ch = rest_children.remove(0);
            let node = AspectNode {
                rid: AspectRid(idx as u32),
                id: ids[idx],
                key,
                parent: parents[idx],
                children: ch,
                depth: depths[idx],
            };
            nodes.push(node);
            idx += 1;
        }

        let reg = AspectRegistry { nodes, registry_hash };
        proof {
            assert(reg.keys_view() =~= kv);
            let ns = reg.nodes_seq();
            let ks = reg.keys_view();
            assert forall|i: int| 0 <= i < ns.len() implies ((#[trigger] ns[i]).parent is Some
                <==> has_dot(ks[i])) by {
                assert(parent_entry_ok(kv, parents@, i));
            }
            assert forall|i: int| 0 <= i < ns.len() implies ((#[trigger] ns[i]).parent matches
                Some(p) ==> p.0 < i && ks[p.0 as int] == parent_bytes(ks[i])) by {
                assert(parent_entry_ok(kv, parents@, i));
            }
            assert forall|i: int, j: int|
                0 <= i < ns.len() && 0 <= j < ns[i].children@.len() implies ((
            #[trigger] ns[i].children@[j]).0 < ns.len() && ns[ns[i].children@[j].0 as int].parent
                    == Some(AspectRid(i as u32))) by {
                assert(ns[i].children == ch_full[i]);
                let c = ns[i].children@[j];
                assert(ch_full[i]@.contains(c));
                assert(parent_entry_ok(kv, parents@, c.0 as int));
            }
            assert forall|c: int| 0 <= c < ns.len() implies ((#[trigger] ns[c]).parent matches
                Some(p) ==> ns[p.0 as int].children@.contains(AspectRid(c as u32))) by {
                match ns[c].parent {
                    Some(p) => {
                        assert(parents@[c] == Some(p));
                        assert(parent_entry_ok(kv, parents@, c));
                        assert(ch_full[p.0 as int]@.contains(AspectRid(c as u32)));
                        assert(ns[p.0 as int].children == ch_full[p.0 as int]);
                    },
                    None => {},
                }
            }
        }
        Ok(reg)
    }
}

/// The ancestor keys of a path, nearest first: parent, grandparent, and so
/// on up to the root segment.
pub open spec fn anc_keys(k: Seq<u8>) -> Seq<Seq<u8>>
    decreases k.len(),
{
    if !has_dot(k) {
        Seq::<Seq<u8>>::empty()
    } else if parent_bytes(k).len() < k.len() {
        seq![parent_bytes(k)] + anc_keys(parent_bytes(k))
    } else {
        Seq::<Seq<u8>>::empty()
    }
}

/// The ancestor keys of a valid path are exactly its strict dot-prefixes.
pub proof fn lemma_anc_keys_are_prefixes(k: Seq<u8>)
    requires
        valid_key(k),
    ensures
        forall|p: Seq<u8>| anc_keys(k).contains(p) <==> is_strict_dot_prefix(p, k),
    decreases k.len(),
{
    lemma_last_dot(k);
    if has_dot(k) {
        lemma_parent_valid(k);
        let pb = parent_bytes(k);
        lemma_anc_keys_are_prefixes(pb);
        assert(anc_keys(k) == seq![pb] + anc_keys(pb));
        assert forall|p: Seq<u8>| anc_keys(k).contains(p) <==> is_strict_dot_prefix(p, k) by {
            lemma_dot_prefix_step(p, k);
            if anc_keys(k).contains(p) {
                let j = choose|j: int| 0 <= j < anc_keys(k).len() && anc_keys(k)[j] == p;
                if j > 0 {
                    assert(anc_keys(pb)[j - 1] == p);
                    assert(anc_keys(pb).contains(p));
                }
            }
            if is_strict_dot_prefix(p, k) {
                if p == pb {
                    assert(anc_keys(k)[0] == p);
                } else {
                    assert(anc_keys(pb).contains(p));
                    let j = choose|j: int| 0 <= j < anc_keys(pb).len() && anc_keys(pb)[j] == p;
                    assert(anc_keys(k)[j + 1] == p);
                }
            }
        }
    } else {
        assert forall|p: Seq<u8>| anc_keys(k).contains(p) <==> is_strict_dot_prefix(p, k) by {
            lemma_dot_prefix_step(p, k);
            if anc_keys(k).contains(p) {
                let j = choose|j: int| 0 <= j < anc_keys(k).len() && anc_keys(k)[j] == p;
            }
        }
    }
}

/// Sorted keys are pairwise distinct.
pub proof fn lemma_keys_injective(ks: Seq<Seq<u8>>, i: int, j: int)
    requires
        keys_sorted(ks),
        0 <= i < ks.len(),
        0 <= j < ks.len(),
        ks[i] == ks[j],
    ensures
        i == j,
{
    if i < j {
        lemma_lex_irrefl(ks[i]);
    }
    if j < i {
        lemma_lex_irrefl(ks[i]);
    }
}

impl AspectRegistry {
    /// Number of registered aspects.
    pub fn len(&self) -> (r: usize)
        ensures
            r == self.nodes_seq().len(),
    {
        self.nodes.len()
    }

    /// Whether the taxonomy is empty.
    pub fn is_empty(&self) -> (r: bool)
        ensures
            r == (self.nodes_seq().len() == 0),
    {
        self.nodes.len() == 0
    }

    /// Handle of the node whose key matches the path, if registered.
    pub fn resolve_path(&self, path: &str) -> (r: Option<AspectRid>)
        requires
            self.wf(),
        ensures
            r matches Some(rid) ==> rid.0 < self.nodes_seq().len() && self.keys_view()[
                rid.0 as int] == path.spec_bytes(),
            r is None ==> forall|i: int|
                0 <= i < self.nodes_seq().len() ==> #[trigger] self.keys_view()[i]
                    != path.spec_bytes(),
    {
        let n = self.nodes.len();
        let mut i: usize = 0;
        while i < n
            invariant
                self.wf(),
                n == self.nodes_seq().len(),
                i <= n,
                forall|j: int| 0 <= j < i ==> #[trigger] self.keys_view()[j] != path.spec_bytes(),
            decreases n - i,
        {
            proof {
                assert(self.keys_view()[i as int] == self.nodes_seq()[i as int].key@);
            }
            let kb = self.nodes[i].key.as_str().as_bytes();
            let pb = path.as_bytes();
            if bytes_eq_prefix(kb, pb, pb.len()) {
                proof {
                    assert(path.spec_bytes().take(path.spec_bytes().len() as int)
                        =~= path.spec_bytes());
                }
                return Some(AspectRid(i as u32));
            }
            proof {
                assert(path.spec_bytes().take(path.spec_bytes().len() as int)
                    =~= path.spec_bytes());
            }
            i += 1;
        }
        None
    }

    /// Handle of the first node carrying the given content identifier.
    pub fn resolve_id(&self, id: &AspectId) -> (r: Option<AspectRid>)
        requires
            self.wf(),
        ensures
            r matches Some(rid) ==> rid.0 < self.nodes_seq().len() && self.nodes_seq()[
                rid.0 as int].id == *id && (forall|j: int|
                0 <= j < rid.0 ==> (#[trigger] self.nodes_seq()[j]).id != *id),
            r is None ==> forall|i: int|
                0 <= i < self.nodes_seq().len() ==> (#[trigger] self.nodes_seq()[i]).id != *id,
    {
        let n = self.nodes.len();
        let mut i: usize = 0;
        while i < n
            invariant
                self.wf(),
                n == self.nodes_seq().len(),
                i <= n,
                forall|j: int| 0 <= j < i ==> (#[trigger] self.nodes_seq()[j]).id != *id,
            decreases n - i,
        {
            if self.nodes[i].id.0.0 == id.0.0 {
                return Some(AspectRid(i as u32));
            }
            i += 1;
        }
        None
    }

    /// The node owning the handle.
    pub fn node(&self, rid: AspectRid) -> (r: &AspectNode)
        requires
            rid.0 < self.nodes_seq().len(),
        ensures
            *r == self.nodes_seq()[rid.0 as int],
    {
        &self.nodes[rid.0 as usize]
    }

    /// The canonical key of the handle.
    pub fn key(&self, rid: AspectRid) -> (r: &CanonicalKey)
        requires
            rid.0 < self.nodes_seq().len(),
        ensures
            r@ == self.keys_view()[rid.0 as int],
    {
        proof {
            assert(self.keys_view()[rid.0 as int] == self.nodes_seq()[rid.0 as int].key@);
        }
        &self.nodes[rid.0 as usize].key
    }

    /// The content identifier of the handle.
    pub fn id(&self, rid: AspectRid) -> (r: AspectId)
        requires
            rid.0 < self.nodes_seq().len(),
        ensures
            r == self.nodes_seq()[rid.0 as int].id,
    {
        self.nodes[rid.0 as usize].id
    }

    /// The parent handle, `None` for a root.
    pub fn parent(&self, rid: AspectRid) -> (r: Option<AspectRid>)
        requires
            rid.0 < self.nodes_seq().len(),
        ensures
            r == self.nodes_seq()[rid.0 as int].parent,
    {
        self.nodes[rid.0 as usize].parent
    }

    /// The child handles, in ascending order.
    pub fn children(&self, rid: AspectRid) -> (r: &[AspectRid])
        requires
            rid.0 < self.nodes_seq().len(),
        ensures
            r@ == self.nodes_seq()[rid.0 as int].children@,
    {
        self.nodes[rid.0 as usize].children.as_slice()
    }

    /// Depth of the node: its distance from its root segment.
    pub fn depth(&self, rid: AspectRid) -> (r: u16)
        requires
            rid.0 < self.nodes_seq().len(),
        ensures
            r == self.nodes_seq()[rid.0 as int].depth,
    {
        self.nodes[rid.0 as usize].depth
    }

    /// Whether `rid` lies strictly below `ancestor` in the taxonomy: true
    /// exactly when the ancestor's key is a strict dot-prefix of the
    /// descendant's key.
    pub fn is_descendant_of(&self, rid: AspectRid, ancestor: AspectRid) -> (r: bool)
        requires
            self.wf(),
            rid.0 < self.nodes_seq().len(),
            ancestor.0 < self.nodes_seq().len(),
        ensures
            r == is_strict_dot_prefix(
                self.keys_view()[ancestor.0 as int],
                self.keys_view()[rid.0 as int],
            ),
    {
        let ghost ks = self.keys_view();
        let mut cur = rid;
        loop
            invariant
                self.wf(),
                ks == self.keys_view(),
                rid.0 < ks.len(),
                ancestor.0 < ks.len(),
                cur.0 < ks.len(),
                is_strict_dot_prefix(ks[ancestor.0 as int], ks[rid.0 as int])
                    <==> is_strict_dot_prefix(ks[ancestor.0 as int], ks[cur.0 as int]),
            decreases cur.0,
        {
            match self.nodes[cur.0 as usize].parent {
                None => {
                    proof {
                        lemma_dot_prefix_step(ks[ancestor.0 as int], ks[cur.0 as int]);
                    }
                    return false;
                },
                Some(p) => {
                    if p.0 == ancestor.0 {
                        proof {
                            lemma_parent_valid(ks[cur.0 as int]);
                            assert(ks[p.0 as int] == parent_bytes(ks[cur.0 as int]));
                        }
                        return true;
                    }
                    proof {
                        lemma_dot_prefix_step(ks[ancestor.0 as int], ks[cur.0 as int]);
                        if ks[ancestor.0 as int] == ks[p.0 as int] {
                            lemma_keys_injective(ks, ancestor.0 as int, p.0 as int);
                            assert(false);
                        }
                    }
                    cur = p;
                },
            }
        }
    }

    /// Clears `out` and fills it with the ancestors of `rid`, nearest
    /// first.
    pub fn ancestors(&self, rid: AspectRid, out: &mut Vec<AspectRid>)
        requires
            self.wf(),
            rid.0 < self.nodes_seq().len(),
        ensures
            final(out)@.map_values(|a: AspectRid| self.keys_view()[a.0 as int]) == anc_keys(
                self.keys_view()[rid.0 as int]),
            forall|j: int|
                0 <= j < final(out)@.len() ==> (#[trigger] final(out)@[j]).0
                    < self.nodes_seq().len(),
    {
        let ghost ks = self.keys_view();
        out.clear();
        let mut cur = rid;
        proof {
            assert(out@.map_values(|a: AspectRid| ks[a.0 as int])
                =~= Seq::<Seq<u8>>::empty());
        }
        loop
            invariant
                self.wf(),
                ks == self.keys_view(),
                rid.0 < ks.len(),
                cur.0 < ks.len(),
                forall|j: int| 0 <= j < out@.len() ==> (#[trigger] out@[j]).0 < ks.len(),
                anc_keys(ks[rid.0 as int]) == out@.map_values(|a: AspectRid| ks[a.0 as int])
                    + anc_keys(ks[cur.0 as int]),
            decreases cur.0,
        {
            let ghost pre = out@;
            match self.nodes[cur.0 as usize].parent {
                None => {
                    proof {
                        assert(anc_keys(ks[cur.0 as int]) =~= Seq::<Seq<u8>>::empty());
                        assert(anc_keys(ks[rid.0 as int]) =~= out@.map_values(
                            |a: AspectRid| ks[a.0 as int]));
                    }
                    return;
                },
                Some(p) => {
                    proof {
                        lemma_parent_valid(ks[cur.0 as int]);
                        assert(ks[p.0 as int] == parent_bytes(ks[cur.0 as int]));
                    }
                    out.push(p);
                    proof {
                        let f = |a: AspectRid| ks[a.0 as int];
                        assert(out@.map_values(f) =~= pre.map_values(f) + seq![ks[p.0 as int]]);
                        assert(anc_keys(ks[cur.0 as int]) == seq![parent_bytes(ks[cur.0 as int])]
                            + anc_keys(parent_bytes(ks[cur.0 as int])));
                        assert(anc_keys(ks[rid.0 as int]) =~= out@.map_values(f) + anc_keys(
                            ks[p.0 as int]));
                    }
                    cur = p;
                },
            }
        }
    }
}

/// Membership in the ancestor closure of a handle set: the handle is one of
/// the base handles, or its key is a strict dot-prefix of a base handle's
/// key.
pub open spec fn in_closure(ks: Seq<Seq<u8>>, base: Seq<AspectRid>, a: AspectRid) -> bool {
    base.contains(a) || (a.0 < ks.len() && exists|i: int|
        0 <= i < base.len() && (#[trigger] base[i]).0 < ks.len() && is_strict_dot_prefix(
            ks[a.0 as int],
            ks[base[i].0 as int],
        ))
}

impl AspectRegistry {
    /// Every member's parent handle is also a member.
    pub open spec fn anc_closed(&self, s: Seq<AspectRid>) -> bool {
        forall|a: AspectRid|
            #[trigger] s.contains(a) ==> a.0 < self.nodes_seq().len() && (self.nodes_seq()[
                a.0 as int].parent matches Some(p) ==> s.contains(p))
    }

    /// An ancestor-closed set containing a handle contains every strict
    /// ancestor of that handle.
    proof fn lemma_closed_has_ancestors(&self, s: Seq<AspectRid>, a: AspectRid, x: Seq<u8>)
        requires
            self.wf(),
            self.anc_closed(s),
            s.contains(a),
            is_strict_dot_prefix(x, self.keys_view()[a.0 as int]),
        ensures
            exists|b: AspectRid|
                #[trigger] s.contains(b) && b.0 < self.nodes_seq().len()
                    && self.keys_view()[b.0 as int] == x,
        decreases self.keys_view()[a.0 as int].len(),
    {
        let ks = self.keys_view();
        let ka = ks[a.0 as int];
        assert(has_dot(ka));
        lemma_parent_valid(ka);
        let p = self.nodes_seq()[a.0 as int].parent->Some_0;
        assert(s.contains(p));
        assert(ks[p.0 as int] == parent_bytes(ka));
        lemma_dot_prefix_step(x, ka);
        if x == parent_bytes(ka) {
            assert(s.contains(p) && p.0 < self.nodes_seq().len() && ks[p.0 as int] == x);
        } else {
            assert(is_strict_dot_prefix(x, ks[p.0 as int]));
            self.lemma_closed_has_ancestors(s, p, x);
        }
    }

    /// The given handles together with every transitive ancestor, as a
    /// sorted set. Walking each handle's parent chain short-circuits at the
    /// first ancestor already present, which by the closure invariant has
    /// all of its own ancestors present already.
    pub fn close_under_ancestors(&self, base: &[AspectRid]) -> (r: AspectSet)
        requires
            self.wf(),
            forall|i: int| 0 <= i < base@.len() ==> (#[trigger] base@[i]).0
                < self.nodes_seq().len(),
        ensures
            r.wf(),
            self.anc_closed(r@),
            forall|a: AspectRid|
                #[trigger] r@.contains(a) <==> in_closure(self.keys_view(), base@, a),
            forall|a: AspectRid| #[trigger] r@.contains(a) ==> a.0 < self.nodes_seq().len(),
    {
        let ghost ks = self.keys_view();
        let n = base.len();
        let mut result = AspectSet::new();
        let mut i: usize = 0;
        while i < n
            invariant
                self.wf(),
                ks == self.keys_view(),
                n == base@.len(),
                forall|t: int| 0 <= t < n ==> (#[trigger] base@[t]).0 < self.nodes_seq().len(),
                i <= n,
                result.wf(),
                self.anc_closed(result@),
                forall|a: AspectRid|
                    #[trigger] result@.contains(a) <==> in_closure(ks, base@.take(i as int), a),
            decreases n - i,
        {
            let rid = base[i];
            let ghost pre_outer = result@;
            result.insert(rid);
            let mut cur = rid;
            proof {
                assert forall|a: AspectRid| #[trigger] result@.contains(a) <==> (
                    pre_outer.contains(a) || a == rid || (a.0 < ks.len() && is_strict_dot_prefix(
                        ks[a.0 as int],
                        ks[rid.0 as int],
                    ) && ks[a.0 as int].len() >= ks[cur.0 as int].len())) by {
                    if a.0 < ks.len() && is_strict_dot_prefix(ks[a.0 as int], ks[rid.0 as int])
                        && ks[a.0 as int].len() >= ks[cur.0 as int].len() {
                        assert(false);
                    }
                }
            }
            loop
                invariant
                    self.wf(),
                    ks == self.keys_view(),
                    rid.0 < ks.len(),
                    cur.0 < ks.len(),
                    result.wf(),
                    result@.contains(cur),
                    ks[cur.0 as int] == ks[rid.0 as int] || is_strict_dot_prefix(
                        ks[cur.0 as int],
                        ks[rid.0 as int],
                    ),
                    forall|a: AspectRid|
                        #[trigger] result@.contains(a) ==> a.0 < ks.len() && (self.nodes_seq()[
                            a.0 as int].parent matches Some(p) ==> (result@.contains(p) || a
                            == cur)),
                    forall|a: AspectRid|
                        #[trigger] result@.contains(a) <==> (pre_outer.contains(a) || a == rid || (
                        a.0 < ks.len() && is_strict_dot_prefix(ks[a.0 as int], ks[rid.0 as int])
                            && ks[a.0 as int].len() >= ks[cur.0 as int].len())),
                    self.anc_closed(pre_outer),
                ensures
                    result.wf(),
                    self.anc_closed(result@),
                    forall|a: AspectRid|
                        #[trigger] result@.contains(a) <==> (pre_outer.contains(a) || a == rid || (
                        a.0 < ks.len() && is_strict_dot_prefix(
                            ks[a.0 as int],
                            ks[rid.0 as int],
                        ))),
                decreases ks[cur.0 as int].len(),
            {
                let ghost pre = result@;
                match self.nodes[cur.0 as usize].parent {
                    None => {
                        proof {
                            assert forall|a: AspectRid| #[trigger] result@.contains(a) <==> (
                                pre_outer.contains(a) || a == rid || (a.0 < ks.len()
                                    && is_strict_dot_prefix(ks[a.0 as int], ks[rid.0 as int])))
                                by {
                                if a.0 < ks.len() && is_strict_dot_prefix(
                                    ks[a.0 as int],
                                    ks[rid.0 as int],
                                ) && !(ks[a.0 as int].len() >= ks[cur.0 as int].len()) {
                                    // a shorter ancestor would be an ancestor of the root
                                    if ks[cur.0 as int] == ks[rid.0 as int] {
                                        assert(has_dot(ks[cur.0 as int]));
                                        assert(false);
                                    } else {
                                        lemma_sdp_nested(
                                            ks[a.0 as int],
                                            ks[cur.0 as int],
                                            ks[rid.0 as int],
                                        );
                                        assert(has_dot(ks[cur.0 as int]));
                                        assert(false);
                                    }
                                }
                            }
                            assert forall|a: AspectRid| #[trigger] result@.contains(a) ==> a.0
                                < ks.len() && (self.nodes_seq()[a.0 as int].parent matches Some(p)
                                ==> result@.contains(p)) by {}
                        }
                        break;
                    },
                    Some(par) => {
                        proof {
                            lemma_parent_valid(ks[cur.0 as int]);
                            assert(ks[par.0 as int] == parent_bytes(ks[cur.0 as int]));
                            if ks[cur.0 as int] != ks[rid.0 as int] {
                                lemma_sdp_trans(
                                    ks[par.0 as int],
                                    ks[cur.0 as int],
                                    ks[rid.0 as int],
                                );
                            }
                        }
                        if result.contains(par) {
                            proof {
                                // the present ancestor is already closed, so the whole
                                // remaining chain is present
                                assert forall|a: AspectRid| #[trigger] result@.contains(a) ==> a.0
                                    < ks.len() && (self.nodes_seq()[a.0 as int].parent matches
                                    Some(p) ==> result@.contains(p)) by {}
                                assert(self.anc_closed(result@));
                                assert forall|a: AspectRid| #[trigger] result@.contains(a) <==> (
                                    pre_outer.contains(a) || a == rid || (a.0 < ks.len()
                                        && is_strict_dot_prefix(
                                        ks[a.0 as int],
                                        ks[rid.0 as int],
                                    ))) by {
                                    if !result@.contains(a) && a.0 < ks.len()
                                        && is_strict_dot_prefix(ks[a.0 as int], ks[rid.0 as int])
                                        && !(ks[a.0 as int].len() >= ks[cur.0 as int].len()) {
                                        let x = ks[a.0 as int];
                                        if ks[cur.0 as int] == ks[rid.0 as int] {
                                            lemma_dot_prefix_step(x, ks[cur.0 as int]);
                                        } else {
                                            lemma_sdp_nested(
                                                x,
                                                ks[cur.0 as int],
                                                ks[rid.0 as int],
                                            );
                                            lemma_dot_prefix_step(x, ks[cur.0 as int]);
                                        }
                                        // x is the parent key or one of its ancestors
                                        if x == parent_bytes(ks[cur.0 as int]) {
                                            lemma_keys_injective(ks, a.0 as int, par.0 as int);
                                            assert(result@.contains(a));
                                            assert(false);
                                        } else {
                                            self.lemma_closed_has_ancestors(result@, par, x);
                                            let b = choose|b: AspectRid|
                                                #[trigger] result@.contains(b) && b.0
                                                    < self.nodes_seq().len() && ks[b.0 as int]
                                                    == x;
                                            lemma_keys_injective(ks, a.0 as int, b.0 as int);
                                            assert(false);
                                        }
                                    }
                                }
                            }
                            break;
                        }
                        result.insert(par);
                        proof {
                            assert forall|a: AspectRid| #[trigger] result@.contains(a) <==> (
                                pre_outer.contains(a) || a == rid || (a.0 < ks.len()
                                    && is_strict_dot_prefix(ks[a.0 as int], ks[rid.0 as int])
                                    && ks[a.0 as int].len() >= ks[par.0 as int].len())) by {
                                if result@.contains(a) && a != par {
                                    assert(pre.contains(a));
                                }
                                if !result@.contains(a) && a.0 < ks.len()
                                    && is_strict_dot_prefix(ks[a.0 as int], ks[rid.0 as int])
                                    && ks[a.0 as int].len() >= ks[par.0 as int].len() {
                                    let x = ks[a.0 as int];
                                    assert(!pre.contains(a) && a != par && a != rid);
                                    assert(ks[a.0 as int].len() < ks[cur.0 as int].len());
                                    if ks[cur.0 as int] == ks[rid.0 as int] {
                                        lemma_dot_prefix_step(x, ks[cur.0 as int]);
                                    } else {
                                        lemma_sdp_nested(x, ks[cur.0 as int], ks[rid.0 as int]);
                                        lemma_dot_prefix_step(x, ks[cur.0 as int]);
                                    }
                                    if x == parent_bytes(ks[cur.0 as int]) {
                                        lemma_keys_injective(ks, a.0 as int, par.0 as int);
                                        assert(false);
                                    } else {
                                        assert(is_strict_dot_prefix(x, ks[par.0 as int]));
                                        assert(x.len() < ks[par.0 as int].len());
                                        assert(false);
                                    }
                                }
                            }
                        }
                        cur = par;
                    },
                }
            }
            proof {
                let t1 = base@.take(i + 1);
                assert(t1.drop_last() =~= base@.take(i as int));
                assert(t1.last() == base@[i as int]);
                assert forall|a: AspectRid| #[trigger] result@.contains(a) <==> in_closure(
                    ks,
                    base@.take(i + 1),
                    a,
                ) by {
                    if result@.contains(a) {
                        if pre_outer.contains(a) {
                            assert(in_closure(ks, base@.take(i as int), a));
                            if base@.take(i as int).contains(a) {
                                let t = choose|t: int|
                                    0 <= t < i && base@.take(i as int)[t] == a;
                                assert(t1[t] == a);
                            } else {
                                let t = choose|t: int|
                                    0 <= t < i && (#[trigger] base@.take(i as int)[t]).0
                                        < ks.len() && is_strict_dot_prefix(
                                        ks[a.0 as int],
                                        ks[base@.take(i as int)[t].0 as int],
                                    );
                                assert(t1[t] == base@.take(i as int)[t]);
                            }
                        } else if a == rid {
                            assert(t1[i as int] == rid);
                        } else {
                            assert(t1[i as int] == rid);
                        }
                    }
                    if in_closure(ks, t1, a) {
                        if t1.contains(a) {
                            let t = choose|t: int| 0 <= t < t1.len() && t1[t] == a;
                            if t < i {
                                assert(base@.take(i as int)[t] == a);
                                assert(base@.take(i as int).contains(a));
                            } else {
                                assert(a == rid);
                            }
                        } else {
                            let t = choose|t: int|
                                0 <= t < t1.len() && (#[trigger] t1[t]).0 < ks.len()
                                    && is_strict_dot_prefix(
                                    ks[a.0 as int],
                                    ks[t1[t].0 as int],
                                );
                            if t < i {
                                assert(base@.take(i as int)[t] == t1[t]);
                                assert(in_closure(ks, base@.take(i as int), a));
                            } else {
                                assert(t1[t] == rid);
                            }
                        }
                    }
                }
            }
            i += 1;
        }
        proof {
            assert(base@.take(n as int) =~= base@);
        }
        result
    }

    /// An exec copy of the registry hash.
    pub fn hash(&self) -> (r: Hash128)
        ensures
            r.0 == self.hash_spec(),
    {
        self.registry_hash
    }
}

/// Strictly sorted key sequences with the same members are equal: handle
/// assignment is a pure function of the registered key set, independent of
/// registration order.
pub proof fn lemma_sorted_keys_unique(s1: Seq<Seq<u8>>, s2: Seq<Seq<u8>>)
    requires
        keys_sorted(s1),
        keys_sorted(s2),
        forall|k: Seq<u8>| s1.contains(k) <==> s2.contains(k),
    ensures
        s1 == s2,
    decreases s1.len(),
{
    if s1.len() == 0 {
        if s2.len() > 0 {
            assert(s2.contains(s2[0]));
            assert(false);
        }
        assert(s1 =~= s2);
    } else {
        assert(s1.contains(s1[0]));
        assert(s2.contains(s1[0]));
        assert(s2.len() > 0);
        let k = choose|k: int| 0 <= k < s2.len() && s2[k] == s1[0];
        assert(s2.contains(s2[0]));
        assert(s1.contains(s2[0]));
        let m = choose|m: int| 0 <= m < s1.len() && s1[m] == s2[0];
        if k > 0 && m > 0 {
            assert(lex_lt(s2[0], s2[k]));
            assert(lex_lt(s1[0], s1[m]));
            lemma_lex_trans(s1[0], s2[0], s1[0]);
            lemma_lex_irrefl(s1[0]);
        }
        assert(s1[0] == s2[0]);
        let t1 = s1.drop_first();
        let t2 = s2.drop_first();
        assert forall|x: Seq<u8>| t1.contains(x) <==> t2.contains(x) by {
            lemma_drop_first_membership(s1, x);
            lemma_drop_first_membership(s2, x);
        }
        lemma_sorted_keys_unique(t1, t2);
        assert(s1.len() == s2.len());
        assert forall|i: int| 0 <= i < s1.len() implies s1[i] == s2[i] by {
            if i > 0 {
                assert(s1[i] == t1[i - 1]);
                assert(s2[i] == t2[i - 1]);
            }
        }
        assert(s1 =~= s2);
    }
}

/// In a strictly sorted sequence, the tail holds exactly the members other
/// than the head.
proof fn lemma_drop_first_membership(s: Seq<Seq<u8>>, x: Seq<u8>)
    requires
        keys_sorted(s),
        s.len() > 0,
    ensures
        s.drop_first().contains(x) <==> (s.contains(x) && x != s[0]),
{
    let t = s.drop_first();
    if t.contains(x) {
        let j = choose|j: int| 0 <= j < t.len() && t[j] == x;
        assert(s[j + 1] == x);
        assert(lex_lt(s[0], s[j + 1]));
        lemma_lex_irrefl(x);
        assert(s.contains(x));
    }
    if s.contains(x) && x != s[0] {
        let j = choose|j: int| 0 <= j < s.len() && s[j] == x;
        assert(j > 0);
        assert(t[j - 1] == x);
        assert(t.contains(x));
    }
}

/// Strictly sorted handle sequences with the same members are equal.
pub proof fn lemma_sorted_rids_unique(s1: Seq<AspectRid>, s2: Seq<AspectRid>)
    requires
        rids_sorted(s1),
        rids_sorted(s2),
        forall|a: AspectRid| s1.contains(a) <==> s2.contains(a),
    ensures
        s1 == s2,
    decreases s1.len(),
{
    if s1.len() == 0 {
        if s2.len() > 0 {
            assert(s2.contains(s2[0]));
            assert(false);
        }
        assert(s1 =~= s2);
    } else {
        assert(s1.contains(s1[0]));
        assert(s2.contains(s1[0]));
        assert(s2.len() > 0);
        let k = choose|k: int| 0 <= k < s2.len() && s2[k] == s1[0];
        assert(s2.contains(s2[0]));
        assert(s1.contains(s2[0]));
        let m = choose|m: int| 0 <= m < s1.len() && s1[m] == s2[0];
        if k > 0 && m > 0 {
            assert(s2[0].0 < s2[k].0);
            assert(s1[0].0 < s1[m].0);
        }
        assert(s1[0] == s2[0]);
        let t1 = s1.drop_first();
        let t2 = s2.drop_first();
        assert forall|x: AspectRid| t1.contains(x) <==> t2.contains(x) by {
            lemma_rid_drop_first_membership(s1, x);
            lemma_rid_drop_first_membership(s2, x);
        }
        lemma_sorted_rids_unique(t1, t2);
        assert(s1.len() == s2.len());
        assert forall|i: int| 0 <= i < s1.len() implies s1[i] == s2[i] by {
            if i > 0 {
                assert(s1[i] == t1[i - 1]);
                assert(s2[i] == t2[i - 1]);
            }
        }
        assert(s1 =~= s2);
    }
}

/// In a strictly sorted handle sequence, the tail holds exactly the members
/// other than the head.
proof fn lemma_rid_drop_first_membership(s: Seq<AspectRid>, x: AspectRid)
    requires
        rids_sorted(s),
        s.len() > 0,
    ensures
        s.drop_first().contains(x) <==> (s.contains(x) && x != s[0]),
{
    let t = s.drop_first();
    if t.contains(x) {
        let j = choose|j: int| 0 <= j < t.len() && t[j] == x;
        assert(s[j + 1] == x);
        assert(s[0].0 < s[j + 1].0);
        assert(s.contains(x));
    }
    if s.contains(x) && x != s[0] {
        let j = choose|j: int| 0 <= j < s.len() && s[j] == x;
        assert(j > 0);
        assert(t[j - 1] == x);
        assert(t.contains(x));
    }
}

/// Determinism of sealing: two well-formed registries over the same key
/// sequence agree on every handle, identifier, parent and child link, depth
/// and on the registry hash. Together with `lemma_sorted_keys_unique` this
/// says that identical *sets* of registered paths, in any order, yield an
/// identical taxonomy.
pub proof fn lemma_registry_deterministic(r1: &AspectRegistry, r2: &AspectRegistry)
    requires
        r1.wf(),
        r2.wf(),
        r1.keys_view() == r2.keys_view(),
    ensures
        r1.nodes_seq().len() == r2.nodes_seq().len(),
        forall|i: int|
            0 <= i < r1.nodes_seq().len() ==> {
                let n1 = #[trigger] r1.nodes_seq()[i];
                let n2 = r2.nodes_seq()[i];
                n1.rid == n2.rid && n1.id == n2.id && n1.key@ == n2.key@ && n1.parent == n2.parent
                    && n1.children@ == n2.children@ && n1.depth == n2.depth
            },
        r1.hash_spec() == r2.hash_spec(),
{
    let ks = r1.keys_view();
    assert(r1.nodes_seq().len() == ks.len());
    assert(r2.nodes_seq().len() == ks.len());
    assert forall|i: int|
        0 <= i < r1.nodes_seq().len() implies {
            let n1 = #[trigger] r1.nodes_seq()[i];
            let n2 = r2.nodes_seq()[i];
            n1.rid == n2.rid && n1.id == n2.id && n1.key@ == n2.key@ && n1.parent == n2.parent
                && n1.depth == n2.depth
        } by {
        let n1 = r1.nodes_seq()[i];
        let n2 = r2.nodes_seq()[i];
        assert(n1.rid.0 == i == n2.rid.0);
        assert(n1.id.0.0 == aspect_id_of(ks[i]) == n2.id.0.0);
        assert(n1.key@ == ks[i] && n2.key@ == ks[i]);
        assert(n1.depth == depth_of(ks[i]) == n2.depth);
        match n1.parent {
            Some(p1) => {
                assert(has_dot(ks[i]));
                let p2 = n2.parent->Some_0;
                assert(ks[p1.0 as int] == parent_bytes(ks[i]));
                assert(ks[p2.0 as int] == parent_bytes(ks[i]));
                lemma_keys_injective(ks, p1.0 as int, p2.0 as int);
                assert(n1.parent == n2.parent);
            },
            None => {
                assert(!has_dot(ks[i]));
                assert(n2.parent is None);
            },
        }
    }
    assert forall|i: int|
        0 <= i < r1.nodes_seq().len() implies (#[trigger] r1.nodes_seq()[i]).children@
            == r2.nodes_seq()[i].children@ by {
        let n1 = r1.nodes_seq()[i];
        let n2 = r2.nodes_seq()[i];
        assert forall|c: AspectRid|
            n1.children@.contains(c) <==> n2.children@.contains(c) by {
            if n1.children@.contains(c) {
                let t = choose|t: int| 0 <= t < n1.children@.len() && n1.children@[t] == c;
                assert(n1.children@[t] == c);
                assert(r1.nodes_seq()[c.0 as int].parent == Some(AspectRid(i as u32)));
                assert(r2.nodes_seq()[c.0 as int].parent == Some(AspectRid(i as u32)));
            }
            if n2.children@.contains(c) {
                let t = choose|t: int| 0 <= t < n2.children@.len() && n2.children@[t] == c;
                assert(n2.children@[t] == c);
                assert(r2.nodes_seq()[c.0 as int].parent == Some(AspectRid(i as u32)));
                assert(r1.nodes_seq()[c.0 as int].parent == Some(AspectRid(i as u32)));
            }
        }
        lemma_sorted_rids_unique(n1.children@, n2.children@);
    }
}

/// Determinism end to end: two well-formed builders registered with the
/// same *set* of paths, in any order, seal into registries that agree on
/// every handle, key, identifier, parent and child link, depth, and on the
/// registry hash.
pub proof fn lemma_seal_deterministic(
    b1: &AspectRegistryBuilder,
    b2: &AspectRegistryBuilder,
    r1: &AspectRegistry,
    r2: &AspectRegistry,
)
    requires
        b1.wf(),
        b2.wf(),
        forall|k: Seq<u8>| b1.keys_view().contains(k) <==> b2.keys_view().contains(k),
        r1.wf(),
        r2.wf(),
        r1.keys_view() == b1.keys_view(),
        r2.keys_view() == b2.keys_view(),
    ensures
        r1.keys_view() == r2.keys_view(),
        r1.nodes_seq().len() == r2.nodes_seq().len(),
        forall|i: int|
            0 <= i < r1.nodes_seq().len() ==> {
                let n1 = #[trigger] r1.nodes_seq()[i];
                let n2 = r2.nodes_seq()[i];
                n1.rid == n2.rid && n1.id == n2.id && n1.key@ == n2.key@ && n1.parent == n2.parent
                    && n1.children@ == n2.children@ && n1.depth == n2.depth
            },
        r1.hash_spec() == r2.hash_spec(),
{
    lemma_sorted_keys_unique(b1.keys_view(), b2.keys_view());
    lemma_registry_deterministic(r1, r2);
}

/// Whether `a` equals the first `k` bytes of `b`.
fn bytes_eq_prefix(a: &[u8], b: &[u8], k: usize) -> (r: bool)
    requires
        k <= b@.len(),
    ensures
        r == (a@ == b@.take(k as int)),
{
    let n = a.len();
    if n != k {
        proof {
            assert(a@ !~= b@.take(k as int));
        }
        return false;
    }
    let mut i: usize = 0;
    while i < n
        invariant
            n == a@.len(),
            n == k <= b@.len(),
            i <= n,
            forall|j: int| 0 <= j < i ==> a@[j] == #[trigger] b@[j],
        decreases n - i,
    {
        if a[i] != b[i] {
            proof {
                assert(b@.take(k as int)[i as int] == b@[i as int]);
            }
            return false;
        }
        i += 1;
    }
    proof {
        assert(a@ =~= b@.take(k as int));
    }
    true
}

/// Number of dots in a byte slice.
fn count_dots(s: &[u8]) -> (r: usize)
    ensures
        r == dot_count(s@),
{
    proof {
        lemma_dot_count_le(s@);
    }
    let n = s.len();
    let mut c: usize = 0;
    let mut i: usize = 0;
    while i < n
        invariant
            n == s@.len(),
            i <= n,
            c == dot_count(s@.take(i as int)),
            c <= i,
        decreases n - i,
    {
        proof {
            let t1 = s@.take(i + 1);
            assert(t1.take(i as int) =~= s@.take(i as int));
            assert(t1[t1.len() - 1] == s@[i as int]);
        }
        if s[i] == DOT {
            c += 1;
        }
        i += 1;
    }
    proof {
        assert(s@.take(n as int) =~= s@);
    }
    c
}

/// Appends a byte slice to a buffer.
fn append_slice_bytes(v: &mut Vec<u8>, s: &[u8])
    ensures
        final(v)@ == old(v)@ + s@,
{
    let n = s.len();
    let mut i: usize = 0;
    while i < n
        invariant
            n == s@.len(),
            i <= n,
            v@ == old(v)@ + s@.take(i as int),
        decreases n - i,
    {
        v.push(s[i]);
        proof {
            assert(v@ =~= old(v)@ + s@.take(i + 1));
        }
        i += 1;
    }
    proof {
        assert(old(v)@ + s@.take(n as int) =~= old(v)@ + s@);
    }
}

/// Ancestor closure, except that while a registration walks the parent
/// chain the chain's next element may still be missing.
pub open spec fn keys_prefix_closed_except(
    ks: Seq<Seq<u8>>,
    base: Seq<Seq<u8>>,
    cur: Option<AspectPath>,
) -> bool {
    forall|k: Seq<u8>|
        #[trigger] ks.contains(k) && has_dot(k) ==> (ks.contains(parent_bytes(k)) || (
        cur matches Some(q) && parent_bytes(k) == q@))
}

} // verus!
