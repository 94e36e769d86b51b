//! Per-tick canonical change log: every list sorted and duplicate-free,
//! directly serializable, identical across independently-run instances.

use vstd::prelude::*;

use crate::entity::EntityRid;
use crate::ids::{AttrKeyId, EffectInstId, TraitId};

verus! {

/// Entity handles strictly ascending.
pub open spec fn rids_asc(s: Seq<EntityRid>) -> bool {
    forall|i: int, j: int| 0 <= i < j < s.len() ==> (#[trigger] s[i]).0 < (#[trigger] s[j]).0
}

/// (entity, trait) pairs strictly ascending in lexicographic order.
pub open spec fn trait_pairs_asc(s: Seq<(EntityRid, TraitId)>) -> bool {
    forall|i: int, j: int|
        0 <= i < j < s.len() ==> ((#[trigger] s[i]).0.0 < (#[trigger] s[j]).0.0 || (s[i].0.0
            == s[j].0.0 && s[i].1.0.0 < s[j].1.0.0))
}

/// (entity, attribute key) pairs strictly ascending in lexicographic order.
pub open spec fn attr_pairs_asc(s: Seq<(EntityRid, AttrKeyId)>) -> bool {
    forall|i: int, j: int|
        0 <= i < j < s.len() ==> ((#[trigger] s[i]).0.0 < (#[trigger] s[j]).0.0 || (s[i].0.0
            == s[j].0.0 && s[i].1.0.0 < s[j].1.0.0))
}

/// Effect-instance identifiers strictly ascending.
pub open spec fn insts_asc(s: Seq<EffectInstId>) -> bool {
    forall|i: int, j: int| 0 <= i < j < s.len() ==> (#[trigger] s[i]).0 < (#[trigger] s[j]).0
}

/// One tick's accumulated state changes.
#[derive(Debug, Default)]
pub struct ModelDiff {
    pub spawned: Vec<EntityRid>,
    pub killed: Vec<EntityRid>,
    pub trait_added: Vec<(EntityRid, TraitId)>,
    pub trait_removed: Vec<(EntityRid, TraitId)>,
    pub attr_changed: Vec<(EntityRid, AttrKeyId)>,
    pub effect_added: Vec<EffectInstId>,
    pub effect_removed: Vec<EffectInstId>,
    pub aspects_changed: Vec<EntityRid>,
}

impl ModelDiff {
    /// Every list empty.
    pub open spec fn is_empty_spec(&self) -> bool {
        &&& self.spawned@.len() == 0
        &&& self.killed@.len() == 0
        &&& self.trait_added@.len() == 0
        &&& self.trait_removed@.len() == 0
        &&& self.attr_changed@.len() == 0
        &&& self.effect_added@.len() == 0
        &&& self.effect_removed@.len() == 0
        &&& self.aspects_changed@.len() == 0
    }

    /// An empty diff.
    pub fn new() -> (r: ModelDiff)
        ensures
            r.is_empty_spec(),
    {
        ModelDiff {
            spawned: Vec::new(),
            killed: Vec::new(),
            trait_added: Vec::new(),
            trait_removed: Vec::new(),
            attr_changed: Vec::new(),
            effect_added: Vec::new(),
            effect_removed: Vec::new(),
            aspects_changed: Vec::new(),
        }
    }

    /// Sorts and deduplicates every list; membership is unchanged.
    pub fn canonicalize(&mut self)
        ensures
            rids_asc(final(self).spawned@),
            rids_asc(final(self).killed@),
            trait_pairs_asc(final(self).trait_added@),
            trait_pairs_asc(final(self).trait_removed@),
            attr_pairs_asc(final(self).attr_changed@),
            insts_asc(final(self).effect_added@),
            insts_asc(final(self).effect_removed@),
            rids_asc(final(self).aspects_changed@),
            forall|x: EntityRid|
                #[trigger] final(self).spawned@.contains(x) <==> old(self).spawned@.contains(x),
            forall|x: EntityRid|
                #[trigger] final(self).killed@.contains(x) <==> old(self).killed@.contains(x),
            forall|x: (EntityRid, TraitId)|
                #[trigger] final(self).trait_added@.contains(x) <==> old(
                    self,
                ).trait_added@.contains(x),
            forall|x: (EntityRid, TraitId)|
                #[trigger] final(self).trait_removed@.contains(x) <==> old(
                    self,
                ).trait_removed@.contains(x),
            forall|x: (EntityRid, AttrKeyId)|
                #[trigger] final(self).attr_changed@.contains(x) <==> old(
                    self,
                ).attr_changed@.contains(x),
            forall|x: EffectInstId|
                #[trigger] final(self).effect_added@.contains(x) <==> old(
                    self,
                ).effect_added@.contains(x),
            forall|x: EffectInstId|
                #[trigger] final(self).effect_removed@.contains(x) <==> old(
                    self,
                ).effect_removed@.contains(x),
            forall|x: EntityRid|
                #[trigger] final(self).aspects_changed@.contains(x) <==> old(
                    self,
                ).aspects_changed@.contains(x),
    {
        let mut spawned: Vec<EntityRid> = Vec::new();
        core::mem::swap(&mut spawned, &mut self.spawned);
        self.spawned = canon_rids(spawned);
        let mut killed: Vec<EntityRid> = Vec::new();
        core::mem::swap(&mut killed, &mut self.killed);
        self.killed = canon_rids(killed);
        let mut trait_added: Vec<(EntityRid, TraitId)> = Vec::new();
        core::mem::swap(&mut trait_added, &mut self.trait_added);
        self.trait_added = canon_trait_pairs(trait_added);
        let mut trait_removed: Vec<(EntityRid, TraitId)> = Vec::new();
        core::mem::swap(&mut trait_removed, &mut self.trait_removed);
        self.trait_removed = canon_trait_pairs(trait_removed);
        let mut attr_changed: Vec<(EntityRid, AttrKeyId)> = Vec::new();
        core::mem::swap(&mut attr_changed, &mut self.attr_changed);
        self.attr_changed = canon_attr_pairs(attr_changed);
        let mut effect_added: Vec<EffectInstId> = Vec::new();
        core::mem::swap(&mut effect_added, &mut self.effect_added);
        self.effect_added = canon_insts(effect_added);
        let mut effect_removed: Vec<EffectInstId> = Vec::new();
        core::mem::swap(&mut effect_removed, &mut self.effect_removed);
        self.effect_removed = canon_insts(effect_removed);
        let mut aspects_changed: Vec<EntityRid> = Vec::new();
        core::mem::swap(&mut aspects_changed, &mut self.aspects_changed);
        self.aspects_changed = canon_rids(aspects_changed);
    }
}

/// Ordered insert skipping duplicates.
fn sorted_insert_rid(v: &mut Vec<EntityRid>, x: EntityRid)
    requires
        rids_asc(old(v)@),
    ensures
        rids_asc(final(v)@),
        forall|y: EntityRid| #[trigger] final(v)@.contains(y) <==> (old(v)@.contains(y) || y == x),
{
    let n = v.len();
    let mut pos: usize = 0;
    while pos < n && v[pos].0 < x.0
        invariant
            n == v@.len(),
            pos <= n,
            forall|j: int| 0 <= j < pos ==> (#[trigger] v@[j]).0 < x.0,
        decreases n - pos,
    {
        pos += 1;
    }
    if pos < n && v[pos].0 == x.0 {
        proof {
            assert(v@[pos as int] == x);
            assert(v@.contains(x));
        }
        return ;
    }
    proof {
        assert(forall|j: int| pos <= j < n ==> x.0 < (#[trigger] v@[j]).0);
        if v@.contains(x) {
            let k = choose|k: int| 0 <= k < v@.len() && v@[k] == x;
            assert(false);
        }
    }
    v.insert(pos, x);
    proof {
        lemma_insert_membership_rid(old(v)@, v@, x, pos as int);
    }
}

/// Inserting at a position yields exactly the old members plus the new one.
proof fn lemma_insert_membership_rid(o: Seq<EntityRid>, s: Seq<EntityRid>, x: EntityRid, pos: int)
    requires
        0 <= pos <= o.len(),
        s == o.insert(pos, x),
    ensures
        forall|y: EntityRid| #[trigger] s.contains(y) <==> (o.contains(y) || y == x),
        rids_asc(o) && (forall|j: int| 0 <= j < pos ==> (#[trigger] o[j]).0 < x.0) && (forall|
            j: int,
        |
            pos <= j < o.len() ==> x.0 < (#[trigger] o[j]).0) ==> rids_asc(s),
{
    assert(forall|j: int| 0 <= j < pos ==> #[trigger] s[j] == o[j]);
    assert(forall|j: int| pos < j < s.len() ==> #[trigger] s[j] == o[j - 1]);
    assert(s[pos] == x);
    assert forall|y: EntityRid| #[trigger] s.contains(y) <==> (o.contains(y) || y == x) by {
        if s.contains(y) {
            let j = choose|j: int| 0 <= j < s.len() && s[j] == y;
            if j < pos {
                assert(o[j] == y);
            } else if j > pos {
                assert(o[j - 1] == y);
            }
        }
        if o.contains(y) {
            let j = choose|j: int| 0 <= j < o.len() && o[j] == y;
            if j < pos {
                assert(s[j] == y);
            } else {
                assert(s[j + 1] == y);
            }
        }
        if y == x {
            assert(s[pos] == y);
        }
    }
    if rids_asc(o) && (forall|j: int| 0 <= j < pos ==> (#[trigger] o[j]).0 < x.0) && (forall|
        j: int,
    | pos <= j < o.len() ==> x.0 < (#[trigger] o[j]).0) {
        assert forall|i: int, j: int| 0 <= i < j < s.len() implies (#[trigger] s[i]).0 < (
        #[trigger] s[j]).0 by {
            if i != pos && j != pos {
                let io: int = if i < pos { i } else { i - 1 };
                let jo: int = if j < pos { j } else { j - 1 };
                assert(s[i] == o[io] && s[j] == o[jo]);
            }
        }
    }
}

/// The sorted, duplicate-free list with the same members.
fn canon_rids(v: Vec<EntityRid>) -> (r: Vec<EntityRid>)
    ensures
        rids_asc(r@),
        forall|y: EntityRid| #[trigger] r@.contains(y) <==> v@.contains(y),
{
    let n = v.len();
    let mut out: Vec<EntityRid> = Vec::new();
    let mut i: usize = 0;
    while i < n
        invariant
            n == v@.len(),
            i <= n,
            rids_asc(out@),
            forall|y: EntityRid| #[trigger] out@.contains(y) <==> v@.take(i as int).contains(y),
        decreases n - i,
    {
        proof {
            assert(v@.take(i + 1).drop_last() =~= v@.take(i as int));
            assert(v@.take(i + 1).last() == v@[i as int]);
            assert(forall|y: EntityRid| #[trigger] v@.take(i + 1).contains(y) <==> (v@.take(
                i as int,
            ).contains(y) || y == v@[i as int]));
        }
        sorted_insert_rid(&mut out, v[i]);
        i += 1;
    }
    proof {
        assert(v@.take(n as int) =~= v@);
    }
    out
}

/// Lexicographic key of an (entity, trait) pair.
pub open spec fn trait_pair_lt(a: (EntityRid, TraitId), b: (EntityRid, TraitId)) -> bool {
    a.0.0 < b.0.0 || (a.0.0 == b.0.0 && a.1.0.0 < b.1.0.0)
}

/// Ordered insert skipping duplicates.
fn sorted_insert_trait_pair(v: &mut Vec<(EntityRid, TraitId)>, x: (EntityRid, TraitId))
    requires
        trait_pairs_asc(old(v)@),
    ensures
        trait_pairs_asc(final(v)@),
        forall|y: (EntityRid, TraitId)|
            #[trigger] final(v)@.contains(y) <==> (old(v)@.contains(y) || y == x),
{
    let n = v.len();
    let mut pos: usize = 0;
    while pos < n && (v[pos].0.0 < x.0.0 || (v[pos].0.0 == x.0.0 && v[pos].1.0.0 < x.1.0.0))
        invariant
            n == v@.len(),
            pos <= n,
            forall|j: int| 0 <= j < pos ==> trait_pair_lt(#[trigger] v@[j], x),
        decreases n - pos,
    {
        pos += 1;
    }
    if pos < n && v[pos].0.0 == x.0.0 && v[pos].1.0.0 == x.1.0.0 {
        proof {
            assert(v@[pos as int] == x);
            assert(v@.contains(x));
        }
        return ;
    }
    proof {
        assert forall|j: int| pos <= j < n implies trait_pair_lt(x, #[trigger] v@[j]) by {
            if j > pos {
                assert(trait_pair_lt(v@[pos as int], v@[j]));
            }
        }
        if v@.contains(x) {
            let k = choose|k: int| 0 <= k < v@.len() && v@[k] == x;
            assert(false);
        }
    }
    let ghost o = v@;
    v.insert(pos, x);
    proof {
        let s = v@;
        assert(forall|j: int| 0 <= j < pos ==> #[trigger] s[j] == o[j]);
        assert(forall|j: int| pos < j < s.len() ==> #[trigger] s[j] == o[j - 1]);
        assert(s[pos as int] == x);
        assert forall|y: (EntityRid, TraitId)| #[trigger] s.contains(y) <==> (o.contains(y) || y
            == x) by {
            if s.contains(y) {
                let j = choose|j: int| 0 <= j < s.len() && s[j] == y;
                if j < pos {
                    assert(o[j] == y);
                } else if j > pos {
                    assert(o[j - 1] == y);
                }
            }
            if o.contains(y) {
                let j = choose|j: int| 0 <= j < o.len() && o[j] == y;
                if j < pos {
                    assert(s[j] == y);
                } else {
                    assert(s[j + 1] == y);
                }
            }
            if y == x {
                assert(s[pos as int] == y);
            }
        }
        assert forall|i: int, j: int| 0 <= i < j < s.len() implies ((#[trigger] s[i]).0.0 < (
        #[trigger] s[j]).0.0 || (s[i].0.0 == s[j].0.0 && s[i].1.0.0 < s[j].1.0.0)) by {
            if i != pos && j != pos {
                let io: int = if i < pos { i } else { i - 1 };
                let jo: int = if j < pos { j } else { j - 1 };
                assert(s[i] == o[io] && s[j] == o[jo]);
            }
        }
    }
}

/// The sorted, duplicate-free list with the same members.
fn canon_trait_pairs(v: Vec<(EntityRid, TraitId)>) -> (r: Vec<(EntityRid, TraitId)>)
    ensures
        trait_pairs_asc(r@),
        forall|y: (EntityRid, TraitId)| #[trigger] r@.contains(y) <==> v@.contains(y),
{
    let n = v.len();
    let mut out: Vec<(EntityRid, TraitId)> = Vec::new();
    let mut i: usize = 0;
    while i < n
        invariant
            n == v@.len(),
            i <= n,
            trait_pairs_asc(out@),
            forall|y: (EntityRid, TraitId)|
                #[trigger] out@.contains(y) <==> v@.take(i as int).contains(y),
        decreases n - i,
    {
        proof {
            assert(v@.take(i + 1).drop_last() =~= v@.take(i as int));
            assert(v@.take(i + 1).last() == v@[i as int]);
            assert(forall|y: (EntityRid, TraitId)|
                #[trigger] v@.take(i + 1).contains(y) <==> (v@.take(i as int).contains(y) || y
                    == v@[i as int]));
        }
        sorted_insert_trait_pair(&mut out, v[i]);
        i += 1;
    }
    proof {
        assert(v@.take(n as int) =~= v@);
    }
    out
}

/// Lexicographic key of an (entity, attribute key) pair.
pub open spec fn attr_pair_lt(a: (EntityRid, AttrKeyId), b: (EntityRid, AttrKeyId)) -> bool {
    a.0.0 < b.0.0 || (a.0.0 == b.0.0 && a.1.0.0 < b.1.0.0)
}

/// Ordered insert skipping duplicates.
fn sorted_insert_attr_pair(v: &mut Vec<(EntityRid, AttrKeyId)>, x: (EntityRid, AttrKeyId))
    requires
        attr_pairs_asc(old(v)@),
    ensures
        attr_pairs_asc(final(v)@),
        forall|y: (EntityRid, AttrKeyId)|
            #[trigger] final(v)@.contains(y) <==> (old(v)@.contains(y) || y == x),
{
    let n = v.len();
    let mut pos: usize = 0;
    while pos < n && (v[pos].0.0 < x.0.0 || (v[pos].0.0 == x.0.0 && v[pos].1.0.0 < x.1.0.0))
        invariant
            n == v@.len(),
            pos <= n,
            forall|j: int| 0 <= j < pos ==> attr_pair_lt(#[trigger] v@[j], x),
        decreases n - pos,
    {
        pos += 1;
    }
    if pos < n && v[pos].0.0 == x.0.0 && v[pos].1.0.0 == x.1.0.0 {
        proof {
            assert(v@[pos as int] == x);
            assert(v@.contains(x));
        }
        return ;
    }
    proof {
        assert forall|j: int| pos <= j < n implies attr_pair_lt(x, #[trigger] v@[j]) by {
            if j > pos {
                assert(attr_pair_lt(v@[pos as int], v@[j]));
            }
        }
        if v@.contains(x) {
            let k = choose|k: int| 0 <= k < v@.len() && v@[k] == x;
            assert(false);
        }
    }
    let ghost o = v@;
    v.insert(pos, x);
    proof {
        let s = v@;
        assert(forall|j: int| 0 <= j < pos ==> #[trigger] s[j] == o[j]);
        assert(forall|j: int| pos < j < s.len() ==> #[trigger] s[j] == o[j - 1]);
        assert(s[pos as int] == x);
        assert forall|y: (EntityRid, AttrKeyId)| #[trigger] s.contains(y) <==> (o.contains(y) || y
            == x) by {
            if s.contains(y) {
                let j = choose|j: int| 0 <= j < s.len() && s[j] == y;
                if j < pos {
                    assert(o[j] == y);
                } else if j > pos {
                    assert(o[j - 1] == y);
                }
            }
            if o.contains(y) {
                let j = choose|j: int| 0 <= j < o.len() && o[j] == y;
                if j < pos {
                    assert(s[j] == y);
                } else {
                    assert(s[j + 1] == y);
                }
            }
            if y == x {
                assert(s[pos as int] == y);
            }
        }
        assert forall|i: int, j: int| 0 <= i < j < s.len() implies ((#[trigger] s[i]).0.0 < (
        #[trigger] s[j]).0.0 || (s[i].0.0 == s[j].0.0 && s[i].1.0.0 < s[j].1.0.0)) by {
            if i != pos && j != pos {
                let io: int = if i < pos { i } else { i - 1 };
                let jo: int = if j < pos { j } else { j - 1 };
                assert(s[i] == o[io] && s[j] == o[jo]);
            }
        }
    }
}

/// The sorted, duplicate-free list with the same members.
fn canon_attr_pairs(v: Vec<(EntityRid, AttrKeyId)>) -> (r: Vec<(EntityRid, AttrKeyId)>)
    ensures
        attr_pairs_asc(r@),
        forall|y: (EntityRid, AttrKeyId)| #[trigger] r@.contains(y) <==> v@.contains(y),
{
    let n = v.len();
    let mut out: Vec<(EntityRid, AttrKeyId)> = Vec::new();
    let mut i: usize = 0;
    while i < n
        invariant
            n == v@.len(),
            i <= n,
            attr_pairs_asc(out@),
            forall|y: (EntityRid, AttrKeyId)|
                #[trigger] out@.contains(y) <==> v@.take(i as int).contains(y),
        decreases n - i,
    {
        proof {
            assert(v@.take(i + 1).drop_last() =~= v@.take(i as int));
            assert(v@.take(i + 1).last() == v@[i as int]);
            assert(forall|y: (EntityRid, AttrKeyId)|
                #[trigger] v@.take(i + 1).contains(y) <==> (v@.take(i as int).contains(y) || y
                    == v@[i as int]));
        }
        sorted_insert_attr_pair(&mut out, v[i]);
        i += 1;
    }
    proof {
        assert(v@.take(n as int) =~= v@);
    }
    out
}

/// Ordered insert skipping duplicates.
fn sorted_insert_inst(v: &mut Vec<EffectInstId>, x: EffectInstId)
    requires
        insts_asc(old(v)@),
    ensures
        insts_asc(final(v)@),
        forall|y: EffectInstId|
            #[trigger] final(v)@.contains(y) <==> (old(v)@.contains(y) || y == x),
{
    let n = v.len();
    let mut pos: usize = 0;
    while pos < n && v[pos].0 < x.0
        invariant
            n == v@.len(),
            pos <= n,
            forall|j: int| 0 <= j < pos ==> (#[trigger] v@[j]).0 < x.0,
        decreases n - pos,
    {
        pos += 1;
    }
    if pos < n && v[pos].0 == x.0 {
        proof {
            assert(v@[pos as int] == x);
            assert(v@.contains(x));
        }
        return ;
    }
    proof {
        assert(forall|j: int| pos <= j < n ==> x.0 < (#[trigger] v@[j]).0);
        if v@.contains(x) {
            let k = choose|k: int| 0 <= k < v@.len() && v@[k] == x;
            assert(false);
        }
    }
    let ghost o = v@;
    v.insert(pos, x);
    proof {
        let s = v@;
        assert(forall|j: int| 0 <= j < pos ==> #[trigger] s[j] == o[j]);
        assert(forall|j: int| pos < j < s.len() ==> #[trigger] s[j] == o[j - 1]);
        assert(s[pos as int] == x);
        assert forall|y: EffectInstId| #[trigger] s.contains(y) <==> (o.contains(y) || y == x) by {
            if s.contains(y) {
                let j = choose|j: int| 0 <= j < s.len() && s[j] == y;
                if j < pos {
                    assert(o[j] == y);
                } else if j > pos {
                    assert(o[j - 1] == y);
                }
            }
            if o.contains(y) {
                let j = choose|j: int| 0 <= j < o.len() && o[j] == y;
                if j < pos {
                    assert(s[j] == y);
                } else {
                    assert(s[j + 1] == y);
                }
            }
            if y == x {
                assert(s[pos as int] == y);
            }
        }
        assert forall|i: int, j: int| 0 <= i < j < s.len() implies (#[trigger] s[i]).0 < (
        #[trigger] s[j]).0 by {
            if i != pos && j != pos {
                let io: int = if i < pos { i } else { i - 1 };
                let jo: int = if j < pos { j } else { j - 1 };
                assert(s[i] == o[io] && s[j] == o[jo]);
            }
        }
    }
}

/// The sorted, duplicate-free list with the same members.
fn canon_insts(v: Vec<EffectInstId>) -> (r: Vec<EffectInstId>)
    ensures
        insts_asc(r@),
        forall|y: EffectInstId| #[trigger] r@.contains(y) <==> v@.contains(y),
{
    let n = v.len();
    let mut out: Vec<EffectInstId> = Vec::new();
    let mut i: usize = 0;
    while i < n
        invariant
            n == v@.len(),
            i <= n,
            insts_asc(out@),
            forall|y: EffectInstId| #[trigger] out@.contains(y) <==> v@.take(i as int).contains(y),
        decreases n - i,
    {
        proof {
            assert(v@.take(i + 1).drop_last() =~= v@.take(i as int));
            assert(v@.take(i + 1).last() == v@[i as int]);
            assert(forall|y: EffectInstId| #[trigger] v@.take(i + 1).contains(y) <==> (v@.take(
                i as int,
            ).contains(y) || y == v@[i as int]));
        }
        sorted_insert_inst(&mut out, v[i]);
        i += 1;
    }
    proof {
        assert(v@.take(n as int) =~= v@);
    }
    out
}

} // verus!
