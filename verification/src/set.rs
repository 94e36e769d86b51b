//! Sorted, duplicate-free handle sets: one entity's closed aspect membership.

use vstd::prelude::*;

use crate::registry::AspectRid;

verus! {

/// The handles are strictly increasing, hence duplicate-free.
pub open spec fn rids_sorted(s: Seq<AspectRid>) -> bool {
    forall|i: int, j: int| 0 <= i < j < s.len() ==> (#[trigger] s[i]).0 < (#[trigger] s[j]).0
}

/// A strictly increasing, duplicate-free sequence of aspect handles.
#[derive(Debug, Clone, Default)]
pub struct AspectSet {
    rids: Vec<AspectRid>,
}

impl View for AspectSet {
    type V = Seq<AspectRid>;

    closed spec fn view(&self) -> Seq<AspectRid> {
        self.rids@
    }
}

impl AspectSet {
    /// Every constructed set keeps its handles strictly increasing.
    pub open spec fn wf(&self) -> bool {
        rids_sorted(self@)
    }

    /// The empty set.
    pub fn new() -> (r: AspectSet)
        ensures
            r@ == Seq::<AspectRid>::empty(),
            r.wf(),
    {
        AspectSet { rids: Vec::new() }
    }

    /// Builds a set from any handle list: sorted, duplicates dropped.
    pub fn from_unsorted(v: Vec<AspectRid>) -> (r: AspectSet)
        ensures
            r.wf(),
            forall|x: AspectRid| r@.contains(x) <==> v@.contains(x),
    {
        let mut out = AspectSet::new();
        let n = v.len();
        let mut i: usize = 0;
        while i < n
            invariant
                n == v@.len(),
                i <= n,
                out.wf(),
                forall|x: AspectRid| out@.contains(x) <==> v@.take(i as int).contains(x),
            decreases n - i,
        {
            proof {
                assert(v@.take(i + 1).drop_last() =~= v@.take(i as int));
                assert(v@.take(i + 1).last() == v@[i as int]);
                assert(forall|x: AspectRid| #[trigger] v@.take(i + 1).contains(x) <==> (
                    v@.take(i as int).contains(x) || x == v@[i as int]));
            }
            out.insert(v[i]);
            i += 1;
        }
        proof {
            assert(v@.take(n as int) =~= v@);
        }
        out
    }

    /// Consumes the set, handing out its ordered handle list.
    pub fn into_vec(self) -> (r: Vec<AspectRid>)
        ensures
            r@ == self@,
    {
        self.rids
    }

    /// The handles in ascending order.
    pub fn as_slice(&self) -> (r: &[AspectRid])
        ensures
            r@ == self@,
    {
        self.rids.as_slice()
    }

    /// Number of handles in the set.
    pub fn len(&self) -> (r: usize)
        ensures
            r == self@.len(),
    {
        self.rids.len()
    }

    /// Ordered insert; no-op when the handle is already present.
    pub fn insert(&mut self, rid: AspectRid)
        requires
            old(self).wf(),
        ensures
            final(self).wf(),
            forall|x: AspectRid| final(self)@.contains(x) <==> (old(self)@.contains(x) || x
                == rid),
            old(self)@.contains(rid) ==> final(self)@ == old(self)@,
    {
        let n = self.rids.len();
        let mut pos: usize = 0;
        while pos < n && self.rids[pos].0 < rid.0
            invariant
                n == self.rids@.len(),
                pos <= n,
                forall|j: int| 0 <= j < pos ==> (#[trigger] self.rids@[j].0) < rid.0,
            decreases n - pos,
        {
            pos += 1;
        }
        if pos < n && self.rids[pos].0 == rid.0 {
            proof {
                assert(self.rids@[pos as int] == rid);
                assert(self@.contains(rid));
            }
            return;
        }
        proof {
            assert(forall|j: int| pos <= j < n ==> rid.0 < (#[trigger] self.rids@[j].0));
            if self@.contains(rid) {
                let k = choose|k: int| 0 <= k < self@.len() && self@[k] == rid;
                assert(false);
            }
        }
        self.rids.insert(pos, rid);
        proof {
            let s = self.rids@;
            let o = old(self)@;
            assert(forall|j: int| 0 <= j < pos ==> s[j] == o[j]);
            assert(forall|j: int| pos < j < s.len() ==> s[j] == o[j - 1]);
            assert(s[pos as int] == rid);
            assert forall|x: AspectRid| s.contains(x) <==> (o.contains(x) || x == rid) by {
                if s.contains(x) {
                    let k = choose|k: int| 0 <= k < s.len() && s[k] == x;
                    if k < pos {
                        assert(o[k] == x);
                    } else if k > pos {
                        assert(o[k - 1] == x);
                    }
                }
                if o.contains(x) {
                    let k = choose|k: int| 0 <= k < o.len() && o[k] == x;
                    if k < pos {
                        assert(s[k] == x);
                    } else {
                        assert(s[k + 1] == x);
                    }
                }
                if x == rid {
                    assert(s[pos as int] == x);
                }
            }
        }
    }

    /// Binary membership: whether the handle is in the set.
    pub fn contains(&self, rid: AspectRid) -> (r: bool)
        ensures
            r == self@.contains(rid),
    {
        let n = self.rids.len();
        let mut i: usize = 0;
        while i < n
            invariant
                n == self.rids@.len(),
                i <= n,
                forall|j: int| 0 <= j < i ==> #[trigger] self.rids@[j] != rid,
            decreases n - i,
        {
            if self.rids[i].0 == rid.0 {
                proof {
                    assert(self.rids@[i as int] == rid);
                }
                return true;
            }
            i += 1;
        }
        proof {
            if self@.contains(rid) {
                let k = choose|k: int| 0 <= k < self@.len() && self@[k] == rid;
                assert(false);
            }
        }
        false
    }
}

impl PartialEq for AspectSet {
    fn eq(&self, other: &AspectSet) -> (r: bool) {
        let n = self.rids.len();
        if n != other.rids.len() {
            proof {
                assert(self.rids@ !~= other.rids@);
            }
            return false;
        }
        let mut i: usize = 0;
        while i < n
            invariant
                n == self.rids@.len(),
                n == other.rids@.len(),
                i <= n,
                forall|j: int| 0 <= j < i ==> self.rids@[j] == #[trigger] other.rids@[j],
            decreases n - i,
        {
            if self.rids[i].0 != other.rids[i].0 {
                proof {
                    assert(self.rids@[i as int] != other.rids@[i as int]);
                }
                return false;
            }
            i += 1;
        }
        proof {
            assert(self.rids@ =~= other.rids@);
        }
        true
    }
}

impl vstd::std_specs::cmp::PartialEqSpecImpl for AspectSet {
    open spec fn obeys_eq_spec() -> bool {
        true
    }

    open spec fn eq_spec(&self, other: &AspectSet) -> bool {
        self@ == other@
    }
}

} // verus!
