//! Boolean aspect predicates over one entity's closed aspect set.

use vstd::prelude::*;

use crate::registry::AspectRid;
use crate::set::{rids_sorted, AspectSet};

verus! {

/// What a query means on a membership sequence: every `all_of` member is
/// present, no `none_of` member is present, and `any_of` is empty or at
/// least one of its members is present.
pub open spec fn query_matches(
    all_of: Seq<AspectRid>,
    any_of: Seq<AspectRid>,
    none_of: Seq<AspectRid>,
    s: Seq<AspectRid>,
) -> bool {
    &&& forall|i: int| 0 <= i < all_of.len() ==> s.contains(#[trigger] all_of[i])
    &&& forall|i: int| 0 <= i < none_of.len() ==> !s.contains(#[trigger] none_of[i])
    &&& (any_of.len() == 0 || exists|i: int| 0 <= i < any_of.len() && s.contains(
        #[trigger] any_of[i]))
}

/// A boolean predicate over aspect sets: all of / any of / none of.
#[derive(Debug, Clone, Default)]
pub struct AspectQuery {
    pub all_of: Vec<AspectRid>,
    pub any_of: Vec<AspectRid>,
    pub none_of: Vec<AspectRid>,
}

impl AspectQuery {
    /// Sorts and deduplicates each handle list; the predicate the query
    /// denotes is unchanged.
    pub fn normalize(self) -> (r: AspectQuery)
        ensures
            rids_sorted(r.all_of@) && rids_sorted(r.any_of@) && rids_sorted(r.none_of@),
            forall|x: AspectRid| r.all_of@.contains(x) <==> self.all_of@.contains(x),
            forall|x: AspectRid| r.any_of@.contains(x) <==> self.any_of@.contains(x),
            forall|x: AspectRid| r.none_of@.contains(x) <==> self.none_of@.contains(x),
            forall|s: Seq<AspectRid>|
                query_matches(r.all_of@, r.any_of@, r.none_of@, s) == #[trigger] query_matches(
                    self.all_of@, self.any_of@, self.none_of@, s),
    {
        let all_of = sort_dedup_rids(self.all_of);
        let any_of = sort_dedup_rids(self.any_of);
        let none_of = sort_dedup_rids(self.none_of);
        let r = AspectQuery { all_of, any_of, none_of };
        proof {
            assert forall|s: Seq<AspectRid>|
                query_matches(r.all_of@, r.any_of@, r.none_of@, s) == #[trigger] query_matches(
                    self.all_of@, self.any_of@, self.none_of@, s) by {
                lemma_same_members_same_meaning(r.all_of@, self.all_of@, r.any_of@, self.any_of@,
                    r.none_of@, self.none_of@, s);
            }
        }
        r
    }

    /// Evaluates the predicate on a closed aspect set.
    pub fn matches(&self, aspects: &AspectSet) -> (r: bool)
        ensures
            r == query_matches(self.all_of@, self.any_of@, self.none_of@, aspects@),
    {
        let mut i: usize = 0;
        let na = self.all_of.len();
        while i < na
            invariant
                na == self.all_of@.len(),
                i <= na,
                forall|j: int| 0 <= j < i ==> aspects@.contains(#[trigger] self.all_of@[j]),
            decreases na - i,
        {
            if !aspects.contains(self.all_of[i]) {
                return false;
            }
            i += 1;
        }
        let nn = self.none_of.len();
        let mut i: usize = 0;
        while i < nn
            invariant
                nn == self.none_of@.len(),
                i <= nn,
                forall|j: int| 0 <= j < i ==> !aspects@.contains(#[trigger] self.none_of@[j]),
                forall|j: int| 0 <= j < self.all_of@.len() ==> aspects@.contains(
                    #[trigger] self.all_of@[j]),
            decreases nn - i,
        {
            if aspects.contains(self.none_of[i]) {
                return false;
            }
            i += 1;
        }
        let ny = self.any_of.len();
        if ny == 0 {
            return true;
        }
        let mut i: usize = 0;
        while i < ny
            invariant
                ny == self.any_of@.len(),
                i <= ny,
                forall|j: int| 0 <= j < i ==> !aspects@.contains(#[trigger] self.any_of@[j]),
                forall|j: int| 0 <= j < self.all_of@.len() ==> aspects@.contains(
                    #[trigger] self.all_of@[j]),
                forall|j: int| 0 <= j < self.none_of@.len() ==> !aspects@.contains(
                    #[trigger] self.none_of@[j]),
            decreases ny - i,
        {
            if aspects.contains(self.any_of[i]) {
                return true;
            }
            i += 1;
        }
        false
    }
}

/// Lists with the same members denote the same predicate.
proof fn lemma_same_members_same_meaning(
    all1: Seq<AspectRid>,
    all2: Seq<AspectRid>,
    any1: Seq<AspectRid>,
    any2: Seq<AspectRid>,
    none1: Seq<AspectRid>,
    none2: Seq<AspectRid>,
    s: Seq<AspectRid>,
)
    requires
        forall|x: AspectRid| all1.contains(x) <==> all2.contains(x),
        forall|x: AspectRid| any1.contains(x) <==> any2.contains(x),
        forall|x: AspectRid| none1.contains(x) <==> none2.contains(x),
        any1.len() == 0 <==> any2.len() == 0,
    ensures
        query_matches(all1, any1, none1, s) == query_matches(all2, any2, none2, s),
{
    assert forall|i: int| 0 <= i < all1.len() && query_matches(all2, any2, none2, s)
        implies s.contains(#[trigger] all1[i]) by {
        assert(all2.contains(all1[i]));
        let k = choose|k: int| 0 <= k < all2.len() && all2[k] == all1[i];
        assert(s.contains(all2[k]));
    }
    assert forall|i: int| 0 <= i < all2.len() && query_matches(all1, any1, none1, s)
        implies s.contains(#[trigger] all2[i]) by {
        assert(all1.contains(all2[i]));
        let k = choose|k: int| 0 <= k < all1.len() && all1[k] == all2[i];
        assert(s.contains(all1[k]));
    }
    assert forall|i: int| 0 <= i < none1.len() && query_matches(all2, any2, none2, s)
        implies !s.contains(#[trigger] none1[i]) by {
        assert(none2.contains(none1[i]));
        let k = choose|k: int| 0 <= k < none2.len() && none2[k] == none1[i];
        assert(!s.contains(none2[k]));
    }
    assert forall|i: int| 0 <= i < none2.len() && query_matches(all1, any1, none1, s)
        implies !s.contains(#[trigger] none2[i]) by {
        assert(none1.contains(none2[i]));
        let k = choose|k: int| 0 <= k < none1.len() && none1[k] == none2[i];
        assert(!s.contains(none1[k]));
    }
    if any1.len() > 0 && any2.len() > 0 {
        if exists|i: int| 0 <= i < any1.len() && s.contains(#[trigger] any1[i]) {
            let i = choose|i: int| 0 <= i < any1.len() && s.contains(#[trigger] any1[i]);
            assert(any2.contains(any1[i]));
            let k = choose|k: int| 0 <= k < any2.len() && any2[k] == any1[i];
            assert(s.contains(any2[k]));
        }
        if exists|i: int| 0 <= i < any2.len() && s.contains(#[trigger] any2[i]) {
            let i = choose|i: int| 0 <= i < any2.len() && s.contains(#[trigger] any2[i]);
            assert(any1.contains(any2[i]));
            let k = choose|k: int| 0 <= k < any1.len() && any1[k] == any2[i];
            assert(s.contains(any1[k]));
        }
    }
}

/// Sorts a handle list ascending and drops duplicates.
pub fn sort_dedup_rids(v: Vec<AspectRid>) -> (r: Vec<AspectRid>)
    ensures
        rids_sorted(r@),
        forall|x: AspectRid| r@.contains(x) <==> v@.contains(x),
        r@.len() == 0 <==> v@.len() == 0,
{
    let mut out = AspectSet::new();
    let n = v.len();
    let mut i: usize = 0;
    while i < n
        invariant
            n == v@.len(),
            i <= n,
            out.wf(),
            forall|x: AspectRid| out@.contains(x) <==> v@.take(i as int).contains(x),
            i > 0 ==> out@.len() > 0,
        decreases n - i,
    {
        proof {
            assert(v@.take(i + 1).drop_last() =~= v@.take(i as int));
            assert(v@.take(i + 1).last() == v@[i as int]);
            assert(forall|x: AspectRid| #[trigger] v@.take(i + 1).contains(x) <==> (
                v@.take(i as int).contains(x) || x == v@[i as int]));
        }
        out.insert(v[i]);
        proof {
            assert(out@.contains(v@[i as int]));
        }
        i += 1;
    }
    proof {
        assert(v@.take(n as int) =~= v@);
        if n > 0 {
            assert(out@.len() > 0);
        }
        if out@.len() > 0 {
            assert(out@.contains(out@[0]));
            assert(v@.contains(out@[0]));
        }
    }
    out.into_vec()
}

} // verus!
