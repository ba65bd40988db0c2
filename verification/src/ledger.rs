//! The redemption ledger: the set of user identifiers that have already
//! received a giftcard. Redemption is permanent; the ledger only grows.
//! The in-memory representation is a strictly ascending vector, so the
//! persisted form of a given set is unique.

use vstd::prelude::*;

verus! {

/// Strictly ascending order: sorted and free of duplicates.
pub open spec fn sorted_strict(s: Seq<i64>) -> bool {
    forall|i: int, j: int| 0 <= i < j < s.len() ==> s[i] < s[j]
}

/// The set of users that have redeemed a giftcard.
pub struct RedemptionLedger {
    ids: Vec<i64>,
}

impl View for RedemptionLedger {
    type V = Set<i64>;

    closed spec fn view(&self) -> Set<i64> {
        self.ids@.to_set()
    }
}

/// Inserts `user_id` into a strictly ascending vector, keeping the order;
/// a user already present is left alone.
fn insert_sorted(ids: &mut Vec<i64>, user_id: i64)
    requires
        sorted_strict(old(ids)@),
    ensures
        sorted_strict(final(ids)@),
        final(ids)@.to_set() == old(ids)@.to_set().insert(user_id),
        final(ids)@.len() == old(ids)@.len()
            + (if old(ids)@.to_set().contains(user_id) { 0int } else { 1int }),
{
    broadcast use vstd::set::group_set_axioms;

    let mut pos: usize = 0;
    while pos < ids.len() && ids[pos] < user_id
        invariant
            pos <= ids@.len(),
            sorted_strict(ids@),
            forall|k: int| 0 <= k < pos ==> ids@[k] < user_id,
        decreases ids@.len() - pos,
    {
        pos += 1;
    }
    if pos < ids.len() && ids[pos] == user_id {
        proof {
            assert(ids@.contains(user_id));
            assert(ids@.to_set() =~= ids@.to_set().insert(user_id));
        }
        return;
    }
    proof {
        assert(forall|k: int| pos <= k < ids@.len() ==> user_id < #[trigger] ids@[k]);
        assert(!ids@.contains(user_id)) by {
            if ids@.contains(user_id) {
                let w = choose|w: int| 0 <= w < ids@.len() && ids@[w] == user_id;
                assert(ids@[w] == user_id);
            }
        }
    }
    let ghost before = ids@;
    ids.insert(pos, user_id);
    proof {
        let s = ids@;
        assert(sorted_strict(s)) by {
            assert forall|i: int, j: int| 0 <= i < j < s.len() implies s[i] < s[j] by {
                if j < pos {
                } else if i < pos && j == pos {
                } else if i == pos {
                    assert(s[j] == before[j - 1]);
                } else if i < pos {
                    assert(s[j] == before[j - 1]);
                } else {
                    assert(s[i] == before[i - 1]);
                    assert(s[j] == before[j - 1]);
                }
            }
        }
        assert(s.to_set() =~= before.to_set().insert(user_id)) by {
            assert forall|x: i64| s.to_set().contains(x)
                implies before.to_set().insert(user_id).contains(x) by {
                let w = choose|w: int| 0 <= w < s.len() && s[w] == x;
                if w < pos {
                    assert(before[w] == x);
                } else if w == pos {
                } else {
                    assert(before[w - 1] == x);
                }
            }
            assert forall|x: i64| before.to_set().insert(user_id).contains(x)
                implies s.to_set().contains(x) by {
                if x == user_id {
                    assert(s[pos as int] == x);
                } else {
                    let w = choose|w: int| 0 <= w < before.len() && before[w] == x;
                    if w < pos {
                        assert(s[w] == x);
                    } else {
                        assert(s[w + 1] == x);
                    }
                }
            }
        }
        before.unique_seq_to_set();
        s.unique_seq_to_set();
    }
}

impl RedemptionLedger {
    /// Well-formed: the backing vector is strictly ascending.
    pub closed spec fn wf(&self) -> bool {
        sorted_strict(self.ids@)
    }

    /// A fresh ledger: nobody has redeemed anything.
    pub fn new() -> (r: Self)
        ensures
            r.wf(),
            r@ == Set::<i64>::empty(),
    {
        let r = RedemptionLedger { ids: Vec::new() };
        proof {
            assert(r@ =~= Set::<i64>::empty());
        }
        r
    }

    /// Rebuilds a ledger from a list of identifiers as loaded from storage:
    /// order is irrelevant and duplicates collapse.
    pub fn from_ids(ids: &Vec<i64>) -> (r: Self)
        ensures
            r.wf(),
            r@ == ids@.to_set(),
    {
        broadcast use vstd::set::group_set_axioms;

        let mut r = Self::new();
        let mut i: usize = 0;
        while i < ids.len()
            invariant
                i <= ids@.len(),
                r.wf(),
                r@ == ids@.take(i as int).to_set(),
            decreases ids@.len() - i,
        {
            let ghost prefix = ids@.take(i as int);
            r.mark_redeemed(ids[i]);
            proof {
                assert(ids@.take(i + 1) =~= prefix.push(ids@[i as int]));
                assert(prefix.push(ids@[i as int]).to_set()
                    =~= prefix.to_set().insert(ids@[i as int])) by {
                    prefix.lemma_push_to_set_commute(ids@[i as int]);
                }
            }
            i += 1;
        }
        proof {
            assert(ids@.take(ids@.len() as int) =~= ids@);
        }
        r
    }

    /// Pure lookup: has this user already redeemed a giftcard?
    pub fn is_redeemed(&self, user_id: i64) -> (r: bool)
        ensures
            r == self@.contains(user_id),
    {
        broadcast use vstd::set::group_set_axioms;

        let mut i: usize = 0;
        while i < self.ids.len()
            invariant
                i <= self.ids@.len(),
                forall|k: int| 0 <= k < i ==> self.ids@[k] != user_id,
            decreases self.ids@.len() - i,
        {
            if self.ids[i] == user_id {
                proof {
                    assert(self.ids@.contains(user_id));
                }
                return true;
            }
            i += 1;
        }
        proof {
            assert(!self.ids@.contains(user_id)) by {
                if self.ids@.contains(user_id) {
                    let w = choose|w: int| 0 <= w < self.ids@.len() && self.ids@[w] == user_id;
                    assert(self.ids@[w] == user_id);
                }
            }
        }
        false
    }

    /// Records a redemption in memory. The set only ever grows: the new
    /// ledger holds exactly the old users plus `user_id`.
    pub fn mark_redeemed(&mut self, user_id: i64)
        requires
            old(self).wf(),
        ensures
            final(self).wf(),
            final(self)@ == old(self)@.insert(user_id),
            final(self)@.len() == old(self)@.len()
                + (if old(self)@.contains(user_id) { 0int } else { 1int }),
    {
        insert_sorted(&mut self.ids, user_id);
        proof {
            self.ids@.unique_seq_to_set();
        }
    }

    /// How many users have redeemed a giftcard.
    pub fn count(&self) -> (r: usize)
        requires
            self.wf(),
        ensures
            r == self@.len(),
    {
        proof {
            self.ids@.unique_seq_to_set();
        }
        self.ids.len()
    }

    /// The ledger's contents as a strictly ascending vector: the unique
    /// canonical order in which the set is persisted.
    pub fn sorted_ids(&self) -> (r: Vec<i64>)
        requires
            self.wf(),
        ensures
            sorted_strict(r@),
            r@.to_set() == self@,
    {
        let mut r: Vec<i64> = Vec::new();
        let mut i: usize = 0;
        while i < self.ids.len()
            invariant
                i <= self.ids@.len(),
                r@ == self.ids@.take(i as int),
            decreases self.ids@.len() - i,
        {
            r.push(self.ids[i]);
            proof {
                assert(r@ =~= self.ids@.take(i + 1));
            }
            i += 1;
        }
        proof {
            assert(r@ =~= self.ids@);
        }
        r
    }

    /// The ascending vector the ledger would persist after marking
    /// `user_id` redeemed, computed without touching the ledger itself:
    /// the caller makes those bytes durable first and marks the ledger
    /// only once that has succeeded.
    pub fn marked_ids(&self, user_id: i64) -> (r: Vec<i64>)
        requires
            self.wf(),
        ensures
            sorted_strict(r@),
            r@.to_set() == self@.insert(user_id),
    {
        let mut r = self.sorted_ids();
        insert_sorted(&mut r, user_id);
        r
    }
}

/// The set that results from serialized `markRedeemed` calls for each
/// identifier in `ids`, in that order, starting from `init`.
pub open spec fn marks_applied(init: Set<i64>, ids: Seq<i64>) -> Set<i64>
    decreases ids.len(),
{
    if ids.len() == 0 {
        init
    } else {
        marks_applied(init, ids.drop_last()).insert(ids.last())
    }
}

/// Law: however many `markRedeemed` calls run, in whatever order the
/// writer lock serializes them, the final set is the union of the initial
/// set and all marked identifiers — no update is lost.
pub proof fn lemma_marks_accumulate(init: Set<i64>, ids: Seq<i64>)
    ensures
        marks_applied(init, ids) == init.union(ids.to_set()),
    decreases ids.len(),
{
    broadcast use vstd::set::group_set_axioms;

    if ids.len() == 0 {
        assert(marks_applied(init, ids) =~= init.union(ids.to_set()));
    } else {
        lemma_marks_accumulate(init, ids.drop_last());
        assert(ids.drop_last().push(ids.last()) =~= ids);
        ids.drop_last().lemma_push_to_set_commute(ids.last());
        assert(init.union(ids.drop_last().to_set()).insert(ids.last())
            =~= init.union(ids.to_set()));
    }
}

/// Law: a redeemed user stays redeemed through any further sequence of
/// `markRedeemed` calls.
pub proof fn lemma_redemption_permanent(init: Set<i64>, ids: Seq<i64>, user: i64)
    requires
        init.contains(user),
    ensures
        marks_applied(init, ids).contains(user),
{
    broadcast use vstd::set::group_set_axioms;

    lemma_marks_accumulate(init, ids);
}

/// Law: marking n distinct, previously unredeemed users raises the count
/// by exactly n.
pub proof fn lemma_count_after_marks(init: Set<i64>, ids: Seq<i64>)
    requires
        init.finite(),
        ids.no_duplicates(),
        forall|k: int| 0 <= k < ids.len() ==> !init.contains(#[trigger] ids[k]),
    ensures
        marks_applied(init, ids).finite(),
        marks_applied(init, ids).len() == init.len() + ids.len(),
    decreases ids.len(),
{
    broadcast use vstd::set::group_set_axioms;

    if ids.len() > 0 {
        let rest = ids.drop_last();
        let last = ids.last();
        lemma_count_after_marks(init, rest);
        lemma_marks_accumulate(init, rest);
        assert(!rest.to_set().contains(last)) by {
            if rest.to_set().contains(last) {
                let w = choose|w: int| 0 <= w < rest.len() && rest[w] == last;
                assert(ids[w] == ids[ids.len() - 1]);
            }
        }
        assert(!marks_applied(init, rest).contains(last));
    }
}

/// Law: a set has exactly one strictly ascending listing, so the bytes
/// the ledger persists are a function of its contents alone.
pub proof fn lemma_sorted_listing_unique(a: Seq<i64>, b: Seq<i64>)
    requires
        sorted_strict(a),
        sorted_strict(b),
        a.to_set() == b.to_set(),
    ensures
        a == b,
    decreases a.len(),
{
    broadcast use vstd::set::group_set_axioms;

    if a.len() == 0 {
        if b.len() > 0 {
            assert(b.to_set().contains(b[0]));
            assert(a.contains(b[0]));
        }
        assert(a =~= b);
    } else {
        assert(a.to_set().contains(a.last()));
        assert(b.to_set().contains(a.last()));
        if b.len() == 0 {
            assert(!b.contains(a.last()));
            assert(false);
        }
        // The largest element of each listing is its last element,
        // and the two sets share their largest element.
        assert(a.last() <= b.last()) by {
            let w = choose|w: int| 0 <= w < b.len() && b[w] == a.last();
            if w < b.len() - 1 {
                assert(b[w] < b[b.len() - 1]);
            }
        }
        assert(b.to_set().contains(b.last()));
        assert(a.to_set().contains(b.last()));
        assert(b.last() <= a.last()) by {
            let w = choose|w: int| 0 <= w < a.len() && a[w] == b.last();
            if w < a.len() - 1 {
                assert(a[w] < a[a.len() - 1]);
            }
        }
        assert(a.last() == b.last());
        assert(a.drop_last().to_set() =~= b.drop_last().to_set()) by {
            assert forall|x: i64| a.drop_last().to_set().contains(x)
                implies b.drop_last().to_set().contains(x) by {
                let w = choose|w: int| 0 <= w < a.len() - 1 && a.drop_last()[w] == x;
                assert(a[w] == x && a[w] < a.last());
                assert(b.to_set().contains(x));
                let u = choose|u: int| 0 <= u < b.len() && b[u] == x;
                assert(u < b.len() - 1) by {
                    if u == b.len() - 1 {
                        assert(x == b.last());
                    }
                }
                assert(b.drop_last()[u] == x);
            }
            assert forall|x: i64| b.drop_last().to_set().contains(x)
                implies a.drop_last().to_set().contains(x) by {
                let w = choose|w: int| 0 <= w < b.len() - 1 && b.drop_last()[w] == x;
                assert(b[w] == x && b[w] < b.last());
                assert(a.to_set().contains(x));
                let u = choose|u: int| 0 <= u < a.len() && a[u] == x;
                assert(u < a.len() - 1) by {
                    if u == a.len() - 1 {
                        assert(x == a.last());
                    }
                }
                assert(a.drop_last()[u] == x);
            }
        }
        lemma_sorted_listing_unique(a.drop_last(), b.drop_last());
        assert(a =~= b) by {
            assert(a == a.drop_last().push(a.last()));
            assert(b == b.drop_last().push(b.last()));
        }
    }
}

} // verus!
