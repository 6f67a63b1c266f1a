//! An append-only, deduplicating arena. Each distinct key is stored once, in a
//! slot that never moves; a handle is the slot's index.
use vstd::prelude::*;
use core::cmp::Ordering;
use crate::order::{lex_cmp, lex_lt, lemma_lex_irreflexive, lemma_lex_transitive, lemma_lex_total};

verus! {

/// A handle to a value stored in an arena. Two handles from the same arena
/// are equal exactly when they name the same slot, which for an arena means
/// the same content.
#[derive(Clone, Copy, Debug, PartialEq, Eq, Hash, Structural)]
pub struct Interned {
    index: usize,
}

impl Interned {
    /// The slot this handle names.
    pub closed spec fn slot(&self) -> nat {
        self.index as nat
    }

    /// Handles that name the same slot are the same handle.
    pub proof fn lemma_slot_injective(a: Self, b: Self)
        requires
            a.slot() == b.slot(),
        ensures
            a == b,
    {
    }

    /// The slot this handle names, as a number.
    pub fn index(&self) -> (r: usize)
        ensures
            r == self.slot(),
    {
        self.index
    }

    /// The value this handle names in `arena`.
    pub fn as_ref<T: Internable>(p: Self, arena: &Interner<T>) -> (r: &T)
        requires
            p.slot() < arena.items().len(),
        ensures
            *r == arena.items()[p.slot() as int],
    {
        arena.get(p)
    }
}

/// What a value needs to be kept in an arena. Values are ordered and
/// deduplicated by a key. Callers offer a candidate of type `External`; the
/// arena looks its key up by comparing stored values with the candidate, and
/// builds the value to store from it only when the key is new.
pub trait Internable: Sized {
    type External: ?Sized;

    spec fn key(&self) -> Seq<int>;

    /// The key of a candidate.
    spec fn external_key(e: &Self::External) -> Seq<int>;

    /// Whether a value can be stored for candidate `e`.
    spec fn admits(e: &Self::External) -> bool;

    fn compare(&self, other: &Self) -> (r: Ordering)
        ensures
            r == lex_cmp(self.key(), other.key()),
    ;

    fn compare_external(&self, e: &Self::External) -> (r: Ordering)
        ensures
            r == lex_cmp(self.key(), Self::external_key(e)),
    ;

    fn from_external(e: &Self::External) -> (r: Self)
        requires
            Self::admits(e),
        ensures
            r.key() == Self::external_key(e),
    ;
}

/// Some item of `items` has key `k`.
pub open spec fn has_key<T: Internable>(items: Seq<T>, k: Seq<int>) -> bool {
    exists|i: int| 0 <= i < items.len() && #[trigger] items[i].key() == k
}

/// No two items share a key.
pub open spec fn distinct_keys<T: Internable>(items: Seq<T>) -> bool {
    forall|i: int, j: int|
        0 <= i < items.len() && 0 <= j < items.len() && i != j ==> #[trigger] items[i].key()
            != #[trigger] items[j].key()
}

/// `after` is what an arena holding `before` holds once key `k` is interned:
/// the same if `k` was there, else one more slot at the end, with key `k`.
pub open spec fn interned<T: Internable>(before: Seq<T>, after: Seq<T>, k: Seq<int>) -> bool {
    if has_key(before, k) {
        after == before
    } else {
        after.len() == before.len() + 1 && after.drop_last() == before && after.last().key() == k
    }
}

/// Slot `s` appears somewhere in `order`.
pub open spec fn lists(order: Seq<usize>, s: int) -> bool {
    exists|i: int| 0 <= i < order.len() && #[trigger] order[i] == s
}

/// The arena. `slots` only ever grows; `order` lists the slots sorted by key.
pub struct Interner<T> {
    slots: Vec<T>,
    order: Vec<usize>,
}

impl<T: Internable> Interner<T> {
    /// The stored values, by slot.
    pub closed spec fn items(&self) -> Seq<T> {
        self.slots@
    }

    /// The slots in the arena's internal order.
    pub closed spec fn sorted(&self) -> Seq<usize> {
        self.order@
    }

    /// The key of the slot at position `i` of the internal order.
    spec fn key_at(&self, i: int) -> Seq<int> {
        self.slots@[self.order@[i] as int].key()
    }

    /// `order` lists every slot exactly once, sorted strictly by key.
    pub closed spec fn wf(&self) -> bool {
        &&& self.order@.len() == self.slots@.len()
        &&& forall|i: int| 0 <= i < self.order@.len() ==> #[trigger] self.order@[i] < self.slots@.len()
        &&& forall|s: int| 0 <= s < self.slots@.len() ==> #[trigger] lists(self.order@, s)
        &&& forall|i: int, j: int|
            0 <= i < j < self.order@.len() ==> lex_lt(#[trigger] self.key_at(i), #[trigger] self.key_at(j))
    }

    /// What a well-formed arena guarantees: its internal order lists every
    /// slot once, strictly increasing by key, and no two slots share a key.
    pub proof fn lemma_sorted(&self)
        requires
            self.wf(),
        ensures
            self.sorted().len() == self.items().len(),
            forall|i: int| 0 <= i < self.sorted().len() ==> #[trigger] self.sorted()[i] < self.items().len(),
            forall|s: int| 0 <= s < self.items().len() ==> #[trigger] lists(self.sorted(), s),
            forall|i: int, j: int|
                0 <= i < j < self.sorted().len() ==> lex_lt(
                    #[trigger] self.items()[self.sorted()[i] as int].key(),
                    #[trigger] self.items()[self.sorted()[j] as int].key(),
                ),
            distinct_keys(self.items()),
    {
        assert forall|i: int, j: int|
            0 <= i < j < self.sorted().len() implies lex_lt(
            #[trigger] self.items()[self.sorted()[i] as int].key(),
            #[trigger] self.items()[self.sorted()[j] as int].key(),
        ) by {
            assert(lex_lt(self.key_at(i), self.key_at(j)));
        }
        self.lemma_distinct();
    }

    proof fn lemma_distinct(&self)
        requires
            self.wf(),
        ensures
            distinct_keys(self.items()),
    {
        assert forall|a: int, b: int|
            0 <= a < self.items().len() && 0 <= b < self.items().len() && a != b implies #[trigger] self.items()[a].key()
            != #[trigger] self.items()[b].key() by {
            assert(lists(self.order@, a) && lists(self.order@, b));
            let i = choose|i: int| 0 <= i < self.order@.len() && #[trigger] self.order@[i] == a;
            let j = choose|j: int| 0 <= j < self.order@.len() && #[trigger] self.order@[j] == b;
            if i < j {
                assert(lex_lt(self.key_at(i), self.key_at(j)));
                lemma_lex_irreflexive(self.key_at(i));
            } else {
                assert(lex_lt(self.key_at(j), self.key_at(i)));
                lemma_lex_irreflexive(self.key_at(i));
            }
        }
    }

    /// An empty arena.
    pub fn new() -> (r: Self)
        ensures
            r.wf(),
            r.items() == Seq::<T>::empty(),
    {
        Interner { slots: Vec::new(), order: Vec::new() }
    }

    /// The number of stored values.
    pub fn len(&self) -> (r: usize)
        ensures
            r == self.items().len(),
    {
        self.slots.len()
    }

    /// The value in the slot that `h` names.
    pub fn get(&self, h: Interned) -> (r: &T)
        requires
            h.slot() < self.items().len(),
        ensures
            *r == self.items()[h.slot() as int],
    {
        &self.slots[h.index]
    }

    /// Interns the candidate `element`: returns the handle of the slot whose
    /// key equals the candidate's, first storing a value built from the
    /// candidate in a new slot if there is none. Earlier slots are never
    /// moved or changed.
    pub fn add_element(&mut self, element: &T::External) -> (h: Interned)
        requires
            old(self).wf(),
            T::admits(element),
        ensures
            final(self).wf(),
            interned(old(self).items(), final(self).items(), T::external_key(element)),
            h.slot() < final(self).items().len(),
            final(self).items()[h.slot() as int].key() == T::external_key(element),
    {
        let ghost k = T::external_key(element);
        let n = self.slots.len();
        let mut lo: usize = 0;
        let mut hi: usize = n;
        while lo < hi
            invariant
                self.wf(),
                n == self.slots@.len(),
                k == T::external_key(element),
                lo <= hi <= n,
                forall|i: int| 0 <= i < lo ==> lex_lt(#[trigger] self.key_at(i), k),
                forall|i: int| hi <= i < n ==> lex_lt(k, #[trigger] self.key_at(i)),
            decreases hi - lo,
        {
            let mid = lo + (hi - lo) / 2;
            let slot = self.order[mid];
            let c = self.slots[slot].compare_external(element);
            match c {
                Ordering::Equal => {
                    let h = Interned { index: slot };
                    proof {
                        self.lemma_found(h, k);
                    }
                    return h;
                },
                Ordering::Less => {
                    assert forall|i: int| 0 <= i < mid + 1 implies lex_lt(#[trigger] self.key_at(i), k) by {
                        if i < mid {
                            lemma_lex_transitive(self.key_at(i), self.key_at(mid as int), k);
                        }
                    }
                    lo = mid + 1;
                },
                Ordering::Greater => {
                    proof {
                        lemma_lex_total(self.key_at(mid as int), k);
                    }
                    assert forall|i: int| mid <= i < n implies lex_lt(k, #[trigger] self.key_at(i)) by {
                        if i > mid {
                            lemma_lex_transitive(k, self.key_at(mid as int), self.key_at(i));
                        }
                    }
                    hi = mid;
                },
            }
        }
        proof {
            self.lemma_absent(k, lo as int);
        }
        let value = T::from_external(element);
        let ghost prev = *self;
        self.slots.push(value);
        self.order.insert(lo, n);
        let h = Interned { index: n };
        proof {
            self.lemma_inserted(prev, value, lo as int, n);
        }
        h
    }

    proof fn lemma_found(&self, h: Interned, k: Seq<int>)
        requires
            self.wf(),
            h.slot() < self.items().len(),
            self.items()[h.slot() as int].key() == k,
        ensures
            has_key(self.items(), k),
    {
    }

    proof fn lemma_absent(&self, k: Seq<int>, lo: int)
        requires
            self.wf(),
            0 <= lo <= self.order@.len(),
            forall|i: int| 0 <= i < lo ==> lex_lt(#[trigger] self.key_at(i), k),
            forall|i: int| lo <= i < self.order@.len() ==> lex_lt(k, #[trigger] self.key_at(i)),
        ensures
            !has_key(self.items(), k),
    {
        if has_key(self.items(), k) {
            let s = choose|s: int| 0 <= s < self.items().len() && #[trigger] self.items()[s].key() == k;
            assert(lists(self.order@, s));
            let i = choose|i: int| 0 <= i < self.order@.len() && #[trigger] self.order@[i] == s;
            assert(self.key_at(i) == k);
            lemma_lex_irreflexive(k);
        }
    }

    proof fn lemma_inserted(&self, prev: Self, value: T, lo: int, n: usize)
        requires
            prev.wf(),
            n == prev.slots@.len(),
            0 <= lo <= n,
            forall|i: int| 0 <= i < lo ==> lex_lt(#[trigger] prev.key_at(i), value.key()),
            forall|i: int| lo <= i < n ==> lex_lt(value.key(), #[trigger] prev.key_at(i)),
            !has_key(prev.items(), value.key()),
            self.slots@ == prev.slots@.push(value),
            self.order@ == prev.order@.insert(lo, n),
        ensures
            self.wf(),
            interned(prev.items(), self.items(), value.key()),
            self.items()[n as int].key() == value.key(),
    {
        let k = value.key();
        assert(self.key_at(lo) == k);
        assert forall|i: int| 0 <= i < lo implies #[trigger] self.key_at(i) == prev.key_at(i) by {
            assert(self.order@[i] == prev.order@[i]);
        }
        assert forall|i: int| lo < i <= n implies #[trigger] self.key_at(i) == prev.key_at(i - 1) by {
            assert(self.order@[i] == prev.order@[i - 1]);
        }
        assert forall|i: int| 0 <= i < self.order@.len() implies #[trigger] self.order@[i] < self.slots@.len() by {
            if i > lo {
                assert(self.order@[i] == prev.order@[i - 1]);
            }
        }
        assert forall|s: int| 0 <= s < self.slots@.len() implies #[trigger] lists(self.order@, s) by {
            if s == n {
                assert(self.order@[lo] == s);
            } else {
                assert(lists(prev.order@, s));
                let i = choose|i: int| 0 <= i < prev.order@.len() && #[trigger] prev.order@[i] == s;
                if i < lo {
                    assert(self.order@[i] == s);
                } else {
                    assert(self.order@[i + 1] == s);
                }
            }
        }
        assert forall|i: int, j: int|
            0 <= i < j < self.order@.len() implies lex_lt(#[trigger] self.key_at(i), #[trigger] self.key_at(j)) by {
            if j < lo {
                assert(lex_lt(prev.key_at(i), prev.key_at(j)));
            } else if j == lo {
            } else if i < lo {
                assert(lex_lt(prev.key_at(i), prev.key_at(j - 1)));
            } else if i == lo {
            } else {
                assert(lex_lt(prev.key_at(i - 1), prev.key_at(j - 1)));
            }
        }
        assert(self.items().drop_last() =~= prev.items());
    }
}

/// Interning never loses or changes what was stored: every earlier slot holds
/// the same value afterwards, and the interned key is then present.
pub proof fn law_intern_append_only<T: Internable>(before: Seq<T>, after: Seq<T>, k: Seq<int>)
    requires
        interned(before, after, k),
    ensures
        before.is_prefix_of(after),
        has_key(after, k),
{
    if !has_key(before, k) {
        assert(after[before.len() as int] == after.last());
        assert forall|i: int| 0 <= i < before.len() implies before[i] == after[i] by {
            assert(after.drop_last()[i] == after[i]);
        }
    }
}

/// Interning the same key twice gives the same slot, and the second time
/// stores nothing.
pub proof fn law_intern_idempotent<T: Internable>(
    a0: Seq<T>,
    a1: Seq<T>,
    a2: Seq<T>,
    k: Seq<int>,
    h1: Interned,
    h2: Interned,
)
    requires
        distinct_keys(a0),
        interned(a0, a1, k),
        h1.slot() < a1.len() && a1[h1.slot() as int].key() == k,
        interned(a1, a2, k),
        h2.slot() < a2.len() && a2[h2.slot() as int].key() == k,
    ensures
        a2 == a1,
        h1 == h2,
{
    law_intern_append_only(a0, a1, k);
    assert(distinct_keys(a1)) by {
        if !has_key(a0, k) {
            assert forall|i: int, j: int|
                0 <= i < a1.len() && 0 <= j < a1.len() && i != j implies #[trigger] a1[i].key()
                != #[trigger] a1[j].key() by {
                if i < a0.len() && j < a0.len() {
                    assert(a1[i] == a0[i] && a1[j] == a0[j]);
                } else if i == a0.len() {
                    assert(a1[j] == a0[j]);
                } else {
                    assert(a1[i] == a0[i]);
                }
            }
        }
    }
    Interned::lemma_slot_injective(h1, h2);
}

} // verus!
