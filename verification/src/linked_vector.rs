//! The arena-backed doubly linked list and its handle model.
//!
//! All nodes live in one growable `Vec` of slots. The live slots form a
//! doubly linked chain threaded through `next`/`prev` indices: `next` is
//! linear (the tail stores a sentinel), while `prev` is circular (the head's
//! `prev` names the tail). Reclaimed slots form a singly linked free chain
//! through `next`, and each slot carries a generation counter so that a
//! handle to a removed element can be recognized as stale even after the
//! slot has been reissued.

use vstd::prelude::*;
use vstd::std_specs::cmp::PartialEqSpec;

verus! {

/// Sentinel index meaning "no node".
pub(crate) const NIL: usize = usize::MAX;

/// An opaque, copyable reference to one element of a [`LinkedVector`].
///
/// A handle names a slot index together with the generation the slot had
/// when the handle was issued and the identity tag of the issuing container.
/// It does not own the element: every use is checked against the container,
/// and a handle whose element has been removed is reported as invalid.
#[derive(Clone, Copy, PartialEq, Eq, Structural, Debug)]
pub struct HNode {
    index: usize,
    gen: u64,
    owner: u128,
}

impl HNode {
    /// The handle that no container ever issues; it is invalid everywhere.
    pub fn bad() -> (r: Self)
        ensures
            r == HNode::bad_spec(),
    {
        HNode { index: NIL, gen: u64::MAX, owner: u128::MAX }
    }

    /// The value of [`HNode::bad`].
    pub closed spec fn bad_spec() -> Self {
        HNode { index: NIL, gen: u64::MAX, owner: u128::MAX }
    }
}

impl Default for HNode {
    /// The default handle is the invalid sentinel handle.
    fn default() -> (r: Self)
        ensures
            r == HNode::bad_spec(),
    {
        HNode::bad()
    }
}

/// One arena slot: an optional element plus the two link fields and the
/// slot's current generation. The element is absent exactly while the slot
/// sits on the free chain (or is retired for good).
pub(crate) struct Node<T> {
    pub(crate) value: Option<T>,
    pub(crate) next: usize,
    pub(crate) prev: usize,
    pub(crate) gen: u64,
}

/// A doubly linked list whose nodes live in a single growable arena.
///
/// Elements are addressed by [`HNode`] handles. Insertion and removal at a
/// known handle are O(1) link splices; no operation ever moves an element
/// between slots, so a handle stays good until its element is removed.
pub struct LinkedVector<T> {
    vec: Vec<Node<T>>,
    head: usize,
    recyc: usize,
    len: usize,
    id: u128,
    /// Indices of the live slots, in traversal order.
    order: Ghost<Seq<int>>,
    /// Indices of the reclaimed slots, in free-chain order.
    free: Ghost<Seq<int>>,
    /// Handles invalidated by removal since construction (or the last clear).
    retired: Ghost<Set<HNode>>,
}

/// Relies on `uuid::Uuid::new_v4` (and `Uuid::as_u128`) to draw a fresh
/// random identity tag for a new container. Nothing is assumed about the
/// value: the tag only serves to make handles from another container
/// overwhelmingly likely to be rejected.
#[verifier::external_body]
fn fresh_owner_id() -> u128 {
    uuid::Uuid::new_v4().as_u128()
}

/// A duplicate-free sequence of integers drawn from `[0, n)` has at most
/// `n` entries.
proof fn lemma_distinct_bounded(s: Seq<int>, n: int)
    requires
        s.no_duplicates(),
        forall|i: int| 0 <= i < s.len() ==> 0 <= #[trigger] s[i] < n,
        0 <= n,
    ensures
        s.len() <= n,
{
    s.unique_seq_to_set();
    let r = vstd::set_lib::set_int_range(0, n);
    vstd::set_lib::lemma_int_range(0, n);
    assert(s.to_set().subset_of(r)) by {
        assert forall|x: int| s.to_set().contains(x) implies r.contains(x) by {
            let i = choose|i: int| 0 <= i < s.len() && s[i] == x;
        }
    }
    vstd::set_lib::lemma_len_subset(s.to_set(), r);
}

/// Swapping two entries of a sequence leaves its multiset unchanged.
proof fn lemma_swap_preserves_multiset<A>(s: Seq<A>, i: int, j: int)
    requires
        0 <= i < j < s.len(),
    ensures
        s.update(i, s[j]).update(j, s[i]).to_multiset() == s.to_multiset(),
{
    broadcast use vstd::seq_lib::group_to_multiset_ensures;
    broadcast use vstd::multiset::group_multiset_axioms;

    let m1 = s.update(i, s[j]);
    vstd::seq_lib::to_multiset_update(s, i, s[j]);
    vstd::seq_lib::to_multiset_update(m1, j, s[i]);
    assert(m1[j] == s[j]);
    assert(m1.update(j, s[i]).to_multiset() =~= s.to_multiset());
}

/// An element occurs in a sequence exactly when it occurs in the sequence's
/// multiset.
proof fn lemma_contains_multiset<A>(s: Seq<A>, a: A)
    ensures
        s.contains(a) <==> s.to_multiset().count(a) > 0,
{
    broadcast use vstd::seq_lib::group_to_multiset_ensures;

}

/// The first element of a subrange is the element at its start.
proof fn lemma_subrange_first<A>(s: Seq<A>, i: int, j: int)
    requires
        0 <= i < j <= s.len(),
    ensures
        s.subrange(i, j)[0] == s[i],
        s.subrange(i, j).len() == j - i,
{
    broadcast use vstd::seq::group_seq_axioms;

}

/// Extending a prefix subrange by one element is a push.
proof fn lemma_subrange_push<A>(s: Seq<A>, i: int)
    requires
        0 <= i < s.len(),
    ensures
        s.subrange(0, i + 1) == s.subrange(0, i).push(s[i]),
{
    broadcast use vstd::seq::group_seq_axioms;

    assert(s.subrange(0, i + 1) =~= s.subrange(0, i).push(s[i]));
}

/// Dropping the first element of a subrange advances its start.
proof fn lemma_subrange_drop_first<A>(s: Seq<A>, i: int, j: int)
    requires
        0 <= i < j <= s.len(),
    ensures
        s.subrange(i, j).remove(0) == s.subrange(i + 1, j),
{
    broadcast use vstd::seq::group_seq_axioms;

    s.subrange(i, j).remove_ensures(0);
    assert(s.subrange(i, j).remove(0) =~= s.subrange(i + 1, j));
}

/// The comparator `cmp` computes the ordering relation `r`, and `r` is a
/// total preorder: reversing the arguments reverses strict comparisons, and
/// "not greater" is transitive.
pub open spec fn consistent_comparator<T, F: Fn(&T, &T) -> core::cmp::Ordering>(
    cmp: F,
    r: spec_fn(T, T) -> core::cmp::Ordering,
) -> bool {
    &&& (forall|x: &T, y: &T, o: core::cmp::Ordering|
        #[trigger] call_ensures(cmp, (x, y), o) ==> o == r(*x, *y))
    &&& (forall|x: T, y: T|
        #[trigger] r(x, y) == core::cmp::Ordering::Greater <==> r(y, x)
            == core::cmp::Ordering::Less)
    &&& (forall|x: T, y: T, z: T|
        #[trigger] r(x, y) != core::cmp::Ordering::Greater && #[trigger] r(y, z)
            != core::cmp::Ordering::Greater ==> r(x, z) != core::cmp::Ordering::Greater)
}

/// The sort placed `x` before `y` on direct evidence from the comparator:
/// either `cmp(x, y)` came back not-greater, or `cmp(y, x)` came back
/// greater. Under any relation consistent with `cmp`, `x` is not greater
/// than `y`.
pub open spec fn directly_ordered<T, F: Fn(&T, &T) -> core::cmp::Ordering>(
    cmp: F,
    x: T,
    y: T,
) -> bool {
    ||| (exists|o: core::cmp::Ordering|
        #[trigger] call_ensures(cmp, (&x, &y), o) && o != core::cmp::Ordering::Greater)
    ||| call_ensures(cmp, (&y, &x), core::cmp::Ordering::Greater)
}

/// Each element is not greater than its successor, on direct evidence from
/// the comparator.
pub open spec fn sorted_by_cmp<T, F: Fn(&T, &T) -> core::cmp::Ordering>(
    cmp: F,
    s: Seq<T>,
) -> bool {
    forall|i: int| 0 <= i < s.len() - 1 ==> #[trigger] directly_ordered(cmp, s[i], s[i + 1])
}

/// Under any relation `r` consistent with the comparator, a sequence sorted
/// on direct evidence is non-decreasing: no element is greater than any
/// element after it.
pub proof fn lemma_sorted_by_cmp_relation<T, F: Fn(&T, &T) -> core::cmp::Ordering>(
    cmp: F,
    r: spec_fn(T, T) -> core::cmp::Ordering,
    s: Seq<T>,
)
    requires
        consistent_comparator(cmp, r),
        sorted_by_cmp(cmp, s),
    ensures
        forall|i: int, j: int|
            0 <= i < j < s.len() ==> #[trigger] r(s[i], s[j]) != core::cmp::Ordering::Greater,
    decreases s.len(),
{
    assert forall|i: int| 0 <= i < s.len() - 1 implies #[trigger] r(s[i], s[i + 1])
        != core::cmp::Ordering::Greater by {
        assert(directly_ordered(cmp, s[i], s[i + 1]));
        if call_ensures(cmp, (&s[i + 1], &s[i]), core::cmp::Ordering::Greater) {
            assert(r(s[i + 1], s[i]) == core::cmp::Ordering::Greater);
        }
    }
    assert forall|i: int, j: int| 0 <= i < j < s.len() implies #[trigger] r(s[i], s[j])
        != core::cmp::Ordering::Greater by {
        lemma_le_chain(r, s, i, j);
    }
}

/// Chains adjacent not-greater steps from `i` to `j`.
proof fn lemma_le_chain<T>(r: spec_fn(T, T) -> core::cmp::Ordering, s: Seq<T>, i: int, j: int)
    requires
        forall|x: T, y: T, z: T|
            #[trigger] r(x, y) != core::cmp::Ordering::Greater && #[trigger] r(y, z)
                != core::cmp::Ordering::Greater ==> r(x, z) != core::cmp::Ordering::Greater,
        forall|p: int|
            0 <= p < s.len() - 1 ==> #[trigger] r(s[p], s[p + 1]) != core::cmp::Ordering::Greater,
        0 <= i < j < s.len(),
    ensures
        r(s[i], s[j]) != core::cmp::Ordering::Greater,
    decreases j - i,
{
    if j == i + 1 {
    } else {
        lemma_le_chain(r, s, i, j - 1);
        assert(r(s[j - 1], s[j - 1 + 1]) != core::cmp::Ordering::Greater);
        assert(r(s[i], s[j - 1]) != core::cmp::Ordering::Greater);
    }
}

impl<T> LinkedVector<T> {
    // ----- the mathematical model -----

    /// The link field leading forward out of slot `k`.
    spec fn nxt(self, k: int) -> int {
        self.vec@[k].next as int
    }

    /// The link field leading backward out of slot `k`.
    spec fn prv(self, k: int) -> int {
        self.vec@[k].prev as int
    }

    /// Whether slot `k` currently holds an element.
    spec fn live(self, k: int) -> bool {
        self.vec@[k].value is Some
    }

    /// The current generation of slot `k`.
    spec fn slot_gen(self, k: int) -> u64 {
        self.vec@[k].gen
    }

    /// The element held by (live) slot `k`.
    spec fn slot_val(self, k: int) -> T {
        self.vec@[k].value->Some_0
    }

    /// Whether slot `k` is retired for good: neither live nor on the free
    /// chain. A slot ends up like this only when its generation counter is
    /// exhausted; it is never reused.
    spec fn dead(self, k: int) -> bool {
        &&& !self.live(k)
        &&& !self.free@.contains(k)
    }

    /// All well-formedness clauses except the one tying liveness to
    /// membership in the traversal order. Allocation briefly works in a
    /// state where a freshly filled slot is not yet linked in.
    spec fn links_ok(self) -> bool {
        let ord = self.order@;
        let fr = self.free@;
        &&& self.vec@.len() <= usize::MAX
        &&& self.len == ord.len()
        &&& ord.no_duplicates()
        &&& fr.no_duplicates()
        &&& (forall|i: int| 0 <= i < ord.len() ==> 0 <= #[trigger] ord[i] < self.vec@.len())
        &&& (forall|i: int| 0 <= i < fr.len() ==> 0 <= #[trigger] fr[i] < self.vec@.len())
        &&& (forall|i: int| 0 <= i < fr.len() ==> !ord.contains(#[trigger] fr[i]))
        &&& (forall|i: int| 0 <= i < fr.len() ==> !self.live(#[trigger] fr[i]))
        &&& self.head as int == (if ord.len() > 0 {
            ord[0]
        } else {
            NIL as int
        })
        &&& self.recyc as int == (if fr.len() > 0 {
            fr[0]
        } else {
            NIL as int
        })
        &&& (forall|i: int|
            0 <= i < ord.len() ==> self.nxt(#[trigger] ord[i]) == (if i + 1 < ord.len() {
                ord[i + 1]
            } else {
                NIL as int
            }))
        &&& (forall|i: int|
            0 <= i < ord.len() ==> self.prv(#[trigger] ord[i]) == (if i == 0 {
                ord[ord.len() - 1]
            } else {
                ord[i - 1]
            }))
        &&& (forall|i: int|
            0 <= i < fr.len() ==> self.nxt(#[trigger] fr[i]) == (if i + 1 < fr.len() {
                fr[i + 1]
            } else {
                NIL as int
            }))
        &&& (forall|i: int| 0 <= i < fr.len() ==> self.prv(#[trigger] fr[i]) == NIL as int)
        &&& (forall|g: HNode|
            #[trigger] self.retired@.contains(g) ==> 0 <= g.index < self.vec@.len() && (g.gen
                < self.slot_gen(g.index as int) || self.dead(g.index as int)))
    }

    /// The well-formedness invariant of the arena. Every public operation
    /// requires and preserves it.
    pub closed spec fn wf(self) -> bool {
        &&& self.links_ok()
        &&& (forall|k: int|
            0 <= k < self.vec@.len() ==> (self.live(k) <==> #[trigger] self.order@.contains(k)))
    }

    /// The handle that addresses the element at traversal position `i`.
    pub closed spec fn handle_at(self, i: int) -> HNode {
        HNode {
            index: self.order@[i] as usize,
            gen: self.slot_gen(self.order@[i]),
            owner: self.id,
        }
    }

    /// The handles of the elements, in traversal order.
    pub closed spec fn hseq(self) -> Seq<HNode> {
        Seq::new(self.order@.len(), |i: int| self.handle_at(i))
    }

    /// Whether `h` currently addresses an element of this container.
    pub closed spec fn valid_handle(self, h: HNode) -> bool {
        &&& h.owner == self.id
        &&& h.index < self.vec@.len()
        &&& self.live(h.index as int)
        &&& h.gen == self.slot_gen(h.index as int)
    }

    /// The traversal position of the element addressed by a valid handle.
    pub closed spec fn pos_of(self, h: HNode) -> int {
        self.order@.index_of(h.index as int)
    }

    /// The element addressed by a valid handle.
    pub closed spec fn value_of(self, h: HNode) -> T {
        self.slot_val(h.index as int)
    }

    /// The set of handles this container has invalidated by removal since
    /// it was created or last cleared. Such a handle never becomes valid
    /// again, even when its slot is reissued to a new element.
    pub closed spec fn retired_set(self) -> Set<HNode> {
        self.retired@
    }

    // ----- basic facts about the model -----

    /// A valid handle addresses the element at its traversal position.
    pub proof fn lemma_valid_pos(self, h: HNode)
        requires
            self.wf(),
            self.valid_handle(h),
        ensures
            0 <= self.pos_of(h) < self@.len(),
            self.hseq()[self.pos_of(h)] == h,
            self.value_of(h) == self@[self.pos_of(h)],
    {
        let ord = self.order@;
        assert(ord.contains(h.index as int));
        let p = ord.index_of(h.index as int);
        assert(0 <= p < ord.len() && ord[p] == h.index as int);
    }

    /// A handle is valid exactly when it occurs in the handle sequence.
    pub proof fn lemma_valid_is_member(self, h: HNode)
        requires
            self.wf(),
        ensures
            self.valid_handle(h) <==> self.hseq().contains(h),
    {
        if self.valid_handle(h) {
            self.lemma_valid_pos(h);
            assert(self.hseq()[self.pos_of(h)] == h);
        }
        if self.hseq().contains(h) {
            let i = choose|i: int| 0 <= i < self.hseq().len() && self.hseq()[i] == h;
            assert(self.order@.contains(self.order@[i]));
        }
    }

    /// Distinct traversal positions are addressed by distinct handles.
    pub proof fn lemma_handles_distinct(self)
        requires
            self.wf(),
        ensures
            self.hseq().no_duplicates(),
    {
        let hs = self.hseq();
        assert forall|i: int, j: int| 0 <= i < hs.len() && 0 <= j < hs.len() && i != j implies hs[i]
            != hs[j] by {
            assert(self.order@[i] != self.order@[j]);
        }
    }

    /// Each handle in the handle sequence occurs there exactly once, at its
    /// own traversal position.
    pub proof fn lemma_hseq_index_identity(self)
        requires
            self.wf(),
        ensures
            forall|p: int|
                0 <= p < self.hseq().len() ==> self.hseq().index_of(#[trigger] self.hseq()[p])
                    == p,
            forall|p: int| 0 <= p < self.hseq().len() ==> self.valid_handle(#[trigger] self.hseq()[p]),
    {
        self.lemma_handles_distinct();
        assert forall|p: int| 0 <= p < self.hseq().len() implies self.hseq().index_of(
            #[trigger] self.hseq()[p],
        ) == p && self.valid_handle(self.hseq()[p]) by {
            self.lemma_handle_at_pos(p);
            assert(self.hseq().contains(self.hseq()[p]));
            let q = self.hseq().index_of(self.hseq()[p]);
            assert(0 <= q < self.hseq().len() && self.hseq()[q] == self.hseq()[p]);
        }
    }

    /// An empty container has no valid handles at all.
    pub proof fn lemma_empty_no_valid_handles(self)
        requires
            self.wf(),
            self@.len() == 0,
        ensures
            forall|g: HNode| !self.valid_handle(g),
    {
        assert forall|g: HNode| !self.valid_handle(g) by {
            if self.valid_handle(g) {
                assert(self.order@.contains(g.index as int));
            }
        }
    }

    /// The handle at a traversal position is valid and addresses the element
    /// at that position.
    pub proof fn lemma_handle_at_pos(self, p: int)
        requires
            self.wf(),
            0 <= p < self@.len(),
        ensures
            self.valid_handle(self.hseq()[p]),
            self.pos_of(self.hseq()[p]) == p,
            self.value_of(self.hseq()[p]) == self@[p],
    {
        let ord = self.order@;
        assert(ord.contains(ord[p]));
        let h = self.hseq()[p];
        let q = ord.index_of(ord[p]);
        assert(0 <= q < ord.len() && ord[q] == ord[p]);
        assert(q == p);
    }

    /// A retired handle is invalid, whatever has happened to its slot since.
    pub proof fn lemma_retired_invalid(self, g: HNode)
        requires
            self.wf(),
            self.retired_set().contains(g),
        ensures
            !self.valid_handle(g),
    {
        if self.valid_handle(g) {
            assert(self.order@.contains(g.index as int));
        }
    }

    // ----- construction -----

    /// Creates a new, empty `LinkedVector`.
    pub fn new() -> (r: Self)
        ensures
            r.wf(),
            r@ == Seq::<T>::empty(),
            r.hseq() == Seq::<HNode>::empty(),
            r.retired_set() == Set::<HNode>::empty(),
    {
        let r = LinkedVector {
            vec: Vec::new(),
            head: NIL,
            recyc: NIL,
            len: 0,
            id: fresh_owner_id(),
            order: Ghost(Seq::empty()),
            free: Ghost(Seq::empty()),
            retired: Ghost(Set::empty()),
        };
        proof {
            assert(r@ =~= Seq::<T>::empty());
            assert(r.hseq() =~= Seq::<HNode>::empty());
        }
        r
    }

    /// Creates a new, empty `LinkedVector` whose arena starts out with room
    /// for `size` elements.
    pub fn with_capacity(size: usize) -> (r: Self)
        ensures
            r.wf(),
            r@ == Seq::<T>::empty(),
            r.hseq() == Seq::<HNode>::empty(),
            r.retired_set() == Set::<HNode>::empty(),
    {
        let r = LinkedVector {
            vec: Vec::with_capacity(size),
            head: NIL,
            recyc: NIL,
            len: 0,
            id: fresh_owner_id(),
            order: Ghost(Seq::empty()),
            free: Ghost(Seq::empty()),
            retired: Ghost(Set::empty()),
        };
        proof {
            assert(r@ =~= Seq::<T>::empty());
            assert(r.hseq() =~= Seq::<HNode>::empty());
        }
        r
    }

    // ----- size -----

    /// Returns the number of elements in the list.
    pub fn len(&self) -> (r: usize)
        requires
            self.wf(),
        ensures
            r == self@.len(),
    {
        self.len
    }

    /// Returns `true` if the list contains no elements.
    pub fn is_empty(&self) -> (r: bool)
        requires
            self.wf(),
        ensures
            r == (self@.len() == 0),
    {
        self.len == 0
    }

    /// Returns `true` if `node` currently addresses an element of this list:
    /// it was issued by this container and its element has not been removed.
    pub fn is_valid(&self, node: HNode) -> (r: bool)
        ensures
            r == self.valid_handle(node),
    {
        if node.owner != self.id || node.index >= self.vec.len() {
            false
        } else {
            let n = &self.vec[node.index];
            n.value.is_some() && n.gen == node.gen
        }
    }

    // ----- the recycle mechanism -----

    /// Detaches and returns the first slot of the free chain, or `None` if
    /// the chain is empty. The slot comes back unoccupied and unlinked.
    fn pop_recyc(&mut self) -> (r: Option<usize>)
        requires
            old(self).wf(),
        ensures
            final(self).wf(),
            old(self).free@.len() == 0 ==> r is None && *final(self) == *old(self),
            old(self).free@.len() > 0 ==> {
                let k = old(self).free@[0];
                &&& r == Some(k as usize)
                &&& final(self).free@ == old(self).free@.drop_first()
                &&& final(self).order@ == old(self).order@
                &&& final(self).retired@ == old(self).retired@
                &&& final(self).id == old(self).id
                &&& final(self).head == old(self).head
                &&& final(self).len == old(self).len
                &&& final(self).vec@.len() == old(self).vec@.len()
                &&& (forall|j: int|
                    0 <= j < final(self).vec@.len() && j != k ==> final(self).vec@[j] == old(
                        self,
                    ).vec@[j])
                &&& !final(self).live(k)
                &&& final(self).slot_gen(k) == old(self).slot_gen(k)
                &&& final(self).nxt(k) == NIL as int
                &&& final(self).prv(k) == NIL as int
                &&& (forall|g: HNode|
                    #[trigger] final(self).retired@.contains(g) && g.index as int == k ==> g.gen
                        < final(self).slot_gen(k))
            },
    {
        if self.recyc == NIL {
            proof {
                if self.free@.len() > 0 {
                    assert(self.free@[0] < self.vec@.len());
                }
            }
            None
        } else {
            let k = self.recyc;
            let ghost fr = self.free@;
            proof {
                assert(fr.len() > 0 && fr[0] == k as int);
                assert(self.nxt(k as int) == (if 1 < fr.len() {
                    fr[1]
                } else {
                    NIL as int
                }));
            }
            self.recyc = self.vec[k].next;
            self.vec[k].next = NIL;
            proof {
                assert(fr[0] as usize == k);
                self.free@ = self.free@.drop_first();
                assert forall|g: HNode|
                    #[trigger] self.retired@.contains(g) && g.index as int == k as int implies g.gen
                    < self.slot_gen(k as int) by {
                    assert(fr.contains(fr[0]));
                }
                assert forall|i: int| 0 <= i < self.free@.len() implies self.nxt(
                    #[trigger] self.free@[i],
                ) == (if i + 1 < self.free@.len() {
                    self.free@[i + 1]
                } else {
                    NIL as int
                }) by {
                    assert(self.free@[i] == fr[i + 1]);
                    assert(fr[i + 1] != fr[0]);
                }
                assert forall|i: int| 0 <= i < self.free@.len() implies self.prv(
                    #[trigger] self.free@[i],
                ) == NIL as int by {
                    assert(self.free@[i] == fr[i + 1]);
                    assert(fr[i + 1] != fr[0]);
                }
            }
            Some(k)
        }
    }

    /// Fills a slot with `value` and returns a handle to it, reusing the
    /// first slot of the free chain when one is available and growing the
    /// arena otherwise. The new slot is live but not yet linked into the
    /// traversal order; the caller splices it in.
    fn new_node(&mut self, value: T) -> (h: HNode)
        requires
            old(self).wf(),
        ensures
            final(self).links_ok(),
            final(self).order@ == old(self).order@,
            final(self).retired@ == old(self).retired@,
            final(self).id == old(self).id,
            final(self).head == old(self).head,
            final(self).len == old(self).len,
            final(self).vec@.len() >= old(self).vec@.len(),
            h.owner == final(self).id,
            (h.index as int) < final(self).vec@.len(),
            !final(self).order@.contains(h.index as int),
            !final(self).free@.contains(h.index as int),
            final(self).live(h.index as int),
            final(self).slot_gen(h.index as int) == h.gen,
            final(self).slot_val(h.index as int) == value,
            final(self).nxt(h.index as int) == NIL as int,
            final(self).prv(h.index as int) == NIL as int,
            (h.index as int) < old(self).vec@.len() ==> !old(self).live(h.index as int),
            forall|j: int|
                0 <= j < old(self).vec@.len() && j != h.index ==> final(self).vec@[j] == old(
                    self,
                ).vec@[j],
            forall|k2: int|
                0 <= k2 < final(self).vec@.len() && k2 != h.index ==> (final(self).live(k2)
                    <==> final(self).order@.contains(k2)),
    {
        let popped = self.pop_recyc();
        match popped {
            Some(k) => {
                let g = self.vec[k].gen;
                self.vec[k] = Node { value: Some(value), next: NIL, prev: NIL, gen: g };
                HNode { index: k, gen: g, owner: self.id }
            },
            None => {
                let k = self.vec.len();
                self.vec.push(Node { value: Some(value), next: NIL, prev: NIL, gen: 0 });
                let n = self.vec.len();
                proof {
                    assert(n as int == k as int + 1);
                    assert(self.vec@.len() <= usize::MAX);
                    assert(!self.order@.contains(k as int));
                }
                HNode { index: k, gen: 0, owner: self.id }
            },
        }
    }

    // ----- insertion -----

    /// The relation between the container before and after allocating slot
    /// `k`: the new slot is live, unlinked and outside both chains, and
    /// everything else is as it was.
    spec fn alloc_state(self, pre: Self, k: int) -> bool {
        &&& self.links_ok()
        &&& self.order@ == pre.order@
        &&& self.retired@ == pre.retired@
        &&& self.id == pre.id
        &&& self.head == pre.head
        &&& self.len == pre.len
        &&& self.vec@.len() >= pre.vec@.len()
        &&& 0 <= k < self.vec@.len()
        &&& !self.order@.contains(k)
        &&& !self.free@.contains(k)
        &&& self.live(k)
        &&& self.nxt(k) == NIL as int
        &&& self.prv(k) == NIL as int
        &&& (k < pre.vec@.len() ==> !pre.live(k))
        &&& (forall|j: int| 0 <= j < pre.vec@.len() && j != k ==> self.vec@[j] == pre.vec@[j])
        &&& (forall|k2: int|
            0 <= k2 < self.vec@.len() && k2 != k ==> (self.live(k2) <==> self.order@.contains(
                k2,
            )))
    }

    /// Splicing a freshly allocated slot immediately before the element at
    /// position `p` restores well-formedness and inserts the element and its
    /// handle at position `p`.
    #[verifier::spinoff_prover]
    #[verifier::rlimit(100)]
    proof fn lemma_splice_before(
        pre: Self,
        mid: Self,
        post: Self,
        k: int,
        p: int,
        h: HNode,
        value: T,
    )
        requires
            pre.wf(),
            mid.alloc_state(pre, k),
            h == (HNode { index: k as usize, gen: mid.slot_gen(k), owner: mid.id }),
            mid.slot_val(k) == value,
            0 <= p < pre.order@.len(),
            post.vec@.len() == mid.vec@.len(),
            ({
                let idx = pre.order@[p];
                let pp = if p == 0 {
                    pre.order@.len() - 1
                } else {
                    p - 1
                };
                let hprev = pre.order@[pp];
                &&& (forall|j: int|
                    0 <= j < post.vec@.len() && j != k && j != idx && j != hprev
                        ==> post.vec@[j] == mid.vec@[j])
                &&& post.live(k)
                &&& post.slot_gen(k) == mid.slot_gen(k)
                &&& post.slot_val(k) == mid.slot_val(k)
                &&& (post.live(idx) <==> mid.live(idx))
                &&& post.slot_gen(idx) == mid.slot_gen(idx)
                &&& post.vec@[idx].value == mid.vec@[idx].value
                &&& (post.live(hprev) <==> mid.live(hprev))
                &&& post.slot_gen(hprev) == mid.slot_gen(hprev)
                &&& post.vec@[hprev].value == mid.vec@[hprev].value
                &&& post.nxt(idx) == mid.nxt(idx)
                &&& ((p != 0 || pre.order@.len() > 1) ==> post.prv(hprev) == mid.prv(hprev))
                &&& post.prv(k) == hprev
                &&& post.nxt(k) == idx
                &&& post.prv(idx) == k
                &&& post.nxt(hprev) == (if p == 0 {
                    mid.nxt(hprev)
                } else {
                    k
                })
                &&& post.head as int == (if p == 0 {
                    k
                } else {
                    mid.head as int
                })
            }),
            post.len == mid.len + 1,
            post.order@ == pre.order@.insert(p, k),
            post.free@ == mid.free@,
            post.retired@ == mid.retired@,
            post.id == mid.id,
            post.recyc == mid.recyc,
        ensures
            post.wf(),
            post@ == pre@.insert(p, value),
            post.hseq() == pre.hseq().insert(p, h),
            post.valid_handle(h),
            !pre.valid_handle(h),
    {
        let ord0 = pre.order@;
        let ord2 = post.order@;
        let n0 = ord0.len() as int;
        let idx = ord0[p];
        let pp = if p == 0 {
            n0 - 1
        } else {
            p - 1
        };
        let hprev = ord0[pp];
        assert forall|i: int| 0 <= i < n0 implies #[trigger] ord0[i] != k by {
            assert(ord0.contains(ord0[i]));
        }
        ord0.insert_ensures(p, k);
        pre@.insert_ensures(p, value);
        pre.hseq().insert_ensures(p, h);
        assert(ord2.len() == n0 + 1);
        assert(ord2[p] == k);
        assert(ord2.contains(k));
        assert(ord2.no_duplicates()) by {
            assert forall|i: int, j: int|
                0 <= i < ord2.len() && 0 <= j < ord2.len() && i != j implies ord2[i] != ord2[j] by {
                if i != p && j != p {
                    let i0 = if i < p {
                        i
                    } else {
                        i - 1
                    };
                    let j0 = if j < p {
                        j
                    } else {
                        j - 1
                    };
                    assert(ord2[i] == ord0[i0] && ord2[j] == ord0[j0]);
                }
            }
        }
        assert forall|i: int| 0 <= i < ord2.len() implies 0 <= #[trigger] ord2[i]
            < post.vec@.len() by {
            if i != p {
                let i0 = if i < p {
                    i
                } else {
                    i - 1
                };
                assert(ord2[i] == ord0[i0]);
            }
        }
        assert forall|k2: int| 0 <= k2 < post.vec@.len() && k2 != k implies (
        #[trigger] ord2.contains(k2) <==> ord0.contains(k2)) by {
            if ord2.contains(k2) {
                let j = choose|j: int| 0 <= j < ord2.len() && ord2[j] == k2;
                let j0 = if j < p {
                    j
                } else {
                    j - 1
                };
                assert(ord0[j0] == k2);
            }
            if ord0.contains(k2) {
                let j0 = choose|j0: int| 0 <= j0 < ord0.len() && ord0[j0] == k2;
                let j = if j0 < p {
                    j0
                } else {
                    j0 + 1
                };
                assert(ord2[j] == k2);
            }
        }
        assert forall|k2: int| 0 <= k2 < post.vec@.len() implies (post.live(k2)
            <==> ord2.contains(k2)) by {
            if k2 != k && k2 != idx && k2 != hprev {
                assert(post.vec@[k2] == mid.vec@[k2]);
            }
        }
        assert forall|i: int| 0 <= i < ord2.len() implies post.nxt(#[trigger] ord2[i]) == (if i
            + 1 < ord2.len() {
            ord2[i + 1]
        } else {
            NIL as int
        }) && post.prv(ord2[i]) == (if i == 0 {
            ord2[ord2.len() - 1]
        } else {
            ord2[i - 1]
        }) by {
            if i < p - 1 {
                assert(ord2[i] == ord0[i] && ord2[i + 1] == ord0[i + 1]);
                assert(post.vec@[ord0[i]] == mid.vec@[ord0[i]]);
                if i > 0 {
                    assert(ord2[i - 1] == ord0[i - 1]);
                }
            } else if i == p - 1 {
                assert(ord2[i] == ord0[p - 1]);
                if i > 0 {
                    assert(ord2[i - 1] == ord0[i - 1]);
                    assert(post.prv(ord0[p - 1]) == mid.prv(ord0[p - 1]));
                }
            } else if i == p {
                assert(ord2[i] == k);
                if p > 0 {
                    assert(ord2[i - 1] == ord0[p - 1]);
                }
                assert(ord2[i + 1] == ord0[p]);
                assert(ord2[ord2.len() - 1] == (if p == n0 {
                    k
                } else {
                    ord0[n0 - 1]
                }));
            } else if i == p + 1 {
                assert(ord2[i] == ord0[p]);
                if i + 1 < ord2.len() {
                    assert(ord2[i + 1] == ord0[p + 1]);
                }
            } else {
                assert(ord2[i] == ord0[i - 1]);
                assert(ord2[i - 1] == ord0[i - 2]);
                if i + 1 < ord2.len() {
                    assert(ord2[i + 1] == ord0[i]);
                }
                assert(post.vec@[ord0[i - 1]] == mid.vec@[ord0[i - 1]]);
            }
        }
        assert forall|i: int| 0 <= i < post.free@.len() implies !ord2.contains(
            #[trigger] post.free@[i],
        ) && !post.live(post.free@[i]) && post.prv(post.free@[i]) == NIL as int && post.nxt(
            post.free@[i],
        ) == (if i + 1 < post.free@.len() {
            post.free@[i + 1]
        } else {
            NIL as int
        }) by {
            assert(mid.free@.contains(mid.free@[i]));
            assert(!ord0.contains(mid.free@[i]));
            assert(mid.free@[i] != ord0[p] && mid.free@[i] != ord0[pp]);
            assert(post.vec@[mid.free@[i]] == mid.vec@[mid.free@[i]]);
        }
        assert forall|g: HNode| #[trigger] post.retired@.contains(g) implies 0 <= g.index
            < post.vec@.len() && (g.gen < post.slot_gen(g.index as int) || post.dead(
            g.index as int,
        )) by {
            let j = g.index as int;
            if j != k && j != idx && j != hprev {
                assert(post.vec@[j] == mid.vec@[j]);
            }
        }
        assert(post.wf());
        assert(post@ =~= pre@.insert(p, value)) by {
            assert forall|i: int| 0 <= i < post@.len() implies post@[i] == pre@.insert(
                p,
                value,
            )[i] by {
                if i < p {
                    assert(ord2[i] == ord0[i]);
                    if ord0[i] != idx && ord0[i] != hprev {
                        assert(post.vec@[ord0[i]] == mid.vec@[ord0[i]]);
                    }
                } else if i > p {
                    assert(ord2[i] == ord0[i - 1]);
                    if ord0[i - 1] != idx && ord0[i - 1] != hprev {
                        assert(post.vec@[ord0[i - 1]] == mid.vec@[ord0[i - 1]]);
                    }
                }
            }
        }
        assert(post.hseq() =~= pre.hseq().insert(p, h)) by {
            assert forall|i: int| 0 <= i < post.hseq().len() implies post.hseq()[i]
                == pre.hseq().insert(p, h)[i] by {
                if i < p {
                    assert(ord2[i] == ord0[i]);
                    assert(pre.hseq()[i] == pre.handle_at(i));
                    if ord0[i] != idx && ord0[i] != hprev {
                        assert(post.vec@[ord0[i]] == mid.vec@[ord0[i]]);
                    }
                } else if i > p {
                    assert(ord2[i] == ord0[i - 1]);
                    assert(pre.hseq()[i - 1] == pre.handle_at(i - 1));
                    if ord0[i - 1] != idx && ord0[i - 1] != hprev {
                        assert(post.vec@[ord0[i - 1]] == mid.vec@[ord0[i - 1]]);
                    }
                }
            }
        }
    }

    /// Splicing a freshly allocated slot in at the back restores
    /// well-formedness and appends the element and its handle.
    #[verifier::spinoff_prover]
    #[verifier::rlimit(100)]
    proof fn lemma_splice_back(pre: Self, mid: Self, post: Self, k: int, h: HNode, value: T)
        requires
            pre.wf(),
            mid.alloc_state(pre, k),
            h == (HNode { index: k as usize, gen: mid.slot_gen(k), owner: mid.id }),
            mid.slot_val(k) == value,
            pre.order@.len() > 0,
            post.vec@.len() == mid.vec@.len(),
            ({
                let n0 = pre.order@.len() as int;
                let tail = pre.order@[n0 - 1];
                let head0 = pre.order@[0];
                &&& (forall|j: int|
                    0 <= j < post.vec@.len() && j != k && j != tail && j != head0
                        ==> post.vec@[j] == mid.vec@[j])
                &&& post.live(k)
                &&& post.slot_gen(k) == mid.slot_gen(k)
                &&& post.slot_val(k) == mid.slot_val(k)
                &&& (post.live(tail) <==> mid.live(tail))
                &&& post.slot_gen(tail) == mid.slot_gen(tail)
                &&& post.vec@[tail].value == mid.vec@[tail].value
                &&& (post.live(head0) <==> mid.live(head0))
                &&& post.slot_gen(head0) == mid.slot_gen(head0)
                &&& post.vec@[head0].value == mid.vec@[head0].value
                &&& post.nxt(tail) == k
                &&& post.prv(k) == tail
                &&& post.nxt(k) == NIL as int
                &&& post.prv(head0) == k
                &&& (n0 > 1 ==> post.nxt(head0) == mid.nxt(head0))
                &&& (n0 > 1 ==> post.prv(tail) == mid.prv(tail))
            }),
            post.head == mid.head,
            post.len == mid.len + 1,
            post.order@ == pre.order@.push(k),
            post.free@ == mid.free@,
            post.retired@ == mid.retired@,
            post.id == mid.id,
            post.recyc == mid.recyc,
        ensures
            post.wf(),
            post@ == pre@.insert(pre@.len() as int, value),
            post.hseq() == pre.hseq().insert(pre@.len() as int, h),
            post.valid_handle(h),
            !pre.valid_handle(h),
    {
        let ord0 = pre.order@;
        let ord2 = post.order@;
        let n0 = ord0.len() as int;
        let tail = ord0[n0 - 1];
        let head0 = ord0[0];
        assert forall|i: int| 0 <= i < n0 implies #[trigger] ord0[i] != k by {
            assert(ord0.contains(ord0[i]));
        }
        pre@.insert_ensures(pre@.len() as int, value);
        pre.hseq().insert_ensures(pre@.len() as int, h);
        assert(ord2.len() == n0 + 1);
        assert(ord2[n0] == k);
        assert(ord2.contains(k));
        assert(ord2.no_duplicates()) by {
            assert forall|i: int, j: int|
                0 <= i < ord2.len() && 0 <= j < ord2.len() && i != j implies ord2[i] != ord2[j] by {
                if i != n0 && j != n0 {
                    assert(ord2[i] == ord0[i] && ord2[j] == ord0[j]);
                }
            }
        }
        assert forall|i: int| 0 <= i < ord2.len() implies 0 <= #[trigger] ord2[i]
            < post.vec@.len() by {
            if i != n0 {
                assert(ord2[i] == ord0[i]);
            }
        }
        assert forall|k2: int| 0 <= k2 < post.vec@.len() && k2 != k implies (
        #[trigger] ord2.contains(k2) <==> ord0.contains(k2)) by {
            if ord2.contains(k2) {
                let j = choose|j: int| 0 <= j < ord2.len() && ord2[j] == k2;
                assert(ord0[j] == k2);
            }
            if ord0.contains(k2) {
                let j0 = choose|j0: int| 0 <= j0 < ord0.len() && ord0[j0] == k2;
                assert(ord2[j0] == k2);
            }
        }
        assert forall|k2: int| 0 <= k2 < post.vec@.len() implies (post.live(k2)
            <==> ord2.contains(k2)) by {
            if k2 != k && k2 != tail && k2 != head0 {
                assert(post.vec@[k2] == mid.vec@[k2]);
            }
        }
        assert forall|i: int| 0 <= i < ord2.len() implies post.nxt(#[trigger] ord2[i]) == (if i
            + 1 < ord2.len() {
            ord2[i + 1]
        } else {
            NIL as int
        }) && post.prv(ord2[i]) == (if i == 0 {
            ord2[ord2.len() - 1]
        } else {
            ord2[i - 1]
        }) by {
            assert(ord2[ord2.len() - 1] == k);
            if i < n0 {
                assert(ord2[i] == ord0[i]);
                if i > 0 {
                    assert(ord2[i - 1] == ord0[i - 1]);
                    assert(ord0[i] != ord0[0]);
                }
                if i + 1 < n0 {
                    assert(ord2[i + 1] == ord0[i + 1]);
                    assert(ord0[i] != ord0[n0 - 1]);
                }
                if i != 0 && i != n0 - 1 {
                    assert(post.vec@[ord0[i]] == mid.vec@[ord0[i]]);
                }
            } else {
                assert(ord2[i] == k && ord2[i - 1] == ord0[n0 - 1]);
            }
        }
        assert forall|i: int| 0 <= i < post.free@.len() implies !ord2.contains(
            #[trigger] post.free@[i],
        ) && !post.live(post.free@[i]) && post.prv(post.free@[i]) == NIL as int && post.nxt(
            post.free@[i],
        ) == (if i + 1 < post.free@.len() {
            post.free@[i + 1]
        } else {
            NIL as int
        }) by {
            assert(mid.free@.contains(mid.free@[i]));
            assert(!ord0.contains(mid.free@[i]));
            assert(mid.free@[i] != ord0[0] && mid.free@[i] != ord0[n0 - 1]);
            assert(post.vec@[mid.free@[i]] == mid.vec@[mid.free@[i]]);
        }
        assert forall|g: HNode| #[trigger] post.retired@.contains(g) implies 0 <= g.index
            < post.vec@.len() && (g.gen < post.slot_gen(g.index as int) || post.dead(
            g.index as int,
        )) by {
            let j = g.index as int;
            if j != k && j != tail && j != head0 {
                assert(post.vec@[j] == mid.vec@[j]);
            }
        }
        assert(post.wf());
        assert(post@ =~= pre@.insert(pre@.len() as int, value)) by {
            assert forall|i: int| 0 <= i < post@.len() implies post@[i] == pre@.insert(
                pre@.len() as int,
                value,
            )[i] by {
                if i < n0 {
                    assert(ord2[i] == ord0[i]);
                    if ord0[i] != tail && ord0[i] != head0 {
                        assert(post.vec@[ord0[i]] == mid.vec@[ord0[i]]);
                    }
                }
            }
        }
        assert(post.hseq() =~= pre.hseq().insert(pre@.len() as int, h)) by {
            assert forall|i: int| 0 <= i < post.hseq().len() implies post.hseq()[i]
                == pre.hseq().insert(pre@.len() as int, h)[i] by {
                if i < n0 {
                    assert(ord2[i] == ord0[i]);
                    assert(pre.hseq()[i] == pre.handle_at(i));
                    if ord0[i] != tail && ord0[i] != head0 {
                        assert(post.vec@[ord0[i]] == mid.vec@[ord0[i]]);
                    }
                }
            }
        }
    }

    /// Inserts `value` immediately before the element addressed by `node`,
    /// or at the back of the list when `node` is `None`; a given anchor must
    /// be a valid handle. Returns the handle of the new element. Every
    /// handle issued earlier keeps addressing the element it addressed
    /// before. O(1).
    #[verifier::rlimit(100)]
    #[verifier::spinoff_prover]
    pub fn insert_(&mut self, node: Option<HNode>, value: T) -> (h: HNode)
        requires
            old(self).wf(),
            node is Some ==> old(self).valid_handle(node->Some_0),
        ensures
            final(self).wf(),
            final(self).valid_handle(h),
            !old(self).valid_handle(h),
            final(self).retired_set() == old(self).retired_set(),
            ({
                let p = if node is Some {
                    old(self).pos_of(node->Some_0)
                } else {
                    old(self)@.len() as int
                };
                &&& final(self)@ == old(self)@.insert(p, value)
                &&& final(self).hseq() == old(self).hseq().insert(p, h)
            }),
    {
        let ghost p: int = if node is Some {
            old(self).pos_of(node->Some_0)
        } else {
            old(self)@.len() as int
        };
        proof {
            if node is Some {
                old(self).lemma_valid_pos(node->Some_0);
            }
        }
        let h = self.new_node(value);
        let k = h.index;
        let ghost mid = *self;
        let ghost ord0 = self.order@;
        proof {
            assert forall|i: int| 0 <= i < ord0.len() implies #[trigger] ord0[i] != k as int by {
                assert(ord0.contains(ord0[i]));
            }
            assert(ord0.push(k as int).no_duplicates());
            lemma_distinct_bounded(ord0.push(k as int), self.vec@.len() as int);
        }
        if self.len == 0 {
            proof {
                old(self).lemma_empty_no_valid_handles();
            }
            self.head = k;
            self.vec[k].prev = k;
            self.len = 1;
            proof {
                self.order@ = seq![k as int];
                assert(self.order@.len() == 1 && self.order@[0] == k as int);
                assert(self.order@.contains(k as int));
                assert forall|k2: int|
                    0 <= k2 < self.vec@.len() && k2 != k as int implies (self.live(k2)
                    <==> self.order@.contains(k2)) by {
                    assert(!ord0.contains(k2));
                    if self.order@.contains(k2) {
                        let j = choose|j: int| 0 <= j < self.order@.len() && self.order@[j] == k2;
                        assert(false);
                    }
                }
                old(self)@.insert_ensures(p, value);
                old(self).hseq().insert_ensures(p, h);
                assert(self@ =~= old(self)@.insert(p, value));
                assert(self.hseq() =~= old(self).hseq().insert(p, h));
            }
            h
        } else {
            match node {
                Some(hnode) => {
                    let idx = hnode.index;
                    proof {
                        assert(ord0[p] == idx as int);
                        assert(ord0.contains(ord0[p]));
                        assert(idx as int != k as int);
                    }
                    let hprev = self.vec[idx].prev;
                    let ghost pp: int = if p == 0 {
                        ord0.len() - 1
                    } else {
                        p - 1
                    };
                    proof {
                        assert(hprev as int == ord0[pp]);
                        assert(ord0.contains(ord0[pp]));
                        assert(hprev as int != k as int);
                    }
                    self.vec[k].prev = hprev;
                    self.vec[k].next = idx;
                    self.vec[idx].prev = k;
                    if idx == self.head {
                        proof {
                            assert(ord0[p] == ord0[0]);
                            assert(p == 0);
                        }
                        self.head = k;
                    } else {
                        proof {
                            if p == 0 {
                                assert(idx as int == ord0[0]);
                                assert(false);
                            }
                        }
                        self.vec[hprev].next = k;
                    }
                    self.len = self.len + 1;
                    proof {
                        self.order@ = ord0.insert(p, k as int);
                        Self::lemma_splice_before(*old(self), mid, *self, k as int, p, h, value);
                    }
                    h
                },
                None => {
                    let tail = self.vec[self.head].prev;
                    proof {
                        assert(tail as int == ord0[ord0.len() - 1]);
                        assert(ord0.contains(ord0[ord0.len() - 1]));
                        assert(tail as int != k as int);
                        assert(ord0.contains(ord0[0]));
                    }
                    self.vec[tail].next = k;
                    self.vec[k].prev = tail;
                    self.vec[self.head].prev = k;
                    self.len = self.len + 1;
                    proof {
                        self.order@ = ord0.push(k as int);
                        Self::lemma_splice_back(*old(self), mid, *self, k as int, h, value);
                    }
                    h
                },
            }
        }
    }

    // ----- navigation -----

    /// Returns the handle of the first element, or `None` if the list is
    /// empty. O(1).
    pub fn front_node(&self) -> (r: Option<HNode>)
        requires
            self.wf(),
        ensures
            self@.len() == 0 ==> r is None,
            self@.len() > 0 ==> r == Some(self.hseq()[0]),
    {
        if self.len == 0 {
            None
        } else {
            proof {
                assert(self.order@[0] < self.vec@.len());
            }
            Some(HNode { index: self.head, gen: self.vec[self.head].gen, owner: self.id })
        }
    }

    /// Returns the handle of the last element, or `None` if the list is
    /// empty. O(1).
    pub fn back_node(&self) -> (r: Option<HNode>)
        requires
            self.wf(),
        ensures
            self@.len() == 0 ==> r is None,
            self@.len() > 0 ==> r == Some(self.hseq()[self@.len() - 1]),
    {
        if self.len == 0 {
            None
        } else {
            proof {
                assert(self.order@[0] < self.vec@.len());
                assert(self.prv(self.order@[0]) == self.order@[self.order@.len() - 1]);
                assert(self.order@[self.order@.len() - 1] < self.vec@.len());
            }
            let t = self.vec[self.head].prev;
            Some(HNode { index: t, gen: self.vec[t].gen, owner: self.id })
        }
    }

    /// Returns the handle of the element after `node`, `None` if `node`
    /// addresses the last element or is invalid. O(1).
    pub fn next_node(&self, node: HNode) -> (r: Option<HNode>)
        requires
            self.wf(),
        ensures
            !self.valid_handle(node) ==> r is None,
            self.valid_handle(node) ==> r == (if self.pos_of(node) + 1 < self@.len() {
                Some(self.hseq()[self.pos_of(node) + 1])
            } else {
                None
            }),
    {
        if !self.is_valid(node) {
            return None;
        }
        proof {
            self.lemma_valid_pos(node);
            let p = self.pos_of(node);
            assert(self.order@[p] == node.index as int);
            if p + 1 < self.order@.len() {
                assert(self.order@[p + 1] < self.vec@.len());
            }
        }
        let nx = self.vec[node.index].next;
        if nx == NIL {
            None
        } else {
            Some(HNode { index: nx, gen: self.vec[nx].gen, owner: self.id })
        }
    }

    /// Returns the handle of the element before `node`, `None` if `node`
    /// addresses the first element or is invalid. O(1).
    pub fn prev_node(&self, node: HNode) -> (r: Option<HNode>)
        requires
            self.wf(),
        ensures
            !self.valid_handle(node) ==> r is None,
            self.valid_handle(node) ==> r == (if self.pos_of(node) > 0 {
                Some(self.hseq()[self.pos_of(node) - 1])
            } else {
                None
            }),
    {
        if !self.is_valid(node) {
            return None;
        }
        proof {
            self.lemma_valid_pos(node);
            let p = self.pos_of(node);
            assert(self.order@[p] == node.index as int);
            if p > 0 {
                assert(self.order@[p - 1] < self.vec@.len());
            }
            assert(self.order@[0] < self.vec@.len());
        }
        if node.index == self.head {
            None
        } else {
            let pv = self.vec[node.index].prev;
            Some(HNode { index: pv, gen: self.vec[pv].gen, owner: self.id })
        }
    }

    // ----- reading elements -----

    /// Returns a reference to the element addressed by `node`, or `None` if
    /// the handle is invalid (foreign, stale or out of range). O(1).
    pub fn get(&self, node: HNode) -> (r: Option<&T>)
        requires
            self.wf(),
        ensures
            match r {
                Some(v) => self.valid_handle(node) && *v == self.value_of(node),
                None => !self.valid_handle(node),
            },
    {
        if self.is_valid(node) {
            self.vec[node.index].value.as_ref()
        } else {
            None
        }
    }

    /// Returns a reference to the first element, or `None` if the list is
    /// empty. O(1).
    pub fn front(&self) -> (r: Option<&T>)
        requires
            self.wf(),
        ensures
            self@.len() == 0 ==> r is None,
            self@.len() > 0 ==> r is Some && *r->Some_0 == self@[0],
    {
        match self.front_node() {
            None => None,
            Some(h) => {
                proof {
                    self.lemma_handle_at_pos(0);
                }
                self.get(h)
            },
        }
    }

    /// Returns a reference to the last element, or `None` if the list is
    /// empty. O(1).
    pub fn back(&self) -> (r: Option<&T>)
        requires
            self.wf(),
        ensures
            self@.len() == 0 ==> r is None,
            self@.len() > 0 ==> r is Some && *r->Some_0 == self@[self@.len() - 1],
    {
        match self.back_node() {
            None => None,
            Some(h) => {
                proof {
                    self.lemma_handle_at_pos(self@.len() - 1);
                }
                self.get(h)
            },
        }
    }

    /// Returns a reference to the element after the one addressed by
    /// `node`, or `None` if there is none or the handle is invalid. O(1).
    pub fn next_value(&self, node: HNode) -> (r: Option<&T>)
        requires
            self.wf(),
        ensures
            !self.valid_handle(node) ==> r is None,
            self.valid_handle(node) ==> r == (if self.pos_of(node) + 1 < self@.len() {
                Some(&self@[self.pos_of(node) + 1])
            } else {
                None::<&T>
            }),
    {
        match self.next_node(node) {
            None => None,
            Some(h) => {
                proof {
                    self.lemma_valid_pos(node);
                    self.lemma_handle_at_pos(self.pos_of(node) + 1);
                }
                self.get(h)
            },
        }
    }

    /// Returns a reference to the element before the one addressed by
    /// `node`, or `None` if there is none or the handle is invalid. O(1).
    pub fn prev_value(&self, node: HNode) -> (r: Option<&T>)
        requires
            self.wf(),
        ensures
            !self.valid_handle(node) ==> r is None,
            self.valid_handle(node) ==> r == (if self.pos_of(node) > 0 {
                Some(&self@[self.pos_of(node) - 1])
            } else {
                None::<&T>
            }),
    {
        match self.prev_node(node) {
            None => None,
            Some(h) => {
                proof {
                    self.lemma_valid_pos(node);
                    self.lemma_handle_at_pos(self.pos_of(node) - 1);
                }
                self.get(h)
            },
        }
    }

    // ----- public insertion -----

    /// Appends `value` at the back of the list and returns its handle.
    /// Every handle issued earlier keeps addressing the element it
    /// addressed before. O(1).
    pub fn push_back(&mut self, value: T) -> (h: HNode)
        requires
            old(self).wf(),
        ensures
            final(self).wf(),
            final(self)@ == old(self)@.push(value),
            final(self).hseq() == old(self).hseq().push(h),
            final(self).valid_handle(h),
            final(self).value_of(h) == value,
            final(self).pos_of(h) == old(self)@.len(),
            !old(self).valid_handle(h),
            final(self).retired_set() == old(self).retired_set(),
    {
        let h = self.insert_(None, value);
        proof {
            assert(old(self)@.insert(old(self)@.len() as int, value) =~= old(self)@.push(value));
            assert(old(self).hseq().insert(old(self)@.len() as int, h) =~= old(self).hseq().push(
                h,
            ));
            self.lemma_handle_at_pos(self@.len() - 1);
        }
        h
    }

    /// Prepends `value` at the front of the list and returns its handle.
    /// Every handle issued earlier keeps addressing the element it
    /// addressed before. O(1).
    pub fn push_front(&mut self, value: T) -> (h: HNode)
        requires
            old(self).wf(),
        ensures
            final(self).wf(),
            final(self)@ == old(self)@.insert(0, value),
            final(self).hseq() == old(self).hseq().insert(0, h),
            final(self).valid_handle(h),
            final(self).value_of(h) == value,
            final(self).pos_of(h) == 0,
            !old(self).valid_handle(h),
            final(self).retired_set() == old(self).retired_set(),
    {
        let h = if self.len == 0 {
            self.insert_(None, value)
        } else {
            proof {
                assert(self.order@[0] < self.vec@.len());
                self.lemma_handle_at_pos(0);
            }
            let hf = HNode { index: self.head, gen: self.vec[self.head].gen, owner: self.id };
            proof {
                assert(hf == self.hseq()[0]);
            }
            self.insert_(Some(hf), value)
        };
        proof {
            self.lemma_handle_at_pos(0);
        }
        h
    }

    /// Inserts `value` immediately before the element addressed by `node`,
    /// which must be a valid handle, and returns the new element's handle.
    /// O(1).
    pub fn insert(&mut self, node: HNode, value: T) -> (h: HNode)
        requires
            old(self).wf(),
            old(self).valid_handle(node),
        ensures
            final(self).wf(),
            final(self)@ == old(self)@.insert(old(self).pos_of(node), value),
            final(self).hseq() == old(self).hseq().insert(old(self).pos_of(node), h),
            final(self).valid_handle(h),
            final(self).value_of(h) == value,
            final(self).pos_of(h) == old(self).pos_of(node),
            !old(self).valid_handle(h),
            final(self).retired_set() == old(self).retired_set(),
    {
        proof {
            old(self).lemma_valid_pos(node);
        }
        let h = self.insert_(Some(node), value);
        proof {
            self.lemma_handle_at_pos(old(self).pos_of(node));
            old(self).hseq().insert_ensures(old(self).pos_of(node), h);
        }
        h
    }

    /// Inserts `value` immediately after the element addressed by `node`,
    /// which must be a valid handle, and returns the new element's handle.
    /// O(1).
    pub fn insert_after(&mut self, node: HNode, value: T) -> (h: HNode)
        requires
            old(self).wf(),
            old(self).valid_handle(node),
        ensures
            final(self).wf(),
            final(self)@ == old(self)@.insert(old(self).pos_of(node) + 1, value),
            final(self).hseq() == old(self).hseq().insert(old(self).pos_of(node) + 1, h),
            final(self).valid_handle(h),
            final(self).value_of(h) == value,
            final(self).pos_of(h) == old(self).pos_of(node) + 1,
            !old(self).valid_handle(h),
            final(self).retired_set() == old(self).retired_set(),
    {
        proof {
            old(self).lemma_valid_pos(node);
        }
        let nxt = self.next_node(node);
        let h = match nxt {
            Some(hn) => {
                proof {
                    self.lemma_handle_at_pos(self.pos_of(node) + 1);
                }
                self.insert_(Some(hn), value)
            },
            None => self.insert_(None, value),
        };
        proof {
            self.lemma_handle_at_pos(old(self).pos_of(node) + 1);
            old(self).hseq().insert_ensures(old(self).pos_of(node) + 1, h);
        }
        h
    }

    // ----- removal -----

    /// Files a just-emptied slot on the free chain, bumping its generation
    /// so that every handle previously issued for it is recognized as
    /// stale. A slot whose generation counter is exhausted is retired for
    /// good instead of being reused.
    fn push_recyc(&mut self, node: usize)
        requires
            old(self).wf(),
            (node as int) < old(self).vec@.len(),
            !old(self).live(node as int),
            !old(self).free@.contains(node as int),
            forall|g2: HNode|
                #[trigger] old(self).retired@.contains(g2) && g2.index == node ==> g2.gen <= old(
                    self,
                ).slot_gen(node as int),
        ensures
            final(self).wf(),
            final(self).order@ == old(self).order@,
            final(self).retired@ == old(self).retired@,
            final(self).id == old(self).id,
            final(self).head == old(self).head,
            final(self).len == old(self).len,
            final(self).vec@.len() == old(self).vec@.len(),
            !final(self).live(node as int),
            final(self)@ == old(self)@,
            final(self).hseq() == old(self).hseq(),
            forall|j: int|
                0 <= j < final(self).vec@.len() && j != node ==> final(self).vec@[j] == old(
                    self,
                ).vec@[j],
    {
        let ghost fr0 = self.free@;
        proof {
            assert forall|i: int| 0 <= i < fr0.len() implies #[trigger] fr0[i] != node as int by {
                assert(fr0.contains(fr0[i]));
            }
            assert(!self.order@.contains(node as int));
            assert forall|i: int| 0 <= i < self.order@.len() implies #[trigger] self.order@[i]
                != node as int by {
                assert(self.order@.contains(self.order@[i]));
            }
        }
        self.vec[node].prev = NIL;
        let g = self.vec[node].gen;
        if g < u64::MAX {
            self.vec[node].next = self.recyc;
            self.vec[node].gen = g + 1;
            self.recyc = node;
            proof {
                self.free@ = seq![node as int].add(fr0);
                let fr = self.free@;
                assert(fr.len() == fr0.len() + 1);
                assert(fr[0] == node as int);
                assert forall|i: int| 1 <= i < fr.len() implies fr[i] == fr0[i - 1] by {}
                assert(fr.no_duplicates()) by {
                    assert forall|i: int, j: int|
                        0 <= i < fr.len() && 0 <= j < fr.len() && i != j implies fr[i] != fr[j] by {
                        if i != 0 && j != 0 {
                            assert(fr[i] == fr0[i - 1] && fr[j] == fr0[j - 1]);
                        }
                    }
                }
                assert forall|i: int| 0 <= i < fr.len() implies !self.order@.contains(
                    #[trigger] fr[i],
                ) && !self.live(fr[i]) && self.prv(fr[i]) == NIL as int && self.nxt(fr[i]) == (if i
                    + 1 < fr.len() {
                    fr[i + 1]
                } else {
                    NIL as int
                }) by {
                    if i != 0 {
                        assert(fr[i] == fr0[i - 1]);
                        assert(self.vec@[fr0[i - 1]] == old(self).vec@[fr0[i - 1]]);
                    }
                }
                assert(self@ =~= old(self)@);
                assert(self.hseq() =~= old(self).hseq());
            }
        } else {
            self.vec[node].next = NIL;
            proof {
                assert forall|i: int| 0 <= i < fr0.len() implies !self.order@.contains(
                    #[trigger] fr0[i],
                ) && !self.live(fr0[i]) && self.prv(fr0[i]) == NIL as int && self.nxt(fr0[i]) == (
                if i + 1 < fr0.len() {
                    fr0[i + 1]
                } else {
                    NIL as int
                }) by {
                    assert(self.vec@[fr0[i]] == old(self).vec@[fr0[i]]);
                }
                assert(self@ =~= old(self)@);
                assert(self.hseq() =~= old(self).hseq());
            }
        }
    }

    /// Unlinking the element at position `p` (in a list of two or more)
    /// restores well-formedness and removes the element and its handle from
    /// position `p`, retiring the removed handle.
    #[verifier::spinoff_prover]
    #[verifier::rlimit(100)]
    proof fn lemma_unsplice(pre: Self, post: Self, k: int, p: int, g: HNode)
        requires
            pre.wf(),
            pre.order@.len() >= 2,
            0 <= p < pre.order@.len(),
            k == pre.order@[p],
            g == (HNode { index: k as usize, gen: pre.slot_gen(k), owner: pre.id }),
            post.vec@.len() == pre.vec@.len(),
            ({
                let ord0 = pre.order@;
                let n0 = ord0.len() as int;
                let pp = if p == 0 {
                    n0 - 1
                } else {
                    p - 1
                };
                let hprev = ord0[pp];
                let fix = if p == n0 - 1 {
                    ord0[0]
                } else {
                    ord0[p + 1]
                };
                &&& (forall|j: int|
                    0 <= j < post.vec@.len() && j != k && j != hprev && j != fix
                        ==> post.vec@[j] == pre.vec@[j])
                &&& !post.live(k)
                &&& post.slot_gen(k) == pre.slot_gen(k)
                &&& post.nxt(k) == pre.nxt(k)
                &&& post.prv(k) == pre.prv(k)
                &&& post.prv(fix) == hprev
                &&& post.vec@[fix].value == pre.vec@[fix].value
                &&& post.slot_gen(fix) == pre.slot_gen(fix)
                &&& post.vec@[hprev].value == pre.vec@[hprev].value
                &&& post.slot_gen(hprev) == pre.slot_gen(hprev)
                &&& (p == 0 ==> post.nxt(hprev) == pre.nxt(hprev) && post.nxt(fix) == pre.nxt(
                    fix,
                ))
                &&& (p > 0 ==> post.nxt(hprev) == (if p == n0 - 1 {
                    NIL as int
                } else {
                    ord0[p + 1]
                }))
                &&& (p > 0 && fix != hprev ==> post.nxt(fix) == pre.nxt(fix))
                &&& (fix != hprev ==> post.prv(hprev) == pre.prv(hprev))
                &&& post.head as int == (if p == 0 {
                    fix
                } else {
                    pre.head as int
                })
            }),
            post.len == pre.len - 1,
            post.order@ == pre.order@.remove(p),
            post.free@ == pre.free@,
            post.recyc == pre.recyc,
            post.id == pre.id,
            post.retired@ == pre.retired@.insert(g),
        ensures
            post.wf(),
            post@ == pre@.remove(p),
            post.hseq() == pre.hseq().remove(p),
            !post.valid_handle(g),
            forall|g2: HNode|
                #[trigger] post.retired@.contains(g2) && g2.index as int == k ==> g2.gen
                    <= post.slot_gen(k),
    {
        Self::lemma_unsplice_links(pre, post, k, p, g);
        Self::lemma_unsplice_views(pre, post, k, p, g);
    }

    /// The well-formedness half of the unlinking argument.
    #[verifier::spinoff_prover]
    #[verifier::rlimit(100)]
    proof fn lemma_unsplice_links(pre: Self, post: Self, k: int, p: int, g: HNode)
        requires
            pre.wf(),
            pre.order@.len() >= 2,
            0 <= p < pre.order@.len(),
            k == pre.order@[p],
            g == (HNode { index: k as usize, gen: pre.slot_gen(k), owner: pre.id }),
            post.vec@.len() == pre.vec@.len(),
            ({
                let ord0 = pre.order@;
                let n0 = ord0.len() as int;
                let pp = if p == 0 {
                    n0 - 1
                } else {
                    p - 1
                };
                let hprev = ord0[pp];
                let fix = if p == n0 - 1 {
                    ord0[0]
                } else {
                    ord0[p + 1]
                };
                &&& (forall|j: int|
                    0 <= j < post.vec@.len() && j != k && j != hprev && j != fix
                        ==> post.vec@[j] == pre.vec@[j])
                &&& !post.live(k)
                &&& post.slot_gen(k) == pre.slot_gen(k)
                &&& post.nxt(k) == pre.nxt(k)
                &&& post.prv(k) == pre.prv(k)
                &&& post.prv(fix) == hprev
                &&& post.vec@[fix].value == pre.vec@[fix].value
                &&& post.slot_gen(fix) == pre.slot_gen(fix)
                &&& post.vec@[hprev].value == pre.vec@[hprev].value
                &&& post.slot_gen(hprev) == pre.slot_gen(hprev)
                &&& (p == 0 ==> post.nxt(hprev) == pre.nxt(hprev) && post.nxt(fix) == pre.nxt(
                    fix,
                ))
                &&& (p > 0 ==> post.nxt(hprev) == (if p == n0 - 1 {
                    NIL as int
                } else {
                    ord0[p + 1]
                }))
                &&& (p > 0 && fix != hprev ==> post.nxt(fix) == pre.nxt(fix))
                &&& (fix != hprev ==> post.prv(hprev) == pre.prv(hprev))
                &&& post.head as int == (if p == 0 {
                    fix
                } else {
                    pre.head as int
                })
            }),
            post.len == pre.len - 1,
            post.order@ == pre.order@.remove(p),
            post.free@ == pre.free@,
            post.recyc == pre.recyc,
            post.id == pre.id,
            post.retired@ == pre.retired@.insert(g),
        ensures
            post.wf(),
    {
        let ord0 = pre.order@;
        let ord2 = post.order@;
        let n0 = ord0.len() as int;
        let pp = if p == 0 {
            n0 - 1
        } else {
            p - 1
        };
        let hprev = ord0[pp];
        let fix = if p == n0 - 1 {
            ord0[0]
        } else {
            ord0[p + 1]
        };
        ord0.remove_ensures(p);
        pre@.remove_ensures(p);
        pre.hseq().remove_ensures(p);
        assert(ord0.contains(ord0[p]));
        assert(pre.live(k));
        assert(!pre.dead(k));
        assert(ord2.len() == n0 - 1);
        assert(ord2.no_duplicates()) by {
            assert forall|i: int, j: int|
                0 <= i < ord2.len() && 0 <= j < ord2.len() && i != j implies ord2[i] != ord2[j] by {
                let i0 = if i < p {
                    i
                } else {
                    i + 1
                };
                let j0 = if j < p {
                    j
                } else {
                    j + 1
                };
                assert(ord2[i] == ord0[i0] && ord2[j] == ord0[j0]);
            }
        }
        assert forall|i: int| 0 <= i < ord2.len() implies 0 <= #[trigger] ord2[i]
            < post.vec@.len() by {
            let i0 = if i < p {
                i
            } else {
                i + 1
            };
            assert(ord2[i] == ord0[i0]);
        }
        assert forall|i: int| 0 <= i < ord2.len() implies #[trigger] ord2[i] != k by {
            let i0 = if i < p {
                i
            } else {
                i + 1
            };
            assert(ord2[i] == ord0[i0]);
            assert(ord0[i0] != ord0[p]);
        }
        assert forall|k2: int| 0 <= k2 < post.vec@.len() && k2 != k implies (
        #[trigger] ord2.contains(k2) <==> ord0.contains(k2)) by {
            if ord2.contains(k2) {
                let j = choose|j: int| 0 <= j < ord2.len() && ord2[j] == k2;
                let j0 = if j < p {
                    j
                } else {
                    j + 1
                };
                assert(ord0[j0] == k2);
            }
            if ord0.contains(k2) {
                let j0 = choose|j0: int| 0 <= j0 < ord0.len() && ord0[j0] == k2;
                assert(j0 != p);
                let j = if j0 < p {
                    j0
                } else {
                    j0 - 1
                };
                assert(ord2[j] == k2);
            }
        }
        assert forall|k2: int| 0 <= k2 < post.vec@.len() implies (post.live(k2)
            <==> ord2.contains(k2)) by {
            if k2 != k && k2 != hprev && k2 != fix {
                assert(post.vec@[k2] == pre.vec@[k2]);
            }
            if k2 == k {
                assert(!ord2.contains(k2));
            }
        }
        assert forall|i: int| 0 <= i < ord2.len() implies post.nxt(#[trigger] ord2[i]) == (if i + 1
            < ord2.len() {
            ord2[i + 1]
        } else {
            NIL as int
        }) by {
            let n2 = ord2.len() as int;
            if i < p - 1 {
                assert(ord2[i] == ord0[i] && ord2[i + 1] == ord0[i + 1]);
                if ord0[i] != hprev && ord0[i] != fix {
                    assert(post.vec@[ord0[i]] == pre.vec@[ord0[i]]);
                }
            } else if i == p - 1 {
                assert(ord2[i] == ord0[p - 1]);
                if i + 1 < n2 {
                    assert(ord2[i + 1] == ord0[p + 1]);
                }
            } else {
                assert(ord2[i] == ord0[i + 1]);
                if i + 1 < n2 {
                    assert(ord2[i + 1] == ord0[i + 2]);
                }
                if ord0[i + 1] != hprev && ord0[i + 1] != fix {
                    assert(post.vec@[ord0[i + 1]] == pre.vec@[ord0[i + 1]]);
                }
            }
        }
        assert forall|i: int| 0 <= i < ord2.len() implies post.prv(#[trigger] ord2[i]) == (if i
            == 0 {
            ord2[ord2.len() - 1]
        } else {
            ord2[i - 1]
        }) by {
            let n2 = ord2.len() as int;
            assert(ord2[n2 - 1] == (if p == n0 - 1 {
                ord0[n0 - 2]
            } else {
                ord0[n0 - 1]
            }));
            if i < p - 1 {
                assert(ord2[i] == ord0[i]);
                if i > 0 {
                    assert(ord2[i - 1] == ord0[i - 1]);
                }
                if ord0[i] != hprev && ord0[i] != fix {
                    assert(post.vec@[ord0[i]] == pre.vec@[ord0[i]]);
                }
            } else if i == p - 1 {
                assert(ord2[i] == ord0[p - 1]);
                if i > 0 {
                    assert(ord2[i - 1] == ord0[i - 1]);
                }
            } else {
                assert(ord2[i] == ord0[i + 1]);
                if i > 0 && i != p {
                    assert(ord2[i - 1] == (if i - 1 < p {
                        ord0[i - 1]
                    } else {
                        ord0[i]
                    }));
                }
                if i == p && i > 0 {
                    assert(ord2[i - 1] == ord0[p - 1]);
                }
                if ord0[i + 1] != hprev && ord0[i + 1] != fix {
                    assert(post.vec@[ord0[i + 1]] == pre.vec@[ord0[i + 1]]);
                }
            }
        }
        assert forall|i: int| 0 <= i < post.free@.len() implies !ord2.contains(
            #[trigger] post.free@[i],
        ) && !post.live(post.free@[i]) && post.prv(post.free@[i]) == NIL as int && post.nxt(
            post.free@[i],
        ) == (if i + 1 < post.free@.len() {
            post.free@[i + 1]
        } else {
            NIL as int
        }) by {
            assert(pre.free@.contains(pre.free@[i]));
            assert(!ord0.contains(pre.free@[i]));
            assert(pre.free@[i] != ord0[pp] && pre.free@[i] != ord0[p] && pre.free@[i] != (if p
                == n0 - 1 {
                ord0[0]
            } else {
                ord0[p + 1]
            }));
            assert(post.vec@[pre.free@[i]] == pre.vec@[pre.free@[i]]);
        }
        assert forall|g2: HNode| #[trigger] post.retired@.contains(g2) implies 0 <= g2.index
            < post.vec@.len() && (g2.gen < post.slot_gen(g2.index as int) || post.dead(
            g2.index as int,
        )) by {
            let j = g2.index as int;
            if g2 == g {
                assert(!post.live(k) && !post.free@.contains(k));
            } else {
                assert(pre.retired@.contains(g2));
                if j != k && j != hprev && j != fix {
                    assert(post.vec@[j] == pre.vec@[j]);
                }
                if pre.dead(j) {
                    assert(!ord0.contains(j));
                    assert(j != ord0[pp] && j != ord0[p] && j != (if p == n0 - 1 {
                        ord0[0]
                    } else {
                        ord0[p + 1]
                    }));
                    assert(post.vec@[j] == pre.vec@[j]);
                }
            }
        }
        assert(post.wf());
    }

    /// The view, handle-sequence and retirement half of the unlinking
    /// argument.
    #[verifier::spinoff_prover]
    #[verifier::rlimit(100)]
    proof fn lemma_unsplice_views(pre: Self, post: Self, k: int, p: int, g: HNode)
        requires
            pre.wf(),
            pre.order@.len() >= 2,
            0 <= p < pre.order@.len(),
            k == pre.order@[p],
            g == (HNode { index: k as usize, gen: pre.slot_gen(k), owner: pre.id }),
            post.vec@.len() == pre.vec@.len(),
            ({
                let ord0 = pre.order@;
                let n0 = ord0.len() as int;
                let pp = if p == 0 {
                    n0 - 1
                } else {
                    p - 1
                };
                let hprev = ord0[pp];
                let fix = if p == n0 - 1 {
                    ord0[0]
                } else {
                    ord0[p + 1]
                };
                &&& (forall|j: int|
                    0 <= j < post.vec@.len() && j != k && j != hprev && j != fix
                        ==> post.vec@[j] == pre.vec@[j])
                &&& !post.live(k)
                &&& post.slot_gen(k) == pre.slot_gen(k)
                &&& post.nxt(k) == pre.nxt(k)
                &&& post.prv(k) == pre.prv(k)
                &&& post.prv(fix) == hprev
                &&& post.vec@[fix].value == pre.vec@[fix].value
                &&& post.slot_gen(fix) == pre.slot_gen(fix)
                &&& post.vec@[hprev].value == pre.vec@[hprev].value
                &&& post.slot_gen(hprev) == pre.slot_gen(hprev)
                &&& (p == 0 ==> post.nxt(hprev) == pre.nxt(hprev) && post.nxt(fix) == pre.nxt(
                    fix,
                ))
                &&& (p > 0 ==> post.nxt(hprev) == (if p == n0 - 1 {
                    NIL as int
                } else {
                    ord0[p + 1]
                }))
                &&& (p > 0 && fix != hprev ==> post.nxt(fix) == pre.nxt(fix))
                &&& (fix != hprev ==> post.prv(hprev) == pre.prv(hprev))
                &&& post.head as int == (if p == 0 {
                    fix
                } else {
                    pre.head as int
                })
            }),
            post.len == pre.len - 1,
            post.order@ == pre.order@.remove(p),
            post.free@ == pre.free@,
            post.recyc == pre.recyc,
            post.id == pre.id,
            post.retired@ == pre.retired@.insert(g),
        ensures
            post@ == pre@.remove(p),
            post.hseq() == pre.hseq().remove(p),
            !post.valid_handle(g),
            forall|g2: HNode|
                #[trigger] post.retired@.contains(g2) && g2.index as int == k ==> g2.gen
                    <= post.slot_gen(k),
    {
        let ord0 = pre.order@;
        let ord2 = post.order@;
        let n0 = ord0.len() as int;
        let pp = if p == 0 {
            n0 - 1
        } else {
            p - 1
        };
        let hprev = ord0[pp];
        let fix = if p == n0 - 1 {
            ord0[0]
        } else {
            ord0[p + 1]
        };
        ord0.remove_ensures(p);
        pre@.remove_ensures(p);
        pre.hseq().remove_ensures(p);
        assert(ord0.contains(ord0[p]));
        assert(pre.live(k));
        assert(!pre.dead(k));
        assert forall|g2: HNode| #[trigger] post.retired@.contains(g2) && g2.index as int
            == k implies g2.gen <= post.slot_gen(k) by {
            if g2 != g {
                assert(pre.retired@.contains(g2));
                assert(!pre.dead(k));
            }
        }
        assert(post@ =~= pre@.remove(p)) by {
            assert forall|i: int| 0 <= i < post@.len() implies post@[i] == pre@.remove(p)[i] by {
                let i0 = if i < p {
                    i
                } else {
                    i + 1
                };
                assert(ord2[i] == ord0[i0]);
                if ord0[i0] != hprev && ord0[i0] != fix {
                    assert(post.vec@[ord0[i0]] == pre.vec@[ord0[i0]]);
                }
            }
        }
        assert(post.hseq() =~= pre.hseq().remove(p)) by {
            assert forall|i: int| 0 <= i < post.hseq().len() implies post.hseq()[i]
                == pre.hseq().remove(p)[i] by {
                let i0 = if i < p {
                    i
                } else {
                    i + 1
                };
                assert(ord2[i] == ord0[i0]);
                assert(pre.hseq()[i0] == pre.handle_at(i0));
                if ord0[i0] != hprev && ord0[i0] != fix {
                    assert(post.vec@[ord0[i0]] == pre.vec@[ord0[i0]]);
                }
            }
        }    }

    /// Removes the element addressed by `node`, or the last element when
    /// `node` is `None`. Returns the removed element, or `None` (leaving
    /// the list untouched) when the handle is invalid or the list is empty.
    /// The removed handle is retired: it never addresses an element of this
    /// list again. All other handles keep addressing their elements. O(1).
    #[verifier::rlimit(100)]
    #[verifier::spinoff_prover]
    pub fn remove_(&mut self, node: Option<HNode>) -> (r: Option<T>)
        requires
            old(self).wf(),
        ensures
            final(self).wf(),
            ({
                let miss = if node is Some {
                    !old(self).valid_handle(node->Some_0)
                } else {
                    old(self)@.len() == 0
                };
                if miss {
                    r is None && *final(self) == *old(self)
                } else {
                    let p = if node is Some {
                        old(self).pos_of(node->Some_0)
                    } else {
                        old(self)@.len() - 1
                    };
                    let g = old(self).hseq()[p];
                    &&& r == Some(old(self)@[p])
                    &&& final(self)@ == old(self)@.remove(p)
                    &&& final(self).hseq() == old(self).hseq().remove(p)
                    &&& !final(self).valid_handle(g)
                    &&& final(self).retired_set() == old(self).retired_set().insert(g)
                }
            }),
    {
        let target: HNode = match node {
            Some(h) => {
                if !self.is_valid(h) {
                    return None;
                }
                proof {
                    self.lemma_valid_pos(h);
                    assert(h == self.hseq()[self.pos_of(h)]);
                }
                h
            },
            None => {
                if self.len == 0 {
                    return None;
                }
                proof {
                    assert(self.order@[0] < self.vec@.len());
                    assert(self.prv(self.order@[0]) == self.order@[self.order@.len() - 1]);
                    assert(self.order@[self.order@.len() - 1] < self.vec@.len());
                    self.lemma_handle_at_pos(self@.len() - 1);
                }
                let t = self.vec[self.head].prev;
                HNode { index: t, gen: self.vec[t].gen, owner: self.id }
            },
        };
        let ghost p: int = self.pos_of(target);
        let ghost ord0 = self.order@;
        proof {
            self.lemma_valid_pos(target);
            assert(ord0[p] == target.index as int);
        }
        let idx = target.index;
        if self.len > 1 {
            proof {
                let pp = if p == 0 {
                    ord0.len() - 1
                } else {
                    p - 1
                };
                assert(self.prv(ord0[p]) == ord0[pp]);
                assert(ord0[pp] < self.vec@.len());
                if p + 1 < ord0.len() {
                    assert(self.nxt(ord0[p]) == ord0[p + 1]);
                    assert(ord0[p + 1] < self.vec@.len());
                } else {
                    assert(self.nxt(ord0[p]) == NIL as int);
                }
                assert(self.order@[0] < self.vec@.len());
            }
            let hprev = self.vec[idx].prev;
            let hnext = self.vec[idx].next;
            if hnext == NIL {
                proof {
                    assert(p == ord0.len() - 1);
                }
                self.vec[self.head].prev = hprev;
            } else {
                proof {
                    assert(p < ord0.len() - 1);
                }
                self.vec[hnext].prev = hprev;
            }
            if idx == self.head {
                proof {
                    assert(idx as int == ord0[0]);
                    assert(p == 0);
                }
                self.head = hnext;
            } else {
                proof {
                    if p == 0 {
                        assert(idx as int == ord0[0]);
                        assert(false);
                    }
                }
                self.vec[hprev].next = hnext;
            }
            self.len = self.len - 1;
            let v = self.vec[idx].value.take();
            proof {
                self.order@ = ord0.remove(p);
                self.retired@ = self.retired@.insert(target);
                Self::lemma_unsplice(*old(self), *self, idx as int, p, target);
            }
            self.push_recyc(idx);
            v
        } else {
            proof {
                assert(ord0.len() == 1 && p == 0);
            }
            self.head = NIL;
            self.len = 0;
            let v = self.vec[idx].value.take();
            proof {
                self.order@ = Seq::empty();
                self.retired@ = self.retired@.insert(target);
                assert forall|i: int| 0 <= i < self.free@.len() implies !self.order@.contains(
                    #[trigger] self.free@[i],
                ) && !self.live(self.free@[i]) && self.prv(self.free@[i]) == NIL as int
                    && self.nxt(self.free@[i]) == (if i + 1 < self.free@.len() {
                    self.free@[i + 1]
                } else {
                    NIL as int
                }) by {
                    assert(old(self).free@.contains(old(self).free@[i]));
                    assert(!ord0.contains(old(self).free@[i]));
                    assert(old(self).free@[i] != ord0[0]);
                    assert(self.vec@[self.free@[i]] == old(self).vec@[self.free@[i]]);
                }
                assert forall|k2: int| 0 <= k2 < self.vec@.len() implies (self.live(k2)
                    <==> self.order@.contains(k2)) by {
                    if k2 != idx as int {
                        assert(self.vec@[k2] == old(self).vec@[k2]);
                        if old(self).order@.contains(k2) {
                            let j = choose|j: int| 0 <= j < ord0.len() && ord0[j] == k2;
                            assert(false);
                        }
                    }
                }
                assert forall|g2: HNode| #[trigger] self.retired@.contains(g2) implies 0 <= g2.index
                    < self.vec@.len() && (g2.gen < self.slot_gen(g2.index as int) || self.dead(
                    g2.index as int,
                )) by {
                    let j = g2.index as int;
                    if g2 != target {
                        assert(old(self).retired@.contains(g2));
                        if j != idx as int {
                            assert(self.vec@[j] == old(self).vec@[j]);
                        }
                        if old(self).dead(j) {
                            assert(!ord0.contains(j));
                            assert(j != ord0[0]);
                            assert(self.vec@[j] == old(self).vec@[j]);
                        }
                    }
                }
                assert(self.wf());
                assert forall|g2: HNode| #[trigger] self.retired@.contains(g2) && g2.index as int
                    == idx as int implies g2.gen <= self.slot_gen(idx as int) by {
                    if g2 != target {
                        assert(old(self).retired@.contains(g2));
                        assert(!old(self).dead(idx as int));
                    }
                }
                assert(self@ =~= old(self)@.remove(p));
                assert(self.hseq() =~= old(self).hseq().remove(p));
            }
            self.push_recyc(idx);
            v
        }
    }

    /// Removes the element addressed by `node` and returns it, or returns
    /// `None` (leaving the list untouched) when the handle is invalid. The
    /// handle is retired: it is never accepted by this list again, even
    /// after the slot is reused. All other handles keep addressing their
    /// elements. O(1).
    pub fn remove(&mut self, node: HNode) -> (r: Option<T>)
        requires
            old(self).wf(),
        ensures
            final(self).wf(),
            !old(self).valid_handle(node) ==> r is None && *final(self) == *old(self),
            old(self).valid_handle(node) ==> ({
                let p = old(self).pos_of(node);
                &&& r == Some(old(self)@[p])
                &&& final(self)@ == old(self)@.remove(p)
                &&& final(self).hseq() == old(self).hseq().remove(p)
                &&& !final(self).valid_handle(node)
                &&& final(self).retired_set() == old(self).retired_set().insert(node)
            }),
    {
        proof {
            if old(self).valid_handle(node) {
                old(self).lemma_valid_pos(node);
            }
        }
        self.remove_(Some(node))
    }

    /// Removes and returns the last element, or `None` if the list is
    /// empty. O(1).
    pub fn pop_back(&mut self) -> (r: Option<T>)
        requires
            old(self).wf(),
        ensures
            final(self).wf(),
            old(self)@.len() == 0 ==> r is None && *final(self) == *old(self),
            old(self)@.len() > 0 ==> ({
                let p = old(self)@.len() - 1;
                &&& r == Some(old(self)@[p])
                &&& final(self)@ == old(self)@.remove(p)
                &&& final(self).hseq() == old(self).hseq().remove(p)
                &&& final(self).retired_set() == old(self).retired_set().insert(
                    old(self).hseq()[p],
                )
            }),
    {
        self.remove_(None)
    }

    /// Removes and returns the first element, or `None` if the list is
    /// empty. O(1).
    pub fn pop_front(&mut self) -> (r: Option<T>)
        requires
            old(self).wf(),
        ensures
            final(self).wf(),
            old(self)@.len() == 0 ==> r is None && *final(self) == *old(self),
            old(self)@.len() > 0 ==> ({
                &&& r == Some(old(self)@[0])
                &&& final(self)@ == old(self)@.remove(0)
                &&& final(self).hseq() == old(self).hseq().remove(0)
                &&& final(self).retired_set() == old(self).retired_set().insert(
                    old(self).hseq()[0],
                )
            }),
    {
        if self.len == 0 {
            return None;
        }
        proof {
            self.lemma_handle_at_pos(0);
            assert(self.order@[0] < self.vec@.len());
        }
        let hf = HNode { index: self.head, gen: self.vec[self.head].gen, owner: self.id };
        proof {
            assert(hf == self.hseq()[0]);
        }
        self.remove_(Some(hf))
    }

    // ----- mutable access -----

    /// Replacing the element value in one live slot preserves
    /// well-formedness and the handle sequence, and updates the view at the
    /// slot's traversal position.
    proof fn lemma_value_update(pre: Self, post: Self, node: HNode, newval: T)
        requires
            pre.wf(),
            pre.valid_handle(node),
            post.vec@.len() == pre.vec@.len(),
            forall|j: int|
                0 <= j < post.vec@.len() && j != node.index ==> post.vec@[j] == pre.vec@[j],
            post.live(node.index as int),
            post.slot_val(node.index as int) == newval,
            post.slot_gen(node.index as int) == pre.slot_gen(node.index as int),
            post.nxt(node.index as int) == pre.nxt(node.index as int),
            post.prv(node.index as int) == pre.prv(node.index as int),
            post.order@ == pre.order@,
            post.free@ == pre.free@,
            post.retired@ == pre.retired@,
            post.head == pre.head,
            post.recyc == pre.recyc,
            post.len == pre.len,
            post.id == pre.id,
        ensures
            post.wf(),
            post@ == pre@.update(pre.pos_of(node), newval),
            post.hseq() == pre.hseq(),
    {
        pre.lemma_valid_pos(node);
        let k = node.index as int;
        let ord = pre.order@;
        let p = pre.pos_of(node);
        assert forall|k2: int| 0 <= k2 < post.vec@.len() implies (post.live(k2) <==> ord.contains(
            k2,
        )) by {
            if k2 != k {
                assert(post.vec@[k2] == pre.vec@[k2]);
            }
        }
        assert forall|i: int| 0 <= i < ord.len() implies post.nxt(#[trigger] ord[i]) == pre.nxt(
            ord[i],
        ) && post.prv(ord[i]) == pre.prv(ord[i]) && post.slot_gen(ord[i]) == pre.slot_gen(
            ord[i],
        ) by {
            if ord[i] != k {
                assert(post.vec@[ord[i]] == pre.vec@[ord[i]]);
            }
        }
        assert forall|i: int| 0 <= i < post.free@.len() implies !post.live(
            #[trigger] post.free@[i],
        ) && post.prv(post.free@[i]) == NIL as int && post.nxt(post.free@[i]) == (if i + 1
            < post.free@.len() {
            post.free@[i + 1]
        } else {
            NIL as int
        }) by {
            assert(pre.free@.contains(pre.free@[i]));
            assert(!ord.contains(pre.free@[i]));
            assert(pre.free@[i] != ord[p]);
            assert(post.vec@[pre.free@[i]] == pre.vec@[pre.free@[i]]);
        }
        assert forall|g2: HNode| #[trigger] post.retired@.contains(g2) implies 0 <= g2.index
            < post.vec@.len() && (g2.gen < post.slot_gen(g2.index as int) || post.dead(
            g2.index as int,
        )) by {
            let j = g2.index as int;
            if j != k {
                assert(post.vec@[j] == pre.vec@[j]);
            } else {
                assert(!pre.dead(k));
            }
        }
        assert(post.wf());
        assert(post@ =~= pre@.update(p, newval)) by {
            assert forall|i: int| 0 <= i < post@.len() implies post@[i] == pre@.update(
                p,
                newval,
            )[i] by {
                if i != p {
                    assert(ord[i] != ord[p]);
                    assert(post.vec@[ord[i]] == pre.vec@[ord[i]]);
                }
            }
        }
        assert(post.hseq() =~= pre.hseq()) by {
            assert forall|i: int| 0 <= i < post.hseq().len() implies post.hseq()[i]
                == pre.hseq()[i] by {
                if i != p {
                    assert(ord[i] != ord[p]);
                    assert(post.vec@[ord[i]] == pre.vec@[ord[i]]);
                }
            }
        }
    }

    /// Returns a mutable reference to the element addressed by `node`, or
    /// `None` (leaving the list untouched) if the handle is invalid. Writing
    /// through the reference changes the element at the handle's position;
    /// the structure and every handle are unaffected. O(1).
    pub fn get_mut(&mut self, node: HNode) -> (r: Option<&mut T>)
        requires
            old(self).wf(),
        ensures
            !old(self).valid_handle(node) ==> r is None && *final(self) == *old(self),
            old(self).valid_handle(node) ==> r is Some && ({
                let v = r->Some_0;
                &&& *v == old(self).value_of(node)
                &&& final(self).wf()
                &&& final(self)@ == old(self)@.update(old(self).pos_of(node), *final(v))
                &&& final(self).hseq() == old(self).hseq()
                &&& final(self).retired_set() == old(self).retired_set()
            }),
    {
        if self.is_valid(node) {
            proof {
                old(self).lemma_valid_pos(node);
            }
            let r = self.vec[node.index].value.as_mut();
            proof {
                Self::lemma_value_update(
                    *old(self),
                    after_borrow(*self),
                    node,
                    after_borrow(*self).slot_val(node.index as int),
                );
            }
            r
        } else {
            None
        }
    }

    /// Returns a mutable reference to the first element, or `None` if the
    /// list is empty. O(1).
    pub fn front_mut(&mut self) -> (r: Option<&mut T>)
        requires
            old(self).wf(),
        ensures
            old(self)@.len() == 0 ==> r is None && *final(self) == *old(self),
            old(self)@.len() > 0 ==> r is Some && ({
                let v = r->Some_0;
                &&& *v == old(self)@[0]
                &&& final(self).wf()
                &&& final(self)@ == old(self)@.update(0, *final(v))
                &&& final(self).hseq() == old(self).hseq()
                &&& final(self).retired_set() == old(self).retired_set()
            }),
    {
        let front = self.front_node();
        match front {
            None => None,
            Some(h) => {
                proof {
                    old(self).lemma_handle_at_pos(0);
                }
                self.get_mut(h)
            },
        }
    }

    /// Returns a mutable reference to the last element, or `None` if the
    /// list is empty. O(1).
    pub fn back_mut(&mut self) -> (r: Option<&mut T>)
        requires
            old(self).wf(),
        ensures
            old(self)@.len() == 0 ==> r is None && *final(self) == *old(self),
            old(self)@.len() > 0 ==> r is Some && ({
                let v = r->Some_0;
                &&& *v == old(self)@[old(self)@.len() - 1]
                &&& final(self).wf()
                &&& final(self)@ == old(self)@.update(old(self)@.len() - 1, *final(v))
                &&& final(self).hseq() == old(self).hseq()
                &&& final(self).retired_set() == old(self).retired_set()
            }),
    {
        let back = self.back_node();
        match back {
            None => None,
            Some(h) => {
                proof {
                    old(self).lemma_handle_at_pos(old(self)@.len() - 1);
                }
                self.get_mut(h)
            },
        }
    }

    /// Returns a mutable reference to the element after the one addressed
    /// by `node`, or `None` (leaving the list untouched) if there is none
    /// or the handle is invalid. O(1).
    pub fn next_value_mut(&mut self, node: HNode) -> (r: Option<&mut T>)
        requires
            old(self).wf(),
        ensures
            (!old(self).valid_handle(node) || old(self).pos_of(node) + 1 >= old(self)@.len())
                ==> r is None && *final(self) == *old(self),
            old(self).valid_handle(node) && old(self).pos_of(node) + 1 < old(self)@.len()
                ==> r is Some && ({
                let v = r->Some_0;
                let p = old(self).pos_of(node) + 1;
                &&& *v == old(self)@[p]
                &&& final(self).wf()
                &&& final(self)@ == old(self)@.update(p, *final(v))
                &&& final(self).hseq() == old(self).hseq()
                &&& final(self).retired_set() == old(self).retired_set()
            }),
    {
        let nxt = self.next_node(node);
        match nxt {
            None => None,
            Some(h) => {
                proof {
                    old(self).lemma_valid_pos(node);
                    old(self).lemma_handle_at_pos(old(self).pos_of(node) + 1);
                }
                self.get_mut(h)
            },
        }
    }

    /// Returns a mutable reference to the element before the one addressed
    /// by `node`, or `None` (leaving the list untouched) if there is none
    /// or the handle is invalid. O(1).
    pub fn prev_value_mut(&mut self, node: HNode) -> (r: Option<&mut T>)
        requires
            old(self).wf(),
        ensures
            (!old(self).valid_handle(node) || old(self).pos_of(node) == 0) ==> r is None
                && *final(self) == *old(self),
            old(self).valid_handle(node) && old(self).pos_of(node) > 0 ==> r is Some && ({
                let v = r->Some_0;
                let p = old(self).pos_of(node) - 1;
                &&& *v == old(self)@[p]
                &&& final(self).wf()
                &&& final(self)@ == old(self)@.update(p, *final(v))
                &&& final(self).hseq() == old(self).hseq()
                &&& final(self).retired_set() == old(self).retired_set()
            }),
    {
        let prv = self.prev_node(node);
        match prv {
            None => None,
            Some(h) => {
                proof {
                    old(self).lemma_valid_pos(node);
                    old(self).lemma_handle_at_pos(old(self).pos_of(node) - 1);
                }
                self.get_mut(h)
            },
        }
    }

    // ----- whole-list operations -----

    /// Removes all elements and releases every slot. All handles issued so
    /// far stop being valid; the retirement record starts afresh.
    pub fn clear(&mut self)
        requires
            old(self).wf(),
        ensures
            final(self).wf(),
            final(self)@ == Seq::<T>::empty(),
            final(self).hseq() == Seq::<HNode>::empty(),
            final(self).retired_set() == Set::<HNode>::empty(),
    {
        self.vec.clear();
        self.len = 0;
        self.head = NIL;
        self.recyc = NIL;
        proof {
            self.order@ = Seq::empty();
            self.free@ = Seq::empty();
            self.retired@ = Set::empty();
            assert(self@ =~= Seq::<T>::empty());
            assert(self.hseq() =~= Seq::<HNode>::empty());
        }
    }

    /// Moves all elements of `other` onto the back of `self`, leaving
    /// `other` empty. Handles issued by `self` keep addressing their
    /// elements; handles issued by `other` stop being valid for `other`.
    /// O(n) in the length of `other`.
    #[verifier::loop_isolation(false)]
    pub fn append(&mut self, other: &mut Self)
        requires
            old(self).wf(),
            old(other).wf(),
        ensures
            final(self).wf(),
            final(other).wf(),
            final(self)@ == old(self)@ + old(other)@,
            final(other)@ == Seq::<T>::empty(),
            final(other).hseq() == Seq::<HNode>::empty(),
            final(self).hseq().len() == old(self)@.len() + old(other)@.len(),
            forall|i: int|
                0 <= i < old(self)@.len() ==> final(self).hseq()[i] == old(self).hseq()[i],
            final(self).retired_set() == old(self).retired_set(),
    {
        let ghost init_s = *self;
        let ghost init_o = *other;
        let ghost n_oth = init_o@.len() as int;
        while !other.is_empty()
            invariant
                self.wf(),
                other.wf(),
                init_s@.len() <= self@.len(),
                self@.len() - init_s@.len() + other@.len() == n_oth,
                self@ == init_s@ + init_o@.subrange(0, self@.len() - init_s@.len()),
                other@ == init_o@.subrange(self@.len() - init_s@.len(), n_oth),
                forall|i: int| 0 <= i < init_s@.len() ==> self.hseq()[i] == init_s.hseq()[i],
                self.retired_set() == init_s.retired_set(),
            decreases other@.len(),
        {
            let ghost k = self@.len() - init_s@.len();
            let ghost self0 = *self;
            let ghost oth0 = *other;
            let v = other.pop_front();
            match v {
                Some(x) => {
                    proof {
                        assert(0 <= k);
                        assert(oth0@ == init_o@.subrange(k, n_oth));
                        assert(k < n_oth);
                        lemma_subrange_first(init_o@, k, n_oth);
                        assert(x == oth0@[0]);
                        assert(x == init_o@[k]);
                    }
                    self.push_back(x);
                    proof {
                        lemma_subrange_push(init_o@, k);
                        assert(self@ =~= init_s@ + init_o@.subrange(0, k + 1));
                        lemma_subrange_drop_first(init_o@, k, n_oth);
                        assert(other@ == init_o@.subrange(k + 1, n_oth));
                        assert forall|i: int| 0 <= i < init_s@.len() implies self.hseq()[i]
                            == init_s.hseq()[i] by {
                            assert(self.hseq()[i] == self0.hseq()[i]);
                        }
                    }
                },
                None => {
                    proof {
                        assert(false);
                    }
                },
            }
        }
        proof {
            assert(self@ =~= init_s@ + init_o@);
        }
        other.clear();
    }

    /// Returns the elements of the list as a vector, each obtained by
    /// cloning, in traversal order. O(n).
    pub fn to_vec(&self) -> (r: Vec<T>) where T: Clone
        requires
            self.wf(),
        ensures
            r@.len() == self@.len(),
            forall|j: int| 0 <= j < r@.len() ==> cloned::<T>(self@[j], #[trigger] r@[j]),
    {
        let mut r: Vec<T> = Vec::new();
        let mut cur: usize = self.head;
        let mut i: usize = 0;
        while i < self.len
            invariant
                self.wf(),
                0 <= i <= self@.len(),
                r@.len() == i,
                forall|j: int| 0 <= j < i ==> cloned::<T>(self@[j], #[trigger] r@[j]),
                cur as int == (if (i as int) < self@.len() {
                    self.order@[i as int]
                } else {
                    NIL as int
                }),
            decreases self@.len() - i,
        {
            proof {
                assert(self.order@.contains(self.order@[i as int]));
                assert(0 <= self.order@[i as int] < self.vec@.len());
                assert(self.live(self.order@[i as int]));
            }
            let node = &self.vec[cur];
            let v = node.value.as_ref().unwrap();
            let c = v.clone();
            proof {
                assert(call_ensures(T::clone, (v,), c));
                assert(*v == self@[i as int]);
                assert(cloned::<T>(self@[i as int], c));
            }
            r.push(c);
            cur = node.next;
            i = i + 1;
        }
        r
    }

    /// Returns the elements of the list as a vector, each obtained by
    /// cloning, in reverse traversal order: walking the backward links
    /// yields exactly the reverse of walking the forward links. O(n).
    pub fn to_vec_rev(&self) -> (r: Vec<T>) where T: Clone
        requires
            self.wf(),
        ensures
            r@.len() == self@.len(),
            forall|j: int|
                0 <= j < r@.len() ==> cloned::<T>(self@.reverse()[j], #[trigger] r@[j]),
    {
        let mut r: Vec<T> = Vec::new();
        let mut i: usize = 0;
        if self.len == 0 {
            return r;
        }
        proof {
            assert(0 <= self.order@[0] < self.vec@.len());
        }
        let mut cur: usize = self.vec[self.head].prev;
        while i < self.len
            invariant
                self.wf(),
                0 < self@.len(),
                0 <= i <= self@.len(),
                r@.len() == i,
                forall|j: int| 0 <= j < i ==> cloned::<T>(self@[self@.len() - 1 - j], #[trigger] r@[j]),
                cur as int == self.order@[if (i as int) < self@.len() {
                    self@.len() - 1 - i as int
                } else {
                    self@.len() - 1
                }],
            decreases self@.len() - i,
        {
            proof {
                assert(self.order@.contains(self.order@[self@.len() - 1 - i as int]));
                assert(0 <= self.order@[self@.len() - 1 - i as int] < self.vec@.len());
                assert(self.live(self.order@[self@.len() - 1 - i as int]));
            }
            let node = &self.vec[cur];
            let v = node.value.as_ref().unwrap();
            let c = v.clone();
            proof {
                assert(call_ensures(T::clone, (v,), c));
                assert(*v == self@[self@.len() - 1 - i as int]);
                assert(cloned::<T>(self@[self@.len() - 1 - i as int], c));
            }
            r.push(c);
            cur = node.prev;
            i = i + 1;
            proof {
                if (i as int) < self@.len() {
                    assert(self.prv(self.order@[self@.len() - i as int]) == self.order@[self@.len()
                        - 1 - i as int]);
                }
            }
        }
        proof {
            assert forall|j: int| 0 <= j < r@.len() implies cloned::<T>(
                self@.reverse()[j],
                #[trigger] r@[j],
            ) by {
                assert(self@.reverse()[j] == self@[self@.len() - 1 - j]);
            }
        }
        r
    }

    /// Returns the handles of the elements, in traversal order. O(n).
    pub fn handles(&self) -> (r: Vec<HNode>)
        requires
            self.wf(),
        ensures
            r@ == self.hseq(),
    {
        let mut r: Vec<HNode> = Vec::new();
        let mut cur: usize = self.head;
        let mut i: usize = 0;
        while i < self.len
            invariant
                self.wf(),
                0 <= i <= self@.len(),
                r@.len() == i,
                forall|j: int| 0 <= j < i ==> #[trigger] r@[j] == self.hseq()[j],
                cur as int == (if (i as int) < self@.len() {
                    self.order@[i as int]
                } else {
                    NIL as int
                }),
            decreases self@.len() - i,
        {
            proof {
                assert(0 <= self.order@[i as int] < self.vec@.len());
            }
            let node = &self.vec[cur];
            r.push(HNode { index: cur, gen: node.gen, owner: self.id });
            cur = node.next;
            i = i + 1;
        }
        proof {
            assert(r@ =~= self.hseq());
        }
        r
    }

    /// Returns the handle of the element at traversal position `index`, or
    /// `None` if `index` is out of range. Walks from whichever end of the
    /// list is closer, so this takes O(min(index, len - index)) time.
    pub fn handle(&self, index: usize) -> (r: Option<HNode>)
        requires
            self.wf(),
        ensures
            index < self@.len() ==> r == Some(self.hseq()[index as int]),
            index >= self@.len() ==> r is None,
    {
        if index >= self.len {
            return None;
        }
        if index <= self.len / 2 {
            let mut cur: usize = self.head;
            let mut i: usize = 0;
            while i < index
                invariant
                    self.wf(),
                    0 <= i <= index < self@.len(),
                    cur as int == self.order@[i as int],
                decreases index - i,
            {
                proof {
                    assert(0 <= self.order@[i as int] < self.vec@.len());
                }
                cur = self.vec[cur].next;
                i = i + 1;
            }
            proof {
                assert(0 <= self.order@[index as int] < self.vec@.len());
            }
            Some(HNode { index: cur, gen: self.vec[cur].gen, owner: self.id })
        } else {
            proof {
                assert(0 <= self.order@[0] < self.vec@.len());
            }
            let mut cur: usize = self.vec[self.head].prev;
            let mut i: usize = self.len - 1;
            while i > index
                invariant
                    self.wf(),
                    index <= i < self@.len(),
                    cur as int == self.order@[i as int],
                decreases i,
            {
                proof {
                    assert(0 <= self.order@[i as int] < self.vec@.len());
                    assert(self.prv(self.order@[i as int]) == self.order@[i as int - 1]);
                }
                cur = self.vec[cur].prev;
                i = i - 1;
            }
            proof {
                assert(0 <= self.order@[index as int] < self.vec@.len());
            }
            Some(HNode { index: cur, gen: self.vec[cur].gen, owner: self.id })
        }
    }

    /// Returns `true` if some element of the list equals `value`. The
    /// statement is exact whenever `T`'s equality obeys its specification.
    /// O(n).
    #[verifier::rlimit(50)]
    #[verifier::spinoff_prover]
    pub fn contains(&self, value: &T) -> (r: bool) where T: PartialEq
        requires
            self.wf(),
        ensures
            T::obeys_eq_spec() ==> (r <==> exists|i: int|
                0 <= i < self@.len() && (#[trigger] self@[i]).eq_spec(value)),
    {
        let mut cur: usize = self.head;
        let mut i: usize = 0;
        while i < self.len
            invariant
                self.wf(),
                0 <= i <= self@.len(),
                T::obeys_eq_spec() ==> (forall|j: int|
                    0 <= j < i ==> !(#[trigger] self@[j]).eq_spec(value)),
                cur as int == (if (i as int) < self@.len() {
                    self.order@[i as int]
                } else {
                    NIL as int
                }),
            decreases self@.len() - i,
        {
            proof {
                assert(self.order@.contains(self.order@[i as int]));
                assert(0 <= self.order@[i as int] < self.vec@.len());
                assert(self.live(self.order@[i as int]));
            }
            let node = &self.vec[cur];
            let v = node.value.as_ref().unwrap();
            if v.eq(value) {
                proof {
                    assert(*v == self@[i as int]);
                }
                return true;
            }
            cur = node.next;
            i = i + 1;
        }
        false
    }

    /// Consumes the list and produces a fresh one holding the same elements
    /// in the same order, with all nodes placed contiguously at the front
    /// of a new arena. Handles from the old list are not valid for the new
    /// one. O(n).
    #[verifier::rlimit(100)]
    #[verifier::spinoff_prover]
    #[verifier::loop_isolation(false)]
    pub fn compact(self) -> (r: Self)
        requires
            self.wf(),
        ensures
            r.wf(),
            r@ == self@,
            r.retired_set() == Set::<HNode>::empty(),
    {
        let mut this = self;
        let mut r = Self::new();
        let ghost orig = this@;
        while !this.is_empty()
            invariant
                this.wf(),
                r.wf(),
                r@.len() <= orig.len(),
                r@ == orig.subrange(0, r@.len() as int),
                this@ == orig.subrange(r@.len() as int, orig.len() as int),
                r.retired_set() == Set::<HNode>::empty(),
            decreases this@.len(),
        {
            let ghost k = r@.len() as int;
            let ghost this0 = this;
            let v = this.pop_front();
            match v {
                Some(x) => {
                    proof {
                        assert(this0@ == orig.subrange(k, orig.len() as int));
                        assert(k < orig.len());
                        lemma_subrange_first(orig, k, orig.len() as int);
                        assert(x == orig[k]);
                    }
                    r.push_back(x);
                    proof {
                        lemma_subrange_push(orig, k);
                        assert(r@ =~= orig.subrange(0, k + 1));
                        lemma_subrange_drop_first(orig, k, orig.len() as int);
                        assert(this@ == orig.subrange(k + 1, orig.len() as int));
                    }
                },
                None => {
                    proof {
                        assert(false);
                    }
                },
            }
        }
        proof {
            assert(r@ =~= orig);
        }
        r
    }

    // ----- sorting -----

    /// Re-threading the links so that the live slots appear in the order of
    /// the handle sequence `hs` restores well-formedness without moving,
    /// adding or dropping any element: the result's handle sequence is
    /// exactly `hs`, and every handle still addresses the element it did.
    #[verifier::spinoff_prover]
    #[verifier::rlimit(100)]
    proof fn lemma_rethread(pre: Self, post: Self, hs: Seq<HNode>)
        requires
            pre.wf(),
            hs.len() == pre.order@.len(),
            hs.to_multiset() == pre.hseq().to_multiset(),
            forall|p: int| 0 <= p < hs.len() ==> pre.valid_handle(#[trigger] hs[p]),
            forall|p: int, q: int| 0 <= p < q < hs.len() ==> hs[p] != hs[q],
            post.vec@.len() == pre.vec@.len(),
            forall|j: int|
                0 <= j < post.vec@.len() ==> (#[trigger] post.vec@[j]).value == pre.vec@[j].value
                    && post.vec@[j].gen == pre.vec@[j].gen,
            forall|j: int| 0 <= j < post.vec@.len() && !pre.live(j) ==> post.vec@[j] == pre.vec@[j],
            forall|q: int|
                0 <= q < hs.len() ==> post.nxt(#[trigger] hs[q].index as int) == (if q + 1
                    < hs.len() {
                    hs[q + 1].index as int
                } else {
                    NIL as int
                }),
            forall|q: int|
                0 <= q < hs.len() ==> post.prv(#[trigger] hs[q].index as int) == (if q == 0 {
                    hs[hs.len() - 1].index as int
                } else {
                    hs[q - 1].index as int
                }),
            hs.len() > 0 ==> post.head == hs[0].index,
            hs.len() == 0 ==> post.head == pre.head,
            post.order@ == Seq::new(hs.len(), |q: int| hs[q].index as int),
            post.free@ == pre.free@,
            post.retired@ == pre.retired@,
            post.recyc == pre.recyc,
            post.id == pre.id,
            post.len == pre.len,
        ensures
            post.wf(),
            post.hseq() == hs,
            post@ == Seq::new(hs.len(), |q: int| pre.value_of(hs[q])),
            forall|g: HNode| post.valid_handle(g) <==> pre.valid_handle(g),
            forall|g: HNode| pre.valid_handle(g) ==> post.value_of(g) == pre.value_of(g),
    {
        let ord2 = post.order@;
        let n = hs.len() as int;
        assert forall|p: int, q: int| 0 <= p < q < n implies hs[p].index != hs[q].index by {
            if hs[p].index == hs[q].index {
                assert(hs[p].gen == pre.slot_gen(hs[p].index as int));
                assert(hs[q].gen == pre.slot_gen(hs[q].index as int));
                assert(hs[p] == hs[q]);
            }
        }
        assert(ord2.no_duplicates()) by {
            assert forall|p: int, q: int|
                0 <= p < n && 0 <= q < n && p != q implies ord2[p] != ord2[q] by {
                if p < q {
                    assert(hs[p].index != hs[q].index);
                } else {
                    assert(hs[q].index != hs[p].index);
                }
            }
        }
        assert forall|k2: int| 0 <= k2 < post.vec@.len() implies (post.live(k2) <==> ord2.contains(
            k2,
        )) by {
            assert(post.vec@[k2].value == pre.vec@[k2].value);
            if ord2.contains(k2) {
                let q = choose|q: int| 0 <= q < n && ord2[q] == k2;
                assert(pre.valid_handle(hs[q]));
                assert(pre.live(k2));
            }
            if pre.live(k2) {
                assert(pre.order@.contains(k2));
                let p = pre.order@.index_of(k2);
                pre.lemma_handle_at_pos(p);
                let g = pre.hseq()[p];
                assert(pre.hseq().contains(g));
                lemma_contains_multiset(pre.hseq(), g);
                lemma_contains_multiset(hs, g);
                assert(hs.contains(g));
                let q = choose|q: int| 0 <= q < n && hs[q] == g;
                assert(ord2[q] == k2);
                assert(ord2.contains(k2));
            }
        }
        assert forall|i: int| 0 <= i < post.free@.len() implies !ord2.contains(
            #[trigger] post.free@[i],
        ) && !post.live(post.free@[i]) && post.prv(post.free@[i]) == NIL as int && post.nxt(
            post.free@[i],
        ) == (if i + 1 < post.free@.len() {
            post.free@[i + 1]
        } else {
            NIL as int
        }) by {
            assert(pre.free@.contains(pre.free@[i]));
            assert(!pre.live(pre.free@[i]));
            assert(post.vec@[pre.free@[i]] == pre.vec@[pre.free@[i]]);
        }
        assert forall|g2: HNode| #[trigger] post.retired@.contains(g2) implies 0 <= g2.index
            < post.vec@.len() && (g2.gen < post.slot_gen(g2.index as int) || post.dead(
            g2.index as int,
        )) by {
            let j = g2.index as int;
            assert(post.vec@[j].value == pre.vec@[j].value && post.vec@[j].gen == pre.vec@[j].gen);
        }
        assert(post.wf());
        assert(post.hseq() =~= hs) by {
            assert forall|q: int| 0 <= q < n implies post.hseq()[q] == hs[q] by {
                assert(post.slot_gen(ord2[q]) == pre.slot_gen(hs[q].index as int));
            }
        }
        assert(post@ =~= Seq::new(hs.len(), |q: int| pre.value_of(hs[q]))) by {
            assert forall|q: int| 0 <= q < n implies post@[q] == pre.value_of(hs[q]) by {
                assert(post.vec@[ord2[q]].value == pre.vec@[ord2[q]].value);
            }
        }
        assert forall|g: HNode| post.valid_handle(g) <==> pre.valid_handle(g) by {
            if g.index < post.vec@.len() {
                assert(post.vec@[g.index as int].value == pre.vec@[g.index as int].value
                    && post.vec@[g.index as int].gen == pre.vec@[g.index as int].gen);
            }
        }
        assert forall|g: HNode| pre.valid_handle(g) implies post.value_of(g) == pre.value_of(g) by {
            assert(post.vec@[g.index as int].value == pre.vec@[g.index as int].value);
        }
    }


    /// Rewrites the `next`/`prev` links so that the live slots appear in
    /// the order given by `hs`, which must list each current handle exactly
    /// once. No element moves between slots: every handle stays valid and
    /// keeps addressing its element. O(n).
    #[verifier::rlimit(100)]
    #[verifier::spinoff_prover]
    #[verifier::loop_isolation(false)]
    fn rethread(&mut self, hs: &Vec<HNode>)
        requires
            old(self).wf(),
            hs@.len() == old(self)@.len(),
            hs@.len() >= 2,
            hs@.to_multiset() == old(self).hseq().to_multiset(),
            forall|p: int| 0 <= p < hs@.len() ==> old(self).valid_handle(#[trigger] hs@[p]),
            forall|p: int, q: int| 0 <= p < q < hs@.len() ==> hs@[p] != hs@[q],
        ensures
            final(self).wf(),
            final(self).hseq() == hs@,
            final(self)@ == Seq::new(hs@.len(), |q: int| old(self).value_of(hs@[q])),
            final(self).retired_set() == old(self).retired_set(),
            forall|g: HNode| final(self).valid_handle(g) <==> old(self).valid_handle(g),
            forall|g: HNode|
                old(self).valid_handle(g) ==> final(self).value_of(g) == old(self).value_of(g),
    {
        let ghost s0 = *self;
        let n = hs.len();
        let mut q: usize = 1;
        while q < n
            invariant
                1 <= q <= n,
                n >= 2,
                self.vec@.len() == s0.vec@.len(),
                forall|j2: int|
                    0 <= j2 < self.vec@.len() ==> (#[trigger] self.vec@[j2]).value
                        == s0.vec@[j2].value && self.vec@[j2].gen == s0.vec@[j2].gen,
                forall|j2: int|
                    0 <= j2 < self.vec@.len() && !s0.live(j2) ==> self.vec@[j2] == s0.vec@[j2],
                forall|p: int|
                    0 <= p < q - 1 ==> self.nxt(#[trigger] hs@[p].index as int) == hs@[p
                        + 1].index as int,
                forall|p: int|
                    1 <= p < q ==> self.prv(#[trigger] hs@[p].index as int) == hs@[p
                        - 1].index as int,
                self.order@ == s0.order@,
                self.free@ == s0.free@,
                self.retired@ == s0.retired@,
                self.head == s0.head,
                self.recyc == s0.recyc,
                self.len == s0.len,
                self.id == s0.id,
            decreases n - q,
        {
            proof {
                assert(self.valid_handle(hs@[q as int - 1]) && self.valid_handle(hs@[q as int]));
                assert(hs@[q as int - 1].index != hs@[q as int].index) by {
                    if hs@[q as int - 1].index == hs@[q as int].index {
                        assert(hs@[q as int - 1] == hs@[q as int]);
                    }
                }
            }
            let a = hs[q - 1].index;
            let b = hs[q].index;
            self.vec[a].next = b;
            self.vec[b].prev = a;
            q = q + 1;
        }
        proof {
            assert(self.valid_handle(hs@[0]) && self.valid_handle(hs@[n - 1]));
        }
        let t = hs[n - 1].index;
        self.vec[t].next = NIL;
        let f = hs[0].index;
        self.vec[f].prev = t;
        self.head = f;
        proof {
            self.order@ = Seq::new(hs@.len(), |q2: int| hs@[q2].index as int);
            assert forall|p: int, q2: int| 0 <= p < q2 < n implies hs@[p].index
                != hs@[q2].index by {
                if hs@[p].index == hs@[q2].index {
                    assert(s0.valid_handle(hs@[p]) && s0.valid_handle(hs@[q2]));
                    assert(hs@[p] == hs@[q2]);
                }
            }
            assert forall|q2: int| 0 <= q2 < n implies self.nxt(#[trigger] hs@[q2].index as int)
                == (if q2 + 1 < n {
                hs@[q2 + 1].index as int
            } else {
                NIL as int
            }) && self.prv(hs@[q2].index as int) == (if q2 == 0 {
                hs@[n - 1].index as int
            } else {
                hs@[q2 - 1].index as int
            }) by {}
            Self::lemma_rethread(s0, *self, hs@);
        }
    }

    /// Sorts the list in place using the comparison function `compare`,
    /// which must compute a total preorder (see
    /// [`consistent_comparator`]). Only the links between slots change:
    /// every handle remains valid and keeps addressing the element it
    /// addressed before. The sort is stable: elements that compare equal
    /// keep their relative order. O(n^2) comparisons worst case.
    /// Sorts the current handles into comparator order (a stable insertion
    /// sort by adjacent swaps) without touching the list itself.
    #[verifier::rlimit(100)]
    #[verifier::spinoff_prover]
    fn sorted_handles<F: Fn(&T, &T) -> core::cmp::Ordering>(&self, compare: F) -> (hs: Vec<HNode>)
        requires
            self.wf(),
            self@.len() >= 2,
            forall|x: &T, y: &T| #[trigger] call_requires(compare, (x, y)),
            exists|r: spec_fn(T, T) -> core::cmp::Ordering|
                #[trigger] consistent_comparator(compare, r),
        ensures
            hs@.len() == self@.len(),
            hs@.to_multiset() == self.hseq().to_multiset(),
            forall|p: int| 0 <= p < hs@.len() ==> self.valid_handle(#[trigger] hs@[p]),
            forall|p: int, q: int| 0 <= p < q < hs@.len() ==> hs@[p] != hs@[q],
            forall|p: int|
                0 <= p < hs@.len() - 1 ==> directly_ordered(
                    compare,
                    self.value_of(#[trigger] hs@[p]),
                    self.value_of(hs@[p + 1]),
                ),
            forall|i2: int, j2: int|
                0 <= i2 < j2 < self@.len() && call_ensures(
                    compare,
                    (&self@[i2], &self@[j2]),
                    core::cmp::Ordering::Equal,
                ) ==> hs@.index_of(#[trigger] self.hseq()[i2]) < hs@.index_of(
                    #[trigger] self.hseq()[j2],
                ),
    {
        let ghost r = choose|r: spec_fn(T, T) -> core::cmp::Ordering|
            consistent_comparator(compare, r);
        let ghost hseq0 = self.hseq();
        let ghost s0 = *self;
        proof {
            self.lemma_handles_distinct();
            self.lemma_hseq_index_identity();
        }
        let mut hs = self.handles();
        let n = hs.len();
        let mut i: usize = 1;
        while i < n
            invariant
                self.wf(),
                s0 == *self,
                hseq0 == self.hseq(),
                consistent_comparator(compare, r),
                forall|x: &T, y: &T| #[trigger] call_requires(compare, (x, y)),
                n == self@.len(),
                2 <= n,
                forall|p: int|
                    0 <= p < hseq0.len() ==> hseq0.index_of(#[trigger] hseq0[p]) == p,
                1 <= i <= n,
                hs@.len() == n,
                hs@.to_multiset() == hseq0.to_multiset(),
                forall|p: int| 0 <= p < n ==> self.valid_handle(#[trigger] hs@[p]),
                forall|p: int, q: int| 0 <= p < q < n ==> hs@[p] != hs@[q],
                forall|p: int|
                    0 <= p < i - 1 ==> directly_ordered(
                        compare,
                        self.value_of(#[trigger] hs@[p]),
                        self.value_of(hs@[p + 1]),
                    ),
                forall|p: int, q: int|
                    0 <= p < q < n && r(
                        self.value_of(#[trigger] hs@[p]),
                        self.value_of(#[trigger] hs@[q]),
                    ) == core::cmp::Ordering::Equal ==> hseq0.index_of(hs@[p]) < hseq0.index_of(
                        hs@[q],
                    ),
            decreases n - i,
        {
            let mut j: usize = i;
            let mut done = false;
            while j > 0 && !done
                invariant
                    self.wf(),
                    s0 == *self,
                    hseq0 == self.hseq(),
                    consistent_comparator(compare, r),
                    forall|x: &T, y: &T| #[trigger] call_requires(compare, (x, y)),
                    n == self@.len(),
                    0 < i < n,
                    forall|p: int|
                        0 <= p < hseq0.len() ==> hseq0.index_of(#[trigger] hseq0[p]) == p,
                    0 <= j <= i,
                    hs@.len() == n,
                    hs@.to_multiset() == hseq0.to_multiset(),
                    forall|p: int| 0 <= p < n ==> self.valid_handle(#[trigger] hs@[p]),
                    forall|p: int, q: int| 0 <= p < q < n ==> hs@[p] != hs@[q],
                    forall|p: int|
                        0 <= p < j - 1 ==> directly_ordered(
                            compare,
                            self.value_of(#[trigger] hs@[p]),
                            self.value_of(hs@[p + 1]),
                        ),
                    forall|p: int|
                        j < p < i ==> directly_ordered(
                            compare,
                            self.value_of(#[trigger] hs@[p]),
                            self.value_of(hs@[p + 1]),
                        ),
                    (j as int) < i ==> directly_ordered(
                        compare,
                        self.value_of(hs@[j as int]),
                        self.value_of(hs@[j as int + 1]),
                    ),
                    0 < j < i ==> directly_ordered(
                        compare,
                        self.value_of(hs@[j as int - 1]),
                        self.value_of(hs@[j as int + 1]),
                    ),
                    done ==> j >= 1 && directly_ordered(
                        compare,
                        self.value_of(hs@[j as int - 1]),
                        self.value_of(hs@[j as int]),
                    ),
                    forall|p: int, q: int|
                        0 <= p < q < n && r(
                            self.value_of(#[trigger] hs@[p]),
                            self.value_of(#[trigger] hs@[q]),
                        ) == core::cmp::Ordering::Equal ==> hseq0.index_of(hs@[p])
                            < hseq0.index_of(hs@[q]),
                decreases (j as int) + (if done { 0int } else { 1int }),
            {
                let a = hs[j - 1];
                let b = hs[j];
                proof {
                    assert(self.valid_handle(a) && self.valid_handle(b));
                    self.lemma_valid_pos(a);
                    self.lemma_valid_pos(b);
                }
                let va = self.vec[a.index].value.as_ref().unwrap();
                let vb = self.vec[b.index].value.as_ref().unwrap();
                let o = compare(va, vb);
                proof {
                    assert(call_ensures(compare, (va, vb), o));
                    assert(*va == self.value_of(a) && *vb == self.value_of(b));
                }
                match o {
                    core::cmp::Ordering::Greater => {
                        let ghost hs_old = hs@;
                        hs[j - 1] = b;
                        hs[j] = a;
                        proof {
                            assert(hs@ =~= hs_old.update(j as int - 1, b).update(j as int, a));
                            assert(r(self.value_of(a), self.value_of(b))
                                == core::cmp::Ordering::Greater);
                            assert(hs@.to_multiset() == hseq0.to_multiset()) by {
                                lemma_swap_preserves_multiset(hs_old, j as int - 1, j as int);
                            }
                            assert(directly_ordered(
                                compare,
                                self.value_of(b),
                                self.value_of(a),
                            ));
                            assert forall|p: int, q: int| 0 <= p < q < n implies hs@[p]
                                != hs@[q] by {
                                if p != j - 1 && p != j && q != j - 1 && q != j {
                                    assert(hs@[p] == hs_old[p] && hs@[q] == hs_old[q]);
                                }
                            }
                            assert forall|p: int, q: int|
                                0 <= p < q < n && r(
                                    self.value_of(#[trigger] hs@[p]),
                                    self.value_of(#[trigger] hs@[q]),
                                ) == core::cmp::Ordering::Equal implies hseq0.index_of(hs@[p])
                                < hseq0.index_of(hs@[q]) by {
                                if p == j - 1 && q == j {
                                    assert(hs@[p] == b && hs@[q] == a);
                                    assert(r(self.value_of(b), self.value_of(a))
                                        != core::cmp::Ordering::Equal);
                                } else {
                                    let p0 = if p == j - 1 {
                                        j as int
                                    } else if p == j {
                                        j as int - 1
                                    } else {
                                        p
                                    };
                                    let q0 = if q == j - 1 {
                                        j as int
                                    } else if q == j {
                                        j as int - 1
                                    } else {
                                        q
                                    };
                                    assert(hs@[p] == hs_old[p0] && hs@[q] == hs_old[q0]);
                                }
                            }
                        }
                        j = j - 1;
                    },
                    _ => {
                        done = true;
                        proof {
                            assert(directly_ordered(
                                compare,
                                self.value_of(a),
                                self.value_of(b),
                            ));
                        }
                    },
                }
            }
            i = i + 1;
        }
        proof {
            Self::lemma_stability_ce(s0, hs@, compare, r);
        }
        hs
    }

    /// Sorts the list in place using the comparison function `compare`,
    /// which must compute a total preorder (see
    /// [`consistent_comparator`]). Only the links between slots change:
    /// every handle remains valid and keeps addressing the element it
    /// addressed before. The sort is stable: elements the comparator
    /// reports equal keep their relative order. O(n^2) comparisons worst
    /// case, O(n) auxiliary space.
    #[verifier::rlimit(100)]
    #[verifier::spinoff_prover]
    pub fn sort_by<F: Fn(&T, &T) -> core::cmp::Ordering>(&mut self, compare: F)
        requires
            old(self).wf(),
            forall|x: &T, y: &T| #[trigger] call_requires(compare, (x, y)),
            exists|r: spec_fn(T, T) -> core::cmp::Ordering|
                #[trigger] consistent_comparator(compare, r),
        ensures
            final(self).wf(),
            final(self)@.len() == old(self)@.len(),
            final(self).hseq().to_multiset() == old(self).hseq().to_multiset(),
            forall|g: HNode| final(self).valid_handle(g) <==> old(self).valid_handle(g),
            forall|g: HNode|
                old(self).valid_handle(g) ==> final(self).value_of(g) == old(self).value_of(g),
            final(self).retired_set() == old(self).retired_set(),
            sorted_by_cmp(compare, final(self)@),
            forall|i: int, j: int|
                0 <= i < j < old(self)@.len() && call_ensures(
                    compare,
                    (&old(self)@[i], &old(self)@[j]),
                    core::cmp::Ordering::Equal,
                ) ==> final(self).pos_of(#[trigger] old(self).hseq()[i]) < final(self).pos_of(
                    #[trigger] old(self).hseq()[j],
                ),
    {
        let ghost s0 = *self;
        if self.len < 2 {
            proof {
                assert(self.hseq().to_multiset() =~= s0.hseq().to_multiset());
            }
            return ;
        }
        let hs = self.sorted_handles(compare);
        self.rethread(&hs);
        proof {
            Self::lemma_sort_finish(s0, *self, hs@, compare);
        }
    }

    /// Converts the internal stability invariant (stated over the ordering
    /// relation) into the observable form: elements that the comparator
    /// reports equal appear in the order they originally had.
    #[verifier::spinoff_prover]
    #[verifier::rlimit(100)]
    proof fn lemma_stability_ce<F: Fn(&T, &T) -> core::cmp::Ordering>(
        s0: Self,
        hs: Seq<HNode>,
        compare: F,
        r: spec_fn(T, T) -> core::cmp::Ordering,
    )
        requires
            consistent_comparator(compare, r),
            s0.wf(),
            hs.len() == s0@.len(),
            hs.to_multiset() == s0.hseq().to_multiset(),
            forall|p: int| 0 <= p < hs.len() ==> s0.valid_handle(#[trigger] hs[p]),
            forall|p: int, q: int| 0 <= p < q < hs.len() ==> hs[p] != hs[q],
            forall|p: int, q: int|
                0 <= p < q < hs.len() && r(
                    s0.value_of(#[trigger] hs[p]),
                    s0.value_of(#[trigger] hs[q]),
                ) == core::cmp::Ordering::Equal ==> s0.hseq().index_of(hs[p]) < s0.hseq().index_of(
                    hs[q],
                ),
            forall|p: int|
                0 <= p < s0.hseq().len() ==> s0.hseq().index_of(#[trigger] s0.hseq()[p]) == p,
        ensures
            forall|i2: int, j2: int|
                0 <= i2 < j2 < s0@.len() && call_ensures(
                    compare,
                    (&s0@[i2], &s0@[j2]),
                    core::cmp::Ordering::Equal,
                ) ==> hs.index_of(#[trigger] s0.hseq()[i2]) < hs.index_of(
                    #[trigger] s0.hseq()[j2],
                ),
    {
        let hseq0 = s0.hseq();
        let n = hs.len() as int;
        assert forall|i2: int, j2: int|
            0 <= i2 < j2 < s0@.len() && call_ensures(
                compare,
                (&s0@[i2], &s0@[j2]),
                core::cmp::Ordering::Equal,
            ) implies hs.index_of(#[trigger] s0.hseq()[i2]) < hs.index_of(
            #[trigger] s0.hseq()[j2],
        ) by {
            let gi = hseq0[i2];
            let gj = hseq0[j2];
            assert(s0.value_of(gi) == s0@[i2] && s0.value_of(gj) == s0@[j2]) by {
                s0.lemma_handle_at_pos(i2);
                s0.lemma_handle_at_pos(j2);
            }
            assert(r(s0@[i2], s0@[j2]) == core::cmp::Ordering::Equal);
            assert(hs.contains(gi)) by {
                lemma_contains_multiset(hseq0, gi);
                lemma_contains_multiset(hs, gi);
                assert(hseq0.contains(gi));
            }
            assert(hs.contains(gj)) by {
                lemma_contains_multiset(hseq0, gj);
                lemma_contains_multiset(hs, gj);
                assert(hseq0.contains(gj));
            }
            let pi = hs.index_of(gi);
            let pj = hs.index_of(gj);
            assert(0 <= pi < n && hs[pi] == gi);
            assert(0 <= pj < n && hs[pj] == gj);
            assert(hseq0.index_of(gi) == i2 && hseq0.index_of(gj) == j2);
            if pj < pi {
                assert(r(s0.value_of(hs[pj]), s0.value_of(hs[pi])) == core::cmp::Ordering::Equal)
                    by {
                    assert(r(s0@[j2], s0@[i2]) != core::cmp::Ordering::Greater && r(
                        s0@[j2],
                        s0@[i2],
                    ) != core::cmp::Ordering::Less);
                }
                assert(hseq0.index_of(hs[pj]) < hseq0.index_of(hs[pi]));
                assert(false);
            } else {
                assert(pi != pj);
            }
        }
    }

    /// Transfers the sortedness evidence and the stability ordering from
    /// the sorted handle sequence to the re-threaded list.
    #[verifier::spinoff_prover]
    #[verifier::rlimit(100)]
    proof fn lemma_sort_finish<F: Fn(&T, &T) -> core::cmp::Ordering>(
        s0: Self,
        post: Self,
        hs: Seq<HNode>,
        compare: F,
    )
        requires
            s0.wf(),
            post.wf(),
            hs.len() == s0@.len(),
            post.hseq() == hs,
            post@ == Seq::new(hs.len(), |q: int| s0.value_of(hs[q])),
            hs.to_multiset() == s0.hseq().to_multiset(),
            forall|p: int| 0 <= p < hs.len() ==> s0.valid_handle(#[trigger] hs[p]),
            forall|p: int, q: int| 0 <= p < q < hs.len() ==> hs[p] != hs[q],
            forall|p: int|
                0 <= p < hs.len() - 1 ==> directly_ordered(
                    compare,
                    s0.value_of(#[trigger] hs[p]),
                    s0.value_of(hs[p + 1]),
                ),
            forall|i2: int, j2: int|
                0 <= i2 < j2 < s0@.len() && call_ensures(
                    compare,
                    (&s0@[i2], &s0@[j2]),
                    core::cmp::Ordering::Equal,
                ) ==> hs.index_of(#[trigger] s0.hseq()[i2]) < hs.index_of(
                    #[trigger] s0.hseq()[j2],
                ),
        ensures
            sorted_by_cmp(compare, post@),
            forall|i2: int, j2: int|
                0 <= i2 < j2 < s0@.len() && call_ensures(
                    compare,
                    (&s0@[i2], &s0@[j2]),
                    core::cmp::Ordering::Equal,
                ) ==> post.pos_of(#[trigger] s0.hseq()[i2]) < post.pos_of(
                    #[trigger] s0.hseq()[j2],
                ),
    {
        let hseq0 = s0.hseq();
        let n = hs.len() as int;
        assert(sorted_by_cmp(compare, post@)) by {
            assert forall|i2: int| 0 <= i2 < post@.len() - 1 implies #[trigger] directly_ordered(
                compare,
                post@[i2],
                post@[i2 + 1],
            ) by {
                assert(post@[i2] == s0.value_of(hs[i2]));
                assert(post@[i2 + 1] == s0.value_of(hs[i2 + 1]));
                assert(directly_ordered(compare, s0.value_of(hs[i2]), s0.value_of(hs[i2 + 1])));
            }
        }
        assert forall|i2: int, j2: int|
            0 <= i2 < j2 < s0@.len() && call_ensures(
                compare,
                (&s0@[i2], &s0@[j2]),
                core::cmp::Ordering::Equal,
            ) implies post.pos_of(#[trigger] s0.hseq()[i2]) < post.pos_of(
            #[trigger] s0.hseq()[j2],
        ) by {
            let gi = hseq0[i2];
            let gj = hseq0[j2];
            assert(hs.contains(gi)) by {
                lemma_contains_multiset(hseq0, gi);
                lemma_contains_multiset(hs, gi);
                assert(hseq0.contains(gi));
            }
            assert(hs.contains(gj)) by {
                lemma_contains_multiset(hseq0, gj);
                lemma_contains_multiset(hs, gj);
                assert(hseq0.contains(gj));
            }
            let pi = hs.index_of(gi);
            let pj = hs.index_of(gj);
            assert(0 <= pi < n && hs[pi] == gi);
            assert(0 <= pj < n && hs[pj] == gj);
            assert(pi < pj);
            assert(post.pos_of(gi) == pi) by {
                post.lemma_handle_at_pos(pi);
                assert(post.hseq()[pi] == gi);
            }
            assert(post.pos_of(gj) == pj) by {
                post.lemma_handle_at_pos(pj);
                assert(post.hseq()[pj] == gj);
            }
        }
    }

    /// Sorts the list in place using the comparison function `compare`,
    /// with the same guarantees as [`LinkedVector::sort_by`] except that no
    /// particular order is promised for elements that compare equal.
    pub fn sort_unstable_by<F: Fn(&T, &T) -> core::cmp::Ordering>(&mut self, compare: F)
        requires
            old(self).wf(),
            forall|x: &T, y: &T| #[trigger] call_requires(compare, (x, y)),
            exists|r: spec_fn(T, T) -> core::cmp::Ordering|
                #[trigger] consistent_comparator(compare, r),
        ensures
            final(self).wf(),
            final(self)@.len() == old(self)@.len(),
            final(self).hseq().to_multiset() == old(self).hseq().to_multiset(),
            forall|g: HNode| final(self).valid_handle(g) <==> old(self).valid_handle(g),
            forall|g: HNode|
                old(self).valid_handle(g) ==> final(self).value_of(g) == old(self).value_of(g),
            final(self).retired_set() == old(self).retired_set(),
            sorted_by_cmp(compare, final(self)@),
    {
        self.sort_by(compare)
    }

}

impl<T> View for LinkedVector<T> {
    type V = Seq<T>;

    /// The elements of the list, in traversal order.
    closed spec fn view(&self) -> Seq<T> {
        Seq::new(self.order@.len(), |i: int| self.slot_val(self.order@[i]))
    }
}

} // verus!
