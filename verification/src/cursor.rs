//! Stateful traversal positions over a [`LinkedVector`].
//!
//! A cursor remembers a current handle; every operation takes the list it
//! walks as an explicit argument, so a cursor holds no borrow of its own.
//! [`Cursor`] only reads the list; [`CursorMut`] also edits it at the
//! current position.

use crate::linked_vector::HNode;
use crate::linked_vector::LinkedVector;
use vstd::prelude::*;

verus! {

/// A read-only traversal position: a current handle into a list.
pub struct Cursor {
    handle: HNode,
}

/// A read-write traversal position: a current handle into a list, with
/// structural edits at the current position.
pub struct CursorMut {
    cur: Cursor,
}

impl Cursor {
    /// Starts a cursor at the element addressed by `node`.
    pub fn new(node: HNode) -> (r: Self)
        ensures
            r.handle_spec() == node,
    {
        Cursor { handle: node }
    }

    /// The cursor's current handle.
    pub closed spec fn handle_spec(self) -> HNode {
        self.handle
    }

    /// Returns a reference to the element at the cursor's position, or
    /// `None` if the position is not valid for `lv`.
    pub fn get<'a, T>(&self, lv: &'a LinkedVector<T>) -> (r: Option<&'a T>)
        requires
            lv.wf(),
        ensures
            match r {
                Some(v) => lv.valid_handle(self.handle_spec()) && *v == lv.value_of(
                    self.handle_spec(),
                ),
                None => !lv.valid_handle(self.handle_spec()),
            },
    {
        lv.get(self.handle)
    }

    /// The handle of the element at the cursor's current position.
    pub fn node(&self) -> (r: HNode)
        ensures
            r == self.handle_spec(),
    {
        self.handle
    }

    /// Moves the cursor to `node` if that handle is valid for `lv`;
    /// otherwise leaves the cursor where it was. Returns whether it moved.
    pub fn move_to<T>(&mut self, lv: &LinkedVector<T>, node: HNode) -> (r: bool)
        requires
            lv.wf(),
        ensures
            r == lv.valid_handle(node),
            final(self).handle_spec() == (if r {
                node
            } else {
                old(self).handle_spec()
            }),
    {
        if lv.is_valid(node) {
            self.handle = node;
            true
        } else {
            false
        }
    }

    /// Steps forward. Returns the handle reached, or `None` (cursor
    /// unmoved) at the end of the list or on an invalid position.
    pub fn move_next<T>(&mut self, lv: &LinkedVector<T>) -> (r: Option<HNode>)
        requires
            lv.wf(),
        ensures
            cursor_step_next(*old(self), *final(self), *lv, r),
    {
        match lv.next_node(self.handle) {
            Some(h) => {
                self.handle = h;
                Some(h)
            },
            None => None,
        }
    }

    /// Steps backward. Returns the handle reached, or `None` (cursor
    /// unmoved) at the start of the list or on an invalid position.
    pub fn move_prev<T>(&mut self, lv: &LinkedVector<T>) -> (r: Option<HNode>)
        requires
            lv.wf(),
        ensures
            cursor_step_prev(*old(self), *final(self), *lv, r),
    {
        match lv.prev_node(self.handle) {
            Some(h) => {
                self.handle = h;
                Some(h)
            },
            None => None,
        }
    }

    /// Moves to the first element. Returns its handle, or `None` (cursor
    /// unmoved) if the list is empty.
    pub fn move_to_front<T>(&mut self, lv: &LinkedVector<T>) -> (r: Option<HNode>)
        requires
            lv.wf(),
        ensures
            lv@.len() == 0 ==> r is None && *final(self) == *old(self),
            lv@.len() > 0 ==> r == Some(lv.hseq()[0]) && final(self).handle_spec() == lv.hseq()[0],
    {
        match lv.front_node() {
            Some(h) => {
                self.handle = h;
                Some(h)
            },
            None => None,
        }
    }

    /// Moves to the last element. Returns its handle, or `None` (cursor
    /// unmoved) if the list is empty.
    pub fn move_to_back<T>(&mut self, lv: &LinkedVector<T>) -> (r: Option<HNode>)
        requires
            lv.wf(),
        ensures
            lv@.len() == 0 ==> r is None && *final(self) == *old(self),
            lv@.len() > 0 ==> r == Some(lv.hseq()[lv@.len() - 1]) && final(self).handle_spec()
                == lv.hseq()[lv@.len() - 1],
    {
        match lv.back_node() {
            Some(h) => {
                self.handle = h;
                Some(h)
            },
            None => None,
        }
    }

    /// Steps forward up to `n` times, stopping early at the end of the
    /// list. Returns `Ok` with the reached handle when all `n` steps were
    /// taken, and `Err` with the reached handle otherwise; either way the
    /// cursor rests on the handle returned.
    pub fn forward<T>(&mut self, lv: &LinkedVector<T>, n: usize) -> (r: Result<HNode, HNode>)
        requires
            lv.wf(),
            lv.valid_handle(old(self).handle_spec()),
        ensures
            cursor_walked(*old(self), *final(self), *lv, n as int, true, r),
    {
        let ghost p0 = lv.pos_of(self.handle);
        proof {
            lv.lemma_valid_pos(self.handle);
        }
        let mut k: usize = 0;
        while k < n
            invariant
                lv.wf(),
                0 <= k <= n,
                lv.valid_handle(self.handle),
                p0 == lv.pos_of(old(self).handle_spec()),
                lv.pos_of(self.handle) == p0 + k,
                0 <= p0 + k < lv@.len(),
                self.handle == lv.hseq()[p0 + k],
            decreases n - k,
        {
            let stepped = self.move_next(lv);
            if stepped.is_none() {
                proof {
                    lv.lemma_handle_at_pos(p0 + k);
                }
                return Err(self.handle);
            }
            proof {
                lv.lemma_handle_at_pos(p0 + k + 1);
            }
            k = k + 1;
        }
        Ok(self.handle)
    }

    /// Steps backward up to `n` times, stopping early at the start of the
    /// list. Returns `Ok` with the reached handle when all `n` steps were
    /// taken, and `Err` with the reached handle otherwise; either way the
    /// cursor rests on the handle returned.
    pub fn backward<T>(&mut self, lv: &LinkedVector<T>, n: usize) -> (r: Result<HNode, HNode>)
        requires
            lv.wf(),
            lv.valid_handle(old(self).handle_spec()),
        ensures
            cursor_walked(*old(self), *final(self), *lv, n as int, false, r),
    {
        let ghost p0 = lv.pos_of(self.handle);
        proof {
            lv.lemma_valid_pos(self.handle);
        }
        let mut k: usize = 0;
        while k < n
            invariant
                lv.wf(),
                0 <= k <= n,
                lv.valid_handle(self.handle),
                p0 == lv.pos_of(old(self).handle_spec()),
                lv.pos_of(self.handle) == p0 - k,
                0 <= p0 - k < lv@.len(),
                self.handle == lv.hseq()[p0 - k],
            decreases n - k,
        {
            let stepped = self.move_prev(lv);
            if stepped.is_none() {
                proof {
                    lv.lemma_handle_at_pos(p0 - k);
                }
                return Err(self.handle);
            }
            proof {
                lv.lemma_handle_at_pos(p0 - k - 1);
            }
            k = k + 1;
        }
        Ok(self.handle)
    }
}

impl CursorMut {
    /// Starts a read-write cursor at the element addressed by `node`.
    pub fn new(node: HNode) -> (r: Self)
        ensures
            r.handle_spec() == node,
    {
        CursorMut { cur: Cursor::new(node) }
    }

    /// The cursor's current handle.
    pub closed spec fn handle_spec(self) -> HNode {
        self.cur.handle_spec()
    }

    /// Returns `true` if the list the cursor walks is empty. A cursor can
    /// remove elements, so this guards further reads.
    pub fn is_empty<T>(&self, lv: &LinkedVector<T>) -> (r: bool)
        requires
            lv.wf(),
        ensures
            r == (lv@.len() == 0),
    {
        lv.is_empty()
    }

    /// Returns a reference to the element at the cursor's position, or
    /// `None` if the position is not valid for `lv`.
    pub fn get<'a, T>(&self, lv: &'a LinkedVector<T>) -> (r: Option<&'a T>)
        requires
            lv.wf(),
        ensures
            match r {
                Some(v) => lv.valid_handle(self.handle_spec()) && *v == lv.value_of(
                    self.handle_spec(),
                ),
                None => !lv.valid_handle(self.handle_spec()),
            },
    {
        self.cur.get(lv)
    }

    /// Returns a mutable reference to the element at the cursor's position,
    /// or `None` (leaving the list untouched) if the position is not valid
    /// for `lv`.
    pub fn get_mut<'a, T>(&self, lv: &'a mut LinkedVector<T>) -> (r: Option<&'a mut T>)
        requires
            old(lv).wf(),
        ensures
            !old(lv).valid_handle(self.handle_spec()) ==> r is None && *final(lv) == *old(lv),
            old(lv).valid_handle(self.handle_spec()) ==> r is Some && ({
                let v = r->Some_0;
                &&& *v == old(lv).value_of(self.handle_spec())
                &&& final(lv).wf()
                &&& final(lv)@ == old(lv)@.update(old(lv).pos_of(self.handle_spec()), *final(v))
                &&& final(lv).hseq() == old(lv).hseq()
                &&& final(lv).retired_set() == old(lv).retired_set()
            }),
    {
        lv.get_mut(self.cur.node())
    }

    /// The handle of the element at the cursor's current position.
    pub fn node(&self) -> (r: HNode)
        ensures
            r == self.handle_spec(),
    {
        self.cur.node()
    }

    /// Moves the cursor to `node` if that handle is valid for `lv`;
    /// otherwise leaves the cursor where it was. Returns whether it moved.
    pub fn move_to<T>(&mut self, lv: &LinkedVector<T>, node: HNode) -> (r: bool)
        requires
            lv.wf(),
        ensures
            r == lv.valid_handle(node),
            final(self).handle_spec() == (if r {
                node
            } else {
                old(self).handle_spec()
            }),
    {
        self.cur.move_to(lv, node)
    }

    /// Steps forward; see [`Cursor::move_next`].
    pub fn move_next<T>(&mut self, lv: &LinkedVector<T>) -> (r: Option<HNode>)
        requires
            lv.wf(),
        ensures
            cursor_step_next(old(self).cur_spec(), final(self).cur_spec(), *lv, r),
    {
        self.cur.move_next(lv)
    }

    /// Steps backward; see [`Cursor::move_prev`].
    pub fn move_prev<T>(&mut self, lv: &LinkedVector<T>) -> (r: Option<HNode>)
        requires
            lv.wf(),
        ensures
            cursor_step_prev(old(self).cur_spec(), final(self).cur_spec(), *lv, r),
    {
        self.cur.move_prev(lv)
    }

    /// Moves to the first element; see [`Cursor::move_to_front`].
    pub fn move_to_front<T>(&mut self, lv: &LinkedVector<T>) -> (r: Option<HNode>)
        requires
            lv.wf(),
        ensures
            lv@.len() == 0 ==> r is None && *final(self) == *old(self),
            lv@.len() > 0 ==> r == Some(lv.hseq()[0]) && final(self).handle_spec() == lv.hseq()[0],
    {
        self.cur.move_to_front(lv)
    }

    /// Moves to the last element; see [`Cursor::move_to_back`].
    pub fn move_to_back<T>(&mut self, lv: &LinkedVector<T>) -> (r: Option<HNode>)
        requires
            lv.wf(),
        ensures
            lv@.len() == 0 ==> r is None && *final(self) == *old(self),
            lv@.len() > 0 ==> r == Some(lv.hseq()[lv@.len() - 1]) && final(self).handle_spec()
                == lv.hseq()[lv@.len() - 1],
    {
        self.cur.move_to_back(lv)
    }

    /// Steps forward up to `n` times; see [`Cursor::forward`].
    pub fn forward<T>(&mut self, lv: &LinkedVector<T>, n: usize) -> (r: Result<HNode, HNode>)
        requires
            lv.wf(),
            lv.valid_handle(old(self).handle_spec()),
        ensures
            cursor_walked(old(self).cur_spec(), final(self).cur_spec(), *lv, n as int, true, r),
    {
        self.cur.forward(lv, n)
    }

    /// Steps backward up to `n` times; see [`Cursor::backward`].
    pub fn backward<T>(&mut self, lv: &LinkedVector<T>, n: usize) -> (r: Result<HNode, HNode>)
        requires
            lv.wf(),
            lv.valid_handle(old(self).handle_spec()),
        ensures
            cursor_walked(old(self).cur_spec(), final(self).cur_spec(), *lv, n as int, false, r),
    {
        self.cur.backward(lv, n)
    }

    /// The cursor's read-only core, for stating contracts.
    pub closed spec fn cur_spec(self) -> Cursor {
        self.cur
    }

    /// Inserts `value` at the cursor's position, which must be valid for
    /// `lv`; the cursor moves to the new element and returns its handle.
    pub fn insert<T>(&mut self, lv: &mut LinkedVector<T>, value: T) -> (h: HNode)
        requires
            old(lv).wf(),
            old(lv).valid_handle(old(self).handle_spec()),
        ensures
            final(lv).wf(),
            final(lv)@ == old(lv)@.insert(old(lv).pos_of(old(self).handle_spec()), value),
            final(lv).hseq() == old(lv).hseq().insert(
                old(lv).pos_of(old(self).handle_spec()),
                h,
            ),
            final(lv).valid_handle(h),
            final(lv).value_of(h) == value,
            final(self).handle_spec() == h,
            final(lv).retired_set() == old(lv).retired_set(),
    {
        let h = lv.insert(self.cur.node(), value);
        let moved = self.cur.move_to(lv, h);
        h
    }

    /// Inserts `value` immediately after the cursor's position, which must
    /// be valid for `lv`; the cursor stays put and the new element's handle
    /// is returned.
    pub fn insert_after<T>(&mut self, lv: &mut LinkedVector<T>, value: T) -> (h: HNode)
        requires
            old(lv).wf(),
            old(lv).valid_handle(old(self).handle_spec()),
        ensures
            final(lv).wf(),
            final(lv)@ == old(lv)@.insert(old(lv).pos_of(old(self).handle_spec()) + 1, value),
            final(lv).hseq() == old(lv).hseq().insert(
                old(lv).pos_of(old(self).handle_spec()) + 1,
                h,
            ),
            final(lv).valid_handle(h),
            final(lv).value_of(h) == value,
            *final(self) == *old(self),
            final(lv).retired_set() == old(lv).retired_set(),
    {
        lv.insert_after(self.cur.node(), value)
    }

    /// Removes the element at the cursor's position and returns it, or
    /// returns `None` (leaving everything untouched) if the position is not
    /// valid for `lv`. The cursor moves to the next element, to the
    /// previous one when the removed element was last, or to the invalid
    /// sentinel handle when the list becomes empty.
    #[verifier::rlimit(100)]
    #[verifier::spinoff_prover]
    pub fn remove<T>(&mut self, lv: &mut LinkedVector<T>) -> (r: Option<T>)
        requires
            old(lv).wf(),
        ensures
            final(lv).wf(),
            !old(lv).valid_handle(old(self).handle_spec()) ==> r is None && *final(lv) == *old(lv)
                && *final(self) == *old(self),
            old(lv).valid_handle(old(self).handle_spec()) ==> ({
                let p = old(lv).pos_of(old(self).handle_spec());
                &&& r == Some(old(lv)@[p])
                &&& final(lv)@ == old(lv)@.remove(p)
                &&& final(lv).hseq() == old(lv).hseq().remove(p)
                &&& !final(lv).valid_handle(old(self).handle_spec())
                &&& final(lv).retired_set() == old(lv).retired_set().insert(
                    old(self).handle_spec(),
                )
                &&& final(self).handle_spec() == (if p + 1 < old(lv)@.len() {
                    old(lv).hseq()[p + 1]
                } else if p > 0 {
                    old(lv).hseq()[p - 1]
                } else {
                    HNode::bad_spec()
                })
            }),
    {
        if !lv.is_valid(self.cur.node()) {
            return None;
        }
        let hrem = self.cur.node();
        proof {
            lv.lemma_valid_pos(hrem);
        }
        match lv.next_node(hrem) {
            Some(hnext) => {
                let moved = self.cur.move_to(lv, hnext);
                proof {
                    lv.lemma_handle_at_pos(lv.pos_of(hrem) + 1);
                }
            },
            None => {
                match lv.prev_node(hrem) {
                    Some(hprev) => {
                        let moved = self.cur.move_to(lv, hprev);
                        proof {
                            lv.lemma_handle_at_pos(lv.pos_of(hrem) - 1);
                        }
                    },
                    None => {
                        self.force_to(HNode::bad());
                    },
                }
            },
        }
        lv.remove(hrem)
    }

    /// Points the cursor at `node` without checking it; used to park the
    /// cursor on the invalid sentinel handle.
    fn force_to(&mut self, node: HNode)
        ensures
            final(self).handle_spec() == node,
    {
        self.cur = Cursor::new(node);
    }
}

/// How one forward step relates the cursor before and after: at the last
/// element (or an invalid position) nothing moves; otherwise the cursor
/// advances one position and returns the handle there.
pub open spec fn cursor_step_next<T>(
    pre: Cursor,
    post: Cursor,
    lv: LinkedVector<T>,
    r: Option<HNode>,
) -> bool {
    if lv.valid_handle(pre.handle_spec()) && lv.pos_of(pre.handle_spec()) + 1 < lv@.len() {
        let h = lv.hseq()[lv.pos_of(pre.handle_spec()) + 1];
        r == Some(h) && post.handle_spec() == h
    } else {
        r is None && post == pre
    }
}

/// How one backward step relates the cursor before and after: at the first
/// element (or an invalid position) nothing moves; otherwise the cursor
/// moves back one position and returns the handle there.
pub open spec fn cursor_step_prev<T>(
    pre: Cursor,
    post: Cursor,
    lv: LinkedVector<T>,
    r: Option<HNode>,
) -> bool {
    if lv.valid_handle(pre.handle_spec()) && lv.pos_of(pre.handle_spec()) > 0 {
        let h = lv.hseq()[lv.pos_of(pre.handle_spec()) - 1];
        r == Some(h) && post.handle_spec() == h
    } else {
        r is None && post == pre
    }
}

/// How a repeated walk relates the cursor before and after: the cursor
/// moves as far as possible, up to `n` steps in the given direction, and
/// the reached handle is reported through `Ok` when all `n` steps were
/// taken and through `Err` otherwise.
pub open spec fn cursor_walked<T>(
    pre: Cursor,
    post: Cursor,
    lv: LinkedVector<T>,
    n: int,
    forward: bool,
    r: Result<HNode, HNode>,
) -> bool {
    let p0 = lv.pos_of(pre.handle_spec());
    let target = if forward {
        p0 + n
    } else {
        p0 - n
    };
    let stop = if 0 <= target < lv@.len() {
        target
    } else if forward {
        lv@.len() - 1
    } else {
        0
    };
    let h = lv.hseq()[stop];
    &&& post.handle_spec() == h
    &&& r == (if stop == target {
        Result::<HNode, HNode>::Ok(h)
    } else {
        Result::<HNode, HNode>::Err(h)
    })
}

impl<T> LinkedVector<T> {
    /// Returns a read-only cursor positioned at the element addressed by
    /// `node`.
    pub fn cursor(&self, node: HNode) -> (r: Cursor)
        ensures
            r.handle_spec() == node,
    {
        Cursor::new(node)
    }

    /// Returns a read-write cursor positioned at the element addressed by
    /// `node`.
    pub fn cursor_mut(&mut self, node: HNode) -> (r: CursorMut)
        ensures
            r.handle_spec() == node,
    {
        CursorMut::new(node)
    }

    /// Returns a read-only cursor at the first element, or `None` if the
    /// list is empty.
    pub fn cursor_front(&self) -> (r: Option<Cursor>)
        requires
            self.wf(),
        ensures
            self@.len() == 0 ==> r is None,
            self@.len() > 0 ==> r is Some && r->Some_0.handle_spec() == self.hseq()[0],
    {
        match self.front_node() {
            Some(h) => Some(Cursor::new(h)),
            None => None,
        }
    }

    /// Returns a read-only cursor at the last element, or `None` if the
    /// list is empty.
    pub fn cursor_back(&self) -> (r: Option<Cursor>)
        requires
            self.wf(),
        ensures
            self@.len() == 0 ==> r is None,
            self@.len() > 0 ==> r is Some && r->Some_0.handle_spec() == self.hseq()[self@.len()
                - 1],
    {
        match self.back_node() {
            Some(h) => Some(Cursor::new(h)),
            None => None,
        }
    }

    /// Returns a read-write cursor at the first element, or `None` if the
    /// list is empty.
    pub fn cursor_front_mut(&mut self) -> (r: Option<CursorMut>)
        requires
            old(self).wf(),
        ensures
            *final(self) == *old(self),
            old(self)@.len() == 0 ==> r is None,
            old(self)@.len() > 0 ==> r is Some && r->Some_0.handle_spec() == old(self).hseq()[0],
    {
        match self.front_node() {
            Some(h) => Some(CursorMut::new(h)),
            None => None,
        }
    }

    /// Returns a read-write cursor at the last element, or `None` if the
    /// list is empty.
    pub fn cursor_back_mut(&mut self) -> (r: Option<CursorMut>)
        requires
            old(self).wf(),
        ensures
            *final(self) == *old(self),
            old(self)@.len() == 0 ==> r is None,
            old(self)@.len() > 0 ==> r is Some && r->Some_0.handle_spec() == old(self).hseq()[old(
                self,
            )@.len() - 1],
    {
        match self.back_node() {
            Some(h) => Some(CursorMut::new(h)),
            None => None,
        }
    }
}

} // verus!
