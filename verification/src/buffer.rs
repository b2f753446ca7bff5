//! Per-stream frame queues that share one slab.
//!
//! A [`Buffer`] owns the slots of every queued value; a [`Deque`] is a singly
//! linked list threaded through those slots (head, tail and a `next` key in
//! each slot). Many deques share one buffer.

use vstd::prelude::*;
use slab::Slab;

verus! {

#[verifier::external_type_specification]
#[verifier::external_body]
#[verifier::reject_recursive_types(T)]
pub struct ExSlab<T>(Slab<T>);

/// One stored value and the key of the value after it in its deque.
pub struct Slot<T> {
    pub value: T,
    pub next: Option<usize>,
}

/// Buffers values for many deques.
///
/// `slots` is the abstract content of the slab: the map from each occupied
/// key to the slot stored under it. Every access to `slab` goes through the
/// trusted wrappers below, each of which states how it changes that map.
#[verifier::reject_recursive_types(T)]
pub struct Buffer<T> {
    slab: Slab<Slot<T>>,
    slots: Ghost<Map<usize, Slot<T>>>,
}

/// Head and tail keys of a non-empty deque.
#[derive(Clone, Copy)]
struct Indices {
    head: usize,
    tail: usize,
}

/// A sequence of values stored in a [`Buffer`].
#[derive(Clone, Copy)]
pub struct Deque {
    indices: Option<Indices>,
    keys: Ghost<Seq<usize>>,
}

impl<T> Buffer<T> {
    /// The occupied keys of the buffer and their slots.
    pub closed spec fn slots(&self) -> Map<usize, Slot<T>> {
        self.slots@
    }

    pub fn new() -> (buf: Self)
        ensures
            buf.slots() == Map::<usize, Slot<T>>::empty(),
    {
        let buf = slab_new();
        proof {
            assert(buf.slots() =~= Map::<usize, Slot<T>>::empty());
        }
        buf
    }

    /// True when no value of any deque is stored in the buffer.
    pub fn is_empty(&self) -> (r: bool)
        ensures
            r == (self.slots().dom() == Set::<usize>::empty()),
    {
        slab_is_empty(self)
    }
}

/// `Slab::new`: an empty slab, held in a buffer with no occupied key.
#[verifier::external_body]
fn slab_new<T>() -> (r: Buffer<T>)
    ensures
        r.slots@.dom() == Set::<usize>::empty(),
{
    Buffer { slab: Slab::new(), slots: Ghost(Map::empty()) }
}

/// `Slab::is_empty`: the slab's length is 0, that is no key is occupied.
#[verifier::external_body]
fn slab_is_empty<T>(buf: &Buffer<T>) -> (r: bool)
    ensures
        r == (buf.slots@.dom() == Set::<usize>::empty()),
{
    buf.slab.is_empty()
}


/// `Slab::insert`: stores `slot` under the slab's next vacant key and returns
/// that key. The key was vacant before the call and no other key changes.
#[verifier::external_body]
fn slab_insert<T>(buf: &mut Buffer<T>, slot: Slot<T>) -> (key: usize)
    ensures
        !old(buf).slots@.dom().contains(key),
        final(buf).slots@ == old(buf).slots@.insert(key, slot),
{
    buf.slab.insert(slot)
}

/// `Slab::remove`: takes the slot stored under `key` out of the slab. The
/// slab panics on a vacant key, which `requires` rules out.
#[verifier::external_body]
fn slab_remove<T>(buf: &mut Buffer<T>, key: usize) -> (slot: Slot<T>)
    requires
        old(buf).slots@.dom().contains(key),
    ensures
        slot == old(buf).slots@[key],
        final(buf).slots@ == old(buf).slots@.remove(key),
{
    buf.slab.remove(key)
}

/// `Index::index` on the slab, then the slot's `next` field. The slab
/// panics on a vacant key, which `requires` rules out.
#[verifier::external_body]
fn slab_next<T>(buf: &Buffer<T>, key: usize) -> (next: Option<usize>)
    requires
        buf.slots@.dom().contains(key),
    ensures
        next == buf.slots@[key].next,
{
    buf.slab[key].next
}

/// `Index::index` on the slab, then a reference to the slot's value. The
/// slab panics on a vacant key, which `requires` rules out.
#[verifier::external_body]
fn slab_value<T>(buf: &Buffer<T>, key: usize) -> (value: &T)
    requires
        buf.slots@.dom().contains(key),
    ensures
        *value == buf.slots@[key].value,
{
    &buf.slab[key].value
}

/// `IndexMut::index_mut` on the slab, then an assignment to the slot's
/// `next` field; the value and every other key stay as they were.
#[verifier::external_body]
fn slab_set_next<T>(buf: &mut Buffer<T>, key: usize, next: Option<usize>)
    requires
        old(buf).slots@.dom().contains(key),
    ensures
        final(buf).slots@ == old(buf).slots@.insert(
            key,
            Slot { value: old(buf).slots@[key].value, next: next },
        ),
{
    buf.slab[key].next = next;
}


/// `keys` is a well-formed list threaded through `slots`: distinct occupied
/// keys, each slot linking to the next key and the last slot ending the list.
pub open spec fn linked<T>(keys: Seq<usize>, slots: Map<usize, Slot<T>>) -> bool {
    &&& keys.no_duplicates()
    &&& forall|i: int| 0 <= i < keys.len() ==> slots.dom().contains(#[trigger] keys[i])
    &&& forall|i: int|
        0 <= i < keys.len() - 1 ==> (#[trigger] slots[keys[i]]).next == Some(keys[i + 1])
    &&& keys.len() > 0 ==> slots[keys.last()].next == None::<usize>
}

/// The values stored under `keys`, in order.
pub open spec fn values_of<T>(keys: Seq<usize>, slots: Map<usize, Slot<T>>) -> Seq<T> {
    keys.map_values(|k: usize| slots[k].value)
}

/// Every occupied key outside `keys` keeps its slot from `before` to `after`.
pub open spec fn unchanged_outside<T>(
    before: Map<usize, Slot<T>>,
    after: Map<usize, Slot<T>>,
    keys: Seq<usize>,
) -> bool {
    forall|k: usize|
        before.dom().contains(k) && !keys.contains(k) ==> after.dom().contains(k) && after[k]
            == before[k]
}


/// Index `i` of `v` holds the first value on which `pred` answered `true`:
/// the call on `v[i]` returned `true` and every call before it `false`.
pub open spec fn first_match<T, F: Fn(&T) -> bool>(pred: F, v: Seq<T>, i: int) -> bool {
    &&& 0 <= i < v.len()
    &&& call_ensures(pred, (&v[i],), true)
    &&& forall|j: int| 0 <= j < i ==> call_ensures(pred, (&v[j],), false)
}

impl Deque {
    #[verifier::type_invariant]
    spec fn indices_match_keys(self) -> bool {
        match self.indices {
            None => self.keys@.len() == 0,
            Some(idx) => self.keys@.len() > 0 && idx.head == self.keys@[0] && idx.tail
                == self.keys@.last(),
        }
    }

    /// The buffer keys of the deque's values, front to back.
    pub closed spec fn keys(self) -> Seq<usize> {
        self.keys@
    }

    pub fn new() -> (d: Self)
        ensures
            d.keys() == Seq::<usize>::empty(),
    {
        Deque { indices: None, keys: Ghost(Seq::empty()) }
    }

    pub fn is_empty(&self) -> (r: bool)
        ensures
            r == (self.keys().len() == 0),
    {
        proof {
            use_type_invariant(self);
        }
        self.indices.is_none()
    }

    /// The deque is a well-formed list in `buf`.
    pub open spec fn wf_in<T>(self, buf: &Buffer<T>) -> bool {
        linked(self.keys(), buf.slots())
    }

    /// The values of the deque, front to back.
    pub open spec fn view_in<T>(self, buf: &Buffer<T>) -> Seq<T> {
        values_of(self.keys(), buf.slots())
    }

    /// The values of the deque, front to back, copied out.
    pub fn values<T: Copy>(&self, buf: &Buffer<T>) -> (v: Vec<T>)
        requires
            self.wf_in(buf),
        ensures
            v@ == self.view_in(buf),
    {
        proof {
            use_type_invariant(self);
        }
        let ghost keys = self.keys@;
        let mut out: Vec<T> = Vec::new();
        let mut cur: Option<usize> = match self.indices {
            Some(idxs) => Some(idxs.head),
            None => None,
        };
        loop
            invariant
                linked(keys, buf.slots@),
                keys == self.keys@,
                out@.len() <= keys.len(),
                out@ == values_of(keys.take(out@.len() as int), buf.slots@),
                cur == if out@.len() < keys.len() {
                    Some(keys[out@.len() as int])
                } else {
                    None::<usize>
                },
            ensures
                out@ == values_of(keys, buf.slots@),
            decreases keys.len() - out@.len(),
        {
            match cur {
                Some(k) => {
                    let ghost n = out@.len() as int;
                    let value: &T = slab_value(buf, k);
                    out.push(*value);
                    cur = slab_next(buf, k);
                    proof {
                        assert(values_of(keys.take(n + 1), buf.slots@) =~= values_of(
                            keys.take(n),
                            buf.slots@,
                        ).push(buf.slots@[keys[n]].value));
                    }
                },
                None => {
                    proof {
                        assert(keys.take(out@.len() as int) =~= keys);
                    }
                    break;
                },
            }
        }
        out
    }

    pub fn push_back<T>(&mut self, buf: &mut Buffer<T>, value: T)
        requires
            old(self).wf_in(old(buf)),
        ensures
            final(self).wf_in(final(buf)),
            final(self).view_in(final(buf)) == old(self).view_in(old(buf)).push(value),
            final(self).keys() == old(self).keys().push(final(self).keys().last()),
            !old(buf).slots().dom().contains(final(self).keys().last()),
            final(buf).slots().dom() == old(buf).slots().dom().insert(final(self).keys().last()),
            unchanged_outside(old(buf).slots(), final(buf).slots(), old(self).keys()),
    {
        proof {
            use_type_invariant(&*self);
        }
        let key: usize = slab_insert(buf, Slot { value, next: None });
        let ghost keys = self.keys@;
        match self.indices {
            Some(idxs) => {
                slab_set_next(buf, idxs.tail, Some(key));
                *self = Deque {
                    indices: Some(Indices { head: idxs.head, tail: key }),
                    keys: Ghost(keys.push(key)),
                };
            },
            None => {
                *self = Deque {
                    indices: Some(Indices { head: key, tail: key }),
                    keys: Ghost(Seq::empty().push(key)),
                };
            },
        }
        proof {
            let nk = keys.push(key);
            assert(!keys.contains(key));
            assert forall|i: int| 0 <= i < nk.len() - 1 implies (#[trigger] buf.slots@[nk[i]]).next
                == Some(nk[i + 1]) by {
                if i < keys.len() - 1 {
                    assert(old(buf).slots@[keys[i]].next == Some(keys[i + 1]));
                }
            }
            assert(values_of(nk, buf.slots@) =~= values_of(keys, old(buf).slots@).push(value));
        }
    }

    pub fn push_front<T>(&mut self, buf: &mut Buffer<T>, value: T)
        requires
            old(self).wf_in(old(buf)),
        ensures
            final(self).wf_in(final(buf)),
            final(self).view_in(final(buf)) == seq![value] + old(self).view_in(old(buf)),
            final(self).keys() == seq![final(self).keys()[0]] + old(self).keys(),
            !old(buf).slots().dom().contains(final(self).keys()[0]),
            final(buf).slots().dom() == old(buf).slots().dom().insert(final(self).keys()[0]),
            unchanged_outside(old(buf).slots(), final(buf).slots(), old(self).keys()),
    {
        proof {
            use_type_invariant(&*self);
        }
        let key: usize = slab_insert(buf, Slot { value, next: None });
        let ghost keys = self.keys@;
        match self.indices {
            Some(idxs) => {
                slab_set_next(buf, key, Some(idxs.head));
                *self = Deque {
                    indices: Some(Indices { head: key, tail: idxs.tail }),
                    keys: Ghost(Seq::empty().push(key) + keys),
                };
            },
            None => {
                *self = Deque {
                    indices: Some(Indices { head: key, tail: key }),
                    keys: Ghost(Seq::empty().push(key)),
                };
            },
        }
        proof {
            let nk = Seq::empty().push(key) + keys;
            assert(!keys.contains(key));
            assert(nk =~= self.keys@);
            assert forall|i: int| 0 <= i < nk.len() implies buf.slots@.dom().contains(
                #[trigger] nk[i],
            ) by {
                if i > 0 {
                    assert(nk[i] == keys[i - 1]);
                }
            }
            assert forall|i: int| 0 <= i < nk.len() - 1 implies (#[trigger] buf.slots@[nk[i]]).next
                == Some(nk[i + 1]) by {
                if i > 0 {
                    assert(nk[i] == keys[i - 1]);
                    assert(nk[i + 1] == keys[i]);
                    assert(old(buf).slots@[keys[i - 1]].next == Some(keys[i]));
                }
            }
            assert forall|i: int, j: int| 0 <= i < j < nk.len() implies nk[i] != nk[j] by {
                if i > 0 {
                    assert(nk[i] == keys[i - 1]);
                }
                assert(nk[j] == keys[j - 1]);
            }
            if keys.len() > 0 {
                assert(nk.last() == keys.last());
            }
            assert(values_of(nk, buf.slots@) =~= seq![value] + values_of(keys, old(buf).slots@));
        }
    }

    pub fn pop_front<T>(&mut self, buf: &mut Buffer<T>) -> (r: Option<T>)
        requires
            old(self).wf_in(old(buf)),
        ensures
            final(self).wf_in(final(buf)),
            old(self).keys().len() == 0 ==> r is None && *final(self) == *old(self)
                && final(buf).slots() == old(buf).slots(),
            old(self).keys().len() > 0 ==> r == Some(old(self).view_in(old(buf))[0])
                && final(self).keys() == old(self).keys().drop_first() && final(buf).slots()
                == old(buf).slots().remove(old(self).keys()[0]),
            final(self).view_in(final(buf)) == if old(self).keys().len() == 0 {
                old(self).view_in(old(buf))
            } else {
                old(self).view_in(old(buf)).drop_first()
            },
            unchanged_outside(old(buf).slots(), final(buf).slots(), old(self).keys()),
    {
        proof {
            use_type_invariant(&*self);
        }
        let ghost keys = self.keys@;
        match self.indices {
            Some(idxs) => {
                let slot = slab_remove(buf, idxs.head);
                let Slot { value, next } = slot;
                if idxs.head == idxs.tail {
                    proof {
                        if keys.len() > 1 {
                            assert(keys[0] != keys[keys.len() - 1]);
                        }
                    }
                    *self = Deque { indices: None, keys: Ghost(Seq::empty()) };
                } else {
                    proof {
                        assert(keys.len() > 1);
                        assert(old(buf).slots@[keys[0]].next == Some(keys[1]));
                    }
                    let n: usize = next.unwrap();
                    *self = Deque {
                        indices: Some(Indices { head: n, tail: idxs.tail }),
                        keys: Ghost(keys.drop_first()),
                    };
                }
                proof {
                    let nk = keys.drop_first();
                    assert(nk =~= self.keys@);
                    assert forall|i: int| 0 <= i < nk.len() implies buf.slots@.dom().contains(
                        #[trigger] nk[i],
                    ) by {
                        assert(nk[i] == keys[i + 1]);
                        assert(keys[i + 1] != keys[0]);
                    }
                    assert forall|i: int| 0 <= i < nk.len() - 1 implies (
                    #[trigger] buf.slots@[nk[i]]).next == Some(nk[i + 1]) by {
                        assert(nk[i] == keys[i + 1]);
                        assert(keys[i + 1] != keys[0]);
                        assert(old(buf).slots@[keys[i + 1]].next == Some(keys[i + 2]));
                    }
                    if nk.len() > 0 {
                        assert(nk.last() == keys.last());
                        assert(keys.last() != keys[0]);
                    }
                    assert forall|i: int| 0 <= i < nk.len() implies #[trigger] buf.slots@[nk[i]]
                        == old(buf).slots@[nk[i]] by {
                        assert(nk[i] == keys[i + 1]);
                        assert(keys[i + 1] != keys[0]);
                    }
                    assert(values_of(nk, buf.slots@) =~= values_of(keys, old(buf).slots@).drop_first());
                }
                Some(value)
            },
            None => None,
        }
    }

    /// Removes and returns the first value on which `pred` holds, leaving the
    /// other values in order.
    pub fn take_first_if<T, F>(&mut self, buf: &mut Buffer<T>, pred: F) -> (r: Option<T>) where
        F: Fn(&T) -> bool,
        requires
            old(self).wf_in(old(buf)),
            forall|i: int|
                0 <= i < old(self).keys().len() ==> call_requires(
                    pred,
                    (&old(self).view_in(old(buf))[i],),
                ),
        ensures
            final(self).wf_in(final(buf)),
            unchanged_outside(old(buf).slots(), final(buf).slots(), old(self).keys()),
            r is None ==> final(self).keys() == old(self).keys() && final(buf).slots() == old(buf).slots() && forall|i: int|
                0 <= i < old(self).keys().len() ==> call_ensures(
                    pred,
                    (&old(self).view_in(old(buf))[i],),
                    false,
                ),
            r matches Some(x) ==> exists|i: int|
                first_match(pred, old(self).view_in(old(buf)), i) && x == old(self).view_in(
                    old(buf),
                )[i] && final(self).keys() == old(self).keys().remove(i) && final(buf).slots().dom()
                    == old(buf).slots().dom().remove(old(self).keys()[i]) && final(self).view_in(
                    final(buf),
                ) == old(self).view_in(old(buf)).remove(i),
    {
        proof {
            use_type_invariant(&*self);
        }
        let idxs = match self.indices {
            Some(idxs) => idxs,
            None => {
                return None;
            },
        };
        let ghost keys = self.keys@;
        let ghost v = values_of(keys, buf.slots@);
        let mut prev: Option<usize> = None;
        let mut cur: usize = idxs.head;
        let ghost mut i: int = 0;
        loop
            invariant
                self.keys@ == keys,
                keys == old(self).keys(),
                buf.slots@ == old(buf).slots@,
                v == old(self).view_in(old(buf)),
                linked(keys, buf.slots@),
                keys.len() > 0,
                idxs.head == keys[0],
                idxs.tail == keys.last(),
                0 <= i < keys.len(),
                cur == keys[i],
                prev == if i == 0 {
                    None::<usize>
                } else {
                    Some(keys[i - 1])
                },
                forall|j: int| 0 <= j < keys.len() ==> call_requires(pred, (&v[j],)),
                forall|j: int| 0 <= j < i ==> call_ensures(pred, (&v[j],), false),
            decreases keys.len() - i,
        {
            assert(buf.slots@.dom().contains(keys[i]));
            let x: &T = slab_value(buf, cur);
            assert(*x == v[i]);
            let matched: bool = pred(x);
            if matched {
                let ghost before = buf.slots@;
                let slot = slab_remove(buf, cur);
                let Slot { value, next } = slot;
                let ghost nk = keys.remove(i);
                match prev {
                    Some(p) => {
                        assert(before[keys[i - 1]].next == Some(keys[i]));
                        assert(keys[i - 1] != keys[i]);
                        slab_set_next(buf, p, next);
                        let tail: usize = if idxs.tail == cur {
                            p
                        } else {
                            idxs.tail
                        };
                        proof {
                            if i < keys.len() - 1 {
                                assert(keys[keys.len() - 1] != keys[i]);
                                assert(nk.last() == keys.last());
                            } else {
                                assert(nk.last() == keys[i - 1]);
                            }
                            assert(nk[0] == keys[0]);
                        }
                        *self = Deque {
                            indices: Some(Indices { head: idxs.head, tail }),
                            keys: Ghost(nk),
                        };
                    },
                    None => {
                        match next {
                            Some(n) => {
                                proof {
                                    if keys.len() == 1 {
                                        assert(before[keys.last()].next == None::<usize>);
                                    }
                                    assert(before[keys[0]].next == Some(keys[1]));
                                    assert(nk[0] == keys[1]);
                                    assert(nk.last() == keys.last());
                                }
                                *self = Deque {
                                    indices: Some(Indices { head: n, tail: idxs.tail }),
                                    keys: Ghost(nk),
                                };
                            },
                            None => {
                                proof {
                                    if keys.len() > 1 {
                                        assert(before[keys[0]].next == Some(keys[1]));
                                    }
                                }
                                *self = Deque { indices: None, keys: Ghost(nk) };
                            },
                        }
                    },
                }
                proof {
                    let after = buf.slots@;
                    assert(nk =~= self.keys@);
                    assert forall|j: int| 0 <= j < nk.len() implies nk[j] != keys[i] && (j < i
                        ==> nk[j] == keys[j]) && (j >= i ==> nk[j] == keys[j + 1]) by {
                        if j < i {
                            assert(keys[j] != keys[i]);
                        } else {
                            assert(keys[j + 1] != keys[i]);
                        }
                    }
                    assert forall|j: int| 0 <= j < nk.len() implies after.dom().contains(
                        #[trigger] nk[j],
                    ) by {
                        if j < i {
                            assert(before.dom().contains(keys[j]));
                        } else {
                            assert(before.dom().contains(keys[j + 1]));
                        }
                    }
                    assert forall|j: int| 0 <= j < nk.len() - 1 implies (
                    #[trigger] after[nk[j]]).next == Some(nk[j + 1]) by {
                        if j < i - 1 {
                            assert(before[keys[j]].next == Some(keys[j + 1]));
                        } else if j == i - 1 {
                            assert(before[keys[i]].next == Some(keys[i + 1]));
                        } else {
                            assert(before[keys[j + 1]].next == Some(keys[j + 2]));
                        }
                    }
                    if nk.len() > 0 {
                        if i < keys.len() - 1 {
                            assert(nk.last() == keys.last());
                        } else {
                            assert(nk.last() == keys[i - 1]);
                            assert(before[keys[i]].next == None::<usize>);
                        }
                    }
                    assert forall|j: int| 0 <= j < nk.len() implies #[trigger] after[nk[j]].value
                        == before[nk[j]].value by {}
                    assert(values_of(nk, after) =~= v.remove(i));
                    assert forall|k: usize|
                        before.dom().contains(k) && !keys.contains(k) implies after.dom().contains(
                        k,
                    ) && after[k] == before[k] by {
                        if i > 0 {
                            assert(k != keys[i - 1]);
                        }
                        assert(k != keys[i]);
                    }
                    assert(first_match(pred, v, i));
                    if i == 0 {
                        assert(after =~= before.remove(keys[0]));
                    } else {
                        assert(after =~= before.remove(keys[i]).insert(
                            keys[i - 1],
                            Slot { value: before[keys[i - 1]].value, next: before[keys[i]].next },
                        ));
                    }
                    assert(after.dom() =~= before.dom().remove(keys[i]));
                }
                return Some(value);
            }
            match slab_next(buf, cur) {
                Some(n) => {
                    proof {
                        if i == keys.len() - 1 {
                            assert(buf.slots@[keys.last()].next == None::<usize>);
                        }
                        assert(buf.slots@[keys[i]].next == Some(keys[i + 1]));
                        i = i + 1;
                    }
                    prev = Some(cur);
                    cur = n;
                },
                None => {
                    proof {
                        if i < keys.len() - 1 {
                            assert(buf.slots@[keys[i]].next == Some(keys[i + 1]));
                        }
                    }
                    return None;
                },
            }
        }
    }
}

/// Deques that share a buffer do not disturb each other: after an operation
/// on one deque that left every slot outside its keys as it was, any other
/// deque (one sharing no key with it) is still well formed and holds the
/// same values.
pub proof fn lemma_other_deque_unchanged<T>(
    other: Deque,
    changed: Seq<usize>,
    before: &Buffer<T>,
    after: &Buffer<T>,
)
    requires
        other.wf_in(before),
        unchanged_outside(before.slots(), after.slots(), changed),
        forall|i: int| 0 <= i < other.keys().len() ==> !changed.contains(#[trigger] other.keys()[i]),
    ensures
        other.wf_in(after),
        other.view_in(after) == other.view_in(before),
{
    let keys = other.keys();
    assert forall|i: int| 0 <= i < keys.len() implies after.slots().dom().contains(#[trigger] keys[i])
        && after.slots()[keys[i]] == before.slots()[keys[i]] by {
        assert(before.slots().dom().contains(keys[i]));
        assert(!changed.contains(keys[i]));
    }
    assert forall|i: int| 0 <= i < keys.len() - 1 implies (#[trigger] after.slots()[keys[i]]).next
        == Some(keys[i + 1]) by {
        assert(after.slots()[keys[i]] == before.slots()[keys[i]]);
    }
    if keys.len() > 0 {
        assert(after.slots()[keys[keys.len() - 1]] == before.slots()[keys[keys.len() - 1]]);
    }
    assert(values_of(keys, after.slots()) =~= values_of(keys, before.slots()));
}

/// First in, first out: after `push_back(x)` on a deque holding `v`, the
/// front is `v`'s front (or `x` when `v` is empty) and popping it leaves the
/// rest of `v` followed by `x`.
pub proof fn lemma_fifo<T>(v: Seq<T>, x: T)
    ensures
        v.len() == 0 ==> v.push(x)[0] == x && v.push(x).drop_first() == v,
        v.len() > 0 ==> v.push(x)[0] == v[0] && v.push(x).drop_first() == v.drop_first().push(x),
{
    if v.len() == 0 {
        assert(v.push(x).drop_first() =~= v);
    } else {
        assert(v.push(x).drop_first() =~= v.drop_first().push(x));
    }
}

/// What `push_front` puts in is what `pop_front` takes out next, and the
/// deque is then as it was.
pub proof fn lemma_push_front_pop_front<T>(v: Seq<T>, x: T)
    ensures
        (seq![x] + v)[0] == x,
        (seq![x] + v).drop_first() == v,
{
    assert((seq![x] + v).drop_first() =~= v);
}

} // verus!
