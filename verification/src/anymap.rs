//! A store that holds at most one value per concrete type.
//!
//! Values of unrelated types live side by side behind one erased
//! representation `A`. Every erased value knows the tag of the concrete type
//! it holds, and every member type knows how to erase itself into `A` and how
//! to come back out of it.

use std::marker::PhantomData;
use vstd::prelude::*;

verus! {

/// A process-stable identifier of a concrete type. Two values of the same
/// concrete type have equal tags, two values of different types never do.
pub type TypeTag = u64;

/// The erased representation that a store holds: a value that still knows
/// which concrete type it was made from.
pub trait Downcast: Sized {
    /// The tag of the concrete type behind this erased value.
    spec fn tag(&self) -> TypeTag;

    /// Reads the tag of the concrete type behind this erased value.
    fn type_tag(&self) -> (id: TypeTag)
        ensures
            id == self.tag(),
    ;
}

/// A concrete type that can be stored as an `A` and recovered from it.
pub trait IntoBoxed<A: Downcast>: Sized {
    /// The tag under which values of this type are stored.
    spec fn member_tag() -> TypeTag;

    /// The erased form of a value.
    spec fn boxed(self) -> A;

    /// The value behind an erased form that carries this type's tag.
    spec fn unboxed(a: A) -> Self;

    /// Reads the tag under which values of this type are stored.
    fn tag_of_type() -> (id: TypeTag)
        ensures
            id == Self::member_tag(),
    ;

    /// Erases the value. The erased form carries this type's tag and gives
    /// the value back.
    fn into(self) -> (a: A)
        ensures
            a == self.boxed(),
            a.tag() == Self::member_tag(),
            Self::unboxed(a) == self,
    ;

    /// Borrows the concrete value out of an erased one, if the types match.
    fn downcast(this: &A) -> (r: Option<&Self>)
        ensures
            r == (if this.tag() == Self::member_tag() {
                Some(&Self::unboxed(*this))
            } else {
                None
            }),
            this.tag() == Self::member_tag() ==> Self::unboxed(*this).boxed() == *this,
    ;

    /// Borrows the concrete value mutably out of an erased one, if the types
    /// match. Whatever is written through the borrow is erased back in place.
    fn downcast_mut(this: &mut A) -> (r: Option<&mut Self>)
        ensures
            old(this).tag() != Self::member_tag() ==> r is None && *final(this) == *old(this),
            old(this).tag() == Self::member_tag() ==> {
                &&& r is Some
                &&& *r->0 == Self::unboxed(*old(this))
                &&& *final(this) == final(r->0).boxed()
                &&& final(this).tag() == Self::member_tag()
                &&& Self::unboxed(*final(this)) == *final(r->0)
            },
    ;
}

/// A store of erased values, at most one per type tag, in insertion order.
pub struct AnyMap<A: Downcast> {
    keys: Vec<TypeTag>,
    values: Vec<A>,
}

impl<A: Downcast> AnyMap<A> {
    /// The tags of the stored values, in insertion order.
    pub closed spec fn tags(&self) -> Seq<TypeTag> {
        self.keys@
    }

    /// The stored values, in insertion order.
    pub closed spec fn items(&self) -> Seq<A> {
        self.values@
    }

    /// Every value sits under the tag of its own concrete type, and no tag
    /// occurs twice.
    pub open spec fn wf(&self) -> bool {
        &&& self.tags().len() == self.items().len()
        &&& self.tags().no_duplicates()
        &&& forall|i: int|
            0 <= i < self.items().len() ==> (#[trigger] self.items()[i]).tag() == self.tags()[i]
    }

    /// Whether a value is stored under `tag`.
    pub open spec fn contains(&self, tag: TypeTag) -> bool {
        self.tags().contains(tag)
    }

    /// The slot of the value stored under `tag`.
    pub open spec fn position(&self, tag: TypeTag) -> int {
        choose|i: int| 0 <= i < self.tags().len() && self.tags()[i] == tag
    }

    /// The value stored under `tag`.
    pub open spec fn at(&self, tag: TypeTag) -> A {
        self.items()[self.position(tag)]
    }

    /// The store as a map from tag to erased value.
    pub open spec fn view(&self) -> Map<TypeTag, A> {
        Map::new(|tag: TypeTag| self.contains(tag), |tag: TypeTag| self.at(tag))
    }

    /// What a typed lookup finds.
    pub open spec fn spec_get<T: IntoBoxed<A>>(&self) -> Option<T> {
        if self.contains(T::member_tag()) {
            Some(T::unboxed(self.at(T::member_tag())))
        } else {
            None
        }
    }

    /// In a well-formed store a tag names exactly one slot.
    pub proof fn lemma_position(&self, i: int)
        requires
            self.tags().no_duplicates(),
            0 <= i < self.tags().len(),
        ensures
            self.contains(self.tags()[i]),
            self.position(self.tags()[i]) == i,
    {
        let tag = self.tags()[i];
        let p = self.position(tag);
        assert(0 <= p < self.tags().len() && self.tags()[p] == tag);
    }

    /// Creates an empty store.
    pub fn new() -> (map: Self)
        ensures
            map.wf(),
            map.tags() == Seq::<TypeTag>::empty(),
            map.items() == Seq::<A>::empty(),
            map@ == Map::<TypeTag, A>::empty(),
    {
        let map = AnyMap { keys: Vec::new(), values: Vec::new() };
        assert(map@ =~= Map::<TypeTag, A>::empty());
        map
    }

    /// The number of stored values.
    pub fn len(&self) -> (n: usize)
        ensures
            n == self.tags().len(),
    {
        self.keys.len()
    }

    /// The tags of the stored values, in insertion order.
    pub fn keys(&self) -> (r: Vec<TypeTag>)
        ensures
            r@ == self.tags(),
    {
        let mut out: Vec<TypeTag> = Vec::new();
        let mut i: usize = 0;
        while i < self.keys.len()
            invariant
                i <= self.keys.len(),
                out@ == self.keys@.subrange(0, i as int),
            decreases self.keys.len() - i,
        {
            out.push(self.keys[i]);
            proof {
                assert(out@ =~= self.keys@.subrange(0, i + 1));
            }
            i += 1;
        }
        proof {
            assert(out@ =~= self.keys@);
        }
        out
    }

    /// Finds the slot that holds `id`.
    fn find(&self, id: TypeTag) -> (r: Option<usize>)
        ensures
            match r {
                Some(i) => i < self.tags().len() && self.tags()[i as int] == id,
                None => !self.contains(id),
            },
    {
        let mut i: usize = 0;
        while i < self.keys.len()
            invariant
                i <= self.keys.len(),
                forall|j: int| 0 <= j < i ==> self.keys@[j] != id,
            decreases self.keys.len() - i,
        {
            if self.keys[i] == id {
                return Some(i);
            }
            i += 1;
        }
        None
    }

    /// Replacing a value by one of the same type keeps the store well formed
    /// and updates the map at that tag.
    pub proof fn lemma_replaced(&self, before: &Self, i: int)
        requires
            before.wf(),
            0 <= i < before.items().len(),
            self.tags() == before.tags(),
            self.items() == before.items().update(i, self.items()[i]),
            self.items()[i].tag() == before.tags()[i],
        ensures
            self.wf(),
            self@ == before@.insert(before.tags()[i], self.items()[i]),
    {
        let tag = before.tags()[i];
        before.lemma_position(i);
        assert forall|t: TypeTag| self.contains(t) implies #[trigger] self.at(t) == (if t == tag {
            self.items()[i]
        } else {
            before.at(t)
        }) by {
            let p = self.position(t);
            assert(self.position(t) == before.position(t));
            before.lemma_position(p);
        }
        assert(self@ =~= before@.insert(tag, self.items()[i]));
    }

    /// What holds of every value of a store still holds after one value has
    /// been set to a value of which it holds too.
    pub proof fn lemma_insert_keeps(&self, before: &Self, id: TypeTag, value: A, pred: spec_fn(A) -> bool)
        requires
            before.wf(),
            self.wf(),
            self@ == before@.insert(id, value),
            pred(value),
            forall|i: int| 0 <= i < before.items().len() ==> pred(#[trigger] before.items()[i]),
        ensures
            forall|i: int| 0 <= i < self.items().len() ==> pred(#[trigger] self.items()[i]),
    {
        assert forall|i: int| 0 <= i < self.items().len() implies pred(#[trigger] self.items()[i]) by {
            self.lemma_position(i);
            let t = self.tags()[i];
            assert(self@.dom().contains(t));
            assert(self@[t] == self.items()[i]);
            if t != id {
                assert(before@.dom().contains(t));
                assert(before@[t] == self.items()[i]);
                let p = before.position(t);
                assert(pred(before.items()[p]));
            }
        }
    }

    /// Appending a value whose tag is new keeps the store well formed and
    /// extends the map by that tag.
    pub proof fn lemma_pushed(&self, before: &Self, value: A)
        requires
            before.wf(),
            !before.contains(value.tag()),
            self.tags() == before.tags().push(value.tag()),
            self.items() == before.items().push(value),
        ensures
            self.wf(),
            self@ == before@.insert(value.tag(), value),
    {
        let tag = value.tag();
        let n = before.tags().len() as int;
        assert(self.tags()[n] == tag);
        assert forall|i: int, j: int|
            0 <= i < self.tags().len() && 0 <= j < self.tags().len() && i != j implies self.tags()[i]
            != self.tags()[j] by {
            if i < n && j < n {
                assert(before.tags()[i] != before.tags()[j]);
            } else if i < n {
                assert(before.tags().contains(before.tags()[i]));
            } else {
                assert(before.tags().contains(before.tags()[j]));
            }
        }
        self.lemma_position(n);
        assert forall|t: TypeTag| before.contains(t) implies self.contains(t) && self.at(t)
            == before.at(t) by {
            let p = before.position(t);
            assert(self.tags()[p] == t);
            self.lemma_position(p);
        }
        assert forall|t: TypeTag| self.contains(t) && t != tag implies before.contains(t) by {
            let p = self.position(t);
            assert(p < n);
            assert(before.tags()[p] == t);
        }
        assert(self@ =~= before@.insert(tag, value));
    }

    /// Stores an erased value under the tag of its own concrete type,
    /// overwriting any value that was stored under that tag.
    pub fn insert_raw(&mut self, value: A)
        requires
            old(self).wf(),
        ensures
            final(self).wf(),
            final(self)@ == old(self)@.insert(value.tag(), value),
            old(self).contains(value.tag()) ==> final(self).tags() == old(self).tags()
                && final(self).items() == old(self).items().update(
                old(self).position(value.tag()),
                value,
            ),
            !old(self).contains(value.tag()) ==> final(self).tags() == old(self).tags().push(
                value.tag(),
            ) && final(self).items() == old(self).items().push(value),
    {
        let id = value.type_tag();
        match self.find(id) {
            Some(i) => {
                proof {
                    self.lemma_position(i as int);
                }
                self.values[i] = value;
                proof {
                    self.lemma_replaced(old(self), i as int);
                }
            },
            None => {
                self.keys.push(id);
                self.values.push(value);
                proof {
                    self.lemma_pushed(old(self), value);
                }
            },
        }
    }

    /// Stores an erased value under the tag of its own concrete type, unless
    /// a value is already stored under that tag.
    pub fn insert_raw_if_missing(&mut self, value: A)
        requires
            old(self).wf(),
        ensures
            final(self).wf(),
            old(self).contains(value.tag()) ==> *final(self) == *old(self),
            !old(self).contains(value.tag()) ==> final(self)@ == old(self)@.insert(
                value.tag(),
                value,
            ) && final(self).tags() == old(self).tags().push(value.tag()) && final(self).items()
                == old(self).items().push(value),
    {
        let id = value.type_tag();
        if self.find(id).is_none() {
            self.keys.push(id);
            self.values.push(value);
            proof {
                self.lemma_pushed(old(self), value);
            }
        }
    }

    /// Stores a value under the tag of its type, overwriting any value of
    /// that type.
    pub fn insert<T: IntoBoxed<A>>(&mut self, value: T)
        requires
            old(self).wf(),
        ensures
            final(self).wf(),
            final(self)@ == old(self)@.insert(T::member_tag(), value.boxed()),
            final(self).spec_get::<T>() == Some(value),
            old(self).contains(T::member_tag()) ==> final(self).tags() == old(self).tags()
                && final(self).items() == old(self).items().update(
                old(self).position(T::member_tag()),
                value.boxed(),
            ),
            !old(self).contains(T::member_tag()) ==> final(self).tags() == old(self).tags().push(
                T::member_tag(),
            ) && final(self).items() == old(self).items().push(value.boxed()),
    {
        self.insert_raw(value.into());
        proof {
            assert(final(self)@.dom().contains(T::member_tag()));
        }
    }

    /// Borrows the erased value stored under `id`.
    pub fn get_raw(&self, id: TypeTag) -> (r: Option<&A>)
        requires
            self.wf(),
        ensures
            r == (if self.contains(id) {
                Some(&self.at(id))
            } else {
                None
            }),
    {
        match self.find(id) {
            Some(i) => {
                proof {
                    self.lemma_position(i as int);
                }
                Some(&self.values[i])
            },
            None => None,
        }
    }

    /// Borrows the stored value of type `T`.
    pub fn get<T: IntoBoxed<A>>(&self) -> (r: Option<&T>)
        requires
            self.wf(),
        ensures
            r == (match self.spec_get::<T>() {
                Some(v) => Some(&v),
                None => None,
            }),
    {
        match self.get_raw(T::tag_of_type()) {
            Some(a) => {
                proof {
                    self.lemma_position(self.position(T::member_tag()));
                }
                T::downcast(a)
            },
            None => None,
        }
    }

    /// Borrows the erased value stored under `id` mutably. The store stays
    /// well formed as long as the caller keeps the value's concrete type.
    pub fn get_mut_raw(&mut self, id: TypeTag) -> (r: Option<&mut A>)
        requires
            old(self).wf(),
        ensures
            !old(self).contains(id) ==> r is None && *final(self) == *old(self),
            old(self).contains(id) ==> {
                &&& r is Some
                &&& *r->0 == old(self).at(id)
                &&& final(self).tags() == old(self).tags()
                &&& final(self).items() == old(self).items().update(
                    old(self).position(id),
                    *final(r->0),
                )
                &&& final(r->0).tag() == id ==> final(self).wf() && final(self)@ == old(self)@.insert(
                    id,
                    *final(r->0),
                )
                &&& *final(r->0) == old(self).at(id) ==> final(self).items() == old(self).items()
            },
    {
        match self.find(id) {
            Some(i) => {
                proof {
                    self.lemma_position(i as int);
                }
                let ghost done = *final(self);
                let slot = &mut self.values[i];
                assert(final(slot).tag() == id ==> done.wf() && done@ == old(self)@.insert(
                    id,
                    *final(slot),
                )) by {
                    if final(slot).tag() == id {
                        done.lemma_replaced(old(self), i as int);
                    }
                }
                assert(*final(slot) == old(self).values@[i as int] ==> done.values@ == old(self).values@) by {
                    if *final(slot) == old(self).values@[i as int] {
                        assert(done.values@ =~= old(self).values@);
                    }
                }
                Some(slot)
            },
            None => None,
        }
    }

    /// Borrows every stored value, in insertion order.
    pub fn iter(&self) -> (r: Vec<&A>)
        requires
            self.wf(),
        ensures
            r@.len() == self.items().len(),
            forall|i: int| 0 <= i < r@.len() ==> *r@[i] == self.items()[i],
    {
        let mut out: Vec<&A> = Vec::new();
        let mut i: usize = 0;
        while i < self.values.len()
            invariant
                i <= self.values.len(),
                out@.len() == i,
                forall|j: int| 0 <= j < i ==> *out@[j] == self.values@[j],
            decreases self.values.len() - i,
        {
            out.push(&self.values[i]);
            i += 1;
        }
        out
    }

    /// Borrows every stored value mutably, in insertion order. The store
    /// stays well formed as long as the caller keeps each value's concrete
    /// type.
    pub fn iter_mut(&mut self) -> (r: Vec<&mut A>)
        requires
            old(self).wf(),
        ensures
            r@.len() == old(self).items().len(),
            forall|i: int| 0 <= i < r@.len() ==> *r@[i] == old(self).items()[i],
            final(self).tags() == old(self).tags(),
            final(self).items().len() == r@.len(),
            forall|i: int| 0 <= i < r@.len() ==> final(self).items()[i] == *final(r@[i]),
    {
        let mut out: Vec<&mut A> = Vec::new();
        let mut rest: &mut [A] = self.values.as_mut_slice();
        while rest.len() > 0
            invariant
                out@.len() + rest@.len() == old(self).values@.len(),
                rest@ == old(self).values@.subrange(
                    out@.len() as int,
                    old(self).values@.len() as int,
                ),
                forall|j: int| 0 <= j < out@.len() ==> *out@[j] == old(self).values@[j],
                after_borrow(self.values)@ == Seq::new(out@.len(), |j: int| *final(out@[j]))
                    + final(rest)@,
            decreases rest@.len(),
        {
            let ghost whole = final(rest)@;
            let ghost settled = Seq::new(out@.len(), |j: int| *final(out@[j]));
            let (head, tail) = rest.split_at_mut(1);
            let ghost head_done = final(head)@;
            let ghost tail_done = final(tail)@;
            let first = &mut head[0];
            let ghost last = *final(first);
            proof {
                assert(head_done.len() == 1);
                assert(head_done[0] == last);
                assert(settled + whole =~= settled.push(last) + tail_done);
            }
            out.push(first);
            rest = tail;
            proof {
                assert(Seq::new(out@.len(), |j: int| *final(out@[j])) =~= settled.push(last));
            }
        }
        proof {
            assert(final(rest)@.len() == 0);
            assert(after_borrow(self.values)@ =~= Seq::new(out@.len(), |j: int| *final(out@[j])));
        }
        out
    }

    /// Opens the slot of type `T` for in-place work.
    pub fn entry<T: IntoBoxed<A>>(&mut self) -> (e: Entry<'_, A, T>)
        ensures
            *e.map == *old(self),
            *final(e.map) == *final(self),
    {
        Entry { map: self, _phantom: PhantomData }
    }
}

/// The slot of type `T` in a store, whether it is filled or not.
pub struct Entry<'h, A: Downcast, T> {
    /// The store that the slot belongs to.
    pub map: &'h mut AnyMap<A>,
    /// The type that the slot is for.
    pub _phantom: PhantomData<T>,
}

impl<'h, A: Downcast, T> Entry<'h, A, T> {
    /// Borrows the value of type `T` mutably, after storing a default value
    /// if the store held none.
    pub fn or_default(self) -> (r: &'h mut T) where T: Default + IntoBoxed<A>
        requires
            old(self.map).wf(),
        ensures
            final(self.map).wf(),
            old(self.map).contains(T::member_tag()) ==> {
                &&& *r == T::unboxed(old(self.map).at(T::member_tag()))
                &&& final(self.map).tags() == old(self.map).tags()
                &&& final(self.map).items() == old(self.map).items().update(
                    old(self.map).position(T::member_tag()),
                    final(r).boxed(),
                )
            },
            !old(self.map).contains(T::member_tag()) ==> {
                &&& call_ensures(T::default, (), *r)
                &&& final(self.map).tags() == old(self.map).tags().push(T::member_tag())
                &&& final(self.map).items() == old(self.map).items().push(final(r).boxed())
            },
    {
        let map = self.map;
        let id = T::tag_of_type();
        let i = match map.find(id) {
            Some(i) => {
                proof {
                    map.lemma_position(i as int);
                }
                i
            },
            None => {
                let fresh = T::default().into();
                map.keys.push(id);
                map.values.push(fresh);
                proof {
                    map.lemma_pushed(old(self.map), fresh);
                }
                map.keys.len() - 1
            },
        };
        let slot = &mut map.values[i];
        match T::downcast_mut(slot) {
            Some(value) => value,
            None => vstd::pervasive::unreached(),
        }
    }
}

} // verus!
