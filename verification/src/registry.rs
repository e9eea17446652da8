//! The plugin registry: one place per type of plugin, with the views that
//! are held of each plugin tracked at run time.

use crate::anymap::{AnyMap, Downcast, IntoBoxed, TypeTag};
use vstd::prelude::*;

verus! {

/// Who holds a view of a plugin right now.
pub enum BorrowState {
    /// Nobody: any view can be had.
    Free,
    /// So many shared views: more shared views can be had, no exclusive one.
    Shared(nat),
    /// One exclusive view: no other view can be had.
    Exclusive,
}

/// The place of one plugin in the registry. It keeps track, at run time, of
/// the views that are held of the plugin.
pub struct PluginWrapper<P: Downcast> {
    id: TypeTag,
    plugin: Option<P>,
    readers: usize,
}

impl<P: Downcast> Downcast for PluginWrapper<P> {
    closed spec fn tag(&self) -> TypeTag {
        self.id
    }

    fn type_tag(&self) -> (id: TypeTag) {
        self.id
    }
}

impl<P: Downcast> PluginWrapper<P> {
    /// Who holds a view of the plugin.
    pub closed spec fn state(&self) -> BorrowState {
        if self.plugin is None {
            BorrowState::Exclusive
        } else if self.readers > 0 {
            BorrowState::Shared(self.readers as nat)
        } else {
            BorrowState::Free
        }
    }

    /// The plugin, while nobody holds it exclusively.
    pub closed spec fn plugin(&self) -> P
        recommends
            self.state() != BorrowState::Exclusive,
    {
        self.plugin->0
    }

    /// The place is for plugins of one type and holds a plugin of that type,
    /// and a plugin that is held exclusively has no shared views.
    pub closed spec fn wf(&self) -> bool {
        &&& self.plugin matches Some(p) ==> p.tag() == self.id
        &&& self.plugin is None ==> self.readers == 0
    }

    /// Whether a shared view can be had: nobody holds the plugin exclusively.
    pub open spec fn can_share(&self) -> bool {
        self.state() != BorrowState::Exclusive
    }

    /// Whether an exclusive view can be had: nobody holds any view.
    pub open spec fn can_lend(&self) -> bool {
        self.state() == BorrowState::Free
    }

    /// A shared view cannot be had while the plugin is held exclusively, and
    /// an exclusive view cannot be had while any view is held.
    pub proof fn lemma_views_exclude(&self)
        ensures
            self.state() is Exclusive ==> !self.can_share() && !self.can_lend(),
            self.state() is Shared ==> self.can_share() && !self.can_lend(),
            self.state() is Free ==> self.can_share() && self.can_lend(),
    {
    }

    /// Makes the place of a plugin that nobody holds a view of.
    pub fn new(plugin: P) -> (wrapper: Self)
        ensures
            wrapper.wf(),
            wrapper.tag() == plugin.tag(),
            wrapper.state() == BorrowState::Free,
            wrapper.plugin() == plugin,
    {
        PluginWrapper { id: plugin.type_tag(), plugin: Some(plugin), readers: 0 }
    }

    /// Whether nobody holds a view of the plugin.
    pub fn is_free(&self) -> (r: bool)
        ensures
            r == self.can_lend(),
    {
        self.plugin.is_some() && self.readers == 0
    }

    /// Borrows the plugin for reading, unless it is held exclusively.
    pub fn borrow(&self) -> (r: Option<&P>)
        ensures
            r == (if self.can_share() {
                Some(&self.plugin())
            } else {
                None
            }),
    {
        self.plugin.as_ref()
    }

    /// Borrows the plugin for writing, unless a view of it is held.
    pub fn borrow_mut(&mut self) -> (r: Option<&mut P>)
        requires
            old(self).wf(),
        ensures
            !old(self).can_lend() ==> r is None && *final(self) == *old(self),
            old(self).can_lend() ==> {
                &&& r is Some
                &&& *r->0 == old(self).plugin()
                &&& final(self).tag() == old(self).tag()
                &&& final(self).state() == BorrowState::Free
                &&& final(self).plugin() == *final(r->0)
                &&& final(r->0).tag() == old(self).tag() ==> final(self).wf()
            },
    {
        if self.readers > 0 {
            None
        } else {
            self.plugin.as_mut()
        }
    }

    /// Registers one more shared view of the plugin, unless the plugin is
    /// held exclusively. Returns whether the view was registered.
    pub fn hold(&mut self) -> (held: bool)
        requires
            old(self).wf(),
        ensures
            final(self).wf(),
            final(self).tag() == old(self).tag(),
            held ==> {
                &&& old(self).can_share()
                &&& final(self).plugin() == old(self).plugin()
                &&& final(self).state() is Shared
            },
            !held ==> *final(self) == *old(self),
            old(self).state() is Exclusive ==> !held,
            old(self).state() is Free ==> held && final(self).state() == BorrowState::Shared(1),
            old(self).state() matches BorrowState::Shared(n) ==> (held <==> n < usize::MAX) && (held
                ==> final(self).state() == BorrowState::Shared(n + 1)),
    {
        if self.plugin.is_none() || self.readers == usize::MAX {
            false
        } else {
            self.readers = self.readers + 1;
            true
        }
    }

    /// Gives one shared view back. Without a shared view nothing changes.
    pub fn release(&mut self)
        requires
            old(self).wf(),
        ensures
            final(self).wf(),
            final(self).tag() == old(self).tag(),
            old(self).state() matches BorrowState::Shared(n) ==> {
                &&& final(self).plugin() == old(self).plugin()
                &&& final(self).state() == (if n == 1 {
                    BorrowState::Free
                } else {
                    BorrowState::Shared((n - 1) as nat)
                })
            },
            !(old(self).state() is Shared) ==> *final(self) == *old(self),
    {
        if self.readers > 0 {
            self.readers = self.readers - 1;
        }
    }

    /// Hands the plugin out for exclusive use, unless a view of it is held.
    /// Until the plugin is put back, no view of it can be had.
    pub fn take(&mut self) -> (r: Option<P>)
        requires
            old(self).wf(),
        ensures
            final(self).wf(),
            final(self).tag() == old(self).tag(),
            r == (if old(self).can_lend() {
                Some(old(self).plugin())
            } else {
                None
            }),
            old(self).can_lend() ==> final(self).state() == BorrowState::Exclusive,
            !old(self).can_lend() ==> *final(self) == *old(self),
    {
        if self.readers > 0 {
            None
        } else {
            self.plugin.take()
        }
    }

    /// Takes back a plugin that was handed out for exclusive use. A plugin of
    /// another type, or one that was not handed out, is returned to the caller.
    pub fn put(&mut self, plugin: P) -> (r: Option<P>)
        requires
            old(self).wf(),
        ensures
            final(self).wf(),
            final(self).tag() == old(self).tag(),
            old(self).state() is Exclusive && plugin.tag() == old(self).tag() ==> {
                &&& r is None
                &&& final(self).state() == BorrowState::Free
                &&& final(self).plugin() == plugin
            },
            !(old(self).state() is Exclusive && plugin.tag() == old(self).tag()) ==> r == Some(plugin)
                && *final(self) == *old(self),
    {
        if self.plugin.is_none() && plugin.type_tag() == self.id {
            self.plugin = Some(plugin);
            None
        } else {
            Some(plugin)
        }
    }
}

/// An entry of the list of plugins that the host registers at startup: the
/// way to make the plugin.
pub struct RegisterPlugin<F> {
    /// Makes the plugin, in erased form.
    pub constructor: F,
}

impl<F> RegisterPlugin<F> {
    /// The entry for the plugin that `constructor` makes.
    pub fn new(constructor: F) -> (entry: Self)
        ensures
            entry.constructor == constructor,
    {
        RegisterPlugin { constructor }
    }
}

/// The plugins of which a shared view can be had, in the order of their places.
pub open spec fn available<P: Downcast>(slots: Seq<PluginWrapper<P>>) -> Seq<P>
    decreases slots.len(),
{
    if slots.len() == 0 {
        Seq::empty()
    } else if slots.last().can_share() {
        available(slots.drop_last()).push(slots.last().plugin())
    } else {
        available(slots.drop_last())
    }
}

/// The tags of the plugins of which an exclusive view can be had, in the
/// order of their places.
pub open spec fn lendable<P: Downcast>(slots: Seq<PluginWrapper<P>>) -> Seq<TypeTag>
    decreases slots.len(),
{
    if slots.len() == 0 {
        Seq::empty()
    } else if slots.last().can_lend() {
        lendable(slots.drop_last()).push(slots.last().tag())
    } else {
        lendable(slots.drop_last())
    }
}

/// The registry: one place per type of plugin, in the order in which the
/// plugins were registered.
pub struct PluginStore<P: Downcast> {
    plugins: AnyMap<PluginWrapper<P>>,
}

impl<P: Downcast> PluginStore<P> {
    /// The places of the plugins.
    pub closed spec fn slots(&self) -> AnyMap<PluginWrapper<P>> {
        self.plugins
    }

    /// The store of places is well formed, and so is every place.
    pub open spec fn wf(&self) -> bool {
        &&& self.slots().wf()
        &&& forall|i: int|
            0 <= i < self.slots().items().len() ==> (#[trigger] self.slots().items()[i]).wf()
    }

    /// Whether a plugin of type `tag` is registered.
    pub open spec fn contains(&self, tag: TypeTag) -> bool {
        self.slots().contains(tag)
    }

    /// Who holds a view of the plugin of type `tag`.
    pub open spec fn state(&self, tag: TypeTag) -> BorrowState {
        self.slots().at(tag).state()
    }

    /// Whether a shared view of the plugin of type `tag` can be had: the
    /// plugin is registered and nobody holds it exclusively.
    pub open spec fn can_share(&self, tag: TypeTag) -> bool {
        self.contains(tag) && self.slots().at(tag).can_share()
    }

    /// Whether an exclusive view of the plugin of type `tag` can be had: the
    /// plugin is registered and nobody holds a view of it.
    pub open spec fn can_lend(&self, tag: TypeTag) -> bool {
        self.contains(tag) && self.slots().at(tag).can_lend()
    }

    /// The plugin of type `tag`.
    pub open spec fn plugin(&self, tag: TypeTag) -> P {
        self.slots().at(tag).plugin()
    }

    /// Whether every place but that of the type `id` is as it was in `before`.
    pub open spec fn others_kept(&self, before: &Self, id: TypeTag) -> bool {
        forall|tag: TypeTag|
            tag != id && before.contains(tag) ==> self.slots().at(tag) == before.slots().at(tag)
    }

    /// Whether the registry holds the same plugins in the same places as
    /// `before`, whatever views are held of them.
    pub open spec fn same_tags(&self, before: &Self) -> bool {
        self.slots().tags() == before.slots().tags()
    }

    /// What the views of the registered plugins show, in the order of
    /// registration: the plugin where a shared view can be had, nothing where
    /// the plugin is held exclusively.
    pub open spec fn shown(&self) -> Seq<Option<&P>> {
        Seq::new(
            self.slots().items().len(),
            |i: int|
                if self.slots().items()[i].can_share() {
                    Some(&self.slots().items()[i].plugin())
                } else {
                    None
                },
        )
    }

    /// What a shared view of the plugin of type `T` shows.
    pub open spec fn spec_get<T: IntoBoxed<P>>(&self) -> Option<T> {
        if self.can_share(T::member_tag()) {
            Some(T::unboxed(self.plugin(T::member_tag())))
        } else {
            None
        }
    }

    /// While a shared view of a plugin is held, no exclusive view of it can
    /// be had; while an exclusive view is held, no view at all can be had;
    /// and of a plugin that is not registered no view can be had either.
    pub proof fn lemma_aliasing(&self, tag: TypeTag)
        ensures
            self.contains(tag) && self.state(tag) is Shared ==> self.can_share(tag) && !self.can_lend(
                tag,
            ),
            self.contains(tag) && self.state(tag) is Exclusive ==> !self.can_share(tag)
                && !self.can_lend(tag),
            !self.contains(tag) ==> !self.can_share(tag) && !self.can_lend(tag),
    {
    }

    /// In a well-formed registry every place is well formed and holds a
    /// plugin of its own type.
    proof fn lemma_slot(&self, tag: TypeTag)
        requires
            self.wf(),
            self.contains(tag),
        ensures
            self.slots().at(tag).wf(),
            self.slots().at(tag).tag() == tag,
            self.can_share(tag) ==> self.plugin(tag).tag() == tag,
    {
        let p = self.slots().position(tag);
        self.slots().lemma_position(p);
        assert(self.slots().items()[p].wf());
    }

    /// Creates a registry without plugins.
    pub fn new() -> (store: Self)
        ensures
            store.wf(),
            store.slots()@ == Map::<TypeTag, PluginWrapper<P>>::empty(),
            store.slots().tags() == Seq::<TypeTag>::empty(),
    {
        PluginStore { plugins: AnyMap::new() }
    }

    /// Registers an erased plugin under the tag of its concrete type. A
    /// plugin of that type that was registered before is replaced, whatever
    /// views were held of it.
    pub fn insert_raw(&mut self, plugin: P)
        requires
            old(self).wf(),
        ensures
            final(self).wf(),
            final(self).contains(plugin.tag()),
            final(self).state(plugin.tag()) == BorrowState::Free,
            final(self).plugin(plugin.tag()) == plugin,
            forall|tag: TypeTag|
                tag != plugin.tag() ==> final(self).contains(tag) == old(self).contains(tag) && (
                old(self).contains(tag) ==> final(self).slots().at(tag) == old(self).slots().at(tag)),
            old(self).contains(plugin.tag()) ==> final(self).slots().tags() == old(self).slots().tags(),
            !old(self).contains(plugin.tag()) ==> {
                final(self).slots().tags() == old(self).slots().tags().push(plugin.tag())
            },
    {
        let wrapper = PluginWrapper::new(plugin);
        self.plugins.insert_raw(wrapper);
        proof {
            self.lemma_set(old(self), plugin.tag(), wrapper);
        }
    }

    /// Makes the plugin of an entry of the startup list and registers it.
    pub fn register<F: Fn() -> P>(&mut self, plugin: &RegisterPlugin<F>)
        requires
            old(self).wf(),
            call_requires(plugin.constructor, ()),
        ensures
            final(self).wf(),
            exists|made: P|
                {
                    &&& call_ensures(plugin.constructor, (), made)
                    &&& final(self).contains(made.tag())
                    &&& final(self).state(made.tag()) == BorrowState::Free
                    &&& #[trigger] final(self).plugin(made.tag()) == made
                    &&& forall|tag: TypeTag|
                        tag != made.tag() ==> final(self).contains(tag) == old(self).contains(tag)
                            && (old(self).contains(tag) ==> final(self).slots().at(tag) == old(self).slots().at(tag))
                },
    {
        let made = (plugin.constructor)();
        self.insert_raw(made);
        proof {
            assert(self.plugin(made.tag()) == made);
        }
    }

    /// Registers a plugin under the tag of its type.
    pub fn insert<T: IntoBoxed<P>>(&mut self, value: T)
        requires
            old(self).wf(),
        ensures
            final(self).wf(),
            final(self).contains(T::member_tag()),
            final(self).state(T::member_tag()) == BorrowState::Free,
            final(self).plugin(T::member_tag()) == value.boxed(),
            final(self).spec_get::<T>() == Some(value),
            forall|tag: TypeTag|
                tag != T::member_tag() ==> final(self).contains(tag) == old(self).contains(tag) && (
                old(self).contains(tag) ==> final(self).slots().at(tag) == old(self).slots().at(tag)),
            old(self).contains(T::member_tag()) ==> final(self).slots().tags() == old(self).slots().tags(),
            !old(self).contains(T::member_tag()) ==> {
                final(self).slots().tags() == old(self).slots().tags().push(T::member_tag())
            },
    {
        self.insert_raw(value.into());
    }

    /// The tags of the registered plugins, in the order of registration.
    pub fn keys(&self) -> (r: Vec<TypeTag>)
        ensures
            r@ == self.slots().tags(),
    {
        self.plugins.keys()
    }

    /// Borrows a shared view of the plugin of type `T`. There is none while
    /// the plugin is held exclusively, nor when no such plugin is registered.
    pub fn get<T: IntoBoxed<P>>(&self) -> (r: Option<&T>)
        requires
            self.wf(),
        ensures
            r == (match self.spec_get::<T>() {
                Some(v) => Some(&v),
                None => None,
            }),
    {
        match self.plugins.get_raw(T::tag_of_type()) {
            Some(wrapper) => {
                proof {
                    self.lemma_slot(T::member_tag());
                }
                match wrapper.borrow() {
                    Some(plugin) => T::downcast(plugin),
                    None => None,
                }
            },
            None => None,
        }
    }

    /// Borrows the erased plugin of type `id`, unless it is held exclusively
    /// or not registered.
    pub fn get_raw(&self, id: TypeTag) -> (r: Option<&P>)
        requires
            self.wf(),
        ensures
            r == (if self.can_share(id) {
                Some(&self.plugin(id))
            } else {
                None
            }),
    {
        match self.plugins.get_raw(id) {
            Some(wrapper) => wrapper.borrow(),
            None => None,
        }
    }

    /// Borrows an exclusive view of the plugin of type `T`. There is none
    /// while any view of the plugin is held, nor when no such plugin is
    /// registered.
    pub fn get_mut<T: IntoBoxed<P>>(&mut self) -> (r: Option<&mut T>)
        requires
            old(self).wf(),
        ensures
            !old(self).can_lend(T::member_tag()) ==> {
                &&& r is None
                &&& final(self).slots().items() == old(self).slots().items()
            },
            old(self).can_lend(T::member_tag()) ==> {
                &&& r is Some
                &&& *r->0 == T::unboxed(old(self).plugin(T::member_tag()))
                &&& final(self).wf()
                &&& final(self).slots().tags() == old(self).slots().tags()
                &&& final(self).state(T::member_tag()) == BorrowState::Free
                &&& final(self).plugin(T::member_tag()) == final(r->0).boxed()
                &&& final(self).spec_get::<T>() == Some(*final(r->0))
                &&& final(self).others_kept(old(self), T::member_tag())
            },
    {
        let id = T::tag_of_type();
        proof {
            if self.contains(id) {
                self.lemma_slot(id);
            }
        }
        let ghost done = *final(self);
        match self.plugins.get_mut_raw(id) {
            Some(wrapper) => {
                let ghost wrapper_done = *final(wrapper);
                match wrapper.borrow_mut() {
                    Some(plugin) => {
                        let ghost plugin_done = *final(plugin);
                        match T::downcast_mut(plugin) {
                            Some(value) => {
                                proof {
                                    assert(plugin_done.tag() == id);
                                    assert(wrapper_done.wf());
                                    assert(wrapper_done.tag() == id);
                                    done.lemma_set(old(self), id, wrapper_done);
                                }
                                Some(value)
                            },
                            None => None,
                        }
                    },
                    None => None,
                }
            },
            None => None,
        }
    }

    /// Registers one more shared view of the plugin of type `id`, unless the
    /// plugin is held exclusively or not registered. Returns whether the view
    /// was registered. While it is, no exclusive view of the plugin can be had.
    pub fn hold(&mut self, id: TypeTag) -> (held: bool)
        requires
            old(self).wf(),
        ensures
            final(self).wf(),
            final(self).slots().tags() == old(self).slots().tags(),
            held ==> {
                &&& old(self).can_share(id)
                &&& final(self).state(id) is Shared
                &&& !final(self).can_lend(id)
                &&& final(self).plugin(id) == old(self).plugin(id)
            },
            !held ==> final(self).slots().items() == old(self).slots().items(),
            !old(self).can_share(id) ==> !held,
            old(self).can_lend(id) ==> held && final(self).state(id) == BorrowState::Shared(1),
            final(self).others_kept(old(self), id),
    {
        proof {
            if self.contains(id) {
                self.lemma_slot(id);
            }
        }
        match self.plugins.get_mut_raw(id) {
            Some(wrapper) => {
                let held = wrapper.hold();
                proof {
                    if held {
                        self.lemma_set(old(self), id, *wrapper);
                    }
                }
                held
            },
            None => false,
        }
    }

    /// Gives back one shared view of the plugin of type `id`. Where none is
    /// held nothing changes.
    pub fn release(&mut self, id: TypeTag)
        requires
            old(self).wf(),
        ensures
            final(self).wf(),
            final(self).slots().tags() == old(self).slots().tags(),
            old(self).contains(id) ==> (old(self).state(id) matches BorrowState::Shared(n) ==> {
                &&& final(self).plugin(id) == old(self).plugin(id)
                &&& final(self).state(id) == (if n == 1 {
                    BorrowState::Free
                } else {
                    BorrowState::Shared((n - 1) as nat)
                })
            }),
            !(old(self).contains(id) && old(self).state(id) is Shared) ==> {
                final(self).slots().items() == old(self).slots().items()
            },
            final(self).others_kept(old(self), id),
    {
        proof {
            if self.contains(id) {
                self.lemma_slot(id);
            }
        }
        match self.plugins.get_mut_raw(id) {
            Some(wrapper) => {
                wrapper.release();
                proof {
                    if old(self).state(id) is Shared {
                        self.lemma_set(old(self), id, *wrapper);
                    }
                }
            },
            None => {},
        }
    }

    /// Hands the plugin of type `id` out for exclusive use, unless a view of
    /// it is held or it is not registered. Until the plugin is put back, no
    /// view of it can be had.
    pub fn take(&mut self, id: TypeTag) -> (r: Option<P>)
        requires
            old(self).wf(),
        ensures
            final(self).wf(),
            final(self).slots().tags() == old(self).slots().tags(),
            r == (if old(self).can_lend(id) {
                Some(old(self).plugin(id))
            } else {
                None
            }),
            r matches Some(plugin) ==> {
                &&& plugin.tag() == id
                &&& final(self).contains(id)
                &&& final(self).state(id) == BorrowState::Exclusive
                &&& !final(self).can_share(id)
                &&& !final(self).can_lend(id)
            },
            r is None ==> final(self).slots().items() == old(self).slots().items(),
            final(self).others_kept(old(self), id),
    {
        proof {
            if self.contains(id) {
                self.lemma_slot(id);
            }
        }
        match self.plugins.get_mut_raw(id) {
            Some(wrapper) => {
                let r = wrapper.take();
                proof {
                    if r is Some {
                        self.lemma_set(old(self), id, *wrapper);
                    }
                }
                r
            },
            None => None,
        }
    }

    /// Takes back a plugin that was handed out for exclusive use. A plugin
    /// whose place is not waiting for it is returned to the caller.
    pub fn put(&mut self, plugin: P) -> (r: Option<P>)
        requires
            old(self).wf(),
        ensures
            final(self).wf(),
            final(self).slots().tags() == old(self).slots().tags(),
            old(self).contains(plugin.tag()) && old(self).state(plugin.tag()) is Exclusive ==> {
                &&& r is None
                &&& final(self).state(plugin.tag()) == BorrowState::Free
                &&& final(self).plugin(plugin.tag()) == plugin
            },
            !(old(self).contains(plugin.tag()) && old(self).state(plugin.tag()) is Exclusive) ==> r
                == Some(plugin) && final(self).slots().items() == old(self).slots().items(),
            final(self).others_kept(old(self), plugin.tag()),
    {
        let id = plugin.type_tag();
        proof {
            if self.contains(id) {
                self.lemma_slot(id);
            }
        }
        match self.plugins.get_mut_raw(id) {
            Some(wrapper) => {
                let r = wrapper.put(plugin);
                proof {
                    if r is None {
                        self.lemma_set(old(self), id, *wrapper);
                    }
                }
                r
            },
            None => Some(plugin),
        }
    }

    /// A view of every registered plugin, in the order of registration:
    /// the plugin where a shared view can be had, nothing where the plugin is
    /// held exclusively.
    pub fn views(&self) -> (r: Vec<Option<&P>>)
        requires
            self.wf(),
        ensures
            r@ == self.shown(),
            r@.len() == self.slots().items().len(),
            forall|i: int|
                0 <= i < r@.len() ==> #[trigger] r@[i] == (if self.slots().items()[i].can_share() {
                    Some(&self.slots().items()[i].plugin())
                } else {
                    None
                }),
    {
        let slots = self.plugins.iter();
        let mut out: Vec<Option<&P>> = Vec::new();
        let mut i: usize = 0;
        while i < slots.len()
            invariant
                i <= slots@.len(),
                slots@.len() == self.slots().items().len(),
                forall|j: int| 0 <= j < slots@.len() ==> *slots@[j] == self.slots().items()[j],
                out@.len() == i,
                forall|j: int|
                    0 <= j < i ==> #[trigger] out@[j] == (if self.slots().items()[j].can_share() {
                        Some(&self.slots().items()[j].plugin())
                    } else {
                        None
                    }),
            decreases slots@.len() - i,
        {
            out.push(slots[i].borrow());
            i += 1;
        }
        proof {
            assert(out@ =~= self.shown());
        }
        out
    }

    /// The tags of the plugins that nobody holds a view of, in the order of
    /// registration: the plugins that a pass over the registry can run.
    pub fn free(&self) -> (r: Vec<TypeTag>)
        requires
            self.wf(),
        ensures
            r@ == lendable(self.slots().items()),
            forall|j: int| 0 <= j < r@.len() ==> self.can_lend(#[trigger] r@[j]),
    {
        let slots = self.plugins.iter();
        let mut out: Vec<TypeTag> = Vec::new();
        let mut i: usize = 0;
        while i < slots.len()
            invariant
                i <= slots@.len(),
                self.wf(),
                slots@.len() == self.slots().items().len(),
                forall|j: int| 0 <= j < slots@.len() ==> *slots@[j] == self.slots().items()[j],
                out@ == lendable(self.slots().items().subrange(0, i as int)),
                forall|j: int| 0 <= j < out@.len() ==> self.can_lend(#[trigger] out@[j]),
            decreases slots@.len() - i,
        {
            proof {
                let items = self.slots().items();
                assert(items.subrange(0, i + 1).drop_last() =~= items.subrange(0, i as int));
            }
            if slots[i].is_free() {
                let ghost before = out@;
                out.push(slots[i].type_tag());
                proof {
                    self.slots().lemma_position(i as int);
                    let tag = self.slots().tags()[i as int];
                    assert(self.slots().items()[i as int].tag() == tag);
                    assert(self.can_lend(tag));
                    assert forall|j: int| 0 <= j < out@.len() implies self.can_lend(
                        #[trigger] out@[j],
                    ) by {
                        if j < before.len() {
                            assert(out@[j] == before[j]);
                        }
                    }
                }
            }
            i += 1;
        }
        proof {
            assert(self.slots().items().subrange(0, i as int) =~= self.slots().items());
        }
        out
    }

    /// Borrows a shared view of every registered plugin of which one can be
    /// had, in the order of registration. Plugins that are held exclusively
    /// are passed over.
    pub fn iter(&self) -> (r: Vec<&P>)
        requires
            self.wf(),
        ensures
            r@.map_values(|p: &P| *p) == available(self.slots().items()),
    {
        let slots = self.plugins.iter();
        let mut out: Vec<&P> = Vec::new();
        let mut i: usize = 0;
        while i < slots.len()
            invariant
                i <= slots@.len(),
                slots@.len() == self.slots().items().len(),
                forall|j: int| 0 <= j < slots@.len() ==> *slots@[j] == self.slots().items()[j],
                out@.map_values(|p: &P| *p) == available(self.slots().items().subrange(0, i as int)),
            decreases slots@.len() - i,
        {
            let ghost before = out@;
            let ghost items = self.slots().items();
            match slots[i].borrow() {
                Some(plugin) => {
                    out.push(plugin);
                    proof {
                        assert(out@.map_values(|p: &P| *p) =~= before.map_values(|p: &P| *p).push(
                            *plugin,
                        ));
                    }
                },
                None => {},
            }
            proof {
                assert(items.subrange(0, i + 1).drop_last() =~= items.subrange(0, i as int));
            }
            i += 1;
        }
        proof {
            assert(self.slots().items().subrange(0, i as int) =~= self.slots().items());
        }
        out
    }

    /// A registry that differs from another in one place only is well formed
    /// if that place is.
    proof fn lemma_set(&self, before: &Self, id: TypeTag, wrapper: PluginWrapper<P>)
        requires
            before.wf(),
            self.slots().wf(),
            wrapper.wf(),
            self.slots()@ == before.slots()@.insert(id, wrapper),
        ensures
            self.wf(),
            self.contains(id),
            self.slots().at(id) == wrapper,
            forall|tag: TypeTag|
                tag != id ==> self.contains(tag) == before.contains(tag) && (before.contains(tag)
                    ==> self.slots().at(tag) == before.slots().at(tag)),
    {
        self.slots().lemma_insert_keeps(
            &before.slots(),
            id,
            wrapper,
            |w: PluginWrapper<P>| w.wf(),
        );
        assert(self.slots()@.dom().contains(id));
        assert(self.slots()@[id] == wrapper);
        assert forall|tag: TypeTag| tag != id implies self.contains(tag) == before.contains(tag) && (
        before.contains(tag) ==> self.slots().at(tag) == before.slots().at(tag)) by {
            assert(self.slots()@.dom().contains(tag) == before.slots()@.dom().contains(tag));
            if before.contains(tag) {
                assert(self.slots()@[tag] == before.slots()@[tag]);
            }
        }
    }
}

} // verus!
