//! Plugins and the loop that drives them, frame by frame.

use crate::anymap::{Downcast, TypeTag};
use crate::events::{Bus, EventManager, RawEvent};
use crate::keys::KeyEvent;
use crate::registry::{lendable, BorrowState, PluginStore};
use vstd::prelude::*;

verus! {

/// Dispatched every frame with the time that has passed since the frame before.
#[derive(Clone, Copy, Debug)]
pub struct DeltaTimeEvent(pub std::time::Duration);

/// A key was pressed.
#[derive(Clone, Copy, PartialEq, Eq, Structural, Debug)]
pub struct KeydownEvent(pub KeyEvent);

/// A part of the screen.
#[derive(Clone, Copy, PartialEq, Eq, Structural, Debug)]
pub struct Rect {
    /// The column of the left edge.
    pub x: u16,
    /// The row of the upper edge.
    pub y: u16,
    /// The number of columns.
    pub width: u16,
    /// The number of rows.
    pub height: u16,
}

/// What every plugin offers to the loop that drives it, in erased form.
pub trait Plugin: Downcast {
    /// The erased events of the bus that the plugin works on.
    type Event: RawEvent;

    /// What a failed hook reports.
    type Error;

    /// What the plugin draws on.
    type Frame;

    /// The layer that the plugin draws on: plugins on lower layers draw first.
    spec fn layer(&self) -> u32;

    /// What the load hook may make of the plugin and of the bus, and what it
    /// may return.
    spec fn loads(
        before: Self,
        bus: Bus<Self::Event>,
        after: Self,
        bus_after: Bus<Self::Event>,
        r: Result<(), Self::Error>,
    ) -> bool;

    /// What the update hook may make of the plugin and of the bus, and what
    /// it may return, given the registry that it is shown.
    spec fn updates(
        before: Self,
        bus: Bus<Self::Event>,
        plugins: PluginStore<Self>,
        after: Self,
        bus_after: Bus<Self::Event>,
        r: Result<(), Self::Error>,
    ) -> bool;

    /// What the draw hook may make of the frame, given the registry that it
    /// is shown.
    spec fn draws(
        plugin: Self,
        frame: Self::Frame,
        area: Rect,
        plugins: PluginStore<Self>,
        frame_after: Self::Frame,
    ) -> bool;

    /// Runs once before the first frame. The plugin keeps its concrete type.
    fn on_load(&mut self, events: &mut EventManager<Self::Event>) -> (r: Result<(), Self::Error>)
        requires
            old(events).wf(),
        ensures
            final(events).wf(),
            final(self).tag() == old(self).tag(),
            Self::loads(*old(self), old(events)@, *final(self), final(events)@, r),
    ;

    /// Runs once per frame, with the bus and a read-only view of the
    /// registry. The plugin keeps its concrete type.
    fn update(&mut self, events: &mut EventManager<Self::Event>, plugins: &PluginStore<Self>) -> (r:
        Result<(), Self::Error>)
        requires
            old(events).wf(),
            plugins.wf(),
        ensures
            final(events).wf(),
            final(self).tag() == old(self).tag(),
            Self::updates(*old(self), old(events)@, *plugins, *final(self), final(events)@, r),
    ;

    /// Draws the plugin, with a read-only view of the registry.
    fn draw(&self, frame: &mut Self::Frame, area: Rect, plugins: &PluginStore<Self>)
        requires
            plugins.wf(),
        ensures
            Self::draws(*self, *old(frame), area, *plugins, *final(frame)),
    ;

    /// Reads the layer that the plugin draws on.
    fn z_index(&self) -> (z: u32)
        ensures
            z == self.layer(),
    ;
}

/// Whether the plugin in the place `i` draws before the plugin in the place
/// `j`: it is on a lower layer, or on the same layer and registered earlier.
pub open spec fn draws_before<P: Plugin>(views: Seq<Option<&P>>, i: int, j: int) -> bool {
    views[i]->0.layer() < views[j]->0.layer() || (views[i]->0.layer() == views[j]->0.layer() && i
        < j)
}

/// Whether `order` is the order in which the first `bound` plugins of
/// `views` draw: it holds the place of every one of them of which a view can
/// be had, each one before all those that draw after it.
pub open spec fn is_draw_order_of<P: Plugin>(
    views: Seq<Option<&P>>,
    order: Seq<usize>,
    bound: int,
) -> bool {
    &&& forall|k: int|
        0 <= k < order.len() ==> (#[trigger] order[k]) < bound && views[order[k] as int] is Some
    &&& forall|k: int, l: int|
        0 <= k < l < order.len() ==> draws_before(
            views,
            #[trigger] order[k] as int,
            #[trigger] order[l] as int,
        )
    &&& forall|i: int| 0 <= i < bound && (#[trigger] views[i]) is Some ==> order.contains(i as usize)
}

/// Whether `order` is the order in which the plugins `views` draw: it holds
/// the place of every plugin of which a view can be had, each one before all
/// those that draw after it.
pub open spec fn is_draw_order<P: Plugin>(views: Seq<Option<&P>>, order: Seq<usize>) -> bool {
    is_draw_order_of(views, order, views.len() as int)
}

/// The order in which the first plugins draw stays an order when the next
/// plugin is put behind those that are not on a higher layer and before
/// those that are.
proof fn lemma_draw_order_grows<P: Plugin>(views: Seq<Option<&P>>, before: Seq<usize>, pos: int, i: int)
    requires
        0 <= i < views.len(),
        i <= usize::MAX,
        views[i] is Some,
        0 <= pos <= before.len(),
        is_draw_order_of(views, before, i),
        forall|k: int|
            0 <= k < pos ==> views[(#[trigger] before[k]) as int]->0.layer() <= views[i]->0.layer(),
        forall|k: int|
            pos <= k < before.len() ==> views[(#[trigger] before[k]) as int]->0.layer()
                > views[i]->0.layer(),
    ensures
        is_draw_order_of(views, before.insert(pos, i as usize), i + 1),
{
    let after = before.insert(pos, i as usize);
    assert forall|k: int| 0 <= k < after.len() implies (#[trigger] after[k]) < i + 1
        && views[after[k] as int] is Some by {
        if k < pos {
            assert(after[k] == before[k]);
        } else if k > pos {
            assert(after[k] == before[k - 1]);
        }
    }
    assert forall|k: int, l: int| 0 <= k < l < after.len() implies draws_before(
        views,
        #[trigger] after[k] as int,
        #[trigger] after[l] as int,
    ) by {
        if l < pos {
            assert(after[k] == before[k] && after[l] == before[l]);
        } else if l == pos {
            assert(after[k] == before[k]);
        } else if k < pos {
            assert(after[k] == before[k] && after[l] == before[l - 1]);
        } else if k == pos {
            assert(after[l] == before[l - 1]);
        } else {
            assert(after[k] == before[k - 1] && after[l] == before[l - 1]);
        }
    }
    assert forall|j: int| 0 <= j < i + 1 && (#[trigger] views[j]) is Some implies after.contains(
        j as usize,
    ) by {
        if j < i {
            let k = choose|k: int| 0 <= k < before.len() && before[k] == j as usize;
            if k < pos {
                assert(after[k] == j as usize);
            } else {
                assert(after[k + 1] == j as usize);
            }
        } else {
            assert(after[pos] == j as usize);
        }
    }
}

/// Puts the places of the plugins in the order in which they draw.
pub fn draw_order<P: Plugin>(views: &Vec<Option<&P>>) -> (order: Vec<usize>)
    ensures
        is_draw_order(views@, order@),
{
    let mut order: Vec<usize> = Vec::new();
    let mut i: usize = 0;
    while i < views.len()
        invariant
            i <= views@.len(),
            is_draw_order_of(views@, order@, i as int),
        decreases views@.len() - i,
    {
        match views[i] {
            Some(plugin) => {
                let z = plugin.z_index();
                let mut pos: usize = order.len();
                let mut scanning = true;
                while pos > 0 && scanning
                    invariant
                        pos <= order@.len(),
                        !scanning ==> pos > 0 && views@[order@[pos - 1] as int]->0.layer() <= z,
                        i < views@.len(),
                        z == views@[i as int]->0.layer(),
                        is_draw_order_of(views@, order@, i as int),
                        forall|k: int|
                            pos <= k < order@.len() ==> views@[(#[trigger] order@[k]) as int]->0.layer()
                                > z,
                    decreases pos + (if scanning {
                        1int
                    } else {
                        0int
                    }),
                {
                    let other = match views[order[pos - 1]] {
                        Some(plugin) => plugin.z_index(),
                        None => 0,
                    };
                    if other > z {
                        pos -= 1;
                    } else {
                        scanning = false;
                    }
                }
                proof {
                    let before = order@;
                    assert forall|k: int| 0 <= k < pos implies views@[(#[trigger] before[k]) as int]->0.layer()
                        <= z by {
                        if k < pos - 1 {
                            assert(draws_before(views@, before[k] as int, before[pos - 1] as int));
                        }
                    }
                    lemma_draw_order_grows(views@, before, pos as int, i as int);
                }
                order.insert(pos, i);
            },
            None => {},
        }
        i += 1;
    }
    order
}

/// Whether `after` is the registry `before` once the plugin of type `tag`
/// was taken out of its place, worked on and put back: the plugin was free,
/// it is free again, and every other place is as it was.
pub open spec fn worked_on<P: Plugin>(before: PluginStore<P>, tag: TypeTag, after: PluginStore<P>) -> bool {
    &&& before.can_lend(tag)
    &&& after.same_tags(&before)
    &&& after.others_kept(&before, tag)
    &&& after.state(tag) == BorrowState::Free
}

/// Whether `lent` is the registry `before` while the plugin of type `tag` is
/// out of its place: that plugin is held exclusively, and every other place
/// is as it was.
pub open spec fn is_lent<P: Plugin>(lent: PluginStore<P>, before: PluginStore<P>, tag: TypeTag) -> bool {
    &&& lent.wf()
    &&& lent.same_tags(&before)
    &&& lent.others_kept(&before, tag)
    &&& lent.contains(tag)
    &&& lent.state(tag) is Exclusive
}

/// One load hook: the hook of the plugin of type `tag` ran on that plugin
/// and on the bus `bus`, left them as `after` holds the plugin and as
/// `bus_after`, and returned `r`.
pub open spec fn load_step<P: Plugin>(
    before: PluginStore<P>,
    bus: Bus<P::Event>,
    tag: TypeTag,
    after: PluginStore<P>,
    bus_after: Bus<P::Event>,
    r: Result<(), P::Error>,
) -> bool {
    &&& worked_on(before, tag, after)
    &&& P::loads(before.plugin(tag), bus, after.plugin(tag), bus_after, r)
}

/// The load hooks of the plugins `tags` ran one after the other, each on
/// what the hook before it left, and none of them failed.
pub open spec fn loaded_all<P: Plugin>(
    start: PluginStore<P>,
    bus: Bus<P::Event>,
    tags: Seq<TypeTag>,
    end: PluginStore<P>,
    bus_end: Bus<P::Event>,
) -> bool
    decreases tags.len(),
{
    if tags.len() == 0 {
        end.same_tags(&start) && end.slots().items() == start.slots().items() && bus_end == bus
    } else {
        exists|mid: PluginStore<P>, bus_mid: Bus<P::Event>|
            loaded_all(start, bus, tags.drop_last(), mid, bus_mid) && #[trigger] load_step(
                mid,
                bus_mid,
                tags.last(),
                end,
                bus_end,
                Ok(()),
            )
    }
}

/// A pass of load hooks over the plugins `tags`: either every hook ran, in
/// that order and without a failure, and `r` is `Ok`; or the hooks ran in
/// that order up to the first one that failed, no hook ran after it, and `r`
/// is what that hook returned.
pub open spec fn load_pass<P: Plugin>(
    start: PluginStore<P>,
    bus: Bus<P::Event>,
    tags: Seq<TypeTag>,
    end: PluginStore<P>,
    bus_end: Bus<P::Event>,
    r: Result<(), P::Error>,
) -> bool {
    if r is Ok {
        loaded_all(start, bus, tags, end, bus_end)
    } else {
        exists|k: int, mid: PluginStore<P>, bus_mid: Bus<P::Event>|
            0 <= k < tags.len() && loaded_all(start, bus, tags.subrange(0, k), mid, bus_mid)
                && #[trigger] load_step(mid, bus_mid, tags[k], end, bus_end, r)
    }
}

/// One update hook: the hook of the plugin of type `tag` ran on that plugin
/// and on the bus `bus`, was shown the registry in which the plugin itself is
/// held exclusively, left the plugin and the bus as `after` holds the plugin
/// and as `bus_after`, and returned `r`.
pub open spec fn update_step<P: Plugin>(
    before: PluginStore<P>,
    bus: Bus<P::Event>,
    tag: TypeTag,
    after: PluginStore<P>,
    bus_after: Bus<P::Event>,
    r: Result<(), P::Error>,
) -> bool {
    &&& worked_on(before, tag, after)
    &&& exists|lent: PluginStore<P>|
        is_lent(lent, before, tag) && #[trigger] P::updates(
            before.plugin(tag),
            bus,
            lent,
            after.plugin(tag),
            bus_after,
            r,
        )
}

/// The update hooks of the plugins `tags` ran one after the other, each on
/// what the hook before it left, and none of them failed.
pub open spec fn updated_all<P: Plugin>(
    start: PluginStore<P>,
    bus: Bus<P::Event>,
    tags: Seq<TypeTag>,
    end: PluginStore<P>,
    bus_end: Bus<P::Event>,
) -> bool
    decreases tags.len(),
{
    if tags.len() == 0 {
        end.same_tags(&start) && end.slots().items() == start.slots().items() && bus_end == bus
    } else {
        exists|mid: PluginStore<P>, bus_mid: Bus<P::Event>|
            updated_all(start, bus, tags.drop_last(), mid, bus_mid) && #[trigger] update_step(
                mid,
                bus_mid,
                tags.last(),
                end,
                bus_end,
                Ok(()),
            )
    }
}

/// A pass of update hooks over the plugins `tags`: either every hook ran, in
/// that order and without a failure, and `r` is `Ok`; or the hooks ran in
/// that order up to the first one that failed, no hook ran after it, and `r`
/// is what that hook returned.
pub open spec fn update_pass<P: Plugin>(
    start: PluginStore<P>,
    bus: Bus<P::Event>,
    tags: Seq<TypeTag>,
    end: PluginStore<P>,
    bus_end: Bus<P::Event>,
    r: Result<(), P::Error>,
) -> bool {
    if r is Ok {
        updated_all(start, bus, tags, end, bus_end)
    } else {
        exists|k: int, mid: PluginStore<P>, bus_mid: Bus<P::Event>|
            0 <= k < tags.len() && updated_all(start, bus, tags.subrange(0, k), mid, bus_mid)
                && #[trigger] update_step(mid, bus_mid, tags[k], end, bus_end, r)
    }
}

/// The draw hooks of the plugins in the places `order` ran one after the
/// other on the frame, each on what the hook before it left of it, and each
/// was shown the registry `plugins`.
pub open spec fn drawn_all<P: Plugin>(
    plugins: PluginStore<P>,
    area: Rect,
    order: Seq<usize>,
    frame: P::Frame,
    frame_end: P::Frame,
) -> bool
    decreases order.len(),
{
    if order.len() == 0 {
        frame_end == frame
    } else {
        exists|frame_mid: P::Frame|
            drawn_all(plugins, area, order.drop_last(), frame, frame_mid) && #[trigger] P::draws(
                plugins.slots().items()[order.last() as int].plugin(),
                frame_mid,
                area,
                plugins,
                frame_end,
            )
    }
}

/// A pass of draw hooks: the hooks of the plugins of which a view can be
/// had ran on the frame in the order in which the plugins draw.
pub open spec fn draw_pass<P: Plugin>(
    plugins: PluginStore<P>,
    area: Rect,
    frame: P::Frame,
    frame_end: P::Frame,
) -> bool {
    exists|order: Seq<usize>|
        is_draw_order(plugins.shown(), order) && #[trigger] drawn_all(
            plugins,
            area,
            order,
            frame,
            frame_end,
        )
}

/// The plugins and the bus, and the passes that make up a frame.
pub struct StateManager<P: Plugin> {
    /// The registry of the plugins.
    pub plugins: PluginStore<P>,
    /// The bus that the plugins talk over.
    pub events: EventManager<P::Event>,
}

impl<P: Plugin> StateManager<P> {
    /// The registry and the bus are well formed.
    pub open spec fn wf(&self) -> bool {
        self.plugins.wf() && self.events.wf()
    }

    /// Whether `other` holds the same plugins in the same places with the
    /// same views held of them.
    pub open spec fn same_places(&self, other: &Self) -> bool {
        &&& self.plugins.slots().tags() == other.plugins.slots().tags()
        &&& forall|tag: TypeTag|
            self.plugins.contains(tag) ==> self.plugins.state(tag) == other.plugins.state(tag)
    }

    /// Whether every plugin that someone held a view of in `before` is in
    /// its place as it was.
    pub open spec fn held_kept(&self, before: &Self) -> bool {
        forall|tag: TypeTag|
            before.plugins.contains(tag) && !before.plugins.can_lend(tag)
                ==> self.plugins.slots().at(tag) == before.plugins.slots().at(tag)
    }

    /// Creates the state without plugins and with an empty bus.
    pub fn new() -> (state: Self)
        ensures
            state.wf(),
            state.plugins.slots().tags() == Seq::<TypeTag>::empty(),
            state.events@ == crate::events::Bus::<P::Event>::empty(),
    {
        StateManager { plugins: PluginStore::new(), events: EventManager::new() }
    }

    /// Ends the run of a hook: puts the plugin back in the place that it was
    /// taken from and hands on what the hook returned.
    pub fn end_hook(&mut self, plugin: P, result: Result<(), P::Error>) -> (r: Result<(), P::Error>)
        requires
            old(self).wf(),
            old(self).plugins.contains(plugin.tag()),
            old(self).plugins.state(plugin.tag()) is Exclusive,
        ensures
            r == result,
            final(self).wf(),
            final(self).events == old(self).events,
            final(self).plugins.same_tags(&old(self).plugins),
            final(self).plugins.state(plugin.tag()) == BorrowState::Free,
            final(self).plugins.plugin(plugin.tag()) == plugin,
            final(self).plugins.others_kept(&old(self).plugins, plugin.tag()),
    {
        let rejected = self.plugins.put(plugin);
        proof {
            assert(rejected is None);
        }
        result
    }

    /// Runs the load hook of every plugin that `free` names, once each and
    /// in that order: in the order of registration, passing over the plugins
    /// that someone holds a view of. The first failure ends the pass and is
    /// returned.
    pub fn on_load(&mut self) -> (r: Result<(), P::Error>)
        requires
            old(self).wf(),
        ensures
            final(self).wf(),
            final(self).same_places(old(self)),
            final(self).held_kept(old(self)),
            load_pass(
                old(self).plugins,
                old(self).events@,
                lendable(old(self).plugins.slots().items()),
                final(self).plugins,
                final(self).events@,
                r,
            ),
    {
        let tags = self.plugins.free();
        let mut i: usize = 0;
        while i < tags.len()
            invariant
                i <= tags@.len(),
                self.wf(),
                self.same_places(old(self)),
                self.held_kept(old(self)),
                tags@ == lendable(old(self).plugins.slots().items()),
                forall|j: int| 0 <= j < tags@.len() ==> old(self).plugins.can_lend(#[trigger] tags@[j]),
                loaded_all(
                    old(self).plugins,
                    old(self).events@,
                    tags@.subrange(0, i as int),
                    self.plugins,
                    self.events@,
                ),
            decreases tags@.len() - i,
        {
            let ghost before = self.plugins;
            let ghost bus_before = self.events@;
            let ghost lent_tag = tags@[i as int];
            proof {
                assert(old(self).plugins.can_lend(lent_tag));
                assert(before.contains(lent_tag));
                assert(before.state(lent_tag) == old(self).plugins.state(lent_tag));
                assert(before.can_lend(lent_tag));
            }
            match self.plugins.take(tags[i]) {
                Some(mut plugin) => {
                    let ghost lent = self.plugins;
                    let result = plugin.on_load(&mut self.events);
                    let settled = self.end_hook(plugin, result);
                    proof {
                        lemma_worked_on(old(self).plugins, before, lent, self.plugins, lent_tag);
                        assert(load_step(
                            before,
                            bus_before,
                            lent_tag,
                            self.plugins,
                            self.events@,
                            settled,
                        ));
                        assert(tags@.subrange(0, i + 1).drop_last() =~= tags@.subrange(0, i as int));
                        assert(tags@.subrange(0, i + 1).last() == lent_tag);
                    }
                    let ghost outcome = settled;
                    match settled {
                        Ok(done) => {
                            proof {
                                assert(outcome == Ok::<(), P::Error>(()));
                                let next = tags@.subrange(0, i + 1);
                                assert(loaded_all(
                                    old(self).plugins,
                                    old(self).events@,
                                    next.drop_last(),
                                    before,
                                    bus_before,
                                ));
                                assert(load_step(
                                    before,
                                    bus_before,
                                    next.last(),
                                    self.plugins,
                                    self.events@,
                                    Ok(()),
                                ));
                                lemma_loaded_one_more(
                                    old(self).plugins,
                                    old(self).events@,
                                    next,
                                    before,
                                    bus_before,
                                    self.plugins,
                                    self.events@,
                                );
                            }
                        },
                        Err(error) => {
                            return Err(error);
                        },
                    }
                },
                None => {
                    assert(false);
                },
            }
            i += 1;
        }
        proof {
            assert(tags@.subrange(0, i as int) =~= tags@);
        }
        Ok(())
    }

    /// Runs the update hook of every plugin that `free` names, once each and
    /// in that order: in the order of registration, passing over the plugins
    /// that someone holds a view of. Each hook gets the bus and a view of the
    /// registry in which the plugin itself is held exclusively. The first
    /// failure ends the pass and is returned.
    pub fn update(&mut self) -> (r: Result<(), P::Error>)
        requires
            old(self).wf(),
        ensures
            final(self).wf(),
            final(self).same_places(old(self)),
            final(self).held_kept(old(self)),
            update_pass(
                old(self).plugins,
                old(self).events@,
                lendable(old(self).plugins.slots().items()),
                final(self).plugins,
                final(self).events@,
                r,
            ),
    {
        let tags = self.plugins.free();
        let mut i: usize = 0;
        while i < tags.len()
            invariant
                i <= tags@.len(),
                self.wf(),
                self.same_places(old(self)),
                self.held_kept(old(self)),
                tags@ == lendable(old(self).plugins.slots().items()),
                forall|j: int| 0 <= j < tags@.len() ==> old(self).plugins.can_lend(#[trigger] tags@[j]),
                updated_all(
                    old(self).plugins,
                    old(self).events@,
                    tags@.subrange(0, i as int),
                    self.plugins,
                    self.events@,
                ),
            decreases tags@.len() - i,
        {
            let ghost before = self.plugins;
            let ghost bus_before = self.events@;
            let ghost lent_tag = tags@[i as int];
            proof {
                assert(old(self).plugins.can_lend(lent_tag));
                assert(before.contains(lent_tag));
                assert(before.state(lent_tag) == old(self).plugins.state(lent_tag));
                assert(before.can_lend(lent_tag));
            }
            match self.plugins.take(tags[i]) {
                Some(mut plugin) => {
                    let ghost lent = self.plugins;
                    let ghost taken = plugin;
                    let result = plugin.update(&mut self.events, &self.plugins);
                    let ghost worked = plugin;
                    let settled = self.end_hook(plugin, result);
                    proof {
                        lemma_worked_on(old(self).plugins, before, lent, self.plugins, lent_tag);
                        assert(is_lent(lent, before, lent_tag));
                        assert(P::updates(taken, bus_before, lent, worked, self.events@, settled));
                        assert(update_step(
                            before,
                            bus_before,
                            lent_tag,
                            self.plugins,
                            self.events@,
                            settled,
                        ));
                        assert(tags@.subrange(0, i + 1).drop_last() =~= tags@.subrange(0, i as int));
                        assert(tags@.subrange(0, i + 1).last() == lent_tag);
                    }
                    let ghost outcome = settled;
                    match settled {
                        Ok(done) => {
                            proof {
                                assert(outcome == Ok::<(), P::Error>(()));
                                lemma_updated_one_more(
                                    old(self).plugins,
                                    old(self).events@,
                                    tags@.subrange(0, i + 1),
                                    before,
                                    bus_before,
                                    self.plugins,
                                    self.events@,
                                );
                            }
                        },
                        Err(error) => {
                            return Err(error);
                        },
                    }
                },
                None => {
                    assert(false);
                },
            }
            i += 1;
        }
        proof {
            assert(tags@.subrange(0, i as int) =~= tags@);
        }
        Ok(())
    }

    /// Runs the draw hook of every plugin of which a view can be had, lower
    /// layers first and, within a layer, in the order of registration.
    /// Drawing changes neither the registry nor the bus.
    pub fn draw(&self, frame: &mut P::Frame, area: Rect)
        requires
            self.wf(),
        ensures
            draw_pass(self.plugins, area, *old(frame), *final(frame)),
    {
        let views = self.plugins.views();
        let order = draw_order(&views);
        let mut k: usize = 0;
        while k < order.len()
            invariant
                k <= order@.len(),
                self.wf(),
                views@ == self.plugins.shown(),
                is_draw_order(views@, order@),
                drawn_all(self.plugins, area, order@.subrange(0, k as int), *old(frame), *frame),
            decreases order@.len() - k,
        {
            let ghost frame_before = *frame;
            match views[order[k]] {
                Some(plugin) => {
                    plugin.draw(frame, area, &self.plugins);
                    proof {
                        let next = order@.subrange(0, k + 1);
                        assert(next.drop_last() =~= order@.subrange(0, k as int));
                        assert(next.last() == order@[k as int]);
                        assert(*plugin == self.plugins.slots().items()[order@[k as int] as int].plugin());
                        lemma_drawn_one_more(
                            self.plugins,
                            area,
                            next,
                            *old(frame),
                            frame_before,
                            *frame,
                        );
                    }
                },
                None => {
                    assert(false);
                },
            }
            k += 1;
        }
        proof {
            assert(order@.subrange(0, k as int) =~= order@);
        }
    }
}

/// A pass of draw hooks goes on by one more hook.
proof fn lemma_drawn_one_more<P: Plugin>(
    plugins: PluginStore<P>,
    area: Rect,
    order: Seq<usize>,
    frame: P::Frame,
    frame_mid: P::Frame,
    frame_end: P::Frame,
)
    requires
        order.len() > 0,
        drawn_all(plugins, area, order.drop_last(), frame, frame_mid),
        P::draws(
            plugins.slots().items()[order.last() as int].plugin(),
            frame_mid,
            area,
            plugins,
            frame_end,
        ),
    ensures
        drawn_all(plugins, area, order, frame, frame_end),
{
}

/// A pass of load hooks that went well goes on by one more hook that goes
/// well.
proof fn lemma_loaded_one_more<P: Plugin>(
    start: PluginStore<P>,
    bus: Bus<P::Event>,
    tags: Seq<TypeTag>,
    mid: PluginStore<P>,
    bus_mid: Bus<P::Event>,
    end: PluginStore<P>,
    bus_end: Bus<P::Event>,
)
    requires
        tags.len() > 0,
        loaded_all(start, bus, tags.drop_last(), mid, bus_mid),
        load_step(mid, bus_mid, tags.last(), end, bus_end, Ok(())),
    ensures
        loaded_all(start, bus, tags, end, bus_end),
{
}

/// A pass of update hooks that went well goes on by one more hook that goes
/// well.
proof fn lemma_updated_one_more<P: Plugin>(
    start: PluginStore<P>,
    bus: Bus<P::Event>,
    tags: Seq<TypeTag>,
    mid: PluginStore<P>,
    bus_mid: Bus<P::Event>,
    end: PluginStore<P>,
    bus_end: Bus<P::Event>,
)
    requires
        tags.len() > 0,
        updated_all(start, bus, tags.drop_last(), mid, bus_mid),
        update_step(mid, bus_mid, tags.last(), end, bus_end, Ok(())),
    ensures
        updated_all(start, bus, tags, end, bus_end),
{
}

/// Taking a free plugin out of its place and putting a plugin of the same
/// type back leaves every other place as it was, and the same views held of
/// every plugin.
proof fn lemma_worked_on<P: Plugin>(
    start: PluginStore<P>,
    before: PluginStore<P>,
    lent: PluginStore<P>,
    after: PluginStore<P>,
    tag: TypeTag,
)
    requires
        before.can_lend(tag),
        before.same_tags(&start),
        forall|t: TypeTag| before.contains(t) ==> before.state(t) == start.state(t),
        forall|t: TypeTag|
            start.contains(t) && !start.can_lend(t) ==> before.slots().at(t) == start.slots().at(t),
        lent.same_tags(&before),
        lent.others_kept(&before, tag),
        after.same_tags(&lent),
        after.others_kept(&lent, tag),
        after.state(tag) == BorrowState::Free,
    ensures
        worked_on(before, tag, after),
        forall|t: TypeTag| after.contains(t) ==> after.state(t) == start.state(t),
        forall|t: TypeTag|
            start.contains(t) && !start.can_lend(t) ==> after.slots().at(t) == start.slots().at(t),
{
    assert forall|t: TypeTag| t != tag && before.contains(t) implies after.slots().at(t)
        == before.slots().at(t) by {
        assert(lent.contains(t));
        assert(lent.slots().at(t) == before.slots().at(t));
    }
    assert forall|t: TypeTag| after.contains(t) implies after.state(t) == start.state(t) by {
        assert(before.contains(t));
    }
    assert forall|t: TypeTag| start.contains(t) && !start.can_lend(t) implies after.slots().at(t)
        == start.slots().at(t) by {
        assert(before.contains(t));
        assert(before.state(t) == start.state(t));
    }
}

} // verus!
