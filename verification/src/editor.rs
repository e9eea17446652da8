//! The editor: what the host calls once per frame and once per key press.

use crate::anymap::IntoBoxed;
use crate::keys::KeyEvent;
use crate::plugins::{
    draw_pass, load_pass, update_pass, DeltaTimeEvent, KeydownEvent, Plugin, Rect, StateManager,
};
use crate::registry::lendable;
use std::time::Duration;
use vstd::prelude::*;

verus! {

/// The root of the running application: the plugins and their bus.
pub struct Editor<P: Plugin> {
    /// The plugins and the bus that they talk over.
    pub state: StateManager<P>,
}

impl<P: Plugin> Editor<P> {
    /// Creates an editor without plugins.
    pub fn new() -> (editor: Self)
        ensures
            editor.state.wf(),
            editor.state.plugins.slots().tags() == Seq::<crate::anymap::TypeTag>::empty(),
            editor.state.events@ == crate::events::Bus::<P::Event>::empty(),
    {
        Editor { state: StateManager::new() }
    }

    /// Runs the load hook of every plugin that nobody holds a view of, in
    /// the order of registration. The first failure ends the pass and is
    /// returned.
    pub fn on_load(&mut self) -> (r: Result<(), P::Error>)
        requires
            old(self).state.wf(),
        ensures
            final(self).state.wf(),
            final(self).state.same_places(&old(self).state),
            final(self).state.held_kept(&old(self).state),
            load_pass(
                old(self).state.plugins,
                old(self).state.events@,
                lendable(old(self).state.plugins.slots().items()),
                final(self).state.plugins,
                final(self).state.events@,
                r,
            ),
    {
        self.state.on_load()
    }

    /// Runs the draw hook of every plugin of which a view can be had, lower
    /// layers first and, within a layer, in the order of registration.
    pub fn draw(&self, frame: &mut P::Frame, area: Rect)
        requires
            self.state.wf(),
        ensures
            draw_pass(self.state.plugins, area, *old(frame), *final(frame)),
    {
        self.state.draw(frame, area);
    }

    /// Starts a frame: reports the time that has passed since the frame
    /// before, then swaps the buffers of the bus, so that what was dispatched
    /// since the last swap, the report included, can be read in this frame.
    pub fn tick(&mut self, delta: Duration) where DeltaTimeEvent: IntoBoxed<P::Event>
        requires
            old(self).state.wf(),
        ensures
            final(self).state.wf(),
            final(self).state.plugins == old(self).state.plugins,
            final(self).state.events@ == old(self).state.events@.dispatch(
                DeltaTimeEvent(delta).boxed(),
            ).swap(),
    {
        self.state.events.dispatch(DeltaTimeEvent(delta));
        self.state.events.swap_buffers();
    }

    /// Runs one frame: starts it as `tick` does, then runs the update hook of
    /// every plugin that nobody holds a view of, in the order of
    /// registration, on the bus as `tick` left it. The first failure ends the
    /// frame and is returned.
    pub fn update(&mut self, delta: Duration) -> (r: Result<(), P::Error>) where
        DeltaTimeEvent: IntoBoxed<P::Event>,

        requires
            old(self).state.wf(),
        ensures
            final(self).state.wf(),
            final(self).state.same_places(&old(self).state),
            final(self).state.held_kept(&old(self).state),
            update_pass(
                old(self).state.plugins,
                old(self).state.events@.dispatch(DeltaTimeEvent(delta).boxed()).swap(),
                lendable(old(self).state.plugins.slots().items()),
                final(self).state.plugins,
                final(self).state.events@,
                r,
            ),
    {
        self.tick(delta);
        self.state.update()
    }

    /// Reports a key press to the plugins of the next frame.
    pub fn handle_key(&mut self, key: KeyEvent) where KeydownEvent: IntoBoxed<P::Event>
        requires
            old(self).state.wf(),
        ensures
            final(self).state.wf(),
            final(self).state.plugins == old(self).state.plugins,
            final(self).state.events@ == old(self).state.events@.dispatch(KeydownEvent(key).boxed()),
    {
        self.state.events.dispatch(KeydownEvent(key));
    }
}

} // verus!
