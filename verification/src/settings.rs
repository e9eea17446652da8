//! Settings that plugins expose, and how one step of a setting changes it.

use crate::anymap::{AnyMap, Downcast, IntoBoxed, TypeTag};
use crate::events::{values_of, EventManager, RawEvent};
use crate::registry::PluginStore;
use vstd::prelude::*;

verus! {

/// One setting, borrowed from the plugin that owns it.
pub enum SettingsValue<'v> {
    /// A whole number between `min` and `max` that moves by `step`.
    Integer {
        /// The number itself.
        value: &'v mut i32,
        /// The least value the number may take.
        min: i32,
        /// The greatest value the number may take.
        max: i32,
        /// How far one step moves the number.
        step: i32,
    },
    /// One of a fixed list of choices.
    Selection(&'v mut String, &'static [&'static str]),
    /// A switch.
    Toogle(&'v mut bool),
}

/// A setting together with the name it is listed under.
pub struct SettingsValueCommon<'v> {
    /// The name of the setting.
    pub name: &'static str,
    /// The setting itself.
    pub value: SettingsValue<'v>,
}

/// `x` brought into the range of `i32`.
pub open spec fn saturated(x: int) -> int {
    if x < i32::MIN {
        i32::MIN as int
    } else if x > i32::MAX {
        i32::MAX as int
    } else {
        x
    }
}

/// `x` capped at `max` from above, then raised to `min` from below.
pub open spec fn clamped(x: int, min: int, max: int) -> int {
    let capped = if x < max {
        x
    } else {
        max
    };
    if capped > min {
        capped
    } else {
        min
    }
}

/// The number after one step: up by `step`, or down in the other direction,
/// without leaving the range of `i32` nor the bounds of the setting.
pub open spec fn stepped(value: i32, min: i32, max: i32, step: i32, alt_mode: bool) -> int {
    if alt_mode {
        clamped(saturated(value - step), min as int, max as int)
    } else {
        clamped(saturated(value + step), min as int, max as int)
    }
}

/// Whether the choice `i` of `possible` reads `value`.
pub open spec fn is_choice(possible: Seq<&'static str>, i: int, value: Seq<char>) -> bool {
    0 <= i < possible.len() && possible[i]@ == value
}

/// The place of the current choice: the first one that reads `value`, and
/// the first of all where none does.
pub open spec fn selected(possible: Seq<&'static str>, value: Seq<char>) -> int {
    if exists|i: int| is_choice(possible, i, value) {
        choose|i: int|
            is_choice(possible, i, value) && forall|j: int| 0 <= j < i ==> !is_choice(possible, j, value)
    } else {
        0
    }
}

/// The place of the choice one step on: the next one, or the one before in
/// the other direction, going round at either end.
pub open spec fn next_choice(current: int, choices: int, alt_mode: bool) -> int {
    if choices == 0 {
        0
    } else if alt_mode {
        if current == 0 {
            choices - 1
        } else {
            current - 1
        }
    } else {
        (current + 1) % choices
    }
}

/// Finds the first choice that reads `value`.
fn find_choice(possible: &[&'static str], value: &String) -> (r: usize)
    ensures
        r == selected(possible@, value@),
        possible@.len() > 0 ==> r < possible@.len(),
        possible@.len() == 0 ==> r == 0,
{
    let mut i: usize = 0;
    while i < possible.len()
        invariant
            i <= possible@.len(),
            forall|j: int| 0 <= j < i ==> !is_choice(possible@, j, value@),
        decreases possible@.len() - i,
    {
        let candidate = possible[i].to_owned();
        if candidate == *value {
            proof {
                assert(is_choice(possible@, i as int, value@));
                let s = selected(possible@, value@);
                assert(is_choice(possible@, s, value@));
                assert(!(s < i));
                assert(!(i < s));
            }
            return i;
        }
        i += 1;
    }
    proof {
        assert(!exists|k: int| is_choice(possible@, k, value@));
    }
    0
}

impl<'v> SettingsValueCommon<'v> {
    /// Moves the setting one step on; in `alt_mode` one step the other way.
    ///
    /// A switch flips. A number moves by its step and stays within its
    /// bounds. A selection moves to the next choice and goes round at the
    /// ends; a selection without choices stays as it is.
    pub fn handle_settings_update(self, alt_mode: bool)
        ensures
            match self.value {
                SettingsValue::Toogle(value) => *final(value) == !*value,
                SettingsValue::Integer { value, min, max, step } => *final(value) == stepped(
                    *value,
                    min,
                    max,
                    step,
                    alt_mode,
                ),
                SettingsValue::Selection(value, possible) => if possible@.len() == 0 {
                    *final(value) == *value
                } else {
                    final(value)@ == possible@[next_choice(
                        selected(possible@, value@),
                        possible@.len() as int,
                        alt_mode,
                    )]@
                },
            },
    {
        match self.value {
            SettingsValue::Toogle(value) => {
                *value = !*value;
            },
            SettingsValue::Selection(value, possible) => {
                let current = find_choice(possible, value);
                let count = possible.len();
                if count > 0 {
                    let next = if alt_mode {
                        if current == 0 {
                            count - 1
                        } else {
                            current - 1
                        }
                    } else {
                        (current + 1) % count
                    };
                    *value = possible[next].to_owned();
                }
            },
            SettingsValue::Integer { value, min, max, step } => {
                let moved: i64 = if alt_mode {
                    *value as i64 - step as i64
                } else {
                    *value as i64 + step as i64
                };
                let kept: i64 = if moved < i32::MIN as i64 {
                    i32::MIN as i64
                } else if moved > i32::MAX as i64 {
                    i32::MAX as i64
                } else {
                    moved
                };
                let capped: i64 = if kept < max as i64 {
                    kept
                } else {
                    max as i64
                };
                let raised: i64 = if capped > min as i64 {
                    capped
                } else {
                    min as i64
                };
                *value = raised as i32;
            },
        }
    }
}

/// The settings of one plugin, in erased form.
pub trait PluginSettings: Downcast {
    /// The name under which the settings are stored and listed.
    fn name(&self) -> &'static str;

    /// The single settings, each borrowed for changing.
    fn values(&mut self) -> Vec<SettingsValueCommon<'_>>;

    /// Copies the settings.
    fn clone_box(&self) -> (copy: Self)
        ensures
            copy == *self,
    ;
}

/// Asks the settings plugin to take up the settings of a plugin.
pub struct RegisterSettings<S: PluginSettings>(pub S);

/// Asks the settings plugin to save all settings.
#[derive(Clone, Copy, Debug)]
pub struct SaveSettings;

/// The settings that are held after the registrations `wanted` were taken
/// up one after the other: each is added unless settings of its kind are
/// held already.
pub open spec fn taken_up<S: PluginSettings>(
    held: Map<TypeTag, S>,
    wanted: Seq<RegisterSettings<S>>,
) -> Map<TypeTag, S>
    decreases wanted.len(),
{
    if wanted.len() == 0 {
        held
    } else if taken_up(held, wanted.drop_last()).dom().contains(wanted.last().0.tag()) {
        taken_up(held, wanted.drop_last())
    } else {
        taken_up(held, wanted.drop_last()).insert(wanted.last().0.tag(), wanted.last().0)
    }
}

/// Holds the settings of every plugin, one entry per kind of settings.
pub struct SettingsPlugin<S: PluginSettings> {
    /// The settings by their concrete type.
    pub settings: AnyMap<S>,
}

impl<S: PluginSettings> SettingsPlugin<S> {
    /// Creates the plugin without any settings.
    pub fn new() -> (plugin: Self)
        ensures
            plugin.settings.wf(),
            plugin.settings@ == Map::<TypeTag, S>::empty(),
    {
        SettingsPlugin { settings: AnyMap::new() }
    }

    /// Borrows the settings of type `T`.
    pub fn get<T: IntoBoxed<S>>(&self) -> (r: Option<&T>)
        requires
            self.settings.wf(),
        ensures
            r == (match self.settings.spec_get::<T>() {
                Some(v) => Some(&v),
                None => None,
            }),
    {
        self.settings.get::<T>()
    }

    /// Takes up a copy of each of the `registered` settings whose kind is
    /// not held yet; settings that are held already stay as they are.
    pub fn register(&mut self, registered: &Vec<&RegisterSettings<S>>)
        requires
            old(self).settings.wf(),
        ensures
            final(self).settings.wf(),
            final(self).settings@ == taken_up(old(self).settings@, values_of(registered@)),
    {
        let ghost wanted = values_of(registered@);
        let mut i: usize = 0;
        while i < registered.len()
            invariant
                i <= registered@.len(),
                wanted == values_of(registered@),
                self.settings.wf(),
                self.settings@ == taken_up(old(self).settings@, wanted.subrange(0, i as int)),
            decreases registered@.len() - i,
        {
            proof {
                assert(wanted.subrange(0, i + 1).drop_last() =~= wanted.subrange(0, i as int));
                assert(wanted.subrange(0, i + 1).last() == *registered@[i as int]);
            }
            let copy = registered[i].0.clone_box();
            self.settings.insert_raw_if_missing(copy);
            i += 1;
        }
        proof {
            assert(wanted.subrange(0, i as int) =~= wanted);
        }
    }
}

impl<S: PluginSettings> SettingsPlugin<S> {
    /// The work of one frame: takes up the settings that plugins ask to have
    /// registered. Returns whether saving was asked for.
    pub fn update<E: RawEvent>(&mut self, events: &EventManager<E>) -> (save: bool) where
        RegisterSettings<S>: IntoBoxed<E>,
        SaveSettings: IntoBoxed<E>,

        requires
            old(self).settings.wf(),
            events.wf(),
        ensures
            final(self).settings.wf(),
            save == (events@.typed::<SaveSettings>().len() > 0),
            final(self).settings@ == taken_up(
                old(self).settings@,
                events@.typed::<RegisterSettings<S>>(),
            ),
    {
        let registered = events.read::<RegisterSettings<S>>();
        self.register(&registered);
        let saves = events.read::<SaveSettings>();
        proof {
            assert(values_of(saves@).len() == saves@.len());
        }
        saves.len() > 0
    }
}

/// Borrows the settings of type `T` from the settings plugin of a registry.
/// There are none while the settings plugin is held exclusively, nor when
/// the plugin or the settings are not registered.
pub fn get_settings<'s, P: Downcast, S: PluginSettings + 's, T: IntoBoxed<S>>(
    store: &'s PluginStore<P>,
) -> (r: Option<&'s T>) where SettingsPlugin<S>: IntoBoxed<P>
    requires
        store.wf(),
        store.spec_get::<SettingsPlugin<S>>() matches Some(plugin) ==> plugin.settings.wf(),
    ensures
        r == (match store.spec_get::<SettingsPlugin<S>>() {
            Some(plugin) => match plugin.settings.spec_get::<T>() {
                Some(settings) => Some(&settings),
                None => None,
            },
            None => None,
        }),
{
    match store.get::<SettingsPlugin<S>>() {
        Some(plugin) => plugin.get::<T>(),
        None => None,
    }
}

} // verus!
