//! The bus, the registry, the frame loop and the keybinding dispatcher at work.

use std::time::Duration;

use arcane::anymap::{Downcast, IntoBoxed, TypeTag};
use arcane::editor::Editor;
use arcane::events::{Bus, EventManager, RawEvent};
use arcane::keybindings::{
    BindResult, Binding, DeleteKeybind, KeybindPlugin, LockKeybindings, MenuEvent, RebindKeybind,
    RegisterKeybind,
};
use arcane::keys::{Chord, KeyBind, KeyCode, KeyEvent, KeyModifiers, ModifierKeyCode};
use arcane::plugins::{draw_order, DeltaTimeEvent, KeydownEvent, Plugin, Rect, StateManager};
use arcane::registry::{PluginStore, PluginWrapper, RegisterPlugin};
use arcane::settings::{
    get_settings, PluginSettings, RegisterSettings, SaveSettings, SettingsPlugin, SettingsValue,
    SettingsValueCommon,
};

#[derive(Clone, PartialEq, Eq, Debug)]
enum TestEvent {
    Bar,
    Foo,
}

/// Every event that the bus of these tests carries.
enum Ev {
    I32(i32),
    I8(i8),
    Test(TestEvent),
    Menu(MenuEvent),
    Keydown(KeydownEvent),
    Delta(DeltaTimeEvent),
    Lock(LockKeybindings),
    Register(Box<RegisterKeybind<Ev>>),
    Rebind(RebindKeybind),
    Delete(DeleteKeybind),
    RegisterSettings(Box<RegisterSettings<Settings>>),
    Save(SaveSettings),
}

fn copy_of(event: &Ev) -> Ev {
    match event {
        Ev::I32(v) => Ev::I32(*v),
        Ev::I8(v) => Ev::I8(*v),
        Ev::Test(v) => Ev::Test(v.clone()),
        Ev::Menu(v) => Ev::Menu(*v),
        Ev::Keydown(v) => Ev::Keydown(*v),
        Ev::Delta(v) => Ev::Delta(*v),
        Ev::Lock(v) => Ev::Lock(*v),
        Ev::Register(v) => Ev::Register(Box::new(RegisterKeybind {
            bind: v.bind.clone(),
            event: copy_of(&v.event),
        })),
        Ev::Rebind(v) => Ev::Rebind(RebindKeybind { bind: v.bind.clone(), event: v.event.clone() }),
        Ev::Delete(v) => Ev::Delete(DeleteKeybind(v.0.clone())),
        Ev::RegisterSettings(v) => {
            Ev::RegisterSettings(Box::new(RegisterSettings(v.0.clone_box())))
        }
        Ev::Save(v) => Ev::Save(*v),
    }
}

fn tag_of(event: &Ev) -> TypeTag {
    match event {
        Ev::I32(_) => 1,
        Ev::I8(_) => 2,
        Ev::Test(_) => 3,
        Ev::Menu(_) => 4,
        Ev::Keydown(_) => 5,
        Ev::Delta(_) => 6,
        Ev::Lock(_) => 7,
        Ev::Register(_) => 8,
        Ev::Rebind(_) => 9,
        Ev::Delete(_) => 10,
        Ev::RegisterSettings(_) => 11,
        Ev::Save(_) => 12,
    }
}

impl Downcast for Ev {
    fn tag(&self) -> TypeTag {
        tag_of(self)
    }
    fn type_tag(&self) -> TypeTag {
        tag_of(self)
    }
}

impl RawEvent for Ev {
    fn vec_type_id(&self) -> TypeTag {
        tag_of(self)
    }
}

fn text_of(event: &Ev) -> String {
    match event {
        Ev::Test(v) => format!("{:?}", v),
        Ev::Menu(v) => v.render(),
        Ev::I32(v) => format!("{:?}", v),
        Ev::I8(v) => format!("{:?}", v),
        _ => format!("event {}", tag_of(event)),
    }
}

impl BindResult for Ev {
    fn identity(&self) -> String {
        text_of(self)
    }
    fn render(&self) -> String {
        text_of(self)
    }
    fn clone_box(&self) -> Self {
        copy_of(self)
    }
}

impl IntoBoxed<Ev> for i32 {
    fn member_tag() -> TypeTag {
        1
    }
    fn boxed(self) -> Ev {
        Ev::I32(self)
    }
    fn unboxed(a: Ev) -> Self {
        match a {
            Ev::I32(v) => v,
            _ => panic!("another type"),
        }
    }
    fn tag_of_type() -> TypeTag {
        1
    }
    fn into(self) -> Ev {
        Ev::I32(self)
    }
    fn downcast(this: &Ev) -> Option<&Self> {
        match this {
            Ev::I32(v) => Some(v),
            _ => None,
        }
    }
    fn downcast_mut(this: &mut Ev) -> Option<&mut Self> {
        match this {
            Ev::I32(v) => Some(v),
            _ => None,
        }
    }
}

impl IntoBoxed<Ev> for i8 {
    fn member_tag() -> TypeTag {
        2
    }
    fn boxed(self) -> Ev {
        Ev::I8(self)
    }
    fn unboxed(a: Ev) -> Self {
        match a {
            Ev::I8(v) => v,
            _ => panic!("another type"),
        }
    }
    fn tag_of_type() -> TypeTag {
        2
    }
    fn into(self) -> Ev {
        Ev::I8(self)
    }
    fn downcast(this: &Ev) -> Option<&Self> {
        match this {
            Ev::I8(v) => Some(v),
            _ => None,
        }
    }
    fn downcast_mut(this: &mut Ev) -> Option<&mut Self> {
        match this {
            Ev::I8(v) => Some(v),
            _ => None,
        }
    }
}

impl IntoBoxed<Ev> for TestEvent {
    fn member_tag() -> TypeTag {
        3
    }
    fn boxed(self) -> Ev {
        Ev::Test(self)
    }
    fn unboxed(a: Ev) -> Self {
        match a {
            Ev::Test(v) => v,
            _ => panic!("another type"),
        }
    }
    fn tag_of_type() -> TypeTag {
        3
    }
    fn into(self) -> Ev {
        Ev::Test(self)
    }
    fn downcast(this: &Ev) -> Option<&Self> {
        match this {
            Ev::Test(v) => Some(v),
            _ => None,
        }
    }
    fn downcast_mut(this: &mut Ev) -> Option<&mut Self> {
        match this {
            Ev::Test(v) => Some(v),
            _ => None,
        }
    }
}

impl IntoBoxed<Ev> for MenuEvent {
    fn member_tag() -> TypeTag {
        4
    }
    fn boxed(self) -> Ev {
        Ev::Menu(self)
    }
    fn unboxed(a: Ev) -> Self {
        match a {
            Ev::Menu(v) => v,
            _ => panic!("another type"),
        }
    }
    fn tag_of_type() -> TypeTag {
        4
    }
    fn into(self) -> Ev {
        Ev::Menu(self)
    }
    fn downcast(this: &Ev) -> Option<&Self> {
        match this {
            Ev::Menu(v) => Some(v),
            _ => None,
        }
    }
    fn downcast_mut(this: &mut Ev) -> Option<&mut Self> {
        match this {
            Ev::Menu(v) => Some(v),
            _ => None,
        }
    }
}

impl IntoBoxed<Ev> for KeydownEvent {
    fn member_tag() -> TypeTag {
        5
    }
    fn boxed(self) -> Ev {
        Ev::Keydown(self)
    }
    fn unboxed(a: Ev) -> Self {
        match a {
            Ev::Keydown(v) => v,
            _ => panic!("another type"),
        }
    }
    fn tag_of_type() -> TypeTag {
        5
    }
    fn into(self) -> Ev {
        Ev::Keydown(self)
    }
    fn downcast(this: &Ev) -> Option<&Self> {
        match this {
            Ev::Keydown(v) => Some(v),
            _ => None,
        }
    }
    fn downcast_mut(this: &mut Ev) -> Option<&mut Self> {
        match this {
            Ev::Keydown(v) => Some(v),
            _ => None,
        }
    }
}

impl IntoBoxed<Ev> for DeltaTimeEvent {
    fn member_tag() -> TypeTag {
        6
    }
    fn boxed(self) -> Ev {
        Ev::Delta(self)
    }
    fn unboxed(a: Ev) -> Self {
        match a {
            Ev::Delta(v) => v,
            _ => panic!("another type"),
        }
    }
    fn tag_of_type() -> TypeTag {
        6
    }
    fn into(self) -> Ev {
        Ev::Delta(self)
    }
    fn downcast(this: &Ev) -> Option<&Self> {
        match this {
            Ev::Delta(v) => Some(v),
            _ => None,
        }
    }
    fn downcast_mut(this: &mut Ev) -> Option<&mut Self> {
        match this {
            Ev::Delta(v) => Some(v),
            _ => None,
        }
    }
}

impl IntoBoxed<Ev> for LockKeybindings {
    fn member_tag() -> TypeTag {
        7
    }
    fn boxed(self) -> Ev {
        Ev::Lock(self)
    }
    fn unboxed(a: Ev) -> Self {
        match a {
            Ev::Lock(v) => v,
            _ => panic!("another type"),
        }
    }
    fn tag_of_type() -> TypeTag {
        7
    }
    fn into(self) -> Ev {
        Ev::Lock(self)
    }
    fn downcast(this: &Ev) -> Option<&Self> {
        match this {
            Ev::Lock(v) => Some(v),
            _ => None,
        }
    }
    fn downcast_mut(this: &mut Ev) -> Option<&mut Self> {
        match this {
            Ev::Lock(v) => Some(v),
            _ => None,
        }
    }
}

impl IntoBoxed<Ev> for RegisterKeybind<Ev> {
    fn member_tag() -> TypeTag {
        8
    }
    fn boxed(self) -> Ev {
        Ev::Register(Box::new(self))
    }
    fn unboxed(a: Ev) -> Self {
        match a {
            Ev::Register(v) => *v,
            _ => panic!("another type"),
        }
    }
    fn tag_of_type() -> TypeTag {
        8
    }
    fn into(self) -> Ev {
        Ev::Register(Box::new(self))
    }
    fn downcast(this: &Ev) -> Option<&Self> {
        match this {
            Ev::Register(v) => Some(&**v),
            _ => None,
        }
    }
    fn downcast_mut(this: &mut Ev) -> Option<&mut Self> {
        match this {
            Ev::Register(v) => Some(&mut **v),
            _ => None,
        }
    }
}

impl IntoBoxed<Ev> for RebindKeybind {
    fn member_tag() -> TypeTag {
        9
    }
    fn boxed(self) -> Ev {
        Ev::Rebind(self)
    }
    fn unboxed(a: Ev) -> Self {
        match a {
            Ev::Rebind(v) => v,
            _ => panic!("another type"),
        }
    }
    fn tag_of_type() -> TypeTag {
        9
    }
    fn into(self) -> Ev {
        Ev::Rebind(self)
    }
    fn downcast(this: &Ev) -> Option<&Self> {
        match this {
            Ev::Rebind(v) => Some(v),
            _ => None,
        }
    }
    fn downcast_mut(this: &mut Ev) -> Option<&mut Self> {
        match this {
            Ev::Rebind(v) => Some(v),
            _ => None,
        }
    }
}

impl IntoBoxed<Ev> for DeleteKeybind {
    fn member_tag() -> TypeTag {
        10
    }
    fn boxed(self) -> Ev {
        Ev::Delete(self)
    }
    fn unboxed(a: Ev) -> Self {
        match a {
            Ev::Delete(v) => v,
            _ => panic!("another type"),
        }
    }
    fn tag_of_type() -> TypeTag {
        10
    }
    fn into(self) -> Ev {
        Ev::Delete(self)
    }
    fn downcast(this: &Ev) -> Option<&Self> {
        match this {
            Ev::Delete(v) => Some(v),
            _ => None,
        }
    }
    fn downcast_mut(this: &mut Ev) -> Option<&mut Self> {
        match this {
            Ev::Delete(v) => Some(v),
            _ => None,
        }
    }
}

impl IntoBoxed<Ev> for RegisterSettings<Settings> {
    fn member_tag() -> TypeTag {
        11
    }
    fn boxed(self) -> Ev {
        Ev::RegisterSettings(Box::new(self))
    }
    fn unboxed(a: Ev) -> Self {
        match a {
            Ev::RegisterSettings(v) => *v,
            _ => panic!("another type"),
        }
    }
    fn tag_of_type() -> TypeTag {
        11
    }
    fn into(self) -> Ev {
        Ev::RegisterSettings(Box::new(self))
    }
    fn downcast(this: &Ev) -> Option<&Self> {
        match this {
            Ev::RegisterSettings(v) => Some(&**v),
            _ => None,
        }
    }
    fn downcast_mut(this: &mut Ev) -> Option<&mut Self> {
        match this {
            Ev::RegisterSettings(v) => Some(&mut **v),
            _ => None,
        }
    }
}

impl IntoBoxed<Ev> for SaveSettings {
    fn member_tag() -> TypeTag {
        12
    }
    fn boxed(self) -> Ev {
        Ev::Save(self)
    }
    fn unboxed(a: Ev) -> Self {
        match a {
            Ev::Save(v) => v,
            _ => panic!("another type"),
        }
    }
    fn tag_of_type() -> TypeTag {
        12
    }
    fn into(self) -> Ev {
        Ev::Save(self)
    }
    fn downcast(this: &Ev) -> Option<&Self> {
        match this {
            Ev::Save(v) => Some(v),
            _ => None,
        }
    }
    fn downcast_mut(this: &mut Ev) -> Option<&mut Self> {
        match this {
            Ev::Save(v) => Some(v),
            _ => None,
        }
    }
}

/// The settings of these tests: one kind only.
#[derive(Clone, PartialEq, Eq, Debug)]
struct Volume {
    level: i32,
    muted: bool,
}

enum Settings {
    Volume(Volume),
}

impl Downcast for Settings {
    fn tag(&self) -> TypeTag {
        1
    }
    fn type_tag(&self) -> TypeTag {
        1
    }
}

impl PluginSettings for Settings {
    fn name(&self) -> &'static str {
        "Volume"
    }
    fn values(&mut self) -> Vec<SettingsValueCommon<'_>> {
        match self {
            Settings::Volume(volume) => vec![
                SettingsValueCommon {
                    name: "level",
                    value: SettingsValue::Integer {
                        value: &mut volume.level,
                        min: 0,
                        max: 10,
                        step: 1,
                    },
                },
                SettingsValueCommon { name: "muted", value: SettingsValue::Toogle(&mut volume.muted) },
            ],
        }
    }
    fn clone_box(&self) -> Self {
        match self {
            Settings::Volume(volume) => Settings::Volume(volume.clone()),
        }
    }
}

impl IntoBoxed<Settings> for Volume {
    fn member_tag() -> TypeTag {
        1
    }
    fn boxed(self) -> Settings {
        Settings::Volume(self)
    }
    fn unboxed(a: Settings) -> Self {
        match a {
            Settings::Volume(v) => v,
        }
    }
    fn tag_of_type() -> TypeTag {
        1
    }
    fn into(self) -> Settings {
        Settings::Volume(self)
    }
    fn downcast(this: &Settings) -> Option<&Self> {
        match this {
            Settings::Volume(v) => Some(v),
        }
    }
    fn downcast_mut(this: &mut Settings) -> Option<&mut Self> {
        match this {
            Settings::Volume(v) => Some(v),
        }
    }
}

#[derive(PartialEq, Eq, Debug, Clone, Copy)]
struct TestPlugin(u8);

#[derive(PartialEq, Eq, Debug, Clone, Copy)]
struct ErrPlugin;

/// A plugin that writes its name on the frame when it draws.
#[derive(PartialEq, Eq, Debug, Clone, Copy)]
struct Painter {
    name: &'static str,
    layer: u32,
}

#[derive(PartialEq, Eq, Debug, Clone, Copy)]
struct Backdrop {
    layer: u32,
}

#[derive(PartialEq, Eq, Debug, Clone, Copy)]
struct Overlay {
    layer: u32,
}

/// A plugin that looks for itself and for the test plugin in the registry.
#[derive(PartialEq, Eq, Debug, Clone, Copy, Default)]
struct Watcher {
    saw_itself: bool,
    saw_test_plugin: Option<u8>,
    loads: u8,
}

/// Every plugin that the registry of these tests holds.
enum Plugins {
    Test(TestPlugin),
    Failing(ErrPlugin),
    Keys(KeybindPlugin<Ev>),
    Painter(Painter),
    Backdrop(Backdrop),
    Overlay(Overlay),
    Watcher(Watcher),
    Settings(SettingsPlugin<Settings>),
}

fn plugin_tag(plugin: &Plugins) -> TypeTag {
    match plugin {
        Plugins::Test(_) => 1,
        Plugins::Failing(_) => 2,
        Plugins::Keys(_) => 3,
        Plugins::Painter(_) => 4,
        Plugins::Backdrop(_) => 5,
        Plugins::Overlay(_) => 6,
        Plugins::Watcher(_) => 7,
        Plugins::Settings(_) => 8,
    }
}

fn plugin_layer(plugin: &Plugins) -> u32 {
    match plugin {
        Plugins::Painter(p) => p.layer,
        Plugins::Backdrop(p) => p.layer,
        Plugins::Overlay(p) => p.layer,
        _ => 0,
    }
}

impl Downcast for Plugins {
    fn tag(&self) -> TypeTag {
        plugin_tag(self)
    }
    fn type_tag(&self) -> TypeTag {
        plugin_tag(self)
    }
}

impl Plugin for Plugins {
    type Event = Ev;
    type Error = String;
    type Frame = Vec<&'static str>;

    fn layer(&self) -> u32 {
        plugin_layer(self)
    }

    fn loads(_before: Self, _bus: Bus<Ev>, _after: Self, _bus_after: Bus<Ev>, _r: Result<(), String>) -> bool {
        true
    }

    fn updates(
        _before: Self,
        _bus: Bus<Ev>,
        _plugins: PluginStore<Plugins>,
        _after: Self,
        _bus_after: Bus<Ev>,
        _r: Result<(), String>,
    ) -> bool {
        true
    }

    fn draws(
        _plugin: Self,
        _frame: Vec<&'static str>,
        _area: Rect,
        _plugins: PluginStore<Plugins>,
        _frame_after: Vec<&'static str>,
    ) -> bool {
        true
    }

    fn on_load(&mut self, events: &mut EventManager<Ev>) -> Result<(), String> {
        match self {
            Plugins::Keys(keys) => keys.on_load(events),
            Plugins::Watcher(watcher) => watcher.loads += 1,
            _ => {}
        }
        Ok(())
    }

    fn update(&mut self, events: &mut EventManager<Ev>, plugins: &PluginStore<Plugins>) -> Result<(), String> {
        match self {
            Plugins::Test(plugin) => {
                plugin.0 *= 10;
                Ok(())
            }
            Plugins::Failing(_) => Err(String::from("OH NO!")),
            Plugins::Keys(keys) => {
                keys.update(events);
                Ok(())
            }
            Plugins::Painter(painter) => {
                events.dispatch(painter.layer as i32);
                Ok(())
            }
            Plugins::Backdrop(backdrop) => {
                events.dispatch(backdrop.layer as i32);
                Ok(())
            }
            Plugins::Watcher(watcher) => {
                watcher.saw_itself = plugins.get::<Watcher>().is_some();
                watcher.saw_test_plugin = plugins.get::<TestPlugin>().map(|plugin| plugin.0);
                Ok(())
            }
            Plugins::Settings(settings) => {
                settings.update(events);
                Ok(())
            }
            _ => Ok(()),
        }
    }

    fn draw(&self, frame: &mut Vec<&'static str>, _area: Rect, _plugins: &PluginStore<Plugins>) {
        match self {
            Plugins::Painter(p) => frame.push(p.name),
            Plugins::Backdrop(_) => frame.push("backdrop"),
            Plugins::Overlay(_) => frame.push("overlay"),
            _ => {}
        }
    }

    fn z_index(&self) -> u32 {
        plugin_layer(self)
    }
}

impl IntoBoxed<Plugins> for TestPlugin {
    fn member_tag() -> TypeTag {
        1
    }
    fn boxed(self) -> Plugins {
        Plugins::Test(self)
    }
    fn unboxed(a: Plugins) -> Self {
        match a {
            Plugins::Test(v) => v,
            _ => panic!("another type"),
        }
    }
    fn tag_of_type() -> TypeTag {
        1
    }
    fn into(self) -> Plugins {
        Plugins::Test(self)
    }
    fn downcast(this: &Plugins) -> Option<&Self> {
        match this {
            Plugins::Test(v) => Some(v),
            _ => None,
        }
    }
    fn downcast_mut(this: &mut Plugins) -> Option<&mut Self> {
        match this {
            Plugins::Test(v) => Some(v),
            _ => None,
        }
    }
}

impl IntoBoxed<Plugins> for ErrPlugin {
    fn member_tag() -> TypeTag {
        2
    }
    fn boxed(self) -> Plugins {
        Plugins::Failing(self)
    }
    fn unboxed(a: Plugins) -> Self {
        match a {
            Plugins::Failing(v) => v,
            _ => panic!("another type"),
        }
    }
    fn tag_of_type() -> TypeTag {
        2
    }
    fn into(self) -> Plugins {
        Plugins::Failing(self)
    }
    fn downcast(this: &Plugins) -> Option<&Self> {
        match this {
            Plugins::Failing(v) => Some(v),
            _ => None,
        }
    }
    fn downcast_mut(this: &mut Plugins) -> Option<&mut Self> {
        match this {
            Plugins::Failing(v) => Some(v),
            _ => None,
        }
    }
}

impl IntoBoxed<Plugins> for KeybindPlugin<Ev> {
    fn member_tag() -> TypeTag {
        3
    }
    fn boxed(self) -> Plugins {
        Plugins::Keys(self)
    }
    fn unboxed(a: Plugins) -> Self {
        match a {
            Plugins::Keys(v) => v,
            _ => panic!("another type"),
        }
    }
    fn tag_of_type() -> TypeTag {
        3
    }
    fn into(self) -> Plugins {
        Plugins::Keys(self)
    }
    fn downcast(this: &Plugins) -> Option<&Self> {
        match this {
            Plugins::Keys(v) => Some(v),
            _ => None,
        }
    }
    fn downcast_mut(this: &mut Plugins) -> Option<&mut Self> {
        match this {
            Plugins::Keys(v) => Some(v),
            _ => None,
        }
    }
}

impl IntoBoxed<Plugins> for Painter {
    fn member_tag() -> TypeTag {
        4
    }
    fn boxed(self) -> Plugins {
        Plugins::Painter(self)
    }
    fn unboxed(a: Plugins) -> Self {
        match a {
            Plugins::Painter(v) => v,
            _ => panic!("another type"),
        }
    }
    fn tag_of_type() -> TypeTag {
        4
    }
    fn into(self) -> Plugins {
        Plugins::Painter(self)
    }
    fn downcast(this: &Plugins) -> Option<&Self> {
        match this {
            Plugins::Painter(v) => Some(v),
            _ => None,
        }
    }
    fn downcast_mut(this: &mut Plugins) -> Option<&mut Self> {
        match this {
            Plugins::Painter(v) => Some(v),
            _ => None,
        }
    }
}

impl IntoBoxed<Plugins> for Backdrop {
    fn member_tag() -> TypeTag {
        5
    }
    fn boxed(self) -> Plugins {
        Plugins::Backdrop(self)
    }
    fn unboxed(a: Plugins) -> Self {
        match a {
            Plugins::Backdrop(v) => v,
            _ => panic!("another type"),
        }
    }
    fn tag_of_type() -> TypeTag {
        5
    }
    fn into(self) -> Plugins {
        Plugins::Backdrop(self)
    }
    fn downcast(this: &Plugins) -> Option<&Self> {
        match this {
            Plugins::Backdrop(v) => Some(v),
            _ => None,
        }
    }
    fn downcast_mut(this: &mut Plugins) -> Option<&mut Self> {
        match this {
            Plugins::Backdrop(v) => Some(v),
            _ => None,
        }
    }
}

impl IntoBoxed<Plugins> for Overlay {
    fn member_tag() -> TypeTag {
        6
    }
    fn boxed(self) -> Plugins {
        Plugins::Overlay(self)
    }
    fn unboxed(a: Plugins) -> Self {
        match a {
            Plugins::Overlay(v) => v,
            _ => panic!("another type"),
        }
    }
    fn tag_of_type() -> TypeTag {
        6
    }
    fn into(self) -> Plugins {
        Plugins::Overlay(self)
    }
    fn downcast(this: &Plugins) -> Option<&Self> {
        match this {
            Plugins::Overlay(v) => Some(v),
            _ => None,
        }
    }
    fn downcast_mut(this: &mut Plugins) -> Option<&mut Self> {
        match this {
            Plugins::Overlay(v) => Some(v),
            _ => None,
        }
    }
}

impl IntoBoxed<Plugins> for Watcher {
    fn member_tag() -> TypeTag {
        7
    }
    fn boxed(self) -> Plugins {
        Plugins::Watcher(self)
    }
    fn unboxed(a: Plugins) -> Self {
        match a {
            Plugins::Watcher(v) => v,
            _ => panic!("another type"),
        }
    }
    fn tag_of_type() -> TypeTag {
        7
    }
    fn into(self) -> Plugins {
        Plugins::Watcher(self)
    }
    fn downcast(this: &Plugins) -> Option<&Self> {
        match this {
            Plugins::Watcher(v) => Some(v),
            _ => None,
        }
    }
    fn downcast_mut(this: &mut Plugins) -> Option<&mut Self> {
        match this {
            Plugins::Watcher(v) => Some(v),
            _ => None,
        }
    }
}

impl IntoBoxed<Plugins> for SettingsPlugin<Settings> {
    fn member_tag() -> TypeTag {
        8
    }
    fn boxed(self) -> Plugins {
        Plugins::Settings(self)
    }
    fn unboxed(a: Plugins) -> Self {
        match a {
            Plugins::Settings(v) => v,
            _ => panic!("another type"),
        }
    }
    fn tag_of_type() -> TypeTag {
        8
    }
    fn into(self) -> Plugins {
        Plugins::Settings(self)
    }
    fn downcast(this: &Plugins) -> Option<&Self> {
        match this {
            Plugins::Settings(v) => Some(v),
            _ => None,
        }
    }
    fn downcast_mut(this: &mut Plugins) -> Option<&mut Self> {
        match this {
            Plugins::Settings(v) => Some(v),
            _ => None,
        }
    }
}

fn key(code: KeyCode) -> KeyBind {
    KeyBind { modifiers: KeyModifiers::none(), key: code }
}

fn press(state: &mut StateManager<Plugins>, code: KeyCode) {
    state.events.dispatch(KeydownEvent(KeyEvent { modifiers: KeyModifiers::none(), code }));
    state.events.swap_buffers();
    state.update().unwrap();
}

fn read_test_events(state: &StateManager<Plugins>) -> Vec<TestEvent> {
    state.events.read::<TestEvent>().into_iter().cloned().collect()
}

fn keys_state() -> StateManager<Plugins> {
    let mut state = StateManager::new();
    state.plugins.insert(KeybindPlugin::<Ev>::new());
    state.events.ensure_event::<TestEvent>();
    state
}

#[test]
fn plugin_manager_read_empty() {
    let events: EventManager<Ev> = EventManager::new();
    assert!(events.read::<i32>().is_empty());
}

#[test]
fn plugin_manager_simple() {
    let mut events: EventManager<Ev> = EventManager::new();
    events.dispatch(10_i32);
    events.dispatch(20_i32);
    events.swap_buffers();

    assert_eq!(events.read::<i32>(), [&10, &20]);
}

#[test]
fn plugin_manager_does_not_consume() {
    let mut events: EventManager<Ev> = EventManager::new();
    events.dispatch(10_i32);
    events.dispatch(20_i32);
    events.swap_buffers();

    assert_eq!(events.read::<i32>(), [&10, &20]);
    assert_eq!(events.read::<i32>(), [&10, &20]);
    assert_eq!(events.read::<i32>(), [&10, &20]);
    assert_eq!(events.read::<i32>(), [&10, &20]);
}

#[test]
fn plugin_manager_multiple_types() {
    let mut events: EventManager<Ev> = EventManager::new();
    events.dispatch(10_i32);
    events.dispatch(20_i8);
    events.swap_buffers();

    assert_eq!(events.read::<i32>(), [&10]);
    assert_eq!(events.read::<i8>(), [&20]);
}

#[test]
fn plugin_manager_need_to_swap() {
    let mut events: EventManager<Ev> = EventManager::new();
    events.dispatch(10_i32);
    events.dispatch(20_i32);

    assert!(events.read::<i32>().is_empty());
}

#[test]
fn plugin_manager_swap_clears() {
    let mut events: EventManager<Ev> = EventManager::new();
    events.dispatch(10_i32);
    events.dispatch(20_i32);
    events.swap_buffers();
    events.dispatch(30_i32);
    events.swap_buffers();

    assert_eq!(events.read::<i32>(), [&30]);
}

#[test]
fn plugin_manager_dispatch_goes_to_write_buffer() {
    let mut events: EventManager<Ev> = EventManager::new();
    events.dispatch(10_i32);
    events.dispatch(20_i32);
    events.swap_buffers();
    events.dispatch(30_i32);

    assert_eq!(events.read::<i32>(), [&10, &20]);
}

#[test]
fn plugin_manager_dispatch_raw() {
    let mut events: EventManager<Ev> = EventManager::new();
    events.ensure_event::<i32>();

    let event: Ev = Ev::I32(10);
    events.dispatch_raw(event);
    events.swap_buffers();

    assert_eq!(events.read::<i32>(), [&10]);
}

#[test]
fn plugin_manager_split() {
    let mut events: EventManager<Ev> = EventManager::new();
    events.dispatch(10_i32);
    events.dispatch(10_i32);
    events.swap_buffers();

    let (reader, mut writer) = events.split();
    for _ in reader.read::<i32>() {
        writer.dispatch(20_i8);
    }

    events.swap_buffers();
    assert_eq!(events.read::<i8>(), [&20, &20]);
}

#[test]
fn plugin_manager_split_dispatch_raw() {
    let mut events: EventManager<Ev> = EventManager::new();
    events.ensure_event::<i32>();

    let (_reader, mut writer) = events.split();
    let event: Ev = Ev::I32(10);
    writer.dispatch_raw(event);

    events.swap_buffers();
    assert_eq!(events.read::<i32>(), [&10]);
}

#[test]
fn plugin_manager_update() {
    let mut state: StateManager<Plugins> = StateManager::new();
    state.plugins.insert(TestPlugin(10));
    state.update().unwrap();

    assert_eq!(state.plugins.get::<TestPlugin>().map(|x| *x), Some(TestPlugin(100)));
}

#[test]
fn plugin_manager_update_error() {
    let mut state: StateManager<Plugins> = StateManager::new();
    state.plugins.insert(TestPlugin(10));
    state.plugins.insert(ErrPlugin);

    assert!(state.update().is_err());
}

#[test]
fn plugin_manager_get_ref() {
    let mut plugins: PluginStore<Plugins> = PluginStore::new();
    plugins.insert(TestPlugin(10));

    assert_eq!(plugins.get::<TestPlugin>().map(|x| *x), Some(TestPlugin(10)));
}

#[test]
fn plugin_manager_get_mut() {
    let mut plugins: PluginStore<Plugins> = PluginStore::new();
    plugins.insert(TestPlugin(10));

    if let Some(value) = plugins.get_mut::<TestPlugin>() {
        value.0 += 10;
    }

    assert_eq!(plugins.get::<TestPlugin>().map(|x| *x), Some(TestPlugin(20)));
}

#[test]
fn plugin_manager_break_borrow_rules_mut() {
    let mut plugins: PluginStore<Plugins> = PluginStore::new();
    plugins.insert(TestPlugin(10));

    let held = plugins.hold(<TestPlugin as IntoBoxed<Plugins>>::tag_of_type());
    assert!(held);
    assert!(plugins.get_mut::<TestPlugin>().is_none());
    plugins.release(<TestPlugin as IntoBoxed<Plugins>>::tag_of_type());
}

#[test]
fn plugin_manager_break_borrow_rules_ref() {
    let mut plugins: PluginStore<Plugins> = PluginStore::new();
    plugins.insert(TestPlugin(10));

    let plugin = plugins.take(<TestPlugin as IntoBoxed<Plugins>>::tag_of_type());
    assert!(plugin.is_some());
    assert!(plugins.get::<TestPlugin>().is_none());
    drop(plugin);
}

#[test]
fn lib_read_empty() {
    let events: EventManager<Ev> = EventManager::new();
    assert!(events.read::<i32>().is_empty());
}

#[test]
fn lib_simple() {
    let mut events: EventManager<Ev> = EventManager::new();
    events.dispatch(10_i32);
    events.dispatch(20_i32);
    events.swap_buffers();

    assert_eq!(events.read::<i32>(), [&10, &20]);
}

#[test]
fn lib_does_not_consume() {
    let mut events: EventManager<Ev> = EventManager::new();
    events.dispatch(10_i32);
    events.dispatch(20_i32);
    events.swap_buffers();

    assert_eq!(events.read::<i32>(), [&10, &20]);
    assert_eq!(events.read::<i32>(), [&10, &20]);
    assert_eq!(events.read::<i32>(), [&10, &20]);
    assert_eq!(events.read::<i32>(), [&10, &20]);
}

#[test]
fn lib_multiple_types() {
    let mut events: EventManager<Ev> = EventManager::new();
    events.dispatch(10_i32);
    events.dispatch(20_i8);
    events.swap_buffers();

    assert_eq!(events.read::<i32>(), [&10]);
    assert_eq!(events.read::<i8>(), [&20]);
}

#[test]
fn lib_need_to_swap() {
    let mut events: EventManager<Ev> = EventManager::new();
    events.dispatch(10_i32);
    events.dispatch(20_i32);

    assert!(events.read::<i32>().is_empty());
}

#[test]
fn lib_swap_clears() {
    let mut events: EventManager<Ev> = EventManager::new();
    events.dispatch(10_i32);
    events.dispatch(20_i32);
    events.swap_buffers();
    events.dispatch(30_i32);
    events.swap_buffers();

    assert_eq!(events.read::<i32>(), [&30]);
}

#[test]
fn lib_dispatch_goes_to_write_buffer() {
    let mut events: EventManager<Ev> = EventManager::new();
    events.dispatch(10_i32);
    events.dispatch(20_i32);
    events.swap_buffers();
    events.dispatch(30_i32);

    assert_eq!(events.read::<i32>(), [&10, &20]);
}

#[test]
fn lib_dispatch_raw() {
    let mut events: EventManager<Ev> = EventManager::new();
    events.ensure_event::<i32>();

    let event: Ev = Ev::I32(10);
    events.dispatch_raw(event);
    events.swap_buffers();

    assert_eq!(events.read::<i32>(), [&10]);
}

#[test]
fn lib_split() {
    let mut events: EventManager<Ev> = EventManager::new();
    events.dispatch(10_i32);
    events.dispatch(10_i32);
    events.swap_buffers();

    let (reader, mut writer) = events.split();
    for _ in reader.read::<i32>() {
        writer.dispatch(20_i8);
    }

    events.swap_buffers();
    assert_eq!(events.read::<i8>(), [&20, &20]);
}

#[test]
fn lib_split_dispatch_raw() {
    let mut events: EventManager<Ev> = EventManager::new();
    events.ensure_event::<i32>();

    let (_reader, mut writer) = events.split();
    let event: Ev = Ev::I32(10);
    writer.dispatch_raw(event);

    events.swap_buffers();
    assert_eq!(events.read::<i32>(), [&10]);
}

#[test]
fn lib_update() {
    let mut state: StateManager<Plugins> = StateManager::new();
    state.plugins.insert(TestPlugin(10));
    state.update().unwrap();

    assert_eq!(state.plugins.get::<TestPlugin>().map(|x| *x), Some(TestPlugin(100)));
}

#[test]
fn lib_update_error() {
    let mut state: StateManager<Plugins> = StateManager::new();
    state.plugins.insert(TestPlugin(10));
    state.plugins.insert(ErrPlugin);

    assert!(state.update().is_err());
}

#[test]
fn lib_get_ref() {
    let mut plugins: PluginStore<Plugins> = PluginStore::new();
    plugins.insert(TestPlugin(10));

    assert_eq!(plugins.get::<TestPlugin>().map(|x| *x), Some(TestPlugin(10)));
}

#[test]
fn lib_get_mut() {
    let mut plugins: PluginStore<Plugins> = PluginStore::new();
    plugins.insert(TestPlugin(10));

    if let Some(value) = plugins.get_mut::<TestPlugin>() {
        value.0 += 10;
    }

    assert_eq!(plugins.get::<TestPlugin>().map(|x| *x), Some(TestPlugin(20)));
}

#[test]
fn lib_break_borrow_rules_mut() {
    let mut plugins: PluginStore<Plugins> = PluginStore::new();
    plugins.insert(TestPlugin(10));

    let held = plugins.hold(<TestPlugin as IntoBoxed<Plugins>>::tag_of_type());
    assert!(held);
    assert!(plugins.get_mut::<TestPlugin>().is_none());
    plugins.release(<TestPlugin as IntoBoxed<Plugins>>::tag_of_type());
}

#[test]
fn lib_break_borrow_rules_ref() {
    let mut plugins: PluginStore<Plugins> = PluginStore::new();
    plugins.insert(TestPlugin(10));

    let plugin = plugins.take(<TestPlugin as IntoBoxed<Plugins>>::tag_of_type());
    assert!(plugin.is_some());
    assert!(plugins.get::<TestPlugin>().is_none());
    drop(plugin);
}

#[test]
fn keybindings_single_key() {
    let mut state = keys_state();
    state.events.dispatch(RegisterKeybind::<Ev>::single_key(key(KeyCode::Up), TestEvent::Foo));

    state.events.swap_buffers();
    state.update().unwrap();

    press(&mut state, KeyCode::Up);

    state.events.swap_buffers();
    assert_eq!(read_test_events(&state), [TestEvent::Foo]);
}

#[test]
fn keybindings_single_key_miss_first() {
    let mut state = keys_state();
    state.events.dispatch(RegisterKeybind::<Ev>::single_key(key(KeyCode::Up), TestEvent::Foo));

    state.events.swap_buffers();
    state.update().unwrap();

    press(&mut state, KeyCode::Down);
    state.events.swap_buffers();
    assert_eq!(read_test_events(&state), []);

    press(&mut state, KeyCode::Up);

    state.events.swap_buffers();
    assert_eq!(read_test_events(&state), [TestEvent::Foo]);
}

#[test]
fn keybindings_chord() {
    let mut state = keys_state();
    state.events.dispatch(RegisterKeybind::<Ev>::chord(vec![key(KeyCode::Up), key(KeyCode::Down)], TestEvent::Foo));

    state.events.swap_buffers();
    state.update().unwrap();

    press(&mut state, KeyCode::Up);

    press(&mut state, KeyCode::Down);

    state.events.swap_buffers();
    assert_eq!(read_test_events(&state), [TestEvent::Foo]);
}

#[test]
fn keybindings_chord_missed() {
    let mut state = keys_state();
    state.events.dispatch(RegisterKeybind::<Ev>::chord(vec![key(KeyCode::Up), key(KeyCode::Down)], TestEvent::Foo));

    state.events.swap_buffers();
    state.update().unwrap();

    state.events.swap_buffers();
    assert_eq!(read_test_events(&state), []);

    press(&mut state, KeyCode::Down);

    press(&mut state, KeyCode::Up);

    press(&mut state, KeyCode::Down);

    state.events.swap_buffers();
    assert_eq!(read_test_events(&state), [TestEvent::Foo]);
}

#[test]
fn keybindings_chord_with_prefix_last() {
    let mut state = keys_state();
    state.events.dispatch(RegisterKeybind::<Ev>::chord(vec![key(KeyCode::Up), key(KeyCode::Down)], TestEvent::Bar));
    state.events.dispatch(RegisterKeybind::<Ev>::chord(vec![key(KeyCode::Up)], TestEvent::Foo));

    state.events.swap_buffers();
    state.update().unwrap();

    press(&mut state, KeyCode::Up);
    state.events.swap_buffers();
    assert_eq!(read_test_events(&state), []);

    press(&mut state, KeyCode::Down);

    state.events.swap_buffers();
    assert_eq!(read_test_events(&state), [TestEvent::Bar]);
}

#[test]
fn keybindings_chord_with_prefix_prefix() {
    let mut state = keys_state();
    state.events.dispatch(RegisterKeybind::<Ev>::chord(vec![key(KeyCode::Up), key(KeyCode::Down)], TestEvent::Bar));
    state.events.dispatch(RegisterKeybind::<Ev>::chord(vec![key(KeyCode::Up)], TestEvent::Foo));

    state.events.swap_buffers();
    state.update().unwrap();

    press(&mut state, KeyCode::Up);
    state.events.swap_buffers();
    assert_eq!(read_test_events(&state), []);

    press(&mut state, KeyCode::Left);

    state.events.swap_buffers();
    assert_eq!(read_test_events(&state), [TestEvent::Foo]);
}

#[test]
fn keybindings_activeate_chord_then_non_bind() {
    let mut state = keys_state();
    state.events.dispatch(RegisterKeybind::<Ev>::chord(vec![key(KeyCode::Up), key(KeyCode::Down)], TestEvent::Bar));

    state.events.swap_buffers();
    state.update().unwrap();

    press(&mut state, KeyCode::Up);
    state.events.swap_buffers();

    press(&mut state, KeyCode::Down);

    press(&mut state, KeyCode::Left);
    state.events.swap_buffers();
    assert_ne!(read_test_events(&state), [TestEvent::Bar]);
}

#[test]
fn lib_single_key() {
    let mut state = keys_state();
    state.events.dispatch(RegisterKeybind::<Ev>::single_key(key(KeyCode::Up), TestEvent::Foo));

    state.events.swap_buffers();
    state.update().unwrap();

    press(&mut state, KeyCode::Up);

    state.events.swap_buffers();
    assert_eq!(read_test_events(&state), [TestEvent::Foo]);
}

#[test]
fn lib_single_key_miss_first() {
    let mut state = keys_state();
    state.events.dispatch(RegisterKeybind::<Ev>::single_key(key(KeyCode::Up), TestEvent::Foo));

    state.events.swap_buffers();
    state.update().unwrap();

    press(&mut state, KeyCode::Down);
    state.events.swap_buffers();
    assert_eq!(read_test_events(&state), []);

    press(&mut state, KeyCode::Up);

    state.events.swap_buffers();
    assert_eq!(read_test_events(&state), [TestEvent::Foo]);
}

#[test]
fn lib_chord() {
    let mut state = keys_state();
    state.events.dispatch(RegisterKeybind::<Ev>::chord(vec![key(KeyCode::Up), key(KeyCode::Down)], TestEvent::Foo));

    state.events.swap_buffers();
    state.update().unwrap();

    press(&mut state, KeyCode::Up);

    press(&mut state, KeyCode::Down);

    state.events.swap_buffers();
    assert_eq!(read_test_events(&state), [TestEvent::Foo]);
}

#[test]
fn lib_chord_missed() {
    let mut state = keys_state();
    state.events.dispatch(RegisterKeybind::<Ev>::chord(vec![key(KeyCode::Up), key(KeyCode::Down)], TestEvent::Foo));

    state.events.swap_buffers();
    state.update().unwrap();

    state.events.swap_buffers();
    assert_eq!(read_test_events(&state), []);

    press(&mut state, KeyCode::Down);

    press(&mut state, KeyCode::Up);

    press(&mut state, KeyCode::Down);

    state.events.swap_buffers();
    assert_eq!(read_test_events(&state), [TestEvent::Foo]);
}

#[test]
fn lib_chord_with_prefix_last() {
    let mut state = keys_state();
    state.events.dispatch(RegisterKeybind::<Ev>::chord(vec![key(KeyCode::Up), key(KeyCode::Down)], TestEvent::Bar));
    state.events.dispatch(RegisterKeybind::<Ev>::chord(vec![key(KeyCode::Up)], TestEvent::Foo));

    state.events.swap_buffers();
    state.update().unwrap();

    press(&mut state, KeyCode::Up);
    state.events.swap_buffers();
    assert_eq!(read_test_events(&state), []);

    press(&mut state, KeyCode::Down);

    state.events.swap_buffers();
    assert_eq!(read_test_events(&state), [TestEvent::Bar]);
}

#[test]
fn lib_chord_with_prefix_prefix() {
    let mut state = keys_state();
    state.events.dispatch(RegisterKeybind::<Ev>::chord(vec![key(KeyCode::Up), key(KeyCode::Down)], TestEvent::Bar));
    state.events.dispatch(RegisterKeybind::<Ev>::chord(vec![key(KeyCode::Up)], TestEvent::Foo));

    state.events.swap_buffers();
    state.update().unwrap();

    press(&mut state, KeyCode::Up);
    state.events.swap_buffers();
    assert_eq!(read_test_events(&state), []);

    press(&mut state, KeyCode::Left);

    state.events.swap_buffers();
    assert_eq!(read_test_events(&state), [TestEvent::Foo]);
}

#[test]
fn lib_activeate_chord_then_non_bind() {
    let mut state = keys_state();
    state.events.dispatch(RegisterKeybind::<Ev>::chord(vec![key(KeyCode::Up), key(KeyCode::Down)], TestEvent::Bar));

    state.events.swap_buffers();
    state.update().unwrap();

    press(&mut state, KeyCode::Up);
    state.events.swap_buffers();

    press(&mut state, KeyCode::Down);

    press(&mut state, KeyCode::Left);
    state.events.swap_buffers();
    assert_ne!(read_test_events(&state), [TestEvent::Bar]);
}

#[test]
fn chord_duplicate_keys() {
    let mut state = keys_state();
    state.events.dispatch(RegisterKeybind::<Ev>::chord(vec![key(KeyCode::Up), key(KeyCode::Up)], TestEvent::Bar));
    state.events.swap_buffers();
    state.update().unwrap();

    press(&mut state, KeyCode::Up);
    state.events.swap_buffers();

    press(&mut state, KeyCode::Up);
    state.events.swap_buffers();
    assert_eq!(read_test_events(&state), [TestEvent::Bar]);
}

#[test]
fn delete_key() {
    let mut state = keys_state();
    state.events.dispatch(RegisterKeybind::<Ev>::single_key(key(KeyCode::Up), TestEvent::Foo));

    state.events.swap_buffers();
    state.update().unwrap();

    state.events.dispatch(DeleteKeybind(Chord { keys: vec![key(KeyCode::Up)] }));
    state.events.swap_buffers();
    state.update().unwrap();

    press(&mut state, KeyCode::Up);

    state.events.swap_buffers();
    assert_eq!(read_test_events(&state), []);
}

#[test]
fn on_load() {
    let mut editor: Editor<Plugins> = Editor::new();
    editor.on_load().unwrap();
}

fn tag<T: IntoBoxed<Plugins>>() -> TypeTag {
    T::tag_of_type()
}

fn numbers(events: &EventManager<Ev>) -> Vec<i32> {
    events.read::<i32>().into_iter().copied().collect()
}

#[test]
fn events_are_visible_for_exactly_one_frame() {
    let mut events: EventManager<Ev> = EventManager::new();
    events.dispatch(10_i32);
    events.dispatch(20_i32);
    assert_eq!(numbers(&events), []);

    events.swap_buffers();
    assert_eq!(numbers(&events), [10, 20]);

    events.dispatch(30_i32);
    events.swap_buffers();
    assert_eq!(numbers(&events), [30]);
}

#[test]
fn a_second_swap_without_dispatch_leaves_nothing_to_read() {
    let mut events: EventManager<Ev> = EventManager::new();
    events.dispatch(1_i32);
    events.dispatch(2_i32);
    events.dispatch(3_i32);
    events.swap_buffers();
    assert_eq!(numbers(&events), [1, 2, 3]);

    events.swap_buffers();
    assert_eq!(numbers(&events), []);
    events.swap_buffers();
    assert_eq!(numbers(&events), []);
}

#[test]
fn reads_of_one_frame_agree_whatever_is_dispatched_meanwhile() {
    let mut events: EventManager<Ev> = EventManager::new();
    events.dispatch(5_i32);
    events.swap_buffers();

    let first = numbers(&events);
    events.dispatch(6_i32);
    events.dispatch(7_i8);
    let second = numbers(&events);
    assert_eq!(first, [5]);
    assert_eq!(first, second);
}

#[test]
fn raw_dispatch_without_a_queue_drops_the_event() {
    let mut events: EventManager<Ev> = EventManager::new();
    assert!(!events.dispatch_raw(Ev::I32(10)));
    events.swap_buffers();
    assert_eq!(numbers(&events), []);

    events.ensure_event::<i32>();
    assert!(events.dispatch_raw(Ev::I32(11)));
    assert!(!events.dispatch_raw(Ev::I8(12)));
    events.swap_buffers();
    assert_eq!(numbers(&events), [11]);
    assert!(events.read::<i8>().is_empty());
}

#[test]
fn ensured_queues_outlive_the_swap() {
    let mut events: EventManager<Ev> = EventManager::new();
    events.ensure_event::<i32>();
    events.swap_buffers();
    assert!(events.dispatch_raw(Ev::I32(1)));
    events.swap_buffers();
    assert!(events.dispatch_raw(Ev::I32(2)));
    assert_eq!(numbers(&events), [1]);
    events.swap_buffers();
    assert_eq!(numbers(&events), [2]);
}

#[test]
fn raw_reads_return_the_queue_as_it_is() {
    let mut events: EventManager<Ev> = EventManager::new();
    events.dispatch(3_i32);
    events.dispatch(4_i8);
    events.dispatch(5_i32);
    events.swap_buffers();

    let raw = events.read_raw(1);
    assert_eq!(raw.len(), 2);
    assert!(matches!(raw[0], Ev::I32(3)));
    assert!(matches!(raw[1], Ev::I32(5)));
    assert_eq!(events.read_raw(2).len(), 1);
    assert!(events.read_raw(3).is_empty());
}

#[test]
fn the_writer_of_a_split_bus_reports_dropped_events() {
    let mut events: EventManager<Ev> = EventManager::new();
    events.ensure_event::<i8>();
    let (reader, mut writer) = events.split();
    assert!(reader.read::<i8>().is_empty());
    assert!(writer.dispatch_raw(Ev::I8(1)));
    assert!(!writer.dispatch_raw(Ev::I32(2)));
    writer.dispatch(3_i32);

    events.swap_buffers();
    assert_eq!(events.read::<i8>(), [&1]);
    assert_eq!(numbers(&events), [3]);
}

#[test]
fn a_shared_view_excludes_an_exclusive_one() {
    let mut plugins: PluginStore<Plugins> = PluginStore::new();
    plugins.insert(TestPlugin(10));

    assert!(plugins.hold(tag::<TestPlugin>()));
    assert!(plugins.hold(tag::<TestPlugin>()));
    assert!(plugins.get_mut::<TestPlugin>().is_none());
    assert!(plugins.take(tag::<TestPlugin>()).is_none());
    assert_eq!(plugins.get::<TestPlugin>(), Some(&TestPlugin(10)));

    plugins.release(tag::<TestPlugin>());
    assert!(plugins.get_mut::<TestPlugin>().is_none());
    plugins.release(tag::<TestPlugin>());
    assert!(plugins.get_mut::<TestPlugin>().is_some());
}

#[test]
fn an_exclusive_view_excludes_every_other_view() {
    let mut plugins: PluginStore<Plugins> = PluginStore::new();
    plugins.insert(TestPlugin(10));

    let taken = plugins.take(tag::<TestPlugin>()).unwrap();
    assert!(plugins.get::<TestPlugin>().is_none());
    assert!(plugins.get_raw(tag::<TestPlugin>()).is_none());
    assert!(plugins.get_mut::<TestPlugin>().is_none());
    assert!(!plugins.hold(tag::<TestPlugin>()));
    assert!(plugins.take(tag::<TestPlugin>()).is_none());
    assert!(plugins.iter().is_empty());

    assert!(plugins.put(taken).is_none());
    assert_eq!(plugins.get::<TestPlugin>(), Some(&TestPlugin(10)));
}

#[test]
fn a_plugin_that_is_not_registered_is_absent() {
    let mut plugins: PluginStore<Plugins> = PluginStore::new();
    plugins.insert(ErrPlugin);

    assert!(plugins.get::<TestPlugin>().is_none());
    assert!(plugins.get_mut::<TestPlugin>().is_none());
    assert!(!plugins.hold(tag::<TestPlugin>()));
    assert!(plugins.take(tag::<TestPlugin>()).is_none());
    plugins.release(tag::<TestPlugin>());
    assert_eq!(plugins.keys(), vec![tag::<ErrPlugin>()]);
}

#[test]
fn put_returns_a_plugin_that_nobody_waits_for() {
    let mut plugins: PluginStore<Plugins> = PluginStore::new();
    plugins.insert(TestPlugin(1));

    assert!(matches!(plugins.put(Plugins::Test(TestPlugin(2))), Some(Plugins::Test(TestPlugin(2)))));
    assert!(matches!(plugins.put(Plugins::Failing(ErrPlugin)), Some(Plugins::Failing(ErrPlugin))));
    assert_eq!(plugins.get::<TestPlugin>(), Some(&TestPlugin(1)));
}

#[test]
fn insert_replaces_the_plugin_and_forgets_its_views() {
    let mut plugins: PluginStore<Plugins> = PluginStore::new();
    plugins.insert(TestPlugin(1));
    assert!(plugins.hold(tag::<TestPlugin>()));
    plugins.insert(TestPlugin(2));

    assert_eq!(plugins.keys().len(), 1);
    assert_eq!(plugins.get_mut::<TestPlugin>().map(|plugin| plugin.0), Some(2));
}

#[test]
fn iter_and_views_pass_over_plugins_that_are_held_exclusively() {
    let mut plugins: PluginStore<Plugins> = PluginStore::new();
    plugins.insert(TestPlugin(1));
    plugins.insert(ErrPlugin);
    plugins.insert(Painter { name: "painter", layer: 3 });

    let taken = plugins.take(tag::<ErrPlugin>()).unwrap();
    let seen: Vec<TypeTag> = plugins.iter().into_iter().map(|plugin| plugin.type_tag()).collect();
    assert_eq!(seen, vec![tag::<TestPlugin>(), tag::<Painter>()]);
    let views = plugins.views();
    assert_eq!(views.len(), 3);
    assert!(views[0].is_some() && views[1].is_none() && views[2].is_some());
    assert!(plugins.put(taken).is_none());
    assert_eq!(plugins.iter().len(), 3);
}

#[test]
fn a_pass_runs_the_plugins_that_nobody_holds() {
    let mut plugins: PluginStore<Plugins> = PluginStore::new();
    assert!(plugins.free().is_empty());
    plugins.insert(TestPlugin(1));
    plugins.insert(ErrPlugin);
    plugins.insert(Watcher::default());
    plugins.insert(Backdrop { layer: 0 });
    assert_eq!(plugins.free(), vec![1, 2, 7, 5]);

    assert!(plugins.hold(tag::<ErrPlugin>()));
    let taken = plugins.take(tag::<Watcher>()).unwrap();
    assert_eq!(plugins.free(), vec![1, 5]);
    plugins.release(tag::<ErrPlugin>());
    assert!(plugins.put(taken).is_none());
    assert_eq!(plugins.free(), vec![1, 2, 7, 5]);
}

#[test]
fn the_startup_list_registers_what_its_entries_make() {
    let mut plugins: PluginStore<Plugins> = PluginStore::new();
    let first = RegisterPlugin::new(|| Plugins::Test(TestPlugin(1)));
    let second = RegisterPlugin::new(|| Plugins::Keys(KeybindPlugin::new()));
    plugins.register(&first);
    plugins.register(&second);

    assert_eq!(plugins.keys(), vec![tag::<TestPlugin>(), tag::<KeybindPlugin<Ev>>()]);
    assert_eq!(plugins.get::<TestPlugin>(), Some(&TestPlugin(1)));
    assert!(plugins.get::<KeybindPlugin<Ev>>().is_some());
}

#[test]
fn a_place_tracks_the_views_of_its_plugin() {
    let mut place = PluginWrapper::new(Plugins::Test(TestPlugin(7)));
    assert_eq!(place.type_tag(), 1);
    assert!(place.is_free());
    assert!(place.borrow().is_some());
    assert!(place.hold());
    assert!(!place.is_free());
    assert!(place.borrow_mut().is_none());
    assert!(place.take().is_none());
    place.release();
    place.release();
    assert!(place.borrow_mut().is_some());

    let taken = place.take().unwrap();
    assert!(place.borrow().is_none());
    assert!(!place.hold());
    assert!(place.put(Plugins::Failing(ErrPlugin)).is_some());
    assert!(place.put(taken).is_none());
    assert!(place.put(Plugins::Test(TestPlugin(8))).is_some());
    assert!(matches!(place.borrow(), Some(Plugins::Test(TestPlugin(7)))));
}

#[test]
fn update_runs_the_hooks_in_the_order_of_registration() {
    let mut state: StateManager<Plugins> = StateManager::new();
    state.plugins.insert(Painter { name: "painter", layer: 9 });
    state.plugins.insert(TestPlugin(1));
    state.plugins.insert(Backdrop { layer: 4 });
    state.update().unwrap();
    state.events.swap_buffers();

    assert_eq!(numbers(&state.events), [9, 4]);
    assert_eq!(state.plugins.get::<TestPlugin>(), Some(&TestPlugin(10)));
}

#[test]
fn a_failing_hook_ends_the_pass() {
    let mut state: StateManager<Plugins> = StateManager::new();
    state.plugins.insert(TestPlugin(1));
    state.plugins.insert(ErrPlugin);
    state.plugins.insert(Backdrop { layer: 4 });

    assert_eq!(state.update(), Err(String::from("OH NO!")));
    state.events.swap_buffers();
    assert_eq!(state.plugins.get::<TestPlugin>(), Some(&TestPlugin(10)));
    assert_eq!(numbers(&state.events), []);
    assert!(state.plugins.get::<ErrPlugin>().is_some());

    assert!(state.update().is_err());
    assert_eq!(state.plugins.get::<TestPlugin>(), Some(&TestPlugin(100)));
}

#[test]
fn a_plugin_is_absent_from_the_registry_while_it_updates() {
    let mut state: StateManager<Plugins> = StateManager::new();
    state.plugins.insert(TestPlugin(2));
    state.plugins.insert(Watcher::default());
    state.update().unwrap();

    let watcher = state.plugins.get::<Watcher>().unwrap();
    assert!(!watcher.saw_itself);
    assert_eq!(watcher.saw_test_plugin, Some(20));
}

#[test]
fn update_passes_over_a_plugin_that_is_held() {
    let mut state: StateManager<Plugins> = StateManager::new();
    state.plugins.insert(TestPlugin(2));
    state.plugins.insert(Watcher::default());
    assert!(state.plugins.hold(tag::<TestPlugin>()));
    state.update().unwrap();

    assert_eq!(state.plugins.get::<TestPlugin>(), Some(&TestPlugin(2)));
    assert_eq!(state.plugins.get::<Watcher>().unwrap().saw_test_plugin, Some(2));
    state.plugins.release(tag::<TestPlugin>());
    state.update().unwrap();
    assert_eq!(state.plugins.get::<TestPlugin>(), Some(&TestPlugin(20)));
}

#[test]
fn a_pass_over_no_free_plugin_does_nothing() {
    let mut state: StateManager<Plugins> = StateManager::new();
    assert_eq!(state.update(), Ok(()));
    assert_eq!(state.on_load(), Ok(()));

    state.plugins.insert(ErrPlugin);
    state.plugins.insert(TestPlugin(3));
    assert!(state.plugins.hold(tag::<ErrPlugin>()));
    let taken = state.plugins.take(tag::<TestPlugin>()).unwrap();
    assert_eq!(state.update(), Ok(()));
    assert!(matches!(taken, Plugins::Test(TestPlugin(3))));

    assert_eq!(state.end_hook(taken, Err(String::from("late"))), Err(String::from("late")));
    assert_eq!(state.plugins.get::<TestPlugin>(), Some(&TestPlugin(3)));
    let taken = state.plugins.take(tag::<TestPlugin>()).unwrap();
    assert_eq!(state.end_hook(taken, Ok(())), Ok(()));
    assert_eq!(state.plugins.free(), vec![tag::<TestPlugin>()]);
}

#[test]
fn on_load_runs_every_load_hook_once() {
    let mut state: StateManager<Plugins> = StateManager::new();
    state.plugins.insert(Watcher::default());
    state.plugins.insert(KeybindPlugin::<Ev>::new());
    state.on_load().unwrap();

    assert_eq!(state.plugins.get::<Watcher>().unwrap().loads, 1);
    state.events.swap_buffers();
    assert_eq!(state.events.read::<RegisterKeybind<Ev>>().len(), 6);
}

#[test]
fn draw_goes_by_layer_and_then_by_registration() {
    let mut state: StateManager<Plugins> = StateManager::new();
    state.plugins.insert(Painter { name: "painter", layer: 5 });
    state.plugins.insert(TestPlugin(0));
    state.plugins.insert(Overlay { layer: 5 });
    state.plugins.insert(Backdrop { layer: 1 });

    let mut frame = Vec::new();
    state.draw(&mut frame, Rect { x: 0, y: 0, width: 80, height: 24 });
    assert_eq!(frame, ["backdrop", "painter", "overlay"]);

    let views = state.plugins.views();
    assert_eq!(draw_order(&views), vec![1, 3, 0, 2]);
}

#[test]
fn draw_passes_over_a_plugin_that_is_held_exclusively() {
    let mut state: StateManager<Plugins> = StateManager::new();
    state.plugins.insert(Painter { name: "painter", layer: 5 });
    state.plugins.insert(Backdrop { layer: 1 });
    let taken = state.plugins.take(tag::<Backdrop>()).unwrap();

    let mut frame = Vec::new();
    state.draw(&mut frame, Rect { x: 0, y: 0, width: 1, height: 1 });
    assert_eq!(frame, ["painter"]);
    assert_eq!(draw_order(&state.plugins.views()), vec![0]);
    assert!(state.plugins.put(taken).is_none());
}

#[test]
fn draw_order_of_nothing_is_empty() {
    let views: Vec<Option<&Plugins>> = vec![None, None];
    assert!(draw_order(&views).is_empty());
    let none: Vec<Option<&Plugins>> = Vec::new();
    assert!(draw_order(&none).is_empty());
}

fn keys_of(state: &StateManager<Plugins>) -> Vec<(Vec<KeyBind>, Vec<String>)> {
    let plugin = state.plugins.get::<KeybindPlugin<Ev>>().unwrap();
    plugin
        .bindings()
        .iter()
        .map(|row| (row.chord.keys.clone(), row.events.iter().map(|event| event.render()).collect()))
        .collect()
}

#[test]
fn a_registration_made_twice_is_taken_up_once() {
    let mut state = keys_state();
    state.events.dispatch(RegisterKeybind::<Ev>::single_key(key(KeyCode::Up), TestEvent::Foo));
    state.events.dispatch(RegisterKeybind::<Ev>::single_key(key(KeyCode::Up), TestEvent::Foo));
    state.events.swap_buffers();
    state.update().unwrap();
    assert_eq!(keys_of(&state), vec![(vec![key(KeyCode::Up)], vec![String::from("Foo")])]);

    state.events.dispatch(RegisterKeybind::<Ev>::single_key(key(KeyCode::Up), TestEvent::Foo));
    state.events.swap_buffers();
    state.update().unwrap();
    assert_eq!(keys_of(&state), vec![(vec![key(KeyCode::Up)], vec![String::from("Foo")])]);

    press(&mut state, KeyCode::Up);
    state.events.swap_buffers();
    assert_eq!(read_test_events(&state), [TestEvent::Foo]);
}

#[test]
fn an_event_that_is_bound_is_not_bound_to_another_chord() {
    let mut state = keys_state();
    state.events.dispatch(RegisterKeybind::<Ev>::single_key(key(KeyCode::Up), TestEvent::Foo));
    state.events.dispatch(RegisterKeybind::<Ev>::single_key(key(KeyCode::Down), TestEvent::Foo));
    state.events.dispatch(RegisterKeybind::<Ev>::single_key(key(KeyCode::Up), TestEvent::Bar));
    state.events.swap_buffers();
    state.update().unwrap();

    assert_eq!(
        keys_of(&state),
        vec![(vec![key(KeyCode::Up)], vec![String::from("Foo"), String::from("Bar")])]
    );
    press(&mut state, KeyCode::Up);
    state.events.swap_buffers();
    assert_eq!(read_test_events(&state), [TestEvent::Foo, TestEvent::Bar]);
}

#[test]
fn a_single_key_fires_at_once_and_a_longer_chord_wins_over_its_beginning() {
    let mut state = keys_state();
    state.events.dispatch(RegisterKeybind::<Ev>::single_key(key(KeyCode::Up), TestEvent::Foo));
    state.events.swap_buffers();
    state.update().unwrap();
    press(&mut state, KeyCode::Up);
    state.events.swap_buffers();
    assert_eq!(read_test_events(&state), [TestEvent::Foo]);

    let mut state = keys_state();
    state.events.dispatch(RegisterKeybind::<Ev>::single_key(key(KeyCode::Up), TestEvent::Foo));
    state.events.dispatch(RegisterKeybind::<Ev>::chord(
        vec![key(KeyCode::Up), key(KeyCode::Down)],
        TestEvent::Bar,
    ));
    state.events.swap_buffers();
    state.update().unwrap();
    press(&mut state, KeyCode::Up);
    press(&mut state, KeyCode::Down);
    state.events.swap_buffers();
    assert_eq!(read_test_events(&state), [TestEvent::Bar]);
    press(&mut state, KeyCode::Left);
    state.events.swap_buffers();
    assert_eq!(read_test_events(&state), []);
}

#[test]
fn an_abandoned_chord_is_silent_and_the_next_key_starts_afresh() {
    let mut state = keys_state();
    state.events.dispatch(RegisterKeybind::<Ev>::chord(
        vec![key(KeyCode::Up), key(KeyCode::Down)],
        TestEvent::Foo,
    ));
    state.events.swap_buffers();
    state.update().unwrap();

    press(&mut state, KeyCode::Up);
    press(&mut state, KeyCode::Left);
    state.events.swap_buffers();
    assert_eq!(read_test_events(&state), []);
    assert!(state.plugins.get::<KeybindPlugin<Ev>>().unwrap().cursor().is_empty());

    press(&mut state, KeyCode::Up);
    press(&mut state, KeyCode::Down);
    state.events.swap_buffers();
    assert_eq!(read_test_events(&state), [TestEvent::Foo]);
}

#[test]
fn the_key_that_ends_a_chord_half_way_is_not_tried_again() {
    let mut state = keys_state();
    state.events.dispatch(RegisterKeybind::<Ev>::chord(
        vec![key(KeyCode::Up), key(KeyCode::Down)],
        TestEvent::Bar,
    ));
    state.events.dispatch(RegisterKeybind::<Ev>::single_key(key(KeyCode::Left), TestEvent::Foo));
    state.events.swap_buffers();
    state.update().unwrap();

    press(&mut state, KeyCode::Up);
    press(&mut state, KeyCode::Left);
    state.events.swap_buffers();
    assert_eq!(read_test_events(&state), []);

    press(&mut state, KeyCode::Left);
    state.events.swap_buffers();
    assert_eq!(read_test_events(&state), [TestEvent::Foo]);
}

#[test]
fn a_chord_that_interrupts_another_has_to_be_started_again() {
    let mut state = keys_state();
    state.events.dispatch(RegisterKeybind::<Ev>::chord(
        vec![key(KeyCode::Up), key(KeyCode::Down)],
        TestEvent::Bar,
    ));
    state.events.dispatch(RegisterKeybind::<Ev>::chord(
        vec![key(KeyCode::Left), key(KeyCode::Right)],
        TestEvent::Foo,
    ));
    state.events.swap_buffers();
    state.update().unwrap();

    press(&mut state, KeyCode::Up);
    press(&mut state, KeyCode::Left);
    press(&mut state, KeyCode::Right);
    state.events.swap_buffers();
    assert_eq!(read_test_events(&state), []);

    press(&mut state, KeyCode::Left);
    press(&mut state, KeyCode::Right);
    state.events.swap_buffers();
    assert_eq!(read_test_events(&state), [TestEvent::Foo]);
}

#[test]
fn a_chord_that_fires_at_a_dead_end_gives_the_key_a_second_try() {
    let mut state = keys_state();
    state.events.ensure_event::<MenuEvent>();
    state.events.dispatch(RegisterKeybind::<Ev>::single_key(key(KeyCode::Up), TestEvent::Foo));
    state.events.dispatch(RegisterKeybind::<Ev>::chord(
        vec![key(KeyCode::Up), key(KeyCode::Down)],
        TestEvent::Bar,
    ));
    state.events.dispatch(RegisterKeybind::<Ev>::single_key(key(KeyCode::Left), MenuEvent::Left));
    state.events.dispatch(RegisterKeybind::<Ev>::chord(
        vec![key(KeyCode::Right), key(KeyCode::Right)],
        MenuEvent::Right,
    ));
    state.events.swap_buffers();
    state.update().unwrap();

    press(&mut state, KeyCode::Up);
    press(&mut state, KeyCode::Left);
    state.events.swap_buffers();
    assert_eq!(read_test_events(&state), [TestEvent::Foo]);
    assert_eq!(state.events.read::<MenuEvent>(), [&MenuEvent::Left]);

    press(&mut state, KeyCode::Up);
    press(&mut state, KeyCode::Right);
    state.events.swap_buffers();
    assert_eq!(read_test_events(&state), [TestEvent::Foo]);
    press(&mut state, KeyCode::Right);
    state.events.swap_buffers();
    assert_eq!(state.events.read::<MenuEvent>(), [&MenuEvent::Right]);
}

#[test]
fn a_modifier_key_alone_does_not_interrupt_a_chord() {
    let mut state = keys_state();
    state.events.dispatch(RegisterKeybind::<Ev>::chord(
        vec![key(KeyCode::Up), KeyBind { modifiers: KeyModifiers::shift(), key: KeyCode::Down }],
        TestEvent::Foo,
    ));
    state.events.swap_buffers();
    state.update().unwrap();

    press(&mut state, KeyCode::Up);
    state.events.dispatch(KeydownEvent(KeyEvent {
        modifiers: KeyModifiers::shift(),
        code: KeyCode::Modifier(ModifierKeyCode::LeftShift),
    }));
    state.events.dispatch(KeydownEvent(KeyEvent {
        modifiers: KeyModifiers::shift(),
        code: KeyCode::Down,
    }));
    state.events.swap_buffers();
    state.update().unwrap();
    state.events.swap_buffers();
    assert_eq!(read_test_events(&state), [TestEvent::Foo]);
}

#[test]
fn modifiers_have_to_match_exactly() {
    let mut state = keys_state();
    state.events.dispatch(RegisterKeybind::<Ev>::single_key(
        KeyBind { modifiers: KeyModifiers::control(), key: KeyCode::Char('w') },
        TestEvent::Foo,
    ));
    state.events.swap_buffers();
    state.update().unwrap();

    press(&mut state, KeyCode::Char('w'));
    state.events.dispatch(KeydownEvent(KeyEvent {
        modifiers: KeyModifiers { bits: 3 },
        code: KeyCode::Char('w'),
    }));
    state.events.swap_buffers();
    state.update().unwrap();
    state.events.swap_buffers();
    assert_eq!(read_test_events(&state), []);

    state.events.dispatch(KeydownEvent(KeyEvent {
        modifiers: KeyModifiers::control(),
        code: KeyCode::Char('w'),
    }));
    state.events.swap_buffers();
    state.update().unwrap();
    state.events.swap_buffers();
    assert_eq!(read_test_events(&state), [TestEvent::Foo]);
}

#[test]
fn a_locked_dispatcher_passes_every_key_over() {
    let mut state = keys_state();
    state.events.dispatch(RegisterKeybind::<Ev>::single_key(key(KeyCode::Up), TestEvent::Foo));
    state.events.swap_buffers();
    state.update().unwrap();

    state.events.dispatch(LockKeybindings(false));
    state.events.dispatch(LockKeybindings(true));
    press(&mut state, KeyCode::Up);
    state.events.swap_buffers();
    assert_eq!(read_test_events(&state), []);
    assert!(!state.plugins.get::<KeybindPlugin<Ev>>().unwrap().enabled());

    press(&mut state, KeyCode::Up);
    state.events.swap_buffers();
    assert_eq!(read_test_events(&state), []);

    state.events.dispatch(LockKeybindings(false));
    press(&mut state, KeyCode::Up);
    state.events.swap_buffers();
    assert_eq!(read_test_events(&state), [TestEvent::Foo]);
}

#[test]
fn a_rebound_event_moves_to_its_new_chord() {
    let mut state = keys_state();
    state.events.dispatch(RegisterKeybind::<Ev>::single_key(key(KeyCode::Up), TestEvent::Foo));
    state.events.dispatch(RegisterKeybind::<Ev>::single_key(key(KeyCode::Left), TestEvent::Bar));
    state.events.swap_buffers();
    state.update().unwrap();

    state.events.dispatch(RebindKeybind {
        bind: Chord { keys: vec![key(KeyCode::Down), key(KeyCode::Down)] },
        event: String::from("Foo"),
    });
    state.events.swap_buffers();
    state.update().unwrap();
    assert_eq!(
        keys_of(&state),
        vec![
            (vec![key(KeyCode::Left)], vec![String::from("Bar")]),
            (vec![key(KeyCode::Down), key(KeyCode::Down)], vec![String::from("Foo")]),
        ]
    );

    press(&mut state, KeyCode::Up);
    state.events.swap_buffers();
    assert_eq!(read_test_events(&state), []);
    press(&mut state, KeyCode::Down);
    press(&mut state, KeyCode::Down);
    state.events.swap_buffers();
    assert_eq!(read_test_events(&state), [TestEvent::Foo]);
}

#[test]
fn update_tells_when_the_table_is_due_to_be_saved() {
    let mut plugin: KeybindPlugin<Ev> = KeybindPlugin::new();
    let mut events: EventManager<Ev> = EventManager::new();
    assert!(!plugin.update(&mut events));

    events.dispatch(RegisterKeybind::<Ev>::single_key(key(KeyCode::Up), TestEvent::Foo));
    events.swap_buffers();
    assert!(plugin.update(&mut events));
    assert!(!plugin.update(&mut events));
    events.swap_buffers();

    events.dispatch(RebindKeybind { bind: Chord::single(key(KeyCode::Up)), event: String::from("Nothing") });
    events.dispatch(DeleteKeybind(Chord::single(key(KeyCode::Down))));
    events.dispatch(RegisterKeybind::<Ev>::single_key(key(KeyCode::Left), TestEvent::Foo));
    events.swap_buffers();
    assert!(!plugin.update(&mut events));
    assert_eq!(plugin.bindings().len(), 1);

    events.dispatch(DeleteKeybind(Chord::single(key(KeyCode::Up))));
    events.swap_buffers();
    assert!(plugin.update(&mut events));
    assert!(plugin.bindings().is_empty());
}

#[test]
fn a_change_of_the_table_sends_the_cursor_back_to_the_root() {
    let mut state = keys_state();
    state.events.dispatch(RegisterKeybind::<Ev>::chord(
        vec![key(KeyCode::Up), key(KeyCode::Down)],
        TestEvent::Foo,
    ));
    state.events.swap_buffers();
    state.update().unwrap();
    press(&mut state, KeyCode::Up);
    assert_eq!(state.plugins.get::<KeybindPlugin<Ev>>().unwrap().cursor().len(), 1);

    state.events.dispatch(RegisterKeybind::<Ev>::single_key(key(KeyCode::Left), TestEvent::Bar));
    press(&mut state, KeyCode::Down);
    state.events.swap_buffers();
    assert_eq!(read_test_events(&state), []);
}

#[test]
fn press_returns_what_it_emits() {
    let mut plugin: KeybindPlugin<Ev> = KeybindPlugin::new();
    let up = RegisterKeybind::<Ev>::single_key(key(KeyCode::Up), TestEvent::Foo);
    let up_down = RegisterKeybind::<Ev>::chord(vec![key(KeyCode::Up), key(KeyCode::Down)], TestEvent::Bar);
    let none = RegisterKeybind::<Ev>::chord(vec![], MenuEvent::Up);
    assert!(plugin.apply(&vec![], &vec![&up, &up_down, &none], &vec![]));
    assert_eq!(plugin.bindings().len(), 3);

    assert!(plugin.press(key(KeyCode::Up)).is_empty());
    assert_eq!(plugin.cursor(), &vec![key(KeyCode::Up).code()]);
    let emitted = plugin.press(key(KeyCode::Up));
    assert_eq!(emitted.len(), 1);
    assert!(matches!(emitted[0], Ev::Test(TestEvent::Foo)));
    assert_eq!(plugin.cursor(), &vec![key(KeyCode::Up).code()]);

    let emitted = plugin.press(key(KeyCode::Down));
    assert!(matches!(emitted[..], [Ev::Test(TestEvent::Bar)]));
    assert!(plugin.cursor().is_empty());
    assert!(plugin.press(key(KeyCode::Down)).is_empty());

    let emitted = plugin.press_all(&vec![key(KeyCode::Up), key(KeyCode::Down), key(KeyCode::Up), key(KeyCode::Left)]);
    assert!(matches!(emitted[..], [Ev::Test(TestEvent::Bar), Ev::Test(TestEvent::Foo)]));
    assert!(plugin.cursor().is_empty());
}

#[test]
fn a_dispatcher_without_bindings_emits_nothing() {
    let mut plugin: KeybindPlugin<Ev> = KeybindPlugin::new();
    assert!(plugin.bindings().is_empty());
    assert!(plugin.enabled());
    assert!(plugin.press(key(KeyCode::Up)).is_empty());
    assert!(plugin.press(key(KeyCode::Up)).is_empty());
    assert!(plugin.cursor().is_empty());
    assert!(plugin.press_all(&vec![key(KeyCode::Char('a')), key(KeyCode::Enter)]).is_empty());
    assert!(!plugin.apply(&vec![], &vec![], &vec![]));
}

#[test]
fn menu_events_are_events_of_their_own_bus() {
    let mut plugin: KeybindPlugin<MenuEvent> = KeybindPlugin::new();
    let up = RegisterKeybind::<MenuEvent>::single_key(key(KeyCode::Char('k')), MenuEvent::Up);
    let down = RegisterKeybind::<MenuEvent>::chord(
        vec![key(KeyCode::Char('k')), key(KeyCode::Char('j'))],
        MenuEvent::Down,
    );
    let again = RegisterKeybind::<MenuEvent>::single_key(key(KeyCode::Char('u')), MenuEvent::Up);
    assert!(plugin.apply(&vec![], &vec![&up, &down, &again], &vec![]));
    assert_eq!(plugin.bindings().len(), 2);

    assert_eq!(plugin.press(key(KeyCode::Char('k'))), vec![]);
    assert_eq!(plugin.press(key(KeyCode::Char('j'))), vec![MenuEvent::Down]);
    assert_eq!(plugin.press(key(KeyCode::Char('k'))), vec![]);
    assert_eq!(plugin.press(key(KeyCode::Char('u'))), vec![MenuEvent::Up]);
    assert_eq!(MenuEvent::Select.type_tag(), arcane::keybindings::MENU_EVENT);
    assert_eq!(BindResult::render(&MenuEvent::Select), "Menu::Select");
    assert_eq!(MenuEvent::AltSelect.clone_box(), MenuEvent::AltSelect);

    let mut events: EventManager<MenuEvent> = EventManager::new();
    events.dispatch(MenuEvent::Left);
    assert!(events.dispatch_raw(MenuEvent::Right));
    events.swap_buffers();
    assert_eq!(events.read::<MenuEvent>(), [&MenuEvent::Left, &MenuEvent::Right]);
    assert_eq!(events.read_raw(arcane::keybindings::MENU_EVENT), [MenuEvent::Left, MenuEvent::Right]);
}

#[test]
fn an_emitted_event_without_a_queue_is_dropped() {
    let mut state: StateManager<Plugins> = StateManager::new();
    state.plugins.insert(KeybindPlugin::<Ev>::new());
    state.events.dispatch(RegisterKeybind::<Ev>::single_key(key(KeyCode::Up), TestEvent::Foo));
    state.events.swap_buffers();
    state.update().unwrap();

    press(&mut state, KeyCode::Up);
    state.events.swap_buffers();
    assert_eq!(read_test_events(&state), []);
}

#[test]
fn the_dispatcher_starts_with_the_menu_bindings() {
    let mut state: StateManager<Plugins> = StateManager::new();
    state.plugins.insert(KeybindPlugin::<Ev>::new());
    state.on_load().unwrap();
    state.events.swap_buffers();
    state.update().unwrap();

    let char_key = |c: char| vec![key(KeyCode::Char(c))];
    assert_eq!(
        keys_of(&state),
        vec![
            (char_key('h'), vec![String::from("Menu::Left")]),
            (char_key('l'), vec![String::from("Menu::Right")]),
            (char_key('j'), vec![String::from("Menu::Down")]),
            (char_key('k'), vec![String::from("Menu::Up")]),
            (vec![key(KeyCode::Enter)], vec![String::from("Menu::Select")]),
            (
                vec![KeyBind { modifiers: KeyModifiers::shift(), key: KeyCode::Enter }],
                vec![String::from("Menu::Alt Select")],
            ),
        ]
    );

    press(&mut state, KeyCode::Char('j'));
    state.events.dispatch(KeydownEvent(KeyEvent { modifiers: KeyModifiers::shift(), code: KeyCode::Enter }));
    state.events.swap_buffers();
    state.update().unwrap();
    state.events.swap_buffers();
    assert_eq!(state.events.read::<MenuEvent>(), [&MenuEvent::AltSelect]);
}

#[test]
fn a_loaded_table_keeps_the_last_row_of_each_chord() {
    let mut plugin: KeybindPlugin<Ev> = KeybindPlugin::new();
    let up = RegisterKeybind::<Ev>::single_key(key(KeyCode::Up), TestEvent::Foo);
    assert!(plugin.apply(&vec![], &vec![&up], &vec![]));
    assert!(plugin.press(key(KeyCode::Down)).is_empty());

    plugin.load(vec![
        Binding { chord: Chord::single(key(KeyCode::Left)), events: vec![Ev::Test(TestEvent::Foo)] },
        Binding { chord: Chord { keys: vec![] }, events: vec![Ev::Menu(MenuEvent::Up)] },
        Binding { chord: Chord::single(key(KeyCode::Right)), events: vec![Ev::Menu(MenuEvent::Down)] },
        Binding { chord: Chord::single(key(KeyCode::Left)), events: vec![Ev::Test(TestEvent::Bar)] },
    ]);
    assert_eq!(plugin.bindings().len(), 3);
    assert!(matches!(plugin.press(key(KeyCode::Left))[..], [Ev::Test(TestEvent::Bar)]));
    assert!(matches!(plugin.press(key(KeyCode::Right))[..], [Ev::Menu(MenuEvent::Down)]));
    assert!(plugin.press(key(KeyCode::Up)).is_empty());
}

#[test]
fn the_dispatcher_is_a_plugin_of_its_own() {
    let mut state: StateManager<KeybindPlugin<Ev>> = StateManager::new();
    state.plugins.insert_raw(KeybindPlugin::new());
    assert_eq!(state.plugins.keys(), vec![arcane::keybindings::KEYBIND_PLUGIN]);
    state.on_load().unwrap();
    state.events.swap_buffers();
    state.update().unwrap();
    assert_eq!(state.plugins.get_raw(arcane::keybindings::KEYBIND_PLUGIN).unwrap().bindings().len(), 6);

    state.events.dispatch(KeydownEvent(KeyEvent { modifiers: KeyModifiers::none(), code: KeyCode::Char('h') }));
    state.events.swap_buffers();
    state.update().unwrap();
    state.events.swap_buffers();
    assert_eq!(state.events.read::<MenuEvent>(), [&MenuEvent::Left]);
    state.draw(&mut (), Rect { x: 0, y: 0, width: 0, height: 0 });
}

#[test]
fn a_table_that_is_saved_loads_back_as_it_was() {
    let mut plugin: KeybindPlugin<Ev> = KeybindPlugin::new();
    let first = RegisterKeybind::<Ev>::single_key(key(KeyCode::Up), TestEvent::Foo);
    let second = RegisterKeybind::<Ev>::chord(vec![key(KeyCode::Up), key(KeyCode::Char('x'))], TestEvent::Bar);
    let third = RegisterKeybind::<Ev>::single_key(key(KeyCode::Up), MenuEvent::Select);
    assert!(plugin.apply(&vec![], &vec![&first, &second, &third], &vec![]));
    let listed = |plugin: &KeybindPlugin<Ev>| -> Vec<(Vec<u64>, Vec<String>)> {
        plugin
            .bindings()
            .iter()
            .map(|row| (row.chord.codes(), row.events.iter().map(|event| event.render()).collect()))
            .collect()
    };
    let before = listed(&plugin);
    assert_eq!(before.len(), 2);

    let saved: Vec<Binding<Ev>> = plugin
        .bindings()
        .iter()
        .map(|row| Binding {
            chord: Chord::from_codes(&row.chord.codes()).unwrap(),
            events: row.events.iter().map(|event| event.clone_box()).collect(),
        })
        .collect();
    let mut restored: KeybindPlugin<Ev> = KeybindPlugin::new();
    restored.load(saved);
    assert_eq!(listed(&restored), before);
    assert!(restored.press(key(KeyCode::Up)).is_empty());
    assert!(matches!(restored.press(key(KeyCode::Char('x')))[..], [Ev::Test(TestEvent::Bar)]));
}

#[test]
fn only_a_modifier_key_with_its_own_modifier_is_a_modifier_press() {
    let press = |bits: u8, key: KeyCode| KeyBind { modifiers: KeyModifiers { bits }, key };
    assert!(press(1, KeyCode::Modifier(ModifierKeyCode::LeftShift)).is_only_modifiers());
    assert!(press(1, KeyCode::Modifier(ModifierKeyCode::RightShift)).is_only_modifiers());
    assert!(press(2, KeyCode::Modifier(ModifierKeyCode::RightControl)).is_only_modifiers());
    assert!(press(4, KeyCode::Modifier(ModifierKeyCode::LeftAlt)).is_only_modifiers());
    assert!(press(8, KeyCode::Modifier(ModifierKeyCode::RightSuper)).is_only_modifiers());
    assert!(press(16, KeyCode::Modifier(ModifierKeyCode::LeftHyper)).is_only_modifiers());
    assert!(press(32, KeyCode::Modifier(ModifierKeyCode::RightMeta)).is_only_modifiers());
    assert!(!press(0, KeyCode::Modifier(ModifierKeyCode::LeftShift)).is_only_modifiers());
    assert!(!press(3, KeyCode::Modifier(ModifierKeyCode::LeftShift)).is_only_modifiers());
    assert!(!press(2, KeyCode::Modifier(ModifierKeyCode::LeftShift)).is_only_modifiers());
    assert!(!press(1, KeyCode::Modifier(ModifierKeyCode::IsoLevel3Shift)).is_only_modifiers());
    assert!(!press(1, KeyCode::Char('a')).is_only_modifiers());
    assert!(!press(0, KeyCode::Enter).is_only_modifiers());
}

#[test]
fn every_press_has_a_number_of_its_own() {
    assert_eq!(key(KeyCode::Backspace).code(), 0);
    assert_eq!(key(KeyCode::Enter).code(), 1 << 32);
    assert_eq!(key(KeyCode::F(12)).code(), (14 << 32) + 12);
    assert_eq!(key(KeyCode::Char('a')).code(), (15 << 32) + 97);
    assert_eq!(key(KeyCode::Modifier(ModifierKeyCode::IsoLevel5Shift)).code(), (26 << 32) + 13);
    assert_eq!(
        KeyBind { modifiers: KeyModifiers::control(), key: KeyCode::Char('a') }.code(),
        (2 << 40) + (15 << 32) + 97
    );
    assert_eq!(
        KeyBind { modifiers: KeyModifiers { bits: 255 }, key: KeyCode::Char(char::MAX) }.code(),
        (255 << 40) + (15 << 32) + 0x10FFFF
    );
    assert_ne!(key(KeyCode::F(1)).code(), key(KeyCode::Char('\u{1}')).code());
    assert_ne!(key(KeyCode::Pause).code(), key(KeyCode::Media(arcane::keys::MediaKeyCode::Pause)).code());
}

#[test]
fn a_number_gives_its_press_back() {
    let presses = [
        key(KeyCode::Backspace),
        key(KeyCode::KeypadBegin),
        key(KeyCode::F(255)),
        key(KeyCode::Char('\u{D7FF}')),
        key(KeyCode::Char('\u{E000}')),
        key(KeyCode::Char(char::MAX)),
        key(KeyCode::Media(arcane::keys::MediaKeyCode::MuteVolume)),
        key(KeyCode::Modifier(ModifierKeyCode::IsoLevel5Shift)),
        KeyBind { modifiers: KeyModifiers { bits: 255 }, key: KeyCode::Null },
    ];
    for press in presses {
        assert_eq!(KeyBind::from_code(press.code()), Some(press));
    }
    assert_eq!(KeyBind::from_code((15 << 32) + 0xD800), None);
    assert_eq!(KeyBind::from_code((15 << 32) + 0x110000), None);
    assert_eq!(KeyBind::from_code((14 << 32) + 256), None);
    assert_eq!(KeyBind::from_code((4 << 32) + 1), None);
    assert_eq!(KeyBind::from_code(27 << 32), None);
    assert_eq!(KeyBind::from_code((25 << 32) + 13), None);
    assert_eq!(KeyBind::from_code((26 << 32) + 14), None);
    assert_eq!(KeyBind::from_code(256 << 40), None);
    assert_eq!(KeyBind::from_code(u64::MAX), None);

    let chord = Chord { keys: vec![key(KeyCode::Up), key(KeyCode::Char('x'))] };
    assert_eq!(Chord::from_codes(&chord.codes()), Some(chord));
    assert_eq!(Chord::from_codes(&vec![]), Some(Chord { keys: vec![] }));
    assert_eq!(Chord::from_codes(&vec![4 << 32, 27 << 32]), None);
}

#[test]
fn modifiers_are_single_bits() {
    assert!(KeyModifiers::none().is_empty());
    assert_eq!(KeyModifiers::shift().bits, arcane::keys::SHIFT);
    assert_eq!(KeyModifiers::control().bits, arcane::keys::CONTROL);
    assert_eq!(KeyModifiers::alt().bits, arcane::keys::ALT);
    assert_eq!(KeyModifiers::super_key().bits, arcane::keys::SUPER);
    assert_eq!(KeyModifiers::hyper().bits, arcane::keys::HYPER);
    assert_eq!(KeyModifiers::meta().bits, arcane::keys::META);
    assert!(!KeyModifiers::alt().is_empty());
    assert_eq!(
        [arcane::keys::SHIFT, arcane::keys::CONTROL, arcane::keys::ALT, arcane::keys::SUPER, arcane::keys::HYPER, arcane::keys::META],
        [1, 2, 4, 8, 16, 32]
    );
}

#[test]
fn chords_compare_press_by_press() {
    let up_down = Chord { keys: vec![key(KeyCode::Up), key(KeyCode::Down)] };
    assert!(up_down.same(&up_down.duplicate()));
    assert_eq!(up_down.duplicate(), up_down);
    assert!(!up_down.same(&Chord::single(key(KeyCode::Up))));
    assert!(!up_down.same(&Chord { keys: vec![key(KeyCode::Up), key(KeyCode::Up)] }));
    assert!(Chord { keys: vec![] }.same(&Chord { keys: vec![] }));
    assert_eq!(up_down.len(), 2);
    assert_eq!(up_down.codes(), vec![4 << 32, 5 << 32]);
    assert_eq!(Chord::single(key(KeyCode::Up)).keys, vec![key(KeyCode::Up)]);
}

#[test]
fn menu_events_render_as_they_are_listed() {
    assert_eq!(MenuEvent::Left.render(), "Menu::Left");
    assert_eq!(MenuEvent::Right.render(), "Menu::Right");
    assert_eq!(MenuEvent::Up.render(), "Menu::Up");
    assert_eq!(MenuEvent::Down.render(), "Menu::Down");
    assert_eq!(MenuEvent::Select.render(), "Menu::Select");
    assert_eq!(MenuEvent::AltSelect.render(), "Menu::Alt Select");
}

#[test]
fn the_settings_plugin_takes_up_what_is_registered_once() {
    let mut state: StateManager<Plugins> = StateManager::new();
    state.plugins.insert(SettingsPlugin::<Settings>::new());
    assert_eq!(get_settings::<Plugins, Settings, Volume>(&state.plugins), None);

    state.events.dispatch(RegisterSettings(Settings::Volume(Volume { level: 3, muted: false })));
    state.events.dispatch(RegisterSettings(Settings::Volume(Volume { level: 9, muted: true })));
    state.events.swap_buffers();
    state.update().unwrap();
    assert_eq!(
        get_settings::<Plugins, Settings, Volume>(&state.plugins),
        Some(&Volume { level: 3, muted: false })
    );

    let taken = state.plugins.take(tag::<SettingsPlugin<Settings>>()).unwrap();
    assert_eq!(get_settings::<Plugins, Settings, Volume>(&state.plugins), None);
    assert!(state.plugins.put(taken).is_none());
}

#[test]
fn the_settings_plugin_tells_when_saving_is_asked_for() {
    let mut plugin: SettingsPlugin<Settings> = SettingsPlugin::new();
    let mut events: EventManager<Ev> = EventManager::new();
    assert!(!plugin.update(&events));
    events.dispatch(SaveSettings);
    assert!(!plugin.update(&events));
    events.swap_buffers();
    assert!(plugin.update(&events));
    assert_eq!(plugin.get::<Volume>(), None);
}

#[test]
fn the_values_of_settings_step_in_place() {
    let mut plugin: SettingsPlugin<Settings> = SettingsPlugin::new();
    plugin.settings.insert(Volume { level: 10, muted: false });
    let registered = RegisterSettings(Settings::Volume(Volume { level: 0, muted: false }));
    plugin.register(&vec![&registered]);

    for settings in plugin.settings.iter_mut() {
        assert_eq!(settings.name(), "Volume");
        for value in settings.values() {
            value.handle_settings_update(true);
        }
    }
    assert_eq!(plugin.get::<Volume>(), Some(&Volume { level: 9, muted: true }));
}

#[test]
fn the_editor_reports_time_and_keys_to_the_plugins() {
    let mut editor: Editor<Plugins> = Editor::new();
    editor.state.plugins.insert(KeybindPlugin::<Ev>::new());
    editor.state.plugins.insert(TestPlugin(1));
    editor.state.events.ensure_event::<MenuEvent>();
    editor.on_load().unwrap();
    editor.update(Duration::from_millis(16)).unwrap();
    assert_eq!(editor.state.events.read::<DeltaTimeEvent>().len(), 1);
    assert_eq!(editor.state.events.read::<DeltaTimeEvent>()[0].0, Duration::from_millis(16));
    assert_eq!(editor.state.plugins.get::<TestPlugin>(), Some(&TestPlugin(10)));

    editor.handle_key(KeyEvent { code: KeyCode::Char('k'), modifiers: KeyModifiers::none() });
    assert!(editor.state.events.read::<KeydownEvent>().is_empty());
    editor.update(Duration::from_millis(20)).unwrap();
    assert_eq!(editor.state.events.read::<KeydownEvent>().len(), 1);
    editor.tick(Duration::from_millis(1));
    assert_eq!(editor.state.events.read::<MenuEvent>(), [&MenuEvent::Up]);
    assert_eq!(editor.state.events.read::<DeltaTimeEvent>()[0].0, Duration::from_millis(1));

    let mut frame = Vec::new();
    editor.draw(&mut frame, Rect { x: 0, y: 0, width: 10, height: 10 });
    assert!(frame.is_empty());
}
