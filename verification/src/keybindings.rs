//! The keybinding dispatcher: key sequences bound to events, matched
//! against the stream of key presses one press at a time.

pub mod cursor;
pub mod table;

use crate::anymap::{Downcast, IntoBoxed, TypeTag};
use crate::events::{buffer_wf, queues, values_of, Bus, EventManager, EventWriter, RawEvent};
use crate::keybindings::cursor::{
    advance, ask, build_index, events_of, index_of, lemma_events_of, lemma_index_of, run, Answer,
};
use crate::keybindings::table::{
    changed, changes, distinct_chords, find_chord, install, install_all, lemma_nothing_rebound,
    lemma_nothing_registered, lemma_nothing_unbound, lemma_prune, prune_rows, rebind_all, rebind_one,
    rebinds_any, register_all, register_one, registers_any, rows, unbind_all, unbind_one, unbinds_any,
};
use crate::keys::{Chord, KeyBind, KeyCode, KeyModifiers};
use crate::plugins::{KeydownEvent, Plugin, Rect};
use crate::registry::PluginStore;
use crate::trie::{exact_match, trie_entries, KeyTrie};
use vstd::prelude::*;

verus! {

/// An erased event that a key sequence can be bound to: it can be copied,
/// and it renders as a text that identifies it.
pub trait BindResult: RawEvent {
    /// The text that identifies the event.
    spec fn identity(&self) -> String;

    /// Renders the text that identifies the event.
    fn render(&self) -> (text: String)
        ensures
            text@ == self.identity()@,
    ;

    /// Copies the event.
    fn clone_box(&self) -> (copy: Self)
        ensures
            copy == *self,
    ;
}

/// The events by which a menu is moved through.
#[derive(Clone, Copy, PartialEq, Eq, Structural, Debug)]
#[non_exhaustive]
pub enum MenuEvent {
    /// Move to the left.
    Left,
    /// Move to the right.
    Right,
    /// Move up.
    Up,
    /// Move down.
    Down,
    /// Select the entry.
    Select,
    /// Select the entry in the other way.
    AltSelect,
}

/// The tag of the type of the menu events.
pub const MENU_EVENT: TypeTag = 0x4d45_4e55;

impl MenuEvent {
    /// The text that identifies the event.
    pub open spec fn label(self) -> Seq<char> {
        match self {
            MenuEvent::Left => "Menu::Left"@,
            MenuEvent::Right => "Menu::Right"@,
            MenuEvent::Up => "Menu::Up"@,
            MenuEvent::Down => "Menu::Down"@,
            MenuEvent::Select => "Menu::Select"@,
            MenuEvent::AltSelect => "Menu::Alt Select"@,
        }
    }

    /// Renders the text that identifies the event.
    pub fn render(&self) -> (text: String)
        ensures
            text@ == self.label(),
    {
        match self {
            MenuEvent::Left => "Menu::Left".to_owned(),
            MenuEvent::Right => "Menu::Right".to_owned(),
            MenuEvent::Up => "Menu::Up".to_owned(),
            MenuEvent::Down => "Menu::Down".to_owned(),
            MenuEvent::Select => "Menu::Select".to_owned(),
            MenuEvent::AltSelect => "Menu::Alt Select".to_owned(),
        }
    }
}

impl Downcast for MenuEvent {
    open spec fn tag(&self) -> TypeTag {
        MENU_EVENT
    }

    fn type_tag(&self) -> (id: TypeTag) {
        MENU_EVENT
    }
}

impl RawEvent for MenuEvent {
    fn vec_type_id(&self) -> (id: TypeTag) {
        MENU_EVENT
    }
}

/// A bus that carries menu events only needs no other erased form: a menu
/// event is its own.
impl IntoBoxed<MenuEvent> for MenuEvent {
    open spec fn member_tag() -> TypeTag {
        MENU_EVENT
    }

    open spec fn boxed(self) -> MenuEvent {
        self
    }

    open spec fn unboxed(a: MenuEvent) -> Self {
        a
    }

    fn tag_of_type() -> (id: TypeTag) {
        MENU_EVENT
    }

    fn into(self) -> (a: MenuEvent) {
        self
    }

    fn downcast(this: &MenuEvent) -> (r: Option<&Self>) {
        Some(this)
    }

    fn downcast_mut(this: &mut MenuEvent) -> (r: Option<&mut Self>) {
        Some(this)
    }
}

impl BindResult for MenuEvent {
    closed spec fn identity(&self) -> String {
        choose|text: String| text@ == self.label()
    }

    fn render(&self) -> (text: String) {
        let text = MenuEvent::render(self);
        proof {
            assert(text@ == self.label());
        }
        text
    }

    fn clone_box(&self) -> (copy: Self) {
        *self
    }
}

/// Switches the dispatcher off (`true`) or on again (`false`).
#[derive(Clone, Copy, PartialEq, Eq, Structural, Debug)]
pub struct LockKeybindings(pub bool);

/// Asks the dispatcher to bind an event to a chord.
pub struct RegisterKeybind<E> {
    /// The chord that is to trigger the event.
    pub bind: Chord,
    /// The event that the chord is to emit.
    pub event: E,
}

/// Asks the dispatcher to move a bound event to another chord.
pub struct RebindKeybind {
    /// The chord that is to trigger the event from now on.
    pub bind: Chord,
    /// The text that identifies the event.
    pub event: String,
}

/// Asks the dispatcher to drop a chord with all the events bound to it.
pub struct DeleteKeybind(pub Chord);

impl<E> RegisterKeybind<E> {
    /// The request to bind `event` to the single press `key`.
    pub fn single_key<T: IntoBoxed<E>>(key: KeyBind, event: T) -> (r: Self) where E: Downcast
        ensures
            r.bind@ == seq![key],
            r.event == event.boxed(),
    {
        RegisterKeybind { bind: Chord::single(key), event: event.into() }
    }

    /// The request to bind `event` to the presses `keys`, made in that order.
    pub fn chord<T: IntoBoxed<E>>(keys: Vec<KeyBind>, event: T) -> (r: Self) where E: Downcast
        ensures
            r.bind@ == keys@,
            r.event == event.boxed(),
    {
        RegisterKeybind { bind: Chord { keys }, event: event.into() }
    }
}

/// One row of the keybinding table: a chord and the events bound to it.
pub struct Binding<E> {
    /// The chord that triggers the events.
    pub chord: Chord,
    /// The events, in the order in which they were bound.
    pub events: Vec<E>,
}

/// What one row of the keybinding table holds.
pub struct Row<E> {
    /// The presses of the chord.
    pub keys: Seq<KeyBind>,
    /// The events bound to the chord.
    pub events: Seq<E>,
}

impl<E> Binding<E> {
    /// What the row holds.
    pub open spec fn view(&self) -> Row<E> {
        Row { keys: self.chord@, events: self.events@ }
    }
}

/// Whether key presses are dispatched after the requests `locks`: the last
/// request decides, and without a request nothing changes.
pub open spec fn locked(enabled: bool, locks: Seq<LockKeybindings>) -> bool {
    if locks.len() == 0 {
        enabled
    } else {
        !locks.last().0
    }
}

/// The key presses that the events `presses` report.
pub open spec fn keys_of(presses: Seq<KeydownEvent>) -> Seq<KeyBind> {
    Seq::new(
        presses.len(),
        |i: int| KeyBind { modifiers: presses[i].0.modifiers, key: presses[i].0.code },
    )
}

/// The press of `key` without a modifier.
pub open spec fn plain(key: KeyCode) -> KeyBind {
    KeyBind { modifiers: KeyModifiers { bits: 0 }, key }
}

/// Whether `requests` are the bindings that every dispatcher starts with:
/// `h`, `l`, `j` and `k` move through a menu, enter selects, and enter with
/// shift selects in the other way.
pub open spec fn is_default_bindings<E: Downcast>(requests: Seq<RegisterKeybind<E>>) -> bool where
    MenuEvent: IntoBoxed<E>,
{
    &&& requests.len() == 6
    &&& requests[0].bind@ == seq![plain(KeyCode::Char('h'))]
    &&& requests[0].event == MenuEvent::Left.boxed()
    &&& requests[1].bind@ == seq![plain(KeyCode::Char('l'))]
    &&& requests[1].event == MenuEvent::Right.boxed()
    &&& requests[2].bind@ == seq![plain(KeyCode::Char('j'))]
    &&& requests[2].event == MenuEvent::Down.boxed()
    &&& requests[3].bind@ == seq![plain(KeyCode::Char('k'))]
    &&& requests[3].event == MenuEvent::Up.boxed()
    &&& requests[4].bind@ == seq![plain(KeyCode::Enter)]
    &&& requests[4].event == MenuEvent::Select.boxed()
    &&& requests[5].bind@ == seq![
        KeyBind { modifiers: KeyModifiers { bits: crate::keys::SHIFT }, key: KeyCode::Enter },
    ]
    &&& requests[5].event == MenuEvent::AltSelect.boxed()
}

/// The erased forms of `requests`.
pub open spec fn boxed_all<E: Downcast, T: IntoBoxed<E>>(requests: Seq<T>) -> Seq<E> {
    Seq::new(requests.len(), |i: int| requests[i].boxed())
}

/// The dispatcher: the keybinding table, the index built from it, and the
/// cursor that follows the key presses through the index.
pub struct KeybindPlugin<E: BindResult> {
    raw_bindings: Vec<Binding<E>>,
    trie: KeyTrie,
    pending: Vec<u64>,
    enabled: bool,
}

impl<E: BindResult> KeybindPlugin<E> {
    /// What the rows of the keybinding table hold.
    pub closed spec fn table(&self) -> Seq<Row<E>> {
        rows(self.raw_bindings@)
    }

    /// The presses that the cursor has taken since it left the root.
    pub closed spec fn pending(&self) -> Seq<u64> {
        self.pending@
    }

    /// Whether key presses are dispatched.
    pub closed spec fn is_enabled(&self) -> bool {
        self.enabled
    }

    /// The index in use.
    pub closed spec fn entries(&self) -> Map<Seq<u64>, usize> {
        trie_entries(self.trie)
    }

    /// What holds of every dispatcher: no chord has two rows, and the index
    /// in use is the index of the table.
    #[verifier::type_invariant]
    spec fn inv(&self) -> bool {
        &&& distinct_chords(rows(self.raw_bindings@))
        &&& trie_entries(self.trie) == index_of(rows(self.raw_bindings@))
    }

    /// No chord has two rows, and the index is the index of the table.
    pub open spec fn wf(&self) -> bool {
        &&& distinct_chords(self.table())
        &&& self.entries() == index_of(self.table())
    }

    /// Creates a dispatcher with an empty table that dispatches key presses.
    pub fn new() -> (plugin: Self)
        ensures
            plugin.wf(),
            plugin.table() == Seq::<Row<E>>::empty(),
            plugin.pending() == Seq::<u64>::empty(),
            plugin.is_enabled(),
    {
        let raw_bindings: Vec<Binding<E>> = Vec::new();
        let trie = build_index(&raw_bindings);
        let plugin = KeybindPlugin { raw_bindings, trie, pending: Vec::new(), enabled: true };
        proof {
            assert(plugin.table() =~= Seq::<Row<E>>::empty());
        }
        plugin
    }

    /// The rows of the keybinding table.
    pub fn bindings(&self) -> (r: &Vec<Binding<E>>)
        ensures
            rows(r@) == self.table(),
    {
        &self.raw_bindings
    }

    /// The presses that the cursor has taken since it left the root, each as
    /// one number.
    pub fn cursor(&self) -> (r: &Vec<u64>)
        ensures
            r@ == self.pending(),
    {
        &self.pending
    }

    /// Whether key presses are dispatched.
    pub fn enabled(&self) -> (r: bool)
        ensures
            r == self.is_enabled(),
    {
        self.enabled
    }

    /// Copies the events of the row `row` to the end of `out`.
    fn emit(&self, row: usize, out: &mut Vec<E>)
        requires
            row < self.table().len(),
        ensures
            final(out)@ == old(out)@ + self.table()[row as int].events,
    {
        let events = &self.raw_bindings[row].events;
        let mut i: usize = 0;
        while i < events.len()
            invariant
                i <= events@.len(),
                out@ == old(out)@ + events@.subrange(0, i as int),
            decreases events@.len() - i,
        {
            out.push(events[i].clone_box());
            proof {
                assert(events@.subrange(0, i + 1) =~= events@.subrange(0, i as int).push(
                    events@[i as int],
                ));
            }
            i += 1;
        }
        proof {
            assert(events@.subrange(0, i as int) =~= events@);
        }
    }

    /// Takes one key press. Returns copies of the events that the press
    /// emits, in the order of their emission.
    ///
    /// A press of a modifier key alone is passed over. Any other press moves
    /// the cursor as `advance` says.
    pub fn press(&mut self, key: KeyBind) -> (emitted: Vec<E>)
        ensures
            old(self).wf(),
            final(self).wf(),
            final(self).table() == old(self).table(),
            final(self).is_enabled() == old(self).is_enabled(),
            key.only_modifiers() ==> final(self).pending() == old(self).pending() && emitted@
                == Seq::<E>::empty(),
            !key.only_modifiers() ==> final(self).pending() == advance(
                old(self).entries(),
                old(self).pending(),
                key.spec_code() as u64,
            ).pending && emitted@ == events_of(
                old(self).table(),
                advance(old(self).entries(), old(self).pending(), key.spec_code() as u64).fired,
            ),
    {
        let mut out: Vec<E> = Vec::new();
        proof {
            use_type_invariant(&*self);
        }
        if key.is_only_modifiers() {
            return out;
        }
        let count = self.raw_bindings.len();
        proof {
            assert(self.table().len() == count);
            lemma_index_of(self.table());
        }
        let code = key.code();
        let mut pending: Vec<u64> = Vec::new();
        std::mem::swap(&mut self.pending, &mut pending);
        let ghost entries = self.entries();
        let ghost before = pending@;
        let sitting = if pending.len() > 0 {
            exact_match(&self.trie, &pending)
        } else {
            None
        };
        pending.push(code);
        let (said, found) = ask(&self.trie, &pending);
        match said {
            Some(Answer::Match) => {
                match found {
                    Some(row) => {
                        self.emit(row, &mut out);
                    },
                    None => {},
                }
                pending.clear();
                proof {
                    lemma_events_of(self.table(), entries[before.push(code)], 0);
                }
            },
            Some(_) => {
                proof {
                    lemma_events_of(self.table(), 0, 0);
                }
            },
            None => {
                pending.clear();
                match sitting {
                    Some(row) => {
                        self.emit(row, &mut out);
                        pending.push(code);
                        proof {
                            assert(pending@ =~= seq![code]);
                        }
                        let (said_again, found_again) = ask(&self.trie, &pending);
                        match said_again {
                            Some(Answer::Match) => {
                                match found_again {
                                    Some(next) => {
                                        self.emit(next, &mut out);
                                    },
                                    None => {},
                                }
                                pending.clear();
                                proof {
                                    lemma_events_of(self.table(), entries[before], entries[seq![code]]);
                                }
                            },
                            Some(_) => {
                                proof {
                                    lemma_events_of(self.table(), entries[before], 0);
                                }
                            },
                            None => {
                                pending.clear();
                                proof {
                                    lemma_events_of(self.table(), entries[before], 0);
                                }
                            },
                        }
                    },
                    None => {
                        proof {
                            lemma_events_of(self.table(), 0, 0);
                        }
                    },
                }
            },
        }
        std::mem::swap(&mut self.pending, &mut pending);
        out
    }
}

impl<E: BindResult> KeybindPlugin<E> {
    /// Takes up deletions, then registrations, then rebindings, each in its
    /// order. Where one of them changed a binding, the rows that are left
    /// without an event are dropped, the index is built anew and the cursor
    /// goes back to the root. Returns whether a binding was changed, which is
    /// when the table is due to be saved.
    pub fn apply(
        &mut self,
        deletions: &Vec<&DeleteKeybind>,
        registrations: &Vec<&RegisterKeybind<E>>,
        rebindings: &Vec<&RebindKeybind>,
    ) -> (modified: bool)
        ensures
            old(self).wf(),
            final(self).wf(),
            final(self).is_enabled() == old(self).is_enabled(),
            modified == changes(
                old(self).table(),
                values_of(deletions@),
                values_of(registrations@),
                values_of(rebindings@),
            ),
            final(self).table() == changed(
                old(self).table(),
                values_of(deletions@),
                values_of(registrations@),
                values_of(rebindings@),
            ),
            final(self).pending() == (if modified {
                Seq::empty()
            } else {
                old(self).pending()
            }),
    {
        proof {
            use_type_invariant(&*self);
        }
        let ghost start = self.table();
        let ghost dropped = values_of(deletions@);
        let ghost wanted = values_of(registrations@);
        let ghost moved = values_of(rebindings@);
        if deletions.len() == 0 && registrations.len() == 0 && rebindings.len() == 0 {
            return false;
        }
        let mut work = KeybindPlugin::new();
        std::mem::swap(self, &mut work);
        let KeybindPlugin { raw_bindings: mut table, trie, pending, enabled } = work;
        let mut unbound_any = false;
        let mut h: usize = 0;
        while h < deletions.len()
            invariant
                h <= deletions@.len(),
                dropped == values_of(deletions@),
                distinct_chords(rows(table@)),
                rows(table@) == unbind_all(start, dropped.subrange(0, h as int)),
                unbound_any == unbinds_any(start, dropped.subrange(0, h as int)),
            decreases deletions@.len() - h,
        {
            proof {
                assert(dropped.subrange(0, h + 1).drop_last() =~= dropped.subrange(0, h as int));
                assert(dropped.subrange(0, h + 1).last() == *deletions@[h as int]);
            }
            let found = unbind_one(&mut table, deletions[h]);
            if found {
                unbound_any = true;
            }
            h += 1;
        }
        proof {
            assert(dropped.subrange(0, h as int) =~= dropped);
        }
        let ghost cleared = rows(table@);
        let mut bound_any = false;
        let mut i: usize = 0;
        while i < registrations.len()
            invariant
                i <= registrations@.len(),
                wanted == values_of(registrations@),
                distinct_chords(rows(table@)),
                rows(table@) == register_all(cleared, wanted.subrange(0, i as int)),
                bound_any == registers_any(cleared, wanted.subrange(0, i as int)),
            decreases registrations@.len() - i,
        {
            proof {
                assert(wanted.subrange(0, i + 1).drop_last() =~= wanted.subrange(0, i as int));
                assert(wanted.subrange(0, i + 1).last() == *registrations@[i as int]);
            }
            let bound = register_one(&mut table, registrations[i]);
            if bound {
                bound_any = true;
            }
            i += 1;
        }
        proof {
            assert(wanted.subrange(0, i as int) =~= wanted);
        }
        let ghost middle = rows(table@);
        let mut found_any = false;
        let mut j: usize = 0;
        while j < rebindings.len()
            invariant
                j <= rebindings@.len(),
                moved == values_of(rebindings@),
                distinct_chords(rows(table@)),
                rows(table@) == rebind_all(middle, moved.subrange(0, j as int)),
                found_any == rebinds_any(middle, moved.subrange(0, j as int)),
            decreases rebindings@.len() - j,
        {
            proof {
                assert(moved.subrange(0, j + 1).drop_last() =~= moved.subrange(0, j as int));
                assert(moved.subrange(0, j + 1).last() == *rebindings@[j as int]);
            }
            let found = rebind_one(&mut table, rebindings[j]);
            if found {
                found_any = true;
            }
            j += 1;
        }
        proof {
            assert(moved.subrange(0, j as int) =~= moved);
        }
        if unbound_any || bound_any || found_any {
            proof {
                lemma_prune(rows(table@));
            }
            prune_rows(&mut table);
            let index = build_index(&table);
            *self = KeybindPlugin { raw_bindings: table, trie: index, pending: Vec::new(), enabled };
            true
        } else {
            proof {
                lemma_nothing_unbound(start, dropped);
                lemma_nothing_registered(cleared, wanted);
                lemma_nothing_rebound(middle, moved);
            }
            *self = KeybindPlugin { raw_bindings: table, trie, pending, enabled };
            false
        }
    }

    /// Takes up requests to switch the dispatcher off or on: the last one
    /// decides.
    pub fn lock(&mut self, locks: &Vec<&LockKeybindings>)
        ensures
            final(self).is_enabled() == locked(old(self).is_enabled(), values_of(locks@)),
            final(self).table() == old(self).table(),
            final(self).pending() == old(self).pending(),
            final(self).entries() == old(self).entries(),
    {
        proof {
            use_type_invariant(&*self);
        }
        if locks.len() > 0 {
            self.enabled = !locks[locks.len() - 1].0;
        }
    }

    /// Takes a run of key presses, one after the other. Returns copies of
    /// the events that the presses emit, in the order of their emission.
    /// A dispatcher that is switched off passes every press over.
    pub fn press_all(&mut self, keys: &Vec<KeyBind>) -> (emitted: Vec<E>)
        ensures
            old(self).wf(),
            final(self).wf(),
            final(self).table() == old(self).table(),
            final(self).is_enabled() == old(self).is_enabled(),
            old(self).is_enabled() ==> final(self).pending() == run(
                old(self).table(),
                old(self).entries(),
                old(self).pending(),
                keys@,
            ).pending && emitted@ == run(
                old(self).table(),
                old(self).entries(),
                old(self).pending(),
                keys@,
            ).emitted,
            !old(self).is_enabled() ==> final(self).pending() == old(self).pending() && emitted@
                == Seq::<E>::empty(),
    {
        let mut out: Vec<E> = Vec::new();
        proof {
            use_type_invariant(&*self);
        }
        if !self.enabled {
            return out;
        }
        let mut i: usize = 0;
        while i < keys.len()
            invariant
                i <= keys@.len(),
                self.wf(),
                self.table() == old(self).table(),
                self.entries() == old(self).entries(),
                self.is_enabled() == old(self).is_enabled(),
                self.pending() == run(
                    old(self).table(),
                    old(self).entries(),
                    old(self).pending(),
                    keys@.subrange(0, i as int),
                ).pending,
                out@ == run(
                    old(self).table(),
                    old(self).entries(),
                    old(self).pending(),
                    keys@.subrange(0, i as int),
                ).emitted,
            decreases keys@.len() - i,
        {
            proof {
                assert(keys@.subrange(0, i + 1).drop_last() =~= keys@.subrange(0, i as int));
                assert(keys@.subrange(0, i + 1).last() == keys@[i as int]);
            }
            let mut emitted = self.press(keys[i]);
            out.append(&mut emitted);
            i += 1;
        }
        proof {
            assert(keys@.subrange(0, i as int) =~= keys@);
        }
        out
    }
}

/// Dispatches `events` raw, one after the other.
fn dispatch_emitted<E: RawEvent>(writer: &mut EventWriter<'_, E>, events: Vec<E>, Ghost(read): Ghost<
    Map<crate::anymap::TypeTag, Seq<E>>,
>)
    requires
        buffer_wf(*old(writer).buffer),
    ensures
        buffer_wf(*final(writer).buffer),
        *final(final(writer).buffer) == *final(old(writer).buffer),
        (Bus { read, write: queues(*final(writer).buffer) }) == (Bus {
            read,
            write: queues(*old(writer).buffer),
        }).dispatch_raw_all(events@),
{
    let ghost start = Bus { read, write: queues(*writer.buffer) };
    let ghost all = events@;
    let mut rest = events;
    let mut done: usize = 0;
    let count = rest.len();
    while rest.len() > 0
        invariant
            buffer_wf(*writer.buffer),
            *final(writer.buffer) == *final(old(writer).buffer),
            done + rest@.len() == count,
            count == all.len(),
            rest@ == all.subrange(done as int, count as int),
            (Bus { read, write: queues(*writer.buffer) }) == start.dispatch_raw_all(
                all.subrange(0, done as int),
            ),
        decreases rest@.len(),
    {
        let ghost was = rest@;
        let event = rest.remove(0);
        proof {
            assert(event == all[done as int]);
            assert(rest@ =~= all.subrange(done + 1, count as int));
            assert(all.subrange(0, done + 1).drop_last() =~= all.subrange(0, done as int));
            assert(all.subrange(0, done + 1).last() == event);
        }
        let _ = writer.dispatch_raw(event);
        done += 1;
    }
    proof {
        assert(all.subrange(0, done as int) =~= all);
    }
}

impl<E: BindResult> KeybindPlugin<E> {
    /// What the work of one frame makes of the dispatcher `before` and of
    /// the bus `bus`. The requests that can be read from the bus are taken
    /// up, deletions first, then registrations, then rebindings; `modified`
    /// tells whether they changed a binding, which sends the cursor back to
    /// the root. The last request to switch the dispatcher off or on decides
    /// whether it is on. A dispatcher that is on takes the key presses that
    /// can be read, one after the other, and dispatches what they emit; one
    /// that is off leaves the bus as it is.
    pub open spec fn frame_of(
        before: Self,
        bus: Bus<E>,
        after: Self,
        bus_after: Bus<E>,
        modified: bool,
    ) -> bool where
        DeleteKeybind: IntoBoxed<E>,
        RegisterKeybind<E>: IntoBoxed<E>,
        RebindKeybind: IntoBoxed<E>,
        LockKeybindings: IntoBoxed<E>,
        KeydownEvent: IntoBoxed<E>,
    {
        &&& modified == changes(
            before.table(),
            bus.typed::<DeleteKeybind>(),
            bus.typed::<RegisterKeybind<E>>(),
            bus.typed::<RebindKeybind>(),
        )
        &&& after.table() == changed(
            before.table(),
            bus.typed::<DeleteKeybind>(),
            bus.typed::<RegisterKeybind<E>>(),
            bus.typed::<RebindKeybind>(),
        )
        &&& after.is_enabled() == locked(before.is_enabled(), bus.typed::<LockKeybindings>())
        &&& after.is_enabled() ==> {
            &&& after.pending() == run(
                after.table(),
                after.entries(),
                if modified {
                    Seq::empty()
                } else {
                    before.pending()
                },
                keys_of(bus.typed::<KeydownEvent>()),
            ).pending
            &&& bus_after == bus.dispatch_raw_all(
                run(
                    after.table(),
                    after.entries(),
                    if modified {
                        Seq::empty()
                    } else {
                        before.pending()
                    },
                    keys_of(bus.typed::<KeydownEvent>()),
                ).emitted,
            )
        }
        &&& !after.is_enabled() ==> {
            &&& bus_after == bus
            &&& after.pending() == (if modified {
                Seq::empty()
            } else {
                before.pending()
            })
        }
    }

    /// What the work before the first frame makes of the bus `bus`: menu
    /// events have their queues, and the bindings that every dispatcher
    /// starts with are asked for.
    pub open spec fn asks_for_defaults(bus: Bus<E>, bus_after: Bus<E>) -> bool where
        MenuEvent: IntoBoxed<E>,
        RegisterKeybind<E>: IntoBoxed<E>,
    {
        exists|requests: Seq<RegisterKeybind<E>>|
            is_default_bindings(requests) && bus_after == bus.ensure(
                MenuEvent::member_tag(),
            ).dispatch_all(#[trigger] boxed_all(requests))
    }

    /// The work of one frame: takes up the registrations and rebindings that
    /// can be read from the bus, then the requests to switch the dispatcher
    /// off or on, then the key presses, and dispatches what the presses emit.
    /// Returns whether a binding was changed, which is when the table is due
    /// to be saved.
    pub fn update(&mut self, events: &mut EventManager<E>) -> (modified: bool) where
        DeleteKeybind: IntoBoxed<E>,
        RegisterKeybind<E>: IntoBoxed<E>,
        RebindKeybind: IntoBoxed<E>,
        LockKeybindings: IntoBoxed<E>,
        KeydownEvent: IntoBoxed<E>,

        requires
            old(events).wf(),
        ensures
            final(self).wf(),
            final(events).wf(),
            Self::frame_of(*old(self), old(events)@, *final(self), final(events)@, modified),
    {
        let ghost bus = events@;
        let (reader, mut writer) = events.split();
        let deletions = reader.read::<DeleteKeybind>();
        let registrations = reader.read::<RegisterKeybind<E>>();
        let rebindings = reader.read::<RebindKeybind>();
        let locks = reader.read::<LockKeybindings>();
        let presses = reader.read::<KeydownEvent>();
        proof {
            assert(values_of(deletions@) =~= bus.typed::<DeleteKeybind>());
            assert(values_of(registrations@) =~= bus.typed::<RegisterKeybind<E>>());
            assert(values_of(rebindings@) =~= bus.typed::<RebindKeybind>());
            assert(values_of(locks@) =~= bus.typed::<LockKeybindings>());
            assert(values_of(presses@) =~= bus.typed::<KeydownEvent>());
        }
        let modified = self.apply(&deletions, &registrations, &rebindings);
        self.lock(&locks);
        let mut keys: Vec<KeyBind> = Vec::new();
        let mut i: usize = 0;
        while i < presses.len()
            invariant
                i <= presses@.len(),
                keys@ == keys_of(values_of(presses@)).subrange(0, i as int),
            decreases presses@.len() - i,
        {
            let press = presses[i];
            keys.push(KeyBind { modifiers: press.0.modifiers, key: press.0.code });
            proof {
                assert(keys@ =~= keys_of(values_of(presses@)).subrange(0, i + 1));
            }
            i += 1;
        }
        proof {
            assert(keys@ =~= keys_of(values_of(presses@)));
        }
        let emitted = self.press_all(&keys);
        dispatch_emitted(&mut writer, emitted, Ghost(bus.read));
        proof {
            if !self.is_enabled() {
                assert(emitted@.len() == 0);
            }
        }
        modified
    }
}

impl<E: BindResult> KeybindPlugin<E> {
    /// The work before the first frame: makes sure that menu events have
    /// their queues, and asks for the bindings that every dispatcher starts
    /// with.
    pub fn on_load(&mut self, events: &mut EventManager<E>) where
        MenuEvent: IntoBoxed<E>,
        RegisterKeybind<E>: IntoBoxed<E>,

        requires
            old(events).wf(),
        ensures
            *final(self) == *old(self),
            final(events).wf(),
            Self::asks_for_defaults(old(events)@, final(events)@),
    {
        events.ensure_event::<MenuEvent>();
        let ghost start = events@;
        let none = KeyModifiers::none();
        let left = RegisterKeybind::single_key(
            KeyBind { modifiers: none, key: KeyCode::Char('h') },
            MenuEvent::Left,
        );
        let right = RegisterKeybind::single_key(
            KeyBind { modifiers: none, key: KeyCode::Char('l') },
            MenuEvent::Right,
        );
        let down = RegisterKeybind::single_key(
            KeyBind { modifiers: none, key: KeyCode::Char('j') },
            MenuEvent::Down,
        );
        let up = RegisterKeybind::single_key(
            KeyBind { modifiers: none, key: KeyCode::Char('k') },
            MenuEvent::Up,
        );
        let select = RegisterKeybind::single_key(
            KeyBind { modifiers: none, key: KeyCode::Enter },
            MenuEvent::Select,
        );
        let alt_select = RegisterKeybind::single_key(
            KeyBind { modifiers: KeyModifiers::shift(), key: KeyCode::Enter },
            MenuEvent::AltSelect,
        );
        let ghost requests = seq![left, right, down, up, select, alt_select];
        proof {
            let erased = boxed_all(requests);
            reveal_with_fuel(Bus::dispatch_all, 7);
            assert(erased.drop_last().drop_last().drop_last().drop_last().drop_last().drop_last()
                =~= Seq::<E>::empty());
            assert(erased.len() == 6);
        }
        events.dispatch(left);
        events.dispatch(right);
        events.dispatch(down);
        events.dispatch(up);
        events.dispatch(select);
        events.dispatch(alt_select);
        proof {
            let erased = boxed_all(requests);
            let e5 = erased.drop_last();
            let e4 = e5.drop_last();
            let e3 = e4.drop_last();
            let e2 = e3.drop_last();
            let e1 = e2.drop_last();
            assert(e1.drop_last() =~= Seq::<E>::empty());
            assert(start.dispatch_all(e1) == start.dispatch(left.boxed()));
            assert(start.dispatch_all(e2) == start.dispatch_all(e1).dispatch(right.boxed()));
            assert(start.dispatch_all(e3) == start.dispatch_all(e2).dispatch(down.boxed()));
            assert(start.dispatch_all(e4) == start.dispatch_all(e3).dispatch(up.boxed()));
            assert(start.dispatch_all(e5) == start.dispatch_all(e4).dispatch(select.boxed()));
            assert(start.dispatch_all(erased) == start.dispatch_all(e5).dispatch(alt_select.boxed()));
            assert(is_default_bindings(requests));
        }
    }

    /// Takes the table from a list of saved rows, in place of the table that
    /// was. Of the rows of one chord the last one stands. The index is built
    /// anew and the cursor goes back to the root.
    pub fn load(&mut self, saved: Vec<Binding<E>>)
        ensures
            final(self).wf(),
            final(self).table() == install_all(rows(saved@)),
            final(self).pending() == Seq::<u64>::empty(),
            final(self).is_enabled() == old(self).is_enabled(),
    {
        let ghost all = rows(saved@);
        let mut table: Vec<Binding<E>> = Vec::new();
        let mut rest = saved;
        let count = rest.len();
        let mut done: usize = 0;
        proof {
            assert(rows(table@) =~= Seq::<Row<E>>::empty());
            assert(all.subrange(0, 0) =~= Seq::<Row<E>>::empty());
        }
        while rest.len() > 0
            invariant
                done + rest@.len() == count,
                count == all.len(),
                rows(rest@) == all.subrange(done as int, count as int),
                rows(table@) == install_all(all.subrange(0, done as int)),
                distinct_chords(rows(table@)),
            decreases rest@.len(),
        {
            let ghost was = rows(table@);
            let ghost left = rows(rest@);
            let row = rest.remove(0);
            proof {
                assert(row@ == left[0]);
                assert forall|k: int| 0 <= k < rest@.len() implies rows(rest@)[k] == all[done + 1 + k] by {
                    assert(rows(rest@)[k] == left[k + 1]);
                }
                assert(rows(rest@) =~= all.subrange(done + 1, count as int));
                assert(all.subrange(0, done + 1).drop_last() =~= all.subrange(0, done as int));
                assert(all.subrange(0, done + 1).last() == row@);
            }
            match find_chord(&table, &row.chord) {
                Some(i) => {
                    table[i] = row;
                    proof {
                        assert(rows(table@) =~= install(was, row@));
                        assert forall|a: int, b: int| 0 <= a < b < rows(table@).len() implies rows(
                            table@,
                        )[a].keys != rows(table@)[b].keys by {
                            assert(rows(table@)[a].keys == was[a].keys);
                            assert(rows(table@)[b].keys == was[b].keys);
                        }
                    }
                },
                None => {
                    table.push(row);
                    proof {
                        assert(rows(table@) =~= install(was, row@));
                        assert forall|a: int, b: int| 0 <= a < b < rows(table@).len() implies rows(
                            table@,
                        )[a].keys != rows(table@)[b].keys by {
                            assert(rows(table@)[a].keys == was[a].keys);
                            if b < was.len() {
                                assert(rows(table@)[b].keys == was[b].keys);
                            }
                        }
                    }
                },
            }
            done += 1;
        }
        proof {
            assert(all.subrange(0, done as int) =~= all);
        }
        let index = build_index(&table);
        let enabled = self.enabled;
        *self = KeybindPlugin { raw_bindings: table, trie: index, pending: Vec::new(), enabled };
    }
}

/// The tag of the type of the dispatcher.
pub const KEYBIND_PLUGIN: TypeTag = 0x4b45_5953;

impl<E: BindResult> Downcast for KeybindPlugin<E> {
    open spec fn tag(&self) -> TypeTag {
        KEYBIND_PLUGIN
    }

    fn type_tag(&self) -> (id: TypeTag) {
        KEYBIND_PLUGIN
    }
}

/// The dispatcher as a plugin of a host that keeps no table between runs:
/// its load hook does what `asks_for_defaults` says, its update hook does
/// what `frame_of` says, neither of them fails, and it draws nothing.
impl<E: BindResult> Plugin for KeybindPlugin<E> where
    MenuEvent: IntoBoxed<E>,
    DeleteKeybind: IntoBoxed<E>,
    RegisterKeybind<E>: IntoBoxed<E>,
    RebindKeybind: IntoBoxed<E>,
    LockKeybindings: IntoBoxed<E>,
    KeydownEvent: IntoBoxed<E>,
{
    type Event = E;

    type Error = ();

    type Frame = ();

    open spec fn layer(&self) -> u32 {
        0
    }

    open spec fn loads(
        before: Self,
        bus: Bus<E>,
        after: Self,
        bus_after: Bus<E>,
        r: Result<(), ()>,
    ) -> bool {
        r is Ok && after == before && Self::asks_for_defaults(bus, bus_after)
    }

    open spec fn updates(
        before: Self,
        bus: Bus<E>,
        plugins: PluginStore<Self>,
        after: Self,
        bus_after: Bus<E>,
        r: Result<(), ()>,
    ) -> bool {
        r is Ok && exists|modified: bool| #[trigger] Self::frame_of(before, bus, after, bus_after, modified)
    }

    open spec fn draws(
        plugin: Self,
        frame: (),
        area: Rect,
        plugins: PluginStore<Self>,
        frame_after: (),
    ) -> bool {
        frame_after == frame
    }

    fn on_load(&mut self, events: &mut EventManager<E>) -> (r: Result<(), ()>) {
        KeybindPlugin::on_load(self, events);
        Ok(())
    }

    fn update(&mut self, events: &mut EventManager<E>, plugins: &PluginStore<Self>) -> (r: Result<(), ()>) {
        let _ = KeybindPlugin::update(self, events);
        Ok(())
    }

    fn draw(&self, frame: &mut (), area: Rect, plugins: &PluginStore<Self>) {
    }

    fn z_index(&self) -> (z: u32) {
        0
    }
}

} // verus!
