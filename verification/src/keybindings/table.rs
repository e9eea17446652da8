//! The keybinding table: which events each chord is bound to, and what
//! deletions, registrations and rebindings make of it.

use crate::keybindings::{BindResult, Binding, DeleteKeybind, RebindKeybind, RegisterKeybind, Row};
use crate::keys::{Chord, KeyBind};
use vstd::prelude::*;

verus! {

/// What the rows of a table hold.
pub open spec fn rows<E>(table: Seq<Binding<E>>) -> Seq<Row<E>> {
    Seq::new(table.len(), |i: int| table[i]@)
}

/// No chord has two rows.
pub open spec fn distinct_chords<E>(table: Seq<Row<E>>) -> bool {
    forall|i: int, j: int| 0 <= i < j < table.len() ==> table[i].keys != table[j].keys
}

/// Whether the event `j` of the row `i` renders as `identity`.
pub open spec fn holds_at<E: BindResult>(table: Seq<Row<E>>, i: int, j: int, identity: Seq<char>) -> bool {
    0 <= i < table.len() && 0 <= j < table[i].events.len() && table[i].events[j].identity()@
        == identity
}

/// Whether some event of the table renders as `identity`.
pub open spec fn is_bound<E: BindResult>(table: Seq<Row<E>>, identity: Seq<char>) -> bool {
    exists|i: int, j: int| holds_at(table, i, j, identity)
}

/// Whether `(i, j)` is the first place in the table, row by row, at which
/// an event renders as `identity`.
pub open spec fn is_first_holder<E: BindResult>(
    table: Seq<Row<E>>,
    i: int,
    j: int,
    identity: Seq<char>,
) -> bool {
    &&& holds_at(table, i, j, identity)
    &&& forall|k: int, l: int|
        holds_at(table, k, l, identity) ==> i < k || (i == k && j <= l)
}

/// The row of the first event that renders as `identity`, and the place of
/// the event within that row.
pub open spec fn holder<E: BindResult>(table: Seq<Row<E>>, identity: Seq<char>) -> (int, int) {
    choose|p: (int, int)| is_first_holder(table, p.0, p.1, identity)
}

/// Whether the chord `keys` has a row.
pub open spec fn has_chord<E>(table: Seq<Row<E>>, keys: Seq<KeyBind>) -> bool {
    exists|i: int| 0 <= i < table.len() && table[i].keys == keys
}

/// The row of the chord `keys`.
pub open spec fn row_of<E>(table: Seq<Row<E>>, keys: Seq<KeyBind>) -> int {
    choose|i: int| 0 <= i < table.len() && table[i].keys == keys
}

/// The table after `event` has been bound to `keys`: at the end of the row
/// of that chord, or in a new last row where the chord had none.
pub open spec fn bind<E>(table: Seq<Row<E>>, keys: Seq<KeyBind>, event: E) -> Seq<Row<E>> {
    if has_chord(table, keys) {
        table.update(
            row_of(table, keys),
            Row { keys, events: table[row_of(table, keys)].events.push(event) },
        )
    } else {
        table.push(Row { keys, events: seq![event] })
    }
}

/// The table after a registration: unchanged where an event that renders the
/// same is bound already, and with the event bound to the chord otherwise.
pub open spec fn register<E: BindResult>(table: Seq<Row<E>>, keys: Seq<KeyBind>, event: E) -> Seq<
    Row<E>,
> {
    if is_bound(table, event.identity()@) {
        table
    } else {
        bind(table, keys, event)
    }
}

/// The table after a rebinding: the first event that renders as `identity`
/// leaves its row and is bound to `keys`. Without such an event the table is
/// unchanged.
pub open spec fn rebind<E: BindResult>(table: Seq<Row<E>>, keys: Seq<KeyBind>, identity: Seq<char>) -> Seq<
    Row<E>,
> {
    if is_bound(table, identity) {
        let i = holder(table, identity).0;
        let j = holder(table, identity).1;
        bind(
            table.update(i, Row { keys: table[i].keys, events: table[i].events.remove(j) }),
            keys,
            table[i].events[j],
        )
    } else {
        table
    }
}

/// The table after a deletion: without the row of the chord `keys`.
pub open spec fn unbind<E>(table: Seq<Row<E>>, keys: Seq<KeyBind>) -> Seq<Row<E>> {
    if has_chord(table, keys) {
        table.remove(row_of(table, keys))
    } else {
        table
    }
}

/// The table without the rows that hold no event.
pub open spec fn prune<E>(table: Seq<Row<E>>) -> Seq<Row<E>>
    decreases table.len(),
{
    if table.len() == 0 {
        Seq::empty()
    } else if table.last().events.len() > 0 {
        prune(table.drop_last()).push(table.last())
    } else {
        prune(table.drop_last())
    }
}

/// The table after a saved row has been taken up: in place of the row of
/// the same chord, or as a new last row.
pub open spec fn install<E>(table: Seq<Row<E>>, row: Row<E>) -> Seq<Row<E>> {
    if has_chord(table, row.keys) {
        table.update(row_of(table, row.keys), row)
    } else {
        table.push(row)
    }
}

/// The table after the deletions `requests`, taken one after the other.
pub open spec fn unbind_all<E>(table: Seq<Row<E>>, requests: Seq<DeleteKeybind>) -> Seq<Row<E>>
    decreases requests.len(),
{
    if requests.len() == 0 {
        table
    } else {
        unbind(unbind_all(table, requests.drop_last()), requests.last().0@)
    }
}

/// Whether one of the deletions `requests` found its chord.
pub open spec fn unbinds_any<E>(table: Seq<Row<E>>, requests: Seq<DeleteKeybind>) -> bool
    decreases requests.len(),
{
    if requests.len() == 0 {
        false
    } else {
        unbinds_any(table, requests.drop_last()) || has_chord(
            unbind_all(table, requests.drop_last()),
            requests.last().0@,
        )
    }
}

/// The table after the registrations `requests`, taken one after the other.
pub open spec fn register_all<E: BindResult>(table: Seq<Row<E>>, requests: Seq<RegisterKeybind<E>>) -> Seq<
    Row<E>,
>
    decreases requests.len(),
{
    if requests.len() == 0 {
        table
    } else {
        register(
            register_all(table, requests.drop_last()),
            requests.last().bind@,
            requests.last().event,
        )
    }
}

/// Whether one of the registrations `requests` bound its event.
pub open spec fn registers_any<E: BindResult>(table: Seq<Row<E>>, requests: Seq<RegisterKeybind<E>>) -> bool
    decreases requests.len(),
{
    if requests.len() == 0 {
        false
    } else {
        registers_any(table, requests.drop_last()) || !is_bound(
            register_all(table, requests.drop_last()),
            requests.last().event.identity()@,
        )
    }
}

/// The table after the rebindings `requests`, taken one after the other.
pub open spec fn rebind_all<E: BindResult>(table: Seq<Row<E>>, requests: Seq<RebindKeybind>) -> Seq<
    Row<E>,
>
    decreases requests.len(),
{
    if requests.len() == 0 {
        table
    } else {
        rebind(
            rebind_all(table, requests.drop_last()),
            requests.last().bind@,
            requests.last().event@,
        )
    }
}

/// Whether one of the rebindings `requests` found its event.
pub open spec fn rebinds_any<E: BindResult>(table: Seq<Row<E>>, requests: Seq<RebindKeybind>) -> bool
    decreases requests.len(),
{
    if requests.len() == 0 {
        false
    } else {
        rebinds_any(table, requests.drop_last()) || is_bound(
            rebind_all(table, requests.drop_last()),
            requests.last().event@,
        )
    }
}

/// The table that a list of saved rows makes: of the rows of one chord the
/// last one stands, at the place of the first.
pub open spec fn install_all<E>(saved: Seq<Row<E>>) -> Seq<Row<E>>
    decreases saved.len(),
{
    if saved.len() == 0 {
        Seq::empty()
    } else {
        install(install_all(saved.drop_last()), saved.last())
    }
}

/// The table after the requests of a frame were taken up: the deletions
/// first, then the registrations, then the rebindings.
pub open spec fn taken_up<E: BindResult>(
    table: Seq<Row<E>>,
    deletions: Seq<DeleteKeybind>,
    registrations: Seq<RegisterKeybind<E>>,
    rebindings: Seq<RebindKeybind>,
) -> Seq<Row<E>> {
    rebind_all(register_all(unbind_all(table, deletions), registrations), rebindings)
}

/// Whether the requests of a frame change a binding.
pub open spec fn changes<E: BindResult>(
    table: Seq<Row<E>>,
    deletions: Seq<DeleteKeybind>,
    registrations: Seq<RegisterKeybind<E>>,
    rebindings: Seq<RebindKeybind>,
) -> bool {
    ||| unbinds_any(table, deletions)
    ||| registers_any(unbind_all(table, deletions), registrations)
    ||| rebinds_any(register_all(unbind_all(table, deletions), registrations), rebindings)
}

/// The table after the requests of a frame: where they change a binding,
/// what is left once the rows without an event are dropped.
pub open spec fn changed<E: BindResult>(
    table: Seq<Row<E>>,
    deletions: Seq<DeleteKeybind>,
    registrations: Seq<RegisterKeybind<E>>,
    rebindings: Seq<RebindKeybind>,
) -> Seq<Row<E>> {
    if changes(table, deletions, registrations, rebindings) {
        prune(taken_up(table, deletions, registrations, rebindings))
    } else {
        table
    }
}

/// Binding an event keeps the chords of a table distinct.
pub proof fn lemma_bind_distinct<E>(table: Seq<Row<E>>, keys: Seq<KeyBind>, event: E)
    requires
        distinct_chords(table),
    ensures
        distinct_chords(bind(table, keys, event)),
{
    let after = bind(table, keys, event);
    if has_chord(table, keys) {
        let r = row_of(table, keys);
        assert forall|i: int, j: int| 0 <= i < j < after.len() implies after[i].keys != after[j].keys by {
            assert(after[i].keys == table[i].keys);
            assert(after[j].keys == table[j].keys);
        }
    } else {
        assert forall|i: int, j: int| 0 <= i < j < after.len() implies after[i].keys != after[j].keys by {
            if j < table.len() {
                assert(after[i].keys == table[i].keys);
                assert(after[j].keys == table[j].keys);
            } else {
                assert(after[i].keys == table[i].keys);
            }
        }
    }
}

/// Binding an event makes it bound.
pub proof fn lemma_bind_binds<E: BindResult>(table: Seq<Row<E>>, keys: Seq<KeyBind>, event: E)
    ensures
        is_bound(bind(table, keys, event), event.identity()@),
{
    let after = bind(table, keys, event);
    if has_chord(table, keys) {
        let r = row_of(table, keys);
        assert(holds_at(after, r, table[r].events.len() as int, event.identity()@));
    } else {
        assert(holds_at(after, table.len() as int, 0, event.identity()@));
    }
}

/// A registration that is made twice changes the table once: the second
/// time nothing is bound. On an empty table it leaves exactly one row with
/// exactly the one event.
pub proof fn lemma_register_twice<E: BindResult>(table: Seq<Row<E>>, keys: Seq<KeyBind>, event: E)
    ensures
        register(register(table, keys, event), keys, event) == register(table, keys, event),
        register(Seq::<Row<E>>::empty(), keys, event) == seq![Row { keys, events: seq![event] }],
{
    if !is_bound(table, event.identity()@) {
        lemma_bind_binds(table, keys, event);
    }
    let none = Seq::<Row<E>>::empty();
    assert(!is_bound(none, event.identity()@));
    assert(!has_chord(none, keys));
    assert(none.push(Row { keys, events: seq![event] }) =~= seq![Row { keys, events: seq![event] }]);
}

/// A table that is saved and loaded again is the same table: taking up the
/// rows of a table in which no chord has two rows gives that table back.
pub proof fn lemma_saved_table_loads_back<E>(table: Seq<Row<E>>)
    requires
        distinct_chords(table),
    ensures
        install_all(table) == table,
    decreases table.len(),
{
    if table.len() == 0 {
        assert(install_all(table) =~= table);
    } else {
        let init = table.drop_last();
        let last = table.last();
        assert(distinct_chords(init)) by {
            assert forall|i: int, j: int| 0 <= i < j < init.len() implies init[i].keys != init[j].keys by {
                assert(init[i] == table[i] && init[j] == table[j]);
            }
        }
        lemma_saved_table_loads_back(init);
        assert(!has_chord(init, last.keys)) by {
            if has_chord(init, last.keys) {
                let r = row_of(init, last.keys);
                assert(table[r].keys == table[table.len() - 1].keys);
            }
        }
        assert(init.push(last) =~= table);
    }
}

/// Every row that pruning keeps is a row of the table, and pruning keeps the
/// chords of a table distinct.
pub proof fn lemma_prune<E>(table: Seq<Row<E>>)
    ensures
        forall|i: int|
            0 <= i < prune(table).len() ==> exists|k: int|
                0 <= k < table.len() && table[k] == #[trigger] prune(table)[i],
        distinct_chords(table) ==> distinct_chords(prune(table)),
        prune(table).len() <= table.len(),
    decreases table.len(),
{
    if table.len() > 0 {
        let init = table.drop_last();
        lemma_prune(init);
        assert forall|i: int| 0 <= i < prune(table).len() implies exists|k: int|
            0 <= k < table.len() && table[k] == #[trigger] prune(table)[i] by {
            if i < prune(init).len() {
                let k = choose|k: int| 0 <= k < init.len() && init[k] == prune(init)[i];
                assert(table[k] == prune(table)[i]);
            } else {
                assert(table[table.len() - 1] == prune(table)[i]);
            }
        }
        if distinct_chords(table) {
            assert(distinct_chords(init)) by {
                assert forall|i: int, j: int| 0 <= i < j < init.len() implies init[i].keys
                    != init[j].keys by {
                    assert(init[i] == table[i] && init[j] == table[j]);
                }
            }
            assert forall|i: int, j: int| 0 <= i < j < prune(table).len() implies prune(table)[i].keys
                != prune(table)[j].keys by {
                if j < prune(init).len() {
                    assert(prune(table)[i] == prune(init)[i]);
                    assert(prune(table)[j] == prune(init)[j]);
                } else {
                    let k = choose|k: int| 0 <= k < init.len() && init[k] == prune(init)[i];
                    assert(table[k] == init[k]);
                    assert(prune(table)[i] == prune(init)[i]);
                }
            }
        }
    }
}

/// Where no deletion finds its chord, the table stays as it is.
pub proof fn lemma_nothing_unbound<E>(table: Seq<Row<E>>, requests: Seq<DeleteKeybind>)
    requires
        !unbinds_any(table, requests),
    ensures
        unbind_all(table, requests) == table,
    decreases requests.len(),
{
    if requests.len() > 0 {
        lemma_nothing_unbound(table, requests.drop_last());
    }
}

/// Where no registration binds its event, the table stays as it is.
pub proof fn lemma_nothing_registered<E: BindResult>(table: Seq<Row<E>>, requests: Seq<RegisterKeybind<E>>)
    requires
        !registers_any(table, requests),
    ensures
        register_all(table, requests) == table,
    decreases requests.len(),
{
    if requests.len() > 0 {
        lemma_nothing_registered(table, requests.drop_last());
    }
}

/// Where no rebinding finds its event, the table stays as it is.
pub proof fn lemma_nothing_rebound<E: BindResult>(table: Seq<Row<E>>, requests: Seq<RebindKeybind>)
    requires
        !rebinds_any(table, requests),
    ensures
        rebind_all(table, requests) == table,
    decreases requests.len(),
{
    if requests.len() > 0 {
        lemma_nothing_rebound(table, requests.drop_last());
    }
}

/// Finds the first event of the table that renders as `text`.
pub(crate) fn find_event<E: BindResult>(table: &Vec<Binding<E>>, text: &String) -> (r: Option<
    (usize, usize),
>)
    ensures
        match r {
            Some(place) => is_first_holder(rows(table@), place.0 as int, place.1 as int, text@)
                && holder(rows(table@), text@) == (place.0 as int, place.1 as int),
            None => !is_bound(rows(table@), text@),
        },
{
    let mut i: usize = 0;
    while i < table.len()
        invariant
            i <= table@.len(),
            forall|k: int, l: int| holds_at(rows(table@), k, l, text@) ==> i <= k,
        decreases table@.len() - i,
    {
        let events = &table[i].events;
        let mut j: usize = 0;
        while j < events.len()
            invariant
                i < table@.len(),
                events@ == rows(table@)[i as int].events,
                j <= events@.len(),
                forall|k: int, l: int| holds_at(rows(table@), k, l, text@) ==> i <= k,
                forall|l: int| holds_at(rows(table@), i as int, l, text@) ==> j <= l,
            decreases events@.len() - j,
        {
            let rendered = events[j].render();
            if rendered == *text {
                proof {
                    assert(holds_at(rows(table@), i as int, j as int, text@));
                    let here = (i as int, j as int);
                    assert(is_first_holder(rows(table@), here.0, here.1, text@));
                    let found = holder(rows(table@), text@);
                    assert(is_first_holder(rows(table@), found.0, found.1, text@));
                    assert(holds_at(rows(table@), found.0, found.1, text@));
                }
                return Some((i, j));
            }
            j += 1;
        }
        i += 1;
    }
    None
}

/// Finds the row of a chord.
pub(crate) fn find_chord<E>(table: &Vec<Binding<E>>, chord: &Chord) -> (r: Option<usize>)
    requires
        distinct_chords(rows(table@)),
    ensures
        match r {
            Some(i) => i < table@.len() && rows(table@)[i as int].keys == chord@ && has_chord(
                rows(table@),
                chord@,
            ) && row_of(rows(table@), chord@) == i,
            None => !has_chord(rows(table@), chord@),
        },
{
    let mut i: usize = 0;
    while i < table.len()
        invariant
            i <= table@.len(),
            distinct_chords(rows(table@)),
            forall|k: int| 0 <= k < i ==> rows(table@)[k].keys != chord@,
        decreases table@.len() - i,
    {
        if table[i].chord.same(chord) {
            proof {
                let found = row_of(rows(table@), chord@);
                assert(rows(table@)[i as int].keys == chord@);
                assert(0 <= found < table@.len() && rows(table@)[found].keys == chord@);
                assert(found == i) by {
                    if found < i {
                        assert(rows(table@)[found].keys != rows(table@)[i as int].keys);
                    }
                    if i < found {
                        assert(rows(table@)[i as int].keys != rows(table@)[found].keys);
                    }
                }
            }
            return Some(i);
        }
        i += 1;
    }
    None
}

/// Binds an event to a chord: at the end of the row of the chord, or in a
/// new last row where the chord has none.
pub(crate) fn bind_event<E>(table: &mut Vec<Binding<E>>, chord: &Chord, event: E)
    requires
        distinct_chords(rows(old(table)@)),
    ensures
        rows(final(table)@) == bind(rows(old(table)@), chord@, event),
        distinct_chords(rows(final(table)@)),
{
    proof {
        lemma_bind_distinct(rows(table@), chord@, event);
    }
    match find_chord(table, chord) {
        Some(i) => {
            table[i].events.push(event);
            proof {
                assert(rows(table@) =~= bind(rows(old(table)@), chord@, event));
            }
        },
        None => {
            let mut events: Vec<E> = Vec::new();
            events.push(event);
            table.push(Binding { chord: chord.duplicate(), events });
            proof {
                assert(rows(table@) =~= bind(rows(old(table)@), chord@, event));
            }
        },
    }
}

/// Takes up one registration. Returns whether the event was bound.
pub(crate) fn register_one<E: BindResult>(
    table: &mut Vec<Binding<E>>,
    request: &RegisterKeybind<E>,
) -> (bound: bool)
    requires
        distinct_chords(rows(old(table)@)),
    ensures
        rows(final(table)@) == register(rows(old(table)@), request.bind@, request.event),
        bound == !is_bound(rows(old(table)@), request.event.identity()@),
        distinct_chords(rows(final(table)@)),
{
    let text = request.event.render();
    if find_event(table, &text).is_some() {
        false
    } else {
        bind_event(table, &request.bind, request.event.clone_box());
        true
    }
}

/// Takes up one rebinding. Returns whether the event was found.
pub(crate) fn rebind_one<E: BindResult>(
    table: &mut Vec<Binding<E>>,
    request: &RebindKeybind,
) -> (found: bool)
    requires
        distinct_chords(rows(old(table)@)),
    ensures
        rows(final(table)@) == rebind(rows(old(table)@), request.bind@, request.event@),
        found == is_bound(rows(old(table)@), request.event@),
        distinct_chords(rows(final(table)@)),
{
    match find_event(table, &request.event) {
        Some(place) => {
            let moved = table[place.0].events.remove(place.1);
            proof {
                let before = rows(old(table)@);
                let i = place.0 as int;
                let without = before.update(
                    i,
                    Row { keys: before[i].keys, events: before[i].events.remove(place.1 as int) },
                );
                assert(rows(table@) =~= without);
                assert forall|a: int, b: int| 0 <= a < b < without.len() implies without[a].keys
                    != without[b].keys by {
                    assert(without[a].keys == before[a].keys);
                    assert(without[b].keys == before[b].keys);
                }
            }
            bind_event(table, &request.bind, moved);
            true
        },
        None => false,
    }
}

/// Takes up one deletion. Returns whether the chord was found.
pub(crate) fn unbind_one<E>(table: &mut Vec<Binding<E>>, request: &DeleteKeybind) -> (found: bool)
    requires
        distinct_chords(rows(old(table)@)),
    ensures
        rows(final(table)@) == unbind(rows(old(table)@), request.0@),
        found == has_chord(rows(old(table)@), request.0@),
        distinct_chords(rows(final(table)@)),
{
    match find_chord(table, &request.0) {
        Some(i) => {
            let _ = table.remove(i);
            proof {
                let before = rows(old(table)@);
                assert(rows(table@) =~= before.remove(i as int));
                assert forall|a: int, b: int| 0 <= a < b < rows(table@).len() implies rows(table@)[a].keys
                    != rows(table@)[b].keys by {
                    let a0 = if a < i { a } else { a + 1 };
                    let b0 = if b < i { b } else { b + 1 };
                    assert(rows(table@)[a] == before[a0]);
                    assert(rows(table@)[b] == before[b0]);
                }
            }
            true
        },
        None => false,
    }
}

/// Drops the rows that hold no event.
pub(crate) fn prune_rows<E>(table: &mut Vec<Binding<E>>)
    ensures
        rows(final(table)@) == prune(rows(old(table)@)),
{
    let mut kept: Vec<Binding<E>> = Vec::new();
    std::mem::swap(&mut kept, table);
    let ghost all = rows(kept@);
    let count = kept.len();
    let ghost total = kept@.len();
    let mut done: usize = 0;
    while kept.len() > 0
        invariant
            done + kept@.len() == total,
            total == all.len(),
            total == count,
            rows(kept@) == all.subrange(done as int, total as int),
            rows(table@) == prune(all.subrange(0, done as int)),
        decreases kept@.len(),
    {
        let ghost was = rows(table@);
        let ghost rest = rows(kept@);
        let row = kept.remove(0);
        proof {
            assert(row@ == rest[0]);
            assert(rest[0] == all[done as int]);
            assert forall|k: int| 0 <= k < kept@.len() implies rows(kept@)[k] == all[done + 1 + k] by {
                assert(rows(kept@)[k] == rest[k + 1]);
            }
            assert(rows(kept@) =~= all.subrange(done + 1, total as int));
            assert(all.subrange(0, done + 1).drop_last() =~= all.subrange(0, done as int));
            assert(all.subrange(0, done + 1).last() == all[done as int]);
        }
        if row.events.len() > 0 {
            table.push(row);
            proof {
                assert(rows(table@) =~= was.push(row@));
            }
        }
        done += 1;
    }
    proof {
        assert(all.subrange(0, done as int) =~= all);
    }
}

} // verus!
