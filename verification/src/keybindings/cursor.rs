//! The index of the keybinding table and the cursor that follows the key
//! presses through it.

use crate::keybindings::table::{distinct_chords, has_chord, row_of, rows};
use crate::keybindings::{Binding, Row};
use crate::keys::{codes_of, lemma_codes_injective, KeyBind};
use crate::trie::{
    builder_build, builder_entries, builder_new, builder_push, exact_match, has_longer, is_prefix,
    is_proper_prefix, trie_entries, KeyTrie,
};
use vstd::prelude::*;

verus! {

/// The index that belongs to a table: under the numbers of each chord that
/// has at least one press, the place of its row.
pub open spec fn index_of<E>(table: Seq<Row<E>>) -> Map<Seq<u64>, usize>
    decreases table.len(),
{
    if table.len() == 0 {
        Map::empty()
    } else if table.last().keys.len() > 0 {
        index_of(table.drop_last()).insert(codes_of(table.last().keys), (table.len() - 1) as usize)
    } else {
        index_of(table.drop_last())
    }
}

/// The index of a table holds exactly the chords of the table that have a
/// press, each with the place of its row.
pub proof fn lemma_index_of<E>(table: Seq<Row<E>>)
    requires
        distinct_chords(table),
        table.len() <= usize::MAX,
    ensures
        forall|i: int|
            0 <= i < table.len() && table[i].keys.len() > 0 ==> index_of(table).dom().contains(
                #[trigger] codes_of(table[i].keys),
            ) && index_of(table)[codes_of(table[i].keys)] == i,
        forall|key: Seq<u64>| #[trigger]
            index_of(table).dom().contains(key) ==> key.len() > 0 && 0 <= index_of(table)[key]
                < table.len() && codes_of(table[index_of(table)[key] as int].keys) == key,
    decreases table.len(),
{
    if table.len() > 0 {
        let init = table.drop_last();
        let last = table.last();
        lemma_index_of(init);
        assert forall|i: int| 0 <= i < table.len() && table[i].keys.len() > 0 implies index_of(
            table,
        ).dom().contains(#[trigger] codes_of(table[i].keys)) && index_of(table)[codes_of(
            table[i].keys,
        )] == i by {
            if i < table.len() - 1 {
                assert(init[i] == table[i]);
                if last.keys.len() > 0 && codes_of(last.keys) == codes_of(table[i].keys) {
                    lemma_codes_injective(last.keys, table[i].keys);
                }
            }
        }
        assert forall|key: Seq<u64>| #[trigger] index_of(table).dom().contains(key) implies key.len()
            > 0 && 0 <= index_of(table)[key] < table.len() && codes_of(
            table[index_of(table)[key] as int].keys,
        ) == key by {
            if last.keys.len() > 0 && key == codes_of(last.keys) {
                assert(key.len() == last.keys.len());
            } else {
                assert(index_of(init).dom().contains(key));
                assert(init[index_of(init)[key] as int] == table[index_of(init)[key] as int]);
            }
        }
    }
}

/// What the index says of a sequence of presses.
#[derive(Clone, Copy, PartialEq, Eq, Structural, Debug)]
pub enum Answer {
    /// Longer chords begin with the sequence, and the sequence is no chord.
    Prefix,
    /// The sequence is a chord, and no longer chord begins with it.
    Match,
    /// The sequence is a chord, and longer chords begin with it too.
    PrefixAndMatch,
}

/// What the index says of `query`; nothing where no chord begins with it.
pub open spec fn answer(entries: Map<Seq<u64>, usize>, query: Seq<u64>) -> Option<Answer> {
    if has_longer(entries, query) && entries.dom().contains(query) {
        Some(Answer::PrefixAndMatch)
    } else if has_longer(entries, query) {
        Some(Answer::Prefix)
    } else if entries.dom().contains(query) {
        Some(Answer::Match)
    } else {
        None
    }
}

/// The outcome of one key press: where the cursor stands afterwards, and the
/// rows whose events were emitted, in the order of their emission.
pub struct Step {
    /// The presses that the cursor has taken since it left the root.
    pub pending: Seq<u64>,
    /// The places of the rows that fired.
    pub fired: Seq<usize>,
}

/// One key press against a cursor that stands at the root.
pub open spec fn from_root(entries: Map<Seq<u64>, usize>, key: u64) -> Step {
    match answer(entries, seq![key]) {
        Some(Answer::Match) => Step { pending: Seq::empty(), fired: seq![entries[seq![key]]] },
        Some(_) => Step { pending: seq![key], fired: Seq::empty() },
        None => Step { pending: Seq::empty(), fired: Seq::empty() },
    }
}

/// One key press against a cursor that has taken `pending`.
///
/// Where the press leads to a chord that no longer chord begins with, the
/// chord fires and the cursor goes back to the root. Where it leads on
/// towards longer chords, the cursor takes it and nothing fires. Where it
/// leads nowhere, the cursor goes back to the root; if it stood on a chord,
/// that chord fires first and the same press is then tried from the root.
pub open spec fn advance(entries: Map<Seq<u64>, usize>, pending: Seq<u64>, key: u64) -> Step {
    match answer(entries, pending.push(key)) {
        Some(Answer::Match) => Step {
            pending: Seq::empty(),
            fired: seq![entries[pending.push(key)]],
        },
        Some(_) => Step { pending: pending.push(key), fired: Seq::empty() },
        None => if pending.len() > 0 && entries.dom().contains(pending) {
            Step {
                pending: from_root(entries, key).pending,
                fired: seq![entries[pending]] + from_root(entries, key).fired,
            }
        } else {
            Step { pending: Seq::empty(), fired: Seq::empty() }
        },
    }
}

/// The events of the rows `fired`, row after row.
pub open spec fn events_of<E>(table: Seq<Row<E>>, fired: Seq<usize>) -> Seq<E>
    decreases fired.len(),
{
    if fired.len() == 0 {
        Seq::empty()
    } else {
        events_of(table, fired.drop_last()) + table[fired.last() as int].events
    }
}

/// The events of no row, of one row and of two rows.
pub proof fn lemma_events_of<E>(table: Seq<Row<E>>, first: usize, second: usize)
    ensures
        events_of(table, Seq::empty()) == Seq::<E>::empty(),
        events_of(table, seq![first]) == table[first as int].events,
        events_of(table, seq![first] + Seq::empty()) == table[first as int].events,
        events_of(table, seq![first] + seq![second]) == table[first as int].events
            + table[second as int].events,
{
    reveal_with_fuel(events_of, 3);
    assert(seq![first].drop_last() =~= Seq::<usize>::empty());
    assert(seq![first] + Seq::<usize>::empty() =~= seq![first]);
    assert((seq![first] + seq![second]).drop_last() =~= seq![first]);
    assert(events_of(table, seq![first]) =~= table[first as int].events);
    assert(events_of(table, seq![first] + seq![second]) =~= table[first as int].events
        + table[second as int].events);
}

/// The outcome of a run of key presses: where the cursor stands afterwards,
/// and the events that were emitted, in the order of their emission.
pub struct Run<E> {
    /// The presses that the cursor has taken since it left the root.
    pub pending: Seq<u64>,
    /// The emitted events.
    pub emitted: Seq<E>,
}

/// One key press in a run: a press of a modifier key alone changes nothing,
/// any other press moves the cursor as `advance` says.
pub open spec fn run_one<E>(
    table: Seq<Row<E>>,
    entries: Map<Seq<u64>, usize>,
    before: Run<E>,
    key: KeyBind,
) -> Run<E> {
    if key.only_modifiers() {
        before
    } else {
        Run {
            pending: advance(entries, before.pending, key.spec_code() as u64).pending,
            emitted: before.emitted + events_of(
                table,
                advance(entries, before.pending, key.spec_code() as u64).fired,
            ),
        }
    }
}

/// The key presses `keys`, taken one after the other by a cursor that has
/// taken `pending`.
pub open spec fn run<E>(
    table: Seq<Row<E>>,
    entries: Map<Seq<u64>, usize>,
    pending: Seq<u64>,
    keys: Seq<KeyBind>,
) -> Run<E>
    decreases keys.len(),
{
    if keys.len() == 0 {
        Run { pending, emitted: Seq::empty() }
    } else {
        run_one(table, entries, run(table, entries, pending, keys.drop_last()), keys.last())
    }
}

/// The number of a key press.
pub open spec fn code_of(key: KeyBind) -> u64 {
    key.spec_code() as u64
}

/// Whether the chord `keys` begins with the presses `start`.
pub open spec fn begins_with(keys: Seq<KeyBind>, start: Seq<KeyBind>) -> bool {
    start.len() <= keys.len() && keys.subrange(0, start.len() as int) == start
}

/// Whether some chord of the table begins with `start` and goes on after it.
pub open spec fn goes_on<E>(table: Seq<Row<E>>, start: Seq<KeyBind>) -> bool {
    exists|r: int|
        0 <= r < table.len() && start.len() < (#[trigger] table[r]).keys.len() && begins_with(
            table[r].keys,
            start,
        )
}

/// The numbers of a sequence of presses begin the numbers of another one
/// exactly where the presses begin the other presses.
pub proof fn lemma_prefix_codes(start: Seq<KeyBind>, keys: Seq<KeyBind>)
    ensures
        is_proper_prefix(codes_of(start), codes_of(keys)) <==> start.len() < keys.len()
            && begins_with(keys, start),
{
    if start.len() < keys.len() {
        let n = start.len() as int;
        assert(codes_of(keys).subrange(0, n) =~= codes_of(keys.subrange(0, n)));
        if codes_of(keys).subrange(0, n) == codes_of(start) {
            lemma_codes_injective(keys.subrange(0, n), start);
        }
    }
}

/// What the index of a table says of a sequence of presses, in terms of the
/// chords of the table.
pub proof fn lemma_index_answers<E>(table: Seq<Row<E>>, start: Seq<KeyBind>)
    requires
        distinct_chords(table),
        table.len() <= usize::MAX,
        start.len() > 0,
    ensures
        has_longer(index_of(table), codes_of(start)) <==> goes_on(table, start),
        index_of(table).dom().contains(codes_of(start)) <==> has_chord(table, start),
        has_chord(table, start) ==> index_of(table)[codes_of(start)] == row_of(table, start),
{
    let entries = index_of(table);
    let query = codes_of(start);
    lemma_index_of(table);
    if has_longer(entries, query) {
        let key = choose|key: Seq<u64>| entries.dom().contains(key) && is_proper_prefix(query, key);
        let r = entries[key] as int;
        lemma_prefix_codes(start, table[r].keys);
        assert(goes_on(table, start));
    }
    if goes_on(table, start) {
        let r = choose|r: int|
            0 <= r < table.len() && start.len() < (#[trigger] table[r]).keys.len() && begins_with(
                table[r].keys,
                start,
            );
        lemma_prefix_codes(start, table[r].keys);
        assert(entries.dom().contains(codes_of(table[r].keys)));
        assert(has_longer(entries, query));
    }
    if entries.dom().contains(query) {
        let r = entries[query] as int;
        lemma_codes_injective(table[r].keys, start);
        assert(has_chord(table, start));
    }
    if has_chord(table, start) {
        let r = row_of(table, start);
        assert(entries.dom().contains(codes_of(table[r].keys)));
        assert(entries[query] == r);
    }
}

/// A chord of one press that no longer chord begins with fires as soon as
/// the press is made, and the cursor is back at the root.
pub proof fn lemma_single_press_fires<E>(table: Seq<Row<E>>, a: KeyBind)
    requires
        distinct_chords(table),
        table.len() <= usize::MAX,
        has_chord(table, seq![a]),
        !goes_on(table, seq![a]),
    ensures
        advance(index_of(table), Seq::empty(), code_of(a)) == (Step {
            pending: Seq::empty(),
            fired: seq![row_of(table, seq![a]) as usize],
        }),
{
    lemma_index_answers(table, seq![a]);
    assert(Seq::<u64>::empty().push(code_of(a)) =~= codes_of(seq![a]));
}

/// Where a chord of two presses is bound, the first press fires nothing,
/// whether or not it is a chord of its own, and the second press fires the
/// chord of two presses and nothing else.
pub proof fn lemma_longer_chord_wins<E>(table: Seq<Row<E>>, a: KeyBind, b: KeyBind)
    requires
        distinct_chords(table),
        table.len() <= usize::MAX,
        has_chord(table, seq![a, b]),
        !goes_on(table, seq![a, b]),
    ensures
        advance(index_of(table), Seq::empty(), code_of(a)) == (Step {
            pending: seq![code_of(a)],
            fired: Seq::empty(),
        }),
        advance(index_of(table), seq![code_of(a)], code_of(b)) == (Step {
            pending: Seq::empty(),
            fired: seq![row_of(table, seq![a, b]) as usize],
        }),
{
    lemma_index_answers(table, seq![a]);
    lemma_index_answers(table, seq![a, b]);
    assert(Seq::<u64>::empty().push(code_of(a)) =~= codes_of(seq![a]));
    assert(seq![code_of(a)].push(code_of(b)) =~= codes_of(seq![a, b]));
    assert(seq![code_of(a)] =~= codes_of(seq![a]));
    let r = row_of(table, seq![a, b]);
    assert(table[r].keys.subrange(0, 1) =~= seq![a]);
    assert(goes_on(table, seq![a]));
}

/// A chord that is left half way fires nothing: where the first press of a
/// chord of two is no chord of its own, and the press that follows leads
/// nowhere, nothing fires and the cursor is back at the root, ready for the
/// next press.
pub proof fn lemma_abandoned_chord_is_silent<E>(table: Seq<Row<E>>, a: KeyBind, b: KeyBind, c: KeyBind)
    requires
        distinct_chords(table),
        table.len() <= usize::MAX,
        has_chord(table, seq![a, b]),
        !has_chord(table, seq![a]),
        !has_chord(table, seq![a, c]),
        !goes_on(table, seq![a, c]),
    ensures
        advance(index_of(table), Seq::empty(), code_of(a)) == (Step {
            pending: seq![code_of(a)],
            fired: Seq::empty(),
        }),
        advance(index_of(table), seq![code_of(a)], code_of(c)) == (Step {
            pending: Seq::empty(),
            fired: Seq::empty(),
        }),
{
    lemma_index_answers(table, seq![a]);
    lemma_index_answers(table, seq![a, c]);
    assert(Seq::<u64>::empty().push(code_of(a)) =~= codes_of(seq![a]));
    assert(seq![code_of(a)].push(code_of(c)) =~= codes_of(seq![a, c]));
    assert(seq![code_of(a)] =~= codes_of(seq![a]));
    let r = row_of(table, seq![a, b]);
    assert(table[r].keys.subrange(0, 1) =~= seq![a]);
    assert(goes_on(table, seq![a]));
}

/// Where a chord is the beginning of longer chords and the press that
/// follows it leads nowhere, the chord fires, and the same press is then
/// taken from the root.
pub proof fn lemma_shorter_chord_fires_at_dead_end<E>(table: Seq<Row<E>>, a: KeyBind, c: KeyBind)
    requires
        distinct_chords(table),
        table.len() <= usize::MAX,
        has_chord(table, seq![a]),
        !has_chord(table, seq![a, c]),
        !goes_on(table, seq![a, c]),
    ensures
        advance(index_of(table), seq![code_of(a)], code_of(c)) == (Step {
            pending: from_root(index_of(table), code_of(c)).pending,
            fired: seq![row_of(table, seq![a]) as usize] + from_root(
                index_of(table),
                code_of(c),
            ).fired,
        }),
{
    lemma_index_answers(table, seq![a]);
    lemma_index_answers(table, seq![a, c]);
    assert(seq![code_of(a)].push(code_of(c)) =~= codes_of(seq![a, c]));
    assert(seq![code_of(a)] =~= codes_of(seq![a]));
}

/// Asks the index about a sequence of presses: what it says of the
/// sequence, and the row of the chord that the sequence is, if it is one.
pub(crate) fn ask(trie: &KeyTrie, query: &Vec<u64>) -> (r: (Option<Answer>, Option<usize>))
    ensures
        r.0 == answer(trie_entries(*trie), query@),
        r.1 == (if trie_entries(*trie).dom().contains(query@) {
            Some(trie_entries(*trie)[query@])
        } else {
            None
        }),
{
    let longer = is_prefix(trie, query);
    let row = exact_match(trie, query);
    let said = if longer && row.is_some() {
        Some(Answer::PrefixAndMatch)
    } else if longer {
        Some(Answer::Prefix)
    } else if row.is_some() {
        Some(Answer::Match)
    } else {
        None
    };
    (said, row)
}

/// Builds the index that belongs to a table.
pub(crate) fn build_index<E>(table: &Vec<Binding<E>>) -> (trie: KeyTrie)
    ensures
        trie_entries(trie) == index_of(rows(table@)),
{
    let mut builder = builder_new();
    let mut i: usize = 0;
    while i < table.len()
        invariant
            i <= table@.len(),
            builder_entries(builder) == index_of(rows(table@).subrange(0, i as int)),
        decreases table@.len() - i,
    {
        proof {
            assert(rows(table@).subrange(0, i + 1).drop_last() =~= rows(table@).subrange(0, i as int));
            assert(rows(table@).subrange(0, i + 1).last() == table@[i as int]@);
        }
        if table[i].chord.len() > 0 {
            let labels = table[i].chord.codes();
            builder_push(&mut builder, &labels, i);
        }
        i += 1;
    }
    proof {
        assert(rows(table@).subrange(0, i as int) =~= rows(table@));
    }
    builder_build(builder)
}

} // verus!
