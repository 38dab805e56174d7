//! Counting names and ranking them by how often they occur.

use crate::text::texts;
use vstd::prelude::*;

verus! {

/// A name and how often it occurs.
pub struct Entry {
    pub name: String,
    pub count: usize,
}

impl View for Entry {
    type V = (Seq<char>, nat);

    open spec fn view(&self) -> (Seq<char>, nat) {
        (self.name@, self.count as nat)
    }
}

/// The names and counts that some entries hold.
pub open spec fn views(entries: Seq<Entry>) -> Seq<(Seq<char>, nat)> {
    entries.map_values(|e: Entry| e@)
}

/// How often `name` occurs among `names`.
pub open spec fn count_of(names: Seq<Seq<char>>, name: Seq<char>) -> nat
    decreases names.len(),
{
    if names.len() == 0 {
        0
    } else {
        count_of(names.drop_last(), name) + if names.last() == name {
            1nat
        } else {
            0nat
        }
    }
}

/// Each name once, in the order in which the names first occur.
pub open spec fn distinct(names: Seq<Seq<char>>) -> Seq<Seq<char>>
    decreases names.len(),
{
    if names.len() == 0 {
        Seq::empty()
    } else if names.drop_last().contains(names.last()) {
        distinct(names.drop_last())
    } else {
        distinct(names.drop_last()).push(names.last())
    }
}

/// Each name once with its count, in the order in which the names first occur.
pub open spec fn tally(names: Seq<Seq<char>>) -> Seq<(Seq<char>, nat)> {
    distinct(names).map_values(|name: Seq<char>| (name, count_of(names, name)))
}

/// Puts an entry behind all entries that count at least as much.
pub open spec fn place(ranked: Seq<(Seq<char>, nat)>, entry: (Seq<char>, nat)) -> Seq<
    (Seq<char>, nat),
>
    decreases ranked.len(),
{
    if ranked.len() == 0 || ranked.last().1 >= entry.1 {
        ranked.push(entry)
    } else {
        place(ranked.drop_last(), entry).push(ranked.last())
    }
}

/// Entries by falling count; those that count the same keep their order.
pub open spec fn by_count(entries: Seq<(Seq<char>, nat)>) -> Seq<(Seq<char>, nat)>
    decreases entries.len(),
{
    if entries.len() == 0 {
        Seq::empty()
    } else {
        place(by_count(entries.drop_last()), entries.last())
    }
}

/// Each name once with its count, the most frequent first; names that occur equally often stand
/// in the order in which they first occur.
pub open spec fn ranking(names: Seq<Seq<char>>) -> Seq<(Seq<char>, nat)> {
    by_count(tally(names))
}

proof fn lemma_count_bounds(names: Seq<Seq<char>>, name: Seq<char>)
    ensures
        count_of(names, name) <= names.len(),
        count_of(names, name) > 0 <==> names.contains(name),
    decreases names.len(),
{
    if names.len() > 0 {
        let front = names.drop_last();
        lemma_count_bounds(front, name);
        if front.contains(name) {
            let i = choose|i: int| 0 <= i < front.len() && front[i] == name;
            assert(names[i] == name);
        }
        if names.contains(name) && names.last() != name {
            let i = choose|i: int| 0 <= i < names.len() && names[i] == name;
            assert(front[i] == name);
        }
        if names.last() == name {
            assert(names[names.len() - 1] == name);
        }
    }
}

proof fn lemma_distinct(names: Seq<Seq<char>>)
    ensures
        distinct(names).no_duplicates(),
        forall|name: Seq<char>| distinct(names).contains(name) <==> names.contains(name),
    decreases names.len(),
{
    if names.len() > 0 {
        let front = names.drop_last();
        let last = names.last();
        lemma_distinct(front);
        assert(names =~= front.push(last));
        assert forall|name: Seq<char>| distinct(names).contains(name) implies names.contains(
            name,
        ) by {
            if distinct(front).contains(name) {
                assert(front.contains(name));
                let i = choose|i: int| 0 <= i < front.len() && front[i] == name;
                assert(names[i] == name);
            } else {
                let k = choose|k: int|
                    0 <= k < distinct(names).len() && distinct(names)[k] == name;
                if k < distinct(front).len() {
                    assert(distinct(front)[k] == name);
                }
                assert(names[names.len() - 1] == name);
            }
        }
        assert forall|name: Seq<char>| names.contains(name) implies distinct(names).contains(
            name,
        ) by {
            let i = choose|i: int| 0 <= i < names.len() && names[i] == name;
            if i < front.len() {
                assert(front[i] == name);
                assert(front.contains(name));
            }
            if front.contains(name) {
                let k = choose|k: int|
                    0 <= k < distinct(front).len() && distinct(front)[k] == name;
                assert(distinct(names)[k] == name);
            } else {
                assert(distinct(names).last() == name);
            }
        }
    }
}

/// One more occurrence of a name that is already counted, or a new name.
proof fn lemma_tally_push(names: Seq<Seq<char>>, name: Seq<char>, at: int)
    requires
        0 <= at <= distinct(names).len(),
        at < distinct(names).len() ==> distinct(names)[at] == name,
        at == distinct(names).len() ==> !names.contains(name),
    ensures
        tally(names.push(name)) == if at < distinct(names).len() {
            tally(names).update(at, (name, count_of(names, name) + 1))
        } else {
            tally(names).push((name, 1nat))
        },
{
    let more = names.push(name);
    assert(more.drop_last() =~= names);
    lemma_distinct(names);
    lemma_count_bounds(names, name);
    if at < distinct(names).len() {
        assert(distinct(names).contains(name));
        assert(distinct(more) == distinct(names));
        assert(tally(more) =~= tally(names).update(at, (name, count_of(names, name) + 1)));
    } else {
        assert(distinct(more) == distinct(names).push(name));
        assert forall|i: int| 0 <= i < distinct(names).len() implies distinct(names)[i] != name by {
            assert(distinct(names).contains(distinct(names)[i]));
        }
        assert(tally(more) =~= tally(names).push((name, 1nat)));
    }
}

/// Counts one more occurrence of a name.
fn add_name(entries: &mut Vec<Entry>, name: &String, Ghost(names): Ghost<Seq<Seq<char>>>)
    requires
        views(old(entries)@) == tally(names),
        names.len() < usize::MAX,
    ensures
        views(final(entries)@) == tally(names.push(name@)),
{
    proof {
        lemma_distinct(names);
        lemma_count_bounds(names, name@);
        assert(views(entries@).len() == entries@.len());
        assert(tally(names).len() == distinct(names).len());
    }
    let mut i: usize = 0;
    while i < entries.len()
        invariant
            i <= entries@.len(),
            views(entries@) == tally(names),
            entries@.len() == distinct(names).len(),
            names.len() < usize::MAX,
            count_of(names, name@) <= names.len(),
            forall|j: int| 0 <= j < i ==> (#[trigger] distinct(names)[j]) != name@,
            entries@ == old(entries)@,
        decreases entries@.len() - i,
    {
        assert(views(entries@)[i as int] == tally(names)[i as int]);
        if entries[i].name == *name {
            let count = entries[i].count;
            proof {
                lemma_tally_push(names, name@, i as int);
            }
            entries.set(i, Entry { name: name.clone(), count: count + 1 });
            assert(views(entries@) =~= tally(names.push(name@)));
            return;
        }
        i = i + 1;
    }
    proof {
        if names.contains(name@) {
            assert(distinct(names).contains(name@));
        }
        lemma_tally_push(names, name@, distinct(names).len() as int);
    }
    entries.push(Entry { name: name.clone(), count: 1 });
    assert(views(entries@) =~= tally(names.push(name@)));
}

/// Counts how often each name occurs.
fn count_names(names: &Vec<String>) -> (entries: Vec<Entry>)
    ensures
        views(entries@) == tally(texts(names@)),
{
    let mut entries: Vec<Entry> = Vec::new();
    let total = names.len();
    let mut i: usize = 0;
    assert(views(entries@) =~= tally(texts(names@).take(0)));
    while i < total
        invariant
            i <= total,
            total == names@.len(),
            views(entries@) == tally(texts(names@).take(i as int)),
        decreases names@.len() - i,
    {
        add_name(&mut entries, &names[i], Ghost(texts(names@).take(i as int)));
        assert(texts(names@).take(i as int).push(names@[i as int]@) =~= texts(names@).take(i + 1));
        i = i + 1;
    }
    assert(texts(names@).take(names@.len() as int) =~= texts(names@));
    entries
}

proof fn lemma_place(ranked: Seq<(Seq<char>, nat)>, entry: (Seq<char>, nat), at: int)
    requires
        0 <= at <= ranked.len(),
        at > 0 ==> ranked[at - 1].1 >= entry.1,
        forall|i: int| at <= i < ranked.len() ==> (#[trigger] ranked[i]).1 < entry.1,
    ensures
        place(ranked, entry) == ranked.insert(at, entry),
    decreases ranked.len(),
{
    if at < ranked.len() {
        let front = ranked.drop_last();
        assert(ranked[ranked.len() - 1].1 < entry.1);
        assert forall|i: int| at <= i < front.len() implies (#[trigger] front[i]).1 < entry.1 by {
            assert(front[i] == ranked[i]);
        }
        lemma_place(front, entry, at);
        assert(front.insert(at, entry).push(ranked.last()) =~= ranked.insert(at, entry));
    } else {
        assert(ranked.push(entry) =~= ranked.insert(at, entry));
    }
}

/// Puts an entry behind all entries that count at least as much.
fn place_entry(ranked: &mut Vec<Entry>, entry: Entry)
    ensures
        views(final(ranked)@) == place(views(old(ranked)@), entry@),
{
    let mut at: usize = ranked.len();
    while at > 0 && ranked[at - 1].count < entry.count
        invariant
            at <= ranked@.len(),
            ranked@ == old(ranked)@,
            forall|i: int|
                at <= i < ranked@.len() ==> (#[trigger] views(ranked@)[i]).1 < entry@.1,
        decreases at,
    {
        at = at - 1;
    }
    proof {
        lemma_place(views(ranked@), entry@, at as int);
    }
    ranked.insert(at, entry);
    assert(views(ranked@) =~= views(old(ranked)@).insert(at as int, entry@));
}

/// Ranks names by how often they occur, the most frequent first; names that occur equally often
/// stand in the order in which they first occur.
pub fn rank(names: &Vec<String>) -> (ranked: Vec<Entry>)
    ensures
        views(ranked@) == ranking(texts(names@)),
        ranked@.len() == texts(names@).to_set().len(),
        forall|i: int|
            0 <= i < ranked@.len() ==> (#[trigger] ranked@[i]).count == texts(
                names@,
            ).to_multiset().count(ranked@[i].name@),
{
    let entries = count_names(names);
    let mut ranked: Vec<Entry> = Vec::new();
    let mut i: usize = 0;
    assert(views(ranked@) =~= by_count(views(entries@).take(0)));
    while i < entries.len()
        invariant
            i <= entries@.len(),
            views(ranked@) == by_count(views(entries@).take(i as int)),
        decreases entries@.len() - i,
    {
        let entry = Entry { name: entries[i].name.clone(), count: entries[i].count };
        place_entry(&mut ranked, entry);
        let ghost longer = views(entries@).take(i + 1);
        assert(longer.drop_last() =~= views(entries@).take(i as int));
        assert(longer.last() == entry@);
        i = i + 1;
    }
    assert(views(entries@).take(entries@.len() as int) =~= views(entries@));
    proof {
        law_ranking_of_names(texts(names@));
        assert(views(ranked@).len() == ranked@.len());
        assert forall|i: int| 0 <= i < ranked@.len() implies (#[trigger] ranked@[i]).count == texts(
            names@,
        ).to_multiset().count(ranked@[i].name@) by {
            assert(views(ranked@)[i] == ranked@[i]@);
            assert(texts(names@).contains(ranking(texts(names@))[i].0));
        }
    }
    ranked
}

/// Whether `a` occurs before the first `b`.
pub open spec fn occurs_first(names: Seq<Seq<char>>, a: Seq<char>, b: Seq<char>) -> bool {
    exists|k: int|
        0 <= k < names.len() && #[trigger] names[k] == a && !names.take(k + 1).contains(b)
}

/// All counts added up.
pub open spec fn total(entries: Seq<(Seq<char>, nat)>) -> nat
    decreases entries.len(),
{
    if entries.len() == 0 {
        0
    } else {
        total(entries.drop_last()) + entries.last().1
    }
}

/// Whether `a` has its place before `b` in a ranking of `entries`.
spec fn ahead(entries: Seq<(Seq<char>, nat)>, a: (Seq<char>, nat), b: (Seq<char>, nat)) -> bool {
    a.1 > b.1 || (a.1 == b.1 && exists|p: int, q: int|
        0 <= p < q < entries.len() && #[trigger] entries[p] == a && #[trigger] entries[q] == b)
}

/// Where an entry is put.
proof fn lemma_place_position(ranked: Seq<(Seq<char>, nat)>, entry: (Seq<char>, nat)) -> (at: int)
    requires
        forall|i: int, j: int| 0 <= i < j < ranked.len() ==> ranked[i].1 >= ranked[j].1,
    ensures
        0 <= at <= ranked.len(),
        place(ranked, entry) == ranked.insert(at, entry),
        forall|i: int| 0 <= i < at ==> (#[trigger] ranked[i]).1 >= entry.1,
        forall|i: int| at <= i < ranked.len() ==> (#[trigger] ranked[i]).1 < entry.1,
    decreases ranked.len(),
{
    if ranked.len() == 0 || ranked.last().1 >= entry.1 {
        lemma_place(ranked, entry, ranked.len() as int);
        ranked.len() as int
    } else {
        let front = ranked.drop_last();
        let at = lemma_place_position(front, entry);
        assert forall|i: int| 0 <= i < at implies (#[trigger] ranked[i]).1 >= entry.1 by {
            assert(front[i] == ranked[i]);
        }
        assert forall|i: int| at <= i < ranked.len() implies (#[trigger] ranked[i]).1
            < entry.1 by {
            if i < front.len() {
                assert(front[i] == ranked[i]);
            }
        }
        lemma_place(ranked, entry, at);
        at
    }
}

proof fn lemma_by_count(entries: Seq<(Seq<char>, nat)>)
    ensures
        by_count(entries).len() == entries.len(),
        forall|e: (Seq<char>, nat)| by_count(entries).contains(e) <==> entries.contains(e),
        forall|i: int, j: int|
            0 <= i < j < entries.len() ==> ahead(
                entries,
                #[trigger] by_count(entries)[i],
                #[trigger] by_count(entries)[j],
            ),
    decreases entries.len(),
{
    if entries.len() > 0 {
        let front = entries.drop_last();
        let last = entries.last();
        let before = by_count(front);
        let ranked = by_count(entries);
        lemma_by_count(front);
        assert forall|i: int, j: int| 0 <= i < j < before.len() implies before[i].1
            >= before[j].1 by {
            assert(ahead(front, before[i], before[j]));
        }
        let at = lemma_place_position(before, last);
        assert(entries =~= front.push(last));
        assert forall|e: (Seq<char>, nat)| ranked.contains(e) implies entries.contains(e) by {
            let i = choose|i: int| 0 <= i < ranked.len() && ranked[i] == e;
            if i == at {
                assert(entries[entries.len() - 1] == e);
            } else {
                let k = if i < at {
                    i
                } else {
                    i - 1
                };
                assert(before[k] == e);
                assert(before.contains(e));
                assert(front.contains(e));
                let m = choose|m: int| 0 <= m < front.len() && front[m] == e;
                assert(entries[m] == e);
            }
        }
        assert forall|e: (Seq<char>, nat)| entries.contains(e) implies ranked.contains(e) by {
            let m = choose|m: int| 0 <= m < entries.len() && entries[m] == e;
            if m == front.len() {
                assert(ranked[at] == e);
            } else {
                assert(front[m] == e);
                assert(front.contains(e));
                assert(before.contains(e));
                let k = choose|k: int| 0 <= k < before.len() && before[k] == e;
                if k < at {
                    assert(ranked[k] == e);
                } else {
                    assert(ranked[k + 1] == e);
                }
            }
        }
        assert forall|i: int, j: int| 0 <= i < j < entries.len() implies ahead(
            entries,
            #[trigger] ranked[i],
            #[trigger] ranked[j],
        ) by {
            if i == at {
                assert(ranked[j] == before[j - 1]);
            } else if j == at {
                assert(ranked[i] == before[i]);
                assert(before.contains(before[i]));
                assert(front.contains(before[i]));
                let p = choose|p: int| 0 <= p < front.len() && front[p] == before[i];
                assert(entries[p] == ranked[i]);
                assert(entries[entries.len() - 1] == ranked[j]);
            } else {
                let a = if i < at {
                    i
                } else {
                    i - 1
                };
                let b = if j < at {
                    j
                } else {
                    j - 1
                };
                assert(ranked[i] == before[a] && ranked[j] == before[b]);
                assert(ahead(front, before[a], before[b]));
                if before[a].1 == before[b].1 {
                    let (p, q) = choose|p: int, q: int|
                        0 <= p < q < front.len() && #[trigger] front[p] == before[a]
                            && #[trigger] front[q] == before[b];
                    assert(entries[p] == before[a] && entries[q] == before[b]);
                }
            }
        }
    }
}

/// Names stand in `distinct` in the order of their first occurrences.
proof fn lemma_distinct_order(names: Seq<Seq<char>>, p: int, q: int)
    requires
        0 <= p < q < distinct(names).len(),
    ensures
        occurs_first(names, distinct(names)[p], distinct(names)[q]),
    decreases names.len(),
{
    let front = names.drop_last();
    let a = distinct(names)[p];
    let b = distinct(names)[q];
    lemma_distinct(front);
    if q < distinct(front).len() {
        assert(a == distinct(front)[p] && b == distinct(front)[q]);
        lemma_distinct_order(front, p, q);
        let k = choose|k: int|
            0 <= k < front.len() && #[trigger] front[k] == a && !front.take(k + 1).contains(b);
        assert(names[k] == a);
        assert(names.take(k + 1) =~= front.take(k + 1));
    } else {
        assert(b == names.last() && !front.contains(b));
        assert(a == distinct(front)[p]);
        assert(distinct(front).contains(a));
        assert(front.contains(a));
        let k = choose|k: int| 0 <= k < front.len() && front[k] == a;
        assert(names[k] == a);
        let head = names.take(k + 1);
        if head.contains(b) {
            let m = choose|m: int| 0 <= m < head.len() && head[m] == b;
            assert(front[m] == b);
        }
    }
}

proof fn lemma_total_insert(
    entries: Seq<(Seq<char>, nat)>,
    at: int,
    entry: (Seq<char>, nat),
)
    requires
        0 <= at <= entries.len(),
    ensures
        total(entries.insert(at, entry)) == total(entries) + entry.1,
    decreases entries.len(),
{
    let longer = entries.insert(at, entry);
    if at == entries.len() {
        assert(longer.drop_last() =~= entries);
    } else {
        lemma_total_insert(entries.drop_last(), at, entry);
        assert(longer.drop_last() =~= entries.drop_last().insert(at, entry));
    }
}

proof fn lemma_total_update(
    entries: Seq<(Seq<char>, nat)>,
    at: int,
    entry: (Seq<char>, nat),
)
    requires
        0 <= at < entries.len(),
    ensures
        total(entries.update(at, entry)) + entries[at].1 == total(entries) + entry.1,
    decreases entries.len(),
{
    let changed = entries.update(at, entry);
    if at == entries.len() - 1 {
        assert(changed.drop_last() =~= entries.drop_last());
    } else {
        lemma_total_update(entries.drop_last(), at, entry);
        assert(changed.drop_last() =~= entries.drop_last().update(at, entry));
    }
}

proof fn lemma_total_by_count(entries: Seq<(Seq<char>, nat)>)
    ensures
        total(by_count(entries)) == total(entries),
    decreases entries.len(),
{
    if entries.len() > 0 {
        let front = entries.drop_last();
        lemma_total_by_count(front);
        lemma_by_count(front);
        assert forall|i: int, j: int| 0 <= i < j < by_count(front).len() implies by_count(
            front,
        )[i].1 >= by_count(front)[j].1 by {
            assert(ahead(front, by_count(front)[i], by_count(front)[j]));
        }
        let at = lemma_place_position(by_count(front), entries.last());
        lemma_total_insert(by_count(front), at, entries.last());
    }
}

proof fn lemma_total_tally(names: Seq<Seq<char>>)
    ensures
        total(tally(names)) == names.len(),
    decreases names.len(),
{
    if names.len() > 0 {
        let front = names.drop_last();
        let last = names.last();
        lemma_total_tally(front);
        lemma_distinct(front);
        assert(front.push(last) =~= names);
        if front.contains(last) {
            assert(distinct(front).contains(last));
            let at = choose|at: int| 0 <= at < distinct(front).len() && distinct(front)[at] == last;
            lemma_tally_push(front, last, at);
            lemma_total_update(tally(front), at, (last, count_of(front, last) + 1));
        } else {
            lemma_tally_push(front, last, distinct(front).len() as int);
            assert(tally(names).drop_last() =~= tally(front));
        }
    }
}

/// What a ranking is: each name that occurs stands in it once, with the number of its
/// occurrences; the counts fall; of two names that occur equally often the one that occurs first
/// comes first.
pub proof fn law_ranking(names: Seq<Seq<char>>)
    ensures
        forall|i: int|
            0 <= i < ranking(names).len() ==> {
                let entry = #[trigger] ranking(names)[i];
                names.contains(entry.0) && entry.1 == count_of(names, entry.0) && entry.1 > 0
            },
        forall|name: Seq<char>| #[trigger]
            names.contains(name) ==> exists|i: int|
                0 <= i < ranking(names).len() && #[trigger] ranking(names)[i].0 == name,
        forall|i: int, j: int|
            0 <= i < j < ranking(names).len() ==> {
                let a = #[trigger] ranking(names)[i];
                let b = #[trigger] ranking(names)[j];
                a.0 != b.0 && (a.1 > b.1 || (a.1 == b.1 && occurs_first(names, a.0, b.0)))
            },
{
    let entries = tally(names);
    let ranked = ranking(names);
    lemma_distinct(names);
    lemma_by_count(entries);
    assert forall|i: int| 0 <= i < ranked.len() implies {
        let entry = #[trigger] ranked[i];
        names.contains(entry.0) && entry.1 == count_of(names, entry.0) && entry.1 > 0
    } by {
        assert(ranked.contains(ranked[i]));
        assert(entries.contains(ranked[i]));
        let k = choose|k: int| 0 <= k < entries.len() && entries[k] == ranked[i];
        assert(distinct(names)[k] == ranked[i].0);
        assert(distinct(names).contains(ranked[i].0));
        lemma_count_bounds(names, ranked[i].0);
    }
    assert forall|name: Seq<char>| #[trigger] names.contains(name) implies exists|i: int|
        0 <= i < ranked.len() && #[trigger] ranked[i].0 == name by {
        assert(distinct(names).contains(name));
        let k = choose|k: int| 0 <= k < distinct(names).len() && distinct(names)[k] == name;
        assert(entries[k].0 == name);
        assert(entries.contains(entries[k]));
        assert(ranked.contains(entries[k]));
        let i = choose|i: int| 0 <= i < ranked.len() && ranked[i] == entries[k];
        assert(ranked[i].0 == name);
    }
    assert forall|i: int, j: int| 0 <= i < j < ranked.len() implies {
        let a = #[trigger] ranked[i];
        let b = #[trigger] ranked[j];
        a.0 != b.0 && (a.1 > b.1 || (a.1 == b.1 && occurs_first(names, a.0, b.0)))
    } by {
        let a = ranked[i];
        let b = ranked[j];
        assert(ahead(entries, a, b));
        if a.1 == b.1 {
            let (p, q) = choose|p: int, q: int|
                0 <= p < q < entries.len() && #[trigger] entries[p] == a && #[trigger] entries[q]
                    == b;
            assert(distinct(names)[p] == a.0 && distinct(names)[q] == b.0);
            lemma_distinct_order(names, p, q);
        }
    }
}

/// The counts of a ranking add up to the number of names that were counted.
pub proof fn law_counts_add_up(names: Seq<Seq<char>>)
    ensures
        total(ranking(names)) == names.len(),
{
    lemma_total_by_count(tally(names));
    lemma_total_tally(names);
}

/// A ranking has as many entries as there are different names.
pub proof fn law_each_name_once(names: Seq<Seq<char>>)
    ensures
        ranking(names).len() == names.to_set().len(),
{
    lemma_by_count(tally(names));
    lemma_distinct(names);
    distinct(names).unique_seq_to_set();
    assert(distinct(names).to_set() =~= names.to_set());
}

/// Whether no two different names occur equally often.
pub open spec fn untied(names: Seq<Seq<char>>) -> bool {
    forall|a: Seq<char>, b: Seq<char>|
        names.contains(a) && names.contains(b) && a != b ==> #[trigger] count_of(names, a)
            != #[trigger] count_of(names, b)
}

/// Each entry of one ranking stands in another ranking of names that occur as often.
proof fn lemma_entry_in_other(a: Seq<Seq<char>>, b: Seq<Seq<char>>, i: int) -> (j: int)
    requires
        forall|name: Seq<char>| #[trigger] count_of(a, name) == count_of(b, name),
        0 <= i < ranking(a).len(),
    ensures
        0 <= j < ranking(b).len(),
        ranking(b)[j] == ranking(a)[i],
{
    law_ranking(a);
    law_ranking(b);
    let entry = ranking(a)[i];
    assert(count_of(a, entry.0) == count_of(b, entry.0));
    lemma_count_bounds(b, entry.0);
    assert(b.contains(entry.0));
    choose|j: int| 0 <= j < ranking(b).len() && #[trigger] ranking(b)[j].0 == entry.0
}

/// The first entries of two untied rankings are the same.
proof fn lemma_same_front(a: Seq<Seq<char>>, b: Seq<Seq<char>>, n: int)
    requires
        forall|name: Seq<char>| #[trigger] count_of(a, name) == count_of(b, name),
        untied(a),
        untied(b),
        0 <= n <= ranking(a).len(),
        n <= ranking(b).len(),
    ensures
        forall|i: int| 0 <= i < n ==> #[trigger] ranking(a)[i] == ranking(b)[i],
    decreases n,
{
    if n > 0 {
        let i = n - 1;
        lemma_same_front(a, b, i);
        law_ranking(a);
        law_ranking(b);
        let j = lemma_entry_in_other(a, b, i);
        let k = lemma_entry_in_other(b, a, i);
        if j < i {
            assert(ranking(a)[j] == ranking(b)[j]);
            assert(ranking(a)[j].0 != ranking(a)[i].0);
        }
        if k < i {
            assert(ranking(a)[k] == ranking(b)[k]);
            assert(ranking(b)[k].0 != ranking(b)[i].0);
        }
        if j > i {
            assert(ranking(b)[i].0 != ranking(b)[j].0);
            assert(ranking(b)[i].1 != ranking(b)[j].1);
            assert(ranking(b)[i].1 > ranking(b)[j].1);
            if k > i {
                assert(ranking(a)[i].1 >= ranking(a)[k].1);
            }
        }
    }
}

/// Where no two names occur equally often, a ranking depends only on how often each name occurs,
/// not on the order of the names.
pub proof fn law_untied_ranking(a: Seq<Seq<char>>, b: Seq<Seq<char>>)
    requires
        forall|name: Seq<char>| #[trigger] count_of(a, name) == count_of(b, name),
        untied(a),
    ensures
        untied(b),
        ranking(a) == ranking(b),
{
    assert forall|x: Seq<char>, y: Seq<char>|
        b.contains(x) && b.contains(y) && x != y implies #[trigger] count_of(b, x)
        != #[trigger] count_of(b, y) by {
        lemma_count_bounds(a, x);
        lemma_count_bounds(a, y);
        lemma_count_bounds(b, x);
        lemma_count_bounds(b, y);
        assert(count_of(a, x) == count_of(b, x));
        assert(count_of(a, y) == count_of(b, y));
    }
    assert forall|name: Seq<char>| a.to_set().contains(name) <==> b.to_set().contains(name) by {
        lemma_count_bounds(a, name);
        lemma_count_bounds(b, name);
        assert(count_of(a, name) == count_of(b, name));
    }
    assert(a.to_set() =~= b.to_set());
    law_each_name_once(a);
    law_each_name_once(b);
    lemma_same_front(a, b, ranking(a).len() as int);
    assert(ranking(a) =~= ranking(b));
}

/// A name counts as often as it occurs.
pub proof fn law_count_is_multiplicity(names: Seq<Seq<char>>, name: Seq<char>)
    ensures
        count_of(names, name) == names.to_multiset().count(name),
    decreases names.len(),
{
    broadcast use vstd::multiset::group_multiset_axioms;

    if names.len() > 0 {
        let front = names.drop_last();
        law_count_is_multiplicity(front, name);
        assert(front.push(names.last()) =~= names);
        vstd::seq_lib::to_multiset_build(front, names.last());
    } else {
        names.to_multiset_ensures();
        vstd::seq_lib::to_multiset_contains(names, name);
    }
}

/// The view of an entry holds its name and its whole count.
pub proof fn law_entry_view(entry: Entry)
    ensures
        entry@ == (entry.name@, entry.count as nat),
{
}

/// Every entry has its view, in the order of the entries.
pub proof fn law_views(entries: Seq<Entry>)
    ensures
        views(entries).len() == entries.len(),
        forall|i: int|
            0 <= i < entries.len() ==> #[trigger] views(entries)[i] == (
                entries[i].name@,
                entries[i].count as nat,
            ),
{
}

/// A ranking in terms of the names alone: it has one entry for each different name, with the
/// number of times that the name occurs; more frequent names come first, and of names that occur
/// equally often the one that occurs first.
pub proof fn law_ranking_of_names(names: Seq<Seq<char>>)
    ensures
        ranking(names).len() == names.to_set().len(),
        forall|i: int|
            0 <= i < ranking(names).len() ==> names.contains(#[trigger] ranking(names)[i].0)
                && ranking(names)[i].1 == names.to_multiset().count(ranking(names)[i].0),
        forall|name: Seq<char>| #[trigger]
            names.contains(name) ==> exists|i: int|
                0 <= i < ranking(names).len() && #[trigger] ranking(names)[i].0 == name,
        forall|i: int, j: int|
            0 <= i < j < ranking(names).len() ==> (#[trigger] ranking(names)[i]).0 != (
            #[trigger] ranking(names)[j]).0,
        forall|i: int, j: int|
            0 <= i < j < ranking(names).len() ==> (#[trigger] ranking(names)[i]).1 >= (
            #[trigger] ranking(names)[j]).1,
        forall|i: int, j: int|
            0 <= i < j < ranking(names).len() && (#[trigger] ranking(names)[i]).1 == (
            #[trigger] ranking(names)[j]).1 ==> exists|k: int|
                0 <= k < names.len() && #[trigger] names[k] == ranking(names)[i].0 && forall|m: int|
                    0 <= m <= k ==> #[trigger] names[m] != ranking(names)[j].0,
{
    law_ranking(names);
    law_each_name_once(names);
    let ranked = ranking(names);
    assert forall|i: int| 0 <= i < ranked.len() implies names.contains(#[trigger] ranked[i].0)
        && ranked[i].1 == names.to_multiset().count(ranked[i].0) by {
        law_count_is_multiplicity(names, ranked[i].0);
    }
    assert forall|i: int, j: int|
        0 <= i < j < ranked.len() && (#[trigger] ranked[i]).1 == (
        #[trigger] ranked[j]).1 implies exists|k: int|
        0 <= k < names.len() && #[trigger] names[k] == ranked[i].0 && forall|m: int|
            0 <= m <= k ==> #[trigger] names[m] != ranked[j].0 by {
        let a = ranked[i].0;
        let b = ranked[j].0;
        assert(occurs_first(names, a, b));
        let k = choose|k: int|
            0 <= k < names.len() && #[trigger] names[k] == a && !names.take(k + 1).contains(b);
        assert forall|m: int| 0 <= m <= k implies #[trigger] names[m] != b by {
            assert(names.take(k + 1)[m] == names[m]);
        }
        assert(names[k] == a);
    }
}

} // verus!
