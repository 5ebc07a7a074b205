//! The latest figures of every container seen so far, and what taking in a
//! sample or reading a line does to them.
//!
//! The store is plain data behind `&mut`: whoever shares it among tasks puts
//! it behind a lock, and holds the lock for one call.

use crate::decode::{decode, decoded, json_text_members, Field, ParseError};
use crate::stat::{normalized, parse_stat, DockerMetrics, DockerStat, MetricsView, StatView};
use vstd::prelude::*;

verus! {

/// The figures kept for each container once the sample `stat` has been taken
/// in: those of `stat` under its name, whatever stood there before, and all
/// others as they were.
pub open spec fn updated(table: Map<Seq<char>, MetricsView>, stat: StatView) -> Map<
    Seq<char>,
    MetricsView,
> {
    table.insert(stat.name, normalized(stat))
}

/// The figures kept for each container once the line `line` has been read:
/// as after its sample where it gives one, unchanged where it gives none.
pub open spec fn ingested(table: Map<Seq<char>, MetricsView>, line: Seq<char>) -> Map<
    Seq<char>,
    MetricsView,
> {
    match decoded(line) {
        Ok(stat) => updated(table, stat),
        Err(_) => table,
    }
}

/// The names in the order in which they were first seen, once `name` has been
/// seen too.
pub open spec fn noted(names: Seq<Seq<char>>, name: Seq<char>) -> Seq<Seq<char>> {
    if names.contains(name) {
        names
    } else {
        names.push(name)
    }
}

/// The figures kept for each container once every line of `lines` has been
/// read in turn, starting from `table`.
pub open spec fn ingested_all(table: Map<Seq<char>, MetricsView>, lines: Seq<Seq<char>>) -> Map<
    Seq<char>,
    MetricsView,
>
    decreases lines.len(),
{
    if lines.len() == 0 {
        table
    } else {
        ingested(ingested_all(table, lines.drop_last()), lines.last())
    }
}

struct Entry {
    name: String,
    metrics: DockerMetrics,
}

/// What a row of entries holds under each name: for each name its last entry.
spec fn table_of(entries: Seq<Entry>) -> Map<Seq<char>, MetricsView>
    decreases entries.len(),
{
    if entries.len() == 0 {
        Map::empty()
    } else {
        table_of(entries.drop_last()).insert(entries.last().name@, entries.last().metrics@)
    }
}

/// The names of a row of entries, in order.
spec fn names_of(entries: Seq<Entry>) -> Seq<Seq<char>> {
    Seq::new(entries.len(), |i: int| entries[i].name@)
}

/// No name stands twice in a row of entries.
spec fn distinct(entries: Seq<Entry>) -> bool {
    forall|i: int, j: int| 0 <= i < j < entries.len() ==> entries[i].name@ != entries[j].name@
}

/// A name has figures in the table exactly where it stands in the row.
proof fn lemma_table_keys(entries: Seq<Entry>, name: Seq<char>)
    ensures
        table_of(entries).contains_key(name) <==> names_of(entries).contains(name),
    decreases entries.len(),
{
    if entries.len() > 0 {
        let front = entries.drop_last();
        lemma_table_keys(front, name);
        if names_of(entries).contains(name) {
            let i = choose|i: int| 0 <= i < entries.len() && names_of(entries)[i] == name;
            if i < entries.len() - 1 {
                assert(names_of(front)[i] == name);
            }
        }
        if names_of(front).contains(name) {
            let i = choose|i: int| 0 <= i < front.len() && names_of(front)[i] == name;
            assert(names_of(entries)[i] == name);
        }
        if entries.last().name@ == name {
            assert(names_of(entries)[entries.len() - 1] == name);
        }
    }
}

/// Where no name stands twice, the table holds under the name of each entry
/// the figures of that entry.
proof fn lemma_table_entry(entries: Seq<Entry>, i: int)
    requires
        distinct(entries),
        0 <= i < entries.len(),
    ensures
        table_of(entries).contains_key(entries[i].name@),
        table_of(entries)[entries[i].name@] == entries[i].metrics@,
    decreases entries.len(),
{
    if i < entries.len() - 1 {
        lemma_table_entry(entries.drop_last(), i);
    }
}

/// Where no name stands twice, an entry put in the place of another of its
/// name changes the table as a sample of that name does, and the names not
/// at all.
proof fn lemma_table_replace(entries: Seq<Entry>, i: int, entry: Entry)
    requires
        distinct(entries),
        0 <= i < entries.len(),
        entry.name@ == entries[i].name@,
    ensures
        distinct(entries.update(i, entry)),
        names_of(entries.update(i, entry)) == names_of(entries),
        table_of(entries.update(i, entry)) == table_of(entries).insert(
            entry.name@,
            entry.metrics@,
        ),
    decreases entries.len(),
{
    let after = entries.update(i, entry);
    assert(names_of(after) == names_of(entries));
    let front = entries.drop_last();
    if i == entries.len() - 1 {
        assert(after.drop_last() == front);
        assert(table_of(after) == table_of(entries).insert(entry.name@, entry.metrics@));
    } else {
        lemma_table_replace(front, i, entry);
        assert(after.drop_last() == front.update(i, entry));
        assert(after.last() == entries.last());
        assert(entries.last().name@ != entry.name@);
        assert(table_of(after) == table_of(entries).insert(entry.name@, entry.metrics@));
    }
}

/// The latest figures of every container seen so far, each under the
/// container's name. A name is taken in when it is first seen and never
/// leaves; its figures are those of the last sample with that name.
pub struct Metrics {
    entries: Vec<Entry>,
}

impl Metrics {
    #[verifier::type_invariant]
    spec fn no_name_twice(self) -> bool {
        distinct(self.entries@)
    }

    /// The figures kept, under each container's name.
    pub closed spec fn view(&self) -> Map<Seq<char>, MetricsView> {
        table_of(self.entries@)
    }

    /// The names of the containers, in the order in which they were first seen.
    pub closed spec fn names(&self) -> Seq<Seq<char>> {
        names_of(self.entries@)
    }

    /// A store that has seen no container.
    pub fn new() -> (m: Metrics)
        ensures
            m@ == Map::<Seq<char>, MetricsView>::empty(),
            m.names() == Seq::<Seq<char>>::empty(),
    {
        let m = Metrics { entries: Vec::new() };
        assert(m.names() == Seq::<Seq<char>>::empty());
        m
    }

    /// How many containers have been seen.
    pub fn len(&self) -> (n: usize)
        ensures
            n == self.names().len(),
            n == self@.len(),
            self@.dom().finite(),
    {
        proof {
            use_type_invariant(self);
            lemma_count(self.entries@);
        }
        self.entries.len()
    }

    /// Where the entry of `name` stands, if there is one.
    fn position(&self, name: &String) -> (r: Option<usize>)
        ensures
            match r {
                Some(i) => i < self.entries.len() && self.entries[i as int].name@ == name@,
                None => forall|k: int| 0 <= k < self.entries.len() ==> self.entries[k].name@ != name@,
            },
    {
        let mut i: usize = 0;
        while i < self.entries.len()
            invariant
                0 <= i <= self.entries.len(),
                forall|k: int| 0 <= k < i ==> self.entries[k].name@ != name@,
            decreases self.entries.len() - i,
        {
            if self.entries[i].name == *name {
                return Some(i);
            }
            i += 1;
        }
        None
    }

    /// Takes in one sample: its figures replace, as a whole, those kept under
    /// its name, or are the first under a name not seen before. The figures of
    /// all other containers stay as they are.
    pub fn update(&mut self, stat: &DockerStat)
        ensures
            final(self)@ == updated(old(self)@, stat@),
            final(self).names() == noted(old(self).names(), stat@.name),
    {
        proof {
            use_type_invariant(&*self);
            lemma_table_keys(self.entries@, stat@.name);
        }
        let entry = Entry { name: stat.name.clone(), metrics: parse_stat(stat) };
        let found = self.position(&stat.name);
        let ghost before = self.entries@;
        let mut entries: Vec<Entry> = Vec::new();
        core::mem::swap(&mut self.entries, &mut entries);
        match found {
            Some(i) => {
                proof {
                    lemma_table_replace(before, i as int, entry);
                    assert(names_of(before)[i as int] == stat@.name);
                }
                entries.set(i, entry);
            },
            None => {
                proof {
                    assert(before.push(entry).drop_last() == before);
                    assert(names_of(before.push(entry)) == names_of(before).push(entry.name@));
                    assert(!names_of(before).contains(stat@.name)) by {
                        if names_of(before).contains(stat@.name) {
                            let k = choose|k: int|
                                0 <= k < before.len() && names_of(before)[k] == stat@.name;
                            assert(before[k].name@ == stat@.name);
                        }
                    }
                }
                entries.push(entry);
            },
        }
        self.entries = entries;
    }

    /// Reads one line of the runtime's output and takes in the sample it
    /// gives. A line that gives none is passed over: the store stays as it
    /// is, the reason is returned, and the lines that follow are read as if
    /// it had not been there.
    pub fn ingest(&mut self, line: &str) -> (r: Result<(), ParseError>)
        ensures
            final(self)@ == ingested(old(self)@, line@),
            match decoded(line@) {
                Ok(stat) => r is Ok && final(self).names() == noted(old(self).names(), stat.name),
                Err(e) => r == Err::<(), ParseError>(e) && final(self).names() == old(self).names(),
            },
    {
        match decode(line) {
            Ok(stat) => {
                self.update(&stat);
                Ok(())
            },
            Err(e) => Err(e),
        }
    }

    /// The figures kept under `name`, if the container has been seen.
    pub fn get(&self, name: &str) -> (r: Option<&DockerMetrics>)
        ensures
            match r {
                Some(metrics) => self@.contains_key(name@) && self@[name@] == metrics@,
                None => !self@.contains_key(name@),
            },
    {
        proof {
            use_type_invariant(self);
            lemma_table_keys(self.entries@, name@);
        }
        let key = name.to_owned();
        match self.position(&key) {
            Some(i) => {
                proof {
                    lemma_table_entry(self.entries@, i as int);
                }
                Some(&self.entries[i].metrics)
            },
            None => {
                proof {
                    if names_of(self.entries@).contains(name@) {
                        let k = choose|k: int|
                            0 <= k < self.entries@.len() && names_of(self.entries@)[k] == name@;
                        assert(self.entries@[k].name@ == name@);
                    }
                }
                None
            },
        }
    }

    /// A copy of all that is kept: each container's name with its figures, in
    /// the order in which the containers were first seen. Each name stands
    /// once, and the figures beside it are those of one sample.
    pub fn snapshot(&self) -> (all: Vec<(String, DockerMetrics)>)
        ensures
            all@.len() == self.names().len(),
            self.names().no_duplicates(),
            forall|n: Seq<char>| self@.contains_key(n) <==> self.names().contains(n),
            forall|i: int|
                0 <= i < all@.len() ==> {
                    &&& (#[trigger] all@[i]).0@ == self.names()[i]
                    &&& all@[i].1@ == self@[self.names()[i]]
                },
    {
        proof {
            use_type_invariant(self);
            assert forall|n: Seq<char>| self@.contains_key(n) <==> self.names().contains(n) by {
                lemma_table_keys(self.entries@, n);
            }
        }
        let mut all: Vec<(String, DockerMetrics)> = Vec::new();
        let mut i: usize = 0;
        while i < self.entries.len()
            invariant
                0 <= i <= self.entries.len(),
                distinct(self.entries@),
                all@.len() == i,
                forall|k: int|
                    0 <= k < i ==> {
                        &&& (#[trigger] all@[k]).0@ == self.entries@[k].name@
                        &&& all@[k].1@ == self.entries@[k].metrics@
                    },
            decreases self.entries.len() - i,
        {
            all.push((self.entries[i].name.clone(), self.entries[i].metrics.clone()));
            i += 1;
        }
        proof {
            assert forall|k: int| 0 <= k < all@.len() implies {
                &&& (#[trigger] all@[k]).0@ == self.names()[k]
                &&& all@[k].1@ == self@[self.names()[k]]
            } by {
                lemma_table_entry(self.entries@, k);
            }
        }
        all
    }
}

/// A row of entries without a name twice holds as many names as entries.
proof fn lemma_count(entries: Seq<Entry>)
    requires
        distinct(entries),
    ensures
        table_of(entries).dom().finite(),
        table_of(entries).len() == entries.len(),
    decreases entries.len(),
{
    if entries.len() > 0 {
        let front = entries.drop_last();
        lemma_count(front);
        lemma_table_keys(front, entries.last().name@);
        if names_of(front).contains(entries.last().name@) {
            let k = choose|k: int|
                0 <= k < front.len() && names_of(front)[k] == entries.last().name@;
            assert(entries[k].name@ == entries[entries.len() - 1].name@);
        }
    }
}

/// The sample that the last line of `lines` to give one under `name` gives.
pub open spec fn last_sample(lines: Seq<Seq<char>>, name: Seq<char>) -> Option<StatView>
    decreases lines.len(),
{
    if lines.len() == 0 {
        None
    } else {
        match decoded(lines.last()) {
            Ok(stat) => if stat.name == name {
                Some(stat)
            } else {
                last_sample(lines.drop_last(), name)
            },
            Err(_) => last_sample(lines.drop_last(), name),
        }
    }
}

/// A line that gives no sample leaves the store as it is, and the line read
/// after it has the effect that it would have had without the first.
pub proof fn lemma_rejected_line_is_passed_over(
    table: Map<Seq<char>, MetricsView>,
    rejected: Seq<char>,
    next: Seq<char>,
)
    requires
        decoded(rejected) is Err,
    ensures
        ingested(table, rejected) == table,
        ingested(ingested(table, rejected), next) == ingested(table, next),
{
}

/// A line that lacks one of the five members gives no sample, whatever else
/// it holds, and so does a line that is not JSON.
pub proof fn lemma_incomplete_line_is_rejected(line: Seq<char>, field: Field)
    requires
        json_text_members(line) matches Some(members) ==> !members.contains_key(field.key()),
    ensures
        decoded(line) is Err,
{
}

/// Of two samples under one name, taken in one after the other, the store
/// keeps the second alone: it is as if the first had never been taken in, and
/// every figure under the name is the second sample's.
pub proof fn lemma_last_write_wins(
    table: Map<Seq<char>, MetricsView>,
    first: StatView,
    second: StatView,
)
    requires
        first.name == second.name,
    ensures
        updated(updated(table, first), second) == updated(table, second),
        updated(updated(table, first), second)[second.name] == normalized(second),
{
    assert(updated(updated(table, first), second) =~= updated(table, second));
}

/// A sample changes nothing under any name but its own.
pub proof fn lemma_update_keeps_others(
    table: Map<Seq<char>, MetricsView>,
    stat: StatView,
    other: Seq<char>,
)
    requires
        other != stat.name,
    ensures
        updated(table, stat).contains_key(other) == table.contains_key(other),
        updated(table, stat)[other] == table[other],
{
}

/// Whatever lines have been read, the figures kept under a name are those of
/// one sample, whole: the last that a line gave under that name. Where no
/// line gave one, what stood under the name before stands there still.
pub proof fn lemma_records_are_whole(
    table: Map<Seq<char>, MetricsView>,
    lines: Seq<Seq<char>>,
    name: Seq<char>,
)
    ensures
        match last_sample(lines, name) {
            Some(stat) => {
                &&& stat.name == name
                &&& ingested_all(table, lines).contains_key(name)
                &&& ingested_all(table, lines)[name] == normalized(stat)
            },
            None => {
                &&& ingested_all(table, lines).contains_key(name) == table.contains_key(name)
                &&& ingested_all(table, lines)[name] == table[name]
            },
        },
    decreases lines.len(),
{
    if lines.len() > 0 {
        lemma_records_are_whole(table, lines.drop_last(), name);
    }
}

} // verus!
