//! The compression table of one message: which name was seen at which offset.

use vstd::prelude::*;

verus! {

/// The table as a sequence of `(name, offset)` pairs, oldest first.
pub type NameTable = Seq<(Seq<char>, int)>;

/// The offset recorded for `name`, if any.
pub open spec fn offset_of(table: NameTable, name: Seq<char>) -> Option<int>
    decreases table.len(),
{
    if table.len() == 0 {
        None
    } else {
        match offset_of(table.drop_last(), name) {
            Some(offset) => Some(offset),
            None => if table.last().0 == name {
                Some(table.last().1)
            } else {
                None
            },
        }
    }
}

/// The oldest name recorded at `offset`, if any.
pub open spec fn name_at(table: NameTable, offset: int) -> Option<Seq<char>>
    decreases table.len(),
{
    if table.len() == 0 {
        None
    } else {
        match name_at(table.drop_last(), offset) {
            Some(name) => Some(name),
            None => if table.last().1 == offset {
                Some(table.last().0)
            } else {
                None
            },
        }
    }
}

/// The table after `name` was seen at `offset`: a name that is already
/// recorded keeps its first offset.
pub open spec fn record(table: NameTable, name: Seq<char>, offset: int) -> NameTable {
    if offset_of(table, name) is Some {
        table
    } else {
        table.push((name, offset))
    }
}

/// No name is recorded twice.
pub open spec fn distinct_names(table: NameTable) -> bool {
    forall|i: int, j: int| 0 <= i < j < table.len() ==> (#[trigger] table[i]).0 != (#[trigger] table[j]).0
}

/// A name has an offset exactly if some entry holds it.
pub proof fn lemma_offset_of_none(table: NameTable, name: Seq<char>)
    ensures
        offset_of(table, name) is None <==> forall|i: int|
            0 <= i < table.len() ==> (#[trigger] table[i]).0 != name,
    decreases table.len(),
{
    if table.len() > 0 {
        let front = table.drop_last();
        lemma_offset_of_none(front, name);
        if offset_of(table, name) is None {
            assert forall|i: int| 0 <= i < table.len() implies (#[trigger] table[i]).0 != name by {
                if i < front.len() {
                    assert(front[i] == table[i]);
                }
            }
        } else if offset_of(front, name) is Some {
            let i = choose|i: int| 0 <= i < front.len() && (#[trigger] front[i]).0 == name;
            assert(table[i] == front[i]);
        } else {
            assert(table[table.len() - 1].0 == name);
        }
    }
}

/// What was found in the first `n` entries is what the whole table holds.
pub proof fn lemma_offset_of_prefix(table: NameTable, name: Seq<char>, n: int)
    requires
        0 <= n <= table.len(),
        offset_of(table.take(n), name) is Some,
    ensures
        offset_of(table, name) == offset_of(table.take(n), name),
    decreases table.len() - n,
{
    if n < table.len() {
        assert(table.take(n + 1).drop_last() == table.take(n));
        lemma_offset_of_prefix(table, name, n + 1);
    } else {
        assert(table.take(n) == table);
    }
}

/// What was found in the first `n` entries is what the whole table holds.
pub proof fn lemma_name_at_prefix(table: NameTable, offset: int, n: int)
    requires
        0 <= n <= table.len(),
        name_at(table.take(n), offset) is Some,
    ensures
        name_at(table, offset) == name_at(table.take(n), offset),
    decreases table.len() - n,
{
    if n < table.len() {
        assert(table.take(n + 1).drop_last() == table.take(n));
        lemma_name_at_prefix(table, offset, n + 1);
    } else {
        assert(table.take(n) == table);
    }
}

/// Recording keeps the names distinct.
pub proof fn lemma_record_distinct(table: NameTable, name: Seq<char>, offset: int)
    requires
        distinct_names(table),
    ensures
        distinct_names(record(table, name, offset)),
{
    lemma_offset_of_none(table, name);
}

/// `new` is `old` with entries added at its end, none of them under a name
/// that `old` or an earlier one of them holds: what recording does to a
/// table. No offset of `old` is overwritten.
pub open spec fn grown_from(new: NameTable, old: NameTable) -> bool {
    &&& old.len() <= new.len()
    &&& new.take(old.len() as int) == old
    &&& distinct_names(old) ==> distinct_names(new)
}

/// Recording grows the table.
pub proof fn lemma_record_grows(table: NameTable, name: Seq<char>, offset: int)
    ensures
        grown_from(record(table, name, offset), table),
{
    if distinct_names(table) {
        lemma_record_distinct(table, name, offset);
    }
    assert(table.push((name, offset)).take(table.len() as int) == table);
    assert(table.take(table.len() as int) == table);
}

/// Growing twice is growing.
pub proof fn lemma_grown_twice(newest: NameTable, new: NameTable, old: NameTable)
    requires
        grown_from(newest, new),
        grown_from(new, old),
    ensures
        grown_from(newest, old),
{
    assert(newest.take(old.len() as int) == newest.take(new.len() as int).take(old.len() as int));
}

/// A name keeps the offset it was first recorded at, however the table
/// grows.
pub proof fn lemma_first_offset_stays(new: NameTable, old: NameTable, name: Seq<char>)
    requires
        grown_from(new, old),
        offset_of(old, name) is Some,
    ensures
        offset_of(new, name) == offset_of(old, name),
{
    lemma_offset_of_prefix(new, name, old.len() as int);
}

/// One entry of the table.
struct LabelEntry {
    name: String,
    offset: usize,
}

/// The names seen so far in one message, each with the offset at which it
/// was first seen. A table that starts empty never holds a name twice.
pub struct LabelMap {
    entries: Vec<LabelEntry>,
}

impl View for LabelMap {
    type V = NameTable;

    closed spec fn view(&self) -> NameTable {
        Seq::new(self.entries.len() as nat, |i: int| (self.entries[i].name@, self.entries[i].offset as int))
    }
}

impl LabelMap {
    /// An empty table.
    pub fn new() -> (r: LabelMap)
        ensures
            r@ == Seq::<(Seq<char>, int)>::empty(),
    {
        let r = LabelMap { entries: Vec::new() };
        assert(r@ =~= Seq::<(Seq<char>, int)>::empty());
        r
    }

    /// The number of names recorded.
    pub fn len(&self) -> (n: usize)
        ensures
            n == self@.len(),
    {
        self.entries.len()
    }

    /// The offset recorded for `name`.
    pub fn get(&self, name: &String) -> (r: Option<usize>)
        ensures
            match r {
                Some(offset) => offset_of(self@, name@) == Some(offset as int),
                None => offset_of(self@, name@) is None,
            },
    {
        let mut i: usize = 0;
        while i < self.entries.len()
            invariant
                i <= self.entries.len(),
                offset_of(self@.take(i as int), name@) is None,
            decreases self.entries.len() - i,
        {
            proof {
                assert(self@.take(i + 1).drop_last() == self@.take(i as int));
            }
            if self.entries[i].name == *name {
                proof {
                    lemma_offset_of_prefix(self@, name@, i + 1);
                }
                return Some(self.entries[i].offset);
            }
            i += 1;
        }
        proof {
            assert(self@.take(i as int) == self@);
        }
        None
    }

    /// The oldest name recorded at `offset`.
    pub fn name_at(&self, offset: usize) -> (r: Option<String>)
        ensures
            match r {
                Some(name) => name_at(self@, offset as int) == Some(name@),
                None => name_at(self@, offset as int) is None,
            },
    {
        let mut i: usize = 0;
        while i < self.entries.len()
            invariant
                i <= self.entries.len(),
                name_at(self@.take(i as int), offset as int) is None,
            decreases self.entries.len() - i,
        {
            proof {
                assert(self@.take(i + 1).drop_last() == self@.take(i as int));
            }
            if self.entries[i].offset == offset {
                proof {
                    lemma_name_at_prefix(self@, offset as int, i + 1);
                }
                return Some(self.entries[i].name.clone());
            }
            i += 1;
        }
        proof {
            assert(self@.take(i as int) == self@);
        }
        None
    }

    /// Records that `name` was seen at `offset`, unless the name is already
    /// in the table: the first offset of a name is never overwritten.
    pub fn record(&mut self, name: String, offset: usize)
        ensures
            final(self)@ == record(old(self)@, name@, offset as int),
            distinct_names(old(self)@) ==> distinct_names(final(self)@),
    {
        proof {
            if distinct_names(self@) {
                lemma_record_distinct(self@, name@, offset as int);
            }
        }
        if self.get(&name).is_none() {
            self.entries.push(LabelEntry { name, offset });
            assert(self@ =~= old(self)@.push((name@, offset as int)));
        }
    }
}

impl Default for LabelMap {
    fn default() -> (r: LabelMap)
        ensures
            r@ == Seq::<(Seq<char>, int)>::empty(),
    {
        LabelMap::new()
    }
}

} // verus!
