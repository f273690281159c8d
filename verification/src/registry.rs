//! A table of items keyed by name, kept in the order in which the names were
//! added. Contracts see a table as a sequence of rows with pairwise distinct
//! names.

use vstd::prelude::*;

verus! {

/// One row of a table as contracts see it: a name and the item stored under it.
pub struct Named<T> {
    pub name: Seq<char>,
    pub item: T,
}

/// The names of the rows, in order.
pub open spec fn names<T>(rows: Seq<Named<T>>) -> Seq<Seq<char>> {
    Seq::new(rows.len(), |i: int| rows[i].name)
}

/// The characters of each string, in order.
pub open spec fn texts(strings: Seq<String>) -> Seq<Seq<char>> {
    Seq::new(strings.len(), |i: int| strings[i]@)
}

/// No name occurs in two rows.
pub open spec fn distinct<T>(rows: Seq<Named<T>>) -> bool {
    forall|i: int, j: int| 0 <= i < j < rows.len() ==> rows[i].name != rows[j].name
}

/// Some row carries `name`.
pub open spec fn known<T>(rows: Seq<Named<T>>, name: Seq<char>) -> bool {
    exists|i: int| 0 <= i < rows.len() && rows[i].name == name
}

/// The row at `i` is the first one that carries `name`.
pub open spec fn first_at<T>(rows: Seq<Named<T>>, name: Seq<char>, i: int) -> bool {
    &&& 0 <= i < rows.len()
    &&& rows[i].name == name
    &&& forall|k: int| 0 <= k < i ==> rows[k].name != name
}

/// The position of the first row that carries `name`: in a table of distinct
/// names, of the only one. Meaningful only where `known` holds.
pub open spec fn index_of<T>(rows: Seq<Named<T>>, name: Seq<char>) -> int {
    choose|i: int|
        0 <= i < rows.len() && rows[i].name == name && forall|k: int|
            0 <= k < i ==> rows[k].name != name
}

/// The rows after `name` is added with `item`: a name that is already there
/// keeps its row, and nothing changes.
pub open spec fn inserted<T>(rows: Seq<Named<T>>, name: Seq<char>, item: T) -> Seq<Named<T>> {
    if known(rows, name) {
        rows
    } else {
        rows.push(Named { name, item })
    }
}

/// The rows without the one that carries `name`.
pub open spec fn removed<T>(rows: Seq<Named<T>>, name: Seq<char>) -> Seq<Named<T>> {
    if known(rows, name) {
        rows.remove(index_of(rows, name))
    } else {
        rows
    }
}

/// The rows with `change` applied to the item under `name`; unchanged where
/// the name is unknown.
pub open spec fn amended<T>(rows: Seq<Named<T>>, name: Seq<char>, change: spec_fn(T) -> T) -> Seq<
    Named<T>,
> {
    if known(rows, name) {
        let i = index_of(rows, name);
        rows.update(i, Named { name: rows[i].name, item: change(rows[i].item) })
    } else {
        rows
    }
}

/// The rows with `change` applied to every item.
pub open spec fn each<T>(rows: Seq<Named<T>>, change: spec_fn(T) -> T) -> Seq<Named<T>> {
    Seq::new(rows.len(), |i: int| Named { name: rows[i].name, item: change(rows[i].item) })
}

/// Among the rows up to `i`, of which the one at `i` carries `name`, one is
/// the first to carry it.
proof fn lemma_first_exists<T>(rows: Seq<Named<T>>, name: Seq<char>, i: int)
    requires
        0 <= i < rows.len(),
        rows[i].name == name,
    ensures
        exists|j: int| first_at(rows, name, j),
    decreases i,
{
    if exists|k: int| 0 <= k < i && rows[k].name == name {
        let k = choose|k: int| 0 <= k < i && rows[k].name == name;
        lemma_first_exists(rows, name, k);
    } else {
        assert(first_at(rows, name, i));
    }
}

/// The first row that carries `name` is the row that `index_of` picks.
pub proof fn lemma_index_of<T>(rows: Seq<Named<T>>, name: Seq<char>, i: int)
    requires
        first_at(rows, name, i),
    ensures
        known(rows, name),
        index_of(rows, name) == i,
{
    let j = index_of(rows, name);
    assert(first_at(rows, name, j));
    if j < i {
        assert(rows[j].name != name);
    } else if i < j {
        assert(rows[i].name != name);
    }
}

/// Where `name` is known, `index_of` picks the first row that carries it.
pub proof fn lemma_index_of_known<T>(rows: Seq<Named<T>>, name: Seq<char>)
    requires
        known(rows, name),
    ensures
        first_at(rows, name, index_of(rows, name)),
{
    let i = choose|i: int| 0 <= i < rows.len() && rows[i].name == name;
    lemma_first_exists(rows, name, i);
}

/// In a table of distinct names, a row that carries `name` is the row that
/// `index_of` picks.
pub proof fn lemma_index_of_distinct<T>(rows: Seq<Named<T>>, name: Seq<char>, i: int)
    requires
        distinct(rows),
        0 <= i < rows.len(),
        rows[i].name == name,
    ensures
        known(rows, name),
        index_of(rows, name) == i,
{
    assert forall|k: int| 0 <= k < i implies rows[k].name != name by {
        assert(rows[k].name != rows[i].name);
    }
    lemma_index_of(rows, name, i);
}

/// A name is known exactly if it is among the names of the table, and the
/// names of the rows are distinct exactly if no name is listed twice.
pub proof fn lemma_known_is_listed<T>(rows: Seq<Named<T>>, name: Seq<char>)
    ensures
        known(rows, name) <==> names(rows).contains(name),
        distinct(rows) <==> names(rows).no_duplicates(),
{
    if known(rows, name) {
        let i = choose|i: int| 0 <= i < rows.len() && rows[i].name == name;
        assert(names(rows)[i] == name);
    }
    if names(rows).contains(name) {
        let i = choose|i: int| 0 <= i < names(rows).len() && names(rows)[i] == name;
        assert(rows[i].name == name);
    }
    if distinct(rows) {
        assert forall|i: int, j: int|
            0 <= i < names(rows).len() && 0 <= j < names(rows).len() && i != j implies names(
            rows,
        )[i] != names(rows)[j] by {
            if i < j {
                assert(rows[i].name != rows[j].name);
            } else {
                assert(rows[j].name != rows[i].name);
            }
        }
    }
    if names(rows).no_duplicates() {
        assert forall|i: int, j: int| 0 <= i < j < rows.len() implies rows[i].name
            != rows[j].name by {
            assert(names(rows)[i] != names(rows)[j]);
        }
    }
}

/// Adding a name keeps the names distinct, and the name is there afterwards.
pub proof fn lemma_inserted<T>(rows: Seq<Named<T>>, name: Seq<char>, item: T)
    ensures
        distinct(rows) ==> distinct(inserted(rows, name, item)),
        known(inserted(rows, name, item), name),
        forall|other: Seq<char>| known(rows, other) ==> known(inserted(rows, name, item), other),
        forall|other: Seq<char>|
            other != name && known(inserted(rows, name, item), other) ==> known(rows, other),
{
    let after = inserted(rows, name, item);
    if !known(rows, name) {
        assert(after[rows.len() as int].name == name);
    }
    assert forall|other: Seq<char>| known(rows, other) implies known(after, other) by {
        let i = choose|i: int| 0 <= i < rows.len() && rows[i].name == other;
        assert(after[i].name == other);
    }
    assert forall|other: Seq<char>| other != name && known(after, other) implies known(
        rows,
        other,
    ) by {
        let i = choose|i: int| 0 <= i < after.len() && after[i].name == other;
        assert(rows[i].name == other);
    }
}

/// Removing a name keeps the names distinct and leaves every other name in.
/// From a table of distinct names it takes the name out.
pub proof fn lemma_removed<T>(rows: Seq<Named<T>>, name: Seq<char>)
    ensures
        distinct(rows) ==> distinct(removed(rows, name)),
        distinct(rows) ==> !known(removed(rows, name), name),
        forall|other: Seq<char>|
            other != name ==> (known(removed(rows, name), other) <==> known(rows, other)),
{
    let after = removed(rows, name);
    if known(rows, name) {
        lemma_index_of_known(rows, name);
        let at = index_of(rows, name);
        // The row at `i` of `after` stood at `before(i)` in `rows`.
        let before = |i: int| if i < at { i } else { i + 1 };
        if distinct(rows) {
            assert forall|i: int, j: int| 0 <= i < j < after.len() implies after[i].name
                != after[j].name by {
                assert(rows[before(i)].name != rows[before(j)].name);
            }
            assert forall|i: int| 0 <= i < after.len() implies after[i].name != name by {
                assert(rows[before(i)].name != rows[at].name);
            }
        }
        assert forall|other: Seq<char>| other != name && known(rows, other) implies known(
            after,
            other,
        ) by {
            let i = choose|i: int| 0 <= i < rows.len() && rows[i].name == other;
            assert(after[if i < at { i } else { i - 1 }].name == other);
        }
        assert forall|other: Seq<char>| other != name && known(after, other) implies known(
            rows,
            other,
        ) by {
            let i = choose|i: int| 0 <= i < after.len() && after[i].name == other;
            assert(rows[before(i)].name == other);
        }
    }
}

/// Changing items leaves every name where it was.
pub proof fn lemma_amended<T>(rows: Seq<Named<T>>, name: Seq<char>, change: spec_fn(T) -> T)
    ensures
        names(amended(rows, name, change)) == names(rows),
        distinct(rows) ==> distinct(amended(rows, name, change)),
        forall|other: Seq<char>| known(amended(rows, name, change), other) <==> known(rows, other),
        forall|other: Seq<char>|
            known(rows, other) ==> #[trigger] index_of(amended(rows, name, change), other)
                == index_of(rows, other),
{
    let after = amended(rows, name, change);
    if known(rows, name) {
        lemma_index_of_known(rows, name);
    }
    assert(names(after) =~= names(rows));
    lemma_same_names(rows, after);
}

/// Changing every item leaves every name where it was.
pub proof fn lemma_each<T>(rows: Seq<Named<T>>, change: spec_fn(T) -> T)
    ensures
        names(each(rows, change)) == names(rows),
        distinct(rows) ==> distinct(each(rows, change)),
        forall|other: Seq<char>| known(each(rows, change), other) <==> known(rows, other),
        forall|other: Seq<char>|
            known(rows, other) ==> #[trigger] index_of(each(rows, change), other) == index_of(
                rows,
                other,
            ),
{
    assert(names(each(rows, change)) =~= names(rows));
    lemma_same_names(rows, each(rows, change));
}

/// Two tables that carry the same names in the same order agree on which
/// names are known, on where each one stands, and on whether the names are
/// distinct.
pub proof fn lemma_same_names<A, B>(left: Seq<Named<A>>, right: Seq<Named<B>>)
    requires
        names(left) == names(right),
    ensures
        distinct(left) <==> distinct(right),
        forall|name: Seq<char>| known(left, name) <==> known(right, name),
        forall|name: Seq<char>|
            known(left, name) ==> #[trigger] index_of(left, name) == index_of(right, name),
{
    assert(left.len() == names(left).len());
    assert(right.len() == names(right).len());
    assert forall|i: int| 0 <= i < left.len() implies left[i].name == right[i].name by {
        assert(names(left)[i] == names(right)[i]);
    }
    if distinct(left) {
        assert forall|i: int, j: int| 0 <= i < j < right.len() implies right[i].name
            != right[j].name by {
            assert(left[i].name != left[j].name);
        }
    }
    if distinct(right) {
        assert forall|i: int, j: int| 0 <= i < j < left.len() implies left[i].name
            != left[j].name by {
            assert(right[i].name != right[j].name);
        }
    }
    assert forall|name: Seq<char>| known(left, name) <==> known(right, name) by {
        if known(left, name) {
            let i = choose|i: int| 0 <= i < left.len() && left[i].name == name;
            assert(right[i].name == name);
        }
        if known(right, name) {
            let i = choose|i: int| 0 <= i < right.len() && right[i].name == name;
            assert(left[i].name == name);
        }
    }
    assert forall|name: Seq<char>| known(left, name) implies #[trigger] index_of(left, name)
        == index_of(right, name) by {
        lemma_index_of_known(left, name);
        let i = index_of(left, name);
        assert forall|k: int| 0 <= k < i implies right[k].name != name by {
            assert(left[k].name != name);
        }
        lemma_index_of(right, name, i);
    }
}

struct Entry<T> {
    name: String,
    item: T,
}

/// Items keyed by name. A table that starts empty never holds a name twice;
/// the rows keep the order in which their names were added.
pub struct Registry<T> {
    entries: Vec<Entry<T>>,
}

impl<T> Registry<T> {
    /// The rows of the table, in order.
    pub closed spec fn view(&self) -> Seq<Named<T>> {
        self.entries@.map_values(|e: Entry<T>| Named { name: e.name@, item: e.item })
    }

    /// The invariant of the table: no name occurs twice.
    pub open spec fn wf(&self) -> bool {
        distinct(self@)
    }

    /// An empty table.
    pub fn new() -> (table: Registry<T>)
        ensures
            table@ == Seq::<Named<T>>::empty(),
            table.wf(),
    {
        Registry { entries: Vec::new() }
    }

    /// The number of rows.
    pub fn len(&self) -> (n: usize)
        ensures
            n == self@.len(),
    {
        self.entries.len()
    }

    /// The position of the row that carries `name`, if there is one.
    pub fn position(&self, name: &str) -> (found: Option<usize>)
        ensures
            found.is_some() == known(self@, name@),
            found.is_some() ==> found.unwrap() == index_of(self@, name@) && first_at(
                self@,
                name@,
                found.unwrap() as int,
            ),
    {
        let wanted: String = name.to_owned();
        let mut i: usize = 0;
        while i < self.entries.len()
            invariant
                i <= self.entries.len(),
                wanted@ == name@,
                forall|k: int| 0 <= k < i ==> self@[k].name != name@,
            decreases self.entries.len() - i,
        {
            if self.entries[i].name == wanted {
                proof {
                    lemma_index_of(self@, name@, i as int);
                }
                return Some(i);
            }
            i = i + 1;
        }
        None
    }

    /// The name of the row at `i`.
    pub fn name_at(&self, i: usize) -> (name: &str)
        requires
            i < self@.len(),
        ensures
            name@ == self@[i as int].name,
    {
        self.entries[i].name.as_str()
    }

    /// The item of the row at `i`.
    pub fn item_at(&self, i: usize) -> (item: &T)
        requires
            i < self@.len(),
        ensures
            *item == self@[i as int].item,
    {
        &self.entries[i].item
    }

    /// The item of the row at `i`, to be changed in place. The row keeps its
    /// name and its position.
    pub fn slot_mut(&mut self, i: usize) -> (slot: &mut T)
        requires
            i < old(self)@.len(),
        ensures
            *slot == old(self)@[i as int].item,
            names(final(self)@) == names(old(self)@),
            final(self)@ == old(self)@.update(
                i as int,
                Named { name: old(self)@[i as int].name, item: *final(slot) },
            ),
    {
        &mut self.entries[i].item
    }

    /// Adds `item` under `name` at the end of the table, unless the name is
    /// already there: then the table stays as it is and `item` is dropped.
    /// Returns whether the item went in.
    pub fn insert(&mut self, name: &str, item: T) -> (added: bool)
        ensures
            old(self).wf() ==> final(self).wf(),
            final(self)@ == inserted(old(self)@, name@, item),
            added == !known(old(self)@, name@),
    {
        proof {
            lemma_inserted(self@, name@, item);
        }
        match self.position(name) {
            Some(_) => false,
            None => {
                self.entries.push(Entry { name: name.to_owned(), item });
                assert(self@ =~= old(self)@.push(Named { name: name@, item }));
                true
            },
        }
    }

    /// Takes the row that carries `name` out of the table and returns its
    /// item. The rows behind it move up by one.
    pub fn remove(&mut self, name: &str) -> (taken: Option<T>)
        ensures
            old(self).wf() ==> final(self).wf(),
            final(self)@ == removed(old(self)@, name@),
            taken == if known(old(self)@, name@) {
                Some(old(self)@[index_of(old(self)@, name@)].item)
            } else {
                None
            },
    {
        proof {
            lemma_removed(self@, name@);
        }
        match self.position(name) {
            Some(i) => {
                let entry = self.entries.remove(i);
                assert(self@ =~= old(self)@.remove(i as int));
                Some(entry.item)
            },
            None => None,
        }
    }

    /// Empties the table.
    pub fn clear(&mut self)
        ensures
            final(self)@ == Seq::<Named<T>>::empty(),
            final(self).wf(),
    {
        self.entries.clear();
    }

    /// The names of the rows, in order.
    pub fn names(&self) -> (listed: Vec<String>)
        ensures
            texts(listed@) == names(self@),
    {
        let mut listed: Vec<String> = Vec::new();
        let mut i: usize = 0;
        while i < self.entries.len()
            invariant
                i <= self.entries.len(),
                listed@.len() == i,
                forall|k: int| 0 <= k < i ==> listed@[k]@ == self@[k].name,
            decreases self.entries.len() - i,
        {
            listed.push(self.entries[i].name.clone());
            i = i + 1;
        }
        listed
    }
}

} // verus!
