//! Small tables: values by text, and the inode numbers of paths.

use vstd::prelude::*;
use vstd::string::*;

verus! {

/// Values by text. There are few of them, so they are searched one by one.
pub struct Table<V: DeepView> {
    entries: Vec<(String, V)>,
}

/// No key occurs twice.
spec fn distinct<V: DeepView>(entries: Seq<(String, V)>) -> bool {
    forall|i: int, j: int|
        #![trigger entries[i], entries[j]]
        0 <= i < j < entries.len() ==> entries[i].0@ != entries[j].0@
}

/// The entries as a map.
spec fn as_map<V: DeepView>(entries: Seq<(String, V)>) -> Map<
    Seq<char>,
    <V as DeepView>::V,
>
    decreases entries.len(),
{
    if entries.len() == 0 {
        Map::empty()
    } else {
        as_map(entries.drop_last()).insert(
            entries.last().0@,
            entries.last().1.deep_view(),
        )
    }
}

/// A key is in the map if and only if it is among the entries, and then with
/// the value that stands there.
proof fn lemma_as_map<V: DeepView>(entries: Seq<(String, V)>)
    requires
        distinct(entries),
    ensures
        forall|i: int|
            #![trigger entries[i]]
            0 <= i < entries.len() ==> as_map(entries).contains_pair(
                entries[i].0@,
                entries[i].1.deep_view(),
            ),
        forall|key: Seq<char>| #[trigger]
            as_map(entries).contains_key(key) ==> exists|i: int|
                0 <= i < entries.len() && (#[trigger] entries[i]).0@ == key,
    decreases entries.len(),
{
    if entries.len() > 0 {
        let rest = entries.drop_last();
        assert forall|i: int, j: int|
            #![trigger rest[i], rest[j]]
            0 <= i < j < rest.len() implies rest[i].0@ != rest[j].0@ by {
            assert(rest[i] == entries[i] && rest[j] == entries[j]);
        }
        lemma_as_map(rest);
        let last = entries.len() - 1;
        assert forall|i: int|
            #![trigger entries[i]]
            0 <= i < entries.len() implies as_map(entries).contains_pair(
            entries[i].0@,
            entries[i].1.deep_view(),
        ) by {
            if i < last {
                assert(rest[i] == entries[i]);
                assert(entries[i].0@ != entries[last].0@);
            }
        }
        assert forall|key: Seq<char>| #[trigger]
            as_map(entries).contains_key(key) implies exists|i: int|
            0 <= i < entries.len() && (#[trigger] entries[i]).0@ == key by {
            if key == entries[last].0@ {
            } else {
                assert(as_map(rest).contains_key(key));
                let i = choose|i: int|
                    0 <= i < rest.len() && (#[trigger] rest[i]).0@ == key;
                assert(entries[i].0@ == key);
            }
        }
    }
}

/// Taking an entry out takes its key out of the map.
proof fn lemma_remove<V: DeepView>(entries: Seq<(String, V)>, index: int)
    requires
        distinct(entries),
        0 <= index < entries.len(),
    ensures
        distinct(entries.remove(index)),
        as_map(entries.remove(index)) == as_map(entries).remove(entries[index].0@),
{
    let rest = entries.remove(index);
    assert forall|i: int, j: int|
        #![trigger rest[i], rest[j]]
        0 <= i < j < rest.len() implies rest[i].0@ != rest[j].0@ by {
        let i_before = if i < index {
            i
        } else {
            i + 1
        };
        let j_before = if j < index {
            j
        } else {
            j + 1
        };
        assert(rest[i] == entries[i_before] && rest[j] == entries[j_before]);
    }
    lemma_as_map(entries);
    lemma_as_map(rest);
    let expected = as_map(entries).remove(entries[index].0@);
    assert forall|key: Seq<char>| #[trigger]
        as_map(rest).contains_key(key) implies expected.contains_key(key) && expected[key]
        == as_map(rest)[key] by {
        let i = choose|i: int| 0 <= i < rest.len() && (#[trigger] rest[i]).0@ == key;
        let before = if i < index {
            i
        } else {
            i + 1
        };
        assert(rest[i] == entries[before]);
        assert(entries[before].0@ != entries[index].0@);
    }
    assert forall|key: Seq<char>| #[trigger]
        expected.contains_key(key) implies as_map(rest).contains_key(key) by {
        let before = choose|i: int|
            0 <= i < entries.len() && (#[trigger] entries[i]).0@ == key;
        let i = if before < index {
            before
        } else {
            before - 1
        };
        assert(rest[i] == entries[before]);
    }
    assert(as_map(rest) =~= expected);
}

/// A new entry with a new key extends the map.
proof fn lemma_push<V: DeepView>(entries: Seq<(String, V)>, key: String, value: V)
    requires
        distinct(entries),
        !as_map(entries).contains_key(key@),
    ensures
        distinct(entries.push((key, value))),
        as_map(entries.push((key, value))) == as_map(entries).insert(
            key@,
            value.deep_view(),
        ),
{
    lemma_as_map(entries);
    let all = entries.push((key, value));
    assert(all.drop_last() =~= entries);
    assert forall|i: int, j: int|
        #![trigger all[i], all[j]]
        0 <= i < j < all.len() implies all[i].0@ != all[j].0@ by {
        assert(all[i] == entries[i]);
        if j < entries.len() {
            assert(all[j] == entries[j]);
        } else {
            assert(as_map(entries).contains_key(entries[i].0@));
        }
    }
}

impl<V: DeepView> View for Table<V> {
    type V = Map<Seq<char>, <V as DeepView>::V>;

    closed spec fn view(&self) -> Map<Seq<char>, <V as DeepView>::V> {
        as_map(self.entries@)
    }
}

impl<V: DeepView> Table<V> {
    #[verifier::type_invariant]
    spec fn well_formed(self) -> bool {
        distinct(self.entries@)
    }

    /// An empty table.
    pub fn new() -> (table: Self)
        ensures
            table@ == Map::<Seq<char>, <V as DeepView>::V>::empty(),
    {
        Table { entries: Vec::new() }
    }

    /// Where the entry for a key is.
    fn find(&self, key: &String) -> (found: Option<usize>)
        ensures
            found is Some <==> self@.contains_key(key@),
            found matches Some(index) ==> index < self.entries@.len()
                && self.entries@[index as int].0@ == key@
                && self.entries@[index as int].1.deep_view() == self@[key@],
    {
        proof {
            use_type_invariant(self);
            lemma_as_map(self.entries@);
        }
        let mut index: usize = 0;
        while index < self.entries.len()
            invariant
                index <= self.entries@.len(),
                forall|i: int|
                    0 <= i < index ==> (#[trigger] self.entries@[i]).0@
                        != key@,
                distinct(self.entries@),
                self@ == as_map(self.entries@),
            decreases self.entries@.len() - index,
        {
            if self.entries[index].0 == *key {
                proof {
                    lemma_as_map(self.entries@);
                }
                return Some(index);
            }
            index = index + 1;
        }
        None
    }

    /// The value for a key.
    pub fn get(&self, key: &String) -> (value: Option<&V>)
        ensures
            value is Some <==> self@.contains_key(key@),
            value matches Some(found) ==> found.deep_view() == self@[key@],
    {
        match self.find(key) {
            Some(index) => Some(&self.entries[index].1),
            None => None,
        }
    }

    /// Takes a key and its value out of the table.
    pub fn take(&mut self, key: &String) -> (value: Option<V>)
        ensures
            final(self)@ == old(self)@.remove(key@),
            value is Some <==> old(self)@.contains_key(key@),
            value matches Some(found) ==> found.deep_view() == old(self)@[key@],
    {
        proof {
            use_type_invariant(&*self);
        }
        match self.find(key) {
            Some(index) => {
                proof {
                    lemma_remove(self.entries@, index as int);
                }
                let mut entries: Vec<(String, V)> = Vec::new();
                std::mem::swap(&mut entries, &mut self.entries);
                let (_, value) = entries.remove(index);
                self.entries = entries;
                Some(value)
            },
            None => {
                assert(self@.remove(key@) =~= self@);
                None
            },
        }
    }

    /// Sets the value for a key.
    pub fn insert(&mut self, key: String, value: V)
        ensures
            final(self)@ == old(self)@.insert(key@, value.deep_view()),
    {
        let _ = self.take(&key);
        proof {
            use_type_invariant(&*self);
            lemma_push(self.entries@, key, value);
        }
        let mut entries: Vec<(String, V)> = Vec::new();
        std::mem::swap(&mut entries, &mut self.entries);
        entries.push((key, value));
        self.entries = entries;
        assert(self@ =~= old(self)@.insert(key@, value.deep_view()));
    }
}

/// The paths that have inode numbers, by number.
pub type Paths = Seq<Option<Seq<char>>>;

/// The number of a path.
pub open spec fn number_of(paths: Paths, path: Seq<char>) -> int {
    choose|number: int| 0 <= number < paths.len() && paths[number] == Some(path)
}

/// The path is known.
pub open spec fn known(paths: Paths, path: Seq<char>) -> bool {
    exists|number: int| 0 <= number < paths.len() && #[trigger] paths[number] == Some(path)
}

/// The path with a number.
pub open spec fn path_at(paths: Paths, number: u64) -> Option<Seq<char>> {
    if number < paths.len() {
        paths[number as int]
    } else {
        None
    }
}

/// The number that a path has or gets, and the paths known then.
pub open spec fn numbered(paths: Paths, path: Seq<char>) -> (u64, Paths) {
    if known(paths, path) {
        (number_of(paths, path) as u64, paths)
    } else {
        (paths.len() as u64, paths.push(Some(path)))
    }
}

/// The paths known at first: the root, whose number is 1. Numbers are given
/// out from 3 on.
pub open spec fn only_root() -> Paths {
    seq![None, Some("/"@), None]
}

/// No path has two numbers, and the root has number 1.
pub open spec fn numbering(paths: Paths) -> bool {
    &&& paths.len() >= 3
    &&& paths[0] is None
    &&& paths[1] == Some("/"@)
    &&& paths[2] is None
    &&& forall|i: int, j: int|
        #![trigger paths[i], paths[j]]
        0 <= i < j < paths.len() && paths[i] is Some ==> paths[i] != paths[j]
}

/// The inode numbers of paths.
pub struct Inodes {
    slots: Vec<Option<String>>,
}

impl View for Inodes {
    type V = Paths;

    closed spec fn view(&self) -> Paths {
        self.slots.deep_view()
    }
}

impl Inodes {
    #[verifier::type_invariant]
    spec fn well_formed(self) -> bool {
        numbering(self.slots.deep_view())
    }

    /// Only the root has a number.
    pub fn new() -> (inodes: Self)
        ensures
            inodes@ == only_root(),
    {
        let root: String = "/".to_owned();
        let mut slots: Vec<Option<String>> = Vec::new();
        slots.push(None);
        slots.push(Some(root));
        slots.push(None);
        assert(slots.deep_view() =~= only_root());
        Inodes { slots }
    }

    /// The path with a number.
    pub fn path(&self, number: u64) -> (path: Option<String>)
        ensures
            path.deep_view() == path_at(self@, number),
    {
        assert(self@.len() == self.slots@.len());
        if number < self.slots.len() as u64 {
            let index: usize = number as usize;
            assert(self@[index as int] == self.slots@[index as int].deep_view());
            match &self.slots[index] {
                Some(path) => Some(path.clone()),
                None => None,
            }
        } else {
            None
        }
    }

    /// The number of a path. A path that has none gets the next one.
    pub fn number(&mut self, path: &String) -> (number: u64)
        ensures
            (number, final(self)@) == numbered(old(self)@, path@),
            numbering(final(self)@),
            path_at(final(self)@, number) == Some(path@),
    {
        proof {
            use_type_invariant(&*self);
        }
        assert(self@.len() == self.slots@.len());
        let mut index: usize = 0;
        while index < self.slots.len()
            invariant
                *self == *old(self),
                index <= self.slots@.len(),
                self@.len() == self.slots@.len(),
                numbering(self@),
                forall|i: int| 0 <= i < index ==> #[trigger] self@[i] != Some(path@),
            decreases self.slots@.len() - index,
        {
            assert(self@[index as int] == self.slots@[index as int].deep_view());
            if let Some(other) = &self.slots[index] {
                if *other == *path {
                    assert(self@[index as int] == Some(path@));
                    assert(known(self@, path@));
                    assert(number_of(self@, path@) == index);
                    return index as u64;
                }
            }
            index = index + 1;
        }
        assert(!known(self@, path@));
        let ghost earlier = self@;
        let number: u64 = self.slots.len() as u64;
        let mut slots: Vec<Option<String>> = Inodes::new().slots;
        std::mem::swap(&mut slots, &mut self.slots);
        slots.push(Some(path.clone()));
        assert(slots.deep_view() =~= earlier.push(Some(path@)));
        self.slots = slots;
        number
    }
}

} // verus!
