//! Tables that give equal values the same number: the string table of a
//! profile, and tables of frames and stacks.

use std::collections::HashMap;

use vstd::hash_map::StringHashMap;
use vstd::prelude::*;

use crate::distinct;
use crate::frame;
use crate::frame::{Frame, FrameView};

verus! {

broadcast use vstd::std_specs::hash::group_hash_axioms;

/// What a list of strings says.
pub open spec fn strings_view(values: Seq<String>) -> Seq<Seq<char>> {
    Seq::new(values.len(), |i: int| values[i]@)
}

/// Strings, each once; a string's number is its position.
pub struct StringTable {
    values: Vec<String>,
    ids: StringHashMap<i64>,
}

impl View for StringTable {
    type V = Seq<Seq<char>>;

    closed spec fn view(&self) -> Seq<Seq<char>> {
        strings_view(self.values@)
    }
}

impl StringTable {
    /// No string occurs twice, and each is found under its position.
    pub closed spec fn wf(&self) -> bool {
        &&& self@.no_duplicates()
        &&& self@.len() <= i64::MAX
        &&& forall|s: Seq<char>| #[trigger]
            self.ids@.contains_key(s) ==> self@.contains(s) && self.ids@[s] == self@.index_of(s)
        &&& forall|s: Seq<char>| #[trigger] self@.contains(s) ==> self.ids@.contains_key(s)
    }

    /// The numbers under which strings are found.
    pub closed spec fn numbers(&self) -> Map<Seq<char>, i64> {
        self.ids@
    }

    /// A well-formed table repeats nothing.
    pub proof fn lemma_wf(&self)
        requires
            self.wf(),
        ensures
            self@.no_duplicates(),
            self@.len() <= i64::MAX,
    {
    }

    /// In a well-formed table exactly the strings have numbers, as many as there
    /// are strings, and each is numbered by its position.
    pub proof fn strings_are_numbered_by_position(&self)
        requires
            self.wf(),
        ensures
            self@.no_duplicates(),
            self.numbers().dom() == self@.to_set(),
            self.numbers().dom().len() == self@.len(),
            forall|k: int| 0 <= k < self@.len() ==> self.numbers()[#[trigger] self@[k]] == k,
    {
        assert forall|s: Seq<char>| self.numbers().dom().contains(s) <==> self@.to_set().contains(
            s,
        ) by {
            assert(self.ids@.contains_key(s) <==> self@.contains(s));
        }
        assert(self.numbers().dom() =~= self@.to_set());
        self@.unique_seq_to_set();
        assert forall|k: int| 0 <= k < self@.len() implies self.numbers()[#[trigger] self@[k]]
            == k by {
            assert(self@.contains(self@[k]));
            distinct::lemma_position(self@, k);
        }
    }

    /// A table of no strings.
    pub fn empty() -> (r: Self)
        ensures
            r.wf(),
            r@ == Seq::<Seq<char>>::empty(),
    {
        let r = StringTable { values: Vec::new(), ids: StringHashMap::new() };
        assert(r@ == Seq::<Seq<char>>::empty());
        r
    }

    /// The table of a new profile: the empty string has number zero.
    pub fn new() -> (r: Self)
        ensures
            r.wf(),
            r@ == seq![Seq::<char>::empty()],
    {
        let mut table = Self::empty();
        proof {
            reveal_strlit("");
            assert(""@ == Seq::<char>::empty());
        }
        let _id: i64 = table.intern("");
        assert(table@ == seq![Seq::<char>::empty()]);
        table
    }

    /// The number of a string that is in the table.
    pub fn find(&self, value: &str) -> (r: Option<i64>)
        requires
            self.wf(),
        ensures
            r is Some <==> self@.contains(value@),
            r matches Some(id) ==> id == self@.index_of(value@) && 0 <= id < self@.len(),
    {
        match self.ids.get(value) {
            Some(id) => {
                proof {
                    distinct::lemma_position_of(self@, value@);
                }
                Some(*id)
            },
            None => None,
        }
    }

    /// The number of a string, which is added at the end where it is new.
    pub fn intern(&mut self, value: &str) -> (id: i64)
        requires
            old(self).wf(),
            old(self)@.len() < i64::MAX,
        ensures
            final(self).wf(),
            final(self)@ == distinct::with(old(self)@, value@),
            old(self)@.contains(value@) ==> *final(self) == *old(self),
            id == final(self)@.index_of(value@),
            0 <= id < final(self)@.len(),
    {
        let ghost before = self@;
        if let Some(id) = self.find(value) {
            return id;
        }
        let id: i64 = self.values.len() as i64;
        proof {
            distinct::lemma_with(before, value@);
        }
        self.values.push(value.to_owned());
        self.ids.insert(value.to_owned(), id);
        proof {
            assert(self@ == before.push(value@));
            distinct::lemma_position(self@, id as int);
            assert forall|s: Seq<char>| #[trigger] self.ids@.contains_key(s) implies self@.contains(
                s,
            ) && self.ids@[s] == self@.index_of(s) by {
                if s != value@ {
                    distinct::lemma_position_stable(before, self@, s);
                }
            }
        }
        id
    }

    /// The strings in the order of their numbers.
    pub fn into_values(self) -> (r: Vec<String>)
        ensures
            strings_view(r@) == self@,
    {
        self.values
    }
}

/// The strings of a table after these were interned, one after the other.
pub open spec fn interned(table: Seq<Seq<char>>, values: Seq<Seq<char>>) -> Seq<Seq<char>>
    decreases values.len(),
{
    if values.len() == 0 {
        table
    } else {
        distinct::with(interned(table, values.drop_last()), values.last())
    }
}

/// Interning keeps what a table holds, at its position, and repeats nothing: the
/// empty string that a table starts with stays its first.
pub proof fn interning_keeps_positions(table: Seq<Seq<char>>, values: Seq<Seq<char>>)
    requires
        table.no_duplicates(),
    ensures
        interned(table, values).no_duplicates(),
        table.is_prefix_of(interned(table, values)),
    decreases values.len(),
{
    if values.len() > 0 {
        interning_keeps_positions(table, values.drop_last());
        distinct::lemma_with(interned(table, values.drop_last()), values.last());
    }
}

/// Two strings get the same number exactly where they are the same, whatever is
/// interned between them, and a string that is there already changes nothing.
pub proof fn numbers_tell_strings_apart(
    table: Seq<Seq<char>>,
    a: Seq<char>,
    between: Seq<Seq<char>>,
    b: Seq<char>,
)
    requires
        table.no_duplicates(),
    ensures
        ({
            let first = distinct::with(table, a);
            let mid = interned(first, between);
            let last = distinct::with(mid, b);
            &&& first.index_of(a) == last.index_of(b) <==> a == b
            &&& mid.contains(b) ==> last == mid
        }),
{
    let first = distinct::with(table, a);
    let mid = interned(first, between);
    let last = distinct::with(mid, b);
    distinct::lemma_with(table, a);
    interning_keeps_positions(first, between);
    distinct::lemma_with(mid, b);
    distinct::lemma_position_stable(first, mid, a);
    distinct::lemma_position_stable(mid, last, a);
    distinct::lemma_position_of(last, a);
    distinct::lemma_position_of(last, b);
}

/// Positions grouped by a key.
struct Buckets {
    map: HashMap<u64, Vec<usize>>,
}

impl Buckets {
    /// The positions under `key`.
    closed spec fn under(&self, key: u64) -> Seq<usize> {
        if self.map@.contains_key(key) {
            self.map@[key]@
        } else {
            seq![]
        }
    }

    fn new() -> (r: Self)
        ensures
            forall|key: u64| #[trigger] r.under(key) == Seq::<usize>::empty(),
    {
        Buckets { map: HashMap::new() }
    }

    fn get(&self, key: u64) -> (r: Option<&Vec<usize>>)
        ensures
            match r {
                Some(positions) => positions@ == self.under(key),
                None => self.under(key).len() == 0,
            },
    {
        self.map.get(&key)
    }

    fn add(&mut self, key: u64, position: usize)
        ensures
            final(self).under(key) == old(self).under(key).push(position),
            forall|k: u64| k != key ==> #[trigger] final(self).under(k) == old(self).under(k),
    {
        let slot = self.map.entry(key).or_insert(Vec::new());
        slot.push(position);
    }
}

/// A value that can be looked up by a key, where equal values have equal keys.
pub trait Keyed: Sized + View {
    spec fn key_of(v: Self::V) -> u64;

    fn key(&self) -> (k: u64)
        ensures
            k == Self::key_of(self@),
    ;

    fn same(&self, other: &Self) -> (r: bool)
        ensures
            r == (self@ == other@),
    ;
}

/// Values, each once; a value's number is its position.
pub struct Table<T: Keyed> {
    entries: Vec<T>,
    index: Buckets,
}

impl<T: Keyed> View for Table<T> {
    type V = Seq<T::V>;

    closed spec fn view(&self) -> Seq<T::V> {
        Seq::new(self.entries@.len(), |i: int| self.entries@[i]@)
    }
}

impl<T: Keyed> Table<T> {
    /// No value occurs twice, and each is filed under its key.
    pub closed spec fn wf(&self) -> bool {
        &&& self@.no_duplicates()
        &&& self@.len() <= usize::MAX
        &&& forall|key: u64, j: int|
            0 <= j < self.index.under(key).len() ==> (#[trigger] self.index.under(key)[j])
                < self@.len()
        &&& forall|i: int|
            0 <= i < self@.len() ==> self.index.under(T::key_of(#[trigger] self@[i])).contains(
                i as usize,
            )
    }

    /// A well-formed table repeats nothing.
    pub proof fn lemma_wf(&self)
        requires
            self.wf(),
        ensures
            self@.no_duplicates(),
            self@.len() <= usize::MAX,
    {
    }

    pub fn new() -> (r: Self)
        ensures
            r.wf(),
            r@ == Seq::<T::V>::empty(),
    {
        let r = Table { entries: Vec::new(), index: Buckets::new() };
        assert(r@ == Seq::<T::V>::empty());
        r
    }

    /// The number of values.
    pub fn len(&self) -> (n: usize)
        ensures
            n == self@.len(),
    {
        self.entries.len()
    }

    /// The number of a value that is in the table.
    pub fn find(&self, value: &T) -> (r: Option<usize>)
        requires
            self.wf(),
        ensures
            r is Some <==> self@.contains(value@),
            r matches Some(i) ==> i == self@.index_of(value@) && i < self@.len(),
    {
        let key: u64 = value.key();
        match self.index.get(key) {
            None => {
                proof {
                    if self@.contains(value@) {
                        let i = self@.index_of(value@);
                        assert(self.index.under(T::key_of(self@[i])).contains(i as usize));
                    }
                }
                None
            },
            Some(positions) => {
                for j in 0..positions.len()
                    invariant
                        self.wf(),
                        key == T::key_of(value@),
                        positions@ == self.index.under(key),
                        forall|k: int|
                            0 <= k < j ==> self@[(#[trigger] positions@[k]) as int] != value@,
                {
                    let i: usize = positions[j];
                    assert(self.index.under(key)[j as int] == i);
                    if self.entries[i].same(value) {
                        proof {
                            assert(self@[i as int] == value@);
                            distinct::lemma_position(self@, i as int);
                        }
                        return Some(i);
                    }
                }
                proof {
                    if self@.contains(value@) {
                        let i = self@.index_of(value@);
                        assert(self.index.under(T::key_of(self@[i])).contains(i as usize));
                        let k = choose|k: int|
                            0 <= k < positions@.len() && positions@[k] == i as usize;
                        assert(self@[positions@[k] as int] == value@);
                    }
                }
                None
            },
        }
    }

    /// The value with number `i`.
    pub fn get(&self, i: usize) -> (r: &T)
        requires
            i < self@.len(),
        ensures
            r@ == self@[i as int],
    {
        &self.entries[i]
    }

    /// Adds a value that is not in the table.
    pub fn add(&mut self, value: T)
        requires
            old(self).wf(),
            !old(self)@.contains(value@),
            old(self)@.len() < usize::MAX,
        ensures
            final(self).wf(),
            final(self)@ == old(self)@.push(value@),
    {
        let ghost before = self@;
        let i: usize = self.entries.len();
        let key: u64 = value.key();
        let ghost index = self.index;
        self.index.add(key, i);
        self.entries.push(value);
        proof {
            assert(self@ == before.push(value@));
            distinct::lemma_with(before, value@);
            assert forall|k: u64, j: int|
                0 <= j < self.index.under(k).len() implies (#[trigger] self.index.under(k)[j])
                < self@.len() by {
                if k == key && j == index.under(k).len() {
                } else {
                    assert(self.index.under(k)[j] == index.under(k)[j]);
                }
            }
            assert forall|n: int| 0 <= n < self@.len() implies self.index.under(
                T::key_of(#[trigger] self@[n]),
            ).contains(n as usize) by {
                if n == i {
                    let m = index.under(key).len() as int;
                    assert(self.index.under(key)[m] == i);
                } else {
                    let k = T::key_of(before[n]);
                    assert(index.under(k).contains(n as usize));
                    let m = choose|m: int|
                        0 <= m < index.under(k).len() && index.under(k)[m] == n as usize;
                    assert(self.index.under(k)[m] == n as usize);
                }
            }
        }
    }
}

impl Keyed for Frame {
    open spec fn key_of(v: FrameView) -> u64 {
        v.address
    }

    fn key(&self) -> (k: u64) {
        self.address
    }

    fn same(&self, other: &Self) -> (r: bool) {
        frame::same_frame(self, other)
    }
}

/// A whole stack as one value.
#[derive(Debug, Clone, PartialEq, Eq, Hash)]
pub struct StackKey(pub Vec<Frame>);

impl View for StackKey {
    type V = Seq<FrameView>;

    open spec fn view(&self) -> Seq<FrameView> {
        frame::stack_view(self.0@)
    }
}

/// The addresses of a stack mixed into one number.
pub open spec fn mixed_addresses(stack: Seq<FrameView>) -> u64
    decreases stack.len(),
{
    if stack.len() == 0 {
        0
    } else {
        mixed_addresses(stack.drop_last()).wrapping_mul(31).wrapping_add(stack.last().address)
    }
}

impl Keyed for StackKey {
    open spec fn key_of(v: Seq<FrameView>) -> u64 {
        mixed_addresses(v)
    }

    fn key(&self) -> (k: u64) {
        let mut k: u64 = 0;
        let ghost all = self@;
        for i in 0..self.0.len()
            invariant
                all == self@,
                k == mixed_addresses(all.take(i as int)),
        {
            assert(all.take(i + 1).drop_last() == all.take(i as int));
            assert(all.take(i + 1).last().address == self.0@[i as int].address);
            k = k.wrapping_mul(31).wrapping_add(self.0[i].address);
        }
        assert(all.take(all.len() as int) == all);
        k
    }

    fn same(&self, other: &Self) -> (r: bool) {
        frame::same_stack(&self.0, &other.0)
    }
}

} // verus!
