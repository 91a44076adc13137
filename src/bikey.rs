use crate::order::{compare_names, lemma_name_before_strict, lemma_name_before_transitive, name_before};
use vstd::prelude::*;

verus! {

/// One entry of a [`BiKeyedIndex`]: a value with its two keys.
pub struct Slot<V> {
    pub primary: String,
    pub secondary: u32,
    pub value: V,
}

/// Why an insertion into a [`BiKeyedIndex`] was refused.
#[derive(Clone, Copy, Debug, PartialEq, Eq, Structural)]
pub enum KeyConflict {
    /// The secondary key is stored under another primary key, or the primary
    /// key under another secondary key.
    InconsistentKey,
}

/// Values addressed by a name (the primary key) and by a number (the
/// secondary key) at once. Both keys are unique; entries are kept in the
/// order of their primary keys.
pub struct BiKeyedIndex<V> {
    slots: Vec<Box<Slot<V>>>,
}

/// What a well-formed index holds: its entries `(primary, secondary, value)`
/// in strictly increasing primary order, no secondary key twice.
pub open spec fn index_wf<V>(s: Seq<(Seq<char>, u32, V)>) -> bool {
    &&& forall|i: int, j: int|
        0 <= i < j < s.len() ==> #[trigger] name_before(s[i].0, s[j].0)
    &&& forall|i: int, j: int| 0 <= i < s.len() && 0 <= j < s.len() && i != j ==> s[i].1 != s[j].1
}

/// The entry stored under secondary key `k`, if any.
pub open spec fn holds_secondary<V>(s: Seq<(Seq<char>, u32, V)>, k: u32) -> bool {
    exists|i: int| 0 <= i < s.len() && s[i].1 == k
}

pub open spec fn holds_primary<V>(s: Seq<(Seq<char>, u32, V)>, p: Seq<char>) -> bool {
    exists|i: int| 0 <= i < s.len() && s[i].0 == p
}

/// The pair `(p, k)` is stored as one entry.
pub open spec fn holds_both<V>(s: Seq<(Seq<char>, u32, V)>, p: Seq<char>, k: u32) -> bool {
    exists|i: int| 0 <= i < s.len() && s[i].0 == p && s[i].1 == k
}

impl<V> View for BiKeyedIndex<V> {
    type V = Seq<(Seq<char>, u32, V)>;

    closed spec fn view(&self) -> Seq<(Seq<char>, u32, V)> {
        self.slots@.map_values(|s: Box<Slot<V>>| (s.primary@, s.secondary, s.value))
    }
}

impl<V> BiKeyedIndex<V> {
    pub open spec fn wf(&self) -> bool {
        index_wf(self@)
    }

    pub fn new() -> (r: Self)
        ensures
            r@ == Seq::<(Seq<char>, u32, V)>::empty(),
            r.wf(),
    {
        let r = BiKeyedIndex { slots: Vec::new() };
        assert(r@ =~= Seq::<(Seq<char>, u32, V)>::empty());
        r
    }

    pub fn len(&self) -> (r: usize)
        ensures
            r == self@.len(),
    {
        self.slots.len()
    }

    /// The entry at position `i` in primary order.
    pub fn slot_at(&self, i: usize) -> (r: &Slot<V>)
        requires
            i < self@.len(),
        ensures
            (r.primary@, r.secondary, r.value) == self@[i as int],
    {
        &self.slots[i]
    }

    /// Position of the entry with secondary key `k`.
    pub fn position_of_secondary(&self, k: u32) -> (r: Option<usize>)
        requires
            self.wf(),
        ensures
            match r {
                Some(i) => i < self@.len() && self@[i as int].1 == k,
                None => !holds_secondary(self@, k),
            },
    {
        let mut i: usize = 0;
        while i < self.slots.len()
            invariant
                i <= self@.len(),
                self@.len() == self.slots@.len(),
                forall|j: int| 0 <= j < i ==> self@[j].1 != k,
            decreases self.slots@.len() - i,
        {
            if self.slots[i].secondary == k {
                return Some(i);
            }
            i = i + 1;
        }
        None
    }

    /// Position of the entry with primary key `p`, or where it would go.
    pub fn search_primary(&self, p: &str) -> (r: (bool, usize))
        requires
            self.wf(),
        ensures
            r.1 <= self@.len(),
            r.0 ==> r.1 < self@.len() && self@[r.1 as int].0 == p@,
            !r.0 ==> !holds_primary(self@, p@),
            !r.0 ==> forall|j: int| 0 <= j < r.1 ==> name_before(#[trigger] self@[j].0, p@),
            !r.0 ==> forall|j: int| r.1 <= j < self@.len() ==> name_before(p@, #[trigger] self@[j].0),
    {
        let mut lo: usize = 0;
        let mut hi: usize = self.slots.len();
        while lo < hi
            invariant
                self.wf(),
                self@.len() == self.slots@.len(),
                lo <= hi <= self@.len(),
                forall|j: int| 0 <= j < lo ==> name_before(#[trigger] self@[j].0, p@),
                forall|j: int| hi <= j < self@.len() ==> name_before(p@, #[trigger] self@[j].0),
            decreases hi - lo,
        {
            let mid = lo + (hi - lo) / 2;
            let c = compare_names(self.slots[mid].primary.as_str(), p);
            if c == 0 {
                return (true, mid);
            } else if c < 0 {
                assert forall|j: int| 0 <= j < mid + 1 implies name_before(#[trigger] self@[j].0, p@) by {
                    if j < mid {
                        lemma_name_before_transitive(self@[j].0, self@[mid as int].0, p@);
                    }
                }
                lo = mid + 1;
            } else {
                assert forall|j: int| mid <= j < self@.len() implies name_before(p@, #[trigger] self@[j].0) by {
                    if j > mid {
                        lemma_name_before_transitive(p@, self@[mid as int].0, self@[j].0);
                    }
                }
                hi = mid;
            }
        }
        assert forall|j: int| 0 <= j < self@.len() implies self@[j].0 != p@ by {
            lemma_name_before_strict(self@[j].0, p@);
        }
        (false, lo)
    }
    /// Inserts `value` under both keys. Where an entry with secondary key
    /// `secondary` exists, its value is replaced, provided that its primary key
    /// is `primary`; a new entry is placed at its primary position. A key pair
    /// that would contradict what is stored is refused and nothing changes.
    pub fn insert_with_both_keys(&mut self, primary: String, secondary: u32, value: V) -> (r: Result<(), KeyConflict>)
        requires
            old(self).wf(),
        ensures
            final(self).wf(),
            r is Err <==> (holds_secondary(old(self)@, secondary) && !holds_both(old(self)@, primary@, secondary))
                || (!holds_secondary(old(self)@, secondary) && holds_primary(old(self)@, primary@)),
            r is Err ==> final(self)@ == old(self)@,
            r is Ok && holds_secondary(old(self)@, secondary) ==> exists|i: int|
                0 <= i < old(self)@.len() && old(self)@[i].1 == secondary
                    && final(self)@ == old(self)@.update(i, (primary@, secondary, value)),
            r is Ok && !holds_secondary(old(self)@, secondary) ==> exists|n: int|
                0 <= n <= old(self)@.len() && final(self)@ == old(self)@.insert(n, (primary@, secondary, value)),
    {
        let (found, pos) = self.search_primary(primary.as_str());
        proof {
            self.lemma_primary_unique();
        }
        match self.position_of_secondary(secondary) {
            Some(i) => {
                if found && pos == i {
                    let ghost before = self@;
                    let ghost entry = (primary@, secondary, value);
                    self.slots.set(i, Box::new(Slot { primary, secondary, value }));
                    assert(self@ =~= before.update(i as int, entry));
                    assert(index_wf(self@)) by {
                        assert forall|a: int, b: int| 0 <= a < b < self@.len() implies #[trigger] name_before(self@[a].0, self@[b].0) by {
                            assert(self@[a].0 == before[a].0);
                            assert(self@[b].0 == before[b].0);
                        }
                    }
                    Ok(())
                } else {
                    Err(KeyConflict::InconsistentKey)
                }
            }
            None => {
                if found {
                    Err(KeyConflict::InconsistentKey)
                } else {
                    let ghost before = self@;
                    let ghost entry = (primary@, secondary, value);
                    self.slots.insert(pos, Box::new(Slot { primary, secondary, value }));
                    assert(self@ =~= before.insert(pos as int, entry));
                    assert(index_wf(self@)) by {
                        assert forall|a: int, b: int| 0 <= a < b < self@.len() implies #[trigger] name_before(self@[a].0, self@[b].0) by {
                            if a < pos && b > pos {
                                assert(name_before(before[a].0, entry.0));
                                assert(name_before(entry.0, before[b - 1].0));
                                lemma_name_before_transitive(before[a].0, entry.0, before[b - 1].0);
                            } else if a < pos && b < pos {
                                assert(name_before(before[a].0, before[b].0));
                            } else if a > pos {
                                assert(name_before(before[a - 1].0, before[b - 1].0));
                            }
                        }
                        assert forall|a: int, b: int| 0 <= a < self@.len() && 0 <= b < self@.len() && a != b implies self@[a].1 != self@[b].1 by {
                            if a != pos && b != pos {
                                let a0 = if a < pos { a } else { a - 1 };
                                let b0 = if b < pos { b } else { b - 1 };
                                assert(before[a0].1 != before[b0].1);
                            }
                        }
                    }
                    Ok(())
                }
            }
        }
    }

    /// No two entries share a primary key.
    pub proof fn lemma_primary_unique(&self)
        requires
            self.wf(),
        ensures
            forall|a: int, b: int| 0 <= a < self@.len() && 0 <= b < self@.len() && a != b ==> self@[a].0 != self@[b].0,
    {
        assert forall|a: int, b: int| 0 <= a < self@.len() && 0 <= b < self@.len() && a != b implies self@[a].0 != self@[b].0 by {
            lemma_name_before_strict(self@[a].0, self@[b].0);
            if a < b {
                assert(name_before(self@[a].0, self@[b].0));
            } else {
                assert(name_before(self@[b].0, self@[a].0));
            }
        }
    }

    pub fn get_with_secondary_key(&self, secondary: u32) -> (r: Option<&V>)
        requires
            self.wf(),
        ensures
            match r {
                Some(v) => exists|i: int| 0 <= i < self@.len() && self@[i].1 == secondary && self@[i].2 == *v,
                None => !holds_secondary(self@, secondary),
            },
    {
        match self.position_of_secondary(secondary) {
            Some(i) => Some(&self.slots[i].value),
            None => None,
        }
    }

    pub fn get_with_primary_key(&self, primary: &str) -> (r: Option<&V>)
        requires
            self.wf(),
        ensures
            match r {
                Some(v) => exists|i: int| 0 <= i < self@.len() && self@[i].0 == primary@ && self@[i].2 == *v,
                None => !holds_primary(self@, primary@),
            },
    {
        let (found, pos) = self.search_primary(primary);
        if found {
            Some(&self.slots[pos].value)
        } else {
            None
        }
    }

    /// Position of the entry that holds exactly the pair `(primary, secondary)`.
    pub fn position_of_both(&self, primary: &str, secondary: u32) -> (r: Option<usize>)
        requires
            self.wf(),
        ensures
            match r {
                Some(i) => i < self@.len() && self@[i as int].0 == primary@ && self@[i as int].1 == secondary,
                None => !holds_both(self@, primary@, secondary),
            },
    {
        let (found, pos) = self.search_primary(primary);
        proof {
            self.lemma_primary_unique();
        }
        if found && self.slots[pos].secondary == secondary {
            Some(pos)
        } else {
            None
        }
    }

    /// The value stored under exactly the pair `(primary, secondary)`; `None`
    /// where either key alone matches another entry.
    pub fn get_with_both_keys(&self, primary: &str, secondary: u32) -> (r: Option<&V>)
        requires
            self.wf(),
        ensures
            match r {
                Some(v) => exists|i: int| 0 <= i < self@.len() && self@[i].0 == primary@ && self@[i].1 == secondary && self@[i].2 == *v,
                None => !holds_both(self@, primary@, secondary),
            },
    {
        match self.position_of_both(primary, secondary) {
            Some(i) => Some(&self.slots[i].value),
            None => None,
        }
    }

    pub fn contains_both_keys(&self, primary: &str, secondary: u32) -> (r: bool)
        requires
            self.wf(),
        ensures
            r == holds_both(self@, primary@, secondary),
    {
        self.position_of_both(primary, secondary).is_some()
    }

    /// The value at position `i`, to be changed in place; the keys stay.
    pub fn value_mut_at(&mut self, i: usize) -> (r: &mut V)
        requires
            i < old(self)@.len(),
        ensures
            *r == old(self)@[i as int].2,
            final(self)@ == old(self)@.update(i as int, (old(self)@[i as int].0, old(self)@[i as int].1, *final(r))),
    {
        &mut self.slots[i].value
    }
    /// Appends an entry whose primary key comes after every stored one and
    /// whose secondary key is new.
    pub fn push_last(&mut self, primary: String, secondary: u32, value: V)
        requires
            old(self).wf(),
            !holds_secondary(old(self)@, secondary),
            old(self)@.len() > 0 ==> name_before(old(self)@.last().0, primary@),
        ensures
            final(self)@ == old(self)@.push((primary@, secondary, value)),
            final(self).wf(),
    {
        let ghost before = self@;
        let ghost entry = (primary@, secondary, value);
        self.slots.push(Box::new(Slot { primary, secondary, value }));
        assert(self@ =~= before.push(entry));
        assert forall|a: int, b: int| 0 <= a < b < self@.len() implies #[trigger] name_before(self@[a].0, self@[b].0) by {
            if b == before.len() && a < before.len() - 1 {
                lemma_name_before_transitive(before[a].0, before.last().0, entry.0);
            }
        }
    }

    /// The primary key of the last entry.
    pub fn last_primary(&self) -> (r: Option<&str>)
        ensures
            match r {
                Some(p) => self@.len() > 0 && p@ == self@.last().0,
                None => self@.len() == 0,
            },
    {
        if self.slots.len() == 0 {
            None
        } else {
            Some(self.slots[self.slots.len() - 1].primary.as_str())
        }
    }
}

} // verus!
