//! A map from 32-byte participant identifiers to byte strings.
use vstd::prelude::*;

use crate::bytes::same_bytes;

verus! {

/// A map from identifiers to byte strings. The entries stand in the order of
/// their identifiers, read as little-endian numbers; none occurs twice.
pub struct IdMap {
    entries: Vec<([u8; 32], Vec<u8>)>,
}

/// Of two byte strings of the same length, read as little-endian numbers, the
/// first is the smaller.
pub open spec fn below(a: Seq<u8>, b: Seq<u8>) -> bool
    decreases a.len(),
{
    if a.len() == 0 {
        false
    } else if a.last() != b.last() {
        a.last() < b.last()
    } else {
        below(a.drop_last(), b.drop_last())
    }
}

proof fn lemma_below_irreflexive(a: Seq<u8>)
    ensures
        !below(a, a),
    decreases a.len(),
{
    if a.len() > 0 {
        lemma_below_irreflexive(a.drop_last());
    }
}

proof fn lemma_below_transitive(a: Seq<u8>, b: Seq<u8>, c: Seq<u8>)
    requires
        a.len() == b.len() == c.len(),
        below(a, b),
        below(b, c),
    ensures
        below(a, c),
    decreases a.len(),
{
    if a.last() == b.last() && b.last() == c.last() {
        lemma_below_transitive(a.drop_last(), b.drop_last(), c.drop_last());
    }
}

proof fn lemma_below_total(a: Seq<u8>, b: Seq<u8>)
    requires
        a.len() == b.len(),
        a != b,
    ensures
        below(a, b) || below(b, a),
    decreases a.len(),
{
    if a.len() == 0 {
        assert(a =~= b);
    } else if a.last() == b.last() {
        if a.drop_last() == b.drop_last() {
            assert(a =~= a.drop_last().push(a.last()));
            assert(b =~= b.drop_last().push(b.last()));
        }
        lemma_below_total(a.drop_last(), b.drop_last());
    }
}

/// Whether one identifier is below another.
fn is_below(a: &[u8; 32], b: &[u8; 32]) -> (less: bool)
    ensures
        less == below(a@, b@),
{
    let mut i: usize = 32;
    assert(a@.take(32) =~= a@ && b@.take(32) =~= b@);
    while i > 0
        invariant
            i <= 32,
            below(a@, b@) == below(a@.take(i as int), b@.take(i as int)),
        decreases i,
    {
        i -= 1;
        proof {
            assert(a@.take(i + 1).drop_last() =~= a@.take(i as int));
            assert(b@.take(i + 1).drop_last() =~= b@.take(i as int));
        }
        if a[i] != b[i] {
            return a[i] < b[i];
        }
    }
    false
}

/// The entries stand in the order of their identifiers; none occurs twice.
pub open spec fn increasing(entries: Seq<([u8; 32], Vec<u8>)>) -> bool {
    forall|i: int, j: int|
        0 <= i < j < entries.len() ==> below((#[trigger] entries[i]).0@, (#[trigger] entries[j]).0@)
}

/// No identifier occurs twice.
spec fn no_duplicates(entries: Seq<([u8; 32], Vec<u8>)>) -> bool {
    forall|i: int, j: int| 0 <= i < j < entries.len() ==> entries[i].0@ != entries[j].0@
}

proof fn lemma_increasing_is_distinct(entries: Seq<([u8; 32], Vec<u8>)>)
    requires
        increasing(entries),
    ensures
        no_duplicates(entries),
{
    assert forall|i: int, j: int| 0 <= i < j < entries.len() implies entries[i].0@
        != entries[j].0@ by {
        assert(below(entries[i].0@, entries[j].0@));
        lemma_below_irreflexive(entries[i].0@);
    }
}

/// The map that holds the entries.
pub open spec fn map_of(entries: Seq<([u8; 32], Vec<u8>)>) -> Map<Seq<u8>, Seq<u8>>
    decreases entries.len(),
{
    if entries.len() == 0 {
        Map::empty()
    } else {
        map_of(entries.drop_last()).insert(entries.last().0@, entries.last().1@)
    }
}

impl View for IdMap {
    type V = Map<Seq<u8>, Seq<u8>>;

    closed spec fn view(&self) -> Map<Seq<u8>, Seq<u8>> {
        map_of(self.entries@)
    }
}

proof fn lemma_map_of(entries: Seq<([u8; 32], Vec<u8>)>)
    requires
        no_duplicates(entries),
    ensures
        map_of(entries).dom().finite(),
        map_of(entries).len() == entries.len(),
        forall|k: Seq<u8>|
            map_of(entries).dom().contains(k) <==> exists|i: int|
                0 <= i < entries.len() && (#[trigger] entries[i]).0@ == k,
        forall|i: int|
            0 <= i < entries.len() ==> map_of(entries).dom().contains(
                (#[trigger] entries[i]).0@,
            ) && map_of(entries)[entries[i].0@] == entries[i].1@,
    decreases entries.len(),
{
    if entries.len() > 0 {
        let fewer = entries.drop_last();
        lemma_map_of(fewer);
        let m = map_of(entries);
        assert(!map_of(fewer).dom().contains(entries.last().0@)) by {
            if map_of(fewer).dom().contains(entries.last().0@) {
                let i = choose|i: int|
                    0 <= i < fewer.len() && (#[trigger] fewer[i]).0@ == entries.last().0@;
                assert(entries[i].0@ != entries[entries.len() - 1].0@);
            }
        }
        assert forall|k: Seq<u8>| m.dom().contains(k) implies exists|i: int|
            0 <= i < entries.len() && (#[trigger] entries[i]).0@ == k by {
            if k == entries.last().0@ {
                assert(entries[entries.len() - 1].0@ == k);
            } else {
                let i = choose|i: int| 0 <= i < fewer.len() && (#[trigger] fewer[i]).0@ == k;
                assert(entries[i].0@ == k);
            }
        }
        assert forall|i: int| 0 <= i < entries.len() implies m.dom().contains(
            (#[trigger] entries[i]).0@,
        ) && m[entries[i].0@] == entries[i].1@ by {
            if i < entries.len() - 1 {
                assert(fewer[i] == entries[i]);
                assert(entries[i].0@ != entries[entries.len() - 1].0@);
            }
        }
    }
}

/// Entries in the order of their identifiers are determined by the map that
/// holds them.
pub proof fn entries_are_determined_by_the_map(
    a: Seq<([u8; 32], Vec<u8>)>,
    b: Seq<([u8; 32], Vec<u8>)>,
)
    requires
        increasing(a),
        increasing(b),
        map_of(a) == map_of(b),
    ensures
        a.len() == b.len(),
        forall|i: int|
            0 <= i < a.len() ==> (#[trigger] a[i]).0 == (#[trigger] b[i]).0 && a[i].1@ == b[i].1@,
    decreases a.len(),
{
    lemma_increasing_is_distinct(a);
    lemma_increasing_is_distinct(b);
    lemma_map_of(a);
    lemma_map_of(b);
    if a.len() > 0 {
        let (x, y) = (a[a.len() - 1], b[b.len() - 1]);
        assert(x.0@ == y.0@) by {
            assert(map_of(b).dom().contains(x.0@));
            assert(map_of(a).dom().contains(y.0@));
            let j = choose|j: int| 0 <= j < b.len() && (#[trigger] b[j]).0@ == x.0@;
            let i = choose|i: int| 0 <= i < a.len() && (#[trigger] a[i]).0@ == y.0@;
            if j < b.len() - 1 && i < a.len() - 1 {
                assert(below(b[j].0@, y.0@));
                assert(below(a[i].0@, x.0@));
                lemma_below_transitive(x.0@, y.0@, x.0@);
                lemma_below_irreflexive(x.0@);
            }
        }
        assert(x.0 =~= y.0);
        let (c, d) = (a.drop_last(), b.drop_last());
        lemma_increasing_is_distinct(c);
        lemma_increasing_is_distinct(d);
        lemma_map_of(c);
        lemma_map_of(d);
        assert(map_of(c) =~= map_of(a).remove(x.0@)) by {
            assert(!map_of(c).dom().contains(x.0@));
        }
        assert(map_of(d) =~= map_of(b).remove(y.0@)) by {
            assert(!map_of(d).dom().contains(y.0@));
        }
        entries_are_determined_by_the_map(c, d);
        assert forall|i: int| 0 <= i < a.len() implies (#[trigger] a[i]).0 == (#[trigger] b[i]).0
            && a[i].1@ == b[i].1@ by {
            if i < a.len() - 1 {
                assert(c[i].0 == d[i].0);
            } else {
                assert(map_of(a)[x.0@] == x.1@);
                assert(map_of(b)[y.0@] == y.1@);
            }
        }
    }
}

impl IdMap {
    #[verifier::type_invariant]
    spec fn inv(self) -> bool {
        increasing(self.entries@)
    }

    /// An empty map.
    pub fn new() -> (map: IdMap)
        ensures
            map@ == Map::<Seq<u8>, Seq<u8>>::empty(),
    {
        IdMap { entries: Vec::new() }
    }

    /// How many identifiers the map holds.
    pub fn len(&self) -> (len: usize)
        ensures
            self@.dom().finite(),
            len == self@.len(),
    {
        proof {
            use_type_invariant(&*self);
            lemma_increasing_is_distinct(self.entries@);
            lemma_map_of(self.entries@);
        }
        self.entries.len()
    }

    /// The entries, each identifier once, in their order.
    pub fn entries(&self) -> (entries: &Vec<([u8; 32], Vec<u8>)>)
        ensures
            map_of(entries@) == self@,
            increasing(entries@),
    {
        proof {
            use_type_invariant(&*self);
        }
        &self.entries
    }

    /// The map that holds the entries; of two with the same identifier the
    /// later counts.
    pub fn from_entries(entries: Vec<([u8; 32], Vec<u8>)>) -> (map: IdMap)
        ensures
            map@ == map_of(entries@),
    {
        let mut map = IdMap::new();
        let mut i: usize = 0;
        while i < entries.len()
            invariant
                i <= entries@.len(),
                map@ == map_of(entries@.take(i as int)),
            decreases entries@.len() - i,
        {
            map.insert(entries[i].0, vstd::slice::slice_to_vec(entries[i].1.as_slice()));
            i += 1;
            assert(entries@.take(i as int).drop_last() =~= entries@.take(i - 1));
        }
        assert(entries@.take(i as int) =~= entries@);
        map
    }

    /// The first position whose identifier is not below `id`, and whether it
    /// holds `id`.
    fn position(&self, id: &[u8; 32]) -> (place: (usize, bool))
        ensures
            ({
                let (i, found) = place;
                &&& i <= self.entries@.len()
                &&& forall|j: int| 0 <= j < i ==> below((#[trigger] self.entries@[j]).0@, id@)
                &&& found == self@.dom().contains(id@)
                &&& found ==> i < self.entries@.len() && self.entries@[i as int].0@ == id@
                    && self@[id@] == self.entries@[i as int].1@
                &&& !found ==> forall|j: int|
                    i <= j < self.entries@.len() ==> below(id@, (#[trigger] self.entries@[j]).0@)
            }),
    {
        proof {
            use_type_invariant(&*self);
            lemma_increasing_is_distinct(self.entries@);
            lemma_map_of(self.entries@);
        }
        let mut i: usize = 0;
        while i < self.entries.len() && is_below(&self.entries[i].0, id)
            invariant
                i <= self.entries@.len(),
                forall|j: int| 0 <= j < i ==> below((#[trigger] self.entries@[j]).0@, id@),
            decreases self.entries@.len() - i,
        {
            i += 1;
        }
        let found = i < self.entries.len() && same_bytes(&self.entries[i].0, id);
        proof {
            let entries = self.entries@;
            if found {
                assert(self@[entries[i as int].0@] == entries[i as int].1@);
            } else {
                assert forall|j: int| i <= j < entries.len() implies below(
                    id@,
                    (#[trigger] entries[j]).0@,
                ) by {
                    lemma_below_total(id@, entries[i as int].0@);
                    if i < j {
                        assert(below(entries[i as int].0@, entries[j].0@));
                        lemma_below_transitive(id@, entries[i as int].0@, entries[j].0@);
                    }
                }
                if self@.dom().contains(id@) {
                    let j = choose|j: int|
                        0 <= j < entries.len() && (#[trigger] entries[j]).0@ == id@;
                    lemma_below_irreflexive(id@);
                }
            }
        }
        (i, found)
    }

    /// Whether the map holds the identifier.
    pub fn contains_key(&self, id: &[u8; 32]) -> (found: bool)
        ensures
            found == self@.dom().contains(id@),
    {
        self.position(id).1
    }

    /// The byte string of an identifier.
    pub fn get(&self, id: &[u8; 32]) -> (value: Option<&Vec<u8>>)
        ensures
            match value {
                Some(bytes) => self@.dom().contains(id@) && bytes@ == self@[id@],
                None => !self@.dom().contains(id@),
            },
    {
        let (i, found) = self.position(id);
        if found {
            Some(&self.entries[i].1)
        } else {
            None
        }
    }

    /// Puts a byte string under an identifier, in place of the one that was
    /// there.
    pub fn insert(&mut self, id: [u8; 32], value: Vec<u8>)
        ensures
            final(self)@ == old(self)@.insert(id@, value@),
    {
        let (i, found) = self.position(&id);
        proof {
            use_type_invariant(&*self);
        }
        let ghost before = self.entries@;
        let ghost at = i as int;
        let mut entries: Vec<([u8; 32], Vec<u8>)> = Vec::new();
        std::mem::swap(&mut entries, &mut self.entries);
        if found {
            entries.set(i, (id, value));
        } else {
            entries.insert(i, (id, value));
        }
        proof {
            let after = entries@;
            let step: int = if found {
                0
            } else {
                1
            };
            assert(forall|j: int| 0 <= j < at ==> (#[trigger] after[j]) == before[j]);
            assert(after[at].0@ == id@);
            assert forall|j: int| at < j < after.len() implies (#[trigger] after[j]) == before[j
                - step] by {}
            assert(increasing(after)) by {
                assert forall|j: int, k: int| 0 <= j < k < after.len() implies below(
                    (#[trigger] after[j]).0@,
                    (#[trigger] after[k]).0@,
                ) by {
                    if k < at {
                        assert(below(before[j].0@, before[k].0@));
                    } else if k == at {
                        assert(below(before[j].0@, id@));
                    } else if j == at {
                        assert(after[k] == before[k - step]);
                        if found {
                            assert(below(before[at].0@, before[k].0@));
                        }
                    } else if j < at {
                        assert(after[k] == before[k - step]);
                        assert(below(before[j].0@, before[k - step].0@));
                    } else {
                        assert(after[j] == before[j - step]);
                        assert(after[k] == before[k - step]);
                        assert(below(before[j - step].0@, before[k - step].0@));
                    }
                }
            }
            lemma_increasing_is_distinct(before);
            lemma_increasing_is_distinct(after);
            lemma_map_of(before);
            lemma_map_of(after);
            let (a, b) = (map_of(after), map_of(before).insert(id@, value@));
            assert forall|k: Seq<u8>| a.dom().contains(k) <==> b.dom().contains(k) by {
                if a.dom().contains(k) && k != id@ {
                    let j = choose|j: int| 0 <= j < after.len() && (#[trigger] after[j]).0@ == k;
                    let l = if j < at {
                        j
                    } else {
                        j - step
                    };
                    assert(before[l].0@ == k);
                }
                if map_of(before).dom().contains(k) && k != id@ {
                    let j = choose|j: int| 0 <= j < before.len() && (#[trigger] before[j]).0@ == k;
                    let l = if j < at {
                        j
                    } else {
                        j + step
                    };
                    assert(after[l].0@ == k);
                }
            }
            assert forall|k: Seq<u8>| a.dom().contains(k) implies a[k] == b[k] by {
                let j = choose|j: int| 0 <= j < after.len() && (#[trigger] after[j]).0@ == k;
                assert(a[after[j].0@] == after[j].1@);
                if j != at {
                    let l = if j < at {
                        j
                    } else {
                        j - step
                    };
                    assert(before[l] == after[j]);
                    assert(map_of(before)[before[l].0@] == before[l].1@);
                    if k == id@ {
                        assert(after[j].0@ != after[at].0@);
                    }
                }
            }
            assert(a =~= b);
        }
        self.entries = entries;
    }
}

} // verus!
