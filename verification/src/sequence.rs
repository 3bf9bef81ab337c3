//! The sequence list: loads kept in ascending order of a numeric key.
//!
//! The list is doubly linked. Its nodes live in a growable array and name
//! their neighbours by position in that array, so a node never moves once it
//! is stored and linking a new one touches two neighbours at most.

use vstd::prelude::*;
use crate::types::LoadNumber;

verus! {

/// The place at which a new entry with the key `key` goes into `entries`:
/// before the first entry whose key is larger, or at the end where there is
/// none. A new entry therefore follows the entries that have its own key.
pub open spec fn insert_position(entries: Seq<(u64, LoadNumber)>, key: u64) -> int
    decreases entries.len(),
{
    if entries.len() == 0 {
        0
    } else if entries.first().0 > key {
        0
    } else {
        1 + insert_position(entries.drop_first(), key)
    }
}

/// The entries `entries` with one more, for the load `load` under the key
/// `key`, at its place.
pub open spec fn inserted(entries: Seq<(u64, LoadNumber)>, key: u64, load: LoadNumber) -> Seq<
    (u64, LoadNumber),
> {
    entries.insert(insert_position(entries, key), (key, load))
}

/// Whether the keys of `entries` never descend.
pub open spec fn ascending(entries: Seq<(u64, LoadNumber)>) -> bool {
    forall|p: int, q: int| 0 <= p < q < entries.len() ==> entries[p].0 <= entries[q].0
}

/// Whether the keys of `entries` ascend strictly.
pub open spec fn strictly_ascending(entries: Seq<(u64, LoadNumber)>) -> bool {
    forall|p: int, q: int| 0 <= p < q < entries.len() ==> entries[p].0 < entries[q].0
}

/// The loads of `entries`, in their order.
pub open spec fn loads_of(entries: Seq<(u64, LoadNumber)>) -> Seq<LoadNumber> {
    Seq::new(entries.len(), |p: int| entries[p].1)
}

/// The insert position is the one place with no larger key before it and a
/// larger key, or the end, at it.
pub proof fn lemma_insert_position(entries: Seq<(u64, LoadNumber)>, key: u64, place: int)
    requires
        0 <= place <= entries.len(),
        forall|q: int| 0 <= q < place ==> (#[trigger] entries[q]).0 <= key,
        place < entries.len() ==> entries[place].0 > key,
    ensures
        insert_position(entries, key) == place,
    decreases entries.len(),
{
    if entries.len() > 0 {
        if place == 0 {
            assert(entries.first().0 > key);
        } else {
            assert(entries[0].0 <= key);
            let rest = entries.drop_first();
            assert forall|q: int| 0 <= q < place - 1 implies (#[trigger] rest[q]).0 <= key by {
                assert(entries[q + 1].0 <= key);
            }
            lemma_insert_position(rest, key, place - 1);
        }
    }
}

/// The insert position lies within the list, has no larger key before it,
/// and has a larger key at it unless it is the end.
pub proof fn lemma_insert_position_bounds(entries: Seq<(u64, LoadNumber)>, key: u64)
    ensures
        0 <= insert_position(entries, key) <= entries.len(),
        forall|q: int| 0 <= q < insert_position(entries, key) ==> (#[trigger] entries[q]).0 <= key,
        insert_position(entries, key) < entries.len() ==> entries[insert_position(
            entries,
            key,
        )].0 > key,
    decreases entries.len(),
{
    if entries.len() > 0 && entries.first().0 <= key {
        let rest = entries.drop_first();
        lemma_insert_position_bounds(rest, key);
        let place = insert_position(entries, key);
        assert forall|q: int| 0 <= q < place implies (#[trigger] entries[q]).0 <= key by {
            if q > 0 {
                assert(rest[q - 1].0 <= key);
            }
        }
        if place < entries.len() {
            assert(rest[place - 1] == entries[place]);
        }
    }
}

/// Inserting into a list whose keys never descend gives such a list again.
pub proof fn lemma_inserted_ascending(entries: Seq<(u64, LoadNumber)>, key: u64, load: LoadNumber)
    requires
        ascending(entries),
    ensures
        ascending(inserted(entries, key, load)),
{
    lemma_insert_position_bounds(entries, key);
    let place = insert_position(entries, key);
    let after = inserted(entries, key, load);
    assert forall|p: int, q: int| 0 <= p < q < after.len() implies after[p].0 <= after[q].0 by {
        if q == place {
            assert(after[p] == entries[p]);
        } else if p == place {
            assert(after[q] == entries[q - 1]);
            assert(entries[place].0 <= entries[q - 1].0 || place == q - 1);
        } else if q < place {
            assert(after[p] == entries[p] && after[q] == entries[q]);
        } else if p < place {
            assert(after[p] == entries[p] && after[q] == entries[q - 1]);
        } else {
            assert(after[p] == entries[p - 1] && after[q] == entries[q - 1]);
        }
    }
}

/// Inserting a key that the list does not hold into a strictly ascending
/// list gives a strictly ascending list again.
pub proof fn lemma_inserted_strictly_ascending(
    entries: Seq<(u64, LoadNumber)>,
    key: u64,
    load: LoadNumber,
)
    requires
        strictly_ascending(entries),
        forall|q: int| 0 <= q < entries.len() ==> (#[trigger] entries[q]).0 != key,
    ensures
        strictly_ascending(inserted(entries, key, load)),
{
    lemma_insert_position_bounds(entries, key);
    let place = insert_position(entries, key);
    let after = inserted(entries, key, load);
    assert forall|p: int, q: int| 0 <= p < q < after.len() implies after[p].0 < after[q].0 by {
        if q == place {
            assert(after[p] == entries[p]);
        } else if p == place {
            assert(after[q] == entries[q - 1]);
            assert(entries[place].0 < entries[q - 1].0 || place == q - 1);
        } else if q < place {
            assert(after[p] == entries[p] && after[q] == entries[q]);
        } else if p < place {
            assert(after[p] == entries[p] && after[q] == entries[q - 1]);
        } else {
            assert(after[p] == entries[p - 1] && after[q] == entries[q - 1]);
        }
    }
}

/// The list that holds the entries `entries`, each put in at its place in
/// the order in which they are given.
pub open spec fn sequenced(entries: Seq<(u64, LoadNumber)>) -> Seq<(u64, LoadNumber)>
    decreases entries.len(),
{
    if entries.len() == 0 {
        Seq::empty()
    } else {
        inserted(sequenced(entries.drop_last()), entries.last().0, entries.last().1)
    }
}

/// Whether no two of `entries` have the same key.
pub open spec fn distinct_keys(entries: Seq<(u64, LoadNumber)>) -> bool {
    forall|p: int, q: int| 0 <= p < q < entries.len() ==> entries[p].0 != entries[q].0
}

/// The sequence list holds what was put into it and nothing else: it is as
/// long as the list of entries given, and an entry is in it exactly if it
/// was given.
pub proof fn lemma_sequenced_holds_entries(entries: Seq<(u64, LoadNumber)>)
    ensures
        sequenced(entries).len() == entries.len(),
        forall|entry: (u64, LoadNumber)|
            sequenced(entries).contains(entry) <==> entries.contains(entry),
    decreases entries.len(),
{
    if entries.len() > 0 {
        let rest = entries.drop_last();
        let last = entries.last();
        let before = sequenced(rest);
        let after = sequenced(entries);
        lemma_sequenced_holds_entries(rest);
        lemma_insert_position_bounds(before, last.0);
        let place = insert_position(before, last.0);
        assert forall|entry: (u64, LoadNumber)| after.contains(entry) <==> entries.contains(
            entry,
        ) by {
            if after.contains(entry) {
                let k = choose|k: int| 0 <= k < after.len() && after[k] == entry;
                if k == place {
                    assert(entries[entries.len() - 1] == entry);
                } else {
                    let j = if k < place { k } else { k - 1 };
                    assert(before[j] == entry);
                    assert(before.contains(entry));
                    assert(rest.contains(entry));
                    let i = choose|i: int| 0 <= i < rest.len() && rest[i] == entry;
                    assert(entries[i] == entry);
                }
            }
            if entries.contains(entry) {
                let i = choose|i: int| 0 <= i < entries.len() && entries[i] == entry;
                if i == entries.len() - 1 {
                    assert(after[place] == entry);
                } else {
                    assert(rest[i] == entry);
                    assert(rest.contains(entry));
                    assert(before.contains(entry));
                    let j = choose|j: int| 0 <= j < before.len() && before[j] == entry;
                    let k = if j < place { j } else { j + 1 };
                    assert(after[k] == entry);
                }
            }
        }
    }
}

/// The keys of the sequence list never descend; where no two entries have
/// the same key, they ascend strictly.
pub proof fn lemma_sequenced_ascending(entries: Seq<(u64, LoadNumber)>)
    ensures
        ascending(sequenced(entries)),
        distinct_keys(entries) ==> strictly_ascending(sequenced(entries)),
    decreases entries.len(),
{
    if entries.len() > 0 {
        let rest = entries.drop_last();
        let last = entries.last();
        let before = sequenced(rest);
        lemma_sequenced_ascending(rest);
        lemma_inserted_ascending(before, last.0, last.1);
        if distinct_keys(entries) {
            assert(distinct_keys(rest)) by {
                assert forall|p: int, q: int| 0 <= p < q < rest.len() implies rest[p].0
                    != rest[q].0 by {
                    assert(entries[p].0 != entries[q].0);
                }
            }
            lemma_sequenced_holds_entries(rest);
            assert forall|q: int| 0 <= q < before.len() implies (#[trigger] before[q]).0
                != last.0 by {
                assert(before.contains(before[q]));
                assert(rest.contains(before[q]));
                let i = choose|i: int| 0 <= i < rest.len() && rest[i] == before[q];
                assert(entries[i].0 != entries[entries.len() - 1].0);
            }
            lemma_inserted_strictly_ascending(before, last.0, last.1);
        }
    }
}

/// One entry of the sequence list with the places of its neighbours.
pub struct Node {
    key: u64,
    load: LoadNumber,
    prev: Option<usize>,
    next: Option<usize>,
}

/// Loads in ascending order of their keys.
pub struct SequenceList {
    nodes: Vec<Node>,
    head: Option<usize>,
    tail: Option<usize>,
    order: Ghost<Seq<int>>,
}

impl SequenceList {
    /// The node that stands at the place `place` of the list.
    spec fn at(&self, place: int) -> Node {
        self.nodes@[self.order@[place]]
    }

    /// The place in the array of the node at the place `place` of the list.
    spec fn slot(&self, place: int) -> int {
        self.order@[place]
    }

    /// Whether the links are sound: every stored node stands at one place of
    /// the list, each node names the nodes beside it, head and tail name the
    /// two ends, and the keys never descend from head to tail.
    pub closed spec fn wf(&self) -> bool {
        let n = self.nodes.len() as int;
        &&& self.order@.len() == n
        &&& forall|p: int| 0 <= p < n ==> 0 <= #[trigger] self.slot(p) < n
        &&& forall|p: int, q: int| 0 <= p < q < n ==> #[trigger] self.slot(p) != #[trigger] self.slot(q)
        &&& self.head == (if n == 0 {
            None
        } else {
            Some(self.slot(0) as usize)
        })
        &&& self.tail == (if n == 0 {
            None
        } else {
            Some(self.slot(n - 1) as usize)
        })
        &&& forall|p: int|
            0 <= p < n ==> (#[trigger] self.at(p)).prev == (if p == 0 {
                None
            } else {
                Some(self.slot(p - 1) as usize)
            })
        &&& forall|p: int|
            0 <= p < n ==> (#[trigger] self.at(p)).next == (if p == n - 1 {
                None
            } else {
                Some(self.slot(p + 1) as usize)
            })
        &&& forall|p: int, q: int|
            0 <= p < q < n ==> (#[trigger] self.at(p)).key <= (#[trigger] self.at(q)).key
    }
}

impl View for SequenceList {
    type V = Seq<(u64, LoadNumber)>;

    /// The entries from head to tail, each a key and its load.
    closed spec fn view(&self) -> Seq<(u64, LoadNumber)> {
        Seq::new(self.order@.len(), |p: int| (self.at(p).key, self.at(p).load))
    }
}

impl SequenceList {
    /// A list without entries.
    pub fn new() -> (list: Self)
        ensures
            list.wf(),
            list@ == Seq::<(u64, LoadNumber)>::empty(),
    {
        let list = SequenceList { nodes: Vec::new(), head: None, tail: None, order: Ghost(Seq::empty()) };
        assert(list@ =~= Seq::<(u64, LoadNumber)>::empty());
        list
    }

    /// The number of entries.
    pub fn len(&self) -> (count: usize)
        requires
            self.wf(),
        ensures
            count == self@.len(),
    {
        self.nodes.len()
    }

    /// A list whose links are sound keeps its keys from descending.
    pub proof fn lemma_ascending(&self)
        requires
            self.wf(),
        ensures
            ascending(self@),
    {
        assert forall|p: int, q: int| 0 <= p < q < self@.len() implies self@[p].0 <= self@[q].0 by {
            assert(self.at(p).key <= self.at(q).key);
        }
    }

    /// Whether `after` is this list with one more node, for the load `load`
    /// under the key `key`, linked in at the place `place`: the new node is
    /// stored last and names the nodes that stood at `place - 1` and at
    /// `place`, those two name it in turn, and head or tail name it where it
    /// has no neighbour on that side.
    spec fn linked_in(&self, after: Self, place: int, key: u64, load: LoadNumber) -> bool {
        let n = self.nodes.len() as int;
        &&& 0 <= place <= n
        &&& after.nodes.len() == n + 1
        &&& after.order@ == self.order@.insert(place, n)
        &&& after.nodes@[n].key == key
        &&& after.nodes@[n].load == load
        &&& after.nodes@[n].prev == (if place == 0 {
            None
        } else {
            Some(self.slot(place - 1) as usize)
        })
        &&& after.nodes@[n].next == (if place == n {
            None
        } else {
            Some(self.slot(place) as usize)
        })
        &&& forall|i: int|
            0 <= i < n ==> (#[trigger] after.nodes@[i]).key == self.nodes@[i].key
                && after.nodes@[i].load == self.nodes@[i].load
        &&& forall|i: int|
            0 <= i < n ==> (#[trigger] after.nodes@[i]).prev == (if place < n && i == self.slot(
                place,
            ) {
                Some(n as usize)
            } else {
                self.nodes@[i].prev
            })
        &&& forall|i: int|
            0 <= i < n ==> (#[trigger] after.nodes@[i]).next == (if place > 0 && i == self.slot(
                place - 1,
            ) {
                Some(n as usize)
            } else {
                self.nodes@[i].next
            })
        &&& after.head == (if place == 0 {
            Some(n as usize)
        } else {
            self.head
        })
        &&& after.tail == (if place == n {
            Some(n as usize)
        } else {
            self.tail
        })
    }

    /// Whether the places of `after` are those of this list with the new
    /// node's slot put in at `place`.
    spec fn shifted(&self, after: Self, place: int) -> bool {
        let n = self.nodes.len() as int;
        forall|q: int|
            0 <= q < n + 1 ==> #[trigger] after.slot(q) == (if q < place {
                self.slot(q)
            } else if q == place {
                n
            } else {
                self.slot(q - 1)
            })
    }

    /// After linking in, every node names the node before it.
    proof fn lemma_linked_prev(&self, after: Self, place: int, key: u64, load: LoadNumber)
        requires
            self.wf(),
            self.linked_in(after, place, key, load),
            self.shifted(after, place),
        ensures
            forall|p: int|
                0 <= p < self.nodes.len() + 1 ==> (#[trigger] after.at(p)).prev == (if p == 0 {
                    None
                } else {
                    Some(after.slot(p - 1) as usize)
                }),
    {
        let n = self.nodes.len() as int;
        assert forall|p: int| 0 <= p < n + 1 implies (#[trigger] after.at(p)).prev == (if p == 0 {
            None
        } else {
            Some(after.slot(p - 1) as usize)
        }) by {
            if p < place {
                assert(0 <= self.slot(p) < n);
                assert(after.slot(p) == self.slot(p));
                if place < n {
                    assert(self.slot(p) != self.slot(place));
                }
                assert(self.at(p).prev == (if p == 0 {
                    None
                } else {
                    Some(self.slot(p - 1) as usize)
                }));
                if p > 0 {
                    assert(after.slot(p - 1) == self.slot(p - 1));
                }
            } else if p > place {
                assert(0 <= self.slot(p - 1) < n);
                assert(after.slot(p) == self.slot(p - 1));
                if p - 1 == place {
                    assert(after.slot(p - 1) == n);
                } else {
                    assert(self.slot(place) != self.slot(p - 1));
                    assert(self.at(p - 1).prev == Some(self.slot(p - 2) as usize));
                    assert(after.slot(p - 1) == self.slot(p - 2));
                }
            } else {
                assert(after.slot(place) == n);
                if place > 0 {
                    assert(after.slot(place - 1) == self.slot(place - 1));
                }
            }
        }
    }

    /// After linking in, every node names the node after it.
    proof fn lemma_linked_next(&self, after: Self, place: int, key: u64, load: LoadNumber)
        requires
            self.wf(),
            self.linked_in(after, place, key, load),
            self.shifted(after, place),
        ensures
            forall|p: int|
                0 <= p < self.nodes.len() + 1 ==> (#[trigger] after.at(p)).next == (if p
                    == self.nodes.len() {
                    None
                } else {
                    Some(after.slot(p + 1) as usize)
                }),
    {
        let n = self.nodes.len() as int;
        assert forall|p: int| 0 <= p < n + 1 implies (#[trigger] after.at(p)).next == (if p == n {
            None
        } else {
            Some(after.slot(p + 1) as usize)
        }) by {
            if p < place {
                assert(0 <= self.slot(p) < n);
                assert(after.slot(p) == self.slot(p));
                if p == place - 1 {
                    assert(after.slot(p + 1) == n);
                } else {
                    assert(self.slot(p) != self.slot(place - 1));
                    assert(self.at(p).next == Some(self.slot(p + 1) as usize));
                    assert(after.slot(p + 1) == self.slot(p + 1));
                }
            } else if p > place {
                assert(0 <= self.slot(p - 1) < n);
                assert(after.slot(p) == self.slot(p - 1));
                if place > 0 {
                    assert(self.slot(place - 1) != self.slot(p - 1));
                }
                assert(self.at(p - 1).next == (if p - 1 == n - 1 {
                    None
                } else {
                    Some(self.slot(p) as usize)
                }));
                if p < n {
                    assert(after.slot(p + 1) == self.slot(p));
                }
            } else {
                assert(after.slot(place) == n);
                if place < n {
                    assert(after.slot(place + 1) == self.slot(place));
                }
            }
        }
    }

    /// After linking in, the nodes hold the entries with the new one at its
    /// place.
    proof fn lemma_linked_entries(&self, after: Self, place: int, key: u64, load: LoadNumber)
        requires
            self.wf(),
            self.linked_in(after, place, key, load),
            self.shifted(after, place),
        ensures
            after@ == self@.insert(place, (key, load)),
    {
        let n = self.nodes.len() as int;
        let expected = self@.insert(place, (key, load));
        assert(after@.len() == n + 1);
        assert forall|q: int| 0 <= q < n + 1 implies after@[q] == expected[q] by {
            if q != place {
                let x = if q < place { q } else { q - 1 };
                assert(0 <= self.slot(x) < n);
                assert(after.slot(q) == self.slot(x));
            } else {
                assert(after.slot(place) == n);
            }
        }
        assert(after@ =~= expected);
    }

    /// Linking a node in at the insert position of its key keeps the links
    /// sound and gives the entries with the new one at its place.
    proof fn lemma_linked_in(&self, after: Self, place: int, key: u64, load: LoadNumber)
        requires
            self.wf(),
            self.linked_in(after, place, key, load),
            place == insert_position(self@, key),
        ensures
            after.wf(),
            after@ == inserted(self@, key, load),
    {
        let n = self.nodes.len() as int;
        assert(self.shifted(after, place)) by {
            assert forall|q: int| 0 <= q < n + 1 implies #[trigger] after.slot(q) == (if q < place {
                self.slot(q)
            } else if q == place {
                n
            } else {
                self.slot(q - 1)
            }) by {}
        }
        self.lemma_linked_prev(after, place, key, load);
        self.lemma_linked_next(after, place, key, load);
        self.lemma_linked_entries(after, place, key, load);
        self.lemma_ascending();
        lemma_inserted_ascending(self@, key, load);
        assert forall|q: int| 0 <= q < n + 1 implies 0 <= #[trigger] after.slot(q) < n + 1 by {
            if q < place {
                assert(0 <= self.slot(q) < n);
            } else if q > place {
                assert(0 <= self.slot(q - 1) < n);
            }
        }
        assert forall|a: int, b: int| 0 <= a < b < n + 1 implies #[trigger] after.slot(a)
            != #[trigger] after.slot(b) by {
            let x = if a < place { a } else { a - 1 };
            let y = if b < place { b } else { b - 1 };
            if a != place && b != place {
                assert(self.slot(x) != self.slot(y));
            } else if a == place {
                assert(0 <= self.slot(y) < n);
            } else {
                assert(0 <= self.slot(x) < n);
            }
        }
        assert forall|p: int, q: int| 0 <= p < q < n + 1 implies (#[trigger] after.at(p)).key <= (
        #[trigger] after.at(q)).key by {
            assert(after@[p].0 <= after@[q].0);
        }
        assert(after.head == Some(after.slot(0) as usize)) by {
            if place > 0 {
                assert(after.slot(0) == self.slot(0));
            }
        }
        assert(after.tail == Some(after.slot(n) as usize)) by {
            if place < n {
                assert(after.slot(n) == self.slot(n - 1));
            }
        }
    }

    /// Puts the load `load` under the key `key` into the list: at the head
    /// if the list is empty or the key is smaller than the head's, otherwise
    /// before the first node with a larger key, or at the tail where there
    /// is none.
    pub fn insert(&mut self, key: u64, load: LoadNumber)
        requires
            old(self).wf(),
        ensures
            final(self).wf(),
            final(self)@ == inserted(old(self)@, key, load),
    {
        let ghost entries = self@;
        let n = self.nodes.len();
        let mut before: Option<usize> = None;
        let mut cursor: Option<usize> = self.head;
        let mut walking = true;
        let ghost mut place: int = 0;
        while walking
            invariant
                *self == *old(self),
                self.wf(),
                n == self.nodes.len(),
                entries == self@,
                0 <= place <= n,
                cursor == (if place < n {
                    Some(self.slot(place) as usize)
                } else {
                    None
                }),
                before == (if place == 0 {
                    None
                } else {
                    Some(self.slot(place - 1) as usize)
                }),
                forall|q: int| 0 <= q < place ==> (#[trigger] self.at(q)).key <= key,
                !walking ==> (place < n ==> self.at(place).key > key),
            decreases n - place + (if walking { 1int } else { 0int }),
        {
            match cursor {
                None => {
                    walking = false;
                },
                Some(c) => {
                    assert(c == self.slot(place));
                    assert(self.nodes@[c as int] == self.at(place));
                    if self.nodes[c].key <= key {
                        before = cursor;
                        cursor = self.nodes[c].next;
                        proof {
                            place = place + 1;
                        }
                    } else {
                        walking = false;
                    }
                },
            }
        }
        proof {
            assert forall|q: int| 0 <= q < place implies (#[trigger] entries[q]).0 <= key by {
                assert(self.at(q).key <= key);
            }
            if place < n {
                assert(entries[place].0 == self.at(place).key);
            }
            lemma_insert_position(entries, key, place);
        }
        let ghost old_order = self.order@;
        let ghost old_nodes = self.nodes@;
        let fresh = n;
        self.nodes.push(Node { key, load, prev: before, next: cursor });
        match before {
            Some(b) => {
                self.nodes[b].next = Some(fresh);
            },
            None => {
                self.head = Some(fresh);
            },
        }
        match cursor {
            Some(c) => {
                self.nodes[c].prev = Some(fresh);
            },
            None => {
                self.tail = Some(fresh);
            },
        }
        self.order = Ghost(old_order.insert(place, fresh as int));
        proof {
            assert(old(self).linked_in(*self, place, key, load));
            old(self).lemma_linked_in(*self, place, key, load);
        }
    }

    /// The loads of the list from head to tail.
    pub fn loads(&self) -> (loads: Vec<LoadNumber>)
        requires
            self.wf(),
        ensures
            loads@ == loads_of(self@),
    {
        let n = self.nodes.len();
        let mut loads: Vec<LoadNumber> = Vec::new();
        let mut cursor: Option<usize> = self.head;
        let mut walking = true;
        while walking
            invariant
                self.wf(),
                n == self.nodes.len(),
                loads.len() <= n,
                cursor == (if loads.len() < n {
                    Some(self.slot(loads.len() as int) as usize)
                } else {
                    None
                }),
                forall|q: int| 0 <= q < loads.len() ==> loads@[q] == (#[trigger] self.at(q)).load,
                !walking ==> loads.len() == n,
            decreases n - loads.len() + (if walking { 1int } else { 0int }),
        {
            match cursor {
                None => {
                    walking = false;
                },
                Some(c) => {
                    assert(self.nodes@[c as int] == self.at(loads.len() as int));
                    loads.push(self.nodes[c].load);
                    cursor = self.nodes[c].next;
                },
            }
        }
        assert(loads@ =~= loads_of(self@));
        loads
    }
}

} // verus!
