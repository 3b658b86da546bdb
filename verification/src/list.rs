//! Intrusive FIFO list.
//!
//! The list stores its links beside the entities of an arena, in a column of their
//! own, and does not allocate. Entities are named by their slots.

use vstd::prelude::*;

verus! {

/// Singly-linked-list link of one entity.
#[derive(Clone, Copy, Debug, PartialEq, Eq, Structural)]
pub struct ListLink {
    pub next: Option<usize>,
}

impl ListLink {
    pub open spec fn detached() -> ListLink {
        ListLink { next: None }
    }

    pub fn new() -> (link: Self)
        ensures
            link == Self::detached(),
    {
        Self { next: None }
    }

    pub fn reset_links(&mut self)
        ensures
            *final(self) == Self::detached(),
    {
        self.next = None;
    }
}

impl Default for ListLink {
    fn default() -> (link: Self)
        ensures
            link == Self::detached(),
    {
        Self::new()
    }
}

/// FIFO list over the entities of an arena.
pub struct List {
    pub head: Option<usize>,
    pub tail: Option<usize>,
    pub len: usize,
    /// Listed slots from front to back.
    pub order: Ghost<Seq<usize>>,
}

impl View for List {
    type V = Seq<usize>;

    open spec fn view(&self) -> Seq<usize> {
        self.order@
    }
}

/// What stands behind position `k`.
pub open spec fn after(order: Seq<usize>, k: int) -> Option<usize> {
    if k + 1 < order.len() {
        Some(order[k + 1])
    } else {
        None
    }
}

impl List {
    /// The links lead through the listed slots from front to back.
    pub open spec fn wf(&self, links: Seq<ListLink>) -> bool {
        &&& self@.no_duplicates()
        &&& self.len == self@.len()
        &&& self.head == if self@.len() == 0 {
            None
        } else {
            Some(self@[0])
        }
        &&& self.tail == if self@.len() == 0 {
            None
        } else {
            Some(self@.last())
        }
        &&& forall|k: int|
            0 <= k < self@.len() ==> {
                &&& (#[trigger] self@[k]) < links.len()
                &&& links[self@[k] as int] == ListLink { next: after(self@, k) }
            }
    }

    pub fn new() -> (list: Self)
        ensures
            list@ == Seq::<usize>::empty(),
            forall|links: Seq<ListLink>| #[trigger] list.wf(links),
    {
        let list = Self { head: None, tail: None, len: 0, order: Ghost(Seq::empty()) };
        list
    }

    pub fn is_empty(&self, links: &Vec<ListLink>) -> (empty: bool)
        requires
            self.wf(links@),
        ensures
            empty == (self@.len() == 0),
    {
        self.head.is_none()
    }

    pub fn len(&self, links: &Vec<ListLink>) -> (len: usize)
        requires
            self.wf(links@),
        ensures
            len == self@.len(),
    {
        self.len
    }

    /// Front of the list.
    pub fn first(&self, links: &Vec<ListLink>) -> (first: Option<usize>)
        requires
            self.wf(links@),
        ensures
            first == if self@.len() == 0 {
                None
            } else {
                Some(self@[0])
            },
    {
        self.head
    }

    /// Slot behind a listed one.
    pub fn next(&self, links: &Vec<ListLink>, entity: Option<usize>) -> (next: Option<usize>)
        requires
            self.wf(links@),
            entity is Some ==> self@.contains(entity->0),
        ensures
            match entity {
                None => next is None,
                Some(e) => next == after(self@, self@.index_of(e)),
            },
    {
        match entity {
            None => None,
            Some(e) => {
                let ghost k = self@.index_of(e);
                assert(self@[k] == e);
                links[e].next
            },
        }
    }

    pub fn contains(&self, links: &Vec<ListLink>, entity: usize) -> (found: bool)
        requires
            self.wf(links@),
        ensures
            found == self@.contains(entity),
    {
        let mut cursor: Option<usize> = self.head;
        let ghost mut k: int = 0;
        while cursor.is_some()
            invariant
                self.wf(links@),
                0 <= k <= self@.len(),
                cursor == if k < self@.len() {
                    Some(self@[k])
                } else {
                    None
                },
                forall|j: int| 0 <= j < k ==> self@[j] != entity,
            decreases self@.len() - k,
        {
            let slot: usize = cursor.unwrap();
            assert(self@[k] == slot);
            if slot == entity {
                return true;
            }
            cursor = links[slot].next;
            proof {
                k = k + 1;
            }
        }
        false
    }

    /// Append a detached entity to the back of the list.
    pub fn push_back(&mut self, links: &mut Vec<ListLink>, entity: usize)
        requires
            old(self).wf(old(links)@),
            entity < old(links).len(),
            !old(self)@.contains(entity),
        ensures
            final(self).wf(final(links)@),
            final(self)@ == old(self)@.push(entity),
            final(links).len() == old(links).len(),
            forall|i: usize|
                i < old(links).len() && !final(self)@.contains(i) ==> (
                #[trigger] final(links)@[i as int]) == old(links)@[i as int],
    {
        let ghost before = self@;
        let ghost links0 = links@;
        proof {
            lemma_listed_fit(before.push(entity), links.len() as int);
        }
        links[entity].reset_links();
        match self.tail {
            None => {
                self.head = Some(entity);
            },
            Some(tail) => {
                assert(before[before.len() - 1] == tail);
                links[tail].next = Some(entity);
            },
        }
        self.tail = Some(entity);
        self.len = self.len + 1;
        self.order = Ghost(before.push(entity));
        proof {
            assert forall|k: int| 0 <= k < self@.len() implies {
                &&& (#[trigger] self@[k]) < links.len()
                &&& links@[self@[k] as int] == ListLink { next: after(self@, k) }
            } by {
                if k < before.len() {
                    assert(self@[k] == before[k]);
                    assert(before.contains(before[k]));
                    if k < before.len() - 1 {
                        assert(before[k] != before[before.len() - 1]);
                    }
                }
            }
            assert forall|i: usize|
                i < links0.len() && !self@.contains(i) implies #[trigger] links@[i as int]
                == links0[i as int] by {
                assert(self@[self@.len() - 1] == entity);
                if before.len() > 0 {
                    assert(self@[before.len() - 1] == before[before.len() - 1]);
                }
            }
        }
    }

    /// Remove and return the front entity in the list.
    pub fn pop_front(&mut self, links: &mut Vec<ListLink>) -> (popped: Option<usize>)
        requires
            old(self).wf(old(links)@),
        ensures
            final(self).wf(final(links)@),
            match popped {
                None => old(self)@.len() == 0 && final(self)@ == old(self)@ && final(links)@
                    == old(links)@,
                Some(i) => {
                    &&& old(self)@.len() > 0
                    &&& i == old(self)@[0]
                    &&& i < old(links).len()
                    &&& final(self)@ == old(self)@.skip(1)
                    &&& final(links)@ == old(links)@.update(i as int, ListLink::detached())
                },
            },
    {
        let ghost before = self@;
        let Some(slot) = self.head else {
            return None;
        };
        assert(before[0] == slot);
        self.head = links[slot].next;
        if self.head.is_none() {
            self.tail = None;
        }
        links[slot].reset_links();
        self.len = self.len - 1;
        self.order = Ghost(before.skip(1));
        proof {
            assert forall|k: int| 0 <= k < self@.len() implies {
                &&& (#[trigger] self@[k]) < links.len()
                &&& links@[self@[k] as int] == ListLink { next: after(self@, k) }
            } by {
                assert(self@[k] == before[k + 1]);
                assert(before[k + 1] != before[0]);
            }
            assert forall|j: int, k: int|
                0 <= j < self@.len() && 0 <= k < self@.len() && j != k implies self@[j]
                != self@[k] by {
                assert(self@[j] == before[j + 1]);
                assert(self@[k] == before[k + 1]);
            }
        }
        Some(slot)
    }
}

impl Default for List {
    fn default() -> (list: Self)
        ensures
            list@ == Seq::<usize>::empty(),
            forall|links: Seq<ListLink>| #[trigger] list.wf(links),
    {
        Self::new()
    }
}

/// An arena holds no fewer entities than any list of its slots.
proof fn lemma_listed_fit(order: Seq<usize>, size: int)
    requires
        0 <= size,
        order.no_duplicates(),
        forall|k: int| 0 <= k < order.len() ==> (#[trigger] order[k]) < size,
    ensures
        order.len() <= size,
{
    let slots = Seq::new(order.len(), |k: int| order[k] as int);
    assert(slots.no_duplicates());
    slots.unique_seq_to_set();
    assert forall|v: int| slots.to_set().contains(v) implies vstd::set_lib::set_int_range(
        0,
        size,
    ).contains(v) by {
        let k = choose|k: int| 0 <= k < slots.len() && slots[k] == v;
        assert(order[k] < size);
    }
    vstd::set_lib::lemma_int_range(0, size);
    vstd::set_lib::lemma_len_subset(slots.to_set(), vstd::set_lib::set_int_range(0, size));
}

/// Entities leave a list in the order in which they were appended: an appended
/// entity comes out after everything that was listed before, and not earlier.
pub proof fn lemma_first_in_first_out(order: Seq<usize>, entity: usize)
    ensures
        order.len() > 0 ==> order.push(entity)[0] == order[0] && order.push(entity).skip(1)
            == order.skip(1).push(entity),
        order.len() == 0 ==> order.push(entity)[0] == entity && order.push(entity).skip(1) == order,
{
    if order.len() > 0 {
        assert(order.push(entity).skip(1) =~= order.skip(1).push(entity));
    } else {
        assert(order.push(entity).skip(1) =~= order);
    }
}

} // verus!
