use vstd::prelude::*;

verus! {

/// Types of events that propagate through the tiers.
#[derive(Debug, Clone, PartialEq)]
pub enum EventKind {
    /// A sensor reading changed significantly.
    SensorChange,
    /// A movement or action was performed.
    Movement,
    /// An internal parameter was adjusted.
    ParameterAdjust,
    /// A pattern was detected by an adaptive tier.
    PatternDetected,
    /// The environment assessment changed.
    EnvironmentChange,
    /// An event kind outside the fixed set.
    Custom(String),
}

/// A bounded first-in first-out queue over a circular buffer of slots.
///
/// Its view is the sequence of queued items, oldest first. Enqueueing on a
/// full queue is refused and leaves the queue as it was.
pub struct EventQueue<T> {
    buffer: Vec<Option<T>>,
    head: usize,
    tail: usize,
    count: usize,
    capacity: usize,
}

impl<T> View for EventQueue<T> {
    type V = Seq<T>;

    closed spec fn view(&self) -> Seq<T> {
        Seq::new(self.count as nat, |i: int| self.slot((self.head + i) % (self.capacity as int)))
    }
}

impl<T> EventQueue<T> {
    spec fn slot(&self, k: int) -> T {
        self.buffer@[k]->Some_0
    }

    /// The buffer's bookkeeping is consistent with the queued items.
    pub closed spec fn wf(&self) -> bool {
        &&& self.buffer@.len() == self.capacity
        &&& self.count <= self.capacity
        &&& self.capacity == 0 ==> self.head == 0 && self.tail == 0
        &&& self.capacity > 0 ==> {
            &&& self.head < self.capacity
            &&& self.tail < self.capacity
            &&& self.tail as int == (self.head + self.count) % (self.capacity as int)
        }
        &&& forall|i: int|
            0 <= i < self.count ==> (#[trigger] self.buffer@[(self.head + i) % (
            self.capacity as int)]) is Some
    }

    /// The number of items the queue can hold.
    pub closed spec fn capacity(&self) -> nat {
        self.capacity as nat
    }

    /// An empty queue that holds at most `capacity` items.
    pub fn new(capacity: usize) -> (q: Self)
        ensures
            q.wf(),
            q@ == Seq::<T>::empty(),
            q.capacity() == capacity,
    {
        let mut buffer: Vec<Option<T>> = Vec::new();
        let mut k: usize = 0;
        while k < capacity
            invariant
                k <= capacity,
                buffer@.len() == k,
            decreases capacity - k,
        {
            buffer.push(None);
            k = k + 1;
        }
        let q = EventQueue { buffer, head: 0, tail: 0, count: 0, capacity };
        assert(q.buffer@.len() == q.capacity);
        assert(capacity > 0 ==> 0int % (capacity as int) == 0);
        assert(q.count <= q.capacity);
        assert(q@ =~= Seq::<T>::empty());
        q
    }

    pub fn is_empty(&self) -> (r: bool)
        requires
            self.wf(),
        ensures
            r == (self@.len() == 0),
    {
        self.count == 0
    }

    pub fn len(&self) -> (r: usize)
        requires
            self.wf(),
        ensures
            r == self@.len(),
    {
        self.count
    }

    /// Appends `event` at the back; returns false, and changes nothing, when
    /// the queue is full.
    pub fn enqueue(&mut self, event: T) -> (r: bool)
        requires
            old(self).wf(),
        ensures
            final(self).wf(),
            r == (old(self)@.len() < old(self).capacity()),
            r ==> final(self)@ == old(self)@.push(event),
            !r ==> final(self)@ == old(self)@,
            !r ==> final(self)@.len() == final(self).capacity(),
            final(self).capacity() == old(self).capacity(),
    {
        if self.count >= self.capacity {
            return false;
        }
        let ghost before = self@;
        let ghost cap = self.capacity as int;
        let ghost head = self.head as int;
        let ghost cnt = self.count as int;
        let ghost old_buf = self.buffer@;
        self.buffer.set(self.tail, Some(event));
        self.tail = (self.tail + 1) % self.capacity;
        self.count = self.count + 1;
        proof {
            assert forall|i: int| 0 <= i < cnt implies #[trigger] self.buffer@[(head + i) % cap]
                == old_buf[(head + i) % cap] by {
                lemma_distinct_slots(head, i, cnt, cap);
            }
            assert(self.buffer@[(head + cnt) % cap] == Some(event));
            assert(self.tail as int == (head + cnt + 1) % cap) by {
                vstd::arithmetic::div_mod::lemma_add_mod_noop_right(1, head + cnt, cap);
            }
            assert(self@ =~= before.push(event));
        }
        true
    }

    /// Removes and returns the oldest item, or `None` when the queue is empty.
    pub fn dequeue(&mut self) -> (r: Option<T>)
        requires
            old(self).wf(),
        ensures
            final(self).wf(),
            old(self)@.len() == 0 ==> r is None && final(self)@ == old(self)@,
            old(self)@.len() > 0 ==> r == Some(old(self)@[0]) && final(self)@ == old(
                self,
            )@.drop_first(),
            final(self).capacity() == old(self).capacity(),
    {
        if self.count == 0 {
            return None;
        }
        let ghost before = self@;
        let ghost cap = self.capacity as int;
        let ghost head = self.head as int;
        let ghost cnt = self.count as int;
        let mut taken: Option<T> = None;
        self.buffer.set_and_swap(self.head, &mut taken);
        self.head = (self.head + 1) % self.capacity;
        self.count = self.count - 1;
        proof {
            assert(taken == Some(before[0])) by {
                vstd::arithmetic::div_mod::lemma_small_mod(head as nat, cap as nat);
            }
            assert forall|i: int| 0 <= i < cnt - 1 implies (#[trigger] ((self.head + i) % cap)) == (
            head + (i + 1)) % cap && (head + (i + 1)) % cap != head by {
                vstd::arithmetic::div_mod::lemma_add_mod_noop_right(i, head + 1, cap);
                vstd::arithmetic::div_mod::lemma_small_mod(head as nat, cap as nat);
                lemma_distinct_slots(head, 0, i + 1, cap);
            }
            assert forall|i: int| 0 <= i < self.count implies (#[trigger] self.buffer@[(self.head + i)
                % cap]) is Some by {
                assert(self.buffer@[(head + (i + 1)) % cap] is Some);
            }
            assert(self.tail as int == (self.head + self.count) % cap) by {
                vstd::arithmetic::div_mod::lemma_add_mod_noop_right(cnt - 1, head + 1, cap);
            }
            assert(self@ =~= before.drop_first());
        }
        taken
    }
}

/// Two positions of one pass around a ring of `cap` slots fall on different slots.
proof fn lemma_distinct_slots(head: int, i: int, j: int, cap: int)
    requires
        0 <= head < cap,
        0 <= i < j <= cap,
        i < j,
        j - i < cap,
    ensures
        (head + i) % cap != (head + j) % cap,
{
    vstd::arithmetic::div_mod::lemma_fundamental_div_mod(head + i, cap);
    vstd::arithmetic::div_mod::lemma_fundamental_div_mod(head + j, cap);
    let qi = (head + i) / cap;
    let qj = (head + j) / cap;
    if (head + i) % cap == (head + j) % cap {
        assert(cap * (qj - qi) == j - i) by (nonlinear_arith)
            requires
                head + i == cap * qi + (head + i) % cap,
                head + j == cap * qj + (head + j) % cap,
                (head + i) % cap == (head + j) % cap,
        ;
        assert(false) by (nonlinear_arith)
            requires
                cap * (qj - qi) == j - i,
                0 < j - i < cap,
        ;
    }
}

} // verus!
