//! A queue that hands out its element of lowest priority first.

use vstd::prelude::*;

verus! {

/// Elements with their priorities, kept from the highest priority down to
/// the lowest. Among equal priorities the element put first leaves first.
pub struct PriorityQueue<T> {
    elements: Vec<(u64, T)>,
}

/// No priority in `s` is followed by a higher one.
pub open spec fn descending<T>(s: Seq<(u64, T)>) -> bool {
    forall|i: int, j: int| 0 <= i <= j < s.len() ==> s[i].0 >= s[j].0
}

/// Where `put` places an element of priority `p`: before the first element
/// whose priority is not above `p`.
pub open spec fn insertion_point<T>(s: Seq<(u64, T)>, p: u64) -> int
    decreases s.len(),
{
    if s.len() == 0 || p >= s[0].0 {
        0
    } else {
        1 + insertion_point(s.drop_first(), p)
    }
}

/// The insertion point lies in the queue, after everything of higher
/// priority and before an element that is not.
pub proof fn lemma_insertion_point<T>(s: Seq<(u64, T)>, p: u64)
    ensures
        0 <= insertion_point(s, p) <= s.len(),
        forall|k: int| 0 <= k < insertion_point(s, p) ==> s[k].0 > p,
        insertion_point(s, p) < s.len() ==> s[insertion_point(s, p)].0 <= p,
    decreases s.len(),
{
    if !(s.len() == 0 || p >= s[0].0) {
        let rest = s.drop_first();
        lemma_insertion_point(rest, p);
        assert forall|k: int| 0 <= k < insertion_point(s, p) implies s[k].0 > p by {
            if k > 0 {
                assert(s[k] == rest[k - 1]);
            }
        }
        if insertion_point(s, p) < s.len() {
            assert(s[insertion_point(s, p)] == rest[insertion_point(rest, p)]);
        }
    }
}

/// An index before which every priority is above `p` and at which the
/// priority is not (or the queue ends) is the insertion point.
pub proof fn lemma_insertion_point_is<T>(s: Seq<(u64, T)>, p: u64, i: int)
    requires
        0 <= i <= s.len(),
        forall|k: int| 0 <= k < i ==> s[k].0 > p,
        i < s.len() ==> s[i].0 <= p,
    ensures
        insertion_point(s, p) == i,
{
    lemma_insertion_point(s, p);
    let j = insertion_point(s, p);
    if j < i {
        assert(s[j].0 > p);
    } else if i < j {
        assert(s[i].0 > p);
    }
}

/// Putting an element at its insertion point keeps a queue in order.
pub proof fn lemma_insert_keeps_order<T>(s: Seq<(u64, T)>, p: u64, e: T)
    requires
        descending(s),
    ensures
        descending(s.insert(insertion_point(s, p), (p, e))),
{
    lemma_insertion_point(s, p);
    let i = insertion_point(s, p);
    let t = s.insert(i, (p, e));
    assert forall|a: int, b: int| 0 <= a <= b < t.len() implies t[a].0 >= t[b].0 by {
        if a < i && b > i {
            assert(t[a] == s[a] && t[b] == s[b - 1]);
            assert(s[i].0 <= p);
            assert(s[i].0 >= s[b - 1].0);
        } else if a < i && b < i {
            assert(t[a] == s[a] && t[b] == s[b]);
        } else if a > i {
            assert(t[a] == s[a - 1] && t[b] == s[b - 1]);
        } else if a == i && b > i {
            assert(t[b] == s[b - 1]);
            assert(s[i].0 >= s[b - 1].0);
        } else if a < i && b == i {
            assert(t[a] == s[a]);
        }
    }
}

impl<T> PriorityQueue<T> {
    /// The queue from the highest priority to the lowest; the last element
    /// leaves next.
    pub closed spec fn view(&self) -> Seq<(u64, T)> {
        self.elements@
    }

    /// The queue is in order.
    pub open spec fn wf(&self) -> bool {
        descending(self@)
    }

    /// An empty queue.
    pub fn new() -> (q: PriorityQueue<T>)
        ensures
            q@ == Seq::<(u64, T)>::empty(),
            q.wf(),
    {
        PriorityQueue { elements: Vec::new() }
    }

    /// The number of elements.
    pub fn len(&self) -> (n: usize)
        ensures
            n == self@.len(),
    {
        self.elements.len()
    }

    /// Adds an element. It goes before the elements of equal or lower
    /// priority that are in the queue, so that it leaves after them.
    pub fn put(&mut self, new_element: T, priority: u64)
        requires
            old(self).wf(),
        ensures
            final(self)@ == old(self)@.insert(
                insertion_point(old(self)@, priority),
                (priority, new_element),
            ),
            final(self).wf(),
    {
        proof {
            lemma_insert_keeps_order(self.elements@, priority, new_element);
        }
        let n: usize = self.elements.len();
        let mut i: usize = 0;
        while i < n && priority < self.elements[i].0
            invariant
                i <= n,
                n == self.elements@.len(),
                self.elements@ == old(self).elements@,
                forall|k: int| 0 <= k < i ==> self.elements@[k].0 > priority,
            decreases n - i,
        {
            i += 1;
        }
        proof {
            lemma_insertion_point_is(self.elements@, priority, i as int);
        }
        self.elements.insert(i, (priority, new_element));
    }

    /// Takes out the element of lowest priority; among several of that
    /// priority, the one that was put first.
    pub fn get(&mut self) -> (r: Option<T>)
        requires
            old(self).wf(),
        ensures
            final(self).wf(),
            old(self)@.len() == 0 ==> r is None && final(self)@ == old(self)@,
            old(self)@.len() > 0 ==> r == Some(old(self)@.last().1) && final(self)@ == old(
                self,
            )@.drop_last(),
    {
        match self.elements.pop() {
            Some(pair) => Some(pair.1),
            None => None,
        }
    }
}

impl<T> Default for PriorityQueue<T> {
    fn default() -> (q: PriorityQueue<T>)
        ensures
            q@ == Seq::<(u64, T)>::empty(),
            q.wf(),
    {
        PriorityQueue::new()
    }
}

} // verus!
