//! The work-list of operators that are waiting to run.

use std::collections::HashSet;
use std::collections::VecDeque;
use vstd::prelude::*;

verus! {

/// Where `id` goes when it is scheduled after `pending`: to the back, unless
/// it is waiting already.
pub open spec fn enqueue(pending: Seq<usize>, id: usize) -> Seq<usize> {
    if pending.contains(id) {
        pending
    } else {
        pending.push(id)
    }
}

/// What waits after the ids of `ids` were scheduled after `pending`, one
/// after the other.
pub open spec fn enqueue_all(pending: Seq<usize>, ids: Seq<usize>) -> Seq<usize>
    decreases ids.len(),
{
    if ids.len() == 0 {
        pending
    } else {
        enqueue(enqueue_all(pending, ids.drop_last()), ids.last())
    }
}

/// To schedule an id that waits already changes nothing.
pub proof fn lemma_enqueue_waiting(pending: Seq<usize>, id: usize)
    requires
        pending.contains(id),
    ensures
        enqueue(pending, id) == pending,
{
}

/// However many ids are scheduled, and in whatever order, none waits twice.
pub proof fn lemma_enqueue_all_distinct(pending: Seq<usize>, ids: Seq<usize>)
    requires
        pending.no_duplicates(),
    ensures
        enqueue_all(pending, ids).no_duplicates(),
    decreases ids.len(),
{
    if ids.len() > 0 {
        lemma_enqueue_all_distinct(pending, ids.drop_last());
    }
}

/// Scheduling moves no id that waits: what waited stays in front, in its
/// order.
pub proof fn lemma_enqueue_all_keeps_order(pending: Seq<usize>, ids: Seq<usize>)
    ensures
        pending.is_prefix_of(enqueue_all(pending, ids)),
    decreases ids.len(),
{
    if ids.len() > 0 {
        lemma_enqueue_all_keeps_order(pending, ids.drop_last());
    }
}

/// First in, first out: where `a` is scheduled before `b`, and neither
/// waited before, `a` waits in front of `b`, whatever is scheduled between
/// the two and after them. An id leaves a schedule only from its front, so
/// `a` is taken before `b`.
pub proof fn lemma_first_in_first_out(
    pending: Seq<usize>,
    a: usize,
    between: Seq<usize>,
    b: usize,
    after: Seq<usize>,
)
    requires
        a != b,
        !pending.contains(a),
        !pending.contains(b),
    ensures
        ({
            let q = enqueue_all(enqueue(enqueue_all(enqueue(pending, a), between), b), after);
            exists|i: int, j: int| 0 <= i < j < q.len() && q[i] == a && q[j] == b
        }),
{
    let with_a = enqueue(pending, a);
    let mid = enqueue_all(with_a, between);
    let with_b = enqueue(mid, b);
    let q = enqueue_all(with_b, after);
    lemma_enqueue_all_keeps_order(with_a, between);
    lemma_enqueue_all_keeps_order(with_b, after);
    let i = pending.len() as int;
    assert(with_a[i] == a);
    assert(mid[i] == a);
    assert(with_b.contains(b)) by {
        if !mid.contains(b) {
            assert(with_b[mid.len() as int] == b);
        } else {
            let k = choose|k: int| 0 <= k < mid.len() && mid[k] == b;
            assert(with_b[k] == b);
        }
    }
    let j = choose|j: int| 0 <= j < with_b.len() && with_b[j] == b;
    assert(j > i) by {
        if j < i {
            assert(with_a[j] == pending[j]);
            assert(mid[j] == with_a[j]);
            assert(pending.contains(b));
        }
    }
    assert(with_b[i] == a);
    let front = q.subrange(0, with_b.len() as int);
    assert(front[i] == q[i] && front[j] == q[j]);
    assert(q[i] == a && q[j] == b);
}

/// Without its first element, a sequence of distinct elements holds what it
/// held before, less that element.
proof fn lemma_drop_first_to_set(s: Seq<usize>)
    requires
        s.len() > 0,
        s.no_duplicates(),
    ensures
        s.drop_first().no_duplicates(),
        s.drop_first().to_set() == s.to_set().remove(s[0]),
{
    let rest = s.drop_first();
    assert forall|x: usize| rest.to_set().contains(x) <==> s.to_set().remove(s[0]).contains(
        x,
    ) by {
        if rest.contains(x) {
            let i = choose|i: int| 0 <= i < rest.len() && rest[i] == x;
            assert(s[i + 1] == x);
        }
        if s.contains(x) && x != s[0] {
            let i = choose|i: int| 0 <= i < s.len() && s[i] == x;
            assert(rest[i - 1] == x);
        }
    }
    assert(rest.to_set() =~= s.to_set().remove(s[0]));
}

/// A first-in, first-out queue of operator ids in which no id waits twice.
pub struct Schedule {
    order: VecDeque<usize>,
    members: HashSet<usize>,
}

impl View for Schedule {
    type V = Seq<usize>;

    /// The ids that wait, oldest first.
    closed spec fn view(&self) -> Seq<usize> {
        self.order@
    }
}

impl Schedule {
    /// No id waits twice, and the membership set holds exactly the ids that
    /// wait.
    pub closed spec fn wf(&self) -> bool {
        &&& self.order@.no_duplicates()
        &&& self.members@ == self.order@.to_set()
    }

    /// In a schedule no id waits twice.
    pub proof fn lemma_distinct(&self)
        requires
            self.wf(),
        ensures
            self@.no_duplicates(),
    {
    }

    /// An empty schedule.
    pub fn new() -> (s: Self)
        ensures
            s.wf(),
            s@ == Seq::<usize>::empty(),
    {
        let s = Schedule { order: VecDeque::new(), members: HashSet::new() };
        assert(s.order@.to_set() =~= Set::<usize>::empty());
        s
    }

    /// Whether nothing waits.
    pub fn is_empty(&self) -> (r: bool)
        ensures
            r == (self@.len() == 0),
    {
        self.order.len() == 0
    }

    /// Schedules `t`, unless it is waiting already.
    pub fn insert(&mut self, t: usize)
        requires
            old(self).wf(),
        ensures
            final(self).wf(),
            final(self)@ == enqueue(old(self)@, t),
    {
        if !self.members.contains(&t) {
            self.members.insert(t);
            self.order.push_back(t);
            proof {
                old(self).order@.lemma_push_to_set_commute(t);
            }
        }
    }

    /// Takes the id that has waited longest.
    pub fn pop(&mut self) -> (r: Option<usize>)
        requires
            old(self).wf(),
        ensures
            final(self).wf(),
            match r {
                Some(v) => old(self)@.len() > 0 && v == old(self)@[0] && final(self)@ == old(
                    self,
                )@.drop_first(),
                None => old(self)@.len() == 0 && final(self)@ == old(self)@,
            },
    {
        match self.order.pop_front() {
            Some(v) => {
                self.members.remove(&v);
                proof {
                    lemma_drop_first_to_set(old(self).order@);
                }
                Some(v)
            },
            None => None,
        }
    }
}

} // verus!
