//! A parallel, work-stealing walk over a directory tree.
//!
//! Each worker owns a last-in-first-out queue of pending entries. A worker
//! with an empty queue steals half of the oldest entries of the first peer
//! that has any, scanning from its right-hand neighbour. A counter of active
//! workers detects the moment at which every queue is empty, and a quit flag
//! lets any visitor stop the whole walk. The queues, the counter and the flag
//! live in one [`Pool`] that the workers share; listing a directory and
//! running the threads belong to the caller, which hands each listing back.
use vstd::multiset::Multiset;
use vstd::prelude::*;

verus! {

/// What a visitor tells the walk after seeing one entry.
#[derive(Debug, PartialEq, Eq, Structural)]
pub enum WalkState {
    Continue,
    Quit,
}

impl WalkState {
    pub fn is_continue(&self) -> (r: bool)
        ensures
            r == (*self == WalkState::Continue),
    {
        *self == WalkState::Continue
    }

    pub fn is_quit(&self) -> (r: bool)
        ensures
            r == (*self == WalkState::Quit),
    {
        *self == WalkState::Quit
    }
}

/// One object of the remote file system.
#[derive(Debug, Clone, PartialEq, Eq)]
pub struct Entry {
    pub path: String,
    pub is_dir: bool,
}

/// Why an entry could not be opened or listed.
#[derive(Debug, Clone, PartialEq, Eq)]
pub struct WalkError {
    pub path: String,
    pub message: String,
}

/// An entry waiting to be visited, with its depth below the root.
#[derive(Debug)]
pub struct Work {
    pub entry: Entry,
    pub depth: usize,
}

impl Work {
    pub fn new(entry: Entry, depth: usize) -> (r: Work)
        ensures
            r.entry == entry,
            r.depth == depth,
    {
        Work { entry, depth }
    }

    pub fn is_dir(&self) -> (r: bool)
        ensures
            r == self.entry.is_dir,
    {
        self.entry.is_dir
    }

    pub fn path(&self) -> (r: &String)
        ensures
            *r == self.entry.path,
    {
        &self.entry.path
    }

    pub fn into_entry(self) -> (r: Entry)
        ensures
            r == self.entry,
    {
        self.entry
    }
}

/// What a queue holds.
#[derive(Debug)]
pub enum Message {
    /// An entry to visit.
    Work(Work),
    /// Tells the worker that receives it to stop.
    Quit,
}

/// What a worker is told to do next.
#[derive(Debug)]
pub enum Step {
    /// Visit this entry.
    Work(Work),
    /// Nothing to do yet: wait a little and ask again.
    Wait,
    /// Stop.
    Quit,
}

/// Receives the entries that one worker discovers.
pub trait ParallelVisitor {
    fn visit(&mut self, entry: Result<Entry, WalkError>) -> WalkState;
}

/// Makes one visitor for each worker.
pub trait ParallelVisitorBuilder {
    type Visitor: ParallelVisitor;

    fn build(&mut self) -> Self::Visitor;
}

/// The state of all queues and workers, as plain values.
pub struct PoolView {
    pub queues: Seq<Seq<Message>>,
    pub idle: Seq<bool>,
    pub active: nat,
    pub quit_now: bool,
}

/// How many workers are not waiting.
pub open spec fn count_active(idle: Seq<bool>) -> nat
    decreases idle.len(),
{
    if idle.len() == 0 {
        0
    } else {
        count_active(idle.drop_last()) + if idle.last() {
            0nat
        } else {
            1nat
        }
    }
}

/// The messages of `s` whose index is `q` modulo `n`, in order.
pub open spec fn share(s: Seq<Message>, n: int, q: int) -> Seq<Message>
    decreases s.len(),
{
    if s.len() == 0 {
        Seq::empty()
    } else if (s.len() - 1) % n == q {
        share(s.drop_last(), n, q).push(s.last())
    } else {
        share(s.drop_last(), n, q)
    }
}

/// The first peer of `i` with queued work, looking at `i + k`, `i + k + 1`,
/// ... and wrapping around, never at `i` itself.
pub open spec fn victim_from(qs: Seq<Seq<Message>>, i: int, k: int) -> Option<int>
    decreases qs.len() - k,
{
    if k < 1 || k >= qs.len() {
        None
    } else if qs[(i + k) % (qs.len() as int)].len() > 0 {
        Some((i + k) % (qs.len() as int))
    } else {
        victim_from(qs, i, k + 1)
    }
}

/// Stealing for worker `i`: the victim loses the older half of its queue,
/// rounded up; the thief takes the oldest of them and queues the rest.
pub open spec fn steal_spec(qs: Seq<Seq<Message>>, i: int) -> (Seq<Seq<Message>>, Option<Message>) {
    match victim_from(qs, i, 1) {
        None => (qs, None),
        Some(v) => {
            let q = qs[v];
            let b = (q.len() + 1) / 2;
            (qs.update(v, q.subrange(b as int, q.len() as int)).update(i, q.subrange(1, b as int)), Some(q[0]))
        },
    }
}

/// Popping for worker `i`: the newest message of its own queue, else a
/// stolen one.
pub open spec fn pop_spec(qs: Seq<Seq<Message>>, i: int) -> (Seq<Seq<Message>>, Option<Message>) {
    if qs[i].len() > 0 {
        (qs.update(i, qs[i].drop_last()), Some(qs[i].last()))
    } else {
        steal_spec(qs, i)
    }
}

/// The message that asks for `w` to be visited.
pub open spec fn work_of(w: Work) -> Message {
    Message::Work(w)
}

/// Pushes `m` on the queue of worker `i`.
pub open spec fn push_spec(qs: Seq<Seq<Message>>, i: int, m: Message) -> Seq<Seq<Message>> {
    qs.update(i, qs[i].push(m))
}

/// One request for work by worker `i`.
///
/// A waiting worker that finds nothing keeps waiting. Otherwise the worker is
/// active; once the quit flag is set it receives `Quit` whatever it popped.
/// `Quit` is pushed back on its queue, to wake a peer that may steal it. A
/// worker that finds nothing goes waiting; if it was the last active one,
/// every queue is empty and it quits instead.
pub open spec fn get_work_spec(p: PoolView, i: int) -> (PoolView, Step) {
    let (qs, m) = pop_spec(p.queues, i);
    if p.idle[i] && m is None {
        (p, Step::Wait)
    } else {
        let active = if p.idle[i] {
            p.active + 1
        } else {
            p.active
        };
        let m2 = if p.quit_now {
            Some(Message::Quit)
        } else {
            m
        };
        match m2 {
            Some(Message::Work(w)) => (
                PoolView { queues: qs, idle: p.idle.update(i, false), active: active, ..p },
                Step::Work(w),
            ),
            Some(Message::Quit) => (
                PoolView {
                    queues: push_spec(qs, i, Message::Quit),
                    idle: p.idle.update(i, false),
                    active: active,
                    ..p
                },
                Step::Quit,
            ),
            None => if active == 1 {
                (
                    PoolView {
                        queues: push_spec(qs, i, Message::Quit),
                        idle: p.idle.update(i, true),
                        active: 0,
                        ..p
                    },
                    Step::Quit,
                )
            } else {
                (
                    PoolView { queues: qs, idle: p.idle.update(i, true), active: (active - 1) as nat, ..p },
                    Step::Wait,
                )
            },
        }
    }
}

proof fn lemma_count_active_update(idle: Seq<bool>, i: int, b: bool)
    requires
        0 <= i < idle.len(),
    ensures
        count_active(idle) <= idle.len(),
        count_active(idle.update(i, b)) + (if idle[i] { 0int } else { 1int }) == count_active(
            idle,
        ) + (if b { 0int } else { 1int }),
    decreases idle.len(),
{
    if i < idle.len() - 1 {
        lemma_count_active_update(idle.drop_last(), i, b);
        assert(idle.update(i, b).drop_last() =~= idle.drop_last().update(i, b));
    } else {
        assert(idle.update(i, b).drop_last() =~= idle.drop_last());
        lemma_count_active_bound(idle.drop_last());
    }
}

proof fn lemma_count_active_bound(idle: Seq<bool>)
    ensures
        count_active(idle) <= idle.len(),
    decreases idle.len(),
{
    if idle.len() > 0 {
        lemma_count_active_bound(idle.drop_last());
    }
}

/// The queues of all workers, the active-worker counter and the quit flag.
pub struct Pool {
    queues: Vec<Vec<Message>>,
    idle: Vec<bool>,
    active: usize,
    quit_now: bool,
}

impl View for Pool {
    type V = PoolView;

    closed spec fn view(&self) -> PoolView {
        PoolView {
            queues: self.queues@.map_values(|q: Vec<Message>| q@),
            idle: self.idle@,
            active: self.active as nat,
            quit_now: self.quit_now,
        }
    }
}

/// Every worker has a queue and a waiting flag, and the counter counts the
/// workers that are not waiting.
pub open spec fn pool_wf(p: PoolView) -> bool {
    &&& p.queues.len() >= 1
    &&& p.idle.len() == p.queues.len()
    &&& p.active == count_active(p.idle)
}

impl Pool {
    pub open spec fn wf(&self) -> bool {
        pool_wf(self@)
    }

    /// The number of workers.
    pub fn threads(&self) -> (r: usize)
        requires
            self.wf(),
        ensures
            r == self@.queues.len(),
    {
        self.queues.len()
    }

    /// One queue for each of `threads` workers. The initial messages are
    /// dealt out round-robin in reverse order, so that the LIFO queues
    /// hand them out in the order given.
    pub fn new_for_each_thread(threads: usize, init: Vec<Message>) -> (r: Pool)
        requires
            threads >= 1,
        ensures
            r.wf(),
            r@.queues.len() == threads,
            forall|q: int|
                0 <= q < threads ==> #[trigger] r@.queues[q] == share(
                    init@.reverse(),
                    threads as int,
                    q,
                ),
            r@.idle == Seq::new(threads as nat, |j: int| false),
            r@.active == threads,
            !r@.quit_now,
    {
        let ghost rev = init@.reverse();
        let total = init.len();
        let ghost n = total as nat;
        let mut queues: Vec<Vec<Message>> = Vec::new();
        let mut idle: Vec<bool> = Vec::new();
        let mut k: usize = 0;
        while k < threads
            invariant
                k <= threads,
                queues@.len() == k,
                idle@.len() == k,
                forall|q: int| 0 <= q < k ==> (#[trigger] queues@[q])@ == Seq::<Message>::empty(),
                forall|q: int| 0 <= q < k ==> !(#[trigger] idle@[q]),
                count_active(idle@) == k,
            decreases threads - k,
        {
            queues.push(Vec::new());
            proof {
                assert(idle@.push(false).drop_last() =~= idle@);
            }
            idle.push(false);
            k = k + 1;
        }
        let mut init = init;
        let mut j: usize = 0;
        while init.len() > 0
            invariant
                queues@.len() == threads,
                threads >= 1,
                j + init@.len() == n,
                n == total,
                init@ == rev.reverse().take(init@.len() as int),
                rev.len() == n,
                forall|q: int|
                    0 <= q < threads ==> (#[trigger] queues@[q])@ == share(
                        rev.take(j as int),
                        threads as int,
                        q,
                    ),
            decreases init@.len(),
        {
            let m = init.pop().unwrap();
            let q = j % threads;
            let mut own = queues.remove(q);
            own.push(m);
            queues.insert(q, own);
            proof {
                assert(rev.take(j + 1).drop_last() =~= rev.take(j as int));
                assert(rev[j as int] == m);
                assert forall|r: int| 0 <= r < threads implies (#[trigger] queues@[r])@ == share(
                    rev.take(j + 1),
                    threads as int,
                    r,
                ) by {}
            }
            j = j + 1;
        }
        let pool = Pool { queues, idle, active: threads, quit_now: false };
        proof {
            assert(rev.take(n as int) =~= rev);
            assert forall|q: int| 0 <= q < threads implies #[trigger] pool@.queues[q] == share(
                rev,
                threads as int,
                q,
            ) by {
                assert(pool@.queues[q] == queues@[q]@);
            }
            assert(pool@.idle =~= Seq::new(threads as nat, |j: int| false));
        }
        pool
    }

    /// Replaces the queue of worker `i`, giving back the old one.
    fn swap_queue(&mut self, i: usize, q: Vec<Message>) -> (r: Vec<Message>)
        requires
            i < old(self)@.queues.len(),
        ensures
            r@ == old(self)@.queues[i as int],
            final(self)@ == (PoolView { queues: old(self)@.queues.update(i as int, q@), ..old(self)@ }),
    {
        let r = self.queues.remove(i);
        self.queues.insert(i, q);
        proof {
            assert(self@.queues =~= old(self)@.queues.update(i as int, q@));
        }
        r
    }

    /// Pushes a message on the queue of worker `i`.
    pub fn push(&mut self, i: usize, msg: Message)
        requires
            old(self).wf(),
            i < old(self)@.queues.len(),
        ensures
            final(self).wf(),
            final(self)@ == (PoolView { queues: push_spec(old(self)@.queues, i as int, msg), ..old(self)@ }),
    {
        let mut q = self.swap_queue(i, Vec::new());
        q.push(msg);
        let _ = self.swap_queue(i, q);
        proof {
            assert(self@.queues =~= push_spec(old(self)@.queues, i as int, msg));
        }
    }

    /// Takes a message for worker `i`: its own newest one, else a stolen one.
    pub fn pop(&mut self, i: usize) -> (r: Option<Message>)
        requires
            old(self).wf(),
            i < old(self)@.queues.len(),
        ensures
            final(self).wf(),
            (final(self)@.queues, r) == pop_spec(old(self)@.queues, i as int),
            final(self)@.idle == old(self)@.idle,
            final(self)@.active == old(self)@.active,
            final(self)@.quit_now == old(self)@.quit_now,
    {
        let mut own = self.swap_queue(i, Vec::new());
        if own.len() > 0 {
            let m = own.pop();
            let _ = self.swap_queue(i, own);
            proof {
                assert(self@.queues =~= old(self)@.queues.update(i as int, old(self)@.queues[i as int].drop_last()));
            }
            m
        } else {
            let _ = self.swap_queue(i, own);
            proof {
                assert(self@.queues =~= old(self)@.queues);
            }
            self.steal(i)
        }
    }

    /// Steals for worker `i`, whose own queue is empty.
    fn steal(&mut self, i: usize) -> (r: Option<Message>)
        requires
            old(self).wf(),
            i < old(self)@.queues.len(),
            old(self)@.queues[i as int].len() == 0,
        ensures
            final(self).wf(),
            (final(self)@.queues, r) == steal_spec(old(self)@.queues, i as int),
            final(self)@.idle == old(self)@.idle,
            final(self)@.active == old(self)@.active,
            final(self)@.quit_now == old(self)@.quit_now,
    {
        let n = self.queues.len();
        let ghost qs = self@.queues;
        let mut k: usize = 1;
        while k < n
            invariant
                1 <= k <= n,
                n == qs.len(),
                i < n,
                self@ == old(self)@,
                pool_wf(old(self)@),
                self.queues@.len() == n,
                qs == self@.queues,
                victim_from(qs, i as int, k as int) == victim_from(qs, i as int, 1),
            decreases n - k,
        {
            let v = if k < n - i {
                i + k
            } else {
                k - (n - i)
            };
            proof {
                assert(v as int == (i + k) % (n as int)) by (nonlinear_arith)
                    requires
                        v as int == if k < n - i { i + k } else { k - (n - i) },
                        i < n,
                        k < n,
                ;
            }
            if self.queues[v].len() > 0 {
                let mut batch = self.swap_queue(v, Vec::new());
                let ghost q = batch@;
                let b = batch.len() - batch.len() / 2;
                let rest = batch.split_off(b);
                let _ = self.swap_queue(v, rest);
                let first = batch.remove(0);
                let _ = self.swap_queue(i, batch);
                proof {
                    assert(b as int == (q.len() + 1) / 2);
                    assert(batch@ =~= q.subrange(1, b as int));
                    assert(first == q[0]);
                    assert(self@.idle == old(self)@.idle);
                    assert(self@.active == old(self)@.active);
                    assert(self@.queues.len() == old(self)@.queues.len());
                    assert(self@.queues =~= qs.update(v as int, q.subrange(b as int, q.len() as int)).update(
                        i as int,
                        q.subrange(1, b as int),
                    ));
                }
                return Some(first);
            }
            k = k + 1;
        }
        None
    }

    /// Sets the quit flag; every worker sees it at its next request.
    pub fn quit_now(&mut self)
        requires
            old(self).wf(),
        ensures
            final(self).wf(),
            final(self)@ == (PoolView { quit_now: true, ..old(self)@ }),
    {
        self.quit_now = true;
    }

    /// Takes a visitor's answer: a `Quit` stops the whole walk.
    pub fn answer(&mut self, state: &WalkState)
        requires
            old(self).wf(),
        ensures
            final(self).wf(),
            final(self)@ == (if *state == WalkState::Quit {
                PoolView { quit_now: true, ..old(self)@ }
            } else {
                old(self)@
            }),
    {
        if state.is_quit() {
            self.quit_now();
        }
    }

    pub fn is_quit_now(&self) -> (r: bool)
        ensures
            r == self@.quit_now,
    {
        self.quit_now
    }

    /// One request for work by worker `i`; see [`get_work_spec`].
    pub fn get_work(&mut self, i: usize) -> (r: Step)
        requires
            old(self).wf(),
            i < old(self)@.queues.len(),
        ensures
            final(self).wf(),
            (final(self)@, r) == get_work_spec(old(self)@, i as int),
    {
        let ghost p = self@;
        let workers = self.idle.len();
        let was_idle = self.idle[i];
        let m = self.pop(i);
        if was_idle && m.is_none() {
            return Step::Wait;
        }
        proof {
            lemma_count_active_bound(self.idle@.update(i as int, false));
            lemma_count_active_update(self.idle@, i as int, false);
            lemma_count_active_update(self.idle@, i as int, true);
        }
        if was_idle {
            proof {
                // a waiting worker is not counted, so the count is below the
                // number of workers, which fits in `usize`
                assert(self.active < workers);
            }
            self.active = self.active + 1;
        }
        self.idle.set(i, false);
        let m = if self.quit_now {
            Some(Message::Quit)
        } else {
            m
        };
        match m {
            Some(Message::Work(w)) => Step::Work(w),
            Some(Message::Quit) => {
                self.push(i, Message::Quit);
                Step::Quit
            },
            None => {
                self.active = self.active - 1;
                self.idle.set(i, true);
                proof {
                    assert(self.idle@ =~= p.idle.update(i as int, true));
                }
                if self.active == 0 {
                    self.push(i, Message::Quit);
                    Step::Quit
                } else {
                    Step::Wait
                }
            },
        }
    }

    /// Queues the children of a listed directory on worker `i`, in order.
    pub fn push_children(&mut self, i: usize, children: Vec<Work>)
        requires
            old(self).wf(),
            i < old(self)@.queues.len(),
        ensures
            final(self).wf(),
            final(self)@ == (PoolView {
                queues: old(self)@.queues.update(
                    i as int,
                    old(self)@.queues[i as int] + children@.map_values(|w: Work| work_of(w)),
                ),
                ..old(self)@
            }),
    {
        let ghost start = self@;
        let mut children = children;
        let ghost all = children@;
        let mut reversed: Vec<Work> = Vec::new();
        while children.len() > 0
            invariant
                children@ == all.take(children@.len() as int),
                children@.len() + reversed@.len() == all.len(),
                forall|k: int| 0 <= k < reversed@.len() ==> #[trigger] reversed@[k] == all[all.len() - 1 - k],
            decreases children@.len(),
        {
            let e = children.pop().unwrap();
            reversed.push(e);
        }
        let mut own = self.swap_queue(i, Vec::new());
        let ghost first = own@;
        while reversed.len() > 0
            invariant
                reversed@.len() <= all.len(),
                forall|k: int| 0 <= k < reversed@.len() ==> #[trigger] reversed@[k] == all[all.len() - 1 - k],
                own@ == first + all.take(all.len() - reversed@.len()).map_values(|w: Work| work_of(w)),
            decreases reversed@.len(),
        {
            let ghost m = reversed@.len();
            let e = reversed.pop().unwrap();
            proof {
                assert(e == all[all.len() - m]);
                assert(all.take(all.len() - reversed@.len()) =~= all.take(all.len() - m).push(e));
            }
            own.push(Message::Work(e));
            proof {
                assert(own@ =~= first + all.take(all.len() - reversed@.len()).map_values(|w: Work| work_of(w)));
            }
        }
        let _ = self.swap_queue(i, own);
        proof {
            assert(all.take(all.len() as int) =~= all);
            assert(self@.queues =~= start.queues.update(
                i as int,
                start.queues[i as int] + all.map_values(|w: Work| work_of(w)),
            ));
        }
    }
}

/// All messages waiting in the queues, wherever they are.
pub open spec fn queued(qs: Seq<Seq<Message>>) -> Multiset<Message>
    decreases qs.len(),
{
    if qs.len() == 0 {
        Multiset::empty()
    } else {
        queued(qs.drop_last()).add(qs.last().to_multiset())
    }
}

proof fn lemma_queued_update(qs: Seq<Seq<Message>>, i: int, s: Seq<Message>)
    requires
        0 <= i < qs.len(),
    ensures
        queued(qs.update(i, s)).add(qs[i].to_multiset()) =~= queued(qs).add(s.to_multiset()),
    decreases qs.len(),
{
    broadcast use vstd::multiset::group_multiset_axioms;

    let u = qs.update(i, s);
    if i == qs.len() - 1 {
        assert(u.drop_last() =~= qs.drop_last());
        assert(queued(u) == queued(qs.drop_last()).add(s.to_multiset()));
        assert(queued(qs) == queued(qs.drop_last()).add(qs[i].to_multiset()));
    } else {
        lemma_queued_update(qs.drop_last(), i, s);
        assert(u.drop_last() =~= qs.drop_last().update(i, s));
        assert(queued(u) == queued(qs.drop_last().update(i, s)).add(qs.last().to_multiset()));
        assert(queued(qs) == queued(qs.drop_last()).add(qs.last().to_multiset()));
        assert forall|x: Message| #[trigger] queued(u).add(qs[i].to_multiset()).count(x) == queued(
            qs,
        ).add(s.to_multiset()).count(x) by {
            assert(queued(qs.drop_last().update(i, s)).add(qs.drop_last()[i].to_multiset()).count(x)
                == queued(qs.drop_last()).add(s.to_multiset()).count(x));
        }
    }
}

/// Taking work neither loses nor duplicates it: what the queues held before
/// a pop is what they hold after it, plus the message handed out.
pub proof fn lemma_pop_conserves_work(qs: Seq<Seq<Message>>, i: int)
    requires
        0 <= i < qs.len(),
    ensures
        ({
            let (after, m) = pop_spec(qs, i);
            &&& after.len() == qs.len()
            &&& match m {
                Some(x) => queued(qs) =~= queued(after).insert(x),
                None => queued(qs) =~= queued(after),
            }
        }),
{
    broadcast use vstd::multiset::group_multiset_axioms;
    broadcast use vstd::seq_lib::group_to_multiset_ensures;

    if qs[i].len() > 0 {
        let q = qs[i];
        let after = qs.update(i, q.drop_last());
        lemma_queued_update(qs, i, q.drop_last());
        assert(q.drop_last().push(q.last()) =~= q);
        assert forall|x: Message| #[trigger] queued(qs).count(x) == queued(after).insert(q.last()).count(x) by {
            assert(queued(after).add(q.to_multiset()).count(x) == queued(qs).add(q.drop_last().to_multiset()).count(x));
        }
    } else {
        match victim_from(qs, i, 1) {
            None => {},
            Some(v) => {
                lemma_victim_from_range(qs, i, 1);
                let q = qs[v];
                let b = (q.len() + 1) / 2;
                let mid = qs.update(v, q.subrange(b as int, q.len() as int));
                lemma_queued_update(qs, v, q.subrange(b as int, q.len() as int));
                lemma_queued_update(mid, i, q.subrange(1, b as int));
                assert(mid[i] =~= qs[i]);
                vstd::multiset::lemma_multiset_empty_len(qs[i].to_multiset());
                assert(qs[i].to_multiset() =~= Multiset::empty());
                assert(q =~= (seq![q[0]] + q.subrange(1, b as int)) + q.subrange(b as int, q.len() as int));
                vstd::seq_lib::lemma_multiset_commutative(seq![q[0]] + q.subrange(1, b as int), q.subrange(b as int, q.len() as int));
                vstd::seq_lib::lemma_multiset_commutative(seq![q[0]], q.subrange(1, b as int));
                assert(seq![q[0]].to_multiset() =~= Multiset::empty().insert(q[0])) by {
                    assert(seq![q[0]] =~= Seq::<Message>::empty().push(q[0]));
                    vstd::multiset::lemma_multiset_empty_len(Seq::<Message>::empty().to_multiset());
                }
                let s1 = q.subrange(1, b as int);
                let s2 = q.subrange(b as int, q.len() as int);
                let after = mid.update(i, s1);
                assert(q.to_multiset() =~= seq![q[0]].to_multiset().add(s1.to_multiset()).add(
                    s2.to_multiset(),
                ));
                assert forall|x: Message| #[trigger] queued(qs).count(x) == queued(after).insert(
                    q[0],
                ).count(x) by {
                    assert(queued(mid).add(q.to_multiset()).count(x) == queued(qs).add(
                        s2.to_multiset(),
                    ).count(x));
                    assert(queued(after).add(mid[i].to_multiset()).count(x) == queued(mid).add(
                        s1.to_multiset(),
                    ).count(x));
                }
            },
        }
    }
}

proof fn lemma_victim_from_range(qs: Seq<Seq<Message>>, i: int, k: int)
    requires
        0 <= i < qs.len(),
    ensures
        victim_from(qs, i, k) matches Some(v) ==> 0 <= v < qs.len() && v != i && qs[v].len() > 0,
    decreases qs.len() - k,
{
    if 1 <= k < qs.len() {
        assert(0 <= (i + k) % (qs.len() as int) < qs.len()) by (nonlinear_arith)
            requires qs.len() > 0;
        assert((i + k) % (qs.len() as int) != i) by (nonlinear_arith)
            requires 0 <= i < qs.len(), 1 <= k < qs.len();
        lemma_victim_from_range(qs, i, k + 1);
    }
}

/// Queuing the children of a directory adds exactly those children.
pub proof fn lemma_push_children_adds(qs: Seq<Seq<Message>>, i: int, children: Seq<Work>)
    requires
        0 <= i < qs.len(),
    ensures
        queued(qs.update(i, qs[i] + children.map_values(|w: Work| work_of(w)))) =~= queued(qs).add(
            children.map_values(|w: Work| work_of(w)).to_multiset(),
        ),
{
    broadcast use vstd::multiset::group_multiset_axioms;

    let added = children.map_values(|w: Work| work_of(w));
    let u = qs.update(i, qs[i] + added);
    lemma_queued_update(qs, i, qs[i] + added);
    vstd::seq_lib::lemma_multiset_commutative(qs[i], added);
    assert forall|x: Message| #[trigger] queued(u).count(x) == queued(qs).add(added.to_multiset()).count(x) by {
        assert(queued(u).add(qs[i].to_multiset()).count(x) == queued(qs).add((qs[i] + added).to_multiset()).count(x));
    }
}

proof fn lemma_no_victim_when_empty(qs: Seq<Seq<Message>>, i: int, k: int)
    requires
        forall|q: int| 0 <= q < qs.len() ==> (#[trigger] qs[q]).len() == 0,
    ensures
        victim_from(qs, i, k) is None,
    decreases qs.len() - k,
{
    if 1 <= k < qs.len() {
        assert(0 <= (i + k) % (qs.len() as int) < qs.len()) by (nonlinear_arith)
            requires qs.len() > 0;
        lemma_no_victim_when_empty(qs, i, k + 1);
    }
}

/// Quiescence: when every queue is empty and every other worker waits, the
/// last active worker that asks for work is told to quit. It leaves one
/// `Quit` on its queue, for the waiting workers to steal, and no worker is
/// counted as active any more.
pub proof fn lemma_quiescence_ends_walk(p: PoolView, i: int)
    requires
        pool_wf(p),
        0 <= i < p.queues.len(),
        !p.idle[i],
        !p.quit_now,
        p.active == 1,
        forall|q: int| 0 <= q < p.queues.len() ==> (#[trigger] p.queues[q]).len() == 0,
    ensures
        get_work_spec(p, i).1 is Quit,
        get_work_spec(p, i).0.active == 0,
        get_work_spec(p, i).0.queues[i] == seq![Message::Quit],
        forall|q: int|
            0 <= q < p.queues.len() && q != i ==> (#[trigger] get_work_spec(p, i).0.queues[q]).len()
                == 0,
{
    lemma_no_victim_when_empty(p.queues, i, 1);
    assert(p.queues[i] =~= Seq::<Message>::empty());
    assert(Seq::<Message>::empty().push(Message::Quit) =~= seq![Message::Quit]);
}

proof fn lemma_victim_found(qs: Seq<Seq<Message>>, j: int, i: int, k: int)
    requires
        0 <= j < qs.len(),
        0 <= i < qs.len(),
        i != j,
        1 <= k <= (if i > j { i - j } else { i - j + qs.len() }),
        qs[i].len() > 0,
        forall|q: int| 0 <= q < qs.len() && q != i ==> (#[trigger] qs[q]).len() == 0,
    ensures
        victim_from(qs, j, k) == Some(i),
    decreases qs.len() - k,
{
    let n = qs.len() as int;
    let d = if i > j { i - j } else { i - j + n };
    assert((j + k) % n == if j + k < n { j + k } else { j + k - n }) by (nonlinear_arith)
        requires 0 <= j < n, 1 <= k < n;
    if k < d {
        lemma_victim_found(qs, j, i, k + 1);
    }
}

/// Stopping spreads: a waiting worker that asks for work while a peer's
/// queue holds the only message, a `Quit`, steals that `Quit`, stops, and
/// leaves a `Quit` on its own queue for the next waiting worker.
pub proof fn lemma_quit_reaches_waiting_worker(p: PoolView, i: int, j: int)
    requires
        p.idle.len() == p.queues.len(),
        0 <= i < p.queues.len(),
        0 <= j < p.queues.len(),
        i != j,
        p.idle[j],
        p.queues[i] == seq![Message::Quit],
        forall|q: int| 0 <= q < p.queues.len() && q != i ==> (#[trigger] p.queues[q]).len() == 0,
    ensures
        get_work_spec(p, j).1 is Quit,
        get_work_spec(p, j).0.queues.len() == p.queues.len(),
        get_work_spec(p, j).0.idle == p.idle.update(j, false),
        get_work_spec(p, j).0.queues[j] == seq![Message::Quit],
        forall|q: int|
            0 <= q < p.queues.len() && q != j ==> (#[trigger] get_work_spec(p, j).0.queues[q]).len()
                == 0,
{
    lemma_victim_found(p.queues, j, i, 1);
    let (qs, m) = steal_spec(p.queues, j);
    assert(m == Some(Message::Quit));
    assert(qs[j] =~= Seq::<Message>::empty());
    assert(Seq::<Message>::empty().push(Message::Quit) =~= seq![Message::Quit]);
}

/// Whether an entry at `depth` is deep enough to be delivered.
pub open spec fn deep_enough(depth: usize, min_depth: Option<usize>) -> bool {
    match min_depth {
        Some(m) => depth >= m,
        None => true,
    }
}

/// Whether the children of an entry at `depth` are still to be walked.
pub open spec fn may_descend(depth: usize, max_depth: Option<usize>) -> bool {
    match max_depth {
        Some(m) => depth < m,
        None => depth < usize::MAX,
    }
}

/// Requests for work by the workers of `ws`, one each, in that order: the
/// state after them and the step that each request gave.
pub open spec fn requests(p: PoolView, ws: Seq<int>) -> (PoolView, Seq<Step>)
    decreases ws.len(),
{
    if ws.len() == 0 {
        (p, Seq::empty())
    } else {
        let (p1, steps) = requests(p, ws.drop_last());
        let (p2, s) = get_work_spec(p1, ws.last());
        (p2, steps.push(s))
    }
}

proof fn lemma_quit_ripples(p: PoolView, h: int, ws: Seq<int>)
    requires
        p.idle.len() == p.queues.len(),
        0 <= h < p.queues.len(),
        p.queues[h] == seq![Message::Quit],
        forall|q: int| 0 <= q < p.queues.len() && q != h ==> (#[trigger] p.queues[q]).len() == 0,
        forall|k: int| 0 <= k < ws.len() ==> 0 <= #[trigger] ws[k] < p.queues.len() && ws[k] != h
            && p.idle[ws[k]],
        forall|k: int, l: int| 0 <= k < l < ws.len() ==> ws[k] != ws[l],
    ensures
        ({
            let (p2, steps) = requests(p, ws);
            let holder = if ws.len() == 0 {
                h
            } else {
                ws.last()
            };
            &&& steps.len() == ws.len()
            &&& forall|k: int| 0 <= k < ws.len() ==> #[trigger] steps[k] is Quit
            &&& p2.queues.len() == p.queues.len()
            &&& p2.idle.len() == p.idle.len()
            &&& p2.queues[holder] == seq![Message::Quit]
            &&& forall|q: int|
                0 <= q < p.queues.len() && q != holder ==> (#[trigger] p2.queues[q]).len() == 0
            &&& forall|w: int|
                0 <= w < p.queues.len() && (forall|k: int| 0 <= k < ws.len() ==> ws[k] != w)
                    ==> #[trigger] p2.idle[w] == p.idle[w]
        }),
    decreases ws.len(),
{
    if ws.len() > 0 {
        let prefix = ws.drop_last();
        lemma_quit_ripples(p, h, prefix);
        let (p1, steps) = requests(p, prefix);
        let holder = if prefix.len() == 0 {
            h
        } else {
            prefix.last()
        };
        let j = ws.last();
        assert(forall|k: int| 0 <= k < prefix.len() ==> prefix[k] != j);
        assert(p1.idle[j] == p.idle[j]);
        lemma_quit_reaches_waiting_worker(p1, holder, j);
        let (p2, s) = get_work_spec(p1, j);
        assert forall|w: int|
            0 <= w < p.queues.len() && (forall|k: int| 0 <= k < ws.len() ==> ws[k] != w) implies #[trigger] p2.idle[w]
                == p.idle[w] by {
            assert(forall|k: int| 0 <= k < prefix.len() ==> prefix[k] == ws[k]);
            assert(ws[ws.len() - 1] != w);
        }
    }
}

proof fn lemma_count_all_but(idle: Seq<bool>, i: int)
    requires
        forall|j: int| 0 <= j < idle.len() && j != i ==> #[trigger] idle[j],
    ensures
        count_active(idle) == if 0 <= i < idle.len() && !idle[i] {
            1nat
        } else {
            0nat
        },
    decreases idle.len(),
{
    if idle.len() > 0 {
        lemma_count_all_but(idle.drop_last(), i);
    }
}

/// The walk ends. Once every queue is empty and every worker but `i` waits,
/// the request of `i` stops it, and after that one request by each other
/// worker, in any order, stops that worker too.
pub proof fn lemma_walk_ends(p: PoolView, i: int, ws: Seq<int>)
    requires
        pool_wf(p),
        !p.quit_now,
        0 <= i < p.queues.len(),
        forall|q: int| 0 <= q < p.queues.len() ==> (#[trigger] p.queues[q]).len() == 0,
        forall|j: int| 0 <= j < p.queues.len() && j != i ==> #[trigger] p.idle[j],
        !p.idle[i],
        forall|k: int| 0 <= k < ws.len() ==> 0 <= #[trigger] ws[k] < p.queues.len() && ws[k] != i,
        forall|k: int, l: int| 0 <= k < l < ws.len() ==> ws[k] != ws[l],
    ensures
        get_work_spec(p, i).1 is Quit,
        requests(get_work_spec(p, i).0, ws).1.len() == ws.len(),
        forall|k: int| 0 <= k < ws.len() ==> #[trigger] requests(get_work_spec(p, i).0, ws).1[k] is Quit,
{
    lemma_count_all_but(p.idle, i);
    lemma_quiescence_ends_walk(p, i);
    let p1 = get_work_spec(p, i).0;
    assert(p1.idle =~= p.idle.update(i, true));
    lemma_quit_ripples(p1, i, ws);
}

/// What a visitor was handed, and what it answered.
pub type Delivery = (Result<Entry, WalkError>, WalkState);

/// One worker's side of the walk: it delivers entries to its own visitor,
/// and keeps a record of every delivery with the visitor's answer.
pub struct Woker<V: ParallelVisitor> {
    index: usize,
    visitor: V,
    min_depth: Option<usize>,
    max_depth: Option<usize>,
    delivered: Ghost<Seq<Delivery>>,
}

impl<V: ParallelVisitor> Woker<V> {
    pub fn new(index: usize, visitor: V, min_depth: Option<usize>, max_depth: Option<usize>) -> (r:
        Self)
        ensures
            r.index() == index,
            r.visitor() == visitor,
            r.min_depth() == min_depth,
            r.max_depth() == max_depth,
            r.delivered() == Seq::<Delivery>::empty(),
    {
        Woker { index, visitor, min_depth, max_depth, delivered: Ghost(Seq::empty()) }
    }

    pub closed spec fn index(&self) -> usize {
        self.index
    }

    pub closed spec fn visitor(&self) -> V {
        self.visitor
    }

    /// Every call of the visitor so far, in order: its argument and its answer.
    pub closed spec fn delivered(&self) -> Seq<Delivery> {
        self.delivered@
    }

    /// Hands one result to the visitor, records it, and gives back the answer.
    fn deliver(&mut self, entry: Result<Entry, WalkError>) -> (r: WalkState)
        ensures
            final(self).delivered() == old(self).delivered().push((entry, r)),
            final(self).index() == old(self).index(),
            final(self).min_depth() == old(self).min_depth(),
            final(self).max_depth() == old(self).max_depth(),
    {
        let ghost arg = entry;
        let state = self.visitor.visit(entry);
        self.delivered = Ghost(self.delivered@.push((arg, state)));
        state
    }

    pub closed spec fn min_depth(&self) -> Option<usize> {
        self.min_depth
    }

    pub closed spec fn max_depth(&self) -> Option<usize> {
        self.max_depth
    }

    /// The worker's position in the pool.
    pub fn get_index(&self) -> (r: usize)
        ensures
            r == self.index(),
    {
        self.index
    }

    /// Handles one entry. It goes to the visitor when `keep` (the filter's
    /// verdict) holds and it is deep enough; the visitor's answer is given
    /// back, `Continue` when it was not asked. A directory is to be listed
    /// only when the walk goes on and its children are within the depth
    /// bound, so that a visitor that quits costs no listing. Gives the path
    /// to list and the depth of the children.
    pub fn run_one(&mut self, work: Work, keep: bool) -> (r: (WalkState, Option<(String, usize)>))
        ensures
            final(self).index() == old(self).index(),
            final(self).min_depth() == old(self).min_depth(),
            final(self).max_depth() == old(self).max_depth(),
            final(self).delivered() == old(self).delivered() + if keep && deep_enough(
                work.depth,
                old(self).min_depth(),
            ) {
                seq![(Ok::<Entry, WalkError>(work.entry), r.0)]
            } else {
                Seq::<Delivery>::empty()
            },
            !(keep && deep_enough(work.depth, old(self).min_depth())) ==> r.0 == WalkState::Continue,
            r.1 is Some <==> (r.0 == WalkState::Continue && work.entry.is_dir && may_descend(
                work.depth,
                old(self).max_depth(),
            )),
            r.1 is Some ==> r.1->Some_0.0@ == work.entry.path@ && r.1->Some_0.1 == work.depth + 1,
    {
        let is_dir = work.is_dir();
        let depth = work.depth;
        let path = work.entry.path.clone();
        let deliver = keep && match self.min_depth {
            Some(m) => depth >= m,
            None => true,
        };
        let ghost before = self.delivered@;
        let state = if deliver {
            self.deliver(Ok(work.into_entry()))
        } else {
            WalkState::Continue
        };
        proof {
            if !deliver {
                assert(self.delivered@ =~= before + Seq::<Delivery>::empty());
            } else {
                assert(self.delivered@ =~= before + seq![(Ok::<Entry, WalkError>(work.entry), state)]);
            }
        }
        let descend = match self.max_depth {
            Some(m) => depth < m,
            None => depth < usize::MAX,
        };
        if state.is_continue() && is_dir && descend {
            (state, Some((path, depth + 1)))
        } else {
            (state, None)
        }
    }

    /// Takes the listing of a directory whose children are at `depth`: the
    /// children are to be queued, in order; a failure goes to the visitor,
    /// whose answer is given back.
    pub fn generate_work(&mut self, depth: usize, listing: Result<Vec<Entry>, WalkError>) -> (r: (
        WalkState,
        Vec<Work>,
    ))
        ensures
            final(self).index() == old(self).index(),
            final(self).min_depth() == old(self).min_depth(),
            final(self).max_depth() == old(self).max_depth(),
            listing is Ok ==> r.0 == WalkState::Continue && r.1@ == listing->Ok_0@.map_values(
                |e: Entry| Work { entry: e, depth: depth },
            ),
            listing is Err ==> r.1@.len() == 0 && final(self).delivered() == old(
                self,
            ).delivered().push((Err::<Entry, WalkError>(listing->Err_0), r.0)),
            listing is Ok ==> final(self).delivered() == old(self).delivered(),
    {
        match listing {
            Ok(children) => {
                let ghost all = children@;
                let mut children = children;
                let mut reversed: Vec<Entry> = Vec::new();
                while children.len() > 0
                    invariant
                        children@ == all.take(children@.len() as int),
                        children@.len() + reversed@.len() == all.len(),
                        forall|k: int|
                            0 <= k < reversed@.len() ==> #[trigger] reversed@[k] == all[all.len() - 1
                                - k],
                    decreases children@.len(),
                {
                    let e = children.pop().unwrap();
                    reversed.push(e);
                }
                let mut works: Vec<Work> = Vec::new();
                while reversed.len() > 0
                    invariant
                        reversed@.len() <= all.len(),
                        forall|k: int|
                            0 <= k < reversed@.len() ==> #[trigger] reversed@[k] == all[all.len() - 1
                                - k],
                        works@ == all.take(all.len() - reversed@.len()).map_values(
                            |e: Entry| Work { entry: e, depth: depth },
                        ),
                    decreases reversed@.len(),
                {
                    let ghost m = reversed@.len();
                    let e = reversed.pop().unwrap();
                    proof {
                        assert(e == all[all.len() - m]);
                        assert(all.take(all.len() - reversed@.len()) =~= all.take(all.len() - m).push(
                            e,
                        ));
                    }
                    works.push(Work { entry: e, depth });
                    proof {
                        assert(works@ =~= all.take(all.len() - reversed@.len()).map_values(
                            |e: Entry| Work { entry: e, depth: depth },
                        ));
                    }
                }
                proof {
                    assert(all.take(all.len() as int) =~= all);
                }
                (WalkState::Continue, works)
            },
            Err(err) => (self.deliver(Err(err)), Vec::new()),
        }
    }

    pub fn into_visitor(self) -> (r: V)
        ensures
            r == self.visitor(),
    {
        self.visitor
    }
}

/// The most workers that a walk starts on its own.
pub const MAX_THREADS: usize = 12;

/// The number of workers for a requested count, with `0` meaning as many
/// as the machine offers, at most twelve.
pub open spec fn threads_for(requested: usize, available: Option<usize>) -> usize {
    if requested != 0 {
        requested
    } else {
        match available {
            Some(n) => if n == 0 {
                1
            } else if n > 12 {
                12
            } else {
                n
            },
            None => 1,
        }
    }
}

/// A walk from one root path.
pub struct WalkParallel {
    pub path: String,
    pub max_depth: Option<usize>,
    pub min_depth: Option<usize>,
    pub threads: usize,
}

impl WalkParallel {
    /// The number of workers, given what the machine offers.
    pub fn threads(&self, available: Option<usize>) -> (r: usize)
        ensures
            r == threads_for(self.threads, available),
            r >= 1,
    {
        if self.threads == 0 {
            match available {
                Some(n) => if n == 0 {
                    1
                } else if n > MAX_THREADS {
                    MAX_THREADS
                } else {
                    n
                },
                None => 1,
            }
        } else {
            self.threads
        }
    }

    /// Starts the walk once the root has been opened. A root that could not
    /// be opened goes to one visitor, built for it alone and given back with
    /// its record of that one delivery; no pool is made, so no worker starts.
    /// Otherwise the pool has one queue for each worker, the root on the
    /// first, and no visitor is built.
    pub fn start<B: ParallelVisitorBuilder>(
        &self,
        root: Result<Entry, WalkError>,
        available: Option<usize>,
        builder: &mut B,
    ) -> (r: Result<Pool, Woker<B::Visitor>>)
        ensures
            root is Err <==> r is Err,
            r matches Err(w) ==> w.delivered().len() == 1 && w.delivered()[0].0 == Err::<
                Entry,
                WalkError,
            >(root->Err_0),
            r matches Ok(pool) ==> {
                &&& pool.wf()
                &&& pool@.queues.len() == threads_for(self.threads, available)
                &&& pool@.queues[0] == seq![work_of(Work { entry: root->Ok_0, depth: 0 })]
                &&& forall|q: int| 1 <= q < pool@.queues.len() ==> (#[trigger] pool@.queues[q]).len() == 0
                &&& pool@.active == pool@.queues.len()
                &&& !pool@.quit_now
            },
    {
        let threads = self.threads(available);
        match root {
            Err(err) => {
                let mut worker = Woker::new(0, builder.build(), self.min_depth, self.max_depth);
                let _ = worker.deliver(Err(err));
                Err(worker)
            },
            Ok(entry) => {
                let ghost e = entry;
                let mut init: Vec<Message> = Vec::new();
                init.push(Message::Work(Work { entry, depth: 0 }));
                let pool = Pool::new_for_each_thread(threads, init);
                proof {
                    let rev = init@.reverse();
                    assert(rev =~= seq![work_of(Work { entry: e, depth: 0 })]);
                    assert(rev.drop_last() =~= Seq::<Message>::empty());
                    reveal_with_fuel(share, 2);
                    assert(0int % (threads as int) == 0);
                    assert(pool@.queues[0] == share(rev, threads as int, 0));
                    assert(share(rev, threads as int, 0) =~= seq![work_of(Work { entry: e, depth: 0 })]);
                    assert forall|q: int| 1 <= q < pool@.queues.len() implies (
                    #[trigger] pool@.queues[q]).len() == 0 by {
                        assert(pool@.queues[q] == share(rev, threads as int, q));
                    }
                }
                Ok(pool)
            },
        }
    }
}

} // verus!
