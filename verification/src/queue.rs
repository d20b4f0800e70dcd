//! A work queue shared by local queues: each local queue fills a buffer and
//! hands full buffers to the shared queue, from which starved local queues
//! take blocks until every local queue is starved.
//!
//! The shared queue is a state machine: `spin` makes one attempt to get work
//! and says whether the caller got a block, whether all local queues are done,
//! or whether it must wait for the others and try again.
use vstd::prelude::*;

verus! {

/// The log of the number of pages of a buffer.
pub const LOG_PAGES_PER_BUFFER: u64 = 0;
/// The log of the number of entries of a buffer.
pub const LOG_BUFFER_SIZE: u64 = 12;
/// The number of entries of a buffer.
pub const BUFFER_SIZE: usize = 4096;

/// What one attempt to get work from the shared queue gives.
pub enum Spin<T> {
    /// A block of work.
    Block(Vec<T>),
    /// No work is left, and every local queue is starved.
    Done,
    /// No work is left, but some local queue still works: try again.
    Wait,
}

/// What one attempt to take an entry from a local queue gives.
pub enum Dequeue<T> {
    /// An entry.
    Entry(T),
    /// No work is left anywhere.
    Done,
    /// No work is at hand, but some local queue still works: try again.
    Wait,
}

/// The blocks of work as sequences.
pub open spec fn blocks_view<T>(blocks: Seq<Vec<T>>) -> Seq<Seq<T>> {
    blocks.map_values(|b: Vec<T>| b@)
}

/// The shared queue: blocks of work, and for each local queue (by id)
/// whether it is starved.
pub struct SharedQueue<T> {
    blocks: Vec<Vec<T>>,
    starved: Vec<bool>,
}

impl<T> SharedQueue<T> {
    /// The blocks of work, the last one first to go.
    pub closed spec fn blocks_spec(&self) -> Seq<Seq<T>> {
        blocks_view(self.blocks@)
    }

    /// Whether each local queue (by id) is starved.
    pub closed spec fn starved_spec(&self) -> Seq<bool> {
        self.starved@
    }

    /// An empty shared queue with no local queues.
    pub fn new() -> (r: Self)
        ensures
            r.blocks_spec() == Seq::<Seq<T>>::empty(),
            r.starved_spec() == Seq::<bool>::empty(),
    {
        let r = SharedQueue { blocks: Vec::new(), starved: Vec::new() };
        proof {
            assert(r.blocks_spec() =~= Seq::<Seq<T>>::empty());
        }
        r
    }

    /// One attempt of the local queue `id`, which is starved, to get work: the
    /// last block if there is one (and `id` is no longer starved), else
    /// `Done` if every local queue is starved, else `Wait`.
    pub fn spin(&mut self, id: usize) -> (r: Spin<T>)
        requires
            id < old(self).starved_spec().len(),
        ensures
            old(self).blocks_spec().len() > 0 ==> ((r matches Spin::Block(b) && b@ == old(self).blocks_spec().last())
                && final(self).blocks_spec() == old(self).blocks_spec().drop_last()
                && final(self).starved_spec() == old(self).starved_spec().update(id as int, false)),
            old(self).blocks_spec().len() == 0 ==> (final(self).blocks_spec() == old(self).blocks_spec()
                && final(self).starved_spec() == old(self).starved_spec().update(id as int, true)
                && (r is Done) == (forall|i: int| 0 <= i < final(self).starved_spec().len()
                    ==> #[trigger] final(self).starved_spec()[i])
                && (r is Done || r is Wait)),
    {
        self.starved.set(id, true);
        if self.blocks.len() > 0 {
            let ghost old_blocks = self.blocks@;
            let result = self.blocks.pop().unwrap();
            self.starved.set(id, false);
            proof {
                assert(self.blocks_spec() =~= blocks_view(old_blocks).drop_last());
            }
            Spin::Block(result)
        } else {
            let mut i: usize = 0;
            while i < self.starved.len()
                invariant
                    i <= self.starved@.len(),
                    forall|k: int| 0 <= k < i ==> #[trigger] self.starved@[k],
                    self.blocks@ == old(self).blocks@,
                    old(self).blocks@.len() == 0,
                    id < old(self).starved@.len(),
                    self.starved@ == old(self).starved@.update(id as int, true),
                decreases self.starved@.len() - i,
            {
                if !self.starved[i] {
                    proof {
                        assert(!self.starved_spec()[i as int]);
                    }
                    return Spin::Wait;
                }
                i = i + 1;
            }
            Spin::Done
        }
    }

    /// Add a block of work.
    pub fn push(&mut self, b: Vec<T>)
        ensures
            final(self).blocks_spec() == old(self).blocks_spec().push(b@),
            final(self).starved_spec() == old(self).starved_spec(),
    {
        let ghost old_blocks = self.blocks@;
        self.blocks.push(b);
        proof {
            assert(self.blocks_spec() =~= blocks_view(old_blocks).push(b@));
        }
    }

    /// A new local queue, with the next id, not starved.
    pub fn spawn_local(&mut self) -> (r: LocalQueue<T>)
        ensures
            r.id_spec() == old(self).starved_spec().len(),
            r.buffer_spec() == Seq::<T>::empty(),
            final(self).starved_spec() == old(self).starved_spec().push(false),
            final(self).blocks_spec() == old(self).blocks_spec(),
    {
        let id = self.starved.len();
        self.starved.push(false);
        LocalQueue::new(id)
    }

    /// There is no block of work.
    pub fn is_empty(&self) -> (r: bool)
        ensures
            r == (self.blocks_spec().len() == 0),
    {
        self.blocks.len() == 0
    }

    /// The number of local queues spawned from this queue.
    pub fn num_local_queues(&self) -> (r: usize)
        ensures
            r == self.starved_spec().len(),
    {
        self.starved.len()
    }
}

/// A local queue: a buffer of work, handed to the shared queue when full.
pub struct LocalQueue<T> {
    buffer: Vec<T>,
    id: usize,
}

impl<T> LocalQueue<T> {
    /// The entries of the buffer, the last one first to go.
    pub closed spec fn buffer_spec(&self) -> Seq<T> {
        self.buffer@
    }

    /// The id of the local queue in its shared queue.
    pub closed spec fn id_spec(&self) -> int {
        self.id as int
    }

    /// An empty local queue with the id `id`.
    pub fn new(id: usize) -> (r: Self)
        ensures
            r.id_spec() == id,
            r.buffer_spec() == Seq::<T>::empty(),
    {
        LocalQueue { buffer: Vec::new(), id }
    }

    /// The id of the local queue.
    pub fn id(&self) -> (r: usize)
        ensures
            r == self.id_spec(),
    {
        self.id
    }

    /// The number of entries in the buffer.
    pub fn buffer_len(&self) -> (r: usize)
        ensures
            r == self.buffer_spec().len(),
    {
        self.buffer.len()
    }

    /// Add an entry: a full buffer goes to the shared queue first.
    pub fn enqueue(&mut self, queue: &mut SharedQueue<T>, v: T)
        ensures
            final(self).id_spec() == old(self).id_spec(),
            final(queue).starved_spec() == old(queue).starved_spec(),
            old(self).buffer_spec().len() >= BUFFER_SIZE ==> final(self).buffer_spec() == seq![v]
                && final(queue).blocks_spec() == old(queue).blocks_spec().push(old(self).buffer_spec()),
            old(self).buffer_spec().len() < BUFFER_SIZE ==> final(self).buffer_spec() == old(
                self,
            ).buffer_spec().push(v) && final(queue).blocks_spec() == old(queue).blocks_spec(),
    {
        if self.buffer.len() >= BUFFER_SIZE {
            let mut b = Vec::new();
            std::mem::swap(&mut b, &mut self.buffer);
            queue.push(b);
            self.buffer.push(v);
            proof {
                assert(self.buffer@ =~= seq![v]);
            }
        } else {
            self.buffer.push(v);
        }
    }

    /// Take an entry: the last of the buffer; from an empty buffer, refill it
    /// with blocks from the shared queue (see `SharedQueue::spin`) until one
    /// has an entry, or until no work is left (`Done`), or until the local
    /// queue must wait for the others (`Wait`).
    pub fn dequeue(&mut self, queue: &mut SharedQueue<T>) -> (r: Dequeue<T>)
        requires
            old(self).id_spec() < old(queue).starved_spec().len(),
        ensures
            final(self).id_spec() == old(self).id_spec(),
            final(queue).starved_spec().len() == old(queue).starved_spec().len(),
            old(self).buffer_spec().len() > 0 ==> (r matches Dequeue::Entry(x) && x == old(self).buffer_spec().last()
                && final(self).buffer_spec() == old(self).buffer_spec().drop_last() && *final(queue) == *old(queue)),
            old(self).buffer_spec().len() == 0 ==> ({
                let k = first_nonempty_from_last(old(queue).blocks_spec());
                let bs = old(queue).blocks_spec();
                if k >= 0 {
                    (r matches Dequeue::Entry(x) && x == bs[k].last()
                        && final(self).buffer_spec() == bs[k].drop_last()
                        && final(queue).blocks_spec() == bs.take(k)
                        && final(queue).starved_spec()[final(self).id_spec()] == false)
                } else {
                    final(self).buffer_spec().len() == 0
                        && final(queue).blocks_spec().len() == 0
                        && final(queue).starved_spec()[final(self).id_spec()]
                        && (r is Done) == (forall|i: int| 0 <= i < final(queue).starved_spec().len()
                            ==> #[trigger] final(queue).starved_spec()[i])
                        && (r is Done || r is Wait)
                }
            }),
    {
        if self.buffer.len() > 0 {
            let result = self.buffer.pop().unwrap();
            return Dequeue::Entry(result);
        }
        let ghost bs = queue.blocks_spec();
        let ghost k = first_nonempty_from_last(bs);
        proof {
            lemma_first_nonempty_from_last(bs);
            assert(bs.take(bs.len() as int) =~= bs);
        }
        loop
            invariant
                old(self).buffer_spec().len() == 0,
                self.id_spec() == old(self).id_spec(),
                self.id_spec() < queue.starved_spec().len(),
                queue.starved_spec().len() == old(queue).starved_spec().len(),
                self.buffer_spec().len() == 0,
                bs == old(queue).blocks_spec(),
                k == first_nonempty_from_last(bs),
                queue.blocks_spec().len() <= bs.len(),
                queue.blocks_spec() == bs.take(queue.blocks_spec().len() as int),
                k < queue.blocks_spec().len(),
                k >= 0 ==> k < bs.len() && bs[k].len() > 0,
                k < 0 ==> k == -1,
            decreases queue.blocks_spec().len(),
        {
            let ghost m = queue.blocks_spec().len() as int;
            match queue.spin(self.id) {
                Spin::Block(b) => {
                    proof {
                        assert(b@ == bs[m - 1]);
                        assert(queue.blocks_spec() =~= bs.take(m - 1));
                    }
                    self.buffer = b;
                    if self.buffer.len() > 0 {
                        proof {
                            assert(m - 1 == k) by {
                                lemma_first_nonempty_from_last(bs);
                                if m - 1 != k {
                                    assert(k < m - 1);
                                }
                            }
                        }
                        let result = self.buffer.pop().unwrap();
                        return Dequeue::Entry(result);
                    }
                    proof {
                        assert(m - 1 != k);
                    }
                },
                Spin::Done => {
                    return Dequeue::Done;
                },
                Spin::Wait => {
                    return Dequeue::Wait;
                },
            }
        }
    }

    /// The buffer has no entry.
    pub fn is_empty(&self) -> (r: bool)
        ensures
            r == (self.buffer_spec().len() == 0),
    {
        self.buffer.len() == 0
    }

    /// Drop the entries of the buffer.
    pub fn reset(&mut self)
        ensures
            final(self).buffer_spec() == Seq::<T>::empty(),
            final(self).id_spec() == old(self).id_spec(),
    {
        self.buffer.clear();
    }
}

/// The last block with an entry has one, and the blocks after it none.
pub proof fn lemma_first_nonempty_from_last<T>(bs: Seq<Seq<T>>)
    ensures
        -1 <= first_nonempty_from_last(bs) < bs.len(),
        first_nonempty_from_last(bs) >= 0 ==> bs[first_nonempty_from_last(bs)].len() > 0,
        forall|i: int| first_nonempty_from_last(bs) < i < bs.len() ==> #[trigger] bs[i].len() == 0,
    decreases bs.len(),
{
    if bs.len() > 0 && bs.last().len() == 0 {
        lemma_first_nonempty_from_last(bs.drop_last());
        assert forall|i: int| first_nonempty_from_last(bs) < i < bs.len() implies #[trigger] bs[i].len() == 0 by {
            if i < bs.len() - 1 {
                assert(bs.drop_last()[i] == bs[i]);
            }
        }
    }
}

/// The position of the last block of `bs` that has an entry (`-1`: none).
pub open spec fn first_nonempty_from_last<T>(bs: Seq<Seq<T>>) -> int
    decreases bs.len(),
{
    if bs.len() == 0 {
        -1
    } else if bs.last().len() > 0 {
        bs.len() - 1
    } else {
        first_nonempty_from_last(bs.drop_last())
    }
}

} // verus!
