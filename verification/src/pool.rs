//! A fixed number of packet buffers, handed out by index.

use crate::config::MAX_POOL_SLOTS;
use crossbeam_channel::{Receiver, Sender};
use vstd::prelude::*;

verus! {

/// The size of a packet buffer.
pub const MAX_PACKET_SIZE: usize = 1600;

/// `crossbeam_channel::Sender`, the end of a channel that messages go into.
#[verifier::external_type_specification]
#[verifier::external_body]
#[verifier::reject_recursive_types(T)]
pub struct ExSender<T>(crossbeam_channel::Sender<T>);

/// `crossbeam_channel::Receiver`, the end of a channel that messages come out of.
#[verifier::external_type_specification]
#[verifier::external_body]
#[verifier::reject_recursive_types(T)]
pub struct ExReceiver<T>(crossbeam_channel::Receiver<T>);

/// The indices that wait in a channel, the oldest first.
pub uninterp spec fn waiting(tx: Sender<usize>, rx: Receiver<usize>) -> Seq<usize>;

/// How many indices a channel holds at most.
pub uninterp spec fn channel_room(tx: Sender<usize>, rx: Receiver<usize>) -> nat;

/// `crossbeam_channel::bounded`: an empty channel with room for `cap` messages.
#[verifier::external_body]
fn new_channel(cap: usize) -> (r: (Sender<usize>, Receiver<usize>))
    requires
        cap <= MAX_POOL_SLOTS,
    ensures
        waiting(r.0, r.1) == Seq::<usize>::empty(),
        channel_room(r.0, r.1) == cap,
{
    crossbeam_channel::bounded(cap)
}

/// `Sender::send` on a channel whose both ends are here and that is not full, so that
/// it neither waits nor fails: the index joins those that wait, as the last.
#[verifier::external_body]
fn push_index(tx: &mut Sender<usize>, rx: &mut Receiver<usize>, idx: usize)
    requires
        waiting(*old(tx), *old(rx)).len() < channel_room(*old(tx), *old(rx)),
    ensures
        waiting(*final(tx), *final(rx)) == waiting(*old(tx), *old(rx)).push(idx),
        channel_room(*final(tx), *final(rx)) == channel_room(*old(tx), *old(rx)),
{
    let _ = (tx.send(idx), rx);
}

/// `Receiver::try_recv` on a channel whose both ends are here: the index that has
/// waited longest comes out, if any waits.
#[verifier::external_body]
fn pop_index(tx: &mut Sender<usize>, rx: &mut Receiver<usize>) -> (r: Option<usize>)
    ensures
        channel_room(*final(tx), *final(rx)) == channel_room(*old(tx), *old(rx)),
        match r {
            Some(idx) => waiting(*old(tx), *old(rx)).len() > 0 && idx == waiting(*old(tx), *old(rx))[0]
                && waiting(*final(tx), *final(rx)) == waiting(*old(tx), *old(rx)).drop_first(),
            None => waiting(*old(tx), *old(rx)).len() == 0 && waiting(*final(tx), *final(rx)) == waiting(
                *old(tx),
                *old(rx),
            ),
        },
{
    let _ = tx;
    rx.try_recv().ok()
}

/// Packet buffers and the list of those that are free.
pub struct BufferPool {
    buffers: Vec<Vec<u8>>,
    free_tx: Sender<usize>,
    free_rx: Receiver<usize>,
}

/// The content of a [`BufferPool`].
pub ghost struct PoolView {
    pub buffers: Seq<Seq<u8>>,
    /// The indices of the free buffers, in the order in which they are handed out.
    pub free: Seq<usize>,
}

impl PoolView {
    /// With a buffer filled.
    pub open spec fn filled(self, idx: usize, bytes: Seq<u8>) -> PoolView {
        PoolView { buffers: self.buffers.update(idx as int, bytes), ..self }
    }

    /// With a buffer given back.
    pub open spec fn released(self, idx: usize) -> PoolView {
        PoolView { free: self.free.push(idx), ..self }
    }

    /// With the next buffer taken.
    pub open spec fn acquired(self) -> PoolView {
        PoolView { free: self.free.drop_first(), ..self }
    }

    /// Whether the buffer is one that is in use.
    pub open spec fn in_use(self, idx: usize) -> bool {
        idx < self.buffers.len() && !self.free.contains(idx)
    }
}

/// Distinct indices below a bound are no more than the bound, and fewer if one of them
/// is missing.
proof fn lemma_distinct_indices(s: Seq<usize>, n: nat, missing: usize)
    requires
        s.no_duplicates(),
        forall|i: int| 0 <= i < s.len() ==> #[trigger] s[i] < n,
        missing < n,
        !s.contains(missing),
    ensures
        s.len() < n,
{
    let t = s.push(missing);
    let ints = t.map_values(|x: usize| x as int);
    assert(t.no_duplicates());
    assert forall|i: int, j: int| 0 <= i < ints.len() && 0 <= j < ints.len() && i != j implies ints[i]
        != ints[j] by {
        assert(t[i] != t[j]);
    }
    assert(ints.no_duplicates());
    ints.unique_seq_to_set();
    let range = vstd::set_lib::set_int_range(0, n as int);
    vstd::set_lib::lemma_int_range(0, n as int);
    assert(ints.to_set().subset_of(range)) by {
        assert forall|x: int| ints.to_set().contains(x) implies range.contains(x) by {
            let i = choose|i: int| 0 <= i < ints.len() && ints[i] == x;
            if i < s.len() {
                assert(t[i] == s[i]);
            }
        }
    }
    vstd::set_lib::lemma_len_subset(ints.to_set(), range);
}

impl BufferPool {
    pub closed spec fn view(self) -> PoolView {
        PoolView {
            buffers: self.buffers@.map_values(|b: Vec<u8>| b@),
            free: waiting(self.free_tx, self.free_rx),
        }
    }

    /// Every buffer has its size, and no buffer is free twice.
    pub closed spec fn wf(self) -> bool {
        &&& forall|i: int| 0 <= i < self.buffers@.len() ==> (#[trigger] self.buffers@[i])@.len() == MAX_PACKET_SIZE
        &&& channel_room(self.free_tx, self.free_rx) == self.buffers@.len()
        &&& self@.free.no_duplicates()
        &&& forall|i: int| 0 <= i < self@.free.len() ==> #[trigger] self@.free[i] < self.buffers@.len()
    }

    /// What holds of a pool that is in order.
    pub proof fn lemma_wf(&self)
        requires
            self.wf(),
        ensures
            self@.free.no_duplicates(),
            forall|i: int| 0 <= i < self@.free.len() ==> #[trigger] self@.free[i] < self@.buffers.len(),
            forall|i: int|
                0 <= i < self@.buffers.len() ==> (#[trigger] self@.buffers[i]).len() == MAX_PACKET_SIZE,
    {
    }

    /// A pool of `slots` buffers, all of them zero and free.
    pub fn new(slots: usize) -> (r: BufferPool)
        requires
            slots <= MAX_POOL_SLOTS,
        ensures
            r.wf(),
            r@.buffers.len() == slots,
            r@.free == Seq::new(slots as nat, |i: int| i as usize),
            forall|i: int|
                0 <= i < slots ==> #[trigger] r@.buffers[i] == Seq::new(1600, |j: int| 0u8),
    {
        let (free_tx, free_rx) = new_channel(slots);
        let mut free_tx: Sender<usize> = free_tx;
        let mut free_rx: Receiver<usize> = free_rx;
        let mut buffers: Vec<Vec<u8>> = Vec::with_capacity(slots);
        let mut i: usize = 0;
        while i < slots
            invariant
                i <= slots,
                slots <= MAX_POOL_SLOTS,
                buffers@.len() == i,
                channel_room(free_tx, free_rx) == slots,
                waiting(free_tx, free_rx) =~= Seq::new(i as nat, |j: int| j as usize),
                forall|j: int|
                    0 <= j < i ==> (#[trigger] buffers@[j])@ =~= Seq::new(1600, |k: int| 0u8),
            decreases slots - i,
        {
            buffers.push(vec![0u8; MAX_PACKET_SIZE]);
            push_index(&mut free_tx, &mut free_rx, i);
            i = i + 1;
        }
        BufferPool { buffers, free_tx, free_rx }
    }

    /// Takes a free buffer, if there is one. Nobody else has it.
    pub fn try_acquire(&mut self) -> (r: Option<usize>)
        requires
            old(self).wf(),
        ensures
            final(self).wf(),
            match r {
                Some(idx) => old(self)@.free.len() > 0 && idx == old(self)@.free[0] && final(self)@
                    == old(self)@.acquired() && final(self)@.in_use(idx),
                None => old(self)@.free.len() == 0 && final(self)@ == old(self)@,
            },
    {
        let ghost before = self@.free;
        let r = pop_index(&mut self.free_tx, &mut self.free_rx);
        proof {
            if r is Some {
                assert(self@.free =~= before.drop_first());
                assert forall|i: int| 0 <= i < self@.free.len() implies #[trigger] self@.free[i] == before[i
                    + 1] by {}
            }
        }
        r
    }

    /// Gives a buffer back.
    pub fn release(&mut self, idx: usize)
        requires
            old(self).wf(),
            old(self)@.in_use(idx),
        ensures
            final(self).wf(),
            final(self)@ == old(self)@.released(idx),
    {
        proof {
            lemma_distinct_indices(self@.free, self.buffers@.len(), idx);
        }
        push_index(&mut self.free_tx, &mut self.free_rx, idx);
    }

    pub fn buffer(&self, idx: usize) -> (r: &[u8])
        requires
            self.wf(),
            idx < self@.buffers.len(),
        ensures
            r@ == self@.buffers[idx as int],
            r@.len() == MAX_PACKET_SIZE,
    {
        self.buffers[idx].as_slice()
    }

    pub fn buffer_mut(&mut self, idx: usize) -> (r: &mut [u8])
        requires
            old(self).wf(),
            idx < old(self)@.buffers.len(),
        ensures
            r@ == old(self)@.buffers[idx as int],
            r@.len() == MAX_PACKET_SIZE,
            final(self)@.buffers =~= old(self)@.filled(idx, final(r)@).buffers,
            final(self)@.free == old(self)@.free,
            final(r)@.len() == r@.len() ==> final(self).wf(),
    {
        self.buffers[idx].as_mut_slice()
    }
}

/// A buffer that was taken is not handed out again until it is given back.
pub proof fn taken_buffers_are_exclusive(p: PoolView)
    requires
        p.free.len() > 0,
        p.free.no_duplicates(),
    ensures
        !p.acquired().free.contains(p.free[0]),
        p.acquired().free.no_duplicates(),
{
    let rest = p.free.drop_first();
    if rest.contains(p.free[0]) {
        let i = choose|i: int| 0 <= i < rest.len() && rest[i] == p.free[0];
        assert(p.free[i + 1] == p.free[0]);
    }
}

/// Taking a buffer and giving it back leaves as many free as there were.
pub proof fn releasing_undoes_acquiring(p: PoolView)
    requires
        p.free.len() > 0,
    ensures
        p.acquired().released(p.free[0]).free.len() == p.free.len(),
        p.acquired().released(p.free[0]).free.to_multiset() == p.free.to_multiset(),
        p.acquired().released(p.free[0]).buffers == p.buffers,
{
    let x = p.free[0];
    let rest = p.free.drop_first();
    rest.to_multiset_ensures();
    p.free.to_multiset_ensures();
    assert(p.free.remove(0) =~= rest);
    assert(p.free.contains(x));
    assert(rest.push(x).to_multiset() =~= p.free.to_multiset());
}

/// Buffers are handed out in the order in which they were given back: the one that is
/// given back goes behind all that are free, and the others keep their order.
pub proof fn buffers_are_handed_out_in_order(p: PoolView, idx: usize, i: int)
    ensures
        p.released(idx).free.len() == p.free.len() + 1,
        p.released(idx).free[p.free.len() as int] == idx,
        0 <= i < p.free.len() ==> p.released(idx).free[i] == p.free[i],
        p.free.len() > 0 ==> p.acquired().free.len() == p.free.len() - 1,
        0 < i < p.free.len() ==> p.acquired().free[i - 1] == p.free[i],
        p.released(idx).buffers == p.buffers,
        p.acquired().buffers == p.buffers,
{
}

/// Filling a buffer changes that one and no other, and none becomes free.
pub proof fn filling_touches_one_buffer(p: PoolView, idx: usize, bytes: Seq<u8>, other: int)
    requires
        idx < p.buffers.len(),
        0 <= other < p.buffers.len(),
    ensures
        p.filled(idx, bytes).buffers.len() == p.buffers.len(),
        p.filled(idx, bytes).buffers[idx as int] == bytes,
        other != idx ==> p.filled(idx, bytes).buffers[other] == p.buffers[other],
        p.filled(idx, bytes).free == p.free,
{
}

} // verus!
