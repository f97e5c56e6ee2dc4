use vstd::prelude::*;

verus! {

/// Capacity a connection driver will usually pick for its frame buffer.
pub const DEFAULT_FRAME_CAPACITY: usize = 1024;

/// Fixed-capacity byte window for assembling request frames.
///
/// Bytes `[0, unconsumed)` are leftover bytes carried over from a previous
/// read (for instance the start of a pipelined next request); bytes
/// `[unconsumed, capacity)` are free space available for the next read.
pub struct FrameBuffer {
    pub storage: Vec<u8>,
    pub unconsumed: usize,
}

impl FrameBuffer {
    /// Total capacity: the fixed length of the storage array.
    pub open spec fn capacity(self) -> int {
        self.storage@.len() as int
    }

    pub open spec fn wf(self) -> bool {
        self.unconsumed <= self.storage@.len()
    }

    /// A fresh buffer: all zero, nothing unconsumed.
    pub fn new(capacity: usize) -> (r: FrameBuffer)
        ensures
            r.wf(),
            r.capacity() == capacity,
            r.unconsumed == 0,
            r.storage@ =~= Seq::<u8>::new(capacity as nat, |i: int| 0u8),
    {
        let mut storage: Vec<u8> = Vec::new();
        let mut i: usize = 0;
        while i < capacity
            invariant
                i <= capacity,
                storage@ =~= Seq::<u8>::new(i as nat, |j: int| 0u8),
            decreases capacity - i,
        {
            storage.push(0u8);
            i = i + 1;
        }
        FrameBuffer { storage, unconsumed: 0 }
    }

    /// Free space available for the next read.
    pub fn free_len(&self) -> (r: usize)
        requires
            self.wf(),
        ensures
            r == self.capacity() - self.unconsumed,
    {
        self.storage.len() - self.unconsumed
    }

    /// Copy newly read bytes into the free region, directly after the
    /// unconsumed prefix.
    pub fn fill(&mut self, data: &Vec<u8>)
        requires
            old(self).wf(),
            data@.len() <= old(self).capacity() - old(self).unconsumed,
        ensures
            final(self).wf(),
            final(self).unconsumed == old(self).unconsumed,
            final(self).capacity() == old(self).capacity(),
            final(self).storage@ =~= old(self).storage@.take(old(self).unconsumed as int)
                + data@
                + old(self).storage@.skip(old(self).unconsumed + data@.len()),
    {
        let base: usize = self.unconsumed;
        let n: usize = data.len();
        let mut i: usize = 0;
        while i < n
            invariant
                n == data@.len(),
                i <= n,
                base == old(self).unconsumed,
                base + n <= self.storage.len(),
                self.unconsumed == old(self).unconsumed,
                self.storage@.len() == old(self).storage@.len(),
                forall|j: int| 0 <= j < base + i ==> self.storage@[j]
                    == (if j < base { old(self).storage@[j] } else { data@[j - base] }),
                forall|j: int| base + i <= j < self.storage@.len()
                    ==> self.storage@[j] == old(self).storage@[j],
            decreases data@.len() - i,
        {
            let b: u8 = data[i];
            self.storage.set(base + i, b);
            i = i + 1;
        }
    }

    /// Shift the still-valid tail `[consumed_end, total_valid)` to the front
    /// of storage and zero everything behind it.  Afterwards exactly those
    /// leftover bytes form the unconsumed prefix.
    pub fn compact(&mut self, consumed_end: usize, total_valid: usize)
        requires
            old(self).wf(),
            consumed_end <= total_valid,
            total_valid <= old(self).capacity(),
        ensures
            final(self).wf(),
            final(self).capacity() == old(self).capacity(),
            final(self).unconsumed == total_valid - consumed_end,
            final(self).storage@ =~= old(self).storage@.subrange(
                consumed_end as int,
                total_valid as int,
            ) + Seq::<u8>::new(
                (old(self).capacity() - (total_valid - consumed_end)) as nat,
                |i: int| 0u8,
            ),
    {
        let keep: usize = total_valid - consumed_end;
        let mut i: usize = 0;
        while i < keep
            invariant
                keep == total_valid - consumed_end,
                i <= keep,
                consumed_end + keep == total_valid,
                total_valid <= self.storage.len(),
                self.unconsumed == old(self).unconsumed,
                self.storage@.len() == old(self).storage@.len(),
                forall|j: int| 0 <= j < i ==> self.storage@[j]
                    == old(self).storage@[consumed_end + j],
                forall|j: int| i <= j < self.storage@.len()
                    ==> self.storage@[j] == old(self).storage@[j],
            decreases keep - i,
        {
            let b: u8 = self.storage[consumed_end + i];
            self.storage.set(i, b);
            i = i + 1;
        }
        let cap: usize = self.storage.len();
        let mut k: usize = keep;
        while k < cap
            invariant
                keep <= k <= cap,
                cap == self.storage@.len(),
                cap == old(self).storage@.len(),
                keep == total_valid - consumed_end,
                consumed_end + keep <= cap,
                self.unconsumed == old(self).unconsumed,
                forall|j: int| 0 <= j < keep ==> self.storage@[j]
                    == old(self).storage@[consumed_end + j],
                forall|j: int| keep <= j < k ==> self.storage@[j] == 0u8,
            decreases cap - k,
        {
            self.storage.set(k, 0u8);
            k = k + 1;
        }
        self.unconsumed = keep;
    }
}

} // verus!
