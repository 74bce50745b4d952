//! The input log: the editable sequence of per-frame input records.
//!
//! Every record has the same length, the frame size of the input port. The
//! log is kept as one flat run of bytes; its view is the sequence of records.
//! Records are inserted and overwritten, never removed.

use vstd::prelude::*;

verus! {

/// The records that `bytes` is made of, each `size` bytes long.
pub open spec fn chunks(bytes: Seq<u8>, size: nat) -> Seq<Seq<u8>> {
    Seq::new(bytes.len() / size, |i: int| bytes.subrange(i * size, i * size + size))
}

/// `rows` records of `size` bytes make `rows * size` bytes, and the places of
/// record `i` among them lie side by side.
proof fn lemma_rows(len: nat, size: nat)
    requires
        size > 0,
        len % size == 0,
    ensures
        (len / size) * size == len,
        forall|i: int| 0 <= i < len / size ==> 0 <= #[trigger] (i * size) && i * size + size <= len,
        forall|i: int| 0 <= i <= len / size ==> 0 <= #[trigger] (i * size) <= len,
{
    let rows = len / size;
    assert(rows * size == len) by {
        vstd::arithmetic::div_mod::lemma_fundamental_div_mod(len as int, size as int);
        assert(size * rows == rows * size) by (nonlinear_arith);
    }
    assert forall|i: int| 0 <= i < rows implies 0 <= #[trigger] (i * size) && i * size + size
        <= len by {
        assert(0 <= i * size && i * size + size <= rows * size) by (nonlinear_arith)
            requires
                0 <= i < rows,
                size > 0,
        ;
    }
    assert forall|i: int| 0 <= i <= rows implies 0 <= #[trigger] (i * size) <= len by {
        assert(0 <= i * size <= rows * size) by (nonlinear_arith)
            requires
                0 <= i <= rows,
                size > 0,
        ;
    }
}

/// Where record `i` lies among `len` bytes of whole records.
proof fn lemma_row_at(i: int, len: nat, size: nat)
    requires
        size > 0,
        len % size == 0,
        0 <= i <= len / size,
    ensures
        0 <= i * size <= len,
        i < len / size ==> i * size + size <= len,
{
    lemma_rows(len, size);
    if i < len / size {
        assert(0 <= #[trigger] (i * size) && i * size + size <= len);
    }
}

/// `a + b` whole records make as many bytes as `a` and `b` records together.
proof fn lemma_rows_add(a: int, b: int, size: nat)
    requires
        size > 0,
        a >= 0,
        b >= 0,
    ensures
        (a + b) * size == a * size + b * size,
        (a * size) / (size as int) == a,
        (a * size) % (size as int) == 0,
{
    assert((a + b) * size == a * size + b * size) by (nonlinear_arith);
    vstd::arithmetic::div_mod::lemma_div_by_multiple(a, size as int);
    vstd::arithmetic::div_mod::lemma_mod_multiples_basic(a, size as int);
}

/// Record `i` starts `(i - j) * size` bytes after record `j`.
proof fn lemma_row_apart(i: int, j: int, size: nat)
    requires
        size > 0,
    ensures
        i * size - j * size == (i - j) * size,
        i < j ==> i * size + size <= j * size,
        i <= j ==> i * size <= j * size,
{
    assert(i * size - j * size == (i - j) * size) by (nonlinear_arith);
    assert(i < j ==> i * size + size <= j * size) by (nonlinear_arith)
        requires
            size > 0,
    ;
    assert(i <= j ==> i * size <= j * size) by (nonlinear_arith)
        requires
            size > 0,
    ;
}

/// Every record of whole records is `size` bytes long.
pub proof fn lemma_chunk_len(bytes: Seq<u8>, size: nat, i: int)
    requires
        size > 0,
        bytes.len() % size == 0,
        0 <= i < chunks(bytes, size).len(),
    ensures
        chunks(bytes, size)[i].len() == size,
{
    lemma_row_at(i, bytes.len(), size);
}

/// One record is the one record it is made of.
pub proof fn lemma_chunks_one(record: Seq<u8>, size: nat)
    requires
        size > 0,
        record.len() == size,
    ensures
        record.len() % size == 0,
        record.len() / size == 1,
        chunks(record, size) == seq![record],
{
    lemma_rows_add(1, 0, size);
    assert(1 * size == size) by (nonlinear_arith);
    assert(0 * size == 0) by (nonlinear_arith);
    assert(chunks(record, size)[0] =~= record);
    assert(chunks(record, size) =~= seq![record]);
}

/// An editable sequence of input records of one length.
pub struct InputLog {
    frame_size: usize,
    data: Vec<u8>,
}

impl View for InputLog {
    type V = Seq<Seq<u8>>;

    /// The records in order.
    closed spec fn view(&self) -> Seq<Seq<u8>> {
        chunks(self.data@, self.frame_size as nat)
    }
}

impl InputLog {
    /// The invariant of the representation: whole records only, and no more
    /// of them than a frame number can count.
    pub closed spec fn wf(&self) -> bool {
        &&& self.frame_size > 0
        &&& self.data@.len() % (self.frame_size as nat) == 0
        &&& self.data@.len() / (self.frame_size as nat) <= u32::MAX
    }

    /// Number of bytes in each record.
    pub closed spec fn spec_frame_size(&self) -> usize {
        self.frame_size
    }

    /// What the invariant says of the records.
    pub proof fn lemma_wf(&self)
        requires
            self.wf(),
        ensures
            self.spec_frame_size() > 0,
            self@.len() <= u32::MAX,
            forall|i: int| 0 <= i < self@.len() ==> (#[trigger] self@[i]).len() == self.spec_frame_size(),
    {
        lemma_rows(self.data@.len(), self.frame_size as nat);
    }

    /// An empty log for records of `frame_size` bytes.
    pub fn new(frame_size: usize) -> (log: InputLog)
        requires
            frame_size > 0,
        ensures
            log.wf(),
            log.spec_frame_size() == frame_size,
            log@ == Seq::<Seq<u8>>::empty(),
    {
        let log = InputLog { frame_size, data: Vec::new() };
        assert(log@ =~= Seq::<Seq<u8>>::empty());
        log
    }

    /// Number of bytes in each record.
    #[verifier::when_used_as_spec(spec_frame_size)]
    pub fn frame_size(&self) -> (size: usize)
        ensures
            size == self.spec_frame_size(),
    {
        self.frame_size
    }

    /// Number of records.
    pub fn len(&self) -> (n: u32)
        requires
            self.wf(),
        ensures
            n == self@.len(),
    {
        (self.data.len() / self.frame_size) as u32
    }

    /// Record `idx`.
    pub fn frame(&self, idx: u32) -> (record: &[u8])
        requires
            self.wf(),
            idx < self@.len(),
        ensures
            record@ == self@[idx as int],
    {
        proof {
            lemma_row_at(idx as int, self.data@.len(), self.frame_size as nat);
            assert(self.data.len() == self.data@.len());
        }
        let start: usize = idx as usize * self.frame_size;
        vstd::slice::slice_subrange(self.data.as_slice(), start, start + self.frame_size)
    }

    /// Replaces record `idx` by `record`.
    pub fn overwrite(&mut self, idx: u32, record: &[u8])
        requires
            old(self).wf(),
            idx < old(self)@.len(),
            record@.len() == old(self).spec_frame_size(),
        ensures
            final(self).wf(),
            final(self).spec_frame_size() == old(self).spec_frame_size(),
            final(self)@ == old(self)@.update(idx as int, record@),
    {
        let size = self.frame_size;
        proof {
            lemma_rows(self.data@.len(), size as nat);
            lemma_row_at(idx as int, self.data@.len(), size as nat);
            assert(self.data.len() == self.data@.len());
        }
        let start: usize = idx as usize * size;
        let mut k: usize = 0;
        while k < size
            invariant
                0 <= k <= size,
                size == self.frame_size,
                size == record@.len(),
                self.frame_size == old(self).frame_size,
                self.data@.len() == old(self).data@.len(),
                start + size <= self.data@.len() <= usize::MAX,
                forall|p: int|
                    0 <= p < self.data@.len() ==> #[trigger] self.data@[p] == if start <= p < start
                        + k {
                        record@[p - start]
                    } else {
                        old(self).data@[p]
                    },
            decreases size - k,
        {
            self.data[start + k] = record[k];
            k = k + 1;
        }
        proof {
            let was = old(self).data@;
            let now = self.data@;
            let rows = old(self)@.len() as int;
            let want = old(self)@.update(idx as int, record@);
            assert(self@.len() == want.len());
            assert forall|j: int| 0 <= j < rows implies #[trigger] self@[j] == want[j] by {
                lemma_row_apart(j, idx as int, size as nat);
                lemma_row_apart(idx as int, j, size as nat);
                if j == idx {
                    assert(now.subrange(j * size, j * size + size) =~= record@);
                } else {
                    assert(now.subrange(j * size, j * size + size) =~= was.subrange(
                        j * size,
                        j * size + size,
                    ));
                }
            }
            assert(self@ =~= want);
        }
    }

    /// Whether `count` more records still leave the log countable by a frame
    /// number: the limit that [`InputLog::insert`] asks for.
    pub open spec fn has_room(&self, count: nat) -> bool {
        self@.len() + count <= u32::MAX
    }

    /// Inserts the whole records that `records` is made of before record
    /// `idx`, or at the end where `idx` is the number of records.
    pub fn insert(&mut self, idx: u32, records: &[u8])
        requires
            old(self).wf(),
            idx <= old(self)@.len(),
            records@.len() % (old(self).spec_frame_size() as nat) == 0,
            old(self).has_room(records@.len() / (old(self).spec_frame_size() as nat)),
        ensures
            final(self).wf(),
            final(self).spec_frame_size() == old(self).spec_frame_size(),
            final(self)@ == old(self)@.subrange(0, idx as int) + chunks(
                records@,
                old(self).spec_frame_size() as nat,
            ) + old(self)@.subrange(idx as int, old(self)@.len() as int),
    {
        let size = self.frame_size;
        proof {
            lemma_rows(self.data@.len(), size as nat);
            lemma_rows(records@.len(), size as nat);
            lemma_row_at(idx as int, self.data@.len(), size as nat);
            assert(self.data.len() == self.data@.len());
        }
        let at: usize = idx as usize * size;
        let mut tail = self.data.split_off(at);
        self.data.extend_from_slice(records);
        self.data.append(&mut tail);
        proof {
            let was = old(self).data@;
            let now = self.data@;
            let rows = old(self)@.len() as int;
            let more = chunks(records@, size as nat);
            let count = more.len() as int;
            let want = old(self)@.subrange(0, idx as int) + more + old(self)@.subrange(
                idx as int,
                rows,
            );
            assert(now =~= was.subrange(0, at as int) + records@ + was.subrange(
                at as int,
                was.len() as int,
            ));
            lemma_rows_add(rows, count, size as nat);
            lemma_rows_add(rows + count, 0, size as nat);
            assert(now.len() == (rows + count) * size);
            assert(self@.len() == rows + count);
            assert forall|j: int| 0 <= j < rows + count implies #[trigger] self@[j] == want[j] by {
                lemma_row_apart(j, idx as int, size as nat);
                lemma_row_apart(idx as int, j, size as nat);
                lemma_row_apart(j, idx + count, size as nat);
                lemma_row_apart(idx + count, j, size as nat);
                lemma_row_apart(j, rows + count, size as nat);
                lemma_row_apart(j, count, size as nat);
                lemma_rows_add(idx as int, count, size as nat);
                if j < idx {
                    assert(now.subrange(j * size, j * size + size) =~= was.subrange(
                        j * size,
                        j * size + size,
                    ));
                } else if j < idx + count {
                    let r = j - idx;
                    assert(now.subrange(j * size, j * size + size) =~= records@.subrange(
                        r * size,
                        r * size + size,
                    ));
                } else {
                    let r = j - count;
                    assert(now.subrange(j * size, j * size + size) =~= was.subrange(
                        r * size,
                        r * size + size,
                    ));
                }
            }
            assert(self@ =~= want);
        }
    }
}

} // verus!
