//! A reader over a list of scattered fragments, which hands out the bytes
//! of a message in order without gathering them first.
use vstd::prelude::*;

verus! {

#[verifier::external_type_specification]
#[verifier::external_body]
pub struct ExIoError(std::io::Error);

/// The bytes of `frags[from..]`, one fragment after the other.
pub open spec fn flatten_from(frags: Seq<Seq<u8>>, from: int) -> Seq<u8>
    decreases frags.len() - from,
{
    if from < 0 || from >= frags.len() {
        Seq::empty()
    } else {
        frags[from] + flatten_from(frags, from + 1)
    }
}

/// The bytes of `frags[from..]` up to, and without, the first empty fragment.
pub open spec fn flatten_until_gap(frags: Seq<Seq<u8>>, from: int) -> Seq<u8>
    decreases frags.len() - from,
{
    if from < 0 || from >= frags.len() || frags[from].len() == 0 {
        Seq::empty()
    } else {
        frags[from] + flatten_until_gap(frags, from + 1)
    }
}

/// The byte views of a list of fragments.
pub open spec fn fragment_views(list: Seq<&[u8]>) -> Seq<Seq<u8>> {
    Seq::new(list.len(), |i: int| list[i]@)
}

/// Where a reader stands in its list of fragments. A reader that has handed
/// out its last byte forgets the list: it stands at `{ empty, 0, 0 }`.
pub struct ReaderState {
    pub frags: Seq<Seq<u8>>,
    pub cursor: int,
    pub offset: int,
}

impl ReaderState {
    /// The state of a fresh reader over `frags`.
    pub open spec fn start(frags: Seq<Seq<u8>>) -> ReaderState {
        ReaderState { frags, cursor: 0, offset: 0 }
    }

    /// The state after the last byte.
    pub open spec fn done() -> ReaderState {
        ReaderState { frags: Seq::empty(), cursor: 0, offset: 0 }
    }

    /// The reader stands inside its list, or has forgotten it.
    pub open spec fn wf(self) -> bool {
        if self.frags.len() == 0 {
            self.cursor == 0 && self.offset == 0
        } else {
            0 <= self.cursor < self.frags.len() && 0 <= self.offset <= self.frags[self.cursor].len()
        }
    }

    /// No fragment lies ahead any more.
    pub open spec fn exhausted(self) -> bool {
        self.frags.len() == 0
    }

    /// No empty fragment lies ahead, and the current one has bytes left.
    pub open spec fn dense(self) -> bool {
        &&& forall|i: int| self.cursor <= i < self.frags.len() ==> (#[trigger] self.frags[i]).len() > 0
        &&& !self.exhausted() ==> self.offset < self.frags[self.cursor].len()
    }

    /// What is left of the current fragment.
    pub open spec fn current(self) -> Seq<u8> {
        if self.exhausted() {
            Seq::empty()
        } else {
            self.frags[self.cursor].skip(self.offset)
        }
    }

    /// Every byte that has not been handed out yet.
    pub open spec fn remaining(self) -> Seq<u8> {
        if self.exhausted() {
            Seq::empty()
        } else {
            self.current() + flatten_from(self.frags, self.cursor + 1)
        }
    }

    /// The bytes that come before a read into a non-empty buffer answers 0:
    /// those up to the end of the list or to the first empty fragment.
    pub open spec fn readable(self) -> Seq<u8> {
        if self.exhausted() || self.current().len() == 0 {
            Seq::empty()
        } else {
            self.current() + flatten_until_gap(self.frags, self.cursor + 1)
        }
    }

    /// How many bytes one read into a buffer of `want` bytes hands out: it
    /// never goes past the end of the current fragment.
    pub open spec fn amount(self, want: nat) -> nat {
        if self.current().len() <= want {
            self.current().len()
        } else {
            want
        }
    }

    /// The bytes that one read into a buffer of `want` bytes hands out.
    pub open spec fn delivered(self, want: nat) -> Seq<u8> {
        self.current().take(self.amount(want) as int)
    }

    /// The state after one read into a buffer of `want` bytes.
    pub open spec fn advance(self, want: nat) -> ReaderState {
        if self.exhausted() {
            self
        } else if self.amount(want) == self.current().len() {
            if self.cursor + 1 >= self.frags.len() {
                ReaderState::done()
            } else {
                ReaderState { frags: self.frags, cursor: self.cursor + 1, offset: 0 }
            }
        } else {
            ReaderState { frags: self.frags, cursor: self.cursor, offset: self.offset + self.amount(want) }
        }
    }

    /// What a run of reads hands out, one read for each buffer size in
    /// `wants`, and the state it ends in.
    pub open spec fn run(self, wants: Seq<nat>) -> (Seq<u8>, ReaderState)
        decreases wants.len(),
    {
        if wants.len() == 0 {
            (Seq::empty(), self)
        } else {
            let rest = self.advance(wants[0]).run(wants.drop_first());
            (self.delivered(wants[0]) + rest.0, rest.1)
        }
    }
}

/// A fresh reader over fragments that are all non-empty is dense.
pub proof fn lemma_start_dense(frags: Seq<Seq<u8>>)
    requires
        forall|i: int| 0 <= i < frags.len() ==> (#[trigger] frags[i]).len() > 0,
    ensures
        ReaderState::start(frags).wf(),
        ReaderState::start(frags).dense(),
        ReaderState::start(frags).remaining() == flatten_from(frags, 0),
{
    let s = ReaderState::start(frags);
    if frags.len() > 0 {
        assert(s.current() == frags[0]);
    }
}

/// One read splits what was left into what it hands out and what is left
/// after it, and keeps the state well formed.
pub proof fn lemma_advance(s: ReaderState, want: nat)
    requires
        s.wf(),
    ensures
        s.advance(want).wf(),
        s.remaining() == s.delivered(want) + s.advance(want).remaining(),
        s.dense() ==> s.advance(want).dense(),
        s.dense() && want > 0 && !s.exhausted() ==> s.amount(want) > 0,
{
    let t = s.advance(want);
    let n = s.amount(want);
    if s.exhausted() {
    } else if n == s.current().len() {
        assert(s.delivered(want) == s.current());
        if s.cursor + 1 >= s.frags.len() {
            assert(flatten_from(s.frags, s.cursor + 1) == Seq::<u8>::empty());
        } else {
            assert(t.current() == s.frags[s.cursor + 1]);
            assert(s.frags[s.cursor + 1].skip(0) == s.frags[s.cursor + 1]);
            assert(flatten_from(s.frags, s.cursor + 1) == s.frags[s.cursor + 1] + flatten_from(
                s.frags,
                s.cursor + 2,
            ));
            assert(s.remaining() == s.current() + (t.current() + flatten_from(s.frags, s.cursor + 2)));
        }
    } else {
        let whole = s.frags[s.cursor];
        assert(t.current() == whole.skip(s.offset + n));
        assert(s.current() == s.delivered(want) + t.current());
        assert(s.remaining() == (s.delivered(want) + t.current()) + flatten_from(s.frags, s.cursor + 1));
    }
}

/// A run of reads splits what was left into what it hands out and what is
/// left after it.
pub proof fn lemma_run(s: ReaderState, wants: Seq<nat>)
    requires
        s.wf(),
    ensures
        s.run(wants).1.wf(),
        s.remaining() == s.run(wants).0 + s.run(wants).1.remaining(),
    decreases wants.len(),
{
    if wants.len() > 0 {
        lemma_advance(s, wants[0]);
        lemma_run(s.advance(wants[0]), wants.drop_first());
        let rest = s.advance(wants[0]).run(wants.drop_first());
        assert(s.remaining() == s.delivered(wants[0]) + (rest.0 + rest.1.remaining()));
    }
}

/// Reading a list of fragments to exhaustion, with whatever buffer sizes,
/// hands out exactly the bytes of the fragments in order.
pub proof fn lemma_read_to_exhaustion(frags: Seq<Seq<u8>>, wants: Seq<nat>)
    requires
        ReaderState::start(frags).wf(),
        ReaderState::start(frags).run(wants).1.exhausted(),
    ensures
        ReaderState::start(frags).run(wants).0 == flatten_from(frags, 0),
{
    let s = ReaderState::start(frags);
    lemma_run(s, wants);
    if frags.len() > 0 {
        assert(s.current() == frags[0]);
    }
    assert(s.run(wants).1.remaining() == Seq::<u8>::empty());
}

/// Over non-empty fragments a read into a non-empty buffer answers 0 only
/// once every byte has been handed out, at any point of any run.
pub proof fn lemma_zero_means_exhausted(frags: Seq<Seq<u8>>, wants: Seq<nat>, want: nat)
    requires
        forall|i: int| 0 <= i < frags.len() ==> (#[trigger] frags[i]).len() > 0,
        want > 0,
    ensures
        ReaderState::start(frags).run(wants).1.amount(want) == 0 <==> ReaderState::start(frags).run(
            wants,
        ).1.exhausted(),
        ReaderState::start(frags).run(wants).1.exhausted() ==> ReaderState::start(frags).run(wants).0
            == flatten_from(frags, 0),
{
    lemma_start_dense(frags);
    lemma_run_dense(ReaderState::start(frags), wants);
    let end = ReaderState::start(frags).run(wants).1;
    lemma_advance(end, want);
    if end.exhausted() {
        lemma_read_to_exhaustion(frags, wants);
    }
}

/// A run of reads keeps a dense state dense.
proof fn lemma_run_dense(s: ReaderState, wants: Seq<nat>)
    requires
        s.wf(),
        s.dense(),
    ensures
        s.run(wants).1.wf(),
        s.run(wants).1.dense(),
    decreases wants.len(),
{
    if wants.len() > 0 {
        lemma_advance(s, wants[0]);
        lemma_run_dense(s.advance(wants[0]), wants.drop_first());
    }
}

/// One read into a non-empty buffer hands out the front of what is readable,
/// and nothing only where nothing is readable.
pub proof fn lemma_advance_readable(s: ReaderState, want: nat)
    requires
        s.wf(),
        want > 0,
    ensures
        s.amount(want) == 0 <==> s.readable().len() == 0,
        s.amount(want) > 0 ==> s.readable() == s.delivered(want) + s.advance(want).readable(),
        s.amount(want) <= s.readable().len(),
{
    let t = s.advance(want);
    let n = s.amount(want);
    if s.exhausted() || s.current().len() == 0 {
        assert(s.readable() == Seq::<u8>::empty());
    } else if n == s.current().len() {
        assert(s.delivered(want) == s.current());
        if s.cursor + 1 >= s.frags.len() {
            assert(flatten_until_gap(s.frags, s.cursor + 1) == Seq::<u8>::empty());
        } else {
            assert(t.current() == s.frags[s.cursor + 1]);
            assert(s.frags[s.cursor + 1].skip(0) == s.frags[s.cursor + 1]);
        }
    } else {
        let whole = s.frags[s.cursor];
        assert(t.current() == whole.skip(s.offset + n));
        assert(s.current() == s.delivered(want) + t.current());
        assert(s.readable() == (s.delivered(want) + t.current()) + flatten_until_gap(s.frags, s.cursor + 1));
    }
}

/// Where no empty fragment lies ahead, the bytes up to the first empty
/// fragment are all the bytes.
pub proof fn lemma_flatten_until_gap(frags: Seq<Seq<u8>>, from: int)
    requires
        0 <= from,
        forall|i: int| from <= i < frags.len() ==> (#[trigger] frags[i]).len() > 0,
    ensures
        flatten_until_gap(frags, from) == flatten_from(frags, from),
    decreases frags.len() - from,
{
    if from < frags.len() {
        lemma_flatten_until_gap(frags, from + 1);
    }
}

/// A reader with no empty fragment ahead can read all that is left.
pub proof fn lemma_dense_readable(s: ReaderState)
    requires
        s.wf(),
        s.dense(),
    ensures
        s.readable() == s.remaining(),
{
    if !s.exhausted() {
        lemma_flatten_until_gap(s.frags, s.cursor + 1);
    }
}

/// A reader for a list of scatter gather buffers.
pub struct SGReader<'a> {
    sc_list: Option<&'a [&'a [u8]]>,
    // the current slice that is used
    slice_cursor: usize,
    // the current offset within the slice
    slice_offset: usize,
}

impl<'a> View for SGReader<'a> {
    type V = ReaderState;

    closed spec fn view(&self) -> ReaderState {
        match self.sc_list {
            Some(list) => ReaderState {
                frags: fragment_views(list@),
                cursor: self.slice_cursor as int,
                offset: self.slice_offset as int,
            },
            None => ReaderState::done(),
        }
    }
}

impl<'a> SGReader<'a> {
    #[verifier::type_invariant]
    closed spec fn inv(self) -> bool {
        match self.sc_list {
            Some(list) => self.slice_cursor < list@.len() && self.slice_offset
                <= list@[self.slice_cursor as int]@.len(),
            None => true,
        }
    }

    /// A reader at the front of `sc_list`.
    pub fn new(sc_list: &'a [&'a [u8]]) -> (r: Self)
        ensures
            r@ == ReaderState::start(fragment_views(sc_list@)),
            r@.wf(),
    {
        if sc_list.len() == 0 {
            assert(fragment_views(sc_list@) == Seq::<Seq<u8>>::empty());
            SGReader { sc_list: None, slice_cursor: 0, slice_offset: 0 }
        } else {
            SGReader { sc_list: Some(sc_list), slice_cursor: 0, slice_offset: 0 }
        }
    }

    /// Brings to the caller's knowledge that the state of a reader is well
    /// formed. It computes nothing.
    pub(crate) fn state_is_wf(&self)
        ensures
            self@.wf(),
    {
        proof {
            use_type_invariant(self);
        }
    }

    /// Moves bytes of the current fragment to the end of `out`, `want` at
    /// most, and moves on.
    fn pull(&mut self, out: &mut Vec<u8>, want: usize) -> (n: usize)
        ensures
            final(self)@ == old(self)@.advance(want as nat),
            n == old(self)@.amount(want as nat),
            final(out)@ == old(out)@ + old(self)@.delivered(want as nat),
    {
        proof {
            use_type_invariant(&*self);
        }
        let ghost before = self@;
        match self.sc_list {
            None => {
                assert(out@ == out@ + before.delivered(want as nat));
                return 0;
            },
            Some(list) => {
                let source_slice: &[u8] = list[self.slice_cursor];
                let num_slices = list.len();
                let source_slice_rem = source_slice.len() - self.slice_offset;
                let copy_length = if source_slice_rem <= want {
                    source_slice_rem
                } else {
                    want
                };
                assert(before.current() == source_slice@.skip(self.slice_offset as int));
                let mut i: usize = 0;
                while i < copy_length
                    invariant
                        i <= copy_length,
                        copy_length <= source_slice_rem,
                        source_slice_rem == source_slice@.len() - self.slice_offset,
                        source_slice@.len() <= usize::MAX,
                        out@ == old(out)@ + source_slice@.skip(self.slice_offset as int).take(i as int),
                    decreases copy_length - i,
                {
                    out.push(source_slice[self.slice_offset + i]);
                    assert(source_slice@.skip(self.slice_offset as int).take(i + 1) == source_slice@.skip(
                        self.slice_offset as int,
                    ).take(i as int).push(source_slice@[self.slice_offset + i]));
                    i += 1;
                }
                if copy_length == source_slice_rem {
                    if self.slice_cursor + 1 >= num_slices {
                        self.sc_list = None;
                        self.slice_cursor = 0;
                        self.slice_offset = 0;
                    } else {
                        self.slice_offset = 0;
                        self.slice_cursor += 1;
                    }
                } else {
                    self.slice_offset += copy_length;
                }
                return copy_length;
            },
        }
    }

    /// Reads exactly `n` bytes, by as many reads as it takes. It fails where
    /// a read answers 0 before that: at the end of the list or at an empty
    /// fragment.
    pub fn read_exactly(&mut self, n: usize) -> (r: Option<Vec<u8>>)
        ensures
            r is Some <==> old(self)@.readable().len() >= n,
            r is Some ==> r->Some_0@ == old(self)@.readable().take(n as int),
            r is Some ==> final(self)@.readable() == old(self)@.readable().skip(n as int),
            final(self)@.wf(),
    {
        let ghost all = self@.readable();
        let mut out: Vec<u8> = Vec::new();
        proof {
            use_type_invariant(&*self);
            assert(all.take(0) == Seq::<u8>::empty());
            assert(all.skip(0) == all);
        }
        while out.len() < n
            invariant
                self@.wf(),
                all == old(self)@.readable(),
                out@.len() <= n,
                out@.len() <= all.len(),
                out@ == all.take(out@.len() as int),
                self@.readable() == all.skip(out@.len() as int),
            decreases n - out@.len(),
        {
            let ghost s = self@;
            let ghost had = out@;
            let want = n - out.len();
            proof {
                lemma_advance_readable(s, want as nat);
                lemma_advance(s, want as nat);
            }
            let got = self.pull(&mut out, want);
            if got == 0 {
                return None;
            }
            proof {
                assert(all.skip(had.len() as int) == s.delivered(want as nat) + self@.readable());
                assert(out@ == all.take(out@.len() as int)) by {
                    assert forall|j: int| 0 <= j < out@.len() implies out@[j] == all[j] by {
                        if j >= had.len() {
                            assert(all.skip(had.len() as int)[j - had.len()] == all[j]);
                        } else {
                            assert(had[j] == all.take(had.len() as int)[j]);
                        }
                    }
                }
                assert(self@.readable() == all.skip(out@.len() as int)) by {
                    assert(all.skip(had.len() as int).skip(got as int) == all.skip(out@.len() as int));
                    assert((s.delivered(want as nat) + self@.readable()).skip(got as int) == self@.readable());
                }
            }
        }
        assert(out@.len() == n);
        return Some(out);
    }

    /// Moves every byte that is left to the end of `out`.
    pub fn read_to_end(&mut self, out: &mut Vec<u8>)
        ensures
            final(out)@ == old(out)@ + old(self)@.remaining(),
            final(self)@ == ReaderState::done(),
    {
        let ghost all = self@.remaining();
        proof {
            use_type_invariant(&*self);
        }
        loop
            invariant
                self@.wf(),
                old(out)@ + all == out@ + self@.remaining(),
            ensures
                self@ == ReaderState::done(),
                out@ == old(out)@ + all,
            decreases self@.frags.len() - self@.cursor, self@.current().len(),
        {
            if self.sc_list.is_none() {
                assert(self@.remaining() == Seq::<u8>::empty());
                break;
            }
            let ghost s = self@;
            let ghost had = out@;
            proof {
                use_type_invariant(&*self);
                lemma_advance(s, usize::MAX as nat);
                let list = self.sc_list->Some_0;
                assert(list@[self.slice_cursor as int].len() == list@[self.slice_cursor as int]@.len());
                assert(s.current() == list@[self.slice_cursor as int]@.skip(self.slice_offset as int));
            }
            let got = self.pull(out, usize::MAX);
            proof {
                assert(s.amount(usize::MAX as nat) == s.current().len());
                assert(had + s.remaining() == (had + s.delivered(usize::MAX as nat)) + self@.remaining());
            }
        }
    }

    /// One read: copies what is left of the current fragment into the front
    /// of `buf`, as far as `buf` has room, and answers the number of bytes
    /// copied. It answers 0 once all fragments are exhausted.
    pub fn read(&mut self, buf: &mut [u8]) -> (r: std::io::Result<usize>)
        ensures
            r is Ok,
            r->Ok_0 == old(self)@.amount(old(buf)@.len()),
            final(self)@ == old(self)@.advance(old(buf)@.len()),
            final(self)@.wf(),
            final(buf)@ == old(self)@.delivered(old(buf)@.len()) + old(buf)@.skip(r->Ok_0 as int),
            old(self)@.remaining() == old(self)@.delivered(old(buf)@.len()) + final(self)@.remaining(),
    {
        proof {
            use_type_invariant(&*self);
            lemma_advance(self@, buf@.len());
        }
        let ghost before = self@;
        let ghost want = buf@.len();
        let read_buf_len = buf.len();
        match self.sc_list {
            None => {
                // No more data
                assert(buf@ == before.delivered(want) + buf@.skip(0));
                return Ok(0);
            },
            Some(list) => {
                let source_slice: &[u8] = list[self.slice_cursor];
                let num_slices = list.len();
                let source_slice_rem = source_slice.len() - self.slice_offset;
                let copy_length = if source_slice_rem <= read_buf_len {
                    source_slice_rem
                } else {
                    read_buf_len
                };
                assert(before.current() == source_slice@.skip(self.slice_offset as int));
                // copy the bytes, lengths have to be the same
                let mut i: usize = 0;
                while i < copy_length
                    invariant
                        i <= copy_length,
                        copy_length <= source_slice_rem,
                        source_slice_rem == source_slice@.len() - self.slice_offset,
                        copy_length <= buf@.len(),
                        buf@.len() == old(buf)@.len(),
                        source_slice@.len() <= usize::MAX,
                        buf@.skip(copy_length as int) == old(buf)@.skip(copy_length as int),
                        forall|j: int| 0 <= j < i ==> #[trigger] buf@[j] == source_slice@[self.slice_offset + j],
                    decreases copy_length - i,
                {
                    let ghost prev = buf@;
                    buf[i] = source_slice[self.slice_offset + i];
                    assert(buf@.skip(copy_length as int) == prev.skip(copy_length as int));
                    i += 1;
                }
                assert(buf@ == before.delivered(want) + old(buf)@.skip(copy_length as int)) by {
                    let glued = before.delivered(want) + old(buf)@.skip(copy_length as int);
                    assert(glued.len() == buf@.len());
                    assert forall|j: int| 0 <= j < buf@.len() implies buf@[j] == glued[j] by {
                        if j < copy_length {
                            assert(buf@[j] == source_slice@[self.slice_offset + j]);
                        } else {
                            assert(buf@[j] == buf@.skip(copy_length as int)[j - copy_length]);
                        }
                    }
                }
                if copy_length == source_slice_rem {
                    // we have completed this slice. move to the next
                    if self.slice_cursor + 1 >= num_slices {
                        // no more slices, invalidate the sc_list
                        self.sc_list = None;
                        self.slice_cursor = 0;
                        self.slice_offset = 0;
                    } else {
                        self.slice_offset = 0;
                        self.slice_cursor += 1;
                    }
                } else {
                    // we have not completed the current slice, just bump up the slice offset
                    self.slice_offset += copy_length;
                }
                return Ok(copy_length);
            },
        }
    }
}

} // verus!
