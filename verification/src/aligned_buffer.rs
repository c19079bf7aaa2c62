//! A byte buffer whose capacity is a multiple of an alignment, used to
//! collect writes before they go to a direct-I/O file.
use vstd::prelude::*;
use vstd::arithmetic::power2::pow2;

verus! {

/// Whether `a` is a power of two.
pub open spec fn is_pow2(a: usize) -> bool {
    exists|n: nat| n < usize::BITS && a as nat == pow2(n)
}

/// `x` rounded up to a multiple of `y`.
pub open spec fn round_up_spec(x: int, y: int) -> int {
    ((x + (y - 1)) / y) * y
}

/// `n` copies of the byte `b`.
pub open spec fn repeat_byte(b: u8, n: nat) -> Seq<u8> {
    Seq::new(n, |i: int| b)
}

proof fn lemma_mask_is_mod(s: usize, p: usize)
    requires
        is_pow2(p),
    ensures
        p > 0,
        s & ((p - 1) as usize) == s % p,
        s & ((p - 1) as usize) <= s,
{
    let n = choose|n: nat| n < usize::BITS && p as nat == pow2(n);
    vstd::arithmetic::power2::lemma_pow2_pos(n);
    vstd::bits::lemma_usize_low_bits_mask_is_mod(s, n);
    assert(s & ((p - 1) as usize) <= s) by (bit_vector);
}

/// Rounding up to a multiple of `y` adds less than `y` and gives a
/// multiple of `y`.
pub proof fn lemma_round_up_bounds(x: int, y: int)
    requires
        x >= 0,
        y > 0,
    ensures
        x <= round_up_spec(x, y) <= x + y - 1,
        round_up_spec(x, y) % y == 0,
{
    let a = x + y - 1;
    let q = a / y;
    vstd::arithmetic::div_mod::lemma_fundamental_div_mod(a, y);
    vstd::arithmetic::div_mod::lemma_mod_bound(a, y);
    assert(q * y == y * q) by (nonlinear_arith);
    vstd::arithmetic::div_mod::lemma_mod_multiples_basic(q, y);
}

/// Rounding up to a multiple of `y` does not pass a multiple of `y` that
/// is at least `x`.
pub proof fn lemma_round_up_le_multiple(x: int, c: int, y: int)
    requires
        0 <= x <= c,
        y > 0,
        c % y == 0,
    ensures
        round_up_spec(x, y) <= c,
{
    lemma_round_up_bounds(x, y);
    let r = round_up_spec(x, y);
    vstd::arithmetic::div_mod::lemma_fundamental_div_mod(r, y);
    vstd::arithmetic::div_mod::lemma_fundamental_div_mod(c, y);
    let q1 = r / y;
    let q2 = c / y;
    if r > c {
        assert(q1 > q2) by (nonlinear_arith)
            requires
                r == y * q1,
                c == y * q2,
                r > c,
                y > 0,
        ;
        assert(r >= c + y) by (nonlinear_arith)
            requires
                r == y * q1,
                c == y * q2,
                q1 >= q2 + 1,
                y > 0,
        ;
    }
}

/// `s` with its low bits below `page_size` cleared: for a power of two,
/// `s` with its offset within a page dropped. The result has to be a
/// multiple of `page_size`.
pub fn truncate_to_page_boundary(page_size: usize, s: usize) -> (r: usize)
    requires
        page_size > 0,
        (s - (s & ((page_size - 1) as usize))) % (page_size as int) == 0,
    ensures
        r == s - (s & ((page_size - 1) as usize)),
        r % page_size == 0,
        is_pow2(page_size) ==> r == s - s % page_size,
{
    proof {
        assert(s & ((page_size - 1) as usize) <= s) by (bit_vector);
        if is_pow2(page_size) {
            lemma_mask_is_mod(s, page_size);
        }
    }
    s - (s & (page_size - 1))
}

/// With a page size that is a power of two, clearing the low bits leaves a
/// multiple of the page size.
pub proof fn lemma_truncate_pow2(page_size: usize, s: usize)
    requires
        is_pow2(page_size),
    ensures
        page_size > 0,
        s & ((page_size - 1) as usize) == s % page_size,
        (s - (s & ((page_size - 1) as usize))) % (page_size as int) == 0,
{
    lemma_mask_is_mod(s, page_size);
    vstd::arithmetic::div_mod::lemma_fundamental_div_mod(s as int, page_size as int);
    vstd::arithmetic::div_mod::lemma_mod_multiples_basic(s as int / page_size as int, page_size as int);
    assert((s as int / page_size as int) * page_size as int == page_size as int * (s as int
        / page_size as int)) by (nonlinear_arith);
}

/// `x` rounded up to a multiple of `y`.
pub fn round_up(x: usize, y: usize) -> (r: usize)
    requires
        y > 0,
        x + y - 1 <= usize::MAX,
    ensures
        r == round_up_spec(x as int, y as int),
        x <= r <= x + y - 1,
        r % y == 0,
{
    proof {
        lemma_round_up_bounds(x as int, y as int);
    }
    ((x + (y - 1)) / y) * y
}

/// `x` rounded down to a multiple of `y`.
pub fn Rounddown(x: usize, y: usize) -> (r: usize)
    requires
        y > 0,
    ensures
        r == (x as int / y as int) * y as int,
        r <= x,
        r % y == 0,
{
    proof {
        vstd::arithmetic::div_mod::lemma_fundamental_div_mod(x as int, y as int);
        vstd::arithmetic::div_mod::lemma_mod_multiples_basic(x as int / y as int, y as int);
        assert((x as int / y as int) * y as int == y as int * (x as int / y as int)) by (nonlinear_arith);
    }
    (x / y) * y
}

/// `n` zero bytes.
pub fn zeroed(n: usize) -> (v: Vec<u8>)
    ensures
        v@ == repeat_byte(0, n as nat),
{
    let mut v: Vec<u8> = Vec::new();
    let mut i: usize = 0;
    while i < n
        invariant
            i <= n,
            v@ == repeat_byte(0, i as nat),
        decreases n - i,
    {
        v.push(0);
        i = i + 1;
        assert(v@ =~= repeat_byte(0, i as nat));
    }
    v
}

/// A buffer of `capacity` bytes of which the first `current size` hold data,
/// with the alignment its capacity is rounded to.
#[derive(Debug)]
pub struct AlignedBuffer {
    alignment_: usize,
    buf_: Vec<u8>,
    capacity_: usize,
    cursize_: usize,
}

impl Default for AlignedBuffer {
    /// An empty buffer with no storage and alignment 0.
    fn default() -> (r: AlignedBuffer)
        ensures
            r.wf(),
            r.align() == 0,
            r.cap() == 0,
            r.cur() == 0,
            r.storage() == Seq::<u8>::empty(),
    {
        AlignedBuffer { alignment_: 0, buf_: Vec::new(), capacity_: 0, cursize_: 0 }
    }
}

impl AlignedBuffer {
    /// The storage holds exactly `capacity` bytes and the data fits in it.
    pub closed spec fn wf(&self) -> bool {
        &&& self.buf_@.len() == self.capacity_
        &&& self.cursize_ <= self.capacity_
    }

    /// Facts of a well-formed buffer.
    pub proof fn lemma_wf(&self)
        requires
            self.wf(),
        ensures
            self.storage().len() == self.cap(),
            self.cur() <= self.cap(),
    {
    }

    /// The alignment that capacities are rounded to.
    pub closed spec fn align(&self) -> usize {
        self.alignment_
    }

    /// The capacity.
    pub closed spec fn cap(&self) -> usize {
        self.capacity_
    }

    /// The number of bytes of data.
    pub closed spec fn cur(&self) -> usize {
        self.cursize_
    }

    /// All `capacity` bytes of storage.
    pub closed spec fn storage(&self) -> Seq<u8> {
        self.buf_@
    }

    /// The data: the first `current size` bytes of storage.
    pub open spec fn contents(&self) -> Seq<u8> {
        self.storage().subrange(0, self.cur() as int)
    }

    /// What reading `size` bytes from `offset` gives: the data from
    /// `offset` on, as far as there is data, then zeros.
    pub open spec fn read_view(&self, offset: int, size: nat) -> Seq<u8> {
        Seq::new(
            size,
            |i: int|
                if offset + i < self.cur() {
                    self.storage()[offset + i]
                } else {
                    0u8
                },
        )
    }

    /// `after` is this buffer after copying in as much of `src` as fits
    /// after the data, `n` bytes.
    pub open spec fn appended_to(&self, src: Seq<u8>, after: AlignedBuffer, n: nat) -> bool {
        &&& n == if src.len() < self.cap() - self.cur() {
            src.len() as int
        } else {
            self.cap() - self.cur()
        }
        &&& after.cur() == self.cur() + n
        &&& after.storage() == self.contents() + src.subrange(0, n as int)
            + self.storage().subrange(after.cur() as int, self.cap() as int)
        &&& after.cap() == self.cap()
        &&& after.align() == self.align()
    }

    /// The alignment.
    pub fn get_alignment(&self) -> (r: usize)
        requires
            self.wf(),
        ensures
            r == self.align(),
    {
        self.alignment_
    }

    /// The capacity.
    pub fn get_capacity(&self) -> (r: usize)
        requires
            self.wf(),
        ensures
            r == self.cap(),
    {
        self.capacity_
    }

    /// The number of bytes of data.
    pub fn get_current_size(&self) -> (r: usize)
        requires
            self.wf(),
        ensures
            r == self.cur(),
    {
        self.cursize_
    }

    /// Sets the alignment.
    pub fn alignment(&mut self, alignment: usize)
        requires
            old(self).wf(),
        ensures
            final(self).wf(),
            final(self).align() == alignment,
            final(self).cap() == old(self).cap(),
            final(self).cur() == old(self).cur(),
            final(self).storage() == old(self).storage(),
    {
        self.alignment_ = alignment;
    }

    /// Replaces the storage by zeroed storage of `requested_capacity` rounded
    /// up to the alignment. With `copy_data` the data is kept (and a request
    /// smaller than the data is ignored); without it the buffer is emptied.
    pub fn allocate_new_buffer(&mut self, requested_cacacity: usize, copy_data: bool)
        requires
            old(self).wf(),
            is_pow2(old(self).align()),
            requested_cacacity + old(self).align() - 1 <= usize::MAX,
        ensures
            final(self).wf(),
            final(self).align() == old(self).align(),
            copy_data && requested_cacacity < old(self).cur() ==> *final(self) == *old(self),
            !(copy_data && requested_cacacity < old(self).cur()) ==> {
                &&& final(self).cap() == round_up_spec(
                    requested_cacacity as int,
                    old(self).align() as int,
                )
                &&& final(self).cap() % final(self).align() == 0
                &&& final(self).cap() >= requested_cacacity
                &&& copy_data ==> final(self).cur() == old(self).cur() && final(self).storage()
                    == old(self).contents() + repeat_byte(
                    0,
                    (final(self).cap() - old(self).cur()) as nat,
                )
                &&& !copy_data ==> final(self).cur() == 0 && final(self).storage() == repeat_byte(
                    0,
                    final(self).cap() as nat,
                )
            },
            old(self).cap() % old(self).align() == 0 ==> final(self).cap() % final(self).align() == 0,
    {
        if copy_data && requested_cacacity < self.cursize_ {
            return ;
        }
        proof {
            lemma_mask_is_mod(0, self.alignment_);
        }
        let new_capacity = round_up(requested_cacacity, self.alignment_);
        let mut new_buf = zeroed(new_capacity);
        let ghost old_contents = self.buf_@.subrange(0, self.cursize_ as int);
        if copy_data {
            let mut i: usize = 0;
            while i < self.cursize_
                invariant
                    i <= self.cursize_,
                    self.cursize_ <= self.buf_@.len(),
                    self.cursize_ <= new_capacity,
                    old_contents == self.buf_@.subrange(0, self.cursize_ as int),
                    new_buf@.len() == new_capacity,
                    new_buf@ == old_contents.subrange(0, i as int) + repeat_byte(
                        0,
                        (new_capacity - i) as nat,
                    ),
                decreases self.cursize_ - i,
            {
                new_buf.set(i, self.buf_[i]);
                i = i + 1;
                assert(new_buf@ =~= old_contents.subrange(0, i as int) + repeat_byte(
                    0,
                    (new_capacity - i) as nat,
                ));
            }
            assert(old_contents.subrange(0, self.cursize_ as int) =~= old_contents);
            self.buf_ = new_buf;
            self.capacity_ = new_capacity;
        } else {
            self.buf_ = new_buf;
            self.capacity_ = new_capacity;
            self.cursize_ = 0;
        }
    }

    /// Copies as much of `src` as fits after the data, into a buffer that
    /// is not full, and returns how many bytes were copied.
    pub fn append(&mut self, src: Vec<u8>) -> (r: usize)
        requires
            old(self).wf(),
            old(self).cur() < old(self).cap(),
        ensures
            final(self).wf(),
            old(self).appended_to(src@, *final(self), r as nat),
            old(self).cap() % old(self).align() == 0 ==> final(self).cap() % final(self).align() == 0,
    {
        let append_size = src.len();
        let buffer_remaining = self.capacity_ - self.cursize_;
        let to_copy = if append_size < buffer_remaining {
            append_size
        } else {
            buffer_remaining
        };
        let ghost old_buf = self.buf_@;
        let ghost start = self.cursize_ as int;
        let mut i: usize = 0;
        while i < to_copy
            invariant
                i <= to_copy,
                start + to_copy <= old_buf.len(),
                to_copy <= src@.len(),
                self.cursize_ == start,
                self.capacity_ == old_buf.len(),
                self.alignment_ == old(self).alignment_,
                self.buf_@ == old_buf.subrange(0, start) + src@.subrange(0, i as int)
                    + old_buf.subrange(start + i, old_buf.len() as int),
            decreases to_copy - i,
        {
            self.buf_.set(self.cursize_ + i, src[i]);
            i = i + 1;
            assert(self.buf_@ =~= old_buf.subrange(0, start) + src@.subrange(0, i as int)
                + old_buf.subrange(start + i, old_buf.len() as int));
        }
        self.cursize_ = self.cursize_ + to_copy;
        to_copy
    }

    /// `read_size` bytes: the data from `offset` on, as far as there is data,
    /// then zeros.
    pub fn read(&mut self, offset: usize, read_size: usize) -> (r: Vec<u8>)
        requires
            old(self).wf(),
        ensures
            final(self).wf(),
            *final(self) == *old(self),
            r@ == old(self).read_view(offset as int, read_size as nat),
            r@.len() == read_size,
            ({
                let n: int = if offset < old(self).cur() {
                    if old(self).cur() - offset < read_size {
                        old(self).cur() - offset
                    } else {
                        read_size as int
                    }
                } else {
                    0
                };
                &&& forall|i: int| 0 <= i < n ==> r@[i] == old(self).storage()[offset + i]
                &&& forall|i: int| n <= i < read_size ==> r@[i] == 0
            }),
            old(self).cap() % old(self).align() == 0 ==> final(self).cap() % final(self).align() == 0,
    {
        let mut result = zeroed(read_size);
        let mut to_read: usize = 0;
        if offset < self.cursize_ {
            to_read = if self.cursize_ - offset < read_size {
                self.cursize_ - offset
            } else {
                read_size
            };
        }
        let mut i: usize = 0;
        while i < to_read
            invariant
                i <= to_read,
                to_read <= read_size,
                to_read > 0 ==> offset + to_read <= self.buf_@.len(),
                self.buf_@.len() == self.capacity_,
                result@.len() == read_size,
                forall|k: int| 0 <= k < i ==> result@[k] == self.buf_@[offset + k],
                forall|k: int| i <= k < read_size ==> result@[k] == 0,
            decreases to_read - i,
        {
            result.set(i, self.buf_[offset + i]);
            i = i + 1;
        }
        assert(result@ =~= self.read_view(offset as int, read_size as nat));
        result
    }

    fn fill(&mut self, pad_size: usize, padding: u8)
        requires
            old(self).wf(),
            old(self).cur() + pad_size <= old(self).cap(),
        ensures
            final(self).wf(),
            final(self).cur() == old(self).cur() + pad_size,
            final(self).storage() == old(self).contents() + repeat_byte(padding, pad_size as nat)
                + old(self).storage().subrange(final(self).cur() as int, old(self).cap() as int),
            final(self).cap() == old(self).cap(),
            final(self).align() == old(self).align(),
    {
        let ghost old_buf = self.buf_@;
        let ghost start = self.cursize_ as int;
        let mut i: usize = 0;
        while i < pad_size
            invariant
                i <= pad_size,
                start + pad_size <= old_buf.len(),
                self.cursize_ == start,
                self.capacity_ == old_buf.len(),
                self.alignment_ == old(self).alignment_,
                self.buf_@ == old_buf.subrange(0, start) + repeat_byte(padding, i as nat)
                    + old_buf.subrange(start + i, old_buf.len() as int),
            decreases pad_size - i,
        {
            self.buf_.set(self.cursize_ + i, padding);
            i = i + 1;
            assert(self.buf_@ =~= old_buf.subrange(0, start) + repeat_byte(padding, i as nat)
                + old_buf.subrange(start + i, old_buf.len() as int));
        }
        self.cursize_ = self.cursize_ + pad_size;
    }

    /// Pads the data with `padding` up to the next multiple of the alignment.
    pub fn pad_to_aligment_with(&mut self, padding: u8)
        requires
            old(self).wf(),
            old(self).align() > 0,
            old(self).cur() + old(self).align() - 1 <= usize::MAX,
            round_up_spec(old(self).cur() as int, old(self).align() as int) <= old(self).cap(),
        ensures
            final(self).wf(),
            final(self).cur() == round_up_spec(old(self).cur() as int, old(self).align() as int),
            final(self).storage() == old(self).contents() + repeat_byte(
                padding,
                (final(self).cur() - old(self).cur()) as nat,
            ) + old(self).storage().subrange(final(self).cur() as int, old(self).cap() as int),
            final(self).cap() == old(self).cap(),
            final(self).align() == old(self).align(),
            old(self).cap() % old(self).align() == 0 ==> final(self).cap() % final(self).align() == 0,
    {
        let total_size = round_up(self.cursize_, self.alignment_);
        let pad_size = total_size - self.cursize_;
        if pad_size > 0 {
            self.fill(pad_size, padding);
        } else {
            assert(self.buf_@ =~= self.buf_@.subrange(0, self.cursize_ as int) + repeat_byte(
                padding,
                0,
            ) + self.buf_@.subrange(self.cursize_ as int, self.capacity_ as int));
        }
    }

    /// Appends `pad_size` copies of `padding` to the data.
    pub fn pad_with(&mut self, pad_size: usize, padding: u8)
        requires
            old(self).wf(),
            old(self).cur() + pad_size <= old(self).cap(),
        ensures
            final(self).wf(),
            final(self).cur() == old(self).cur() + pad_size,
            final(self).storage() == old(self).contents() + repeat_byte(padding, pad_size as nat)
                + old(self).storage().subrange(final(self).cur() as int, old(self).cap() as int),
            final(self).cap() == old(self).cap(),
            final(self).align() == old(self).align(),
            old(self).cap() % old(self).align() == 0 ==> final(self).cap() % final(self).align() == 0,
    {
        self.fill(pad_size, padding);
    }

    /// After a partial flush, moves the `tail_size` bytes at `tail_offset`
    /// to the start of the buffer; they become the data.
    pub fn refit_tail(&mut self, tail_offset: usize, tail_size: usize)
        requires
            old(self).wf(),
            tail_offset + tail_size <= old(self).cap(),
        ensures
            final(self).wf(),
            final(self).cur() == tail_size,
            final(self).storage() == old(self).storage().subrange(
                tail_offset as int,
                tail_offset + tail_size,
            ) + old(self).storage().subrange(tail_size as int, old(self).cap() as int),
            final(self).cap() == old(self).cap(),
            final(self).align() == old(self).align(),
            old(self).cap() % old(self).align() == 0 ==> final(self).cap() % final(self).align() == 0,
    {
        let ghost old_buf = self.buf_@;
        let mut i: usize = 0;
        while i < tail_size
            invariant
                i <= tail_size,
                tail_offset + tail_size <= old_buf.len(),
                self.capacity_ == old_buf.len(),
                self.cursize_ <= self.capacity_,
                self.alignment_ == old(self).alignment_,
                self.buf_@.len() == old_buf.len(),
                forall|k: int| 0 <= k < i ==> self.buf_@[k] == old_buf[tail_offset + k],
                forall|k: int| i <= k < old_buf.len() ==> self.buf_@[k] == old_buf[k],
            decreases tail_size - i,
        {
            let b = self.buf_[tail_offset + i];
            self.buf_.set(i, b);
            i = i + 1;
        }
        self.cursize_ = tail_size;
        assert(self.buf_@ =~= old_buf.subrange(tail_offset as int, tail_offset + tail_size)
            + old_buf.subrange(tail_size as int, old_buf.len() as int));
    }

    /// Sets the number of bytes of data.
    pub fn size(&mut self, cursize: usize)
        requires
            old(self).wf(),
            cursize <= old(self).cap(),
        ensures
            final(self).wf(),
            final(self).cur() == cursize,
            final(self).cap() == old(self).cap(),
            final(self).align() == old(self).align(),
            final(self).storage() == old(self).storage(),
            old(self).cap() % old(self).align() == 0 ==> final(self).cap() % final(self).align() == 0,
    {
        self.cursize_ = cursize;
    }
}

/// A read gives back what an append wrote: after appending `src` to a
/// buffer, reading the copied bytes from where its data ended gives the
/// copied prefix of `src`, and reading the data it held before gives that
/// data unchanged.
pub proof fn lemma_read_after_append(before: AlignedBuffer, src: Seq<u8>, after: AlignedBuffer, n: nat)
    requires
        before.wf(),
        before.appended_to(src, after, n),
    ensures
        after.read_view(before.cur() as int, n) == src.subrange(0, n as int),
        after.read_view(0, before.cur() as nat) == before.contents(),
{
    before.lemma_wf();
    assert(after.read_view(before.cur() as int, n) =~= src.subrange(0, n as int));
    assert(after.read_view(0, before.cur() as nat) =~= before.contents());
}

} // verus!
