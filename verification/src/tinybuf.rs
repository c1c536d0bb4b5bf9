//! A small byte queue over a fixed array: bytes are appended at the back, consumed at the front,
//! and searched in between.

use vstd::prelude::*;
use vstd::slice::slice_subrange;

verus! {

/// The smaller of two naturals.
pub open spec fn min_nat(a: nat, b: nat) -> nat {
    if a <= b {
        a
    } else {
        b
    }
}

/// The larger of two naturals.
pub open spec fn max_nat(a: nat, b: nat) -> nat {
    if a >= b {
        a
    } else {
        b
    }
}

/// How many of the `held` oldest bytes a push of `incoming` bytes gives up in a queue of
/// `capacity` bytes: none while the data fits, otherwise at least half the capacity, so that
/// small pushes do not shift the array every time.
pub open spec fn evicted(held: nat, incoming: nat, capacity: nat) -> nat {
    if held + incoming <= capacity {
        0
    } else {
        min_nat(max_nat(incoming, capacity / 2), held)
    }
}

/// The queue that a push of `data` onto `contents` leaves, for data that fits the capacity.
pub open spec fn pushed(contents: Seq<u8>, data: Seq<u8>, capacity: nat) -> Seq<u8> {
    contents.skip(evicted(contents.len(), data.len(), capacity) as int) + data
}

/// The queue that consuming `n` bytes leaves.
pub open spec fn advanced(contents: Seq<u8>, n: nat) -> Seq<u8> {
    contents.skip(min_nat(n, contents.len()) as int)
}

/// The array after its cells from `n` on have moved to the front; the last `n` cells stay.
pub open spec fn shifted(cells: Seq<u8>, n: nat) -> Seq<u8> {
    Seq::new(
        cells.len(),
        |i: int|
            if i + n < cells.len() {
                cells[i + n]
            } else {
                cells[i]
            },
    )
}

/// The array with `data` written over its cells from `at` on.
pub open spec fn overwritten(cells: Seq<u8>, at: nat, data: Seq<u8>) -> Seq<u8> {
    Seq::new(
        cells.len(),
        |i: int|
            if at <= i < at + data.len() {
                data[i - at]
            } else {
                cells[i]
            },
    )
}

/// `needle` stands in `haystack` at position `i`.
pub open spec fn occurs_at(haystack: Seq<u8>, needle: Seq<u8>, i: int) -> bool {
    &&& 0 <= i
    &&& i + needle.len() <= haystack.len()
    &&& haystack.subrange(i, i + needle.len()) == needle
}

/// `i` is the first position at which `needle` stands in `haystack`.
pub open spec fn first_at(haystack: Seq<u8>, needle: Seq<u8>, i: int) -> bool {
    &&& occurs_at(haystack, needle, i)
    &&& forall|j: int| 0 <= j < i ==> !occurs_at(haystack, needle, j)
}

/// The first position of `needle` in `haystack`, if it stands there at all.
pub open spec fn first_position(haystack: Seq<u8>, needle: Seq<u8>) -> Option<nat> {
    if exists|i: int| first_at(haystack, needle, i) {
        Some((choose|i: int| first_at(haystack, needle, i)) as nat)
    } else {
        None
    }
}

/// A first position pins down `first_position`.
pub proof fn lemma_first_position(haystack: Seq<u8>, needle: Seq<u8>, i: int)
    requires
        first_at(haystack, needle, i),
    ensures
        first_position(haystack, needle) == Some(i as nat),
{
    let k = choose|k: int| first_at(haystack, needle, k);
    assert(first_at(haystack, needle, k));
    if k < i {
        assert(!occurs_at(haystack, needle, k));
    }
    if i < k {
        assert(!occurs_at(haystack, needle, i));
    }
}

/// `first_position` is `None` exactly when there is no position at all.
pub proof fn lemma_no_position(haystack: Seq<u8>, needle: Seq<u8>)
    ensures
        first_position(haystack, needle) is None <==> (forall|i: int|
            !occurs_at(haystack, needle, i)),
{
    if exists|i: int| occurs_at(haystack, needle, i) {
        let i = choose|i: int| occurs_at(haystack, needle, i);
        let first = lemma_least_occurrence(haystack, needle, i);
        assert(first_at(haystack, needle, first));
    }
}

/// Below every position there is a first one.
proof fn lemma_least_occurrence(haystack: Seq<u8>, needle: Seq<u8>, i: int) -> (first: int)
    requires
        occurs_at(haystack, needle, i),
    ensures
        first_at(haystack, needle, first),
    decreases i,
{
    if exists|j: int| 0 <= j < i && occurs_at(haystack, needle, j) {
        let j = choose|j: int| 0 <= j < i && occurs_at(haystack, needle, j);
        lemma_least_occurrence(haystack, needle, j)
    } else {
        i
    }
}

/// A byte queue of fixed capacity `N`. Its view is the sequence of bytes it holds, oldest first.
#[derive(Debug)]
pub struct Buffer<const N: usize> {
    buf: [u8; N],
    len: usize,
}

/// Why a push was refused.
#[derive(Debug, PartialEq)]
pub enum BufferError {
    /// The data is longer than the whole buffer.
    Overflow,
}

impl<const N: usize> View for Buffer<N> {
    type V = Seq<u8>;

    closed spec fn view(&self) -> Seq<u8> {
        self.buf@.take(self.len as int)
    }
}

impl<const N: usize> Buffer<N> {
    #[verifier::type_invariant]
    closed spec fn inv(self) -> bool {
        self.len <= N
    }

    /// All `N` cells of the array, those behind the held bytes included.
    pub closed spec fn cells(&self) -> Seq<u8> {
        self.buf@
    }

    /// An empty buffer, all cells zero.
    pub fn new() -> (result: Self)
        ensures
            result@ == Seq::<u8>::empty(),
            result.cells() == Seq::new(N as nat, |i: int| 0u8),
    {
        Self { buf: [0u8; N], len: 0 }
    }

    /// Appends `data`. Where it does not fit behind the bytes held, the oldest bytes go first;
    /// data longer than the whole buffer is refused and nothing changes.
    pub fn push(&mut self, data: &[u8]) -> (result: Result<(), BufferError>)
        ensures
            data@.len() > N ==> {
                &&& result == Err::<(), BufferError>(BufferError::Overflow)
                &&& *final(self) == *old(self)
            },
            data@.len() <= N ==> {
                let gone = evicted(old(self)@.len(), data@.len(), N as nat);
                &&& result == Ok::<(), BufferError>(())
                &&& final(self)@ == pushed(old(self)@, data@, N as nat)
                &&& final(self).cells() == overwritten(
                    shifted(old(self).cells(), gone),
                    (old(self)@.len() - gone) as nat,
                    data@,
                )
            },
            old(self)@.len() + data@.len() <= N ==> final(self)@ == old(self)@ + data@,
            data@.len() <= N < old(self)@.len() + data@.len() ==> {
                let wanted = if data@.len() >= N / 2 {
                    data@.len() as int
                } else {
                    N as int / 2
                };
                &&& wanted >= old(self)@.len() ==> final(self)@ == data@
                &&& wanted < old(self)@.len() ==> final(self)@ == old(self)@.skip(wanted) + data@
            },
            final(self)@.len() <= N,
            final(self).cells().take(final(self)@.len() as int) == final(self)@,
    {
        proof {
            use_type_invariant(&*self);
        }
        if data.len() > N {
            return Err(BufferError::Overflow);
        }
        if data.len() > self.available() {
            let half: usize = N / 2;
            let n: usize = if data.len() >= half {
                data.len()
            } else {
                half
            };
            self.advance(n);
        } else {
            assert(shifted(self.buf@, 0) =~= self.buf@);
        }
        proof {
            use_type_invariant(&*self);
        }
        let ghost start = *self;
        assert(start.len == start@.len() && old(self).len == old(self)@.len());
        let count: usize = data.len();
        let mut i: usize = 0;
        while i < count
            invariant
                count == data@.len(),
                i <= count,
                start.len + count <= N,
                self.len == start.len,
                forall|j: int|
                    0 <= j < N ==> self.buf@[j] == if start.len <= j < start.len + i {
                        data@[j - start.len]
                    } else {
                        start.buf@[j]
                    },
            decreases count - i,
        {
            self.buf[self.len + i] = data[i];
            i += 1;
        }
        self.len = self.len + count;
        proof {
            let gone = evicted(old(self)@.len(), data@.len(), N as nat);
            assert(start.buf@ == shifted(old(self).buf@, gone));
            assert(self.buf@ =~= overwritten(start.buf@, start.len as nat, data@));
            assert(self@ =~= pushed(old(self)@, data@, N as nat));
            if gone == 0 {
                assert(self@ =~= old(self)@ + data@);
            }
            if gone == old(self)@.len() {
                assert(self@ =~= data@);
            }
        }
        Ok(())
    }

    /// The number of bytes held.
    pub fn len(&self) -> (result: usize)
        ensures
            result == self@.len(),
            result <= N,
    {
        proof {
            use_type_invariant(self);
        }
        self.len
    }

    /// The number of bytes that still fit without giving up old ones.
    pub fn available(&self) -> (result: usize)
        ensures
            result == N - self@.len(),
    {
        proof {
            use_type_invariant(self);
        }
        N - self.len
    }

    /// Empties the buffer and zeroes every cell.
    pub fn clear(&mut self)
        ensures
            final(self)@ == Seq::<u8>::empty(),
            final(self).cells() == Seq::new(N as nat, |i: int| 0u8),
    {
        self.len = 0;
        self.buf = [0u8; N];
    }

    /// Consumes the `n` oldest bytes, or all of them when fewer are held.
    pub fn advance(&mut self, n: usize)
        ensures
            final(self)@ == advanced(old(self)@, n as nat),
            n <= old(self)@.len() ==> final(self)@ == old(self)@.skip(n as int),
            n > old(self)@.len() ==> final(self)@.len() == 0,
            final(self).cells().len() == N,
            forall|i: int|
                0 <= i < N ==> #[trigger] final(self).cells()[i] == old(self).cells()[if i + n < N
                    && n <= old(self)@.len() {
                    i + n
                } else if n > old(self)@.len() && i + old(self)@.len() < N {
                    i + old(self)@.len()
                } else {
                    i
                }],
            final(self).cells() == shifted(old(self).cells(), min_nat(n as nat, old(self)@.len())),
    {
        proof {
            use_type_invariant(&*self);
        }
        let n: usize = if n <= self.len {
            n
        } else {
            self.len
        };
        let mut i: usize = 0;
        while i < N - n
            invariant
                n <= old(self).len <= N,
                i <= N - n,
                self.len == old(self).len,
                forall|j: int| 0 <= j < i ==> self.buf@[j] == old(self).buf@[j + n],
                forall|j: int| i <= j < N ==> self.buf@[j] == old(self).buf@[j],
            decreases N - n - i,
        {
            self.buf[i] = self.buf[i + n];
            i += 1;
        }
        self.len = self.len - n;
        assert(self.buf@ =~= shifted(old(self).buf@, n as nat));
        assert(self@ =~= old(self)@.skip(n as int));
    }

    /// The first position of `needle` among the bytes held. The empty needle stands at the front
    /// of every buffer.
    pub fn find(&self, needle: &[u8]) -> (result: Option<usize>)
        ensures
            match result {
                Some(i) => first_at(self@, needle@, i as int),
                None => forall|i: int| !occurs_at(self@, needle@, i),
            },
            match result {
                Some(i) => first_position(self@, needle@) == Some(i as nat),
                None => first_position(self@, needle@) is None,
            },
            match result {
                Some(i) => {
                    &&& i + needle@.len() <= self@.len()
                    &&& self@.subrange(i as int, i + needle@.len()) == needle@
                    &&& forall|j: int|
                        0 <= j < i ==> #[trigger] self@.subrange(j, j + needle@.len()) != needle@
                },
                None => forall|j: int|
                    0 <= j && j + needle@.len() <= self@.len() ==> #[trigger] self@.subrange(
                        j,
                        j + needle@.len(),
                    ) != needle@,
            },
    {
        proof {
            use_type_invariant(self);
            lemma_no_position(self@, needle@);
        }
        if needle.is_empty() {
            assert(self@.subrange(0, 0) =~= needle@);
            proof {
                lemma_first_position(self@, needle@, 0);
            }
            return Some(0);
        }
        let size: usize = needle.len();
        let mut i: usize = 0;
        while i < self.len && size <= self.len - i
            invariant
                1 <= size == needle@.len(),
                i <= self.len <= N,
                forall|j: int| 0 <= j < i ==> !occurs_at(self@, needle@, j),
            decreases self.len - i,
        {
            if self.matches_at(needle, i) {
                proof {
                    lemma_first_position(self@, needle@, i as int);
                    assert forall|j: int| 0 <= j < i implies #[trigger] self@.subrange(
                        j,
                        j + needle@.len(),
                    ) != needle@ by {
                        assert(!occurs_at(self@, needle@, j));
                    }
                }
                return Some(i);
            }
            i += 1;
        }
        proof {
            assert forall|j: int|
                0 <= j && j + needle@.len() <= self@.len() implies #[trigger] self@.subrange(
                j,
                j + needle@.len(),
            ) != needle@ by {
                assert(!occurs_at(self@, needle@, j));
            }
        }
        None
    }

    /// Whether `needle` stands among the bytes held at position `at`.
    fn matches_at(&self, needle: &[u8], at: usize) -> (result: bool)
        requires
            at + needle@.len() <= self@.len(),
        ensures
            result <==> occurs_at(self@, needle@, at as int),
    {
        proof {
            use_type_invariant(self);
        }
        let size: usize = needle.len();
        let mut k: usize = 0;
        while k < size
            invariant
                size == needle@.len(),
                at + size <= self.len <= N,
                k <= size,
                forall|j: int| 0 <= j < k ==> self@[at + j] == needle@[j],
            decreases size - k,
        {
            if self.buf[at + k] != needle[k] {
                assert(self@.subrange(at as int, at + size)[k as int] != needle@[k as int]);
                return false;
            }
            k += 1;
        }
        assert(self@.subrange(at as int, at + size) =~= needle@);
        true
    }

    /// Copies the oldest bytes to the front of `dst`, as many as both have, and returns how many.
    /// Nothing is consumed.
    pub fn copy_to(&self, dst: &mut [u8]) -> (result: usize)
        ensures
            result == min_nat(self@.len(), old(dst)@.len()),
            final(dst)@ == self@.take(result as int) + old(dst)@.skip(result as int),
            result == if self@.len() <= old(dst)@.len() {
                self@.len()
            } else {
                old(dst)@.len()
            },
    {
        proof {
            use_type_invariant(self);
        }
        let n: usize = if self.len <= dst.len() {
            self.len
        } else {
            dst.len()
        };
        let ghost before = dst@;
        let mut i: usize = 0;
        while i < n
            invariant
                n <= self.len <= N,
                n <= before.len(),
                dst@.len() == before.len(),
                i <= n,
                forall|j: int| 0 <= j < i ==> dst@[j] == self@[j],
                forall|j: int| i <= j < before.len() ==> dst@[j] == before[j],
            decreases n - i,
        {
            dst[i] = self.buf[i];
            i += 1;
        }
        assert(dst@ =~= self@.take(n as int) + before.skip(n as int));
        n
    }

    /// The bytes held, oldest first.
    pub fn as_slice(&self) -> (result: &[u8])
        ensures
            result@ == self@,
    {
        proof {
            use_type_invariant(self);
        }
        slice_subrange(self.buf.as_slice(), 0, self.len)
    }

    /// All `N` cells of the array, those behind the held bytes included.
    pub fn storage(&self) -> (result: &[u8; N])
        ensures
            result@ == self.cells(),
            self@ == result@.take(self@.len() as int),
    {
        proof {
            use_type_invariant(self);
        }
        &self.buf
    }
}

/// A push never overfills the queue, keeps all of the new data behind what is left of the old,
/// and gives up nothing while there is room.
pub proof fn law_push(contents: Seq<u8>, data: Seq<u8>, capacity: nat)
    requires
        contents.len() <= capacity,
        data.len() <= capacity,
    ensures
        data.len() <= pushed(contents, data, capacity).len() <= capacity,
        data.is_suffix_of(pushed(contents, data, capacity)),
        pushed(contents, data, capacity).is_suffix_of(contents + data),
        contents.len() + data.len() <= capacity ==> pushed(contents, data, capacity) == contents
            + data,
{
    let gone = evicted(contents.len(), data.len(), capacity) as int;
    let result = pushed(contents, data, capacity);
    assert(result.subrange(result.len() - data.len(), result.len() as int) =~= data);
    assert((contents + data).subrange(gone, (contents + data).len() as int) =~= result);
    if gone == 0 {
        assert(result =~= contents + data);
    }
}

/// The queue after a number of pushes.
pub open spec fn pushed_all(contents: Seq<u8>, chunks: Seq<Seq<u8>>, capacity: nat) -> Seq<u8>
    decreases chunks.len(),
{
    if chunks.len() == 0 {
        contents
    } else {
        pushed(pushed_all(contents, chunks.drop_last(), capacity), chunks.last(), capacity)
    }
}

/// Whatever is pushed, the queue holds the newest bytes in the order in which they came: its
/// contents end everything that was ever in it.
pub proof fn law_pushes_keep_the_newest(contents: Seq<u8>, chunks: Seq<Seq<u8>>, capacity: nat)
    requires
        contents.len() <= capacity,
        forall|i: int| 0 <= i < chunks.len() ==> (#[trigger] chunks[i]).len() <= capacity,
    ensures
        pushed_all(contents, chunks, capacity).len() <= capacity,
        pushed_all(contents, chunks, capacity).is_suffix_of(contents + chunks.flatten()),
    decreases chunks.len(),
{
    if chunks.len() == 0 {
        assert(contents + chunks.flatten() =~= contents);
        assert(contents.subrange(0, contents.len() as int) =~= contents);
    } else {
        let earlier = chunks.drop_last();
        let before = pushed_all(contents, earlier, capacity);
        let last = chunks.last();
        assert forall|i: int| 0 <= i < earlier.len() implies (#[trigger] earlier[i]).len()
            <= capacity by {
            assert(earlier[i] == chunks[i]);
        }
        law_pushes_keep_the_newest(contents, earlier, capacity);
        assert(chunks[chunks.len() - 1] == last);
        law_push(before, last, capacity);
        let old_all = contents + earlier.flatten();
        let all = contents + chunks.flatten();
        assert(chunks =~= earlier.push(last));
        chunks.lemma_flatten_and_flatten_alt_are_equivalent();
        earlier.lemma_flatten_and_flatten_alt_are_equivalent();
        assert(all =~= old_all + last);
        let after = pushed(before, last, capacity);
        let gone = evicted(before.len(), last.len(), capacity) as int;
        let start = old_all.len() - before.len();
        assert(old_all.subrange(start, old_all.len() as int) == before);
        assert(all.subrange(start + gone, all.len() as int) =~= after) by {
            assert forall|j: int| 0 <= j < before.len() implies old_all[start + j] == before[j] by {
                assert(old_all.subrange(start, old_all.len() as int)[j] == before[j]);
            }
        }
    }
}

/// Bytes leave in the order in which they came: what is left after the older bytes are consumed is
/// the data of the last push.
pub proof fn law_first_in_first_out(contents: Seq<u8>, data: Seq<u8>, capacity: nat)
    requires
        contents.len() <= capacity,
        data.len() <= capacity,
    ensures
        advanced(
            pushed(contents, data, capacity),
            (pushed(contents, data, capacity).len() - data.len()) as nat,
        ) == data,
{
    let result = pushed(contents, data, capacity);
    assert(result.skip(result.len() - data.len()) =~= data);
}

/// Two steps forward are one step of both lengths.
pub proof fn law_advance_twice(contents: Seq<u8>, a: nat, b: nat)
    ensures
        advanced(advanced(contents, a), b) == advanced(contents, a + b),
{
    assert(advanced(advanced(contents, a), b) =~= advanced(contents, a + b));
}

/// Advancing to a match brings it to the front.
pub proof fn law_advance_to_match(contents: Seq<u8>, needle: Seq<u8>)
    requires
        first_position(contents, needle) is Some,
    ensures
        first_position(
            advanced(contents, first_position(contents, needle)->0),
            needle,
        ) == Some(0nat),
{
    let i = choose|i: int| first_at(contents, needle, i);
    assert(first_at(contents, needle, i));
    let ahead = advanced(contents, i as nat);
    assert(ahead.subrange(0, needle.len() as int) =~= contents.subrange(i, i + needle.len()));
    lemma_first_position(ahead, needle, 0);
}

/// What a push keeps, in numbers: everything while there is room; otherwise the new data, and of
/// the old bytes all but as many of the oldest as the data has or as half the buffer has, whichever
/// is more.
pub proof fn law_push_gives_up_half_at_least(contents: Seq<u8>, data: Seq<u8>, capacity: nat)
    requires
        contents.len() <= capacity,
        data.len() <= capacity,
    ensures
        contents.len() + data.len() <= capacity ==> pushed(contents, data, capacity) == contents
            + data,
        contents.len() + data.len() > capacity ==> ({
            let kept = pushed(contents, data, capacity).len() - data.len();
            &&& pushed(contents, data, capacity) == contents.skip(contents.len() - kept) + data
            &&& kept == 0 || contents.len() - kept == data.len() || contents.len() - kept == capacity
                / 2
            &&& kept > 0 ==> contents.len() - kept >= data.len() && contents.len() - kept >= capacity
                / 2
            &&& kept == 0 ==> contents.len() <= data.len() || contents.len() <= capacity / 2
        }),
{
    if contents.len() + data.len() <= capacity {
        assert(pushed(contents, data, capacity) =~= contents + data);
    }
}

} // verus!
