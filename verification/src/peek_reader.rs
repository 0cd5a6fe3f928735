//! A reader over bytes held in memory that can look one or two bytes ahead.
//!
//! The bytes reach the reader through a window of bounded size, as they
//! would from a buffered file. Looking two bytes ahead when the window
//! holds a single byte moves that byte into a cell of its own and opens the
//! next window; every operation counts the cell before the window.

use vstd::prelude::*;
use vstd::slice::slice_to_vec;
use crate::error::{Error, ErrorKind};

verus! {

/// The size of the window that `new` gives a source.
pub const DEFAULT_CAPACITY: usize = 8192;

/// What is left of `s` after its first `n` bytes; nothing where it has fewer.
pub open spec fn advance(s: Seq<u8>, n: nat) -> Seq<u8> {
    if n <= s.len() {
        s.skip(n as int)
    } else {
        Seq::empty()
    }
}

/// The number of bytes in `s` before the first `byte`, or all of them.
pub open spec fn count_before(s: Seq<u8>, byte: u8) -> nat
    decreases s.len(),
{
    if s.len() == 0 || s[0] == byte {
        0
    } else {
        1 + count_before(s.skip(1), byte)
    }
}

/// The number of bytes in `s` up to and with the first `byte`, or all of them.
pub open spec fn count_through(s: Seq<u8>, byte: u8) -> nat {
    let n = count_before(s, byte);
    if n < s.len() {
        n + 1
    } else {
        n
    }
}

/// What follows the first `byte` in `s`; nothing where `s` has none.
pub open spec fn after_first(s: Seq<u8>, byte: u8) -> Seq<u8> {
    s.skip(count_through(s, byte) as int)
}

/// The bytes before the first `byte` hold none, and the first `byte`
/// follows them where there is one.
pub proof fn lemma_count_before_bound(s: Seq<u8>, byte: u8)
    ensures
        count_before(s, byte) <= s.len(),
        count_before(s, byte) < s.len() ==> s[count_before(s, byte) as int] == byte,
        forall|i: int| 0 <= i < count_before(s, byte) ==> s[i] != byte,
    decreases s.len(),
{
    if s.len() == 0 || s[0] == byte {
    } else {
        lemma_count_before_bound(s.skip(1), byte);
        assert forall|i: int| 0 <= i < count_before(s, byte) implies s[i] != byte by {
            if i > 0 {
                assert(s.skip(1)[i - 1] == s[i]);
            }
        }
    }
}

/// A source of bytes that shows them through a window of bounded size.
pub struct BufSource {
    data: Vec<u8>,
    pos: usize,
    filled: usize,
    capacity: usize,
}

impl BufSource {
    #[verifier::type_invariant]
    spec fn inv(self) -> bool {
        &&& self.pos <= self.filled <= self.data.len()
        &&& self.filled - self.pos <= self.capacity
        &&& self.capacity >= 1
    }

    /// The bytes that have not been consumed.
    pub closed spec fn remaining(&self) -> Seq<u8> {
        self.data@.skip(self.pos as int)
    }

    /// The number of unconsumed bytes that the window holds.
    pub closed spec fn buffered(&self) -> nat {
        (self.filled - self.pos) as nat
    }

    /// The number of bytes that have been consumed.
    pub closed spec fn consumed(&self) -> nat {
        self.pos as nat
    }

    /// The most bytes that the window holds at a time.
    pub closed spec fn window(&self) -> nat {
        self.capacity as nat
    }

    /// The number of bytes that the window shows once it is filled: those
    /// that it holds, or, where it is used up, as many of the next bytes as
    /// it can hold.
    pub open spec fn exposed(&self) -> nat {
        if self.buffered() > 0 {
            self.buffered()
        } else if self.remaining().len() < self.window() {
            self.remaining().len()
        } else {
            self.window()
        }
    }

    /// A source over `data` with a window of `capacity` bytes, or of one byte
    /// where `capacity` is zero.
    pub fn with_capacity(capacity: usize, data: Vec<u8>) -> (s: BufSource)
        ensures
            s.remaining() == data@,
            s.buffered() == 0,
            s.consumed() == 0,
            s.window() == if capacity == 0 { 1 } else { capacity as nat },
    {
        let capacity: usize = if capacity == 0 { 1 } else { capacity };
        BufSource { data, pos: 0, filled: 0, capacity }
    }

    /// A source over `data` with a window of the default size.
    pub fn new(data: Vec<u8>) -> (s: BufSource)
        ensures
            s.remaining() == data@,
            s.buffered() == 0,
            s.consumed() == 0,
            s.window() == DEFAULT_CAPACITY,
    {
        BufSource::with_capacity(DEFAULT_CAPACITY, data)
    }

    /// Opens the next window where the present one is used up, and returns
    /// how many bytes the window then holds: none only at the end.
    pub fn fill_buf(&mut self) -> (n: usize)
        ensures
            final(self).remaining() == old(self).remaining(),
            final(self).window() == old(self).window(),
            final(self).consumed() == old(self).consumed(),
            n == final(self).buffered(),
            n <= final(self).remaining().len(),
            n == 0 <==> old(self).remaining().len() == 0,
            n == old(self).exposed(),
        no_unwind
    {
        proof {
            use_type_invariant(&*self);
        }
        if self.pos == self.filled {
            let left: usize = self.data.len() - self.pos;
            let take: usize = if left < self.capacity { left } else { self.capacity };
            self.filled = self.pos + take;
        }
        self.filled - self.pos
    }

    /// The number of unconsumed bytes in the window.
    pub fn buffer_len(&self) -> (n: usize)
        ensures
            n == self.buffered(),
            n <= self.remaining().len(),
    {
        proof {
            use_type_invariant(self);
        }
        self.filled - self.pos
    }

    /// The byte at place `i` of the window.
    pub fn get(&self, i: usize) -> (b: u8)
        requires
            i < self.buffered(),
        ensures
            i < self.remaining().len(),
            b == self.remaining()[i as int],
    {
        proof {
            use_type_invariant(self);
        }
        self.data[self.pos + i]
    }

    /// Consumes `amt` bytes of the window, or all that it holds.
    pub fn consume(&mut self, amt: usize)
        ensures
            final(self).window() == old(self).window(),
            final(self).consumed() + final(self).remaining().len() == old(self).consumed() + old(
                self,
            ).remaining().len(),
            final(self).consumed() >= old(self).consumed(),
            final(self).consumed() + final(self).remaining().len() <= usize::MAX,
            amt <= old(self).buffered() ==> {
                &&& final(self).remaining() == old(self).remaining().skip(amt as int)
                &&& final(self).buffered() == old(self).buffered() - amt
            },
            amt > old(self).buffered() ==> {
                &&& final(self).remaining() == old(self).remaining().skip(
                    old(self).buffered() as int,
                )
                &&& final(self).buffered() == 0
            },
        no_unwind
    {
        proof {
            use_type_invariant(&*self);
        }
        let held: usize = self.filled - self.pos;
        let step: usize = if amt < held { amt } else { held };
        self.pos = self.pos + step;
        assert(self.data@.skip(self.pos as int) =~= old(self).data@.skip(old(self).pos as int).skip(
            step as int,
        ));
    }
}

/// The first byte of `s`, if it has one.
pub open spec fn first_byte(s: Seq<u8>) -> Option<u8> {
    if s.len() >= 1 {
        Some(s[0])
    } else {
        None
    }
}

/// Whether `pair` holds the first two bytes of `s`, or nothing where `s` has
/// fewer than two.
pub open spec fn is_first_two(s: Seq<u8>, pair: Option<[u8; 2]>) -> bool {
    match pair {
        Some(p) => s.len() >= 2 && p[0] == s[0] && p[1] == s[1],
        None => s.len() < 2,
    }
}

/// The first `byte` stands at place `k` where it stands there and nowhere
/// before.
pub proof fn lemma_count_before_is(s: Seq<u8>, byte: u8, k: int)
    requires
        0 <= k <= s.len(),
        forall|i: int| 0 <= i < k ==> s[i] != byte,
        k < s.len() ==> s[k] == byte,
    ensures
        count_before(s, byte) == k,
    decreases s.len(),
{
    if s.len() == 0 || s[0] == byte {
    } else {
        let t = s.skip(1);
        assert forall|i: int| 0 <= i < k - 1 implies t[i] != byte by {
            assert(t[i] == s[i + 1]);
        }
        lemma_count_before_is(t, byte, k - 1);
    }
}

/// A reader with the ability to peek two bytes.
pub struct PeekReader {
    buf_reader: BufSource,
    /// The byte that `peek2` took out of a window of one byte.
    buffer2: Option<u8>,
}

impl PeekReader {
    #[verifier::type_invariant]
    spec fn inv(self) -> bool {
        self.buffer2 is Some ==> self.buf_reader.consumed() >= 1
    }

    /// The bytes that have not been read: the logical stream.
    pub closed spec fn remaining(&self) -> Seq<u8> {
        match self.buffer2 {
            Some(byte) => seq![byte] + self.buf_reader.remaining(),
            None => self.buf_reader.remaining(),
        }
    }

    /// The number of unread bytes that `consume` can take at once: the byte
    /// in the cell and those in the window.
    pub closed spec fn ready(&self) -> nat {
        match self.buffer2 {
            Some(_) => 1 + self.buf_reader.buffered(),
            None => self.buf_reader.buffered(),
        }
    }

    /// The byte in the cell, if `peek2` has put one there.
    pub closed spec fn carried(&self) -> Option<u8> {
        self.buffer2
    }

    /// The number of unread bytes in the window, the cell not counted.
    pub closed spec fn buffered(&self) -> nat {
        self.buf_reader.buffered()
    }

    /// The number of bytes that the window shows once it is filled, the
    /// cell not counted.
    pub closed spec fn exposed(&self) -> nat {
        self.buf_reader.exposed()
    }

    /// The most bytes that the window holds at a time.
    pub closed spec fn window(&self) -> nat {
        self.buf_reader.window()
    }

    /// Creates a new `PeekReader` over a copy of `inner`, with a window of
    /// the default size.
    pub fn new(inner: &[u8]) -> (r: PeekReader)
        ensures
            r.remaining() == inner@,
            r.ready() == 0,
            r.carried() is None,
            r.window() == DEFAULT_CAPACITY,
    {
        PeekReader { buf_reader: BufSource::new(slice_to_vec(inner)), buffer2: None }
    }

    /// Creates a new `PeekReader` with a window of `capacity` bytes, or of
    /// one byte where `capacity` is zero.
    pub fn with_capacity(capacity: usize, inner: &[u8]) -> (r: PeekReader)
        ensures
            r.remaining() == inner@,
            r.ready() == 0,
            r.carried() is None,
            r.window() == if capacity == 0 { 1 } else { capacity as nat },
    {
        PeekReader {
            buf_reader: BufSource::with_capacity(capacity, slice_to_vec(inner)),
            buffer2: None,
        }
    }

    /// The number of unread bytes in the window, the cell not counted.
    pub fn buffer_len(&self) -> (n: usize)
        ensures
            n == self.buffered(),
    {
        self.buf_reader.buffer_len()
    }

    /// The byte in the cell, if there is one.
    pub fn carry(&self) -> (c: Option<u8>)
        ensures
            c == self.carried(),
            c matches Some(byte) ==> self.remaining().len() >= 1 && self.remaining()[0] == byte,
    {
        self.buffer2
    }

    /// Read one value without discarding it. Returns None if EOF is reached.
    pub fn peek(&mut self) -> (r: Result<Option<u8>, Error>)
        ensures
            final(self).remaining() == old(self).remaining(),
            r matches Ok(v) && v == first_byte(old(self).remaining()),
            r matches Ok(Some(_)) ==> final(self).ready() >= 1,
            final(self).carried() == old(self).carried(),
            final(self).window() == old(self).window(),
    {
        if let Some(byte) = self.buffer2 {
            assert(self.remaining()[0] == byte);
            Ok(Some(byte))
        } else {
            let n: usize = self.buf_reader.fill_buf();
            if n > 0 {
                Ok(Some(self.buf_reader.get(0)))
            } else {
                Ok(None)
            }
        }
    }

    /// Read two values without discarding them. Returns None if fewer than
    /// two bytes are left.
    pub fn peek2(&mut self) -> (r: Result<Option<[u8; 2]>, Error>)
        ensures
            final(self).remaining() == old(self).remaining(),
            r matches Ok(v) && is_first_two(old(self).remaining(), v),
            r matches Ok(Some(_)) ==> final(self).ready() >= 2,
            final(self).window() == old(self).window(),
            final(self).carried() == if old(self).carried() is Some {
                old(self).carried()
            } else if old(self).exposed() == 1 {
                Some(old(self).remaining()[0])
            } else {
                None
            },
    {
        proof {
            use_type_invariant(&*self);
            use_type_invariant(&self.buf_reader);
        }
        let n: usize = self.buf_reader.fill_buf();
        if n == 0 {
            return Ok(None);
        }
        let first: u8 = self.buf_reader.get(0);
        if let Some(byte1) = self.buffer2 {
            Ok(Some([byte1, first]))
        } else if n >= 2 {
            let second: u8 = self.buf_reader.get(1);
            Ok(Some([first, second]))
        } else {
            // The window holds one byte: it moves into the cell, and the
            // next window brings the second.
            let ghost before = self.buf_reader.remaining();
            self.buf_reader.consume(1);
            self.buffer2 = Some(first);
            assert(seq![first] + before.skip(1) =~= before);
            let m: usize = self.buf_reader.fill_buf();
            if m > 0 {
                let second: u8 = self.buf_reader.get(0);
                Ok(Some([first, second]))
            } else {
                Ok(None)
            }
        }
    }

    /// Discards `amt` bytes, or as many as the cell and the window hold.
    pub fn consume(&mut self, amt: usize)
        ensures
            amt <= old(self).ready() ==> {
                &&& final(self).remaining() == old(self).remaining().skip(amt as int)
                &&& final(self).ready() == old(self).ready() - amt
            },
            amt > old(self).ready() ==> {
                &&& final(self).remaining() == old(self).remaining().skip(old(self).ready() as int)
                &&& final(self).ready() == 0
            },
            old(self).ready() <= old(self).remaining().len(),
            amt >= 1 ==> final(self).carried() is None,
            amt == 0 ==> final(self).carried() == old(self).carried(),
    {
        proof {
            use_type_invariant(&*self);
            use_type_invariant(&self.buf_reader);
        }
        let held: usize = self.buf_reader.buffer_len();
        if amt == 0 {
            assert(self.remaining().skip(0) =~= self.remaining());
            return ;
        }
        if let Some(byte) = self.buffer2 {
            let ghost before = self.buf_reader.remaining();
            self.buffer2 = None;
            self.buf_reader.consume(amt - 1);
            assert(forall|k: int|
                0 <= k <= before.len() ==> #[trigger] (seq![byte] + before).skip(k + 1)
                    =~= before.skip(k));
        } else {
            self.buf_reader.consume(amt);
        }
    }

    fn next_byte(&mut self) -> (r: Option<u8>)
        ensures
            r == first_byte(old(self).remaining()),
            final(self).remaining() == advance(old(self).remaining(), 1),
            old(self).remaining().len() <= usize::MAX,
            final(self).carried() is None,
    {
        proof {
            use_type_invariant(&*self);
            use_type_invariant(&self.buf_reader);
        }
        if let Some(byte) = self.buffer2 {
            self.buffer2 = None;
            assert((seq![byte] + self.buf_reader.remaining()).skip(1)
                =~= self.buf_reader.remaining());
            Some(byte)
        } else {
            let n: usize = self.buf_reader.fill_buf();
            if n == 0 {
                assert(self.buf_reader.remaining() =~= Seq::<u8>::empty());
                None
            } else {
                let byte: u8 = self.buf_reader.get(0);
                self.buf_reader.consume(1);
                Some(byte)
            }
        }
    }

    /// Read a single byte. Returns None if EOF is reached.
    pub fn read_byte(&mut self) -> (r: Result<Option<u8>, Error>)
        ensures
            r matches Ok(v) && v == first_byte(old(self).remaining()),
            final(self).remaining() == advance(old(self).remaining(), 1),
            final(self).carried() is None,
    {
        Ok(self.next_byte())
    }

    /// Reads bytes into `buf`: the byte in the cell, if there is one, and
    /// those that the window shows, as far as `buf` has room. Returns how
    /// many they were: none only where `buf` is empty or nothing is left.
    pub fn read(&mut self, buf: &mut [u8]) -> (r: Result<usize, Error>)
        ensures
            final(buf)@.len() == old(buf)@.len(),
            r matches Ok(n) && {
                &&& n <= old(buf)@.len()
                &&& n <= old(self).remaining().len()
                &&& n == 0 <==> old(buf)@.len() == 0 || old(self).remaining().len() == 0
                &&& final(buf)@.take(n as int) == old(self).remaining().take(n as int)
                &&& final(buf)@.skip(n as int) == old(buf)@.skip(n as int)
                &&& final(self).remaining() == old(self).remaining().skip(n as int)
            },
    {
        let ghost start = self.remaining();
        let len: usize = buf.len();
        let mut n: usize = 0;
        while n < len
            invariant
                n <= len,
                len == buf@.len(),
                len == old(buf)@.len(),
                start == old(self).remaining(),
                n <= start.len(),
                self.remaining() == start.skip(n as int),
                buf@.take(n as int) == start.take(n as int),
                buf@.skip(n as int) == old(buf)@.skip(n as int),
            ensures
                n == 0 <==> len == 0 || start.len() == 0,
            decreases len - n,
        {
            if n > 0 && self.buf_reader.buffer_len() == 0 {
                // the window is used up: what comes next is left for later
                break ;
            }
            match self.next_byte() {
                Some(byte) => {
                    let ghost before = buf@;
                    buf[n] = byte;
                    proof {
                        assert(buf@.take(n + 1) =~= start.take(n + 1)) by {
                            assert(forall|k: int|
                                0 <= k < n ==> buf@[k] == before.take(n as int)[k]);
                            assert(forall|k: int| 0 <= k < n ==> start[k] == start.take(n as int)[k]);
                        }
                        assert(buf@.skip(n + 1) =~= old(buf)@.skip(n + 1)) by {
                            assert(forall|k: int|
                                n < k < len ==> buf@[k] == before.skip(n as int)[k - n]);
                        }
                        assert(start.skip(n as int).skip(1) =~= start.skip(n + 1));
                    }
                    n = n + 1;
                },
                None => {
                    break ;
                },
            }
        }
        Ok(n)
    }

    /// Fills `buf` with the next bytes. Where fewer are left than `buf`
    /// holds, all of them are read, the error is `UnexpectedEof`, and what
    /// `buf` holds is not specified.
    pub fn read_exact(&mut self, buf: &mut [u8]) -> (r: Result<(), Error>)
        ensures
            final(buf)@.len() == old(buf)@.len(),
            old(buf)@.len() <= old(self).remaining().len() ==> {
                &&& r is Ok
                &&& final(buf)@ == old(self).remaining().take(old(buf)@.len() as int)
                &&& final(self).remaining() == old(self).remaining().skip(old(buf)@.len() as int)
            },
            old(buf)@.len() > old(self).remaining().len() ==> {
                &&& r matches Err(e) && e.kind == ErrorKind::UnexpectedEof
                &&& final(self).remaining().len() == 0
            },
    {
        let ghost start = self.remaining();
        let len: usize = buf.len();
        let mut i: usize = 0;
        while i < len
            invariant
                i <= len,
                len == buf@.len(),
                len == old(buf)@.len(),
                start == old(self).remaining(),
                i <= start.len(),
                self.remaining() == start.skip(i as int),
                buf@.take(i as int) == start.take(i as int),
            decreases len - i,
        {
            match self.next_byte() {
                Some(byte) => {
                    buf[i] = byte;
                    assert(buf@.take(i + 1) =~= start.take(i + 1)) by {
                        assert(forall|k: int| 0 <= k < i ==> buf@[k] == buf@.take(i as int)[k]);
                        assert(forall|k: int| 0 <= k < i ==> start[k] == start.take(i as int)[k]);
                    }
                    assert(start.skip(i as int).skip(1) =~= start.skip(i + 1));
                    i = i + 1;
                },
                None => {
                    assert(start.skip(i as int).len() == 0);
                    assert(i == start.len());
                    assert(self.remaining().len() == 0);
                    return Err(Error::eof());
                },
            }
        }
        assert(buf@.take(len as int) =~= buf@);
        Ok(())
    }

    /// Discards bytes up to and with the first `delim`, or all of them, and
    /// returns how many they were.
    pub fn skip_until(&mut self, delim: u8) -> (r: Result<usize, Error>)
        ensures
            r matches Ok(n) && n == count_through(old(self).remaining(), delim),
            final(self).remaining() == after_first(old(self).remaining(), delim),
    {
        proof {
            use_type_invariant(&*self);
            use_type_invariant(&self.buf_reader);
        }
        let ghost start = self.remaining();
        let mut count: usize = 0;
        let mut found: bool = false;
        while !found
            invariant
                start.len() <= usize::MAX,
                count <= start.len(),
                self.remaining() == start.skip(count as int),
                !found ==> forall|k: int| 0 <= k < count ==> start[k] != delim,
                found ==> count == count_through(start, delim),
            decreases start.len() - count, if found { 0int } else { 1int },
        {
            match self.next_byte() {
                Some(byte) => {
                    assert(start.skip(count as int).skip(1) =~= start.skip(count + 1));
                    if byte == delim {
                        proof {
                            lemma_count_before_is(start, delim, count as int);
                        }
                        found = true;
                    }
                    count = count + 1;
                },
                None => {
                    proof {
                        lemma_count_before_is(start, delim, count as int);
                    }
                    found = true;
                },
            }
        }
        Ok(count)
    }

    /// Reads bytes up to and with the first `delim`, or all of them, adds
    /// them to `buf`, and returns how many they were.
    pub fn read_until(&mut self, delim: u8, buf: &mut Vec<u8>) -> (r: Result<usize, Error>)
        ensures
            r matches Ok(n) && n == count_through(old(self).remaining(), delim),
            final(self).remaining() == after_first(old(self).remaining(), delim),
            final(buf)@ == old(buf)@ + old(self).remaining().take(
                count_through(old(self).remaining(), delim) as int,
            ),
    {
        proof {
            use_type_invariant(&*self);
            use_type_invariant(&self.buf_reader);
        }
        let ghost start = self.remaining();
        let mut count: usize = 0;
        let mut found: bool = false;
        while !found
            invariant
                start.len() <= usize::MAX,
                count <= start.len(),
                self.remaining() == start.skip(count as int),
                buf@ == old(buf)@ + start.take(count as int),
                !found ==> forall|k: int| 0 <= k < count ==> start[k] != delim,
                found ==> count == count_through(start, delim),
            decreases start.len() - count, if found { 0int } else { 1int },
        {
            match self.next_byte() {
                Some(byte) => {
                    assert(start.skip(count as int).skip(1) =~= start.skip(count + 1));
                    buf.push(byte);
                    assert(start.take(count as int).push(byte) =~= start.take(count + 1));
                    if byte == delim {
                        proof {
                            lemma_count_before_is(start, delim, count as int);
                        }
                        found = true;
                    }
                    count = count + 1;
                },
                None => {
                    proof {
                        lemma_count_before_is(start, delim, count as int);
                    }
                    found = true;
                },
            }
        }
        Ok(count)
    }
}

} // verus!
