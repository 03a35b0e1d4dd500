//! A seekable cursor over the bytes of a font.

use crate::error::{end_of_stream, DecodeError, Error};
use crate::utils::codec::{decode, has_value, value_at, Decode};
use crate::utils::types::Sequence;
use vstd::prelude::*;

verus! {

/// Whether `n` bytes can be read from `data` at offset `at`.
///
/// An empty read succeeds anywhere, even beyond the end.
pub open spec fn fits(data: Seq<u8>, at: int, n: int) -> bool {
    n == 0 || at + n <= data.len()
}

/// The `n` bytes of `data` that start at offset `at`.
pub open spec fn window(data: Seq<u8>, at: int, n: int) -> Seq<u8> {
    if n <= 0 {
        Seq::empty()
    } else {
        data.subrange(at, at + n)
    }
}

/// A read cursor over an immutable byte buffer.
///
/// The cursor may stand beyond the end of the buffer; any read of at least
/// one byte fails there.
pub struct Stream<'a> {
    data: &'a [u8],
    pos: u64,
}

impl<'a> Stream<'a> {
    /// The bytes the stream reads from.
    pub closed spec fn bytes(&self) -> Seq<u8> {
        self.data@
    }

    /// The offset of the next byte to be read.
    pub closed spec fn cursor(&self) -> int {
        self.pos as int
    }

    /// The number of bytes between the cursor and the end of the buffer.
    pub open spec fn available(&self) -> int {
        if self.cursor() <= self.bytes().len() {
            self.bytes().len() - self.cursor()
        } else {
            0
        }
    }

    /// The cursor fits in 64 bits, and the buffer's length in a `usize`.
    pub proof fn lemma_cursor_range(&self)
        ensures
            0 <= self.cursor() <= u64::MAX,
            self.bytes().len() <= usize::MAX,
    {
        assert(self.data.len() == self.data@.len());
    }

    pub fn new(data: &'a [u8]) -> (s: Self)
        ensures
            s.bytes() == data@,
            s.cursor() == 0,
    {
        Stream { data, pos: 0 }
    }

    pub fn stream_position(&self) -> (p: u64)
        ensures
            p == self.cursor(),
    {
        self.pos
    }

    /// Moves the cursor to the absolute offset `pos`.
    pub fn seek(&mut self, pos: u64)
        ensures
            final(self).bytes() == old(self).bytes(),
            final(self).cursor() == pos,
    {
        self.pos = pos;
    }

    pub fn remaining(&self) -> (n: usize)
        ensures
            n == self.available(),
    {
        let len: usize = self.data.len();
        if self.pos <= len as u64 {
            len - (self.pos as usize)
        } else {
            0
        }
    }

    /// Reads exactly `n` bytes, or nothing at all.
    pub fn take(&mut self, n: usize) -> (r: Result<&'a [u8], DecodeError>)
        ensures
            final(self).bytes() == old(self).bytes(),
            match r {
                Ok(s) => {
                    &&& fits(old(self).bytes(), old(self).cursor(), n as int)
                    &&& s@ == window(old(self).bytes(), old(self).cursor(), n as int)
                    &&& s@.len() == n
                    &&& final(self).cursor() == old(self).cursor() + n
                },
                Err(e) => {
                    &&& !fits(old(self).bytes(), old(self).cursor(), n as int)
                    &&& e == DecodeError::UnexpectedEof
                    &&& final(self).cursor() == old(self).cursor()
                },
            },
    {
        let data: &'a [u8] = self.data;
        if n == 0 {
            let s = vstd::slice::slice_subrange(data, 0, 0);
            assert(s@ =~= Seq::<u8>::empty());
            return Ok(s);
        }
        let len: usize = data.len();
        if self.pos > len as u64 || n > len - (self.pos as usize) {
            return Err(DecodeError::UnexpectedEof);
        }
        let start: usize = self.pos as usize;
        let s = vstd::slice::slice_subrange(data, start, start + n);
        self.pos = self.pos + n as u64;
        Ok(s)
    }

    /// Reads exactly `n` bytes into a vector of their own, or nothing at all.
    pub fn read_bytes(&mut self, n: usize) -> (r: Result<Sequence<u8>, Error>)
        ensures
            final(self).bytes() == old(self).bytes(),
            match r {
                Ok(bytes) => {
                    &&& fits(old(self).bytes(), old(self).cursor(), n as int)
                    &&& bytes@ == window(old(self).bytes(), old(self).cursor(), n as int)
                    &&& final(self).cursor() == old(self).cursor() + n
                },
                Err(e) => {
                    &&& !fits(old(self).bytes(), old(self).cursor(), n as int)
                    &&& e == end_of_stream()
                    &&& final(self).cursor() == old(self).cursor()
                },
            },
    {
        match self.take(n) {
            Ok(bytes) => Ok(Sequence(vstd::slice::slice_to_vec(bytes))),
            Err(e) => Err(Error::DecodeError(e)),
        }
    }
}

/// The `n` values of type `T` that `data` holds from offset `at` on.
pub open spec fn items_at<T: Decode>(data: Seq<u8>, at: int, n: int) -> Seq<T> {
    Seq::new(n as nat, |i: int| value_at::<T>(data, at + i * T::wire_size()))
}

/// A type that can be decoded from a stream.
pub trait TryFromStream: Sized {
    /// The mathematical value that a decoded value stands for.
    type Model;

    /// The model of this value.
    spec fn model(&self) -> Self::Model;

    /// What decoding at offset `at` of `data` gives: the model of the value
    /// and the offset of the first byte after it, or the failure.
    spec fn parse(data: Seq<u8>, at: int) -> Result<(Self::Model, int), Error>;

    /// Decodes one value at the cursor, as `parse` says. The bytes of the
    /// stream never change; after a failure the cursor may stand anywhere.
    fn try_from_stream(stream: &mut Stream<'_>) -> (r: Result<Self, Error>)
        ensures
            final(stream).bytes() == old(stream).bytes(),
            match r {
                Ok(v) => Self::parse(old(stream).bytes(), old(stream).cursor()) == Ok::<
                    (Self::Model, int),
                    Error,
                >((v.model(), final(stream).cursor())),
                Err(e) => Self::parse(old(stream).bytes(), old(stream).cursor()) == Err::<
                    (Self::Model, int),
                    Error,
                >(e),
            },
    ;
}

/// A value of fixed size is its own model; decoding it fails only at the end
/// of the stream, and then leaves the cursor where it was.
impl<T: Decode> TryFromStream for T {
    type Model = T;

    open spec fn model(&self) -> T {
        *self
    }

    open spec fn parse(data: Seq<u8>, at: int) -> Result<(T, int), Error> {
        if has_value::<T>(data, at) {
            Ok((value_at::<T>(data, at), at + T::wire_size()))
        } else {
            Err(end_of_stream())
        }
    }

    fn try_from_stream(stream: &mut Stream<'_>) -> (r: Result<Self, Error>)
        ensures
            r is Err ==> final(stream).cursor() == old(stream).cursor(),
    {
        match decode::<T>(stream) {
            Ok(v) => Ok(v),
            Err(e) => Err(Error::DecodeError(e)),
        }
    }
}

/// A byte source from which runs of fixed-size values can be read.
pub trait ReadSeq {
    /// The bytes of the source.
    spec fn source(&self) -> Seq<u8>;

    /// The offset in the source of the next byte to be read.
    spec fn offset(&self) -> int;

    /// Reads `length` values of type `T`, or nothing at all.
    fn read_seq<T: Decode>(&mut self, length: usize) -> (r: Result<Sequence<T>, Error>)
        ensures
            final(self).source() == old(self).source(),
            match r {
                Ok(items) => {
                    &&& fits(old(self).source(), old(self).offset(), length * T::wire_size())
                    &&& items@ == items_at::<T>(old(self).source(), old(self).offset(), length as int)
                    &&& final(self).offset() == old(self).offset() + length * T::wire_size()
                },
                Err(e) => {
                    &&& !fits(old(self).source(), old(self).offset(), length * T::wire_size())
                    &&& e == end_of_stream()
                    &&& final(self).offset() == old(self).offset()
                },
            },
    ;
}

impl<'a> ReadSeq for Stream<'a> {
    open spec fn source(&self) -> Seq<u8> {
        self.bytes()
    }

    open spec fn offset(&self) -> int {
        self.cursor()
    }

    fn read_seq<T: Decode>(&mut self, length: usize) -> (r: Result<Sequence<T>, Error>) {
        let size: usize = T::size();
        let ghost data = self.bytes();
        let ghost at = self.cursor();
        proof {
            self.lemma_cursor_range();
        }
        let total: usize = match length.checked_mul(size) {
            Some(total) => total,
            None => {
                return Err(Error::DecodeError(DecodeError::UnexpectedEof));
            },
        };
        let bytes: &[u8] = match self.take(total) {
            Ok(bytes) => bytes,
            Err(_) => {
                return Err(Error::DecodeError(DecodeError::UnexpectedEof));
            },
        };
        let mut items: Vec<T> = Vec::new();
        let mut i: usize = 0;
        while i < length
            invariant
                i <= length,
                size == T::wire_size(),
                total == length * size,
                bytes@.len() == total,
                bytes@ == window(data, at, total as int),
                fits(data, at, total as int),
                0 <= at,
                items@ == items_at::<T>(data, at, i as int),
            decreases length - i,
        {
            proof {
                lemma_item_bounds(i as int, length as int, size as int);
            }
            let chunk: &[u8] = vstd::slice::slice_subrange(bytes, i * size, i * size + size);
            let item: T = T::decode_from_slice(chunk);
            proof {
                assert(chunk@ =~= window(data, at + i * size, size as int));
                assert(item == value_at::<T>(data, at + i * T::wire_size()));
            }
            items.push(item);
            i = i + 1;
            assert(items@ =~= items_at::<T>(data, at, i as int));
        }
        Ok(Sequence(items))
    }
}

/// The bytes of item `i` of `n` items of `size` bytes lie within the run.
proof fn lemma_item_bounds(i: int, n: int, size: int)
    requires
        0 <= i < n,
        0 <= size,
    ensures
        0 <= i * size,
        i * size + size <= n * size,
        (i + 1) * size == i * size + size,
{
    assert(0 <= i * size) by (nonlinear_arith)
        requires
            0 <= i,
            0 <= size,
    ;
    assert((i + 1) * size == i * size + size) by (nonlinear_arith);
    assert((i + 1) * size <= n * size) by (nonlinear_arith)
        requires
            i + 1 <= n,
            0 <= size,
    ;
}

/// Whether `data` holds the bytes `bytes` at offset `at`. No bytes are held
/// anywhere, even beyond the end.
pub open spec fn holds(data: Seq<u8>, at: int, bytes: Seq<u8>) -> bool {
    bytes.len() == 0 || {
        &&& 0 <= at
        &&& at + bytes.len() <= data.len()
        &&& data.subrange(at, at + bytes.len()) == bytes
    }
}

/// Where `data` holds two runs of bytes joined, it holds the first of them
/// at the same offset and the second right behind it.
pub proof fn lemma_holds_split(data: Seq<u8>, at: int, first: Seq<u8>, second: Seq<u8>)
    requires
        holds(data, at, first + second),
    ensures
        holds(data, at, first),
        holds(data, at + first.len(), second),
{
    let whole = first + second;
    if whole.len() > 0 {
        assert(data.subrange(at, at + first.len()) =~= whole.subrange(0, first.len() as int));
        assert(whole.subrange(0, first.len() as int) =~= first);
        assert(data.subrange(at + first.len(), at + first.len() + second.len())
            =~= whole.subrange(first.len() as int, whole.len() as int));
        assert(whole.subrange(first.len() as int, whole.len() as int) =~= second);
    }
}

/// Where `data` holds the wire form of a value, the value can be read there.
pub proof fn lemma_value_held<T: Decode>(data: Seq<u8>, at: int, value: T)
    requires
        holds(data, at, value.wire()),
    ensures
        has_value::<T>(data, at),
        value_at::<T>(data, at) == value,
        value.wire().len() == T::wire_size(),
{
    value.lemma_wire_round_trip();
    assert(window(data, at, T::wire_size() as int) =~= value.wire());
}

/// The wire forms of `items`, each of the same size, are that many bytes.
pub proof fn lemma_concat_wire_len<T: Decode>(items: Seq<T>)
    ensures
        crate::utils::types::concat_wire(items).len() == items.len() * T::wire_size(),
    decreases items.len(),
{
    if items.len() > 0 {
        lemma_concat_wire_len::<T>(items.drop_last());
        items.last().lemma_wire_round_trip();
        assert((items.len() - 1) * T::wire_size() + T::wire_size() == items.len()
            * T::wire_size()) by (nonlinear_arith);
    } else {
        assert(0 * T::wire_size() == 0);
    }
}

/// Where `data` holds the wire forms of `items` one after another, the items
/// can be read there.
pub proof fn lemma_items_held<T: Decode>(data: Seq<u8>, at: int, items: Seq<T>)
    requires
        holds(data, at, crate::utils::types::concat_wire(items)),
    ensures
        fits(data, at, (items.len() * T::wire_size()) as int),
        items_at::<T>(data, at, items.len() as int) == items,
        crate::utils::types::concat_wire(items).len() == items.len() * T::wire_size(),
    decreases items.len(),
{
    lemma_concat_wire_len::<T>(items);
    if items.len() > 0 {
        let rest = items.drop_last();
        let last = items.last();
        lemma_concat_wire_len::<T>(rest);
        lemma_holds_split(data, at, crate::utils::types::concat_wire(rest), last.wire());
        lemma_items_held::<T>(data, at, rest);
        lemma_value_held::<T>(data, at + rest.len() * T::wire_size(), last);
        let read = items_at::<T>(data, at, items.len() as int);
        assert forall|i: int| 0 <= i < items.len() implies read[i] == items[i] by {
            if i < rest.len() {
                assert(items_at::<T>(data, at, rest.len() as int)[i] == rest[i]);
            }
        }
        assert(read =~= items);
    } else {
        assert(items_at::<T>(data, at, 0) =~= items);
    }
}

/// Where `data` holds one run of bytes and another right behind it, it
/// holds the two joined.
pub proof fn lemma_holds_join(data: Seq<u8>, at: int, first: Seq<u8>, second: Seq<u8>)
    requires
        holds(data, at, first),
        holds(data, at + first.len(), second),
    ensures
        holds(data, at, first + second),
{
    let whole = first + second;
    if first.len() == 0 {
        assert(whole =~= second);
    } else if second.len() == 0 {
        assert(whole =~= first);
    } else {
        assert forall|i: int| 0 <= i < whole.len() implies data.subrange(at, at + whole.len())[i]
            == whole[i] by {
            if i < first.len() {
                assert(data.subrange(at, at + first.len())[i] == first[i]);
            } else {
                assert(data.subrange(at + first.len(), at + first.len() + second.len())[i
                    - first.len()] == second[i - first.len()]);
            }
        }
        assert(data.subrange(at, at + whole.len()) =~= whole);
    }
}

/// Where a value can be read, `data` holds the wire form of the value.
pub proof fn lemma_value_exact<T: Decode>(data: Seq<u8>, at: int)
    requires
        0 <= at,
        has_value::<T>(data, at),
    ensures
        holds(data, at, value_at::<T>(data, at).wire()),
        value_at::<T>(data, at).wire().len() == T::wire_size(),
{
    T::lemma_wire_exact(window(data, at, T::wire_size() as int));
    let bytes = value_at::<T>(data, at).wire();
    if bytes.len() > 0 {
        assert(data.subrange(at, at + bytes.len()) =~= bytes);
    }
}

/// Where `n` values can be read, `data` holds their wire forms one after
/// another.
pub proof fn lemma_items_exact<T: Decode>(data: Seq<u8>, at: int, n: int)
    requires
        0 <= at,
        0 <= n,
        fits(data, at, n * T::wire_size()),
    ensures
        holds(data, at, crate::utils::types::concat_wire(items_at::<T>(data, at, n))),
        crate::utils::types::concat_wire(items_at::<T>(data, at, n)).len() == n * T::wire_size(),
    decreases n,
{
    let items = items_at::<T>(data, at, n);
    lemma_concat_wire_len::<T>(items);
    if n > 0 {
        let size = T::wire_size() as int;
        lemma_item_bounds(n - 1, n, size);
        let rest = items_at::<T>(data, at, n - 1);
        assert(items.drop_last() =~= rest);
        lemma_items_exact::<T>(data, at, n - 1);
        lemma_value_exact::<T>(data, at + (n - 1) * size);
        lemma_holds_join(
            data,
            at,
            crate::utils::types::concat_wire(rest),
            items.last().wire(),
        );
    }
}

/// Whether `data` from `at` on and `other` from `to` on hold the same `len`
/// bytes.
pub open spec fn same_bytes(data: Seq<u8>, at: int, other: Seq<u8>, to: int, len: int) -> bool {
    &&& 0 <= at
    &&& 0 <= to
    &&& 0 <= len
    &&& at + len <= data.len()
    &&& to + len <= other.len()
    &&& data.subrange(at, at + len) == other.subrange(to, to + len)
}

/// Two streams that hold the same bytes hold the same bytes behind the
/// first `k` of them.
pub proof fn lemma_same_bytes_skip(
    data: Seq<u8>,
    at: int,
    other: Seq<u8>,
    to: int,
    len: int,
    k: int,
)
    requires
        same_bytes(data, at, other, to, len),
        0 <= k <= len,
    ensures
        same_bytes(data, at + k, other, to + k, len - k),
{
    let a = data.subrange(at, at + len);
    let b = other.subrange(to, to + len);
    assert(data.subrange(at + k, at + len) =~= a.subrange(k, len));
    assert(other.subrange(to + k, to + len) =~= b.subrange(k, len));
}

/// Two streams that hold the same bytes give the same window within them.
pub proof fn lemma_same_window(
    data: Seq<u8>,
    at: int,
    other: Seq<u8>,
    to: int,
    len: int,
    n: int,
)
    requires
        same_bytes(data, at, other, to, len),
        0 <= n <= len,
    ensures
        fits(other, to, n),
        window(other, to, n) == window(data, at, n),
{
    let a = data.subrange(at, at + len);
    let b = other.subrange(to, to + len);
    if n > 0 {
        assert(data.subrange(at, at + n) =~= a.subrange(0, n));
        assert(other.subrange(to, to + n) =~= b.subrange(0, n));
    }
}

/// Two streams that hold the same bytes give the same value at their start.
pub proof fn lemma_same_value<T: Decode>(data: Seq<u8>, at: int, other: Seq<u8>, to: int, len: int)
    requires
        same_bytes(data, at, other, to, len),
        T::wire_size() <= len,
    ensures
        has_value::<T>(other, to),
        value_at::<T>(other, to) == value_at::<T>(data, at),
{
    lemma_same_window(data, at, other, to, len, T::wire_size() as int);
}

/// Two streams that hold the same bytes give the same run of values at
/// their start.
pub proof fn lemma_same_items<T: Decode>(
    data: Seq<u8>,
    at: int,
    other: Seq<u8>,
    to: int,
    len: int,
    n: int,
)
    requires
        same_bytes(data, at, other, to, len),
        0 <= n,
        n * T::wire_size() <= len,
    ensures
        fits(other, to, n * T::wire_size()),
        items_at::<T>(other, to, n) == items_at::<T>(data, at, n),
{
    let size = T::wire_size() as int;
    assert(0 <= n * size) by (nonlinear_arith)
        requires
            0 <= n,
            0 <= size,
    ;
    assert forall|i: int| 0 <= i < n implies items_at::<T>(other, to, n)[i] == items_at::<T>(
        data,
        at,
        n,
    )[i] by {
        lemma_item_bounds(i, n, size);
        lemma_same_bytes_skip(data, at, other, to, len, i * size);
        lemma_same_value::<T>(data, at + i * size, other, to + i * size, len - i * size);
    }
    assert(items_at::<T>(other, to, n) =~= items_at::<T>(data, at, n));
}

} // verus!
