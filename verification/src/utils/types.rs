//! Containers whose wire form carries no length and no presence marker.

use crate::utils::codec::Encode;
use vstd::prelude::*;

verus! {

/// The wire forms of the items of `items`, one after another.
pub open spec fn concat_wire<T: Encode>(items: Seq<T>) -> Seq<u8>
    decreases items.len(),
{
    if items.len() == 0 {
        Seq::empty()
    } else {
        concat_wire(items.drop_last()) + items.last().wire()
    }
}

/// The wire form of two runs joined is the wire forms of the two, joined.
pub proof fn lemma_concat_wire_add<T: Encode>(first: Seq<T>, second: Seq<T>)
    ensures
        concat_wire(first + second) == concat_wire(first) + concat_wire(second),
    decreases second.len(),
{
    if second.len() == 0 {
        assert(first + second =~= first);
        assert(concat_wire(first) + concat_wire(second) =~= concat_wire(first));
    } else {
        let whole = first + second;
        assert(whole.drop_last() =~= first + second.drop_last());
        assert(whole.last() == second.last());
        lemma_concat_wire_add(first, second.drop_last());
        assert(concat_wire(whole) =~= concat_wire(first) + concat_wire(second));
    }
}

/// The wire form of a run of one item is the wire form of the item.
pub proof fn lemma_concat_wire_one<T: Encode>(item: T)
    ensures
        concat_wire(seq![item]) == item.wire(),
{
    let one = seq![item];
    assert(one.drop_last() =~= Seq::<T>::empty());
    assert(concat_wire(one.drop_last()) =~= Seq::<u8>::empty());
    assert(concat_wire(one) =~= item.wire());
}

/// The wire form of a run of bytes is the run itself.
pub proof fn lemma_bytes_wire(bytes: Seq<u8>)
    ensures
        concat_wire(bytes) == bytes,
    decreases bytes.len(),
{
    if bytes.len() > 0 {
        lemma_bytes_wire(bytes.drop_last());
        assert(bytes.drop_last().push(bytes.last()) =~= bytes);
        assert(bytes.drop_last() + bytes.last().wire() =~= bytes);
    } else {
        assert(concat_wire(bytes) =~= bytes);
    }
}

/// A run of items that is written without a length in front of it.
#[derive(Debug, Clone, PartialEq, Eq)]
pub struct Sequence<T>(pub Vec<T>);

impl<T> View for Sequence<T> {
    type V = Seq<T>;

    open spec fn view(&self) -> Seq<T> {
        self.0@
    }
}

impl<T> Sequence<T> {
    pub fn len(&self) -> (n: usize)
        ensures
            n == self@.len(),
    {
        self.0.len()
    }

    pub fn as_slice(&self) -> (s: &[T])
        ensures
            s@ == self@,
    {
        self.0.as_slice()
    }

    pub fn into_vec(self) -> (v: Vec<T>)
        ensures
            v@ == self@,
    {
        self.0
    }

    pub fn iter(&self) -> (it: core::slice::Iter<'_, T>)
        ensures
            vstd::std_specs::slice::into_iter_elts(it) == self@,
    {
        let items: &[T] = self.0.as_slice();
        let it = items.iter();
        proof {
            vstd::std_specs::slice::axiom_spec_slice_iter(items);
        }
        it
    }
}

impl<T> From<Vec<T>> for Sequence<T> {
    fn from(value: Vec<T>) -> (s: Self) {
        Sequence(value)
    }
}

impl<T> vstd::std_specs::convert::FromSpecImpl<Vec<T>> for Sequence<T> {
    open spec fn obeys_from_spec() -> bool {
        true
    }

    open spec fn from_spec(value: Vec<T>) -> Self {
        Sequence(value)
    }
}

impl<T: Encode> Encode for Sequence<T> {
    open spec fn wire(&self) -> Seq<u8> {
        concat_wire(self@)
    }

    fn encode(&self, out: &mut Vec<u8>) {
        let mut i: usize = 0;
        while i < self.0.len()
            invariant
                i <= self@.len(),
                out@ == old(out)@ + concat_wire(self@.take(i as int)),
            decreases self@.len() - i,
        {
            self.0[i].encode(out);
            proof {
                let next = self@.take(i + 1);
                assert(next.drop_last() =~= self@.take(i as int));
                assert(next.last() == self@[i as int]);
                assert(out@ =~= old(out)@ + concat_wire(next));
            }
            i = i + 1;
        }
        assert(self@.take(i as int) =~= self@);
    }
}

/// A value that may be absent; an absent value takes no bytes on the wire.
#[derive(Debug, Clone, Copy, PartialEq, Eq)]
pub enum Opt<T> {
    Present(T),
    Absent,
}

impl<T> Opt<T> {
    pub fn as_option(&self) -> (r: Option<&T>)
        ensures
            r == match self {
                Opt::Present(value) => Option::Some(value),
                Opt::Absent => Option::None,
            },
    {
        match self {
            Opt::Present(value) => Option::Some(value),
            Opt::Absent => Option::None,
        }
    }
}

impl<T> From<Option<T>> for Opt<T> {
    fn from(value: Option<T>) -> (r: Self) {
        match value {
            Option::Some(value) => Opt::Present(value),
            Option::None => Opt::Absent,
        }
    }
}

impl<T> vstd::std_specs::convert::FromSpecImpl<Option<T>> for Opt<T> {
    open spec fn obeys_from_spec() -> bool {
        true
    }

    open spec fn from_spec(value: Option<T>) -> Self {
        match value {
            Option::Some(value) => Opt::Present(value),
            Option::None => Opt::Absent,
        }
    }
}

impl<T: Encode> Encode for Opt<T> {
    open spec fn wire(&self) -> Seq<u8> {
        match self {
            Opt::Present(value) => value.wire(),
            Opt::Absent => Seq::empty(),
        }
    }

    fn encode(&self, out: &mut Vec<u8>) {
        match self {
            Opt::Present(value) => value.encode(out),
            Opt::Absent => {
                assert(out@ =~= old(out)@ + Seq::<u8>::empty());
            },
        }
    }
}

} // verus!
