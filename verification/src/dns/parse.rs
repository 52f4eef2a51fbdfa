//! What the decoders of this crate return, as a mathematical value.

use crate::dns::error::DecodeError;
use vstd::prelude::*;

verus! {

/// What reading a value from a buffer gives: the value and the offset just
/// past it, or the reason why there is no value to read.
pub type Parsed<T> = Result<(T, int), DecodeError>;

/// `rest` with the items `done` put in front of its items.
pub open spec fn with_items_before<T>(done: Seq<T>, rest: Parsed<Seq<T>>) -> Parsed<Seq<T>> {
    match rest {
        Ok((items, end)) => Ok((done + items, end)),
        Err(e) => Err(e),
    }
}

/// Putting no items in front changes nothing.
pub proof fn lemma_nothing_before<T>(rest: Parsed<Seq<T>>)
    ensures
        with_items_before(Seq::empty(), rest) == rest,
{
    if let Ok((items, end)) = rest {
        assert(Seq::<T>::empty() + items =~= items);
    }
}

/// Putting one item in front, and then more items in front of that, is
/// putting them all in front at once.
pub proof fn lemma_one_more_before<T>(done: Seq<T>, item: T, rest: Parsed<Seq<T>>)
    ensures
        with_items_before(done, with_items_before(seq![item], rest)) == with_items_before(
            done.push(item),
            rest,
        ),
{
    if let Ok((items, end)) = rest {
        assert(done + (seq![item] + items) =~= done.push(item) + items);
    }
}

/// Putting all items in front of an empty rest gives those items.
pub proof fn lemma_all_before<T>(done: Seq<T>, end: int)
    ensures
        with_items_before(done, Ok((Seq::empty(), end))) == Ok::<_, DecodeError>((done, end)),
{
}

} // verus!
