//! Reading a list item by item, up to the first refusal.

use crate::gltf::error::Outcome;
use crate::json::Model;
use vstd::prelude::*;

verus! {

/// What `read` makes of each item with its index, or the first refusal.
pub open spec fn collected<T>(
    items: Seq<Model>,
    read: spec_fn(int, Model) -> Outcome<T>,
) -> Outcome<Seq<T>>
    decreases items.len(),
{
    if items.len() == 0 {
        Ok(Seq::empty())
    } else {
        match collected(items.drop_last(), read) {
            Err(message) => Err(message),
            Ok(done) => match read(items.len() - 1, items.last()) {
                Err(message) => Err(message),
                Ok(value) => Ok(done.push(value)),
            },
        }
    }
}

/// One more item after those that were accepted.
pub proof fn lemma_collected_next<T>(
    items: Seq<Model>,
    read: spec_fn(int, Model) -> Outcome<T>,
    index: int,
)
    requires
        0 <= index < items.len(),
        collected(items.take(index), read) is Ok,
    ensures
        match read(index, items[index]) {
            Ok(value) => collected(items.take(index + 1), read) == Ok::<Seq<T>, Seq<char>>(
                collected(items.take(index), read)->Ok_0.push(value),
            ),
            Err(message) => collected(items, read) == Err::<Seq<T>, Seq<char>>(message),
        },
{
    assert(items.take(index + 1).drop_last() =~= items.take(index));
    assert(items.take(index + 1).last() == items[index]);
    if read(index, items[index]) is Err {
        lemma_collected_stops(items, read, index);
    }
}

proof fn lemma_collected_stops<T>(
    items: Seq<Model>,
    read: spec_fn(int, Model) -> Outcome<T>,
    index: int,
)
    requires
        0 <= index < items.len(),
        collected(items.take(index), read) is Ok,
        read(index, items[index]) is Err,
    ensures
        collected(items, read) == Err::<Seq<T>, Seq<char>>(read(index, items[index])->Err_0),
    decreases items.len(),
{
    if index == items.len() - 1 {
        assert(items.drop_last() =~= items.take(index));
    } else {
        assert(items.drop_last().take(index) =~= items.take(index));
        lemma_collected_stops(items.drop_last(), read, index);
    }
}

/// All the items of a list.
pub proof fn lemma_collected_all<T>(items: Seq<Model>, read: spec_fn(int, Model) -> Outcome<T>)
    ensures
        collected(items.take(items.len() as int), read) == collected(items, read),
        collected(items.take(0), read) == Ok::<Seq<T>, Seq<char>>(Seq::empty()),
{
    assert(items.take(items.len() as int) =~= items);
}

/// Each accepted item is what `read` makes of it.
pub proof fn lemma_collected_items<T>(items: Seq<Model>, read: spec_fn(int, Model) -> Outcome<T>)
    ensures
        collected(items, read) matches Ok(values) ==> values.len() == items.len() && forall|i: int|
            0 <= i < items.len() ==> read(i, items[i]) == Ok::<T, Seq<char>>(#[trigger] values[i]),
    decreases items.len(),
{
    if items.len() > 0 {
        lemma_collected_items(items.drop_last(), read);
    }
}

} // verus!
