//! Lists in the order of a text that each item carries.
use crate::text;
use vstd::prelude::*;

verus! {

/// An item that is listed by a text.
pub trait Keyed: Sized {
    /// The text that the item is listed by.
    spec fn key(&self) -> Seq<char>;

    /// The text that the item is listed by.
    fn key_text(&self) -> (r: &str)
        ensures
            r@ == self.key(),
    ;
}

/// No item comes before one that stands ahead of it.
pub open spec fn in_order(keys: Seq<Seq<char>>) -> bool {
    forall|i: int, j: int|
        0 <= i < j < keys.len() ==> !text::text_less(#[trigger] keys[j], #[trigger] keys[i])
}

/// The texts that the items are listed by.
pub open spec fn keys<T: Keyed>(items: Seq<T>) -> Seq<Seq<char>> {
    Seq::new(items.len(), |i: int| items[i].key())
}

/// Puts an item into an ordered list, behind the items with the same key.
pub fn insert_in_order<T: Keyed>(items: &mut Vec<T>, item: T) -> (at: usize)
    requires
        in_order(keys(old(items)@)),
    ensures
        at <= old(items)@.len(),
        final(items)@ == old(items)@.insert(at as int, item),
        forall|j: int|
            at <= j < old(items)@.len() ==> text::text_less(
                item.key(),
                #[trigger] keys(old(items)@)[j],
            ),
        in_order(keys(final(items)@)),
{
    let ghost before = keys(items@);
    let mut at: usize = items.len();
    while at > 0 && text::less(item.key_text(), items[at - 1].key_text())
        invariant
            at <= items@.len(),
            before == keys(items@),
            forall|j: int|
                at <= j < items@.len() ==> text::text_less(item.key(), #[trigger] before[j]),
        decreases at,
    {
        assert(before[at - 1] == items@[at - 1].key());
        at -= 1;
    }
    proof {
        let k = item.key();
        let after = before.insert(at as int, k);
        assert(keys(items@.insert(at as int, item)) =~= after);
        assert forall|i: int, j: int| 0 <= i < j < after.len() implies !text::text_less(
            #[trigger] after[j],
            #[trigger] after[i],
        ) by {
            before.insert_ensures(at as int, k);
            let bi = if i < at {
                i
            } else {
                i - 1
            };
            let bj = if j < at {
                j
            } else {
                j - 1
            };
            if j == at {
                assert(after[i] == before[i]);
                assert(before[at - 1] == items@[at - 1].key());
                if i < at - 1 {
                    if text::text_less(k, before[i]) {
                        text::text_order_is_total(before[i], before[at - 1]);
                        if before[i] != before[at - 1] {
                            text::text_order_is_transitive(k, before[i], before[at - 1]);
                        }
                    }
                }
            } else if i == at {
                assert(after[j] == before[j - 1]);
                text::text_order_is_total(k, before[j - 1]);
            } else {
                assert(after[i] == before[bi]);
                assert(after[j] == before[bj]);
            }
        }
    }
    items.insert(at, item);
    at
}

/// In an ordered list, whatever stands ahead of an item has the same key or a smaller one.
pub proof fn ordered_lists_ascend(keys: Seq<Seq<char>>, i: int, j: int)
    requires
        in_order(keys),
        0 <= i < j < keys.len(),
    ensures
        keys[i] == keys[j] || text::text_less(keys[i], keys[j]),
{
    text::text_order_is_total(keys[i], keys[j]);
}

} // verus!
