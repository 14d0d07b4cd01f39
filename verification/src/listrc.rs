//! A second, free-standing linked-list queue whose operations report the
//! list's length as they go.

use vstd::prelude::*;

verus! {

struct ListNode<T> {
    next: Option<Box<ListNode<T>>>,
    value: T,
}

/// A singly linked first-in, first-out list that counts itself.
pub struct List<T> {
    entry: Option<Box<ListNode<T>>>,
}

/// The items hanging off `link`, front first.
spec fn tail_items<T>(link: Option<Box<ListNode<T>>>) -> Seq<T>
    decreases link,
{
    match link {
        None => Seq::empty(),
        Some(n) => seq![n.value] + tail_items(n.next),
    }
}

/// Adds `value` at the far end and counts the items now below `link`.
fn put_tail<T>(link: &mut Option<Box<ListNode<T>>>, value: T) -> (count: usize)
    requires
        tail_items(*old(link)).len() < usize::MAX,
    ensures
        tail_items(*final(link)) == tail_items(*old(link)).push(value),
        count == tail_items(*final(link)).len(),
    decreases *old(link),
{
    match link.take() {
        None => {
            *link = Some(Box::new(ListNode { next: None, value }));
            proof {
                assert(tail_items(*link) =~= tail_items(*old(link)).push(value));
            }
            1
        },
        Some(mut n) => {
            let below = put_tail(&mut n.next, value);
            *link = Some(n);
            proof {
                assert(tail_items(*link) =~= tail_items(*old(link)).push(value));
            }
            below + 1
        },
    }
}

/// Counts the items below `link`.
fn tail_len<T>(link: &Option<Box<ListNode<T>>>) -> (count: usize)
    requires
        tail_items(*link).len() <= usize::MAX,
    ensures
        count == tail_items(*link).len(),
    decreases *link,
{
    match link {
        None => 0,
        Some(n) => 1 + tail_len(&n.next),
    }
}

impl<T> List<T> {
    /// Every operation keeps the length within the machine's reach.
    pub closed spec fn inv(&self) -> bool {
        tail_items(self.entry).len() <= usize::MAX
    }

    /// The held items, front first.
    pub closed spec fn items(&self) -> Seq<T> {
        tail_items(self.entry)
    }

    pub fn new() -> (empty: Self)
        ensures
            empty.inv(),
            empty.items() == Seq::<T>::empty(),
    {
        List { entry: None }
    }

    /// How many items are held.
    pub fn len(&self) -> (count: usize)
        requires
            self.inv(),
        ensures
            count == self.items().len(),
    {
        tail_len(&self.entry)
    }

    /// Adds `value` at the back and reports the new length.
    pub fn enqueu(&mut self, value: T) -> (count: usize)
        requires
            old(self).inv(),
            old(self).items().len() < usize::MAX,
        ensures
            final(self).inv(),
            final(self).items() == old(self).items().push(value),
            count == final(self).items().len(),
    {
        put_tail(&mut self.entry, value)
    }

    /// Takes the item at the front, if any.
    pub fn dequeu(&mut self) -> (front: Option<T>)
        requires
            old(self).inv(),
        ensures
            final(self).inv(),
            old(self).items().len() == 0 ==> front.is_none() && final(self).items()
                == old(self).items(),
            old(self).items().len() > 0 ==> front == Some(old(self).items().first())
                && final(self).items() == old(self).items().drop_first(),
    {
        match self.entry.take() {
            None => None,
            Some(n) => {
                let ListNode { next, value } = *n;
                self.entry = next;
                proof {
                    assert(self.items() =~= old(self).items().drop_first());
                }
                Some(value)
            },
        }
    }
}

} // verus!
