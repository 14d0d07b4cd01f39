//! A singly linked list driven through the [`crate::Queue`] trait, with a
//! borrowing iterator over its items.

use vstd::prelude::*;

use crate::Queue;

verus! {

enum Chain<T> {
    Empty,
    Filled(Box<ListNode<T>>),
}

struct ListNode<T> {
    value: T,
    next: Chain<T>,
}

/// A singly linked first-in, first-out list.
pub struct List<T> {
    head: Chain<T>,
}

/// The items hanging off `chain`, front first.
spec fn chain_items<T>(chain: Chain<T>) -> Seq<T>
    decreases chain,
{
    match chain {
        Chain::Empty => Seq::empty(),
        Chain::Filled(n) => seq![n.value] + chain_items(n.next),
    }
}

/// Adds `item` at the far end of `chain`.
fn push_back<T>(chain: &mut Chain<T>, item: T)
    ensures
        chain_items(*final(chain)) == chain_items(*old(chain)).push(item),
    decreases *old(chain),
{
    let mut taken = Chain::Empty;
    core::mem::swap(chain, &mut taken);
    match taken {
        Chain::Empty => {
            *chain = Chain::Filled(Box::new(ListNode { value: item, next: Chain::Empty }));
            proof {
                assert(chain_items(*chain) =~= chain_items(*old(chain)).push(item));
            }
        },
        Chain::Filled(mut n) => {
            push_back(&mut n.next, item);
            *chain = Chain::Filled(n);
            proof {
                assert(chain_items(*chain) =~= chain_items(*old(chain)).push(item));
            }
        },
    }
}

impl<T> List<T> {
    pub fn new() -> (empty: Self)
        ensures
            empty.inv(),
            empty.items() == Seq::<T>::empty(),
    {
        List { head: Chain::Empty }
    }

    /// Starts a walk over the items, front first.
    pub fn iter(&self) -> (it: ListIterator<T>)
        ensures
            it.remaining() == self.items(),
    {
        ListIterator { cursor: &self.head }
    }
}

impl<T> Queue<T> for List<T> {
    open spec fn inv(&self) -> bool {
        true
    }

    closed spec fn items(&self) -> Seq<T> {
        chain_items(self.head)
    }

    fn enqueue(&mut self, item: T) {
        push_back(&mut self.head, item);
    }

    fn dequeue(&mut self) -> (front: Option<T>) {
        let mut taken = Chain::Empty;
        core::mem::swap(&mut self.head, &mut taken);
        match taken {
            Chain::Empty => None,
            Chain::Filled(n) => {
                let ListNode { value, next } = *n;
                self.head = next;
                proof {
                    assert(self.items() =~= old(self).items().drop_first());
                }
                Some(value)
            },
        }
    }
}

/// A borrowing cursor over a [`List`], handed out by [`List::iter`].
pub struct ListIterator<'a, T> {
    cursor: &'a Chain<T>,
}

impl<'a, T> ListIterator<'a, T> {
    /// The items not yet walked over.
    pub closed spec fn remaining(&self) -> Seq<T> {
        chain_items(*self.cursor)
    }

    /// Borrows the next item, or nothing once the walk is done.
    pub fn next(&mut self) -> (item: Option<&'a T>)
        ensures
            item.is_some() == (old(self).remaining().len() > 0),
            item.is_some() ==> *item.unwrap() == old(self).remaining().first()
                && final(self).remaining() == old(self).remaining().drop_first(),
            item.is_none() ==> final(self).remaining() == old(self).remaining(),
    {
        let walked: &'a Chain<T> = self.cursor;
        match walked {
            Chain::Empty => None,
            Chain::Filled(n) => {
                self.cursor = &n.next;
                proof {
                    assert(self.remaining() =~= old(self).remaining().drop_first());
                }
                Some(&n.value)
            },
        }
    }
}

} // verus!
