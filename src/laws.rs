//! Properties that relate the list operations to one another, stated over
//! the payload sequence and the cursor sequence that their contracts use.
use vstd::prelude::*;
use crate::list::{clist, clistiter};

verus! {

/// Inserting before no cursor and inserting after no cursor both append the
/// payload at the tail, so the two give the same list.
pub proof fn law_no_cursor_appends<T>(lst: clist<T>, x: T)
    requires
        lst.wf(),
    ensures
        lst.accepts(None),
        lst.before_position(None) == lst.after_position(None),
        lst@.insert(lst.after_position(None), x) == lst@.push(x),
{
    assert(lst@.insert(lst@.len() as int, x) =~= lst@.push(x));
}

/// Inserting after the cursor of the last cell appends the payload at the
/// tail: a list built by inserting each payload after the cursor returned
/// for the one before (starting with no cursor) holds them in order.
pub proof fn law_insert_after_tail<T>(lst: clist<T>, x: T)
    requires
        lst.wf(),
        lst@.len() > 0,
    ensures
        lst.accepts(Some(lst.cursors().last())),
        lst@.insert(lst.after_position(Some(lst.cursors().last())), x) == lst@.push(x),
{
    lst.lemma_nth_position(lst@.len() - 1);
    assert(lst@.insert(lst@.len() as int, x) =~= lst@.push(x));
}

/// Deleting the cell that `nth` gives for `i` removes the payload at `i`,
/// leaves one cell fewer, and returns what `nth` gave for `i + 1` on the
/// list before, which is what `nth` gives for `i` afterwards; it returns
/// none when `i` was the last position.
pub proof fn law_delete_nth<T>(lst: clist<T>, i: int)
    requires
        lst.wf(),
        0 <= i < lst@.len(),
    ensures
        lst.valid(lst.cursors()[i]),
        lst.position(lst.cursors()[i]) == i,
        lst@.remove(i).len() == lst@.len() - 1,
        i + 1 < lst@.len() ==> lst.cursors().remove(i)[i] == lst.cursors()[i + 1],
{
    lst.lemma_nth_position(i);
}

/// Deleting the first cell again and again empties the list: each deletion
/// takes one payload off the front, and a list with no payloads has no
/// first and no last cell.
pub proof fn law_drain_from_first<T>(lst: clist<T>)
    requires
        lst.wf(),
    ensures
        lst@.len() > 0 ==> lst.valid(lst.cursors()[0]) && lst.position(lst.cursors()[0]) == 0
            && lst@.remove(0) == lst@.subrange(1, lst@.len() as int),
        lst@.len() == 0 <==> lst.cursors() == Seq::<clistiter>::empty(),
{
    lst.lemma_len();
    if lst@.len() > 0 {
        lst.lemma_nth_position(0);
        assert(lst@.remove(0) =~= lst@.subrange(1, lst@.len() as int));
    } else {
        assert(lst.cursors() =~= Seq::<clistiter>::empty());
    }
}

} // verus!
