//! A doubly-linked list whose cells live in an arena owned by the list.
//! Cursors are stable handles to cells: a cursor stays valid until its own
//! cell is deleted, whatever else happens to the list.

pub mod laws;
pub mod list;
