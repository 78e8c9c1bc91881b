//! The request façade: turns the plain values extracted from a request into
//! store operations, rejecting malformed input before the store is touched.

use vstd::prelude::*;
use crate::ids::{parse_note_id, parsed_id};
use crate::store::{created_from, has_id, remaining, Note, NoteStore};

verus! {

/// How often a create request draws a fresh random identifier anew before
/// giving up, should every drawn identifier be taken already.
pub const CREATE_DRAWS: usize = 128;

/// Serves a create request. `body` carries the request's text, or `None`
/// where the body had no text field: such a request is rejected without
/// reaching the store. A well-formed request appends a note with the text
/// verbatim and a fresh random identifier. `None` is owed only to a
/// malformed body or to a store that was not empty (every one of the
/// `CREATE_DRAWS` random draws collided); the store is then unchanged.
pub fn handle_create(store: &mut NoteStore, body: Option<String>) -> (r: Option<Note>)
    ensures
        match r {
            Some(n) => {
                &&& body matches Some(t) && n.text == t
                &&& created_from(old(store)@, final(store)@, n)
            },
            None => final(store)@ == old(store)@,
        },
        body is None ==> r is None,
        r is None ==> body is None || old(store)@.len() > 0,
        old(store).wf() ==> final(store).wf(),
{
    match body {
        Some(text) => store.create_with_retries(text, CREATE_DRAWS),
        None => None,
    }
}

/// Serves a delete request. `raw_id` is the request path's identifier
/// segment; if it is not a well-formed identifier string the request is
/// rejected (`None`) without reaching the store. Otherwise the note with
/// that identifier, if any, is removed, and the reply says whether one was.
pub fn handle_delete(store: &mut NoteStore, raw_id: &str) -> (r: Option<bool>)
    ensures
        match parsed_id(raw_id@) {
            Some(id) => {
                &&& r == Some(has_id(old(store)@, id))
                &&& final(store)@ == remaining(old(store)@, id)
            },
            None => {
                &&& r is None
                &&& final(store)@ == old(store)@
            },
        },
        old(store).wf() ==> final(store).wf(),
{
    match parse_note_id(raw_id) {
        Some(id) => Some(store.delete(id)),
        None => None,
    }
}

/// Serves a list request: a snapshot of the store's notes, in insertion
/// order. The store is not changed.
pub fn handle_list(store: &NoteStore) -> (r: Vec<Note>)
    ensures
        r@ == store@,
{
    store.list()
}

} // verus!
