//! The note store: an ordered in-memory collection of notes, no two of
//! which share an identifier.

use vstd::prelude::*;

verus! {

/// A note: a 128-bit identifier assigned at creation, and the client's text.
pub struct Note {
    pub id: u128,
    pub text: String,
}

impl Note {
    /// An exact copy of the note.
    pub fn duplicate(&self) -> (r: Note)
        ensures
            r == *self,
    {
        Note { id: self.id, text: self.text.clone() }
    }
}

/// Whether some note in `s` carries the identifier `id`.
pub open spec fn has_id(s: Seq<Note>, id: u128) -> bool {
    exists|i: int| 0 <= i < s.len() && s[i].id == id
}

/// No two notes in `s` share an identifier.
pub open spec fn ids_distinct(s: Seq<Note>) -> bool {
    forall|i: int, j: int| 0 <= i < j < s.len() ==> s[i].id != s[j].id
}

/// The store's transition on a successful create: `n`'s identifier was
/// fresh, and `n` was appended at the end.
pub open spec fn created_from(pre: Seq<Note>, post: Seq<Note>, n: Note) -> bool {
    &&& !has_id(pre, n.id)
    &&& post == pre.push(n)
}

/// The notes of `s` that survive deleting `id`: every note whose identifier
/// differs from `id`, in their original order.
pub open spec fn remaining(s: Seq<Note>, id: u128) -> Seq<Note> {
    s.filter(|n: Note| n.id != id)
}

/// Deleting from the empty collection leaves it empty.
pub proof fn lemma_remaining_empty(id: u128)
    ensures
        remaining(Seq::<Note>::empty(), id) == Seq::<Note>::empty(),
{
    reveal(Seq::filter);
}

/// Deleting `id` after appending `x` keeps `x` exactly when its identifier
/// differs from `id`, and touches nothing before it.
pub proof fn lemma_remaining_push(s: Seq<Note>, id: u128, x: Note)
    ensures
        x.id != id ==> remaining(s.push(x), id) == remaining(s, id).push(x),
        x.id == id ==> remaining(s.push(x), id) == remaining(s, id),
{
    reveal(Seq::filter);
    assert(s.push(x).drop_last() =~= s);
    assert(s.push(x).last() == x);
}

/// Every survivor of deleting `id` stood in the original sequence and does
/// not carry `id`; no note is invented, so the count cannot grow.
pub proof fn lemma_remaining_membership(s: Seq<Note>, id: u128)
    ensures
        forall|k: int|
            0 <= k < remaining(s, id).len() ==> s.contains(#[trigger] remaining(s, id)[k])
                && remaining(s, id)[k].id != id,
        remaining(s, id).len() <= s.len(),
    decreases s.len(),
{
    if s.len() == 0 {
        lemma_remaining_empty(id);
        assert(s =~= Seq::<Note>::empty());
    } else {
        let pre = s.drop_last();
        let x = s.last();
        lemma_remaining_membership(pre, id);
        lemma_remaining_push(pre, id, x);
        assert(pre.push(x) =~= s);
        assert forall|k: int| 0 <= k < remaining(s, id).len() implies s.contains(
            #[trigger] remaining(s, id)[k],
        ) && remaining(s, id)[k].id != id by {
            if x.id != id && k == remaining(s, id).len() - 1 {
                assert(remaining(s, id)[k] == x);
                assert(s[s.len() - 1] == x);
            } else {
                assert(remaining(s, id)[k] == remaining(pre, id)[k]);
                let m = choose|m: int| 0 <= m < pre.len() && pre[m] == remaining(pre, id)[k];
                assert(s[m] == remaining(s, id)[k]);
            }
        }
    }
}

/// Survivors of a delete still have pairwise distinct identifiers.
pub proof fn lemma_remaining_distinct(s: Seq<Note>, id: u128)
    requires
        ids_distinct(s),
    ensures
        ids_distinct(remaining(s, id)),
    decreases s.len(),
{
    if s.len() == 0 {
        lemma_remaining_empty(id);
        assert(s =~= Seq::<Note>::empty());
    } else {
        let pre = s.drop_last();
        let x = s.last();
        assert(forall|i: int| 0 <= i < pre.len() ==> pre[i] == s[i]);
        lemma_remaining_distinct(pre, id);
        lemma_remaining_push(pre, id, x);
        lemma_remaining_membership(pre, id);
        assert(pre.push(x) =~= s);
        if x.id != id {
            let out = remaining(pre, id).push(x);
            assert forall|i: int, j: int| 0 <= i < j < out.len() implies out[i].id != out[j].id by {
                if j == out.len() - 1 {
                    let m = choose|m: int| 0 <= m < pre.len() && pre[m] == remaining(pre, id)[i];
                    assert(s[m].id != s[s.len() - 1].id);
                }
            }
        }
    }
}

/// The ordered collection of notes the server holds.
pub struct NoteStore {
    notes: Vec<Note>,
}

impl View for NoteStore {
    type V = Seq<Note>;

    closed spec fn view(&self) -> Seq<Note> {
        self.notes@
    }
}

impl NoteStore {
    /// The store's invariant: identifiers are pairwise distinct.
    pub open spec fn wf(&self) -> bool {
        ids_distinct(self@)
    }

    /// An empty store, as at process start.
    pub fn new() -> (r: NoteStore)
        ensures
            r@ == Seq::<Note>::empty(),
            r.wf(),
    {
        NoteStore { notes: Vec::new() }
    }

    /// How many notes the store currently holds.
    pub fn len(&self) -> (r: usize)
        ensures
            r == self@.len(),
    {
        self.notes.len()
    }

    /// Whether the store holds a note with identifier `id`.
    pub fn contains_id(&self, id: u128) -> (r: bool)
        ensures
            r == has_id(self@, id),
    {
        let mut i: usize = 0;
        while i < self.notes.len()
            invariant
                0 <= i <= self.notes.len(),
                !has_id(self.notes@.take(i as int), id),
            decreases self.notes.len() - i,
        {
            if self.notes[i].id == id {
                assert(self@[i as int].id == id);
                return true;
            }
            assert(self.notes@.take((i + 1) as int) =~= self.notes@.take(i as int).push(
                self.notes@[i as int],
            ));
            i = i + 1;
        }
        assert(self.notes@.take(self.notes@.len() as int) =~= self.notes@);
        false
    }

    /// Appends a note with identifier `id` and the given text, provided `id`
    /// is not already taken, and returns a copy of the appended note. If
    /// `id` is already present, leaves the store unchanged and returns
    /// `None`: the uniqueness invariant is never broken.
    pub fn insert_fresh(&mut self, id: u128, text: String) -> (r: Option<Note>)
        ensures
            match r {
                Some(n) => {
                    &&& n.id == id
                    &&& n.text == text
                    &&& created_from(old(self)@, final(self)@, n)
                },
                None => {
                    &&& has_id(old(self)@, id)
                    &&& final(self)@ == old(self)@
                },
            },
            old(self).wf() ==> final(self).wf(),
    {
        if self.contains_id(id) {
            return None;
        }
        let n = Note { id, text };
        let copy = n.duplicate();
        self.notes.push(n);
        proof {
            if old(self).wf() {
                assert forall|i: int, j: int|
                    0 <= i < j < self@.len() implies self@[i].id != self@[j].id by {
                    if j < old(self)@.len() {
                    } else {
                        assert(self@[j] == copy);
                        assert(!has_id(old(self)@, id));
                        assert(self@[i] == old(self)@[i]);
                    }
                }
            }
        }
        Some(copy)
    }

    /// A snapshot copy of all current notes, in insertion order.
    pub fn list(&self) -> (r: Vec<Note>)
        ensures
            r@ == self@,
    {
        let mut r: Vec<Note> = Vec::new();
        let mut i: usize = 0;
        while i < self.notes.len()
            invariant
                0 <= i <= self.notes.len(),
                r@ == self.notes@.take(i as int),
            decreases self.notes.len() - i,
        {
            r.push(self.notes[i].duplicate());
            assert(self.notes@.take((i + 1) as int) =~= self.notes@.take(i as int).push(
                self.notes@[i as int],
            ));
            i = i + 1;
        }
        assert(self.notes@.take(self.notes@.len() as int) =~= self.notes@);
        r
    }

    /// Removes every note whose identifier is `id` (at most one, under the
    /// uniqueness invariant) and reports whether any note was removed.
    /// Deleting an absent identifier is a normal outcome, not an error.
    pub fn delete(&mut self, id: u128) -> (r: bool)
        ensures
            final(self)@ == remaining(old(self)@, id),
            r == has_id(old(self)@, id),
            old(self).wf() ==> final(self).wf(),
    {
        let ghost s = self.notes@;
        let mut kept: Vec<Note> = Vec::new();
        let mut found = false;
        let mut i: usize = 0;
        while i < self.notes.len()
            invariant
                0 <= i <= self.notes.len(),
                self.notes@ == s,
                kept@ == remaining(s.take(i as int), id),
                found == has_id(s.take(i as int), id),
            decreases self.notes.len() - i,
        {
            proof {
                lemma_remaining_push(s.take(i as int), id, s[i as int]);
                assert(s.take((i + 1) as int) =~= s.take(i as int).push(s[i as int]));
            }
            if self.notes[i].id == id {
                found = true;
                assert(s.take((i + 1) as int)[i as int].id == id);
            } else {
                kept.push(self.notes[i].duplicate());
                proof {
                    if has_id(s.take((i + 1) as int), id) {
                        let m = choose|m: int|
                            0 <= m < i + 1 && (#[trigger] s.take((i + 1) as int)[m]).id == id;
                        assert(m < i && s.take(i as int)[m].id == id);
                    }
                }
            }
            i = i + 1;
        }
        proof {
            assert(s.take(s.len() as int) =~= s);
            if old(self).wf() {
                lemma_remaining_distinct(s, id);
            }
        }
        self.notes = kept;
        found
    }

    /// Draws a random identifier and appends a note carrying it and the
    /// given text. The identifier is random: if, exceptionally, it is
    /// already taken, the store is left unchanged and `None` is returned;
    /// otherwise the new note (fresh identifier, the text verbatim) is
    /// appended at the end and a copy of it is returned. On an empty store
    /// no identifier can be taken, so success is owed there.
    pub fn create(&mut self, text: String) -> (r: Option<Note>)
        ensures
            match r {
                Some(n) => {
                    &&& n.text == text
                    &&& created_from(old(self)@, final(self)@, n)
                },
                None => final(self)@ == old(self)@,
            },
            r is None ==> old(self)@.len() > 0,
            old(self).wf() ==> final(self).wf(),
    {
        let id = crate::ids::fresh_id();
        self.insert_fresh(id, text)
    }

    /// As `create`, drawing anew up to `tries` times while the drawn
    /// identifier is taken. `None` is owed only to a store that was not
    /// empty (every draw collided) or to `tries == 0`; the store is then
    /// unchanged.
    pub fn create_with_retries(&mut self, text: String, tries: usize) -> (r: Option<Note>)
        ensures
            match r {
                Some(n) => {
                    &&& n.text == text
                    &&& created_from(old(self)@, final(self)@, n)
                },
                None => final(self)@ == old(self)@,
            },
            r is None ==> tries == 0 || old(self)@.len() > 0,
            old(self).wf() ==> final(self).wf(),
    {
        let mut k: usize = 0;
        while k < tries
            invariant
                0 <= k <= tries,
                self@ == old(self)@,
                k > 0 ==> old(self)@.len() > 0,
            decreases tries - k,
        {
            let id = crate::ids::fresh_id();
            match self.insert_fresh(id, text.clone()) {
                Some(n) => {
                    return Some(n);
                },
                None => {},
            }
            k = k + 1;
        }
        None
    }
}

} // verus!
