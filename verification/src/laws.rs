//! The library's general laws, each stated over the store's model and
//! proved once for all inputs.

use vstd::prelude::*;
use crate::store::{
    created_from, has_id, ids_distinct, lemma_remaining_empty, lemma_remaining_membership,
    lemma_remaining_push, remaining, Note,
};

verus! {

/// A run of successful creates: `states[0]` is the starting collection and
/// the `k`-th create turns `states[k]` into `states[k + 1]`, returning
/// `notes[k]`.
pub open spec fn create_chain(states: Seq<Seq<Note>>, notes: Seq<Note>) -> bool {
    &&& states.len() == notes.len() + 1
    &&& forall|k: int| 0 <= k < notes.len() ==> created_from(states[k], states[k + 1], notes[k])
}

/// A note returned by a create is still present in every later state of a
/// run of creates.
proof fn lemma_chain_keeps(states: Seq<Seq<Note>>, notes: Seq<Note>, i: int, k: int)
    requires
        create_chain(states, notes),
        0 <= i < k <= notes.len(),
    ensures
        has_id(states[k], notes[i].id),
    decreases k - i,
{
    if k == i + 1 {
        assert(states[k] == states[i].push(notes[i]));
        assert(states[k][states[k].len() - 1].id == notes[i].id);
    } else {
        lemma_chain_keeps(states, notes, i, k - 1);
        let m = choose|m: int|
            0 <= m < states[k - 1].len() && (#[trigger] states[k - 1][m]).id == notes[i].id;
        assert(states[k] == states[k - 1].push(notes[k - 1]));
        assert(states[k][m].id == notes[i].id);
    }
}

/// Uniqueness: over any run of creates, the returned identifiers are
/// pairwise distinct.
pub proof fn lemma_create_ids_distinct(states: Seq<Seq<Note>>, notes: Seq<Note>)
    requires
        create_chain(states, notes),
    ensures
        forall|i: int, j: int| 0 <= i < j < notes.len() ==> notes[i].id != notes[j].id,
{
    assert forall|i: int, j: int| 0 <= i < j < notes.len() implies notes[i].id != notes[j].id by {
        lemma_chain_keeps(states, notes, i, j);
        assert(created_from(states[j], states[j + 1], notes[j]));
    }
}

/// A list taken after a create returning note `n` shows exactly one note
/// with `n`'s identifier — the newly appended last one — and it is `n`
/// itself, text included.
pub proof fn lemma_list_reflects_create(pre: Seq<Note>, post: Seq<Note>, n: Note)
    requires
        created_from(pre, post, n),
    ensures
        has_id(post, n.id),
        post[post.len() - 1] == n,
        forall|i: int|
            0 <= i < post.len() ==> ((#[trigger] post[i]).id == n.id <==> i == post.len() - 1),
{
    assert(post[post.len() - 1] == n);
    assert forall|i: int|
        0 <= i < post.len() implies ((#[trigger] post[i]).id == n.id <==> i == post.len()
        - 1) by {
        if i < post.len() - 1 {
            assert(post[i] == pre[i]);
        }
    }
}

/// Once a delete has removed `id`, no note with identifier `id` remains.
pub proof fn lemma_deleted_id_gone(s: Seq<Note>, id: u128)
    ensures
        !has_id(remaining(s, id), id),
{
    lemma_remaining_membership(s, id);
}

/// Delete idempotence on absence: deleting an identifier that no note
/// carries leaves the collection exactly as it was.
pub proof fn lemma_delete_absent(s: Seq<Note>, id: u128)
    requires
        !has_id(s, id),
    ensures
        remaining(s, id) == s,
    decreases s.len(),
{
    if s.len() == 0 {
        lemma_remaining_empty(id);
        assert(s =~= Seq::<Note>::empty());
    } else {
        let pre = s.drop_last();
        let x = s.last();
        assert(pre.push(x) =~= s);
        assert forall|m: int| 0 <= m < pre.len() implies (#[trigger] pre[m]).id != id by {
            assert(s[m] == pre[m]);
        }
        lemma_delete_absent(pre, id);
        lemma_remaining_push(pre, id, x);
        assert(s[s.len() - 1] == x);
        assert(remaining(s, id) == pre.push(x));
    }
}

/// Delete effectiveness: under the uniqueness invariant, deleting an
/// identifier that some note carries removes exactly that one note — the
/// result is the original with that one position taken out, one shorter,
/// the rest unchanged and in order.
pub proof fn lemma_delete_present(s: Seq<Note>, id: u128)
    requires
        ids_distinct(s),
        has_id(s, id),
    ensures
        exists|j: int|
            0 <= j < s.len() && (#[trigger] s[j]).id == id && remaining(s, id) == s.remove(j),
        remaining(s, id).len() == s.len() - 1,
    decreases s.len(),
{
    let pre = s.drop_last();
    let x = s.last();
    assert(pre.push(x) =~= s);
    lemma_remaining_push(pre, id, x);
    if x.id == id {
        assert forall|m: int| 0 <= m < pre.len() implies (#[trigger] pre[m]).id != id by {
            assert(pre[m] == s[m]);
            assert(s[m].id != s[s.len() - 1].id);
        }
        lemma_delete_absent(pre, id);
        assert(remaining(s, id) == pre);
        assert(pre =~= s.remove(s.len() - 1));
        assert(s[s.len() - 1].id == id);
    } else {
        let w = choose|w: int| 0 <= w < s.len() && (#[trigger] s[w]).id == id;
        assert(s[s.len() - 1] == x);
        assert(w < s.len() - 1);
        assert(pre[w] == s[w]);
        assert forall|i: int, m: int| 0 <= i < m < pre.len() implies (#[trigger] pre[i]).id != (
        #[trigger] pre[m]).id by {
            assert(pre[i] == s[i]);
            assert(pre[m] == s[m]);
        }
        lemma_delete_present(pre, id);
        let j = choose|j: int|
            0 <= j < pre.len() && (#[trigger] pre[j]).id == id && remaining(pre, id)
                == pre.remove(j);
        assert(remaining(s, id) == pre.remove(j).push(x));
        assert(pre.remove(j).push(x) =~= s.remove(j));
        assert(s[j].id == id);
    }
}

/// One completed mutating operation, as the store's contracts describe it.
pub enum StoreOp {
    Created(Note),
    Deleted(u128),
}

/// `post` is what the completed operation `op` leaves of `pre`: a create
/// appends its note, whose identifier was fresh; a delete filters its
/// identifier out.
pub open spec fn op_step(pre: Seq<Note>, op: StoreOp, post: Seq<Note>) -> bool {
    match op {
        StoreOp::Created(n) => created_from(pre, post, n),
        StoreOp::Deleted(id) => post == remaining(pre, id),
    }
}

/// A run of completed operations: the `k`-th turns `states[k]` into
/// `states[k + 1]`.
pub open spec fn op_run(states: Seq<Seq<Note>>, ops: Seq<StoreOp>) -> bool {
    &&& states.len() == ops.len() + 1
    &&& forall|k: int| 0 <= k < ops.len() ==> op_step(states[k], #[trigger] ops[k], states[k + 1])
}

/// `s` holds the note `n` exactly once, judged by `n`'s identifier:
/// deleting `n.id` would remove exactly one note, and every note carrying
/// `n.id` is `n` itself, text included.
pub open spec fn holds_exactly(s: Seq<Note>, n: Note) -> bool {
    &&& remaining(s, n.id).len() == s.len() - 1
    &&& forall|i: int| 0 <= i < s.len() && (#[trigger] s[i]).id == n.id ==> s[i] == n
}

/// Deleting one identifier does not change how many notes carry another.
proof fn lemma_remaining_other_count(s: Seq<Note>, id: u128, other: u128)
    requires
        id != other,
    ensures
        s.len() - remaining(s, other).len() == remaining(s, id).len() - remaining(
            remaining(s, id),
            other,
        ).len(),
    decreases s.len(),
{
    if s.len() == 0 {
        lemma_remaining_empty(other);
        lemma_remaining_empty(id);
        assert(s =~= Seq::<Note>::empty());
    } else {
        let pre = s.drop_last();
        let x = s.last();
        assert(pre.push(x) =~= s);
        lemma_remaining_other_count(pre, id, other);
        lemma_remaining_push(pre, other, x);
        lemma_remaining_push(pre, id, x);
        lemma_remaining_push(remaining(pre, id), other, x);
    }
}

/// An intervening create keeps exactly one copy of `n`, and cannot reuse
/// `n`'s identifier while `n` is held.
proof fn lemma_exactly_after_create(s: Seq<Note>, s2: Seq<Note>, n: Note, n2: Note)
    requires
        holds_exactly(s, n),
        created_from(s, s2, n2),
    ensures
        holds_exactly(s2, n),
        n2.id != n.id,
{
    if !has_id(s, n.id) {
        lemma_delete_absent(s, n.id);
        assert(false);
    }
    lemma_remaining_push(s, n.id, n2);
    assert forall|i: int| 0 <= i < s2.len() && (#[trigger] s2[i]).id == n.id implies s2[i]
        == n by {
        if i < s.len() {
            assert(s2[i] == s[i]);
        }
    }
}

/// An intervening delete of another identifier keeps exactly one copy of
/// `n`.
proof fn lemma_exactly_after_delete(s: Seq<Note>, n: Note, id: u128)
    requires
        holds_exactly(s, n),
        id != n.id,
    ensures
        holds_exactly(remaining(s, id), n),
{
    let t = remaining(s, id);
    lemma_remaining_membership(s, id);
    assert forall|i: int| 0 <= i < t.len() && (#[trigger] t[i]).id == n.id implies t[i] == n by {
        let m = choose|m: int| 0 <= m < s.len() && (#[trigger] s[m]) == t[i];
        assert(s[m].id == n.id);
    }
    lemma_remaining_other_count(s, id, n.id);
}

/// List reflects state, across a whole run: after the `k`-th operation of a
/// run created the note `n`, every later state of the run shows exactly one
/// note with `n`'s identifier — `n` itself, text included — until an
/// operation deletes `n`'s identifier.
pub proof fn lemma_list_reflects_history(
    states: Seq<Seq<Note>>,
    ops: Seq<StoreOp>,
    n: Note,
    k: int,
    j: int,
)
    requires
        op_run(states, ops),
        0 <= k < j <= ops.len(),
        ops[k] == StoreOp::Created(n),
        forall|m: int| k < m < j ==> #[trigger] ops[m] != StoreOp::Deleted(n.id),
    ensures
        holds_exactly(states[j], n),
    decreases j - k,
{
    if j == k + 1 {
        assert(op_step(states[k], ops[k], states[j]));
        lemma_delete_absent(states[k], n.id);
        lemma_remaining_push(states[k], n.id, n);
        assert forall|i: int| 0 <= i < states[j].len() && (#[trigger] states[j][i]).id == n.id
            implies states[j][i] == n by {
            if i < states[k].len() {
                assert(states[j][i] == states[k][i]);
            }
        }
    } else {
        lemma_list_reflects_history(states, ops, n, k, j - 1);
        assert(op_step(states[j - 1], ops[j - 1], states[j]));
        match ops[j - 1] {
            StoreOp::Created(n2) => {
                lemma_exactly_after_create(states[j - 1], states[j], n, n2);
            },
            StoreOp::Deleted(id) => {
                assert(ops[j - 1] != StoreOp::Deleted(n.id));
                lemma_exactly_after_delete(states[j - 1], n, id);
            },
        }
    }
}

/// The collection that a history of completed operations leaves when
/// replayed from the empty store: each create appends its note in
/// completion order, each delete filters its identifier out in place.
pub open spec fn replay(ops: Seq<StoreOp>) -> Seq<Note>
    decreases ops.len(),
{
    if ops.len() == 0 {
        Seq::<Note>::empty()
    } else {
        match ops.last() {
            StoreOp::Created(n) => replay(ops.drop_last()).push(n),
            StoreOp::Deleted(id) => remaining(replay(ops.drop_last()), id),
        }
    }
}

/// Order preservation, across a whole run: a store that starts empty holds,
/// after any run of completed operations, exactly their replay — the
/// created notes in completion order, the deleted ones filtered out with
/// the relative order of the rest unchanged.
pub proof fn lemma_run_replays(states: Seq<Seq<Note>>, ops: Seq<StoreOp>)
    requires
        op_run(states, ops),
        states[0] == Seq::<Note>::empty(),
    ensures
        states[ops.len() as int] == replay(ops),
    decreases ops.len(),
{
    if ops.len() > 0 {
        let sts = states.drop_last();
        let pres = ops.drop_last();
        assert forall|k: int| 0 <= k < pres.len() implies op_step(
            sts[k],
            #[trigger] pres[k],
            sts[k + 1],
        ) by {
            assert(pres[k] == ops[k]);
            assert(sts[k] == states[k]);
            assert(sts[k + 1] == states[k + 1]);
            assert(op_step(states[k], ops[k], states[k + 1]));
        }
        lemma_run_replays(sts, pres);
        assert(op_step(states[ops.len() - 1], ops[ops.len() - 1], states[ops.len() as int]));
        assert(states[ops.len() - 1] == sts[pres.len() as int]);
    }
}

/// Order preservation: whatever a delete leaves, it leaves in the original
/// relative order — any two surviving notes stood in that same order before
/// the delete.
pub proof fn lemma_delete_preserves_order(s: Seq<Note>, id: u128, a: int, b: int)
    requires
        ids_distinct(s),
        0 <= a < b < remaining(s, id).len(),
    ensures
        exists|a0: int, b0: int|
            0 <= a0 < b0 < s.len() && s[a0] == remaining(s, id)[a] && s[b0] == remaining(s, id)[b],
{
    if has_id(s, id) {
        lemma_delete_present(s, id);
        let j = choose|j: int|
            0 <= j < s.len() && (#[trigger] s[j]).id == id && remaining(s, id) == s.remove(j);
        let a0: int = if a < j {
            a
        } else {
            a + 1
        };
        let b0: int = if b < j {
            b
        } else {
            b + 1
        };
        assert(s[a0] == remaining(s, id)[a]);
        assert(s[b0] == remaining(s, id)[b]);
        assert(0 <= a0 < b0 < s.len());
    } else {
        lemma_delete_absent(s, id);
        assert(s[a] == remaining(s, id)[a]);
        assert(s[b] == remaining(s, id)[b]);
    }
}

} // verus!
