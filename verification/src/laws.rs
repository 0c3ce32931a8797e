//! The store's laws, stated over its mathematical model (the id-to-record
//! mapping that `task_map_of` denotes and that the operations' contracts
//! speak of) and proved for every input.

use vstd::prelude::*;

use crate::records::{TaskView, UserView};
use crate::store::{
    distinct_task_ids, has_task_id, is_first_match, lemma_task_map_props, spec_login, task_map_of,
};

verus! {

/// Inserting a record and then looking up its id yields exactly the record
/// that was inserted, for every store, identifier and payload.
pub proof fn lemma_insert_then_get(m: Map<u64, TaskView>, t: TaskView)
    ensures
        m.insert(t.id, t).contains_key(t.id),
        m.insert(t.id, t)[t.id] == t,
{
}

/// An update replaces the full prior record at that id: nothing of the
/// earlier version survives, and the store is as if only the later record
/// had ever been written there.
pub proof fn lemma_update_replaces(m: Map<u64, TaskView>, t1: TaskView, t2: TaskView)
    requires
        t1.id == t2.id,
    ensures
        m.insert(t1.id, t1).insert(t2.id, t2) == m.insert(t2.id, t2),
        m.insert(t1.id, t1).insert(t2.id, t2)[t2.id] == t2,
{
    assert(m.insert(t1.id, t1).insert(t2.id, t2) =~= m.insert(t2.id, t2));
}

/// After a delete, a get on the same id reports the record absent.
pub proof fn lemma_delete_then_get(m: Map<u64, TaskView>, id: u64)
    ensures
        !m.remove(id).contains_key(id),
{
}

/// Deleting an id that is not present leaves the store unchanged and
/// signals no error.
pub proof fn lemma_delete_absent_noop(m: Map<u64, TaskView>, id: u64)
    requires
        !m.contains_key(id),
    ensures
        m.remove(id) == m,
{
    assert(m.remove(id) =~= m);
}

/// What `get_all` hands out is, as a set, exactly the store's surviving
/// records: every listed record is in the mapping under its id, every
/// mapped record is listed, and no record is listed twice.
pub proof fn lemma_get_all_matches_store(tasks: Seq<TaskView>)
    requires
        distinct_task_ids(tasks),
    ensures
        forall|i: int| #![trigger tasks[i]]
            0 <= i < tasks.len() ==> task_map_of(tasks).contains_key(tasks[i].id) && task_map_of(
                tasks,
            )[tasks[i].id] == tasks[i],
        forall|k: u64|
            #[trigger] task_map_of(tasks).contains_key(k) ==> has_task_id(tasks, k),
        forall|i: int, j: int| 0 <= i < j < tasks.len() ==> tasks[i] != tasks[j],
{
    lemma_task_map_props(tasks);
    assert forall|i: int, j: int| 0 <= i < j < tasks.len() implies tasks[i] != tasks[j] by {
        assert(tasks[i].id != tasks[j].id);
    }
}

/// The mapping reached by a sequence of upserts, applied in order.
pub open spec fn apply_inserts(m: Map<u64, TaskView>, ops: Seq<TaskView>) -> Map<u64, TaskView>
    decreases ops.len(),
{
    if ops.len() == 0 {
        m
    } else {
        apply_inserts(m, ops.drop_last()).insert(ops.last().id, ops.last())
    }
}

/// No lost updates: when upserts on pairwise distinct ids are serialized in
/// any order (as the exclusive lock serializes concurrent mutations), the
/// final store holds every one of them.
pub proof fn lemma_no_lost_updates(m: Map<u64, TaskView>, ops: Seq<TaskView>)
    requires
        forall|i: int, j: int| 0 <= i < j < ops.len() ==> ops[i].id != ops[j].id,
    ensures
        forall|i: int| #![trigger ops[i]]
            0 <= i < ops.len() ==> apply_inserts(m, ops).contains_key(ops[i].id) && apply_inserts(
                m,
                ops,
            )[ops[i].id] == ops[i],
    decreases ops.len(),
{
    if ops.len() > 0 {
        let d = ops.drop_last();
        assert forall|a: int, b: int| 0 <= a < b < d.len() implies d[a].id != d[b].id by {
            assert(d[a] == ops[a]);
            assert(d[b] == ops[b]);
        }
        lemma_no_lost_updates(m, d);
        assert forall|i: int| #![trigger ops[i]] 0 <= i < ops.len() implies apply_inserts(
            m,
            ops,
        ).contains_key(ops[i].id) && apply_inserts(m, ops)[ops[i].id] == ops[i] by {
            if i < ops.len() - 1 {
                assert(d[i] == ops[i]);
                assert(apply_inserts(m, d).contains_key(d[i].id) && apply_inserts(m, d)[d[i].id]
                    == d[i]);
                assert(ops[i].id != ops.last().id);
            } else {
                assert(ops[i] == ops.last());
            }
        }
    }
}

/// A login with the username of a registered user — the first registered
/// under that name — and that user's exact password succeeds.
pub proof fn lemma_login_success(users: Seq<UserView>, i: int, pw: Seq<char>)
    requires
        is_first_match(users, users[i].username, i),
        users[i].password == pw,
    ensures
        spec_login(users, users[i].username, pw),
{
}

/// An unknown username and a wrong password fail identically: both give
/// the same single failure outcome, with nothing to tell them apart.
pub proof fn lemma_login_failure(users: Seq<UserView>, name: Seq<char>, pw: Seq<char>)
    requires
        forall|i: int| is_first_match(users, name, i) ==> users[i].password != pw,
    ensures
        !spec_login(users, name, pw),
{
    if spec_login(users, name, pw) {
        let i = choose|i: int| is_first_match(users, name, i) && users[i].password == pw;
        assert(is_first_match(users, name, i));
        assert(false);
    }
}

} // verus!
