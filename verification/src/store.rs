//! The record store: an in-memory mapping from 64-bit identifiers to task
//! records, plus the registered users. Every operation is an upsert, a
//! lookup, or a removal keyed by the record's own `id`; usernames are not
//! required to be unique, and user lookup returns the first match in
//! insertion order.

use vstd::prelude::*;

use crate::records::{Task, TaskView, User, UserView};

verus! {

/// Mathematical view of the whole store: the task records and the user
/// records, each in insertion order.
#[verifier::ext_equal]
pub struct DbView {
    pub tasks: Seq<TaskView>,
    pub users: Seq<UserView>,
}

/// No two records in the sequence share an identifier.
pub open spec fn distinct_task_ids(s: Seq<TaskView>) -> bool {
    forall|i: int, j: int| 0 <= i < j < s.len() ==> s[i].id != s[j].id
}

/// No two users in the sequence share an identifier.
pub open spec fn distinct_user_ids(s: Seq<UserView>) -> bool {
    forall|i: int, j: int| 0 <= i < j < s.len() ==> s[i].id != s[j].id
}

/// The id-to-record mapping that a sequence of records denotes
/// (later entries win, though under `distinct_task_ids` ids never repeat).
pub open spec fn task_map_of(s: Seq<TaskView>) -> Map<u64, TaskView>
    decreases s.len(),
{
    if s.len() == 0 {
        Map::empty()
    } else {
        task_map_of(s.drop_last()).insert(s.last().id, s.last())
    }
}

/// The id-to-user mapping that a sequence of users denotes.
pub open spec fn user_map_of(s: Seq<UserView>) -> Map<u64, UserView>
    decreases s.len(),
{
    if s.len() == 0 {
        Map::empty()
    } else {
        user_map_of(s.drop_last()).insert(s.last().id, s.last())
    }
}

/// Some record in `s` carries the identifier `id`.
pub open spec fn has_task_id(s: Seq<TaskView>, id: u64) -> bool {
    exists|i: int| 0 <= i < s.len() && s[i].id == id
}

/// The index of the record carrying `id` (unique under `distinct_task_ids`).
pub open spec fn task_idx(s: Seq<TaskView>, id: u64) -> int {
    choose|i: int| 0 <= i < s.len() && s[i].id == id
}

/// Some user in `s` carries the identifier `id`.
pub open spec fn has_user_id(s: Seq<UserView>, id: u64) -> bool {
    exists|i: int| 0 <= i < s.len() && s[i].id == id
}

/// The index of the user carrying `id` (unique under `distinct_user_ids`).
pub open spec fn user_idx(s: Seq<UserView>, id: u64) -> int {
    choose|i: int| 0 <= i < s.len() && s[i].id == id
}

/// Some user in `s` has this username.
pub open spec fn has_user_match(s: Seq<UserView>, name: Seq<char>) -> bool {
    exists|i: int| 0 <= i < s.len() && s[i].username == name
}

/// `i` is the position of the first user named `name`.
pub open spec fn is_first_match(s: Seq<UserView>, name: Seq<char>, i: int) -> bool {
    &&& 0 <= i < s.len()
    &&& s[i].username == name
    &&& forall|j: int| 0 <= j < i ==> s[j].username != name
}

/// Whether a login attempt succeeds: the first user with this username
/// exists and holds exactly this password. An unknown username and a wrong
/// password both yield `false`, indistinguishably.
pub open spec fn spec_login(s: Seq<UserView>, name: Seq<char>, pw: Seq<char>) -> bool {
    exists|i: int| is_first_match(s, name, i) && s[i].password == pw
}

/// The in-memory store. Callers must serialize access themselves; the store
/// has no internal concurrency control.
pub struct Database {
    pub(crate) tasks: Vec<Task>,
    pub(crate) users: Vec<User>,
}

impl View for Database {
    type V = DbView;

    closed spec fn view(&self) -> DbView {
        DbView {
            tasks: self.tasks@.map_values(|t: Task| t@),
            users: self.users@.map_values(|u: User| u@),
        }
    }
}

impl Database {
    /// Store invariant: ids are unique among tasks and among users.
    pub open spec fn wf(&self) -> bool {
        distinct_task_ids(self@.tasks) && distinct_user_ids(self@.users)
    }

    /// An empty store.
    pub fn new() -> (db: Database)
        ensures
            db.wf(),
            db@.tasks == Seq::<TaskView>::empty(),
            db@.users == Seq::<UserView>::empty(),
    {
        let db = Database { tasks: Vec::new(), users: Vec::new() };
        proof {
            assert(db@.tasks =~= Seq::<TaskView>::empty());
            assert(db@.users =~= Seq::<UserView>::empty());
        }
        db
    }

    /// Upsert: adds the task, or replaces in place the task that already
    /// carries `task.id`. Never an error.
    pub fn insert(&mut self, task: Task)
        requires
            old(self).wf(),
        ensures
            final(self).wf(),
            final(self)@.users == old(self)@.users,
            task_map_of(final(self)@.tasks) == task_map_of(old(self)@.tasks).insert(
                task.id,
                task@,
            ),
            ({
                let s = old(self)@.tasks;
                if has_task_id(s, task.id) {
                    final(self)@.tasks == s.update(task_idx(s, task.id), task@)
                } else {
                    final(self)@.tasks == s.push(task@)
                }
            }),
    {
        let ghost s = self@.tasks;
        let mut i: usize = 0;
        while i < self.tasks.len()
            invariant
                0 <= i <= self.tasks.len(),
                forall|j: int| 0 <= j < i ==> s[j].id != task.id,
                self == old(self),
                s == self@.tasks,
                old(self).wf(),
            decreases self.tasks.len() - i,
        {
            if self.tasks[i].id == task.id {
                proof {
                    assert(s[i as int].id == task.id);
                    assert(has_task_id(s, task.id));
                    let c = task_idx(s, task.id);
                    assert(0 <= c < s.len() && s[c].id == task.id);
                    if c < i as int {
                        assert(s[c].id != s[i as int].id);
                    }
                    if c > i as int {
                        assert(s[i as int].id != s[c].id);
                    }
                    assert(c == i as int);
                    lemma_task_map_update(s, i as int, task@);
                }
                self.tasks[i] = task;
                proof {
                    let n = self@.tasks;
                    assert(n =~= s.update(i as int, task@));
                    assert forall|a: int, b: int| 0 <= a < b < n.len() implies n[a].id
                        != n[b].id by {
                        assert(n[a].id == s[a].id);
                        assert(n[b].id == s[b].id);
                        assert(s[a].id != s[b].id);
                    }
                    assert(distinct_task_ids(n));
                    assert(self@.users == old(self)@.users);
                    assert(distinct_user_ids(self@.users));
                }
                return ;
            }
            i += 1;
        }
        proof {
            assert(!has_task_id(s, task.id));
            lemma_task_map_push(s, task@);
        }
        self.tasks.push(task);
        proof {
            let n = self@.tasks;
            assert(n =~= s.push(task@));
            assert forall|a: int, b: int| 0 <= a < b < n.len() implies n[a].id != n[b].id by {
                assert(n[a] == s[a]);
                if b < s.len() {
                    assert(n[b] == s[b]);
                    assert(s[a].id != s[b].id);
                } else {
                    assert(n[b] == task@);
                    if s[a].id == task.id {
                        assert(0 <= a < s.len() && s[a].id == task.id);
                        assert(has_task_id(s, task.id));
                        assert(false);
                    }
                }
            }
            assert(distinct_task_ids(n));
            assert(self@.users == old(self)@.users);
            assert(distinct_user_ids(self@.users));
        }
    }

    /// Looks up the task with this id; `None` when absent, never an error.
    pub fn get(&self, id: &u64) -> (r: Option<&Task>)
        requires
            self.wf(),
        ensures
            match r {
                Some(t) => task_map_of(self@.tasks).contains_key(*id) && t@ == task_map_of(
                    self@.tasks,
                )[*id],
                None => !task_map_of(self@.tasks).contains_key(*id),
            },
    {
        proof {
            lemma_task_map_props(self@.tasks);
        }
        let mut i: usize = 0;
        while i < self.tasks.len()
            invariant
                self.wf(),
                0 <= i <= self.tasks.len(),
                forall|j: int| 0 <= j < i ==> self@.tasks[j].id != *id,
            decreases self.tasks.len() - i,
        {
            if self.tasks[i].id == *id {
                proof {
                    lemma_task_map_props(self@.tasks);
                    assert(self@.tasks[i as int].id == *id);
                    assert(task_map_of(self@.tasks).contains_key(self@.tasks[i as int].id)
                        && task_map_of(self@.tasks)[self@.tasks[i as int].id] == self@.tasks[i as int]);
                }
                return Some(&self.tasks[i]);
            }
            i += 1;
        }
        proof {
            lemma_task_map_props(self@.tasks);
            if task_map_of(self@.tasks).contains_key(*id) {
                assert(has_task_id(self@.tasks, *id));
                let j = choose|j: int| 0 <= j < self@.tasks.len() && self@.tasks[j].id == *id;
                assert(false);
            }
        }
        None
    }

    /// Every current task, in insertion order. Callers should rely only on
    /// the multiset of records, not on the order.
    pub fn get_all(&self) -> (r: Vec<&Task>)
        ensures
            r@.len() == self@.tasks.len(),
            forall|i: int| 0 <= i < r@.len() ==> r@[i]@ == self@.tasks[i],
    {
        let mut r: Vec<&Task> = Vec::new();
        let mut i: usize = 0;
        while i < self.tasks.len()
            invariant
                0 <= i <= self.tasks.len(),
                r@.len() == i,
                forall|j: int| 0 <= j < i ==> r@[j]@ == self@.tasks[j],
            decreases self.tasks.len() - i,
        {
            r.push(&self.tasks[i]);
            i += 1;
        }
        r
    }

    /// Removes the task with this id; removing an absent id is a silent
    /// no-op, never an error.
    pub fn delete(&mut self, id: &u64)
        requires
            old(self).wf(),
        ensures
            final(self).wf(),
            final(self)@.users == old(self)@.users,
            task_map_of(final(self)@.tasks) == task_map_of(old(self)@.tasks).remove(*id),
            ({
                let s = old(self)@.tasks;
                if has_task_id(s, *id) {
                    final(self)@.tasks == s.remove(task_idx(s, *id))
                } else {
                    final(self)@.tasks == s
                }
            }),
    {
        let ghost s = self@.tasks;
        let mut i: usize = 0;
        while i < self.tasks.len()
            invariant
                0 <= i <= self.tasks.len(),
                forall|j: int| 0 <= j < i ==> s[j].id != *id,
                self == old(self),
                s == self@.tasks,
                old(self).wf(),
            decreases self.tasks.len() - i,
        {
            if self.tasks[i].id == *id {
                proof {
                    assert(s[i as int].id == *id);
                    assert(has_task_id(s, *id));
                    let c = task_idx(s, *id);
                    assert(0 <= c < s.len() && s[c].id == *id);
                    if c < i as int {
                        assert(s[c].id != s[i as int].id);
                    }
                    if c > i as int {
                        assert(s[i as int].id != s[c].id);
                    }
                    assert(c == i as int);
                    lemma_task_map_remove(s, i as int);
                }
                self.tasks.remove(i);
                proof {
                    let n = self@.tasks;
                    assert(n =~= s.remove(i as int));
                    assert forall|a: int, b: int| 0 <= a < b < n.len() implies n[a].id
                        != n[b].id by {
                        let a2: int = if a < i as int { a } else { a + 1 };
                        let b2: int = if b < i as int { b } else { b + 1 };
                        assert(n[a] == s[a2]);
                        assert(n[b] == s[b2]);
                        assert(s[a2].id != s[b2].id);
                    }
                    assert(distinct_task_ids(n));
                    assert(self@.users == old(self)@.users);
                    assert(distinct_user_ids(self@.users));
                }
                return ;
            }
            i += 1;
        }
        proof {
            assert(!has_task_id(s, *id));
            lemma_task_map_props(s);
            if task_map_of(s).contains_key(*id) {
                assert(has_task_id(s, *id));
            }
            assert(task_map_of(s).remove(*id) =~= task_map_of(s));
        }
    }

    /// Identical in behavior to `insert`: the insert/update distinction is
    /// advisory only, with no existence check and no error on a fresh id.
    pub fn update(&mut self, task: Task)
        requires
            old(self).wf(),
        ensures
            final(self).wf(),
            final(self)@.users == old(self)@.users,
            task_map_of(final(self)@.tasks) == task_map_of(old(self)@.tasks).insert(
                task.id,
                task@,
            ),
            ({
                let s = old(self)@.tasks;
                if has_task_id(s, task.id) {
                    final(self)@.tasks == s.update(task_idx(s, task.id), task@)
                } else {
                    final(self)@.tasks == s.push(task@)
                }
            }),
    {
        self.insert(task)
    }

    /// Upsert of a user record, keyed by `user.id`. Duplicate usernames are
    /// permitted: registration enforces no uniqueness.
    pub fn insert_user(&mut self, user: User)
        requires
            old(self).wf(),
        ensures
            final(self).wf(),
            final(self)@.tasks == old(self)@.tasks,
            user_map_of(final(self)@.users) == user_map_of(old(self)@.users).insert(
                user.id,
                user@,
            ),
            ({
                let s = old(self)@.users;
                if has_user_id(s, user.id) {
                    final(self)@.users == s.update(user_idx(s, user.id), user@)
                } else {
                    final(self)@.users == s.push(user@)
                }
            }),
    {
        let ghost s = self@.users;
        let mut i: usize = 0;
        while i < self.users.len()
            invariant
                0 <= i <= self.users.len(),
                forall|j: int| 0 <= j < i ==> s[j].id != user.id,
                self == old(self),
                s == self@.users,
                old(self).wf(),
            decreases self.users.len() - i,
        {
            if self.users[i].id == user.id {
                proof {
                    assert(s[i as int].id == user.id);
                    assert(has_user_id(s, user.id));
                    let c = user_idx(s, user.id);
                    assert(0 <= c < s.len() && s[c].id == user.id);
                    if c < i as int {
                        assert(s[c].id != s[i as int].id);
                    }
                    if c > i as int {
                        assert(s[i as int].id != s[c].id);
                    }
                    assert(c == i as int);
                    lemma_user_map_update(s, i as int, user@);
                }
                self.users[i] = user;
                proof {
                    let n = self@.users;
                    assert(n =~= s.update(i as int, user@));
                    assert forall|a: int, b: int| 0 <= a < b < n.len() implies n[a].id
                        != n[b].id by {
                        assert(n[a].id == s[a].id);
                        assert(n[b].id == s[b].id);
                        assert(s[a].id != s[b].id);
                    }
                    assert(distinct_user_ids(n));
                    assert(self@.tasks == old(self)@.tasks);
                    assert(distinct_task_ids(self@.tasks));
                }
                return ;
            }
            i += 1;
        }
        proof {
            assert(!has_user_id(s, user.id));
            lemma_user_map_push(s, user@);
        }
        self.users.push(user);
        proof {
            let n = self@.users;
            assert(n =~= s.push(user@));
            assert forall|a: int, b: int| 0 <= a < b < n.len() implies n[a].id != n[b].id by {
                assert(n[a] == s[a]);
                if b < s.len() {
                    assert(n[b] == s[b]);
                    assert(s[a].id != s[b].id);
                } else {
                    assert(n[b] == user@);
                    if s[a].id == user.id {
                        assert(0 <= a < s.len() && s[a].id == user.id);
                        assert(has_user_id(s, user.id));
                        assert(false);
                    }
                }
            }
            assert(distinct_user_ids(n));
            assert(self@.tasks == old(self)@.tasks);
            assert(distinct_task_ids(self@.tasks));
        }
    }

    /// The first user with this username, in insertion order, or `None`.
    /// First-match lookup is deliberate: uniqueness is not enforced.
    pub fn get_user_by_name(&self, username: &str) -> (r: Option<&User>)
        ensures
            match r {
                Some(u) => exists|i: int|
                    is_first_match(self@.users, username@, i) && u@ == self@.users[i],
                None => !has_user_match(self@.users, username@),
            },
    {
        let uname: String = username.to_owned();
        let mut i: usize = 0;
        while i < self.users.len()
            invariant
                uname@ == username@,
                0 <= i <= self.users.len(),
                forall|j: int| 0 <= j < i ==> self@.users[j].username != username@,
            decreases self.users.len() - i,
        {
            if self.users[i].username.eq(&uname) {
                proof {
                    assert(self@.users[i as int].username == username@);
                    assert(is_first_match(self@.users, username@, i as int));
                }
                return Some(&self.users[i]);
            }
            i += 1;
        }
        proof {
            if has_user_match(self@.users, username@) {
                let j = choose|j: int|
                    0 <= j < self@.users.len() && self@.users[j].username == username@;
                assert(false);
            }
        }
        None
    }

    /// The credential check: succeeds exactly when the first registered user
    /// with this username holds exactly this password. An unknown username
    /// and a wrong password fail identically.
    pub fn login(&self, username: &str, password: &str) -> (r: bool)
        ensures
            r == spec_login(self@.users, username@, password@),
    {
        let pw: String = password.to_owned();
        match self.get_user_by_name(username) {
            Some(u) => {
                let ok = u.password.eq(&pw);
                proof {
                    let s = self@.users;
                    let i = choose|i: int| is_first_match(s, username@, i) && u@ == s[i];
                    assert(is_first_match(s, username@, i));
                    lemma_first_match_unique(s, username@);
                    if ok {
                        assert(is_first_match(s, username@, i) && s[i].password == password@);
                        assert(spec_login(s, username@, password@));
                    } else {
                        if spec_login(s, username@, password@) {
                            let b = choose|b: int|
                                is_first_match(s, username@, b) && s[b].password == password@;
                            assert(b == i);
                            assert(false);
                        }
                    }
                }
                ok
            },
            None => {
                proof {
                    let s = self@.users;
                    if spec_login(s, username@, password@) {
                        let b = choose|b: int|
                            is_first_match(s, username@, b) && s[b].password == password@;
                        assert(0 <= b < s.len() && s[b].username == username@);
                        assert(has_user_match(s, username@));
                        assert(false);
                    }
                }
                false
            },
        }
    }
}

/// How the store's view is made from its fields (for the sibling modules,
/// which cannot see through the view).
pub(crate) proof fn view_parts(db: &Database)
    ensures
        db@.tasks == db.tasks@.map_values(|t: Task| t@),
        db@.users == db.users@.map_values(|u: User| u@),
{
}

/// There is at most one position that is the first match for a username.
pub proof fn lemma_first_match_unique(s: Seq<UserView>, name: Seq<char>)
    ensures
        forall|a: int, b: int|
            is_first_match(s, name, a) && is_first_match(s, name, b) ==> a == b,
{
    assert forall|a: int, b: int|
        is_first_match(s, name, a) && is_first_match(s, name, b) implies a == b by {
        if a < b {
            assert(s[a].username == name);
            assert(false);
        }
        if b < a {
            assert(s[b].username == name);
            assert(false);
        }
    }
}

/// Dropping the last record keeps ids distinct.
pub proof fn lemma_distinct_task_prefix(s: Seq<TaskView>)
    requires
        distinct_task_ids(s),
        s.len() > 0,
    ensures
        distinct_task_ids(s.drop_last()),
{
    let d = s.drop_last();
    assert forall|a: int, b: int| 0 <= a < b < d.len() implies d[a].id != d[b].id by {
        assert(d[a] == s[a]);
        assert(d[b] == s[b]);
        assert(s[a].id != s[b].id);
    }
}

/// Dropping the last user keeps ids distinct.
pub proof fn lemma_distinct_user_prefix(s: Seq<UserView>)
    requires
        distinct_user_ids(s),
        s.len() > 0,
    ensures
        distinct_user_ids(s.drop_last()),
{
    let d = s.drop_last();
    assert forall|a: int, b: int| 0 <= a < b < d.len() implies d[a].id != d[b].id by {
        assert(d[a] == s[a]);
        assert(d[b] == s[b]);
        assert(s[a].id != s[b].id);
    }
}

/// Under distinct ids, the denoted map agrees with the sequence pointwise:
/// each record is found at its id, and every key comes from some record.
pub proof fn lemma_task_map_props(s: Seq<TaskView>)
    requires
        distinct_task_ids(s),
    ensures
        forall|i: int| #![trigger s[i]]
            0 <= i < s.len() ==> task_map_of(s).contains_key(s[i].id)
                && task_map_of(s)[s[i].id] == s[i],
        forall|k: u64| #[trigger] task_map_of(s).contains_key(k) ==> has_task_id(s, k),
    decreases s.len(),
{
    if s.len() > 0 {
        let d = s.drop_last();
        lemma_distinct_task_prefix(s);
        lemma_task_map_props(d);
        assert forall|i: int| #![trigger s[i]] 0 <= i < s.len() implies task_map_of(
            s,
        ).contains_key(s[i].id) && task_map_of(s)[s[i].id] == s[i] by {
            if i < s.len() - 1 {
                assert(d[i] == s[i]);
                assert(task_map_of(d).contains_key(d[i].id) && task_map_of(d)[d[i].id] == d[i]);
                assert(s[i].id != s.last().id);
            } else {
                assert(s[i] == s.last());
            }
        }
        assert forall|k: u64| #[trigger] task_map_of(s).contains_key(k) implies has_task_id(
            s,
            k,
        ) by {
            if k == s.last().id {
                assert(s[s.len() - 1].id == k);
            } else {
                assert(task_map_of(d).contains_key(k));
                assert(has_task_id(d, k));
                let i = choose|i: int| 0 <= i < d.len() && d[i].id == k;
                assert(s[i].id == k);
            }
        }
    }
}

/// Appending a record updates the denoted map at its id.
pub proof fn lemma_task_map_push(s: Seq<TaskView>, t: TaskView)
    ensures
        task_map_of(s.push(t)) == task_map_of(s).insert(t.id, t),
{
    assert(s.push(t).drop_last() =~= s);
    assert(s.push(t).last() == t);
}

/// Appending a user updates the denoted map at its id.
pub proof fn lemma_user_map_push(s: Seq<UserView>, u: UserView)
    ensures
        user_map_of(s.push(u)) == user_map_of(s).insert(u.id, u),
{
    assert(s.push(u).drop_last() =~= s);
    assert(s.push(u).last() == u);
}

/// Replacing the record at its id's position updates the denoted map at
/// that id.
pub proof fn lemma_task_map_update(s: Seq<TaskView>, i: int, t: TaskView)
    requires
        distinct_task_ids(s),
        0 <= i < s.len(),
        s[i].id == t.id,
    ensures
        task_map_of(s.update(i, t)) == task_map_of(s).insert(t.id, t),
    decreases s.len(),
{
    let u = s.update(i, t);
    if i == s.len() - 1 {
        assert(u.drop_last() =~= s.drop_last());
        assert(u.last() == t);
        assert(task_map_of(s.drop_last()).insert(t.id, t) =~= task_map_of(
            s.drop_last(),
        ).insert(s.last().id, s.last()).insert(t.id, t));
    } else {
        let d = s.drop_last();
        lemma_distinct_task_prefix(s);
        assert(d[i] == s[i]);
        lemma_task_map_update(d, i, t);
        assert(u.drop_last() =~= d.update(i, t));
        assert(u.last() == s.last());
        assert(t.id != s.last().id);
        assert(task_map_of(d).insert(t.id, t).insert(s.last().id, s.last()) =~= task_map_of(
            d,
        ).insert(s.last().id, s.last()).insert(t.id, t));
    }
}

/// Replacing the user at its id's position updates the denoted map at that
/// id.
pub proof fn lemma_user_map_update(s: Seq<UserView>, i: int, u: UserView)
    requires
        distinct_user_ids(s),
        0 <= i < s.len(),
        s[i].id == u.id,
    ensures
        user_map_of(s.update(i, u)) == user_map_of(s).insert(u.id, u),
    decreases s.len(),
{
    let w = s.update(i, u);
    if i == s.len() - 1 {
        assert(w.drop_last() =~= s.drop_last());
        assert(w.last() == u);
        assert(user_map_of(s.drop_last()).insert(u.id, u) =~= user_map_of(
            s.drop_last(),
        ).insert(s.last().id, s.last()).insert(u.id, u));
    } else {
        let d = s.drop_last();
        lemma_distinct_user_prefix(s);
        assert(d[i] == s[i]);
        lemma_user_map_update(d, i, u);
        assert(w.drop_last() =~= d.update(i, u));
        assert(w.last() == s.last());
        assert(u.id != s.last().id);
        assert(user_map_of(d).insert(u.id, u).insert(s.last().id, s.last()) =~= user_map_of(
            d,
        ).insert(s.last().id, s.last()).insert(u.id, u));
    }
}

/// Removing the record at a position removes its id from the denoted map.
pub proof fn lemma_task_map_remove(s: Seq<TaskView>, i: int)
    requires
        distinct_task_ids(s),
        0 <= i < s.len(),
    ensures
        task_map_of(s.remove(i)) == task_map_of(s).remove(s[i].id),
    decreases s.len(),
{
    let r = s.remove(i);
    let d = s.drop_last();
    lemma_distinct_task_prefix(s);
    if i == s.len() - 1 {
        assert(r =~= d);
        lemma_task_map_props(d);
        if task_map_of(d).contains_key(s[i].id) {
            assert(has_task_id(d, s[i].id));
            let j = choose|j: int| 0 <= j < d.len() && d[j].id == s[i].id;
            assert(s[j].id == s[i].id);
            assert(false);
        }
        assert(task_map_of(d) =~= task_map_of(d).insert(s.last().id, s.last()).remove(s[i].id));
    } else {
        assert(d[i] == s[i]);
        lemma_task_map_remove(d, i);
        assert(r.len() == s.len() - 1);
        assert(r.drop_last() =~= d.remove(i));
        assert(r.last() == s.last());
        assert(s[i].id != s.last().id);
        assert(task_map_of(d).remove(s[i].id).insert(s.last().id, s.last()) =~= task_map_of(
            d,
        ).insert(s.last().id, s.last()).remove(s[i].id));
    }
}

} // verus!
