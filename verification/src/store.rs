//! The user store: a durable mapping from a platform identifier to a user
//! record, with find, create, update and find-or-create (upsert) operations.
//!
//! The store is modelled as a sequence of record views.  Its invariant says
//! that surrogate ids are assigned serially from 1 and that platform
//! identifiers are unique — the uniqueness constraint that makes the upsert
//! idempotent and free of duplicate rows.

use vstd::prelude::*;
use vstd::string::*;

verus! {

/// A persisted user record: surrogate id, platform identifier, display name.
#[derive(Debug)]
pub struct User {
    pub id: i32,
    pub discord_id: String,
    pub username: String,
}

/// The fields of a record before the store has assigned it an id.
#[derive(Debug)]
pub struct NewUser {
    pub discord_id: String,
    pub username: String,
}

/// The mathematical image of one stored record.
pub struct UserView {
    pub id: int,
    pub discord_id: Seq<char>,
    pub username: Seq<char>,
}

impl View for User {
    type V = UserView;

    open spec fn view(&self) -> UserView {
        UserView { id: self.id as int, discord_id: self.discord_id@, username: self.username@ }
    }
}

impl View for NewUser {
    type V = UserView;

    open spec fn view(&self) -> UserView {
        UserView { id: 0, discord_id: self.discord_id@, username: self.username@ }
    }
}

impl Clone for User {
    fn clone(&self) -> (r: Self)
        ensures
            r@ == self@,
    {
        User {
            id: self.id,
            discord_id: self.discord_id.clone(),
            username: self.username.clone(),
        }
    }
}

/// Why a store operation was refused.
#[derive(Clone, Copy, Debug, PartialEq, Eq, Structural)]
pub enum StoreError {
    /// No record carries the requested id or platform identifier.
    NotFound,
    /// The write would give two records the same platform identifier.
    ConstraintViolation,
}

/// The id cap forced by the `i32` surrogate key column.
pub open spec fn max_rows() -> int {
    0x7fff_ffff
}

/// Store invariant: ids run serially from 1, platform identifiers are unique.
pub open spec fn wf_rows(rows: Seq<UserView>) -> bool {
    &&& rows.len() <= max_rows()
    &&& forall|i: int| 0 <= i < rows.len() ==> (#[trigger] rows[i]).id == i + 1
    &&& forall|i: int, j: int|
        0 <= i < rows.len() && 0 <= j < rows.len() && i != j ==> (#[trigger] rows[i]).discord_id
            != (#[trigger] rows[j]).discord_id
}

/// Some record carries this platform identifier.
pub open spec fn has_pid(rows: Seq<UserView>, pid: Seq<char>) -> bool {
    exists|i: int| 0 <= i < rows.len() && (#[trigger] rows[i]).discord_id == pid
}

/// The index of the record with this platform identifier (unique under
/// `wf_rows`; meaningful only when `has_pid` holds).
pub open spec fn idx_of(rows: Seq<UserView>, pid: Seq<char>) -> int {
    choose|i: int| 0 <= i < rows.len() && (#[trigger] rows[i]).discord_id == pid
}

/// The rows after a find-or-create: unchanged when the identifier is present,
/// else extended by a fresh record with the next serial id.
pub open spec fn upsert_model(rows: Seq<UserView>, pid: Seq<char>, name: Seq<char>) -> Seq<
    UserView,
> {
    if has_pid(rows, pid) {
        rows
    } else {
        rows.push(UserView { id: rows.len() as int + 1, discord_id: pid, username: name })
    }
}

/// The record a find-or-create hands back: the existing one, else the fresh one.
pub open spec fn upsert_result(rows: Seq<UserView>, pid: Seq<char>, name: Seq<char>) -> UserView {
    if has_pid(rows, pid) {
        rows[idx_of(rows, pid)]
    } else {
        UserView { id: rows.len() as int + 1, discord_id: pid, username: name }
    }
}

/// The rows after an update of the record with surrogate id `id`
/// (meaningful when `1 <= id <= rows.len()`).
pub open spec fn update_model(rows: Seq<UserView>, id: int, pid: Seq<char>, name: Seq<char>) -> Seq<
    UserView,
> {
    rows.update(id - 1, UserView { id: id, discord_id: pid, username: name })
}

/// How many records carry this platform identifier.
pub open spec fn count_pid(rows: Seq<UserView>, pid: Seq<char>) -> nat
    decreases rows.len(),
{
    if rows.len() == 0 {
        0
    } else {
        count_pid(rows.drop_last(), pid) + if rows.last().discord_id == pid {
            1nat
        } else {
            0nat
        }
    }
}

/// The rows after a run of find-or-create calls for one platform identifier,
/// one call per requested display name, in order.
pub open spec fn upsert_n(rows: Seq<UserView>, pid: Seq<char>, names: Seq<Seq<char>>) -> Seq<
    UserView,
>
    decreases names.len(),
{
    if names.len() == 0 {
        rows
    } else {
        upsert_n(upsert_model(rows, pid, names.first()), pid, names.drop_first())
    }
}

/// A platform identifier that no record carries occurs zero times.
pub proof fn lemma_count_zero(rows: Seq<UserView>, pid: Seq<char>)
    requires
        !has_pid(rows, pid),
    ensures
        count_pid(rows, pid) == 0,
    decreases rows.len(),
{
    if rows.len() > 0 {
        assert(forall|i: int|
            0 <= i < rows.drop_last().len() ==> rows.drop_last()[i] == (#[trigger] rows[i]));
        lemma_count_zero(rows.drop_last(), pid);
    }
}

/// A platform identifier occurs at least once exactly when some record carries it.
pub proof fn lemma_count_pos(rows: Seq<UserView>, pid: Seq<char>)
    ensures
        has_pid(rows, pid) <==> count_pid(rows, pid) >= 1,
    decreases rows.len(),
{
    if rows.len() > 0 {
        lemma_count_pos(rows.drop_last(), pid);
        assert(forall|i: int|
            0 <= i < rows.drop_last().len() ==> rows.drop_last()[i] == (#[trigger] rows[i]));
        if has_pid(rows.drop_last(), pid) {
            let i = choose|i: int|
                0 <= i < rows.drop_last().len() && (#[trigger] rows.drop_last()[i]).discord_id
                    == pid;
            assert(rows[i].discord_id == pid);
        }
        if rows.last().discord_id == pid {
            assert(rows[rows.len() - 1].discord_id == pid);
        }
    }
}

/// Appending one record adds its match, and nothing else, to the count.
pub proof fn lemma_count_push(rows: Seq<UserView>, v: UserView, pid: Seq<char>)
    ensures
        count_pid(rows.push(v), pid) == count_pid(rows, pid) + if v.discord_id == pid {
            1nat
        } else {
            0nat
        },
{
    assert(rows.push(v).drop_last() =~= rows);
    assert(rows.push(v).last() == v);
}

/// Law: find-or-create is idempotent on identity.  Two find-or-create calls
/// with the same platform identifier hand back records with the same
/// surrogate id, whatever display names the calls carry.
pub proof fn lemma_find_or_create_idempotent(
    rows: Seq<UserView>,
    pid: Seq<char>,
    name1: Seq<char>,
    name2: Seq<char>,
)
    requires
        wf_rows(rows),
    ensures
        upsert_result(upsert_model(rows, pid, name1), pid, name2).id == upsert_result(
            rows,
            pid,
            name1,
        ).id,
{
    if !has_pid(rows, pid) {
        let rows2 = upsert_model(rows, pid, name1);
        assert(rows2[rows.len() as int].discord_id == pid);
        assert(has_pid(rows2, pid));
        let j = idx_of(rows2, pid);
        assert(0 <= j < rows2.len() && rows2[j].discord_id == pid);
        if j < rows.len() {
            assert(rows[j].discord_id == pid);
        }
        assert(j == rows.len() as int);
    }
}

/// Law: after an update of record `id` to a fresh platform identifier and
/// display name, a lookup by that identifier finds a record with that display
/// name (and that same surrogate id).  The update must not collide: no other
/// record may already carry the new identifier — when one does, the lookup
/// finds whichever record the store holds first, and the law fails.
pub proof fn lemma_update_then_lookup(rows: Seq<UserView>, id: int, pid: Seq<char>, name: Seq<char>)
    requires
        wf_rows(rows),
        1 <= id <= rows.len(),
        forall|j: int|
            0 <= j < rows.len() && j != id - 1 ==> (#[trigger] rows[j]).discord_id != pid,
    ensures
        has_pid(update_model(rows, id, pid, name), pid),
        update_model(rows, id, pid, name)[idx_of(update_model(rows, id, pid, name), pid)].username
            == name,
        update_model(rows, id, pid, name)[idx_of(update_model(rows, id, pid, name), pid)].id == id,
{
    let rows2 = update_model(rows, id, pid, name);
    assert(rows2[id - 1].discord_id == pid);
    assert(has_pid(rows2, pid));
    let j = idx_of(rows2, pid);
    assert(0 <= j < rows2.len() && rows2[j].discord_id == pid);
    if j != id - 1 {
        assert(rows2[j] == rows[j]);
    }
    assert(j == id - 1);
}

/// Law: any number of successive find-or-create calls with one platform
/// identifier that no record yet carries leave exactly one record carrying
/// it.  With the store's uniqueness constraint the upsert is atomic, so a
/// batch of claims cannot produce duplicate rows.
pub proof fn lemma_repeated_claims_one_row(
    rows: Seq<UserView>,
    pid: Seq<char>,
    names: Seq<Seq<char>>,
)
    requires
        !has_pid(rows, pid),
        names.len() >= 1,
    ensures
        count_pid(upsert_n(rows, pid, names), pid) == 1,
{
    let rows2 = upsert_model(rows, pid, names.first());
    lemma_count_zero(rows, pid);
    lemma_count_push(
        rows,
        UserView { id: rows.len() as int + 1, discord_id: pid, username: names.first() },
        pid,
    );
    assert(count_pid(rows2, pid) == 1);
    lemma_upsert_n_keeps_count_one(rows2, pid, names.drop_first());
}

/// A run of find-or-create calls keeps a uniquely held identifier unique.
pub proof fn lemma_upsert_n_keeps_count_one(
    rows: Seq<UserView>,
    pid: Seq<char>,
    names: Seq<Seq<char>>,
)
    requires
        count_pid(rows, pid) == 1,
    ensures
        count_pid(upsert_n(rows, pid, names), pid) == 1,
    decreases names.len(),
{
    if names.len() > 0 {
        lemma_count_pos(rows, pid);
        assert(has_pid(rows, pid));
        assert(upsert_model(rows, pid, names.first()) == rows);
        lemma_upsert_n_keeps_count_one(rows, pid, names.drop_first());
    }
}

/// The in-memory image of the `users` relation.
pub struct UserStore {
    users: Vec<User>,
}

impl View for UserStore {
    type V = Seq<UserView>;

    closed spec fn view(&self) -> Seq<UserView> {
        self.users@.map_values(|u: User| u@)
    }
}

impl UserStore {
    /// The store invariant, on the store's own view.
    pub open spec fn wf(&self) -> bool {
        wf_rows(self@)
    }

    /// An empty relation.
    pub fn new() -> (s: Self)
        ensures
            s@ =~= Seq::<UserView>::empty(),
            s.wf(),
    {
        let s = UserStore { users: Vec::new() };
        proof {
            assert(s@ =~= Seq::<UserView>::empty());
        }
        s
    }

    /// How many records the store holds.
    pub fn len(&self) -> (n: usize)
        ensures
            n == self@.len(),
    {
        self.users.len()
    }

    /// Look up the record with this platform identifier: the unique match
    /// under the store invariant, or `NotFound` when no record carries it.
    pub fn find_user(&self, discord_id: &str) -> (r: Result<User, StoreError>)
        requires
            self.wf(),
        ensures
            match r {
                Ok(u) => {
                    &&& has_pid(self@, discord_id@)
                    &&& u@ == self@[idx_of(self@, discord_id@)]
                    &&& u@.discord_id == discord_id@
                },
                Err(e) => e == StoreError::NotFound && !has_pid(self@, discord_id@),
            },
    {
        let pid = String::from_str(discord_id);
        let n: usize = self.users.len();
        let mut i: usize = 0;
        while i < n
            invariant
                self.wf(),
                n == self@.len(),
                pid@ == discord_id@,
                0 <= i <= n,
                forall|j: int| 0 <= j < i ==> (#[trigger] self@[j]).discord_id != discord_id@,
            decreases n - i,
        {
            if self.users[i].discord_id == pid {
                let u = self.users[i].clone();
                proof {
                    assert(self@[i as int].discord_id == discord_id@);
                    let k = idx_of(self@, discord_id@);
                    assert(0 <= k < self@.len() && self@[k].discord_id == discord_id@);
                    assert(k == i as int);
                }
                return Ok(u);
            }
            i += 1;
        }
        Err(StoreError::NotFound)
    }

    /// Insert a fresh record for this platform identifier, assigning the next
    /// serial id; refused with `ConstraintViolation` when a record already
    /// carries the identifier.
    pub fn create_user(&mut self, discord_id: &str, username: &str) -> (r: Result<
        User,
        StoreError,
    >)
        requires
            old(self).wf(),
            old(self)@.len() < max_rows(),
        ensures
            final(self).wf(),
            match r {
                Ok(u) => {
                    &&& !has_pid(old(self)@, discord_id@)
                    &&& u@ == (UserView {
                        id: old(self)@.len() as int + 1,
                        discord_id: discord_id@,
                        username: username@,
                    })
                    &&& final(self)@ == old(self)@.push(u@)
                },
                Err(e) => {
                    &&& e == StoreError::ConstraintViolation
                    &&& has_pid(old(self)@, discord_id@)
                    &&& final(self)@ == old(self)@
                },
            },
    {
        match self.find_user(discord_id) {
            Ok(_) => Err(StoreError::ConstraintViolation),
            Err(_) => {
                let new_user = NewUser {
                    discord_id: String::from_str(discord_id),
                    username: String::from_str(username),
                };
                let id: i32 = (self.users.len() + 1) as i32;
                let row = User {
                    id: id,
                    discord_id: new_user.discord_id,
                    username: new_user.username,
                };
                let u = row.clone();
                let ghost old_rows = self@;
                self.users.push(row);
                proof {
                    assert(self@ =~= old_rows.push(u@));
                }
                Ok(u)
            },
        }
    }

    /// Overwrite the platform identifier and display name of the record with
    /// surrogate id `id`.  Refused with `NotFound` when no record carries that
    /// id, and with `ConstraintViolation` when another record already carries
    /// the new platform identifier.
    pub fn update_user(&mut self, id: i32, discord_id: &str, username: &str) -> (r: Result<
        User,
        StoreError,
    >)
        requires
            old(self).wf(),
        ensures
            final(self).wf(),
            match r {
                Ok(u) => {
                    &&& 1 <= id <= old(self)@.len()
                    &&& forall|j: int|
                        0 <= j < old(self)@.len() && j != id - 1 ==> (
                        #[trigger] old(self)@[j]).discord_id != discord_id@
                    &&& u@ == (UserView {
                        id: id as int,
                        discord_id: discord_id@,
                        username: username@,
                    })
                    &&& final(self)@ == update_model(old(self)@, id as int, discord_id@, username@)
                },
                Err(e) => {
                    &&& final(self)@ == old(self)@
                    &&& match e {
                        StoreError::NotFound => !(1 <= id <= old(self)@.len()),
                        StoreError::ConstraintViolation => {
                            &&& 1 <= id <= old(self)@.len()
                            &&& exists|j: int|
                                0 <= j < old(self)@.len() && j != id - 1 && (
                                #[trigger] old(self)@[j]).discord_id == discord_id@
                        },
                    }
                },
            },
    {
        if id < 1 || (id as usize) > self.users.len() {
            return Err(StoreError::NotFound);
        }
        let idx: usize = (id - 1) as usize;
        proof {
            assert(idx as int == id - 1);
        }
        let pid = String::from_str(discord_id);
        let n: usize = self.users.len();
        let mut j: usize = 0;
        while j < n
            invariant
                self.wf(),
                n == self@.len(),
                pid@ == discord_id@,
                0 <= idx < n,
                idx as int == id - 1,
                0 <= j <= n,
                forall|k: int|
                    0 <= k < j && k != idx ==> (#[trigger] self@[k]).discord_id != discord_id@,
            decreases n - j,
        {
            if j != idx && self.users[j].discord_id == pid {
                proof {
                    assert(self@ == old(self)@);
                    assert(old(self)@[j as int].discord_id == discord_id@);
                    assert(j as int != id - 1);
                }
                return Err(StoreError::ConstraintViolation);
            }
            j += 1;
        }
        let row = User {
            id: id,
            discord_id: String::from_str(discord_id),
            username: String::from_str(username),
        };
        let u = row.clone();
        let ghost old_rows = self@;
        self.users.remove(idx);
        self.users.insert(idx, row);
        proof {
            assert(self@ =~= update_model(old_rows, id as int, discord_id@, username@));
        }
        Ok(u)
    }

    /// Find-or-create: look the platform identifier up and hand the existing
    /// record back, or insert a fresh one when it is absent.  Performed as a
    /// single atomic operation on the store, so repeated claims reuse one row.
    pub fn find_or_create_user(&mut self, discord_id: &str, username: &str) -> (u: User)
        requires
            old(self).wf(),
            old(self)@.len() < max_rows(),
        ensures
            final(self).wf(),
            final(self)@ == upsert_model(old(self)@, discord_id@, username@),
            u@ == upsert_result(old(self)@, discord_id@, username@),
    {
        let found = self.find_user(discord_id);
        match found {
            Ok(u) => u,
            Err(_) => {
                match self.create_user(discord_id, username) {
                    Ok(u) => u,
                    Err(_) => vstd::pervasive::unreached(),
                }
            },
        }
    }

    /// Hand out copies of the first `limit` records, in storage order.
    pub fn list_users(&self, limit: usize) -> (r: Vec<User>)
        ensures
            r@.len() == if limit <= self@.len() {
                limit as int
            } else {
                self@.len() as int
            },
            forall|i: int| 0 <= i < r@.len() ==> (#[trigger] r@[i])@ == self@[i],
    {
        let n: usize = if limit <= self.users.len() {
            limit
        } else {
            self.users.len()
        };
        let mut r: Vec<User> = Vec::new();
        let mut i: usize = 0;
        while i < n
            invariant
                n <= self@.len(),
                n <= limit,
                0 <= i <= n,
                r@.len() == i,
                forall|k: int| 0 <= k < i ==> (#[trigger] r@[k])@ == self@[k],
            decreases n - i,
        {
            r.push(self.users[i].clone());
            i += 1;
        }
        r
    }
}

} // verus!
