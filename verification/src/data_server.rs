//! The points service: a users table and a table of points per streamer and
//! viewer, with the requests that read and change them.
use vstd::prelude::*;
use vstd::string::*;
use crate::text::{lowercase, to_lowercase};

verus! {

/// A user to be added, by name.
pub struct NewUser<'a> {
    pub name: &'a str,
}

/// A row of the users table.
pub struct User {
    pub id: i32,
    pub name: String,
}

/// A row to be added to the points table.
pub struct NewUserData {
    pub streamer_id: i32,
    pub viewer_id: i32,
    pub points: i32,
}

/// A row of the points table: the points of a viewer in a streamer's channel.
pub struct UserData {
    pub streamer_id: i32,
    pub viewer_id: i32,
    pub points: i32,
}

/// Why a table operation failed.
#[derive(Debug, Clone, Copy, PartialEq, Eq, Structural)]
pub enum DbError {
    /// No row matches.
    NotFound,
    /// A row with the same key is there already.
    UniqueViolation,
    /// The user ids have run out.
    IdsExhausted,
}

/// The error a request of the service answers with.
pub struct Status {
    pub message: String,
}

/// The contents of the tables: users as (id, name) in the order they were
/// added, points by (streamer id, viewer id), and the next user id.
pub struct DbView {
    pub users: Seq<(int, Seq<char>)>,
    pub points: Map<(int, int), int>,
    pub next_id: int,
}

/// A user as (id, name).
pub open spec fn user_view(u: User) -> (int, Seq<char>) {
    (u.id as int, u.name@)
}

/// The position of the first user called `name`, if there is one.
pub open spec fn user_index(users: Seq<(int, Seq<char>)>, name: Seq<char>) -> Option<int>
    decreases users.len(),
{
    if users.len() == 0 {
        None
    } else {
        match user_index(users.drop_last(), name) {
            Some(i) => Some(i),
            None => if users.last().1 == name {
                Some(users.len() - 1)
            } else {
                None
            },
        }
    }
}

/// The first user called `name`, if there is one.
pub open spec fn lookup_user(d: DbView, name: Seq<char>) -> Option<(int, Seq<char>)> {
    match user_index(d.users, name) {
        Some(i) => Some(d.users[i]),
        None => None,
    }
}

/// Adds a user called `name` with the next id, unless the ids have run out.
pub open spec fn created(d: DbView, name: Seq<char>) -> (DbView, Option<(int, Seq<char>)>) {
    if d.next_id <= i32::MAX {
        (
            DbView { users: d.users.push((d.next_id, name)), points: d.points, next_id: d.next_id + 1 },
            Some((d.next_id, name)),
        )
    } else {
        (d, None)
    }
}

/// The first user called `name`, added first if there is none.
pub open spec fn got_or_added(d: DbView, name: Seq<char>) -> (DbView, Option<(int, Seq<char>)>) {
    match lookup_user(d, name) {
        Some(u) => (d, Some(u)),
        None => created(d, name),
    }
}

/// The points stored for the viewer called `v` in the channel of the streamer
/// called `s`, if any.
pub open spec fn stored_points(d: DbView, s: Seq<char>, v: Seq<char>) -> Option<int> {
    match (lookup_user(d, s), lookup_user(d, v)) {
        (Some(a), Some(b)) => if d.points.contains_key((a.0, b.0)) {
            Some(d.points[(a.0, b.0)])
        } else {
            None
        },
        _ => None,
    }
}

/// The tables after both users are looked up or added, and their ids, or
/// `None` in the second place when one could not be added.
pub open spec fn both_users(d: DbView, s: Seq<char>, v: Seq<char>) -> (DbView, Option<(int, int)>) {
    let a = got_or_added(d, s);
    match a.1 {
        None => (a.0, None),
        Some(su) => {
            let b = got_or_added(a.0, v);
            match b.1 {
                None => (b.0, None),
                Some(vu) => (b.0, Some((su.0, vu.0))),
            }
        },
    }
}

/// A points request: the tables afterwards and the points it answers with
/// (`None` when a user could not be added). A missing row is added with 0.
pub open spec fn served_get(d: DbView, s: Seq<char>, v: Seq<char>) -> (DbView, Option<int>) {
    let u = both_users(d, s, v);
    match u.1 {
        None => (u.0, None),
        Some(k) => if u.0.points.contains_key(k) {
            (u.0, Some(u.0.points[k]))
        } else {
            (DbView { points: u.0.points.insert(k, 0), ..u.0 }, Some(0))
        },
    }
}

/// A request that sets the points: the tables afterwards, and whether it
/// succeeded.
pub open spec fn served_set(d: DbView, s: Seq<char>, v: Seq<char>, p: int) -> (DbView, bool) {
    let u = both_users(d, s, v);
    match u.1 {
        None => (u.0, false),
        Some(k) => (DbView { points: u.0.points.insert(k, p), ..u.0 }, true),
    }
}

/// The points after `a` more are added to `old`, a missing row counting as
/// none.
pub open spec fn added(points: Map<(int, int), int>, k: (int, int), a: int) -> int {
    if points.contains_key(k) {
        points[k] + a
    } else {
        a
    }
}

/// A request that adds points: the tables afterwards and the new total
/// (`None` when a user could not be added).
pub open spec fn served_add(d: DbView, s: Seq<char>, v: Seq<char>, a: int) -> (DbView, Option<int>) {
    let u = both_users(d, s, v);
    match u.1 {
        None => (u.0, None),
        Some(k) => (DbView { points: u.0.points.insert(k, added(u.0.points, k, a)), ..u.0 }, Some(added(u.0.points, k, a))),
    }
}

/// Whether adding `a` points for `s` and `v` keeps the total an `i32`.
pub open spec fn add_fits(d: DbView, s: Seq<char>, v: Seq<char>, a: int) -> bool {
    let u = both_users(d, s, v);
    match u.1 {
        Some(k) => u.0.points.contains_key(k) ==> i32::MIN <= u.0.points[k] + a <= i32::MAX,
        None => true,
    }
}

impl DbView {
    /// User ids are distinct and below the next id, and every count of points
    /// is an `i32`.
    pub open spec fn wf(self) -> bool {
        &&& 1 <= self.next_id <= i32::MAX + 1
        &&& forall|i: int| 0 <= i < self.users.len() ==> 1 <= #[trigger] self.users[i].0 < self.next_id
        &&& forall|i: int, j: int| 0 <= i < self.users.len() && 0 <= j < self.users.len() && i != j
            ==> self.users[i].0 != self.users[j].0
        &&& forall|k: (int, int)| #[trigger] self.points.contains_key(k) ==> i32::MIN <= self.points[k] <= i32::MAX
    }
}

/// The users table and the points table.
pub struct Database {
    users: Vec<User>,
    rows: Vec<UserData>,
    next_id: i64,
}

/// The message of a failed user lookup.
pub open spec fn user_error() -> Seq<char> {
    "Could not get or add user!"@
}

/// A status for an internal error with this message.
fn internal(message: &str) -> (r: Status)
    ensures
        r.message@ == message@,
{
    Status { message: String::from_str(message) }
}

/// The first user in `users` whose index is found stays first in any longer
/// list.
proof fn lemma_user_index_prefix(s: Seq<(int, Seq<char>)>, j: int, name: Seq<char>)
    requires
        0 <= j <= s.len(),
        user_index(s.take(j), name) is Some,
    ensures
        user_index(s, name) == user_index(s.take(j), name),
    decreases s.len() - j,
{
    if j < s.len() {
        assert(s.take(j + 1).drop_last() =~= s.take(j));
        lemma_user_index_prefix(s, j + 1, name);
    } else {
        assert(s.take(j) =~= s);
    }
}

/// A found index points at a user of that name.
proof fn lemma_user_index_found(s: Seq<(int, Seq<char>)>, name: Seq<char>)
    ensures
        user_index(s, name) is Some ==> 0 <= user_index(s, name)->0 < s.len()
            && s[user_index(s, name)->0].1 == name,
        user_index(s, name) is None ==> forall|i: int| 0 <= i < s.len() ==> #[trigger] s[i].1 != name,
    decreases s.len(),
{
    if s.len() > 0 {
        lemma_user_index_found(s.drop_last(), name);
        assert forall|i: int| 0 <= i < s.len() - 1 implies s.drop_last()[i] == #[trigger] s[i] by {}
    }
}

impl Database {
    /// The users as (id, name), in the order they were added.
    pub closed spec fn user_seq(&self) -> Seq<(int, Seq<char>)> {
        self.users@.map_values(|u: User| user_view(u))
    }

    /// The keys of the points rows.
    pub closed spec fn row_keys(&self) -> Seq<(int, int)> {
        self.rows@.map_values(|r: UserData| (r.streamer_id as int, r.viewer_id as int))
    }

    /// The points rows as a map.
    pub closed spec fn points_map(&self) -> Map<(int, int), int> {
        Map::new(
            |k: (int, int)| self.row_keys().contains(k),
            |k: (int, int)| self.rows@[self.row_keys().index_of(k)].points as int,
        )
    }

    /// The tables are consistent: no two points rows share a key, and the
    /// contents are well formed.
    pub closed spec fn wf(&self) -> bool {
        &&& self.row_keys().no_duplicates()
        &&& self.view().wf()
    }

    /// The contents of consistent tables are well formed.
    pub proof fn lemma_view_wf(&self)
        requires
            self.wf(),
        ensures
            self@.wf(),
    {
    }

    proof fn lemma_row_at(&self, i: int)
        requires
            self.row_keys().no_duplicates(),
            0 <= i < self.rows@.len(),
        ensures
            self.points_map().contains_key(self.row_keys()[i]),
            self.points_map()[self.row_keys()[i]] == self.rows@[i].points as int,
    {
        let k = self.row_keys()[i];
        assert(self.row_keys().contains(k));
        let j = self.row_keys().index_of(k);
        assert(self.row_keys()[j] == k);
    }

    /// Empty tables; the first user gets id 1.
    pub fn new() -> (r: Database)
        ensures
            r.wf(),
            r@ == (DbView { users: Seq::empty(), points: Map::empty(), next_id: 1 }),
    {
        let r = Database { users: Vec::new(), rows: Vec::new(), next_id: 1 };
        assert(r.user_seq() =~= Seq::<(int, Seq<char>)>::empty());
        assert(r.points_map() =~= Map::<(int, int), int>::empty());
        r
    }

    /// The position of the points row with this key, if there is one.
    fn find_row(&self, streamer_id: i32, viewer_id: i32) -> (r: Option<usize>)
        requires
            self.wf(),
        ensures
            r is Some ==> r->0 < self.rows@.len() && self.row_keys()[r->0 as int] == (streamer_id as int, viewer_id as int),
            r is None <==> !self.points_map().contains_key((streamer_id as int, viewer_id as int)),
    {
        let mut i: usize = 0;
        while i < self.rows.len()
            invariant
                i <= self.rows@.len(),
                self.wf(),
                forall|j: int| 0 <= j < i ==> self.row_keys()[j] != (streamer_id as int, viewer_id as int),
            decreases self.rows@.len() - i,
        {
            if self.rows[i].streamer_id == streamer_id && self.rows[i].viewer_id == viewer_id {
                assert(self.row_keys()[i as int] == (streamer_id as int, viewer_id as int));
                assert(self.row_keys().contains((streamer_id as int, viewer_id as int)));
                return Some(i);
            }
            i += 1;
        }
        None
    }

    /// Sets the points of the row at position `i`.
    fn set_row_points(&mut self, i: usize, points: i32)
        requires
            old(self).wf(),
            i < old(self).rows@.len(),
        ensures
            final(self).wf(),
            final(self)@ == (DbView { points: old(self)@.points.insert(old(self).row_keys()[i as int], points as int), ..old(self)@ }),
    {
        let row = UserData { streamer_id: self.rows[i].streamer_id, viewer_id: self.rows[i].viewer_id, points };
        self.rows.set(i, row);
        proof {
            let k = old(self).row_keys()[i as int];
            assert(self.row_keys() =~= old(self).row_keys());
            assert(self.user_seq() == old(self).user_seq());
            assert forall|key: (int, int)| #[trigger] self.points_map().contains_key(key)
                == old(self).points_map().insert(k, points as int).contains_key(key) by {
                if key == k {
                    assert(old(self).row_keys().contains(k));
                }
            }
            assert forall|key: (int, int)| self.points_map().contains_key(key) implies
                #[trigger] self.points_map()[key] == old(self).points_map().insert(k, points as int)[key] by {
                let j = self.row_keys().index_of(key);
                assert(self.row_keys()[j] == key);
                self.lemma_row_at(j);
                if key == k {
                    assert(j == i);
                } else {
                    old(self).lemma_row_at(j);
                }
            }
            assert(self.points_map() =~= old(self).points_map().insert(k, points as int));
        }
    }

    /// Adds a points row with a key that is not there yet.
    fn push_row(&mut self, row: NewUserData)
        requires
            old(self).wf(),
            !old(self)@.points.contains_key((row.streamer_id as int, row.viewer_id as int)),
        ensures
            final(self).wf(),
            final(self)@ == (DbView {
                points: old(self)@.points.insert((row.streamer_id as int, row.viewer_id as int), row.points as int),
                ..old(self)@
            }),
    {
        let ghost k = (row.streamer_id as int, row.viewer_id as int);
        let ghost p = row.points as int;
        self.rows.push(UserData { streamer_id: row.streamer_id, viewer_id: row.viewer_id, points: row.points });
        proof {
            let n = old(self).row_keys().len() as int;
            assert(self.row_keys() =~= old(self).row_keys().push(k));
            assert(self.user_seq() == old(self).user_seq());
            assert forall|a: int, b: int|
                0 <= a < self.row_keys().len() && 0 <= b < self.row_keys().len() && a != b
                implies self.row_keys()[a] != self.row_keys()[b] by {
                if a == n {
                    assert(old(self).row_keys()[b] == self.row_keys()[b]);
                } else if b == n {
                    assert(old(self).row_keys()[a] == self.row_keys()[a]);
                }
            }
            assert forall|key: (int, int)| #[trigger] self.points_map().contains_key(key)
                == old(self).points_map().insert(k, p).contains_key(key) by {
                if old(self).row_keys().contains(key) {
                    let j = old(self).row_keys().index_of(key);
                    assert(self.row_keys()[j] == key);
                }
                if key == k {
                    assert(self.row_keys()[n] == key);
                }
            }
            assert forall|key: (int, int)| self.points_map().contains_key(key) implies
                #[trigger] self.points_map()[key] == old(self).points_map().insert(k, p)[key] by {
                let j = self.row_keys().index_of(key);
                assert(self.row_keys()[j] == key);
                self.lemma_row_at(j);
                if key != k {
                    assert(j < n);
                    old(self).lemma_row_at(j);
                }
            }
            assert(self.points_map() =~= old(self).points_map().insert(k, p));
        }
    }
}

impl View for Database {
    type V = DbView;

    /// The contents of the tables.
    closed spec fn view(&self) -> DbView {
        DbView { users: self.user_seq(), points: self.points_map(), next_id: self.next_id as int }
    }
}

/// Adds a user with the lowercased `name` and the next id, unless the ids
/// have run out.
pub fn create_user(db: &mut Database, name: &str) -> (r: Result<User, DbError>)
    requires
        old(db).wf(),
    ensures
        final(db).wf(),
        final(db)@ == created(old(db)@, lowercase(name@)).0,
        r is Ok ==> created(old(db)@, lowercase(name@)).1 == Some(user_view(r->Ok_0)),
        r is Ok ==> forall|i: int| 0 <= i < old(db)@.users.len() ==> #[trigger] old(db)@.users[i].0 != r->Ok_0.id,
        r is Err ==> created(old(db)@, lowercase(name@)).1 is None && r->Err_0 == DbError::IdsExhausted,
{
    let lname = to_lowercase(name);
    if db.next_id > 0x7fff_ffff {
        return Err(DbError::IdsExhausted);
    }
    let id = db.next_id as i32;
    let new_user = NewUser { name: lname.as_str() };
    let ghost old_users = db.user_seq();
    db.users.push(User { id, name: String::from_str(new_user.name) });
    db.next_id = db.next_id + 1;
    proof {
        assert(db.user_seq() =~= old_users.push((id as int, lname@)));
        assert(db.row_keys() == old(db).row_keys());
        assert(db.points_map() == old(db).points_map());
        assert(db@ == created(old(db)@, lowercase(name@)).0);
    }
    Ok(User { id, name: lname })
}

/// The first user with the lowercased `user_name`.
pub fn get_user(db: &Database, user_name: &str) -> (r: Result<User, DbError>)
    requires
        db.wf(),
    ensures
        r is Ok <==> lookup_user(db@, lowercase(user_name@)) is Some,
        r is Ok ==> lookup_user(db@, lowercase(user_name@)) == Some(user_view(r->Ok_0)),
        r is Err ==> r->Err_0 == DbError::NotFound,
{
    let lname = to_lowercase(user_name);
    let ghost us = db.user_seq();
    let mut i: usize = 0;
    assert(us.take(0) =~= Seq::<(int, Seq<char>)>::empty());
    while i < db.users.len()
        invariant
            i <= db.users@.len(),
            us == db.user_seq(),
            lname@ == lowercase(user_name@),
            user_index(us.take(i as int), lname@) is None,
        decreases db.users@.len() - i,
    {
        assert(us.take(i + 1).drop_last() =~= us.take(i as int));
        if db.users[i].name == lname {
            proof {
                assert(us.take(i + 1).last() == us[i as int]);
                lemma_user_index_prefix(us, i + 1, lname@);
            }
            return Ok(User { id: db.users[i].id, name: db.users[i].name.clone() });
        }
        i += 1;
    }
    assert(us.take(db.users@.len() as int) =~= us);
    Err(DbError::NotFound)
}

/// The points row of `viewer` in the channel of `streamer`.
pub fn get_user_data(db: &Database, streamer: &User, viewer: &User) -> (r: Result<UserData, DbError>)
    requires
        db.wf(),
    ensures
        r is Ok <==> db@.points.contains_key((streamer.id as int, viewer.id as int)),
        r is Ok ==> r->Ok_0.streamer_id == streamer.id && r->Ok_0.viewer_id == viewer.id
            && r->Ok_0.points == db@.points[(streamer.id as int, viewer.id as int)],
        r is Err ==> r->Err_0 == DbError::NotFound,
{
    match db.find_row(streamer.id, viewer.id) {
        Some(i) => {
            proof {
                db.lemma_row_at(i as int);
            }
            Ok(UserData { streamer_id: streamer.id, viewer_id: viewer.id, points: db.rows[i].points })
        },
        None => Err(DbError::NotFound),
    }
}

/// Adds a points row of 0 for `viewer` in the channel of `streamer`; fails
/// when there is one already.
pub fn create_user_data(db: &mut Database, streamer: &User, viewer: &User) -> (r: Result<UserData, DbError>)
    requires
        old(db).wf(),
    ensures
        final(db).wf(),
        old(db)@.points.contains_key((streamer.id as int, viewer.id as int)) ==> final(db)@ == old(db)@
            && r == Err::<UserData, DbError>(DbError::UniqueViolation),
        !old(db)@.points.contains_key((streamer.id as int, viewer.id as int)) ==> final(db)@ == (DbView {
            points: old(db)@.points.insert((streamer.id as int, viewer.id as int), 0),
            ..old(db)@
        }) && r == Ok::<UserData, DbError>(UserData { streamer_id: streamer.id, viewer_id: viewer.id, points: 0 }),
{
    match db.find_row(streamer.id, viewer.id) {
        Some(_) => Err(DbError::UniqueViolation),
        None => {
            db.push_row(NewUserData { streamer_id: streamer.id, viewer_id: viewer.id, points: 0 });
            Ok(UserData { streamer_id: streamer.id, viewer_id: viewer.id, points: 0 })
        },
    }
}

/// Sets the points of `viewer` in the channel of `streamer`, adding the row
/// if there is none.
pub fn set_points(db: &mut Database, streamer: &User, viewer: &User, new_points: i32) -> (r: Result<(), DbError>)
    requires
        old(db).wf(),
    ensures
        final(db).wf(),
        r is Ok,
        final(db)@ == (DbView {
            points: old(db)@.points.insert((streamer.id as int, viewer.id as int), new_points as int),
            ..old(db)@
        }),
{
    match db.find_row(streamer.id, viewer.id) {
        None => {
            db.push_row(NewUserData { streamer_id: streamer.id, viewer_id: viewer.id, points: new_points });
        },
        Some(i) => {
            db.set_row_points(i, new_points);
        },
    }
    Ok(())
}

/// Adds `additional_points` to the points of `viewer` in the channel of
/// `streamer` (a missing row counting as none) and returns the new total.
pub fn add_points(db: &mut Database, streamer: &User, viewer: &User, additional_points: i32) -> (r: Result<i32, DbError>)
    requires
        old(db).wf(),
        old(db)@.points.contains_key((streamer.id as int, viewer.id as int)) ==> i32::MIN
            <= old(db)@.points[(streamer.id as int, viewer.id as int)] + additional_points <= i32::MAX,
    ensures
        final(db).wf(),
        r is Ok,
        r->Ok_0 == added(old(db)@.points, (streamer.id as int, viewer.id as int), additional_points as int),
        final(db)@ == (DbView {
            points: old(db)@.points.insert(
                (streamer.id as int, viewer.id as int),
                added(old(db)@.points, (streamer.id as int, viewer.id as int), additional_points as int),
            ),
            ..old(db)@
        }),
{
    match get_user_data(db, streamer, viewer) {
        Err(_) => {
            db.push_row(NewUserData { streamer_id: streamer.id, viewer_id: viewer.id, points: additional_points });
            Ok(additional_points)
        },
        Ok(data) => {
            let total = data.points + additional_points;
            match db.find_row(streamer.id, viewer.id) {
                Some(i) => {
                    db.set_row_points(i, total);
                },
                None => {},
            }
            Ok(total)
        },
    }
}

/// The first user with the lowercased `name`, added if there is none.
pub fn get_or_add_user(db: &mut Database, name: &str) -> (r: Result<User, Status>)
    requires
        old(db).wf(),
    ensures
        final(db).wf(),
        final(db)@ == got_or_added(old(db)@, lowercase(name@)).0,
        r is Ok ==> got_or_added(old(db)@, lowercase(name@)).1 == Some(user_view(r->Ok_0)),
        r is Err ==> got_or_added(old(db)@, lowercase(name@)).1 is None && r->Err_0.message@ == user_error(),
{
    match get_user(db, name) {
        Ok(user) => Ok(user),
        Err(_) => match create_user(db, name) {
            Ok(user) => Ok(user),
            Err(_) => Err(internal("Could not get or add user!")),
        },
    }
}

/// The points row of `viewer` in the channel of `streamer`, added with 0 if
/// there is none.
pub fn get_or_add_user_data(db: &mut Database, streamer: &User, viewer: &User) -> (r: Result<UserData, Status>)
    requires
        old(db).wf(),
    ensures
        final(db).wf(),
        r is Ok,
        r->Ok_0.streamer_id == streamer.id && r->Ok_0.viewer_id == viewer.id,
        old(db)@.points.contains_key((streamer.id as int, viewer.id as int)) ==> final(db)@ == old(db)@
            && r->Ok_0.points == old(db)@.points[(streamer.id as int, viewer.id as int)],
        !old(db)@.points.contains_key((streamer.id as int, viewer.id as int)) ==> final(db)@ == (DbView {
            points: old(db)@.points.insert((streamer.id as int, viewer.id as int), 0),
            ..old(db)@
        }) && r->Ok_0.points == 0,
{
    match get_user_data(db, streamer, viewer) {
        Ok(user_data) => Ok(user_data),
        Err(_) => match create_user_data(db, streamer, viewer) {
            Ok(user_data) => Ok(user_data),
            Err(_) => Err(internal("Could not get or add user data!")),
        },
    }
}

/// Looking up or adding a user leaves the points alone, finds that user
/// afterwards, and keeps every user that was found before.
proof fn lemma_got_or_added(d: DbView, n: Seq<char>)
    ensures
        got_or_added(d, n).0.points == d.points,
        got_or_added(d, n).1 is Some ==> lookup_user(got_or_added(d, n).0, n) == got_or_added(d, n).1,
        forall|m: Seq<char>| #[trigger] lookup_user(d, m) is Some ==> lookup_user(got_or_added(d, n).0, m)
            == lookup_user(d, m),
{
    if lookup_user(d, n) is None && d.next_id <= i32::MAX {
        let us = d.users.push((d.next_id, n));
        assert(us.drop_last() =~= d.users);
        assert forall|m: Seq<char>| #[trigger] lookup_user(d, m) is Some implies lookup_user(got_or_added(d, n).0, m)
            == lookup_user(d, m) by {
            lemma_user_index_found(d.users, m);
        }
    }
}

/// After both users are looked up or added, both are found, under the ids
/// returned, and the points are untouched.
proof fn lemma_both_users(d: DbView, s: Seq<char>, v: Seq<char>)
    ensures
        both_users(d, s, v).0.points == d.points,
        both_users(d, s, v).1 is Some ==> ({
            let e = both_users(d, s, v).0;
            let k = both_users(d, s, v).1->0;
            &&& lookup_user(e, s) is Some && lookup_user(e, s).unwrap().0 == k.0
            &&& lookup_user(e, v) is Some && lookup_user(e, v).unwrap().0 == k.1
        }),
{
    lemma_got_or_added(d, s);
    let a = got_or_added(d, s);
    if a.1 is Some {
        lemma_got_or_added(a.0, v);
        assert(lookup_user(a.0, s) is Some);
    }
}

/// Once both users are there, looking them up again changes nothing,
/// whatever the points.
proof fn lemma_both_users_again(d: DbView, s: Seq<char>, v: Seq<char>, p: Map<(int, int), int>)
    requires
        both_users(d, s, v).1 is Some,
    ensures
        both_users(DbView { points: p, ..both_users(d, s, v).0 }, s, v)
            == (DbView { points: p, ..both_users(d, s, v).0 }, both_users(d, s, v).1),
{
    lemma_both_users(d, s, v);
    let e = DbView { points: p, ..both_users(d, s, v).0 };
    assert(lookup_user(e, s) == lookup_user(both_users(d, s, v).0, s));
    assert(lookup_user(e, v) == lookup_user(both_users(d, s, v).0, v));
}

/// The name the service answers `get_user` with.
pub open spec fn served_user_name() -> Seq<char> {
    "iamhardliner"@
}

/// The points service over its tables.
pub struct MyDatabase {
    db: Database,
}

impl View for MyDatabase {
    type V = DbView;

    /// The contents of the tables.
    closed spec fn view(&self) -> DbView {
        self.db@
    }
}

impl MyDatabase {
    /// The tables are consistent.
    pub closed spec fn wf(&self) -> bool {
        self.db.wf()
    }

    /// The contents of consistent tables are well formed.
    pub proof fn lemma_view_wf(&self)
        requires
            self.wf(),
        ensures
            self@.wf(),
    {
    }

    /// A service over empty tables.
    pub fn new() -> (r: MyDatabase)
        ensures
            r.wf(),
            r@ == (DbView { users: Seq::empty(), points: Map::empty(), next_id: 1 }),
    {
        MyDatabase { db: Database::new() }
    }

    /// The points of the viewer in the streamer's channel; both users are
    /// added if they are new, and a missing row is added with 0. Names are
    /// compared lowercased.
    pub fn get_points(&mut self, streamer_name: &str, viewer_name: &str) -> (r: Result<i32, Status>)
        requires
            old(self).wf(),
        ensures
            final(self).wf(),
            final(self)@ == served_get(old(self)@, lowercase(streamer_name@), lowercase(viewer_name@)).0,
            r is Ok <==> served_get(old(self)@, lowercase(streamer_name@), lowercase(viewer_name@)).1 is Some,
            r is Ok ==> Some(r->Ok_0 as int) == served_get(old(self)@, lowercase(streamer_name@), lowercase(viewer_name@)).1,
            r is Err ==> r->Err_0.message@ == user_error(),
    {
        let streamer = match get_or_add_user(&mut self.db, streamer_name) {
            Ok(u) => u,
            Err(e) => return Err(e),
        };
        let viewer = match get_or_add_user(&mut self.db, viewer_name) {
            Ok(u) => u,
            Err(e) => return Err(e),
        };
        let user_data = match get_or_add_user_data(&mut self.db, &streamer, &viewer) {
            Ok(d) => d,
            Err(e) => return Err(e),
        };
        Ok(user_data.points)
    }

    /// Sets the points of the viewer in the streamer's channel; both users are
    /// added if they are new. Names are compared lowercased.
    pub fn set_points(&mut self, streamer_name: &str, viewer_name: &str, points: i32) -> (r: Result<(), Status>)
        requires
            old(self).wf(),
        ensures
            final(self).wf(),
            final(self)@ == served_set(old(self)@, lowercase(streamer_name@), lowercase(viewer_name@), points as int).0,
            r is Ok <==> served_set(old(self)@, lowercase(streamer_name@), lowercase(viewer_name@), points as int).1,
            r is Err ==> r->Err_0.message@ == user_error(),
    {
        let streamer = match get_or_add_user(&mut self.db, streamer_name) {
            Ok(u) => u,
            Err(e) => return Err(e),
        };
        let viewer = match get_or_add_user(&mut self.db, viewer_name) {
            Ok(u) => u,
            Err(e) => return Err(e),
        };
        match set_points(&mut self.db, &streamer, &viewer, points) {
            Ok(()) => Ok(()),
            Err(_) => Err(internal("oops")),
        }
    }

    /// Adds points for the viewer in the streamer's channel and returns the new
    /// total; both users are added if they are new, and a missing row counts
    /// as none. Names are compared lowercased.
    pub fn add_points(&mut self, streamer_name: &str, viewer_name: &str, points: i32) -> (r: Result<i32, Status>)
        requires
            old(self).wf(),
            add_fits(old(self)@, lowercase(streamer_name@), lowercase(viewer_name@), points as int),
        ensures
            final(self).wf(),
            final(self)@ == served_add(old(self)@, lowercase(streamer_name@), lowercase(viewer_name@), points as int).0,
            r is Ok <==> served_add(old(self)@, lowercase(streamer_name@), lowercase(viewer_name@), points as int).1 is Some,
            r is Ok ==> Some(r->Ok_0 as int) == served_add(old(self)@, lowercase(streamer_name@), lowercase(viewer_name@), points as int).1,
            r is Err ==> r->Err_0.message@ == user_error(),
    {
        let streamer = match get_or_add_user(&mut self.db, streamer_name) {
            Ok(u) => u,
            Err(e) => return Err(e),
        };
        let viewer = match get_or_add_user(&mut self.db, viewer_name) {
            Ok(u) => u,
            Err(e) => return Err(e),
        };
        match add_points(&mut self.db, &streamer, &viewer, points) {
            Ok(new_points) => Ok(new_points),
            Err(_) => Err(internal("oops")),
        }
    }

    /// Adds points as `add_points` does, or gives `None`, after looking up or
    /// adding both users, when the new total would not fit in an `i32`.
    pub fn try_add_points(&mut self, streamer_name: &str, viewer_name: &str, points: i32) -> (r: Option<Result<i32, Status>>)
        requires
            old(self).wf(),
        ensures
            final(self).wf(),
            r is None <==> !add_fits(old(self)@, lowercase(streamer_name@), lowercase(viewer_name@), points as int),
            r is None ==> final(self)@ == both_users(old(self)@, lowercase(streamer_name@), lowercase(viewer_name@)).0,
            r is Some ==> ({
                let res = r->0;
                let served = served_add(old(self)@, lowercase(streamer_name@), lowercase(viewer_name@), points as int);
                &&& final(self)@ == served.0
                &&& res is Ok <==> served.1 is Some
                &&& res is Ok ==> Some(res->Ok_0 as int) == served.1
                &&& res is Err ==> res->Err_0.message@ == user_error()
            }),
    {
        let ghost d = self.db@;
        let ghost ls = lowercase(streamer_name@);
        let ghost lv = lowercase(viewer_name@);
        let streamer = match get_or_add_user(&mut self.db, streamer_name) {
            Ok(u) => u,
            Err(e) => return Some(Err(e)),
        };
        let viewer = match get_or_add_user(&mut self.db, viewer_name) {
            Ok(u) => u,
            Err(e) => return Some(Err(e)),
        };
        proof {
            lemma_both_users(d, ls, lv);
            lemma_both_users_again(d, ls, lv, self.db@.points);
            assert(self.db@ == both_users(d, ls, lv).0);
        }
        match get_user_data(&self.db, &streamer, &viewer) {
            Ok(data) => {
                let total: i64 = data.points as i64 + points as i64;
                if total < -0x8000_0000 || total > 0x7fff_ffff {
                    return None;
                }
            },
            Err(_) => {},
        }
        Some(self.add_points(streamer_name, viewer_name, points))
    }

    /// Adds a user with the lowercased `name` and answers with the id 1,
    /// whatever id the user got.
    pub fn add_user(&mut self, name: &str) -> (r: i32)
        requires
            old(self).wf(),
        ensures
            final(self).wf(),
            final(self)@ == created(old(self)@, lowercase(name@)).0,
            r == 1,
    {
        let _ = create_user(&mut self.db, name);
        1
    }

    /// Whether a request for these two users can look them up or add them:
    /// it fails only when the user ids run out.
    pub fn can_serve(&self, streamer_name: &str, viewer_name: &str) -> (r: bool)
        requires
            self.wf(),
        ensures
            r == both_users(self@, lowercase(streamer_name@), lowercase(viewer_name@)).1 is Some,
    {
        let ghost d = self@;
        let ghost ls = lowercase(streamer_name@);
        let ghost lv = lowercase(viewer_name@);
        let s_found = get_user(&self.db, streamer_name).is_ok();
        let v_found = get_user(&self.db, viewer_name).is_ok();
        proof {
            lemma_got_or_added(d, ls);
        }
        if s_found && v_found {
            proof {
                lemma_got_or_added(got_or_added(d, ls).0, lv);
            }
            return true;
        }
        let lower_s = to_lowercase(streamer_name);
        let lower_v = to_lowercase(viewer_name);
        let needed: i64 = if !s_found && !v_found && !(lower_s == lower_v) { 2 } else { 1 };
        proof {
            let a = got_or_added(d, ls);
            if !s_found && d.next_id <= i32::MAX {
                let us = d.users.push((d.next_id, ls));
                assert(us.drop_last() =~= d.users);
                if !v_found && lv != ls {
                    lemma_user_index_found(d.users, lv);
                    assert(user_index(us, lv) is None);
                }
            }
            lemma_got_or_added(a.0, lv);
        }
        self.db.next_id + needed - 1 <= 0x7fff_ffff
    }

    /// Answers a user request with the streamer's name, whatever the name
    /// asked for.
    pub fn get_user(&self, name: &str) -> (r: String)
        ensures
            r@ == served_user_name(),
    {
        String::from_str("iamhardliner")
    }
}

/// A points request after a request that set the points answers with those
/// points and changes nothing.
pub proof fn law_get_after_set(d: DbView, s: Seq<char>, v: Seq<char>, p: int)
    requires
        served_set(d, s, v, p).1,
    ensures
        served_get(served_set(d, s, v, p).0, s, v) == (served_set(d, s, v, p).0, Some(p)),
{
    let u = both_users(d, s, v);
    let e = served_set(d, s, v, p).0;
    lemma_both_users_again(d, s, v, u.0.points.insert(u.1->0, p));
    assert(e == DbView { points: u.0.points.insert(u.1->0, p), ..u.0 });
}

/// A request that adds points answers with the points stored before plus
/// the points added (the points added alone when none were stored), and a
/// points request afterwards answers with that total and changes nothing.
pub proof fn law_add_then_get(d: DbView, s: Seq<char>, v: Seq<char>, a: int)
    requires
        served_add(d, s, v, a).1 is Some,
    ensures
        stored_points(d, s, v) is Some ==> served_add(d, s, v, a).1 == Some(stored_points(d, s, v)->0 + a),
        lookup_user(d, s) is Some && lookup_user(d, v) is Some && stored_points(d, s, v) is None
            ==> served_add(d, s, v, a).1 == Some(a),
        served_get(served_add(d, s, v, a).0, s, v) == (served_add(d, s, v, a).0, served_add(d, s, v, a).1),
{
    let u = both_users(d, s, v);
    let t = served_add(d, s, v, a).1->0;
    lemma_both_users_again(d, s, v, u.0.points.insert(u.1->0, t));
    if lookup_user(d, s) is Some && lookup_user(d, v) is Some {
        lemma_got_or_added(d, s);
        assert(u.0 == d);
    }
}

/// A points request for two users that are there and have no points row
/// yet answers with 0.
pub proof fn law_new_viewer_has_no_points(d: DbView, s: Seq<char>, v: Seq<char>)
    requires
        lookup_user(d, s) is Some,
        lookup_user(d, v) is Some,
        stored_points(d, s, v) is None,
    ensures
        served_get(d, s, v).1 == Some(0int),
{
    lemma_got_or_added(d, s);
}

/// A points request that finds its row stored changes nothing and answers
/// with the stored points.
pub proof fn law_get_reads_stored(d: DbView, s: Seq<char>, v: Seq<char>)
    requires
        stored_points(d, s, v) is Some,
    ensures
        served_get(d, s, v) == (d, stored_points(d, s, v)),
{
    lemma_got_or_added(d, s);
}

/// Looking up or adding users keeps the tables well formed.
proof fn lemma_both_users_wf(d: DbView, s: Seq<char>, v: Seq<char>)
    requires
        d.wf(),
    ensures
        both_users(d, s, v).0.wf(),
{
    lemma_got_or_added_wf(d, s);
    lemma_got_or_added_wf(got_or_added(d, s).0, v);
}

proof fn lemma_got_or_added_wf(d: DbView, n: Seq<char>)
    requires
        d.wf(),
    ensures
        got_or_added(d, n).0.wf(),
{
    if lookup_user(d, n) is None && d.next_id <= i32::MAX {
        let e = got_or_added(d, n).0;
        assert forall|i: int| 0 <= i < e.users.len() implies 1 <= #[trigger] e.users[i].0 < e.next_id by {
            if i < d.users.len() {
                assert(e.users[i] == d.users[i]);
            }
        }
        assert forall|i: int, j: int| 0 <= i < e.users.len() && 0 <= j < e.users.len() && i != j
            implies e.users[i].0 != e.users[j].0 by {
            if i < d.users.len() && j < d.users.len() {
                assert(e.users[i] == d.users[i] && e.users[j] == d.users[j]);
            } else if i < d.users.len() {
                assert(e.users[i] == d.users[i]);
            } else if j < d.users.len() {
                assert(e.users[j] == d.users[j]);
            }
        }
    }
}

/// In well-formed tables, users found under different names have different
/// ids.
proof fn lemma_distinct_names_distinct_ids(d: DbView, a: Seq<char>, b: Seq<char>)
    requires
        d.wf(),
        a != b,
        lookup_user(d, a) is Some,
        lookup_user(d, b) is Some,
    ensures
        lookup_user(d, a).unwrap().0 != lookup_user(d, b).unwrap().0,
{
    lemma_user_index_found(d.users, a);
    lemma_user_index_found(d.users, b);
}

/// Setting the points of one viewer in one channel leaves the points of
/// every other pair of users that were already there as they were.
pub proof fn law_set_keeps_other_pairs(d: DbView, s: Seq<char>, v: Seq<char>, p: int, a: Seq<char>, b: Seq<char>)
    requires
        d.wf(),
        served_set(d, s, v, p).1,
        a != s || b != v,
        lookup_user(d, a) is Some,
        lookup_user(d, b) is Some,
    ensures
        stored_points(served_set(d, s, v, p).0, a, b) == stored_points(d, a, b),
{
    let u = both_users(d, s, v);
    lemma_both_users(d, s, v);
    lemma_both_users_wf(d, s, v);
    lemma_got_or_added(d, s);
    lemma_got_or_added(got_or_added(d, s).0, v);
    assert(lookup_user(u.0, a) == lookup_user(d, a));
    assert(lookup_user(u.0, b) == lookup_user(d, b));
    if a != s {
        lemma_distinct_names_distinct_ids(u.0, a, s);
    } else {
        lemma_distinct_names_distinct_ids(u.0, b, v);
    }
    let e = served_set(d, s, v, p).0;
    assert(lookup_user(e, a) == lookup_user(u.0, a));
    assert(lookup_user(e, b) == lookup_user(u.0, b));
}

} // verus!
