//! A user row as the database table holds it, and the in-memory half
//! of the table's operations: membership and insert-or-update over an
//! ordered list of rows. Running the SQL statements that mirror these
//! changes is I/O and happens outside the library.

use vstd::prelude::*;

use crate::codec::unique_keys;
use crate::storage::{has_key, key_index, lemma_upsert_wf, upsert_model};
use crate::strutil::str_eq;

verus! {

/// One row of the user table.
#[derive(Debug)]
pub struct User {
    pub name: String,
    pub offset: i64,
}

impl User {
    pub fn new(name: String, offset: i64) -> (r: Self)
        ensures
            r.name == name,
            r.offset == offset,
    {
        Self { name, offset }
    }
}

/// The mathematical content of a list of user rows.
pub open spec fn users_view(users: Seq<User>) -> Seq<(Seq<char>, int)> {
    Seq::new(users.len(), |i: int| (users[i].name@, users[i].offset as int))
}

/// Whether some row carries the given name.
pub fn users_contain(users: &Vec<User>, name: &str) -> (r: bool)
    ensures
        r == has_key(users_view(users@), name@),
{
    let ghost m = users_view(users@);
    let n = users.len();
    let mut i: usize = 0;
    while i < n
        invariant
            n == users@.len(),
            m == users_view(users@),
            m.len() == n,
            0 <= i <= n,
            forall|j: int| 0 <= j < i ==> (#[trigger] m[j]).0 != name@,
        decreases n - i,
    {
        if str_eq(users[i].name.as_str(), name) {
            proof {
                assert(m[i as int].0 == name@);
            }
            return true;
        }
        proof {
            assert(m[i as int].0 == users@[i as int].name@);
        }
        i += 1;
    }
    false
}

/// Inserts or updates by name: an existing row keeps its place and
/// takes the new offset, a new name goes to the end; names that were
/// unique stay unique.
pub fn upsert_user(users: &mut Vec<User>, name: &str, offset: i64)
    ensures
        users_view(final(users)@) == upsert_model(users_view(old(users)@), name@, offset as int),
        unique_keys(users_view(old(users)@)) ==> unique_keys(users_view(final(users)@)),
{
    let ghost m = users_view(old(users)@);
    proof {
        if unique_keys(m) {
            lemma_upsert_wf(m, name@, offset as int);
        }
    }
    let n = users.len();
    let mut i: usize = 0;
    while i < n
        invariant
            users@ == old(users)@,
            n == users@.len(),
            m == users_view(users@),
            m.len() == n,
            0 <= i <= n,
            forall|j: int| 0 <= j < i ==> (#[trigger] m[j]).0 != name@,
        decreases n - i,
    {
        if str_eq(users[i].name.as_str(), name) {
            proof {
                assert(m[i as int].0 == name@);
                crate::storage::lemma_key_index_prefix(m, name@, i as int);
            }
            let row = users.remove(i);
            users.insert(i, User { name: row.name, offset });
            proof {
                assert(has_key(m, name@));
                assert(key_index(m, name@) == i as int);
                assert(row.name@ == name@);
                assert(users_view(users@) =~= m.update(i as int, (name@, offset as int)));
                assert(upsert_model(m, name@, offset as int) == m.update(i as int, (
                    name@,
                    offset as int,
                )));
            }
            return ;
        }
        proof {
            assert(m[i as int].0 == users@[i as int].name@);
        }
        i += 1;
    }
    users.push(User { name: name.to_owned(), offset });
    proof {
        assert(!has_key(m, name@));
        assert(users_view(users@) =~= m.push((name@, offset as int)));
    }
}

} // verus!
