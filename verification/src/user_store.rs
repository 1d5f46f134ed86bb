//! The credential store: a password for each user name.

use crate::error::FsError;
use crate::master_client_utils::User;
use crate::safe_map::{insert_all, Table};
use vstd::prelude::*;

verus! {

impl DeepView for User {
    /// The user name and the password.
    type V = (Seq<char>, Seq<char>);

    open spec fn deep_view(&self) -> (Seq<char>, Seq<char>) {
        (self.username@, self.password@)
    }
}

/// What registering `name` answers.
pub open spec fn register_result(users: Map<Seq<char>, Seq<char>>, name: Seq<char>) -> Result<
    (),
    FsError,
> {
    if users.contains_key(name) {
        Err(FsError::AlreadyExists)
    } else {
        Ok(())
    }
}

/// What logging in as `name` with `password` answers.
pub open spec fn login_result(
    users: Map<Seq<char>, Seq<char>>,
    name: Seq<char>,
    password: Seq<char>,
) -> Result<(), FsError> {
    if !users.contains_key(name) {
        Err(FsError::NotFound)
    } else if users[name] != password {
        Err(FsError::InvalidData)
    } else {
        Ok(())
    }
}

/// A user who has just registered can log in with the same credentials.
pub proof fn lemma_register_then_login(
    users: Map<Seq<char>, Seq<char>>,
    name: Seq<char>,
    password: Seq<char>,
)
    requires
        register_result(users, name) is Ok,
    ensures
        login_result(users.insert(name, password), name, password) is Ok,
        register_result(users.insert(name, password), name) == Err::<(), FsError>(
            FsError::AlreadyExists,
        ),
{
}

/// The registered users.
pub struct UserDatabase {
    users: Table<String, String>,
}

impl UserDatabase {
    /// The password of each registered user.
    pub closed spec fn view(&self) -> Map<Seq<char>, Seq<char>> {
        self.users@
    }

    /// The store that holds the saved users, a later record replacing an
    /// earlier one of the same name.
    pub fn new(saved: &Vec<User>) -> (db: Self)
        ensures
            db@ == insert_all(Map::<Seq<char>, Seq<char>>::empty(), saved.deep_view()),
    {
        let ghost records = saved.deep_view();
        let mut users: Table<String, String> = Table::new();
        let mut i: usize = 0;
        assert(records.take(0) =~= Seq::<(Seq<char>, Seq<char>)>::empty());
        while i < saved.len()
            invariant
                records == saved.deep_view(),
                i <= saved@.len(),
                users@ == insert_all(Map::<Seq<char>, Seq<char>>::empty(), records.take(i as int)),
            decreases saved@.len() - i,
        {
            proof {
                assert(records.take(i + 1).drop_last() =~= records.take(i as int));
                assert(records.take(i + 1).last() == saved@[i as int].deep_view());
            }
            users.insert(saved[i].username.clone(), saved[i].password.clone());
            i += 1;
        }
        assert(records.take(i as int) =~= records);
        UserDatabase { users }
    }

    /// Registers a new user.
    pub fn register(&mut self, user: &User) -> (r: Result<(), FsError>)
        ensures
            r == register_result(old(self)@, user.username@),
            r is Ok ==> final(self)@ == old(self)@.insert(user.username@, user.password@),
            r is Err ==> final(self)@ == old(self)@,
    {
        if self.users.contains_key(&user.username) {
            return Err(FsError::AlreadyExists);
        }
        self.users.insert(user.username.clone(), user.password.clone());
        Ok(())
    }

    /// Checks a user's credentials.
    pub fn login(&self, user: &User) -> (r: Result<(), FsError>)
        ensures
            r == login_result(self@, user.username@, user.password@),
    {
        match self.users.get(&user.username) {
            None => Err(FsError::NotFound),
            Some(password) => {
                if *password == user.password {
                    Ok(())
                } else {
                    Err(FsError::InvalidData)
                }
            },
        }
    }
}

} // verus!
