//! The user database: registration, login, and its JSON form on disk.
//! Passwords are hashed with bcrypt; the database is written with serde_json.

use vstd::prelude::*;
use crate::error::ServerError;
use crate::name_map::{NameMap, assoc_map, distinct_keys, entry_views};
use crate::text::{lemma_split_first, lemma_split_whole, split_n, split_spaces};

verus! {

/// Usernames with their bcrypt password hashes.
pub type UserDb = NameMap<String>;

#[verifier::external_type_specification]
#[verifier::external_body]
pub struct ExBcryptError(bcrypt::BcryptError);

#[verifier::external_type_specification]
#[verifier::external_body]
pub struct ExJsonError(serde_json::Error);

/// What `bcrypt::verify(password, hash)` returns: `Some(b)` for `Ok(b)`,
/// `None` for an error.
pub uninterp spec fn bcrypt_check(password: Seq<char>, hash: Seq<char>) -> Option<bool>;

/// The entries that `serde_json::from_str` reads from `text` into a
/// `BTreeMap<String, String>`, in the map's order; `None` where it fails.
pub uninterp spec fn json_user_entries(text: Seq<char>) -> Option<Seq<(Seq<char>, Seq<char>)>>;

/// A bcrypt hash as `bcrypt::hash` writes it at the default cost: 60 ASCII
/// characters beginning with `$2b$12$`, then the salt and digest.
pub open spec fn bcrypt_form(h: Seq<char>) -> bool {
    &&& h.len() == 60
    &&& h.subrange(0, 7) == "$2b$12$"@
    &&& forall|i: int| 0 <= i < h.len() ==> (h[i] as u32) < 0x80
}

/// Calls `bcrypt::hash(password, bcrypt::DEFAULT_COST)`. Its salt is random, so
/// the hash is not a function of the password and gets no name; what is stated
/// is what bcrypt's source shows of every hash it returns: it is formatted as
/// version `2b` with the cost `12`, the base64 salt and digest, 60 ASCII bytes
/// in all; and `bcrypt::verify` of the same password against it parses the
/// cost and salt back and recomputes the same digest, so it returns `Ok(true)`.
#[verifier::external_body]
fn hash_password(password: &str) -> (r: Result<String, bcrypt::BcryptError>)
    ensures
        r matches Ok(h) ==> bcrypt_check(password@, h@) == Some(true) && bcrypt_form(h@),
{
    bcrypt::hash(password, bcrypt::DEFAULT_COST)
}

/// Calls `bcrypt::verify(password, hash)`, a function of its arguments.
#[verifier::external_body]
fn verify_password(password: &str, hash: &str) -> (r: Result<bool, bcrypt::BcryptError>)
    ensures
        match r {
            Ok(b) => bcrypt_check(password@, hash@) == Some(b),
            Err(_) => bcrypt_check(password@, hash@) is None,
        },
{
    bcrypt::verify(password, hash)
}

/// Calls `serde_json::to_string` on the pairs gathered into a
/// `HashMap<&str, &str>`: a JSON object with one string member per pair, in
/// the map's (random) order, so the text gets no name. What is stated is what
/// serde_json's source shows: serializing string keys and values into a
/// `Vec<u8>` cannot fail, and reading the text back with `serde_json::from_str`
/// yields the same pairs.
#[verifier::external_body]
fn users_to_json(pairs: &Vec<(String, String)>) -> (r: Result<String, serde_json::Error>)
    requires
        distinct_keys(entry_views(pairs@)),
    ensures
        r is Ok,
        r matches Ok(text) ==> json_user_entries(text@) matches Some(e) && assoc_map(e)
            == assoc_map(entry_views(pairs@)),
{
    let map: std::collections::HashMap<&str, &str> = pairs.iter().map(
        |p| (p.0.as_str(), p.1.as_str()),
    ).collect();
    serde_json::to_string(&map)
}

/// Calls `serde_json::from_str::<BTreeMap<String, String>>(text)` and lists
/// the map's entries.
#[verifier::external_body]
fn users_from_json(text: &str) -> (r: Option<Vec<(String, String)>>)
    ensures
        match r {
            Some(v) => json_user_entries(text@) == Some(entry_views(v@)),
            None => json_user_entries(text@) is None,
        },
{
    match serde_json::from_str::<std::collections::BTreeMap<String, String>>(text) {
        Ok(m) => Some(m.into_iter().collect()),
        Err(_) => None,
    }
}

/// `text` is a JSON form of the database `users`.
pub open spec fn holds_users(text: Seq<char>, users: Map<Seq<char>, Seq<char>>) -> bool {
    json_user_entries(text) matches Some(e) && assoc_map(e) == users
}

/// The database read from the file's contents (`None` where the file could
/// not be read): empty where there is no file or its JSON does not parse.
pub open spec fn loaded_users(data: Option<Seq<char>>) -> Map<Seq<char>, Seq<char>> {
    match data {
        None => Map::empty(),
        Some(text) => match json_user_entries(text) {
            Some(e) => assoc_map(e),
            None => Map::empty(),
        },
    }
}

/// The JSON text of the user database, to be written to `users.json`.
pub fn save_users(users: &UserDb) -> (r: Result<String, ServerError>)
    requires
        users.wf(),
    ensures
        r matches Ok(text) && holds_users(text@, users@),
{
    match users_to_json(users.pairs()) {
        Ok(text) => Ok(text),
        Err(_) => Err(ServerError::SerializeFailed),
    }
}

/// The user database from the contents of `users.json`, if it could be read.
pub fn load_users(data: Option<&str>) -> (r: UserDb)
    ensures
        r.wf(),
        r@ == loaded_users(
            match data {
                Some(t) => Some(t@),
                None => None,
            },
        ),
{
    match data {
        None => NameMap::new(),
        Some(text) => match users_from_json(text) {
            Some(pairs) => NameMap::from_pairs(&pairs),
            None => NameMap::new(),
        },
    }
}

/// Loading what was saved gives back the same database.
pub proof fn lemma_load_after_save(text: Seq<char>, users: Map<Seq<char>, Seq<char>>)
    requires
        holds_users(text, users),
    ensures
        loaded_users(Some(text)) == users,
{
}

/// The reply to a `REGISTER` without both a username and a password.
pub open spec fn register_usage() -> Seq<char> {
    "Usage: REGISTER <username> <password>\r\n"@
}

/// The reply to a `LOGIN` without both a username and a password.
pub open spec fn login_usage() -> Seq<char> {
    "Usage: LOGIN <username> <password>\r\n"@
}

/// The reply to a registration that created the account.
pub open spec fn registered_reply() -> Seq<char> {
    "Registration succesful.\r\n"@
}

/// The reply to a registration of a name that is taken.
pub open spec fn taken_reply() -> Seq<char> {
    "Username already exists.\r\n"@
}

/// The reply to a login that succeeded.
pub open spec fn login_reply() -> Seq<char> {
    "Login successful.\r\n"@
}

/// `r` is the reply `text`.
pub open spec fn replies(r: Result<String, ServerError>, text: Seq<char>) -> bool {
    r matches Ok(s) && s@ == text
}

/// `after` is `before` with `user` added under a hash in bcrypt's form that
/// bcrypt accepts for `password`.
pub open spec fn registered(
    before: Map<Seq<char>, Seq<char>>,
    after: Map<Seq<char>, Seq<char>>,
    user: Seq<char>,
    password: Seq<char>,
) -> bool {
    exists|h: Seq<char>|
        bcrypt_check(password, h) == Some(true) && bcrypt_form(h) && after == before.insert(user, h)
}

/// What a `REGISTER` message may do, given that the hash it makes is random:
/// the result `r` and the database before and after.
pub open spec fn register_effect(
    message: Seq<char>,
    before: Map<Seq<char>, Seq<char>>,
    after: Map<Seq<char>, Seq<char>>,
    r: Result<Seq<char>, ServerError>,
) -> bool {
    let parts = split_n(message, 3, ' ');
    if parts.len() != 3 {
        r == Ok::<Seq<char>, ServerError>(register_usage()) && after == before
    } else {
        ||| r == Err::<Seq<char>, ServerError>(ServerError::HashFailed) && after == before
        ||| before.dom().contains(parts[1]) && r == Ok::<Seq<char>, ServerError>(taken_reply()) && after == before
        ||| !before.dom().contains(parts[1]) && r == Ok::<Seq<char>, ServerError>(registered_reply())
            && registered(before, after, parts[1], parts[2])
    }
}

/// Records the registration of `username` once its password has been hashed
/// (`None` where hashing failed).
pub fn record_registration(username: &str, hashed: Option<String>, users: &mut UserDb) -> (r: Result<String, ServerError>)
    requires
        old(users).wf(),
    ensures
        final(users).wf(),
        match hashed {
            None => r == Err::<String, ServerError>(ServerError::HashFailed) && final(users)@ == old(users)@,
            Some(h) => if old(users)@.dom().contains(username@) {
                replies(r, taken_reply()) && final(users)@ == old(users)@
            } else {
                replies(r, registered_reply()) && final(users)@ == old(users)@.insert(username@, h@)
            },
        },
{
    match hashed {
        None => Err(ServerError::HashFailed),
        Some(h) => {
            if users.contains_key(username) {
                Ok("Username already exists.\r\n".to_owned())
            } else {
                users.insert(username.to_owned(), h);
                Ok("Registration succesful.\r\n".to_owned())
            }
        },
    }
}

/// `REGISTER <username> <password>`: hashes the password and adds the account
/// unless the name is taken. The message is cut at its first two spaces.
pub fn register_user(message: &str, users: &mut UserDb) -> (r: Result<String, ServerError>)
    requires
        old(users).wf(),
    ensures
        final(users).wf(),
        register_effect(message@, old(users)@, final(users)@, result_view(r)),
{
    let parts = split_spaces(message, 3);
    if parts.len() != 3 {
        return Ok("Usage: REGISTER <username> <password>\r\n".to_owned());
    }
    let hashed = match hash_password(parts[2].as_str()) {
        Ok(h) => Some(h),
        Err(_) => None,
    };
    let ghost hv = hashed;
    let r = record_registration(parts[1].as_str(), hashed, users);
    proof {
        assert(parts.deep_view()[1] == parts@[1]@);
        assert(parts.deep_view()[2] == parts@[2]@);
        if let Some(h) = hv {
            if !old(users)@.dom().contains(parts@[1]@) {
                assert(bcrypt_check(parts@[2]@, h@) == Some(true) && bcrypt_form(h@));
            }
        }
    }
    r
}

/// What a `LOGIN` message does to the session's nickname, with its result.
pub open spec fn login_result(
    message: Seq<char>,
    users: Map<Seq<char>, Seq<char>>,
    nickname: Seq<char>,
) -> (Result<Seq<char>, ServerError>, Seq<char>) {
    let parts = split_n(message, 3, ' ');
    if parts.len() != 3 {
        (Ok(login_usage()), nickname)
    } else if !users.dom().contains(parts[1]) {
        (Ok("User not found.\r\n"@), nickname)
    } else {
        match bcrypt_check(parts[2], users[parts[1]]) {
            None => (Err(ServerError::VerifyFailed), nickname),
            Some(true) => (Ok(login_reply()), parts[1]),
            Some(false) => (Ok("Invalid password.\r\n"@), nickname),
        }
    }
}

/// The result as plain values.
pub open spec fn result_view(r: Result<String, ServerError>) -> Result<Seq<char>, ServerError> {
    match r {
        Ok(s) => Ok(s@),
        Err(e) => Err(e),
    }
}

/// `LOGIN <username> <password>`: on a password that matches the stored hash,
/// the session's nickname becomes the username.
pub fn login_user(message: &str, users: &UserDb, nickname: &mut String) -> (r: Result<String, ServerError>)
    requires
        users.wf(),
    ensures
        (result_view(r), final(nickname)@) == login_result(message@, users@, old(nickname)@),
{
    let parts = split_spaces(message, 3);
    if parts.len() != 3 {
        return Ok("Usage: LOGIN <username> <password>\r\n".to_owned());
    }
    assert(parts.deep_view()[1] == parts@[1]@);
    assert(parts.deep_view()[2] == parts@[2]@);
    match users.get(parts[1].as_str()) {
        Some(hashed) => match verify_password(parts[2].as_str(), hashed.as_str()) {
            Err(_) => Err(ServerError::VerifyFailed),
            Ok(true) => {
                *nickname = parts[1].clone();
                Ok("Login successful.\r\n".to_owned())
            },
            Ok(false) => Ok("Invalid password.\r\n".to_owned()),
        },
        None => Ok("User not found.\r\n".to_owned()),
    }
}

/// A registration never changes or removes an account that exists, and adds
/// at most the one it names.
pub proof fn lemma_register_keeps_accounts(
    message: Seq<char>,
    before: Map<Seq<char>, Seq<char>>,
    after: Map<Seq<char>, Seq<char>>,
    r: Result<Seq<char>, ServerError>,
)
    requires
        register_effect(message, before, after, r),
    ensures
        forall|k: Seq<char>| #[trigger] before.dom().contains(k) ==> after.dom().contains(k) && after[k] == before[k],
        forall|k: Seq<char>| #[trigger] after.dom().contains(k) && !before.dom().contains(k) ==> k == split_n(message, 3, ' ')[1],
{
}

/// A registration stores a bcrypt hash, never the password itself: the stored
/// text is in bcrypt's form, so it differs from any password not in that form.
pub proof fn lemma_register_stores_hash(
    message: Seq<char>,
    before: Map<Seq<char>, Seq<char>>,
    after: Map<Seq<char>, Seq<char>>,
    r: Result<Seq<char>, ServerError>,
)
    requires
        register_effect(message, before, after, r),
        !before.dom().contains(split_n(message, 3, ' ')[1]),
        split_n(message, 3, ' ').len() == 3,
        r == Ok::<Seq<char>, ServerError>(registered_reply()),
    ensures
        ({
            let parts = split_n(message, 3, ' ');
            &&& after.dom().contains(parts[1])
            &&& bcrypt_form(after[parts[1]])
            &&& bcrypt_check(parts[2], after[parts[1]]) == Some(true)
            &&& !bcrypt_form(parts[2]) ==> after[parts[1]] != parts[2]
        }),
{
    let parts = split_n(message, 3, ' ');
    let h = choose|h: Seq<char>|
        bcrypt_check(parts[2], h) == Some(true) && bcrypt_form(h) && after == before.insert(parts[1], h);
    assert(after[parts[1]] == h);
}

/// A `REGISTER <user> <password>`: for a free name the outcome is either a
/// hashing failure that changes nothing, or "Registration succesful." with
/// exactly one account added, for that name, under a bcrypt hash (in
/// bcrypt's form) that bcrypt accepts for that password; for a taken name
/// nothing changes. Without both parts the reply is the usage line.
pub proof fn lemma_register_outcome(
    message: Seq<char>,
    before: Map<Seq<char>, Seq<char>>,
    after: Map<Seq<char>, Seq<char>>,
    r: Result<Seq<char>, ServerError>,
)
    requires
        register_effect(message, before, after, r),
    ensures
        split_n(message, 3, ' ').len() != 3 ==> after == before
            && r == Ok::<Seq<char>, ServerError>("Usage: REGISTER <username> <password>\r\n"@),
        split_n(message, 3, ' ').len() == 3 ==> ({
            let user = split_n(message, 3, ' ')[1];
            let password = split_n(message, 3, ' ')[2];
            &&& r != Ok::<Seq<char>, ServerError>("Registration succesful.\r\n"@) ==> after == before
            &&& before.dom().contains(user) ==> after == before
            &&& r is Err ==> r == Err::<Seq<char>, ServerError>(ServerError::HashFailed)
            &&& !before.dom().contains(user) && r is Ok ==> {
                &&& r == Ok::<Seq<char>, ServerError>("Registration succesful.\r\n"@)
                &&& after.dom() == before.dom().insert(user)
                &&& forall|k: Seq<char>| #[trigger] before.dom().contains(k) ==> after[k] == before[k]
                &&& bcrypt_form(after[user])
                &&& bcrypt_check(password, after[user]) == Some(true)
            }
        }),
{
    let parts = split_n(message, 3, ' ');
    if parts.len() == 3 {
        reveal_strlit("Registration succesful.\r\n");
        reveal_strlit("Username already exists.\r\n");
        assert(registered_reply() != taken_reply()) by {
            assert(registered_reply()[0] != taken_reply()[0]);
        }
        if !before.dom().contains(parts[1]) && r is Ok {
            let h = choose|h: Seq<char>|
                bcrypt_check(parts[2], h) == Some(true) && bcrypt_form(h) && after == before.insert(parts[1], h);
            assert(after.dom() =~= before.dom().insert(parts[1]));
        }
    }
}

/// A `LOGIN <user> <password>` succeeds exactly when the account exists and
/// bcrypt accepts the password against its stored hash; then the session's
/// nickname becomes `user`, and otherwise it stays as it was. A missing
/// account is "User not found.", a rejected password "Invalid password.",
/// and a hash that bcrypt cannot read the `VerifyFailed` error.
pub proof fn lemma_login_outcome(message: Seq<char>, users: Map<Seq<char>, Seq<char>>, nickname: Seq<char>)
    ensures
        ({
            let (res, after) = login_result(message, users, nickname);
            let parts = split_n(message, 3, ' ');
            &&& parts.len() != 3 ==> res == Ok::<Seq<char>, ServerError>("Usage: LOGIN <username> <password>\r\n"@) && after == nickname
            &&& parts.len() == 3 ==> {
                let ok = users.dom().contains(parts[1]) && bcrypt_check(parts[2], users[parts[1]]) == Some(true);
                &&& (res == Ok::<Seq<char>, ServerError>("Login successful.\r\n"@)) <==> ok
                &&& ok ==> after == parts[1]
                &&& !ok ==> after == nickname
                &&& !users.dom().contains(parts[1]) ==> res == Ok::<Seq<char>, ServerError>("User not found.\r\n"@)
                &&& users.dom().contains(parts[1]) && bcrypt_check(parts[2], users[parts[1]]) == Some(false)
                    ==> res == Ok::<Seq<char>, ServerError>("Invalid password.\r\n"@)
                &&& users.dom().contains(parts[1]) && bcrypt_check(parts[2], users[parts[1]]) is None
                    ==> res == Err::<Seq<char>, ServerError>(ServerError::VerifyFailed)
            }
        }),
{
    reveal_strlit("Login successful.\r\n");
    reveal_strlit("User not found.\r\n");
    reveal_strlit("Invalid password.\r\n");
    assert("Login successful.\r\n"@[0] != "User not found.\r\n"@[0]);
    assert("Login successful.\r\n"@[0] != "Invalid password.\r\n"@[0]);
}

/// A `LOGIN` message for `user` and `password`.
pub open spec fn login_message(user: Seq<char>, password: Seq<char>) -> Seq<char> {
    "LOGIN"@ + seq![' '] + user + seq![' '] + password
}

/// A `REGISTER` message for `user` and `password`.
pub open spec fn register_message(user: Seq<char>, password: Seq<char>) -> Seq<char> {
    "REGISTER"@ + seq![' '] + user + seq![' '] + password
}

/// `REGISTER user password` is cut into the command, `user` and `password`,
/// whatever spaces the password holds, when `user` has none.
pub proof fn lemma_register_message_parts(user: Seq<char>, password: Seq<char>)
    requires
        !user.contains(' '),
    ensures
        split_n(register_message(user, password), 3, ' ') == seq!["REGISTER"@, user, password],
{
    reveal_strlit("REGISTER");
    lemma_split_first("REGISTER"@, user + seq![' '] + password, 3);
    lemma_split_first(user, password, 2);
    lemma_split_whole(password, 1);
    assert("REGISTER"@ + seq![' '] + (user + seq![' '] + password) =~= register_message(user, password));
}

/// Once `REGISTER user password` has created the account, `LOGIN user
/// password` succeeds and makes `user` the session's nickname.
pub proof fn lemma_login_after_register(
    before: Map<Seq<char>, Seq<char>>,
    after: Map<Seq<char>, Seq<char>>,
    user: Seq<char>,
    password: Seq<char>,
    nickname: Seq<char>,
)
    requires
        register_effect(
            register_message(user, password),
            before,
            after,
            Ok::<Seq<char>, ServerError>(registered_reply()),
        ),
        !user.contains(' '),
    ensures
        login_result(login_message(user, password), after, nickname) == (
            Ok::<Seq<char>, ServerError>(login_reply()),
            user,
        ),
{
    lemma_register_message_parts(user, password);
    reveal_strlit("Registration succesful.\r\n");
    reveal_strlit("Username already exists.\r\n");
    assert(registered_reply() != taken_reply()) by {
        assert(registered_reply()[0] != taken_reply()[0]);
    }
    assert(registered(before, after, user, password));
    reveal_strlit("LOGIN");
    lemma_split_first("LOGIN"@, user + seq![' '] + password, 3);
    lemma_split_first(user, password, 2);
    lemma_split_whole(password, 1);
    assert("LOGIN"@ + seq![' '] + (user + seq![' '] + password) =~= login_message(user, password));
    let parts = split_n(login_message(user, password), 3, ' ');
    assert(parts =~= seq!["LOGIN"@, user, password]);
    let h = choose|h: Seq<char>|
        bcrypt_check(password, h) == Some(true) && bcrypt_form(h) && after == before.insert(user, h);
    assert(after[user] == h);
}

} // verus!
