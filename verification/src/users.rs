//! The user endpoints: what they answer for each outcome of the database.

use vstd::prelude::*;
use crate::response::Response;

verus! {

/// A row of the user table.
#[derive(Debug)]
pub struct User {
    pub id: i32,
    pub username: String,
    pub password: String,
    pub email: String,
}

/// The body of a request to create a user.
#[derive(Debug)]
pub struct CreateUserRequest {
    pub username: String,
    pub password: String,
    pub email: String,
}

/// The body of a request to change a user: the fields given are replaced.
#[derive(Debug)]
pub struct UpdateUserRequest {
    pub id: i32,
    pub username: Option<String>,
    pub email: Option<String>,
}

/// The query of a request to find a user.
#[derive(Debug)]
pub struct SearchUserRequest {
    pub id: i32,
}

/// The reply of an endpoint that changes the table: 200 with `done` as the
/// payload, or 500 with the database error as the message.
pub open spec fn write_reply_ok(r: Response<String>, result: Result<(), String>, done: Seq<char>) -> bool {
    match result {
        Ok(()) => r.code == 200 && r.msg@ == "success"@ && r.data@ == done,
        Err(e) => r.code == 500 && r.msg == e && r.data@ == Seq::<char>::empty(),
    }
}

fn write_reply(result: Result<(), String>, done: String) -> (r: Response<String>)
    ensures
        write_reply_ok(r, result, done@),
{
    match result {
        Ok(()) => Response::success(done),
        Err(e) => Response::server_error(e),
    }
}

/// The reply to creating a user, given whether the insertion succeeded.
pub fn create_reply(result: Result<(), String>) -> (r: Response<String>)
    ensures
        write_reply_ok(r, result, "create user success"@),
{
    write_reply(result, String::from_str("create user success"))
}

/// The reply to deleting a user, given whether the deletion succeeded.
pub fn delete_reply(result: Result<(), String>) -> (r: Response<String>)
    ensures
        write_reply_ok(r, result, "delete user success"@),
{
    write_reply(result, String::from_str("delete user success"))
}

/// The reply to changing a user, given whether the update succeeded.
pub fn update_reply(result: Result<(), String>) -> (r: Response<String>)
    ensures
        write_reply_ok(r, result, "update user success"@),
{
    write_reply(result, String::from_str("update user success"))
}

/// The user with the fields of the request that are given put in place; the
/// id and the password stay.
pub fn apply_update(user: User, req: &UpdateUserRequest) -> (r: User)
    ensures
        r.id == user.id,
        r.password == user.password,
        r.username == (match req.username {
            Some(u) => u,
            None => user.username,
        }),
        r.email == (match req.email {
            Some(e) => e,
            None => user.email,
        }),
{
    let mut user = user;
    match &req.username {
        Some(u) => {
            user.username = u.clone();
        },
        None => {},
    }
    match &req.email {
        Some(e) => {
            user.email = e.clone();
        },
        None => {},
    }
    user
}

/// What to write back for a change request, given the lookup of its user:
/// the changed user, or the reply when the user is missing (500 "用户不存在")
/// or the lookup failed (500 with the error).
pub fn update_target(found: Result<Option<User>, String>, req: &UpdateUserRequest) -> (r: Result<User, Response<String>>)
    ensures
        found matches Ok(Some(u)) ==> (r matches Ok(v) && v.id == u.id && v.password == u.password
            && v.username == (match req.username { Some(n) => n, None => u.username })
            && v.email == (match req.email { Some(e) => e, None => u.email })),
        found matches Ok(None) ==> (r matches Err(resp) && resp.code == 500 && resp.msg@ == "用户不存在"@
            && resp.data@ == Seq::<char>::empty()),
        found matches Err(e) ==> (r matches Err(resp) && resp.code == 500 && resp.msg == e
            && resp.data@ == Seq::<char>::empty()),
{
    match found {
        Ok(Some(user)) => Ok(apply_update(user, req)),
        Ok(None) => Err(Response::server_error(String::from_str("用户不存在"))),
        Err(e) => Err(Response::server_error(e)),
    }
}

/// The reply to finding users: 200 with the users found, or 500 with the
/// database error and no users.
pub fn get_reply(result: Result<Vec<User>, String>) -> (r: Response<Vec<User>>)
    ensures
        result matches Ok(users) ==> r.code == 200 && r.msg@ == "success"@ && r.data == users,
        result matches Err(e) ==> r.code == 500 && r.msg == e && r.data@.len() == 0,
{
    match result {
        Ok(users) => Response::success(users),
        Err(e) => Response::server_error(e),
    }
}

} // verus!
