//! The JSON envelope `{code, msg, data}` that every endpoint answers with.

use vstd::prelude::*;
use crate::status::{Status, valid_status};

verus! {

/// A reply: an HTTP status number, a message and a payload.
#[derive(Debug)]
pub struct Response<T> {
    pub code: u16,
    pub msg: String,
    pub data: T,
}

/// The status that a reply with the number `code` is sent with: the number
/// itself where it is a valid status code, 500 otherwise.
pub open spec fn status_for(code: u16) -> u16 {
    if valid_status(code as int) { code } else { 500 }
}

impl<T: Default> Response<T> {
    /// A reply with the given status, message and payload.
    pub fn new(code: Status, msg: String, data: T) -> (r: Response<T>)
        ensures
            r.code == code@,
            r.msg == msg,
            r.data == data,
    {
        Response { code: code.as_u16(), msg, data }
    }

    /// 200 with the message "success" and the given payload.
    pub fn success(data: T) -> (r: Response<T>)
        ensures
            r.code == 200,
            r.msg@ == "success"@,
            r.data == data,
    {
        Response::new(Status::ok(), String::from_str("success"), data)
    }

    /// 500 with the given message and the default payload.
    pub fn server_error(msg: String) -> (r: Response<T>)
        ensures
            r.code == 500,
            r.msg == msg,
            call_ensures(T::default, (), r.data),
    {
        Response::new(Status::internal_server_error(), msg, T::default())
    }

    /// 404 with the given message and the default payload.
    pub fn not_found(msg: String) -> (r: Response<T>)
        ensures
            r.code == 404,
            r.msg == msg,
            call_ensures(T::default, (), r.data),
    {
        Response::new(Status::not_found(), msg, T::default())
    }

    /// 401 with the given message and the default payload.
    pub fn unauthorized(msg: String) -> (r: Response<T>)
        ensures
            r.code == 401,
            r.msg == msg,
            call_ensures(T::default, (), r.data),
    {
        Response::new(Status::unauthorized(), msg, T::default())
    }

    /// Replaces the status number.
    pub fn set_code(&mut self, code: Status)
        ensures
            final(self).code == code@,
            final(self).msg == old(self).msg,
            final(self).data == old(self).data,
    {
        self.code = code.as_u16();
    }

    /// Replaces the message.
    pub fn set_msg(&mut self, msg: String)
        ensures
            final(self).code == old(self).code,
            final(self).msg == msg,
            final(self).data == old(self).data,
    {
        self.msg = msg;
    }

    /// Replaces the payload.
    pub fn set_data(&mut self, data: T)
        ensures
            final(self).code == old(self).code,
            final(self).msg == old(self).msg,
            final(self).data == data,
    {
        self.data = data;
    }

    /// The HTTP status the reply is sent with: its own number where that is a
    /// valid status code, 500 Internal Server Error otherwise.
    pub fn http_status(&self) -> (r: Status)
        ensures
            r@ == status_for(self.code),
    {
        match Status::from_u16(self.code) {
            Some(s) => s,
            None => Status::internal_server_error(),
        }
    }
}

} // verus!
