//! The login record: a device identifier and its secret.
use vstd::prelude::*;
use crate::frame::{result_view, FrameError};
use crate::scan::pieces;
use crate::text::{gather, strs_bytes, text_in, text_of};

verus! {

/// The record of a frame of type `L`.
#[derive(Debug)]
pub struct LoginPacket {
    pub imei: String,
    pub password: String,
}

pub struct LoginView {
    pub imei: Seq<char>,
    pub password: Seq<char>,
}

impl View for LoginPacket {
    type V = LoginView;

    open spec fn view(&self) -> LoginView {
        LoginView { imei: self.imei@, password: self.password@ }
    }
}

/// The login record that the fields `f` of a body write: exactly two fields,
/// identifier and secret, each valid UTF-8.
pub open spec fn login_value(f: Seq<Seq<u8>>) -> Result<LoginView, FrameError> {
    if f.len() != 2 {
        Err(FrameError::Malformed)
    } else {
        match (text_of(f[0]), text_of(f[1])) {
            (Some(imei), Some(password)) => Ok(LoginView { imei, password }),
            _ => Err(FrameError::FieldError),
        }
    }
}

/// True when each range of `r` lies within `buf`.
pub open spec fn ranges_within(buf: Seq<u8>, r: Seq<(usize, usize)>) -> bool {
    forall|i: int| 0 <= i < r.len() ==> (#[trigger] r[i]).0 <= r[i].1 <= buf.len()
}

/// The login record of the fields at `f` in `buf`.
pub(crate) fn login_from_fields(buf: &[u8], f: &Vec<(usize, usize)>) -> (r: Result<LoginPacket, FrameError>)
    requires
        ranges_within(buf@, f@),
    ensures
        result_view(r) == login_value(pieces(buf@, f@)),
{
    if f.len() != 2 {
        return Err(FrameError::Malformed);
    }
    let imei = text_in(buf, f[0].0, f[0].1);
    let password = text_in(buf, f[1].0, f[1].1);
    match (imei, password) {
        (Some(imei), Some(password)) => Ok(LoginPacket { imei, password }),
        _ => Err(FrameError::FieldError),
    }
}

impl PartialEq for LoginPacket {
    fn eq(&self, other: &LoginPacket) -> (r: bool) {
        self.imei == other.imei && self.password == other.password
    }
}

impl vstd::std_specs::cmp::PartialEqSpecImpl for LoginPacket {
    open spec fn obeys_eq_spec() -> bool {
        true
    }

    open spec fn eq_spec(&self, other: &LoginPacket) -> bool {
        self@ == other@
    }
}

impl LoginPacket {
    /// The login record of the body fields `body`.
    pub fn from(body: Vec<&str>) -> (r: Result<LoginPacket, FrameError>)
        ensures
            result_view(r) == login_value(strs_bytes(body@)),
    {
        let (buf, f) = gather(&body);
        login_from_fields(buf.as_slice(), &f)
    }
}

} // verus!
