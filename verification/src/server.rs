//! The download endpoint's logic: build the archive response and map the
//! service's errors to an HTTP status and message.
//!
//! The HTTP layer itself (routing, sockets, the rejection mechanism) is an
//! external collaborator; this module decides what any such layer must send.
use vstd::prelude::*;
use vstd::string::StrSliceExecFns;
use vstd::string::StringExecFns;

use crate::tar::WalkEntry;
use crate::tar::archive_bytes;
use crate::tar::tar_files;

verus! {

/// The service's closed error type.
#[derive(Debug)]
pub enum ServiceError {
    /// The directory listing could not be read, or the archive could not be
    /// completed; carries the underlying I/O error's text.
    DirectoryIO(String),
    /// The HTTP response could not be constructed, e.g. from an invalid
    /// header value; carries the construction error's text.
    ResponseConstruction(String),
}

/// An HTTP response as plain values: status, headers in order, body bytes.
/// The surrounding HTTP layer sends it verbatim.
pub struct HttpResponse {
    pub status: u16,
    pub headers: Vec<(String, String)>,
    pub body: Vec<u8>,
}

/// A character an HTTP header value accepts: horizontal tab, or anything
/// that is neither a control character nor delete.
pub open spec fn valid_header_char(c: char) -> bool {
    c == '\t' || (c as int >= 32 && c as int != 127)
}

/// A text that can stand as an HTTP header value.
pub open spec fn valid_header_value(s: Seq<char>) -> bool {
    forall|i: int| 0 <= i < s.len() ==> valid_header_char(s[i])
}

/// True when every character of `s` may stand in a header value.
fn header_value_ok(s: &str) -> (r: bool)
    ensures
        r == valid_header_value(s@),
{
    let n = s.unicode_len();
    let mut i: usize = 0;
    while i < n
        invariant
            n == s@.len(),
            i <= n,
            forall|j: int| 0 <= j < i ==> valid_header_char(s@[j]),
        decreases n - i,
    {
        let c = s.get_char(i);
        let u = c as u32;
        if !(u == 9 || (u >= 32 && u != 127)) {
            return false;
        }
        i = i + 1;
    }
    true
}

/// Build the download response.
///
/// `listing` is the outcome of reading the root directory: the walked
/// entries, or the listing error's text. On success the response carries
/// the complete archive of the listing's regular files, a 200 status, the
/// tar content type, and — when a filename prefix is configured — a
/// content-disposition naming `<prefix>.tar`. A listing failure becomes
/// `DirectoryIO`; a prefix that cannot stand in a header value becomes
/// `ResponseConstruction`.
pub fn tar(listing: Result<Vec<WalkEntry>, String>, prefix: Option<String>) -> (r: Result<
    HttpResponse,
    ServiceError,
>)
    ensures
        (listing is Err ==> (r matches Result::Err(ServiceError::DirectoryIO(d)) && d@
            == listing->Err_0@)),
        (listing is Ok && prefix is None ==> (r matches Result::Ok(resp) && resp.status == 200
            && resp.body@ == archive_bytes(listing->Ok_0@) && resp.headers@.len() == 1
            && resp.headers@[0].0@ == "content-type"@ && resp.headers@[0].1@
            == "application/x-tar"@)),
        (listing is Ok && prefix is Some && valid_header_value(prefix->Some_0@) ==> (r matches
        Result::Ok(resp) && resp.status == 200 && resp.body@ == archive_bytes(listing->Ok_0@)
            && resp.headers@.len() == 2 && resp.headers@[0].0@ == "content-type"@
            && resp.headers@[0].1@ == "application/x-tar"@ && resp.headers@[1].0@
            == "content-disposition"@ && resp.headers@[1].1@ == "attachment; filename="@
            + prefix->Some_0@ + ".tar"@)),
        (listing is Ok && prefix is Some && !valid_header_value(prefix->Some_0@) ==> (r matches
        Result::Err(ServiceError::ResponseConstruction(d)) && d@ == "invalid header value"@)),
{
    match listing {
        Result::Err(e) => Result::Err(ServiceError::DirectoryIO(e)),
        Result::Ok(entries) => {
            let body = tar_files(&entries, Vec::new());
            proof {
                assert(body@ =~= archive_bytes(entries@));
            }
            let mut headers: Vec<(String, String)> = Vec::new();
            headers.push(
                (String::from_str("content-type"), String::from_str("application/x-tar")),
            );
            match prefix {
                Option::None => Result::Ok(HttpResponse { status: 200, headers, body }),
                Option::Some(p) => {
                    if header_value_ok(p.as_str()) {
                        let value = String::from_str("attachment; filename=").concat(
                            p.as_str(),
                        ).concat(".tar");
                        headers.push((String::from_str("content-disposition"), value));
                        Result::Ok(HttpResponse { status: 200, headers, body })
                    } else {
                        Result::Err(
                            ServiceError::ResponseConstruction(
                                String::from_str("invalid header value"),
                            ),
                        )
                    }
                },
            }
        },
    }
}

/// Map a rejection to the HTTP status and message the client receives.
///
/// The mapping is total over the two service errors; anything the
/// surrounding layer could not classify gets the fixed opaque message. The
/// status is 500 in every case.
pub fn handle_rejection(err: Option<&ServiceError>) -> (r: (u16, String))
    ensures
        r.0 == 500,
        (err matches Option::Some(ServiceError::DirectoryIO(d)) ==> r.1@ == "tar error: "@ + d@),
        (err matches Option::Some(ServiceError::ResponseConstruction(d)) ==> r.1@
            == "response error: "@ + d@),
        (err is None ==> r.1@ == "UNHANDLED_REJECTION"@),
{
    match err {
        Option::Some(ServiceError::DirectoryIO(d)) => (
            500,
            String::from_str("tar error: ").concat(d.as_str()),
        ),
        Option::Some(ServiceError::ResponseConstruction(d)) => (
            500,
            String::from_str("response error: ").concat(d.as_str()),
        ),
        Option::None => (500, String::from_str("UNHANDLED_REJECTION")),
    }
}

} // verus!
