use vstd::prelude::*;
use cookie::time::OffsetDateTime;

verus! {

/// One cookie as stored in the cookie file.
#[derive(Debug)]
pub struct CookieRecord {
    pub name: String,
    pub value: String,
    pub domain: String,
    pub path: Option<String>,
    pub secure: Option<bool>,
    pub http_only: Option<bool>,
    /// Seconds since the Unix epoch.
    pub expiry: Option<i64>,
    pub session: Option<bool>,
}

/// How long a cookie lives.
#[derive(Clone, Copy, Debug, PartialEq, Eq, Structural)]
pub enum CookieLifetime {
    Session,
    /// Ends at this Unix timestamp, which `OffsetDateTime` can represent.
    ExpiresAt(i64),
}

#[derive(Clone, Copy, Debug, PartialEq, Eq, Structural)]
pub enum CookieError {
    /// Neither a session flag nor an expiry.
    NoLifetime,
    /// An expiry outside the years -9999 to 9999.
    ExpiryOutOfRange,
}

/// The Unix timestamps from -9999-01-01T00:00:00Z to 9999-12-31T23:59:59Z.
pub open spec fn expiry_in_range(ts: i64) -> bool {
    -377705116800 <= ts && ts <= 253402300799
}

/// Why a record has no usable lifetime, if it has none.
pub open spec fn lifetime_error(session: Option<bool>, expiry: Option<i64>) -> Option<CookieError> {
    if session is Some {
        None
    } else {
        match expiry {
            None => Some(CookieError::NoLifetime),
            Some(ts) => if expiry_in_range(ts) { None } else { Some(CookieError::ExpiryOutOfRange) },
        }
    }
}

/// `lt` is the lifetime that a record with these fields resolves to.
pub open spec fn lifetime_fits(session: Option<bool>, expiry: Option<i64>, lt: CookieLifetime) -> bool {
    if session is Some {
        lt == CookieLifetime::Session
    } else {
        match expiry {
            Some(ts) => lt == CookieLifetime::ExpiresAt(ts),
            None => false,
        }
    }
}

/// Relies on time's `OffsetDateTime::from_unix_timestamp`, which fails
/// exactly for the timestamps outside `Date::MIN` to `Date::MAX`: the years
/// -9999 to 9999, as long as no crate in the build enables time's
/// `large-dates` feature (which widens the range and makes this false).
#[verifier::external_body]
fn representable_instant(ts: i64) -> (r: bool)
    ensures
        r <==> expiry_in_range(ts),
{
    OffsetDateTime::from_unix_timestamp(ts).is_ok()
}

/// The lifetime of a cookie: a session flag makes it a session cookie,
/// otherwise its expiry is the instant it ends.
pub fn resolve_lifetime(rec: &CookieRecord) -> (r: Result<CookieLifetime, CookieError>)
    ensures
        r is Ok <==> lifetime_error(rec.session, rec.expiry) is None,
        r matches Ok(lt) ==> lifetime_fits(rec.session, rec.expiry, lt),
        r matches Err(e) ==> lifetime_error(rec.session, rec.expiry) == Some(e),
{
    if rec.session.is_some() {
        return Ok(CookieLifetime::Session);
    }
    match rec.expiry {
        None => Err(CookieError::NoLifetime),
        Some(ts) => if representable_instant(ts) {
            Ok(CookieLifetime::ExpiresAt(ts))
        } else {
            Err(CookieError::ExpiryOutOfRange)
        },
    }
}

/// Resolves every cookie of a login, in order, before any is sent: fails with
/// the index and the error of the first one that has no usable lifetime.
pub fn resolve_all(records: &Vec<CookieRecord>) -> (r: Result<Vec<CookieLifetime>, (usize, CookieError)>)
    ensures
        r is Ok <==> forall|i: int| 0 <= i < records@.len() ==> lifetime_error(
            #[trigger] records@[i].session,
            records@[i].expiry,
        ) is None,
        r matches Ok(v) ==> v@.len() == records@.len() && forall|i: int| 0 <= i < v@.len()
            ==> lifetime_fits(#[trigger] records@[i].session, records@[i].expiry, v@[i]),
        r matches Err((k, e)) ==> k < records@.len()
            && lifetime_error(records@[k as int].session, records@[k as int].expiry) == Some(e)
            && forall|i: int| 0 <= i < k ==> lifetime_error(
                #[trigger] records@[i].session,
                records@[i].expiry,
            ) is None,
{
    let mut out: Vec<CookieLifetime> = Vec::new();
    let mut i: usize = 0;
    while i < records.len()
        invariant
            i <= records@.len(),
            out@.len() == i,
            forall|j: int| 0 <= j < i ==> lifetime_error(#[trigger] records@[j].session, records@[j].expiry) is None,
            forall|j: int| 0 <= j < i ==> lifetime_fits(#[trigger] records@[j].session, records@[j].expiry, out@[j]),
        decreases records@.len() - i,
    {
        match resolve_lifetime(&records[i]) {
            Ok(lt) => out.push(lt),
            Err(e) => {
                return Err((i, e));
            },
        }
        i = i + 1;
    }
    Ok(out)
}

} // verus!
