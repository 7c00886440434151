//! Request addresses, composed from the service's base address.

use crate::block::{BlockIdentifier, TransactionId};
use crate::error::{AppError, ErrorKind};
use vstd::prelude::*;
use vstd::std_specs::convert::FromSpecImpl;
use vstd::string::StringExecFns;

verus! {

/// Base address of the public block explorer that is queried by default.
pub const DEFAULT_ENDPOINT: &'static str = "https://blockstream.info/api/";

/// The error type of the `url` crate.
#[verifier::external_type_specification]
#[verifier::external_body]
pub struct ExParseError(url::ParseError);

/// The address that `reference` resolves to against the address `base`, as
/// the `url` crate computes it, or `None` where it reports an error.
pub uninterp spec fn url_join(base: Seq<char>, reference: Seq<char>) -> Option<Seq<char>>;

/// Calls `url::Url::join` on `base`, parsed by `url::Url::parse`, and hands
/// the resolved address back as text. Nothing is claimed of the address but
/// that it is the one `url_join` names, and an error exactly where `url_join`
/// is `None`.
#[verifier::external_body]
fn join_url(base: &str, reference: &str) -> (r: Result<String, url::ParseError>)
    ensures
        r is Ok ==> url_join(base@, reference@) == Some(r->Ok_0@),
        r is Err ==> url_join(base@, reference@) is None,
{
    let joined = url::Url::parse(base)?.join(reference)?;
    Ok(String::from(joined))
}

impl From<url::ParseError> for AppError {
    /// Every error of address composition is an `EndpointError`, described
    /// by the text that the error prints.
    fn from(err: url::ParseError) -> (r: AppError)
        ensures
            r.kind == ErrorKind::EndpointError,
            vstd::string::to_string_from_display_ensures::<url::ParseError>(&err, r.detail),
    {
        AppError { kind: ErrorKind::EndpointError, detail: err.to_string() }
    }
}

/// The conversion is stated by the `ensures` of `from`: the printed text of
/// an outside error is no function that a specification could name.
impl FromSpecImpl<url::ParseError> for AppError {
    open spec fn obeys_from_spec() -> bool {
        false
    }

    open spec fn from_spec(v: url::ParseError) -> AppError {
        AppError { kind: ErrorKind::EndpointError, detail: arbitrary() }
    }
}

/// `url_join` on an address that may already have failed.
pub open spec fn join_next(base: Option<Seq<char>>, reference: Seq<char>) -> Option<Seq<char>> {
    match base {
        Some(b) => url_join(b, reference),
        None => None,
    }
}

/// Resolves `reference` against `base`.
pub fn resolve(base: &str, reference: &str) -> (r: Result<String, AppError>)
    ensures
        url_join(base@, reference@) is Some ==> r is Ok && Some(r->Ok_0@) == url_join(
            base@,
            reference@,
        ),
        url_join(base@, reference@) is None ==> r is Err && r->Err_0.kind
            == ErrorKind::EndpointError,
{
    match join_url(base, reference) {
        Ok(address) => Ok(address),
        Err(err) => Err(AppError::from(err)),
    }
}

/// Where the transaction identifiers of `block` are listed: `base`, then
/// `block/`, then the identifier as a directory, then `txids`.
pub open spec fn txids_address(base: Seq<char>, block: Seq<char>) -> Option<Seq<char>> {
    join_next(join_next(url_join(base, "block/"@), block + "/"@), "txids"@)
}

/// Where the transaction `txid` is described: `base`, then `tx/`, then the
/// identifier.
pub open spec fn transaction_address(base: Seq<char>, txid: Seq<char>) -> Option<Seq<char>> {
    join_next(url_join(base, "tx/"@), txid)
}

/// The addresses of all of `txids`, in their order, if each can be composed.
pub open spec fn transaction_addresses(base: Seq<char>, txids: Seq<Seq<char>>) -> Option<
    Seq<Seq<char>>,
> {
    if forall|i: int| 0 <= i < txids.len() ==> transaction_address(base, #[trigger] txids[i]) is Some {
        Some(Seq::new(txids.len(), |i: int| transaction_address(base, txids[i])->Some_0))
    } else {
        None
    }
}

/// Composes the address that lists the transaction identifiers of `block`.
pub fn txids_url(base: &str, block: &BlockIdentifier) -> (r: Result<String, AppError>)
    ensures
        txids_address(base@, block@) is Some ==> r is Ok && Some(r->Ok_0@) == txids_address(
            base@,
            block@,
        ),
        txids_address(base@, block@) is None ==> r is Err && r->Err_0.kind
            == ErrorKind::EndpointError,
{
    let blocks = resolve(base, "block/")?;
    let directory = String::from_str(block.as_str()).concat("/");
    let listing = resolve(blocks.as_str(), directory.as_str())?;
    resolve(listing.as_str(), "txids")
}

/// Composes the address that describes the transaction `txid`.
pub fn transaction_url(base: &str, txid: &str) -> (r: Result<String, AppError>)
    ensures
        transaction_address(base@, txid@) is Some ==> r is Ok && Some(r->Ok_0@)
            == transaction_address(base@, txid@),
        transaction_address(base@, txid@) is None ==> r is Err && r->Err_0.kind
            == ErrorKind::EndpointError,
{
    let transactions = resolve(base, "tx/")?;
    resolve(transactions.as_str(), txid)
}

/// Composes one address per transaction identifier, in the order given, or
/// fails if any of them cannot be composed.
pub fn transaction_urls(base: &str, txids: &Vec<TransactionId>) -> (r: Result<
    Vec<String>,
    AppError,
>)
    ensures
        transaction_addresses(base@, txids.deep_view()) is Some ==> r is Ok && Some(
            r->Ok_0.deep_view(),
        ) == transaction_addresses(base@, txids.deep_view()),
        transaction_addresses(base@, txids.deep_view()) is None ==> r is Err && r->Err_0.kind
            == ErrorKind::EndpointError,
{
    let mut urls: Vec<String> = Vec::new();
    let mut i: usize = 0;
    while i < txids.len()
        invariant
            i <= txids.len(),
            urls.len() == i,
            forall|j: int|
                0 <= j < i ==> transaction_address(base@, #[trigger] txids.deep_view()[j]) == Some(
                    urls[j]@,
                ),
        decreases txids.len() - i,
    {
        assert(txids.deep_view()[i as int] == txids[i as int]@);
        match transaction_url(base, txids[i].as_str()) {
            Ok(url) => {
                urls.push(url);
            },
            Err(err) => {
                return Err(err);
            },
        }
        i += 1;
    }
    proof {
        let expected = transaction_addresses(base@, txids.deep_view());
        assert(expected is Some);
        assert(urls.deep_view() =~= expected->Some_0) by {
            assert forall|j: int| 0 <= j < urls.len() implies urls.deep_view()[j]
                == expected->Some_0[j] by {
                assert(urls.deep_view()[j] == urls[j]@);
                assert(transaction_address(base@, txids.deep_view()[j]) == Some(urls[j]@));
            }
        }
    }
    Ok(urls)
}

} // verus!
