//! Block identifiers and their syntactic check.

use crate::error::{AppError, ErrorKind};
use vstd::prelude::*;
use vstd::string::StrSliceExecFns;

verus! {

/// Number of characters in a block identifier.
pub const BLOCK_ID_LEN: usize = 64;

/// Number of leading characters of a block identifier that must be `0`.
pub const LEADING_ZEROS: usize = 8;

/// What the operator is told about a text that is no block identifier.
pub const INVALID_HASH: &'static str = "Invalid hash. Please provide a Bitcoin mainnet block hash.";

/// Whether `c` is one of `0`-`9` or `a`-`f`.
pub open spec fn is_lower_hex(c: char) -> bool {
    ('0' <= c && c <= '9') || ('a' <= c && c <= 'f')
}

/// The texts that name a block: 64 lowercase hexadecimal digits, the first
/// eight of them zero.
pub open spec fn is_block_identifier(s: Seq<char>) -> bool {
    &&& s.len() == BLOCK_ID_LEN
    &&& forall|i: int| 0 <= i < s.len() ==> is_lower_hex(#[trigger] s[i])
    &&& forall|i: int| 0 <= i < LEADING_ZEROS ==> #[trigger] s[i] == '0'
}

/// The name of a transaction, as the service lists it. It is only ever
/// handed back to the service and is not looked into.
pub type TransactionId = String;

/// A block identifier that has passed the syntactic check.
pub struct BlockIdentifier {
    text: String,
}

impl View for BlockIdentifier {
    type V = Seq<char>;

    closed spec fn view(&self) -> Seq<char> {
        self.text@
    }
}

/// Decides `is_lower_hex`.
pub fn lower_hex(c: char) -> (r: bool)
    ensures
        r == is_lower_hex(c),
{
    ('0' <= c && c <= '9') || ('a' <= c && c <= 'f')
}

impl BlockIdentifier {
    #[verifier::type_invariant]
    spec fn well_formed(self) -> bool {
        is_block_identifier(self.text@)
    }

    /// Checks `raw` and keeps it as a block identifier. Every text that
    /// `is_block_identifier` rejects fails with `InvalidInput`.
    pub fn parse(raw: &str) -> (r: Result<BlockIdentifier, AppError>)
        ensures
            is_block_identifier(raw@) ==> r is Ok && r->Ok_0@ == raw@,
            !is_block_identifier(raw@) ==> r is Err && r->Err_0@ == (
                ErrorKind::InvalidInput,
                INVALID_HASH@,
            ),
    {
        if raw.unicode_len() != BLOCK_ID_LEN {
            return Err(Self::rejection());
        }
        let mut i: usize = 0;
        while i < BLOCK_ID_LEN
            invariant
                raw@.len() == BLOCK_ID_LEN,
                i <= BLOCK_ID_LEN,
                forall|j: int| 0 <= j < i ==> is_lower_hex(#[trigger] raw@[j]),
                forall|j: int| 0 <= j < i && j < LEADING_ZEROS ==> #[trigger] raw@[j] == '0',
            decreases BLOCK_ID_LEN - i,
        {
            let c = raw.get_char(i);
            if !lower_hex(c) || (i < LEADING_ZEROS && c != '0') {
                return Err(Self::rejection());
            }
            i += 1;
        }
        Ok(BlockIdentifier { text: raw.to_owned() })
    }

    /// The identifier as text.
    pub fn as_str(&self) -> (s: &str)
        ensures
            s@ == self@,
            is_block_identifier(s@),
    {
        proof {
            use_type_invariant(self);
        }
        self.text.as_str()
    }

    fn rejection() -> (e: AppError)
        ensures
            e@ == (ErrorKind::InvalidInput, INVALID_HASH@),
    {
        AppError::new(ErrorKind::InvalidInput, INVALID_HASH)
    }
}

} // verus!
