//! Validation of the derivative token's description, and storage keys.

use vstd::prelude::*;
use vstd::string::StringSliceAdditionalSpecFns;
use vstd::utf8::encode_utf8;
use crate::error::HubError;

verus! {

/// Most decimals the chain supports.
pub const MAX_DECIMALS: u8 = 6;

/// A name of 3 to 30 bytes.
pub open spec fn valid_name(bytes: Seq<u8>) -> bool {
    3 <= bytes.len() <= 30
}

/// A ticker of 3 to 6 bytes, each an upper-case ASCII letter.
pub open spec fn valid_symbol(bytes: Seq<u8>) -> bool {
    &&& 3 <= bytes.len() <= 6
    &&& forall|i: int| 0 <= i < bytes.len() ==> 65 <= #[trigger] bytes[i] <= 90
}

/// Whether `name` is 3 to 30 bytes long in UTF-8.
pub fn is_valid_name(name: &str) -> (r: bool)
    ensures
        r == valid_name(name.spec_bytes()),
{
    let bytes = name.as_bytes();
    if bytes.len() < 3 || bytes.len() > 30 {
        return false;
    }
    true
}

/// Whether `symbol` is 3 to 6 upper-case ASCII letters.
pub fn is_valid_symbol(symbol: &str) -> (r: bool)
    ensures
        r == valid_symbol(symbol.spec_bytes()),
{
    let bytes = symbol.as_bytes();
    if bytes.len() < 3 || bytes.len() > 6 {
        return false;
    }
    let mut i: usize = 0;
    while i < bytes.len()
        invariant
            i <= bytes.len(),
            bytes@ == symbol.spec_bytes(),
            forall|j: int| 0 <= j < i ==> 65 <= #[trigger] bytes@[j] <= 90,
        decreases bytes.len() - i,
    {
        if bytes[i] < 65 || bytes[i] > 90 {
            return false;
        }
        i += 1;
    }
    true
}

/// The description of the derivative token and the code it is created from.
#[derive(Clone, Debug)]
pub struct InitMsg {
    pub name: String,
    pub symbol: String,
    pub decimals: u8,
    pub code_id: u64,
}

impl InitMsg {
    /// Checks the name, then the symbol, then the decimals.
    pub fn validate(&self) -> (r: Result<(), HubError>)
        ensures
            !valid_name(encode_utf8(self.name@)) ==> r == Err::<(), HubError>(
                HubError::InvalidName,
            ),
            valid_name(encode_utf8(self.name@)) && !valid_symbol(
                encode_utf8(self.symbol@),
            ) ==> r == Err::<(), HubError>(HubError::InvalidSymbol),
            valid_name(encode_utf8(self.name@)) && valid_symbol(
                encode_utf8(self.symbol@),
            ) && self.decimals > MAX_DECIMALS ==> r == Err::<(), HubError>(
                HubError::InvalidDecimals,
            ),
            valid_name(encode_utf8(self.name@)) && valid_symbol(
                encode_utf8(self.symbol@),
            ) && self.decimals <= MAX_DECIMALS ==> r is Ok,
    {
        if !is_valid_name(self.name.as_str()) {
            return Err(HubError::InvalidName);
        }
        if !is_valid_symbol(self.symbol.as_str()) {
            return Err(HubError::InvalidSymbol);
        }
        if self.decimals > MAX_DECIMALS {
            return Err(HubError::InvalidDecimals);
        }
        Ok(())
    }
}

/// A storage key: `namespace` followed by `key`.
pub fn concat(namespace: &[u8], key: &[u8]) -> (r: Vec<u8>)
    ensures
        r@ == namespace@ + key@,
{
    let mut k: Vec<u8> = Vec::new();
    let mut i: usize = 0;
    while i < namespace.len()
        invariant
            i <= namespace@.len(),
            k@ == namespace@.subrange(0, i as int),
        decreases namespace@.len() - i,
    {
        k.push(namespace[i]);
        i += 1;
        assert(k@ == namespace@.subrange(0, i as int));
    }
    let mut j: usize = 0;
    while j < key.len()
        invariant
            j <= key@.len(),
            k@ == namespace@ + key@.subrange(0, j as int),
        decreases key@.len() - j,
    {
        k.push(key[j]);
        j += 1;
        assert(k@ == namespace@ + key@.subrange(0, j as int));
    }
    assert(key@.subrange(0, key@.len() as int) == key@);
    assert(namespace@.subrange(0, namespace@.len() as int) == namespace@);
    k
}

} // verus!
