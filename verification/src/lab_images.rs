//! Identity of the public laboratory packages embedded in the boot image:
//! the SHA-256 of a package's exact bytes, never of its page padding.
use vstd::prelude::*;
use crate::crypto::{self, sha256_digest};
use crate::vault::all_zero;

verus! {

/// A package's identity: its length within bounds and the bank, and a
/// digest of exactly its bytes that is not all zero.
pub open spec fn component_hash_spec(bank: Seq<u8>, length: usize) -> Result<Seq<u8>, ()> {
    if !(896 <= length <= 2_097_536) || length > bank.len() {
        Err(())
    } else if all_zero(sha256_digest(bank.take(length as int))) {
        Err(())
    } else {
        Ok(sha256_digest(bank.take(length as int)))
    }
}

pub fn component_hash(bank: &[u8], length: usize) -> (r: Result<[u8; 32], ()>)
    ensures
        match component_hash_spec(bank@, length) {
            Ok(h) => r matches Ok(x) && x@ == h,
            Err(()) => r is Err,
        },
{
    if !(896 <= length && length <= 2_097_536) || length > bank.len() {
        return Err(());
    }
    let hash = crypto::sha256(&bank[0..length]);
    proof {
        assert(bank@.subrange(0, length as int) =~= bank@.take(length as int));
    }
    let mut i: usize = 0;
    while i < 32
        invariant
            i <= 32,
            hash@.len() == 32,
            896 <= length <= 2_097_536,
            length <= bank@.len(),
            hash@ == sha256_digest(bank@.take(length as int)),
            forall|k: int| 0 <= k < i ==> hash@[k] == 0,
        decreases 32 - i,
    {
        if hash[i] != 0 {
            proof {
                assert(!all_zero(hash@));
            }
            return Ok(hash);
        }
        i = i + 1;
    }
    proof {
        assert(all_zero(hash@));
    }
    Err(())
}

/// The five embedded packages: update, bad health, bad signature, bad ABI
/// and factory. This build embeds none.
pub fn all() -> (r: [Option<(&'static [u8], usize)>; 5])
    ensures
        forall|i: int| 0 <= i < 5 ==> r@[i] is None,
{
    [None, None, None, None, None]
}

/// The factory package's identity; without an embedded factory there is
/// none, never a zero identity.
pub fn factory_hash() -> (r: Result<[u8; 32], ()>)
    ensures
        r is Err,
{
    let banks = all();
    match banks[4] {
        None => Err(()),
        Some((bank, length)) => component_hash(bank, length),
    }
}

} // verus!
