//! Place-locked key release.
//!
//! A content key can be Shamir-split across cell **custodians**, each
//! holding a share sealed to their device key. Custodians release shares
//! only to a claimant who presents a valid presence certificate; this module
//! provides the sealing and reconstruction.
//!
//! Location is best-effort defense in depth. A colluding or Sybil custodian
//! set can defeat it; that limitation is documented, not hidden.
use vstd::prelude::*;
use crate::bytes::{to_array, to_vec};
use crate::error::{CoreError, CryptoError};
use crate::sealed::{open_outcome, seals, SealedKey, SealedKeyView};
use crate::shamir::{self, combinable, interpolate, share_views, shares_from, Share, ShareView};

verus! {

/// One custodian's sealed share.
#[derive(Clone, Debug, PartialEq, Eq)]
pub struct CustodianShare {
    /// Custodian's X25519 public key.
    pub custodian: [u8; 32],
    /// Shamir evaluation point (not secret).
    pub x: u8,
    /// The share value, sealed to the custodian.
    pub sealed_y: SealedKey,
}

/// The sealed shares come from one Shamir split of `content_key`: share `k`
/// is at the point `k + 1`, belongs to custodian `k`, and seals that
/// custodian's share value.
pub open spec fn custodian_shares(
    content_key: Seq<u8>,
    threshold: u8,
    custodians: Seq<Seq<u8>>,
    out: Seq<CustodianShare>,
) -> bool {
    exists|ys: Seq<ShareView>, polys: Seq<Seq<u8>>|
        #[trigger] shares_from(content_key, threshold, ys, polys) && ys.len() == out.len() && forall|k: int|
            0 <= k < out.len() ==> {
                &&& (#[trigger] out[k]).custodian@ == custodians[k]
                &&& out[k].x == k + 1
                &&& ys[k].x == out[k].x
                &&& seals(out[k].sealed_y@, ys[k].y, custodians[k])
            }
}

/// Split `content_key` `threshold`-of-`custodians` and seal each share to
/// its custodian.
pub fn seal(content_key: &[u8; 32], custodians: &[[u8; 32]], threshold: u8) -> (r: Result<Vec<CustodianShare>, CoreError>)
    ensures
        (custodians@.len() == 0 || custodians@.len() > 255) ==> (r matches Err(e) && e is Invalid),
        0 < custodians@.len() <= 255 ==> (r is Ok <==> 2 <= threshold <= custodians@.len()),
        0 < custodians@.len() <= 255 && !(2 <= threshold <= custodians@.len()) ==> (r matches Err(
            e,
        ) && e == CoreError::Crypto(CryptoError::InvalidKeyLength)),
        r matches Ok(out) ==> out@.len() == custodians@.len() && custodian_shares(
            content_key@,
            threshold,
            custodians@.map_values(|c: [u8; 32]| c@),
            out@,
        ),
{
    if custodians.len() == 0 {
        return Err(CoreError::Invalid("no custodians"));
    }
    if custodians.len() > 255 {
        return Err(CoreError::Invalid("too many custodians"));
    }
    let count = custodians.len() as u8;
    let shares = match shamir::split(content_key.as_slice(), threshold, count) {
        Ok(s) => s,
        Err(e) => {
            return Err(CoreError::Crypto(e));
        },
    };
    let ghost ys = share_views(shares@);
    let ghost polys = choose|polys: Seq<Seq<u8>>| #[trigger] shares_from(content_key@, threshold, ys, polys);
    let ghost cs = custodians@.map_values(|c: [u8; 32]| c@);
    let mut out: Vec<CustodianShare> = Vec::new();
    let mut k: usize = 0;
    while k < custodians.len()
        invariant
            shares@.len() == custodians@.len(),
            ys == share_views(shares@),
            cs == custodians@.map_values(|c: [u8; 32]| c@),
            shares_from(content_key@, threshold, ys, polys),
            forall|m: int| 0 <= m < shares@.len() ==> (#[trigger] shares@[m]).x == m + 1,
            k <= custodians@.len(),
            out@.len() == k,
            forall|m: int|
                0 <= m < k ==> {
                    &&& (#[trigger] out@[m]).custodian@ == cs[m]
                    &&& out@[m].x == m + 1
                    &&& ys[m].x == out@[m].x
                    &&& seals(out@[m].sealed_y@, ys[m].y, cs[m])
                },
        decreases custodians@.len() - k,
    {
        proof {
            assert(ys[k as int] == shares@[k as int]@);
            assert(ys[k as int].y.len() == 32);
        }
        let y: [u8; 32] = to_array(shares[k].y.as_slice());
        let sealed_y = match SealedKey::seal(&y, &custodians[k]) {
            Ok(s) => s,
            Err(e) => {
                return Err(CoreError::Crypto(e));
            },
        };
        out.push(CustodianShare { custodian: custodians[k], x: shares[k].x, sealed_y });
        k = k + 1;
    }
    Ok(out)
}

/// The shares recovered by opening each released share with its
/// custodian's secret, or the first opening error.
pub open spec fn opened_shares(available: Seq<(Seq<u8>, u8, SealedKeyView)>, n: nat) -> Result<Seq<ShareView>, CryptoError>
    decreases n,
{
    if n == 0 {
        Ok(Seq::empty())
    } else {
        match opened_shares(available, (n - 1) as nat) {
            Err(e) => Err(e),
            Ok(prev) => {
                let (secret, x, sealed) = available[n - 1];
                match open_outcome(sealed, secret) {
                    Err(e) => Err(e),
                    Ok(y) => Ok(prev.push(ShareView { x, y })),
                }
            },
        }
    }
}

/// The abstract content of the released shares.
pub open spec fn available_views(available: Seq<([u8; 32], u8, SealedKey)>) -> Seq<(Seq<u8>, u8, SealedKeyView)> {
    available.map_values(|a: ([u8; 32], u8, SealedKey)| (a.0@, a.1, a.2@))
}

/// Reconstruct the content key from at least `threshold` released shares.
///
/// Each entry is `(custodian_ecdh_secret, x, sealed_share)`.
pub fn open(available: &[([u8; 32], u8, SealedKey)], threshold: usize) -> (r: Result<[u8; 32], CoreError>)
    ensures
        (available@.len() < threshold || threshold < 2) ==> (r matches Err(e) && e is Invalid),
        !(available@.len() < threshold || threshold < 2) ==> match opened_shares(
            available_views(available@),
            available@.len(),
        ) {
            Err(e) => r matches Err(e2) && e2 == CoreError::Crypto(e),
            Ok(shares) => if combinable(shares) {
                r matches Ok(k) && k@ == interpolate(shares)
            } else {
                r matches Err(e2) && e2 == CoreError::Crypto(CryptoError::InvalidKeyLength)
            },
        },
{
    if available.len() < threshold || threshold < 2 {
        return Err(CoreError::Invalid("insufficient shares"));
    }
    let ghost av = available_views(available@);
    let mut shares: Vec<Share> = Vec::new();
    let mut i: usize = 0;
    assert(share_views(shares@) =~= Seq::<ShareView>::empty());
    while i < available.len()
        invariant
            av == available_views(available@),
            available@.len() >= threshold,
            threshold >= 2,
            i <= available@.len(),
            shares@.len() == i,
            opened_shares(av, i as nat) == Ok::<Seq<ShareView>, CryptoError>(share_views(shares@)),
            forall|m: int| 0 <= m < i ==> (#[trigger] shares@[m]).y@.len() == 32,
        decreases available@.len() - i,
    {
        let opened = available[i].2.open(&available[i].0);
        proof {
            assert(av[i as int] == (available@[i as int].0@, available@[i as int].1, available@[i as int].2@));
        }
        match opened {
            Ok(y) => {
                let ghost before = share_views(shares@);
                shares.push(Share { x: available[i].1, y: to_vec(y.as_slice()) });
                proof {
                    assert(share_views(shares@) =~= before.push(ShareView { x: available@[i as int].1, y: y@ }));
                }
            },
            Err(e) => {
                proof {
                    lemma_opened_stays_err(av, (i + 1) as nat, available@.len());
                }
                return Err(CoreError::Crypto(e));
            },
        }
        i = i + 1;
    }
    let key = match shamir::combine(shares.as_slice()) {
        Ok(k) => k,
        Err(e) => {
            return Err(CoreError::Crypto(e));
        },
    };
    if key.len() != 32 {
        return Err(CoreError::Invalid("reconstructed key length"));
    }
    Ok(to_array(key.as_slice()))
}

/// Once an opening fails, every longer prefix fails with the same error.
proof fn lemma_opened_stays_err(available: Seq<(Seq<u8>, u8, SealedKeyView)>, n: nat, m: nat)
    requires
        n <= m,
        opened_shares(available, n) is Err,
    ensures
        opened_shares(available, m) == opened_shares(available, n),
    decreases m - n,
{
    if n < m {
        lemma_opened_stays_err(available, n + 1, m);
    }
}

} // verus!
