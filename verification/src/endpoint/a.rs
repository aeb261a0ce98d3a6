//! Authentication: handing out access keys and checking their signatures.

use vstd::prelude::*;
use crate::config::{User, lookup, find_index};
use crate::endpoint::{AccessKeyStore, AccessKeyView, Answer, BodyView, TIME_MAX_MS, ACCESS_KEY_LIFETIME_MS,
    empty_answer, error_answer, field_answer, key_user};
use crate::key_gen::{is_random_key, ed25519_signature_valid};
use vstd::string::StringSliceAdditionalSpecFns;

verus! {

/// Answers a request for an access key for the user named `username`:
/// 401 `invalid user` for an unknown user; otherwise 200 with the fresh key
/// under `accessKey`, which is recorded as unsigned and expiring one access
/// key lifetime after `now`.
pub fn post(access_keys: &mut AccessKeyStore, users: &Vec<(String, User)>, username: &str, now: i64) -> (r: Answer)
    requires
        now <= TIME_MAX_MS,
    ensures
        lookup(users@, username@) is None ==> r@ == (401u16, BodyView::Field("error"@, "invalid user"@))
            && final(access_keys).view() == old(access_keys).view(),
        r@.0 != 200 ==> final(access_keys).view() == old(access_keys).view(),
        lookup(users@, username@) is Some ==> r@.0 == 200,
        r@.0 == 200 ==> (r@.1 matches BodyView::Field(n, key) && n == "accessKey"@ && {
            &&& is_random_key(key, 16)
            &&& !exists|i: int| 0 <= i < old(access_keys).view().len() && (#[trigger] old(access_keys).view()[i]).0 == key
            &&& final(access_keys).view() == old(access_keys).view().push((key, (lookup(users@, username@).unwrap(), false,
                (now + ACCESS_KEY_LIFETIME_MS) as i64)))
        }),
{
    if find_index(users, username).is_none() {
        return error_answer(401, "invalid user");
    }
    match access_keys.issue_access_key(users, username, now) {
        Some(key) => field_answer(200, "accessKey", key),
        None => error_answer(500, "no free access key"),
    }
}

/// The public key stored for `name`.
fn find_public_key(public_keys: &Vec<(String, [u8; 32])>, name: &str) -> (r: Option<[u8; 32]>)
    ensures
        r == lookup(public_keys@, name@),
{
    match find_index(public_keys, name) {
        Some(i) => Some(public_keys[i].1),
        None => None,
    }
}

/// The status a signed access key is answered with: 401 without a key or
/// for an unknown key, 500 for a key header that is not visible ASCII
/// (`None` inside), 400 when the signature is not 64 bytes, 200 when it is a
/// valid Ed25519 signature of the key's bytes under the public key of the
/// key's user, 403 otherwise (also when that user has no public key).
pub open spec fn put_status(
    v: Seq<(Seq<char>, AccessKeyView)>,
    public_keys: Seq<(String, [u8; 32])>,
    key: Option<Option<&str>>,
    signature: Seq<u8>,
) -> u16 {
    match key {
        None => 401,
        Some(None) => 500,
        Some(Some(k)) => match key_user(v, k@) {
            None => 401,
            Some(u) => if signature.len() != 64 {
                400
            } else {
                match lookup(public_keys, u.name@) {
                    None => 403,
                    Some(pk) => if ed25519_signature_valid(pk@, k.spec_bytes(), signature) {
                        200
                    } else {
                        403
                    },
                }
            },
        },
    }
}

/// Answers a signed access key (the key in `key`, the signature in `body`)
/// with an empty body and the status `put_status` gives.
pub fn put(access_keys: &AccessKeyStore, public_keys: &Vec<(String, [u8; 32])>, key: Option<Option<&str>>, body: &[u8]) -> (r: Answer)
    ensures
        r@ == (put_status(access_keys.view(), public_keys@, key, body@), BodyView::Empty),
{
    let k = match key {
        None => {
            return empty_answer(401);
        },
        Some(None) => {
            return empty_answer(500);
        },
        Some(Some(k)) => k,
    };
    let user = match access_keys.access_key_user(k) {
        None => {
            return empty_answer(401);
        },
        Some(u) => u,
    };
    if body.len() != 64 {
        return empty_answer(400);
    }
    let pk = match find_public_key(public_keys, user.name.as_str()) {
        None => {
            return empty_answer(403);
        },
        Some(pk) => pk,
    };
    let status = access_keys.signature_status(k, body, &pk);
    empty_answer(status)
}

/// A signed access key of a known user, with a signature of 64 bytes, is
/// accepted exactly when the signature is a valid Ed25519 signature of the
/// key's bytes under the public key stored under that user's name; the
/// public keys of other users play no part.
pub proof fn lemma_put_checks_own_public_key(
    v: Seq<(Seq<char>, AccessKeyView)>,
    public_keys: Seq<(String, [u8; 32])>,
    k: &str,
    signature: Seq<u8>,
)
    requires
        key_user(v, k@) is Some,
        signature.len() == 64,
    ensures
        (put_status(v, public_keys, Some(Some(k)), signature) == 200) <==> (lookup(public_keys, key_user(v, k@).unwrap().name@)
            matches Some(pk) && ed25519_signature_valid(pk@, k.spec_bytes(), signature)),
        put_status(v, public_keys, Some(Some(k)), signature) == 200 || put_status(v, public_keys, Some(Some(k)), signature)
            == 403,
{
}

} // verus!
