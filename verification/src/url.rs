//! Transport-URL authentication: injecting a token into an `https://`
//! location for the duration of one fetch or push, without ever writing it
//! into the repository's stored configuration.

use vstd::prelude::*;

use crate::bytes::bytes_eq;
use crate::store::clone_bytes;

verus! {

/// The bytes of `https://`.
pub open spec fn https_prefix() -> Seq<u8> {
    seq![104u8, 116u8, 116u8, 112u8, 115u8, 58u8, 47u8, 47u8]
}

pub open spec fn is_https(u: Seq<u8>) -> bool {
    u.len() >= 8 && u.take(8) == https_prefix()
}

/// The position of the first `@` at or after `i`, if any.
pub open spec fn first_at(u: Seq<u8>, i: int) -> Option<int>
    decreases u.len() - i,
{
    if i < 0 || i >= u.len() {
        None
    } else if u[i] == 64 {
        Some(i)
    } else {
        first_at(u, i + 1)
    }
}

pub proof fn lemma_first_at_found(u: Seq<u8>, i: int, j: int)
    requires
        0 <= i <= j < u.len(),
        u[j] == 64,
        forall|k: int| i <= k < j ==> u[k] != 64,
    ensures
        first_at(u, i) == Some(j),
    decreases j - i,
{
    if i < j {
        lemma_first_at_found(u, i + 1, j);
    }
}

pub proof fn lemma_first_at_none(u: Seq<u8>, i: int)
    requires
        0 <= i,
        forall|k: int| i <= k < u.len() ==> u[k] != 64,
    ensures
        first_at(u, i) is None,
    decreases u.len() - i,
{
    if i < u.len() {
        lemma_first_at_none(u, i + 1);
    }
}

/// The credential embedded in an `https://` URL: the userinfo before the
/// first `@`, when present.
pub open spec fn credential_of(u: Seq<u8>) -> Option<Seq<u8>> {
    if is_https(u) {
        match first_at(u, 8) {
            Some(a) => Some(u.subrange(8, a)),
            None => None,
        }
    } else {
        None
    }
}

/// The location an `https://` URL names, independent of any embedded
/// credential: everything after the userinfo.
pub open spec fn host_part(u: Seq<u8>) -> Seq<u8> {
    if is_https(u) {
        match first_at(u, 8) {
            Some(a) => u.skip(a + 1),
            None => u.skip(8),
        }
    } else {
        u
    }
}

/// What authentication produces: for an `https://` URL and a token, the
/// URL with exactly that token as its userinfo; anything else unchanged.
pub open spec fn authenticated_url(u: Seq<u8>, token: Option<Seq<u8>>) -> Seq<u8> {
    match token {
        Some(t) => if is_https(u) {
            https_prefix() + t + seq![64u8] + host_part(u)
        } else {
            u
        },
        None => u,
    }
}

/// True iff the URL starts with `https://`.
pub fn url_is_https(url: &Vec<u8>) -> (r: bool)
    ensures
        r == is_https(url@),
{
    if url.len() < 8 {
        return false;
    }
    let p0 = url[0] == 104 && url[1] == 116 && url[2] == 116 && url[3] == 112;
    let p1 = url[4] == 115 && url[5] == 58 && url[6] == 47 && url[7] == 47;
    let is_h = p0 && p1;
    proof {
        if is_h {
            assert(url@.take(8) =~= https_prefix());
        } else {
            if url@.take(8) == https_prefix() {
                assert(url@[0] == 104 && url@[1] == 116 && url@[2] == 116 && url@[3] == 112
                    && url@[4] == 115 && url@[5] == 58 && url@[6] == 47 && url@[7] == 47) by {
                    assert(url@.take(8)[0] == url@[0]);
                    assert(url@.take(8)[1] == url@[1]);
                    assert(url@.take(8)[2] == url@[2]);
                    assert(url@.take(8)[3] == url@[3]);
                    assert(url@.take(8)[4] == url@[4]);
                    assert(url@.take(8)[5] == url@[5]);
                    assert(url@.take(8)[6] == url@[6]);
                    assert(url@.take(8)[7] == url@[7]);
                }
            }
        }
    }
    is_h
}

/// The position of the first `@` after the scheme, if any.
pub fn url_first_at(url: &Vec<u8>) -> (r: Option<usize>)
    requires
        url@.len() >= 8,
    ensures
        match r {
            Some(a) => first_at(url@, 8) == Some(a as int) && 8 <= a < url@.len(),
            None => first_at(url@, 8) is None,
        },
{
    let mut at: Option<usize> = None;
    let mut i: usize = 8;
    while i < url.len()
        invariant
            8 <= i <= url@.len(),
            match at {
                Some(a) => 8 <= a < i && url@[a as int] == 64 && (forall|k: int|
                    8 <= k < a ==> url@[k] != 64),
                None => forall|k: int| 8 <= k < i ==> url@[k] != 64,
            },
        decreases url@.len() - i,
    {
        if at.is_none() && url[i] == 64 {
            at = Some(i);
        }
        i = i + 1;
    }
    proof {
        match at {
            Some(a) => {
                lemma_first_at_found(url@, 8, a as int);
            },
            None => {
                lemma_first_at_none(url@, 8);
            },
        }
    }
    at
}

/// The credential embedded in the URL, as an owned value.
pub fn url_credential(url: &Vec<u8>) -> (r: Option<Vec<u8>>)
    ensures
        match r {
            Some(c) => credential_of(url@) == Some(c@),
            None => credential_of(url@) is None,
        },
{
    if !url_is_https(url) {
        return None;
    }
    match url_first_at(url) {
        None => None,
        Some(a) => {
            let mut c: Vec<u8> = Vec::new();
            let mut i: usize = 8;
            while i < a
                invariant
                    8 <= i <= a,
                    a < url@.len(),
                    c@ == url@.subrange(8, i as int),
                decreases a - i,
            {
                c.push(url[i]);
                proof {
                    assert(url@.subrange(8, i + 1) =~= url@.subrange(8, i as int).push(
                        url@[i as int],
                    ));
                }
                i = i + 1;
            }
            Some(c)
        },
    }
}

/// Build the transport URL for one operation: inject the token as the
/// userinfo of an `https://` URL, replacing any userinfo already there.
/// The result carries the token as its credential and names the same host;
/// the stored URL is not touched.
pub fn authenticate_url(url: &Vec<u8>, token: Option<&Vec<u8>>) -> (r: Vec<u8>)
    requires
        match token {
            Some(t) => forall|k: int| 0 <= k < t@.len() ==> t@[k] != 64,
            None => true,
        },
    ensures
        r@ == authenticated_url(
            url@,
            match token {
                Some(t) => Some(t@),
                None => None,
            },
        ),
        (token is Some && is_https(url@)) ==> credential_of(r@) == Some(token->0@) && host_part(
            r@,
        ) == host_part(url@),
{
    let t = match token {
        Some(t) => t,
        None => {
            return clone_bytes(url);
        },
    };
    if !url_is_https(url) {
        return clone_bytes(url);
    }
    let at = url_first_at(url);
    let n = url.len();
    let tail_from = match at {
        Some(a) => {
            proof {
                assert(a < n);
            }
            a + 1
        },
        None => 8,
    };
    let mut r: Vec<u8> = Vec::new();
    r.push(104u8);
    r.push(116u8);
    r.push(116u8);
    r.push(112u8);
    r.push(115u8);
    r.push(58u8);
    r.push(47u8);
    r.push(47u8);
    proof {
        assert(r@ =~= https_prefix());
    }
    let ghost after_prefix = r@;
    let mut k: usize = 0;
    while k < t.len()
        invariant
            k <= t@.len(),
            r@ == https_prefix() + t@.take(k as int),
        decreases t@.len() - k,
    {
        r.push(t[k]);
        proof {
            assert(https_prefix() + t@.take(k + 1) =~= (https_prefix() + t@.take(
                k as int,
            )).push(t@[k as int]));
        }
        k = k + 1;
    }
    proof {
        assert(t@.take(t@.len() as int) =~= t@);
    }
    r.push(64u8);
    let ghost with_at = r@;
    proof {
        assert(with_at =~= https_prefix() + t@ + seq![64u8]);
    }
    let mut j: usize = tail_from;
    while j < url.len()
        invariant
            tail_from <= j <= url@.len(),
            8 <= tail_from <= url@.len(),
            with_at == https_prefix() + t@ + seq![64u8],
            r@ == with_at + url@.subrange(tail_from as int, j as int),
        decreases url@.len() - j,
    {
        r.push(url[j]);
        proof {
            assert(url@.subrange(tail_from as int, j + 1) =~= url@.subrange(
                tail_from as int,
                j as int,
            ).push(url@[j as int]));
            assert(r@ =~= with_at + url@.subrange(tail_from as int, j + 1));
        }
        j = j + 1;
    }
    proof {
        assert(url@.subrange(tail_from as int, url@.len() as int) =~= url@.skip(
            tail_from as int,
        ));
        assert(r@ =~= https_prefix() + t@ + seq![64u8] + host_part(url@));
        // the credential of the result is exactly the token
        let rv = r@;
        let a = 8 + t@.len() as int;
        assert(rv[a] == 64);
        assert forall|m: int| 8 <= m < a implies rv[m] != 64 by {
            assert(rv[m] == t@[m - 8]);
        }
        lemma_first_at_found(rv, 8, a);
        assert(rv.take(8) =~= https_prefix());
        assert(rv.subrange(8, a) =~= t@);
        assert(rv.skip(a + 1) =~= host_part(url@));
    }
    r
}

} // verus!
