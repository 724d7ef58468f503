use vstd::prelude::*;
use vstd::string::StringExecFns;

use crate::controller::ApiError;

verus! {

/// The request guard: it lets a request through when it carries a bearer token that the
/// token service `J` accepts.
#[derive(Debug)]
pub struct JWTAuth<J> {
    jwt: J,
}

impl<J> JWTAuth<J> {
    pub closed spec fn service(&self) -> J {
        self.jwt
    }

    /// A guard checking tokens with the given service.
    pub fn new(jwt: J) -> (r: Self)
        ensures
            r.service() == jwt,
    {
        JWTAuth { jwt }
    }

    /// The token service.
    pub fn jwt(&self) -> (r: &J)
        ensures
            *r == self.service(),
    {
        &self.jwt
    }
}

/// A byte a header value may hold as text: a tab or a visible ASCII character.
pub open spec fn is_visible_ascii(b: u8) -> bool {
    (32 <= b && b < 127) || b == 9
}

/// `Bearer ` in ASCII.
pub open spec fn bearer_prefix() -> Seq<u8> {
    seq![66u8, 101u8, 97u8, 114u8, 101u8, 114u8, 32u8]
}

/// Why an `Authorization` header was refused.
pub open spec fn missing_message() -> Seq<char> {
    "Authorization must be existed!"@
}

pub open spec fn not_text_message() -> Seq<char> {
    "Authorization is not a valid string!"@
}

pub open spec fn not_bearer_message() -> Seq<char> {
    "Authorization must start with \"Bearer\"!"@
}

fn bearer_byte(k: usize) -> (r: u8)
    requires
        k < 7,
    ensures
        r == bearer_prefix()[k as int],
{
    if k == 0 {
        66
    } else if k == 1 {
        101
    } else if k == 2 {
        97
    } else if k == 3 {
        114
    } else if k == 4 {
        101
    } else if k == 5 {
        114
    } else {
        32
    }
}

/// What the `Authorization` header yields: the token after `Bearer `, or the refusal.
pub open spec fn bearer_token_spec(header: Option<Seq<u8>>) -> Result<Seq<u8>, Seq<char>> {
    match header {
        None => Err(missing_message()),
        Some(h) => if !(forall|i: int| 0 <= i < h.len() ==> is_visible_ascii(#[trigger] h[i])) {
            Err(not_text_message())
        } else if h.len() < 7 || h.subrange(0, 7) != bearer_prefix() {
            Err(not_bearer_message())
        } else {
            Ok(h.subrange(7, h.len() as int))
        },
    }
}

/// The bearer token of a request's `Authorization` header (its bytes), or the
/// `Unauthenticated` error the request is refused with: no header, a header that is not
/// text, or one that does not start with `Bearer `.
pub fn bearer_token(header: Option<&[u8]>) -> (r: Result<Vec<u8>, ApiError>)
    ensures
        match bearer_token_spec(
            match header {
                Some(h) => Some(h@),
                None => None,
            },
        ) {
            Ok(t) => r matches Ok(v) && v@ == t,
            Err(m) => r matches Err(ApiError::Unauthenticated(s)) && s@ == m,
        },
{
    let h = match header {
        None => {
            proof {
                reveal_strlit("Authorization must be existed!");
            }
            return Err(ApiError::Unauthenticated(String::from_str("Authorization must be existed!")));
        },
        Some(h) => h,
    };
    let n = h.len();
    let mut i: usize = 0;
    while i < n
        invariant
            header == Some(h),
            n == h@.len(),
            i <= n,
            forall|j: int| 0 <= j < i ==> is_visible_ascii(#[trigger] h@[j]),
        decreases n - i,
    {
        let b = h[i];
        if !((32 <= b && b < 127) || b == 9) {
            assert(!is_visible_ascii(h@[i as int]));
            proof {
                reveal_strlit("Authorization is not a valid string!");
            }
            return Err(ApiError::Unauthenticated(String::from_str("Authorization is not a valid string!")));
        }
        i = i + 1;
    }
    if n < 7 {
        proof {
                reveal_strlit("Authorization must start with \"Bearer\"!");
            }
            return Err(ApiError::Unauthenticated(String::from_str("Authorization must start with \"Bearer\"!")));
    }
    let mut k: usize = 0;
    while k < 7
        invariant
            header == Some(h),
            forall|j: int| 0 <= j < n ==> is_visible_ascii(#[trigger] h@[j]),
            n == h@.len(),
            n >= 7,
            k <= 7,
            forall|j: int| 0 <= j < k ==> h@[j] == bearer_prefix()[j],
        decreases 7 - k,
    {
        if h[k] != bearer_byte(k) {
            assert(h@.subrange(0, 7)[k as int] != bearer_prefix()[k as int]);
            proof {
                reveal_strlit("Authorization must start with \"Bearer\"!");
            }
            return Err(ApiError::Unauthenticated(String::from_str("Authorization must start with \"Bearer\"!")));
        }
        k = k + 1;
    }
    assert(h@.subrange(0, 7) =~= bearer_prefix());
    let mut token: Vec<u8> = Vec::new();
    let mut j: usize = 7;
    while j < n
        invariant
            header == Some(h),
            forall|j: int| 0 <= j < n ==> is_visible_ascii(#[trigger] h@[j]),
            h@.subrange(0, 7) == bearer_prefix(),
            n == h@.len(),
            7 <= j <= n,
            token@ == h@.subrange(7, j as int),
        decreases n - j,
    {
        token.push(h[j]);
        assert(h@.subrange(7, j + 1) =~= h@.subrange(7, j as int).push(h@[j as int]));
        j = j + 1;
    }
    Ok(token)
}

} // verus!
