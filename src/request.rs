use vstd::prelude::*;

use crate::error::{ErrorType, TCError};

verus! {

/// ASCII white space: space, tab, line feed, vertical tab, form feed, carriage return.
pub open spec fn is_space(b: u8) -> bool {
    b == 32 || (9 <= b <= 13)
}

/// The bytes without their leading white space.
pub open spec fn trim_start(s: Seq<u8>) -> Seq<u8>
    decreases s.len(),
{
    if s.len() > 0 && is_space(s[0]) {
        trim_start(s.drop_first())
    } else {
        s
    }
}

/// The bytes without their trailing white space.
pub open spec fn trim_end(s: Seq<u8>) -> Seq<u8>
    decreases s.len(),
{
    if s.len() > 0 && is_space(s.last()) {
        trim_end(s.drop_last())
    } else {
        s
    }
}

/// The scheme word that starts a bearer credential.
pub open spec fn bearer() -> Seq<u8> {
    seq![66u8, 101u8, 97u8, 114u8, 101u8, 114u8]
}

proof fn lemma_trim_start(s: Seq<u8>, i: int)
    requires
        0 <= i <= s.len(),
        forall|j: int| 0 <= j < i ==> is_space(#[trigger] s[j]),
    ensures
        trim_start(s) == trim_start(s.subrange(i, s.len() as int)),
    decreases i,
{
    if i > 0 {
        assert(s.drop_first().subrange(i - 1, s.len() - 1) =~= s.subrange(i, s.len() as int));
        lemma_trim_start(s.drop_first(), i - 1);
    } else {
        assert(s.subrange(0, s.len() as int) =~= s);
    }
}

proof fn lemma_trim_end(s: Seq<u8>, k: int)
    requires
        0 <= k <= s.len(),
        forall|j: int| k <= j < s.len() ==> is_space(#[trigger] s[j]),
    ensures
        trim_end(s) == trim_end(s.subrange(0, k)),
    decreases s.len() - k,
{
    if k < s.len() {
        assert(s.drop_last().subrange(0, k) =~= s.subrange(0, k));
        lemma_trim_end(s.drop_last(), k);
    } else {
        assert(s.subrange(0, k) =~= s);
    }
}

/// Reads the token of an `Authorization` header: the header starts with `Bearer` and the
/// token is the rest, without surrounding white space. Any other header is unauthorized.
pub fn bearer_token(header: &[u8]) -> (r: Result<Vec<u8>, TCError>)
    ensures
        r is Ok <==> header@.len() >= 6 && header@.subrange(0, 6) == bearer(),
        r matches Ok(t) ==> t@ == trim_end(trim_start(header@.subrange(6, header@.len() as int))),
        r is Err ==> r->Err_0.spec_code() == ErrorType::Unauthorized,
{
    let n = header.len();
    if n < 6 || header[0] != 66 || header[1] != 101 || header[2] != 97 || header[3] != 114
        || header[4] != 101 || header[5] != 114 {
        proof {
            if n >= 6 {
                let pre = header@.subrange(0, 6);
                assert(pre[0] == header@[0] && pre[1] == header@[1] && pre[2] == header@[2]);
                assert(pre[3] == header@[3] && pre[4] == header@[4] && pre[5] == header@[5]);
            }
        }
        return Err(TCError::unauthorized("the authorization header should start with Bearer"));
    }
    assert(header@.subrange(0, 6) =~= bearer());
    let ghost rest = header@.subrange(6, n as int);
    let mut a: usize = 6;
    while a < n && (header[a] == 32 || (9 <= header[a] && header[a] <= 13))
        invariant
            6 <= a <= n,
            n == header@.len(),
            forall|j: int| 6 <= j < a ==> is_space(#[trigger] header@[j]),
        decreases n - a,
    {
        a = a + 1;
    }
    let mut b: usize = n;
    while b > a && (header[b - 1] == 32 || (9 <= header[b - 1] && header[b - 1] <= 13))
        invariant
            a <= b <= n,
            n == header@.len(),
            forall|j: int| b <= j < n ==> is_space(#[trigger] header@[j]),
        decreases b,
    {
        b = b - 1;
    }
    let mut token: Vec<u8> = Vec::new();
    let mut i: usize = a;
    while i < b
        invariant
            a <= i <= b,
            b <= n,
            n == header@.len(),
            token@ == header@.subrange(a as int, i as int),
        decreases b - i,
    {
        token.push(header[i]);
        assert(token@ =~= header@.subrange(a as int, i + 1));
        i = i + 1;
    }
    proof {
        assert forall|j: int| 0 <= j < a - 6 implies is_space(#[trigger] rest[j]) by {
            assert(rest[j] == header@[j + 6]);
        }
        lemma_trim_start(rest, a - 6);
        let mid = rest.subrange(a - 6, rest.len() as int);
        assert(mid =~= header@.subrange(a as int, n as int));
        if a < n {
            assert(!is_space(header@[a as int]));
            assert(mid[0] == header@[a as int]);
        }
        assert(trim_start(mid) == mid);
        assert forall|j: int| b - a <= j < mid.len() implies is_space(#[trigger] mid[j]) by {
            assert(mid[j] == header@[j + a]);
        }
        lemma_trim_end(mid, b - a);
        let fin = mid.subrange(0, b - a);
        assert(fin =~= token@);
        if b > a {
            assert(!is_space(header@[b - 1]));
            assert(fin.last() == header@[b - 1]);
        }
        assert(trim_end(fin) == fin);
    }
    Ok(token)
}

} // verus!
