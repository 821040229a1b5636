use vstd::prelude::*;

verus! {

/// The characters a share key may use.
pub open spec fn spec_key_charset() -> Seq<char> {
    "ABCDEFGHIJKLMNOPQRSTUVWXYZabcdefghijklmnopqrstuvwxyz0123456789)(*^$@!~"@
}

/// Relies on `rand::random_range`: the drawn value always lies below the
/// given bound; which value comes back depends on the thread's random
/// source.
#[verifier::external_body]
fn random_below(n: usize) -> (r: usize)
    requires
        1 <= n,
    ensures
        r < n,
{
    rand::random_range(0..n)
}

/// Draws a fresh seven-character share key.  Which key comes back depends
/// on the random source; every key is seven characters from the key
/// charset.
pub fn make_query_string() -> (r: String)
    ensures
        r@.len() == 7,
        forall|j: int| 0 <= j < r@.len() ==> spec_key_charset().contains(#[trigger] r@[j]),
{
    let charset = "ABCDEFGHIJKLMNOPQRSTUVWXYZabcdefghijklmnopqrstuvwxyz0123456789)(*^$@!~";
    proof {
        reveal_strlit(
            "ABCDEFGHIJKLMNOPQRSTUVWXYZabcdefghijklmnopqrstuvwxyz0123456789)(*^$@!~",
        );
    }
    let n = charset.unicode_len();
    let mut password = String::new();
    let mut i: usize = 0;
    while i < 7
        invariant
            i <= 7,
            password@.len() == i,
            charset@ == spec_key_charset(),
            n == charset@.len(),
            n >= 1,
            forall|j: int|
                0 <= j < i ==> spec_key_charset().contains(#[trigger] password@[j]),
        decreases 7 - i,
    {
        let idx = random_below(n);
        let piece = charset.substring_char(idx, idx + 1);
        password.append(piece);
        proof {
            assert(password@[i as int] == charset@[idx as int]);
        }
        i = i + 1;
    }
    password
}

} // verus!
