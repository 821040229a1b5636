use vstd::prelude::*;

verus! {

/// Whether a course code is barred from queries: any code whose third
/// through fifth characters read "900", or one of the two individually
/// barred codes.
pub open spec fn spec_forbidden_code(s: Seq<char>) -> bool {
    ||| (s.len() >= 5 && s[2] == '9' && s[3] == '0' && s[4] == '0')
    ||| s == "HL471"@
    ||| s == "HL302"@
}

/// Whether a query's code lists pass the pre-check: at most ten required
/// and at most ten selected codes, none of them barred.
pub open spec fn spec_filter_query(req: Seq<Seq<char>>, sel: Seq<Seq<char>>) -> bool {
    &&& req.len() <= 10
    &&& sel.len() <= 10
    &&& forall|i: int| 0 <= i < req.len() ==> !spec_forbidden_code(#[trigger] req[i])
    &&& forall|i: int| 0 <= i < sel.len() ==> !spec_forbidden_code(#[trigger] sel[i])
}

fn forbidden_code(s: &String) -> (r: bool)
    ensures
        r == spec_forbidden_code(s@),
{
    let n = s.as_str().unicode_len();
    if n >= 5 {
        let c2 = s.as_str().get_char(2);
        let c3 = s.as_str().get_char(3);
        let c4 = s.as_str().get_char(4);
        if c2 == '9' && c3 == '0' && c4 == '0' {
            return true;
        }
    }
    let barred_a = String::from_str("HL471");
    let barred_b = String::from_str("HL302");
    *s == barred_a || *s == barred_b
}

/// The pre-check a combination request must pass before it reaches the
/// engine: neither list longer than ten codes, and no barred code anywhere.
pub fn filter_query(req: &Vec<String>, sel: &Vec<String>) -> (r: bool)
    ensures
        r == spec_filter_query(req.deep_view(), sel.deep_view()),
{
    if req.len() > 10 || sel.len() > 10 {
        return false;
    }
    let mut i: usize = 0;
    while i < req.len()
        invariant
            i <= req.len(),
            forall|j: int|
                0 <= j < i ==> !spec_forbidden_code(#[trigger] req.deep_view()[j]),
        decreases req.len() - i,
    {
        if forbidden_code(&req[i]) {
            proof {
                assert(req.deep_view()[i as int] == req@[i as int]@);
            }
            return false;
        }
        proof {
            assert(req.deep_view()[i as int] == req@[i as int]@);
        }
        i = i + 1;
    }
    let mut i2: usize = 0;
    while i2 < sel.len()
        invariant
            i2 <= sel.len(),
            forall|j: int|
                0 <= j < i2 ==> !spec_forbidden_code(#[trigger] sel.deep_view()[j]),
        decreases sel.len() - i2,
    {
        if forbidden_code(&sel[i2]) {
            proof {
                assert(sel.deep_view()[i2 as int] == sel@[i2 as int]@);
            }
            return false;
        }
        proof {
            assert(sel.deep_view()[i2 as int] == sel@[i2 as int]@);
        }
        i2 = i2 + 1;
    }
    true
}

} // verus!
