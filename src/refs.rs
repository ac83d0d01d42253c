use vstd::prelude::*;
use vstd::string::StringSliceAdditionalSpecFns;
use crate::codec::{lossy_string, utf8_lossy};
use crate::error::ErrorKind;
use crate::object::has_prefix;
use crate::merge_types::{find_bytes, holds_seq};

verus! {

/// `ref: refs/heads/`, the start of a symbolic HEAD.
pub open spec fn head_ref_prefix() -> Seq<u8> {
    seq![114u8, 101u8, 102u8, 58u8, 32u8, 114u8, 101u8, 102u8, 115u8, 47u8, 104u8, 101u8, 97u8, 100u8, 115u8, 47u8]
}

pub open spec fn is_space(b: u8) -> bool {
    b == 32u8 || b == 9u8 || b == 10u8 || b == 13u8 || b == 12u8 || b == 11u8
}

/// `s` without leading and trailing ASCII whitespace.
pub open spec fn trim_spaces(s: Seq<u8>) -> Seq<u8>
    decreases s.len(),
{
    if s.len() > 0 && is_space(s[0]) {
        trim_spaces(s.drop_first())
    } else if s.len() > 0 && is_space(s.last()) {
        trim_spaces(s.drop_last())
    } else {
        s
    }
}

fn trim_bytes(s: &[u8]) -> (r: Vec<u8>)
    ensures
        r@ == trim_spaces(s@),
{
    let mut a: usize = 0;
    let mut b: usize = s.len();
    assert(s@.subrange(0, s@.len() as int) =~= s@);
    while a < b && (s[a] == 32u8 || s[a] == 9u8 || s[a] == 10u8 || s[a] == 13u8 || s[a] == 12u8 || s[a] == 11u8)
        invariant
            a <= b <= s@.len(),
            b == s@.len(),
            trim_spaces(s@) == trim_spaces(s@.subrange(a as int, b as int)),
        decreases b - a,
    {
        assert(s@.subrange(a as int, b as int).drop_first() =~= s@.subrange(a + 1, b as int));
        a = a + 1;
    }
    while a < b && (s[b - 1] == 32u8 || s[b - 1] == 9u8 || s[b - 1] == 10u8 || s[b - 1] == 13u8 || s[b - 1] == 12u8 || s[b - 1] == 11u8)
        invariant
            a <= b <= s@.len(),
            a < b ==> !is_space(s@[a as int]),
            trim_spaces(s@) == trim_spaces(s@.subrange(a as int, b as int)),
        decreases b - a,
    {
        assert(s@.subrange(a as int, b as int).drop_last() =~= s@.subrange(a as int, b - 1));
        assert(s@.subrange(a as int, b as int)[0] == s@[a as int]);
        b = b - 1;
    }
    let r = crate::bytes::sub_bytes(s, a, b);
    proof {
        if a < b {
            assert(r@[0] == s@[a as int]);
            assert(r@.last() == s@[b - 1]);
        }
    }
    r
}

/// The branch that a HEAD file names, or `None` for a detached HEAD.
pub fn get_current_branch(head_content: &str) -> (r: Option<String>)
    ensures
        r.is_some() == (head_ref_prefix().len() <= head_content.spec_bytes().len()
            && head_content.spec_bytes().take(head_ref_prefix().len() as int) == head_ref_prefix()),
        r.is_some() ==> r.unwrap()@ == utf8_lossy(trim_spaces(head_content.spec_bytes().skip(head_ref_prefix().len() as int))),
{
    let b = head_content.as_bytes();
    let p: Vec<u8> = vec![114u8, 101u8, 102u8, 58u8, 32u8, 114u8, 101u8, 102u8, 115u8, 47u8, 104u8, 101u8, 97u8, 100u8, 115u8, 47u8];
    assert(p@ =~= head_ref_prefix());
    if !has_prefix(b, p.as_slice()) {
        return None;
    }
    let rest = crate::bytes::sub_bytes(b, p.len(), b.len());
    assert(rest@ =~= b@.skip(head_ref_prefix().len() as int));
    let t = trim_bytes(rest.as_slice());
    Some(lossy_string(t.as_slice()))
}

/// What a checkout target names.
#[derive(Debug, Clone, Copy, PartialEq, Eq, Structural)]
pub enum CheckoutTarget {
    Branch,
    Commit,
}

/// ASCII hex digit.
pub open spec fn is_hex_digit(c: u8) -> bool {
    (48 <= c <= 57) || (97 <= c <= 102) || (65 <= c <= 70)
}

/// Decides what `target` names: an existing branch, else a commit when it is
/// at least seven hex digits; `NotFound` otherwise.
pub fn checkout(target: &str, branch_exists: bool) -> (r: Result<CheckoutTarget, ErrorKind>)
    ensures
        branch_exists ==> r == Ok::<CheckoutTarget, ErrorKind>(CheckoutTarget::Branch),
        r == Ok::<CheckoutTarget, ErrorKind>(CheckoutTarget::Branch) ==> branch_exists,
        !branch_exists ==> (r == Ok::<CheckoutTarget, ErrorKind>(CheckoutTarget::Commit) <==> (target.spec_bytes().len() >= 7
            && forall|i: int| 0 <= i < target.spec_bytes().len() ==> is_hex_digit(#[trigger] target.spec_bytes()[i]))),
        !branch_exists && r is Err ==> r == Err::<CheckoutTarget, ErrorKind>(ErrorKind::NotFound),
{
    if branch_exists {
        return Ok(CheckoutTarget::Branch);
    }
    let b = target.as_bytes();
    if b.len() < 7 {
        return Err(ErrorKind::NotFound);
    }
    let mut i: usize = 0;
    while i < b.len()
        invariant
            !branch_exists,
            b@ == target.spec_bytes(),
            i <= b@.len(),
            forall|k: int| 0 <= k < i ==> is_hex_digit(#[trigger] b@[k]),
        decreases b@.len() - i,
    {
        let c = b[i];
        if !((48u8 <= c && c <= 57u8) || (97u8 <= c && c <= 102u8) || (65u8 <= c && c <= 70u8)) {
            assert(!is_hex_digit(b@[i as int]));
            return Err(ErrorKind::NotFound);
        }
        i = i + 1;
    }
    Ok(CheckoutTarget::Commit)
}

/// A branch name is rejected when empty, when it holds `..` or a space, or
/// when it starts with `-`.
pub open spec fn bad_branch_name(n: Seq<u8>) -> bool {
    n.len() == 0 || holds_seq(n, seq![46u8, 46u8]) || holds_seq(n, seq![32u8]) || n[0] == 45u8
}

/// Checks a new branch name: `InvalidInput` when it is empty, holds `..` or
/// a space, or starts with `-`.
pub fn validate_branch_name(name: &str) -> (r: Result<(), ErrorKind>)
    ensures
        r is Ok <==> !bad_branch_name(name.spec_bytes()),
        r is Err ==> r == Err::<(), ErrorKind>(ErrorKind::InvalidInput),
{
    let b = name.as_bytes();
    let dots: Vec<u8> = vec![46u8, 46u8];
    let space: Vec<u8> = vec![32u8];
    assert(dots@ =~= seq![46u8, 46u8]);
    assert(space@ =~= seq![32u8]);
    if b.len() == 0 || find_bytes(b, dots.as_slice()) || find_bytes(b, space.as_slice()) || b[0] == 45u8 {
        return Err(ErrorKind::InvalidInput);
    }
    Ok(())
}

/// The commit a new branch `name` starts at: the name must pass
/// `validate_branch_name`, must not name an existing branch
/// (`AlreadyExists`), and HEAD must resolve to a 40-character commit hash
/// (`NotFound` when there is none, `InvalidData` for another length).
pub fn create_branch(name: &str, branch_exists: bool, head_commit: Option<&str>) -> (r: Result<String, ErrorKind>)
    ensures
        bad_branch_name(name.spec_bytes()) ==> r == Err::<String, ErrorKind>(ErrorKind::InvalidInput),
        !bad_branch_name(name.spec_bytes()) && branch_exists ==> r == Err::<String, ErrorKind>(ErrorKind::AlreadyExists),
        !bad_branch_name(name.spec_bytes()) && !branch_exists && head_commit.is_none() ==> r == Err::<String, ErrorKind>(ErrorKind::NotFound),
        !bad_branch_name(name.spec_bytes()) && !branch_exists && head_commit.is_some() ==> (
            if head_commit.unwrap().spec_bytes().len() == 40 {
                r is Ok && r.unwrap()@ == head_commit.unwrap()@
            } else {
                r == Err::<String, ErrorKind>(ErrorKind::InvalidData)
            }),
{
    validate_branch_name(name)?;
    if branch_exists {
        return Err(ErrorKind::AlreadyExists);
    }
    match head_commit {
        None => Err(ErrorKind::NotFound),
        Some(h) => {
            if h.as_bytes().len() != 40 {
                Err(ErrorKind::InvalidData)
            } else {
                Ok(h.to_owned())
            }
        },
    }
}

} // verus!
