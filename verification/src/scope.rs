//! Variables of a scope: which assignment a name refers to.
use crate::chars::same_text;
use crate::syntax::Stmt;
use vstd::prelude::*;

verus! {

/// The name that statement `k` of the scope assigns, if it is an assignment.
pub open spec fn assigned(parsed: Seq<Option<Stmt>>, k: int) -> Option<Seq<char>> {
    match parsed[k] {
        Some(Stmt::Assign { name, .. }) => Some(name@),
        _ => None,
    }
}

pub open spec fn assigns(parsed: Seq<Option<Stmt>>, k: int, name: Seq<char>) -> bool {
    0 <= k < parsed.len() && assigned(parsed, k) == Some(name)
}

/// The last assignment of `name` at or before `k`.
pub open spec fn last_binding(parsed: Seq<Option<Stmt>>, name: Seq<char>, k: int) -> Option<int>
    decreases k + 1,
{
    if k < 0 {
        None
    } else if assigns(parsed, k, name) {
        Some(k)
    } else {
        last_binding(parsed, name, k - 1)
    }
}

/// The first assignment of `name` at or after `k`.
pub open spec fn first_binding(parsed: Seq<Option<Stmt>>, name: Seq<char>, k: int) -> Option<int>
    decreases parsed.len() - k,
{
    if k < 0 || k >= parsed.len() {
        None
    } else if assigns(parsed, k, name) {
        Some(k)
    } else {
        first_binding(parsed, name, k + 1)
    }
}

/// The statement that `name` refers to from position `current`: its last
/// assignment up to there, or else its first assignment further on.
pub open spec fn binding(parsed: Seq<Option<Stmt>>, name: Seq<char>, current: int) -> Option<int> {
    match last_binding(parsed, name, current) {
        Some(k) => Some(k),
        None => first_binding(parsed, name, 0),
    }
}

pub proof fn lemma_last_binding(parsed: Seq<Option<Stmt>>, name: Seq<char>, k: int)
    ensures
        last_binding(parsed, name, k) matches Some(b) ==> b <= k && assigns(parsed, b, name)
            && forall|j: int| b < j <= k ==> !assigns(parsed, j, name),
        last_binding(parsed, name, k) is None ==> forall|j: int|
            0 <= j <= k ==> !assigns(parsed, j, name),
    decreases k + 1,
{
    if k >= 0 {
        lemma_last_binding(parsed, name, k - 1);
    }
}

pub proof fn lemma_first_binding(parsed: Seq<Option<Stmt>>, name: Seq<char>, k: int)
    requires
        0 <= k,
    ensures
        first_binding(parsed, name, k) matches Some(b) ==> k <= b && assigns(parsed, b, name)
            && forall|j: int| k <= j < b ==> !assigns(parsed, j, name),
        first_binding(parsed, name, k) is None ==> forall|j: int|
            k <= j < parsed.len() ==> !assigns(parsed, j, name),
    decreases parsed.len() - k,
{
    if k < parsed.len() {
        lemma_first_binding(parsed, name, k + 1);
    }
}

/// A variable refers to an assignment of its name: the last one at or
/// before the statement that uses it, or else, when there is none, the
/// first one after it; when the name is never assigned, it refers to none.
pub proof fn law_binding(parsed: Seq<Option<Stmt>>, name: Seq<char>, current: int)
    requires
        0 <= current,
    ensures
        match binding(parsed, name, current) {
            Some(k) => {
                &&& assigns(parsed, k, name)
                &&& k <= current ==> forall|j: int| k < j <= current ==> !assigns(parsed, j, name)
                &&& k > current ==> forall|j: int| 0 <= j < k ==> !assigns(parsed, j, name)
            },
            None => forall|j: int| 0 <= j < parsed.len() ==> !assigns(parsed, j, name),
        },
{
    lemma_last_binding(parsed, name, current);
    lemma_first_binding(parsed, name, 0);
    if let Some(k) = binding(parsed, name, current) {
        if k > current {
            assert(last_binding(parsed, name, current) is None);
        }
    } else {
        assert forall|j: int| 0 <= j < parsed.len() implies !assigns(parsed, j, name) by {
            if j <= current {
            }
        }
    }
}

/// The name that statement `k` assigns, compared with `name`.
fn assigns_name(parsed: &Vec<Option<Stmt>>, k: usize, name: &str) -> (b: bool)
    requires
        k < parsed.len(),
    ensures
        b == assigns(parsed@, k as int, name@),
{
    match &parsed[k] {
        Some(Stmt::Assign { name: assigned_name, .. }) => same_text(assigned_name.as_str(), name),
        _ => false,
    }
}

/// The statement that `name` refers to from position `current`.
///
/// The statements are scanned in place rather than indexed by name in a
/// `HashMap<String, Vec<usize>>`: with `String` keys, std's map gives no
/// contract that a proof could use, and a scan states its answer exactly
/// (the last assignment at or before `current`, else the first after it).
pub fn find_binding(parsed: &Vec<Option<Stmt>>, name: &str, current: usize) -> (b: Option<usize>)
    ensures
        match b {
            Some(k) => binding(parsed@, name@, current as int) == Some(k as int),
            None => binding(parsed@, name@, current as int) is None,
        },
{
    let ghost s = parsed@;
    let mut k: usize = if current < parsed.len() {
        current + 1
    } else {
        parsed.len()
    };
    proof {
        if current >= parsed.len() {
            assert forall|j: int| parsed.len() <= j <= current implies !assigns(
                s,
                j,
                name@,
            ) by {}
            lemma_last_binding_skip(s, name@, parsed.len() as int - 1, current as int);
        }
    }
    while k > 0
        invariant
            k <= parsed.len(),
            s == parsed@,
            last_binding(s, name@, current as int) == last_binding(s, name@, k - 1),
        decreases k,
    {
        if assigns_name(parsed, k - 1, name) {
            return Some(k - 1);
        }
        k = k - 1;
    }
    let mut j: usize = 0;
    while j < parsed.len()
        invariant
            j <= parsed.len(),
            s == parsed@,
            last_binding(s, name@, current as int) is None,
            first_binding(s, name@, 0) == first_binding(s, name@, j as int),
        decreases parsed.len() - j,
    {
        if assigns_name(parsed, j, name) {
            return Some(j);
        }
        j = j + 1;
    }
    None
}

/// Positions past the end of the scope assign nothing.
proof fn lemma_last_binding_skip(parsed: Seq<Option<Stmt>>, name: Seq<char>, k: int, current: int)
    requires
        k <= current,
        forall|j: int| k < j <= current ==> !assigns(parsed, j, name),
    ensures
        last_binding(parsed, name, current) == last_binding(parsed, name, k),
    decreases current - k,
{
    if k < current {
        lemma_last_binding_skip(parsed, name, k, current - 1);
    }
}

} // verus!
