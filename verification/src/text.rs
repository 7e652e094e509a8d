//! Searching text.
use vstd::prelude::*;
use vstd::string::*;

verus! {

/// `part` stands in `whole` at a position.
pub open spec fn stands_at(whole: Seq<char>, part: Seq<char>, at: int) -> bool {
    0 <= at && at + part.len() <= whole.len() && whole.subrange(at, at + part.len()) == part
}

/// `part` stands somewhere in `whole`.
pub open spec fn occurs(whole: Seq<char>, part: Seq<char>) -> bool {
    exists|at: int| #[trigger] stands_at(whole, part, at)
}

/// Whether two texts are the same.
pub fn same_text(a: &str, b: &str) -> (r: bool)
    ensures
        r == (a@ == b@),
{
    let n = a.unicode_len();
    if n != b.unicode_len() {
        return false;
    }
    let mut i: usize = 0;
    while i < n
        invariant
            n == a@.len(),
            n == b@.len(),
            i <= n,
            forall|k: int| 0 <= k < i ==> a@[k] == b@[k],
        decreases n - i,
    {
        if a.get_char(i) != b.get_char(i) {
            assert(a@[i as int] != b@[i as int]);
            return false;
        }
        i = i + 1;
    }
    assert(a@ =~= b@);
    true
}

/// Whether `part` stands in `whole` at a position.
fn matches_at(whole: &str, part: &str, at: usize, m: usize) -> (r: bool)
    requires
        m == part@.len(),
        at + m <= whole@.len(),
        at + m <= usize::MAX,
    ensures
        r == stands_at(whole@, part@, at as int),
{
    let mut i: usize = 0;
    while i < m
        invariant
            m == part@.len(),
            at + m <= whole@.len(),
            at + m <= usize::MAX,
            i <= m,
            forall|k: int| 0 <= k < i ==> whole@[at + k] == part@[k],
        decreases m - i,
    {
        if whole.get_char(at + i) != part.get_char(i) {
            assert(whole@.subrange(at as int, at + m)[i as int] != part@[i as int]);
            return false;
        }
        i = i + 1;
    }
    assert(whole@.subrange(at as int, at + m) =~= part@);
    true
}

/// Whether `part` stands somewhere in `whole`.
pub fn contains(whole: &str, part: &str) -> (r: bool)
    ensures
        r == occurs(whole@, part@),
{
    let n = whole.unicode_len();
    let m = part.unicode_len();
    if m > n {
        assert forall|at: int| !stands_at(whole@, part@, at) by {}
        return false;
    }
    let mut at: usize = 0;
    while at <= n - m
        invariant
            n == whole@.len(),
            m == part@.len(),
            m <= n,
            at <= n - m + 1,
            forall|k: int| 0 <= k < at ==> !stands_at(whole@, part@, k),
        decreases n - m + 1 - at,
    {
        if matches_at(whole, part, at, m) {
            return true;
        }
        if at == n - m {
            return false;
        }
        at = at + 1;
    }
    false
}

/// A text holds another one exactly if it is that one between two more.
pub proof fn lemma_holds(whole: &str, part: &str, r: bool)
    requires
        call_ensures(contains, (whole, part), r),
    ensures
        r <==> exists|a: Seq<char>, b: Seq<char>| #[trigger] (a + part@ + b) == whole@,
{
    if r {
        let at = choose|at: int| #[trigger] stands_at(whole@, part@, at);
        let (a, b) = (whole@.take(at), whole@.skip(at + part@.len()));
        assert(a + part@ + b =~= whole@);
    }
    if exists|a: Seq<char>, b: Seq<char>| #[trigger] (a + part@ + b) == whole@ {
        let (a, b) = choose|a: Seq<char>, b: Seq<char>| #[trigger] (a + part@ + b) == whole@;
        let at = a.len() as int;
        assert(whole@.subrange(at, at + part@.len()) =~= part@);
        assert(stands_at(whole@, part@, at));
    }
}

} // verus!
