//! Version numbers.
use vstd::prelude::*;
use vstd::string::*;

verus! {

/// A text without the letters `v` that it starts with.
pub open spec fn without_v(s: Seq<char>) -> Seq<char>
    decreases s.len(),
{
    if s.len() > 0 && s[0] == 'v' {
        without_v(s.drop_first())
    } else {
        s
    }
}

/// Where the next dot stands, from a position on; the end if there is none.
pub open spec fn next_dot(s: Seq<char>, from: int) -> int
    decreases s.len() - from,
{
    if from >= s.len() {
        s.len() as int
    } else if s[from] == '.' {
        from
    } else {
        next_dot(s, from + 1)
    }
}

pub open spec fn is_digit(c: char) -> bool {
    '0' <= c <= '9'
}

pub open spec fn all_digits(s: Seq<char>) -> bool {
    forall|i: int| 0 <= i < s.len() ==> is_digit(#[trigger] s[i])
}

/// The number that digits stand for.
pub open spec fn decimal(s: Seq<char>) -> nat
    decreases s.len(),
{
    if s.len() == 0 {
        0
    } else {
        decimal(s.drop_last()) * 10 + (s.last() as int - '0' as int) as nat
    }
}

/// A text without the plus sign that it starts with.
pub open spec fn unsigned(s: Seq<char>) -> Seq<char> {
    if s.len() > 1 && s[0] == '+' {
        s.drop_first()
    } else {
        s
    }
}

/// The 32-bit number that a text stands for: digits, after a plus sign if there
/// is one.
pub open spec fn number(s: Seq<char>) -> Option<nat> {
    let d = unsigned(s);
    if d.len() > 0 && all_digits(d) && decimal(d) <= u32::MAX {
        Some(decimal(d))
    } else {
        None
    }
}

/// The version that a text stands for: three numbers between dots, after any
/// letters `v`. What follows a third dot does not count.
pub open spec fn version(s: Seq<char>) -> Option<(nat, nat, nat)> {
    let t = without_v(s);
    let a = next_dot(t, 0);
    let b = next_dot(t, a + 1);
    let c = next_dot(t, b + 1);
    if a >= t.len() || b >= t.len() {
        None
    } else {
        match (
            number(t.subrange(0, a)),
            number(t.subrange(a + 1, b)),
            number(t.subrange(b + 1, c)),
        ) {
            (Some(x), Some(y), Some(z)) => Some((x, y, z)),
            _ => None,
        }
    }
}

/// One version is later than another.
pub open spec fn later(a: (nat, nat, nat), b: (nat, nat, nat)) -> bool {
    a.0 > b.0 || (a.0 == b.0 && (a.1 > b.1 || (a.1 == b.1 && a.2 > b.2)))
}

/// Both texts are versions, and the remote one is later.
pub open spec fn newer(local: Seq<char>, remote: Seq<char>) -> bool {
    match (version(local), version(remote)) {
        (Some(l), Some(m)) => later(m, l),
        _ => false,
    }
}

/// Where the next dot stands.
fn find_dot(s: &str, n: usize, from: usize) -> (r: usize)
    requires
        n == s@.len(),
        from <= n,
    ensures
        r == next_dot(s@, from as int),
        from <= r <= n,
{
    let mut i: usize = from;
    while i < n && s.get_char(i) != '.'
        invariant
            n == s@.len(),
            from <= i <= n,
            next_dot(s@, from as int) == next_dot(s@, i as int),
        decreases n - i,
    {
        i = i + 1;
    }
    i
}

/// Reads a 32-bit number.
fn parse_number(s: &str) -> (r: Option<u32>)
    ensures
        match r {
            Some(x) => number(s@) == Some(x as nat),
            None => number(s@) is None,
        },
{
    let n = s.unicode_len();
    let start: usize = if n > 1 && s.get_char(0) == '+' {
        1
    } else {
        0
    };
    let ghost d = unsigned(s@);
    assert(d == s@.skip(start as int));
    if n == 0 {
        return None;
    }
    let mut value: u64 = 0;
    let mut too_large = false;
    let mut i: usize = start;
    assert(d.take(0) == Seq::<char>::empty());
    while i < n
        invariant
            n == s@.len(),
            start <= i <= n,
            d == unsigned(s@),
            d == s@.skip(start as int),
            all_digits(d.take(i - start)),
            value <= u32::MAX,
            !too_large ==> value == decimal(d.take(i - start)),
            too_large ==> decimal(d.take(i - start)) > u32::MAX,
        decreases n - i,
    {
        let c = s.get_char(i);
        let ghost k = i - start;
        assert(d.take(k + 1).drop_last() == d.take(k));
        assert(d.take(k + 1).last() == c);
        if c < '0' || c > '9' {
            assert(!is_digit(d[k]));
            return None;
        }
        let digit: u64 = (c as u32 - '0' as u32) as u64;
        assert(all_digits(d.take(k + 1))) by {
            assert forall|j: int| 0 <= j < k + 1 implies is_digit(#[trigger] d.take(k + 1)[j]) by {
                if j < k {
                    assert(d.take(k + 1)[j] == d.take(k)[j]);
                }
            }
        }
        if !too_large {
            let next: u64 = value * 10 + digit;
            if next > 0xffff_ffff {
                too_large = true;
            } else {
                value = next;
            }
        }
        i = i + 1;
    }
    assert(d.take(n - start) == d);
    if too_large {
        None
    } else {
        Some(value as u32)
    }
}

/// Reads a version (e.g. "v1.6.4" or "1.6.4").
pub fn parse_version(version_text: &str) -> (r: Option<(u32, u32, u32)>)
    ensures
        match r {
            Some((x, y, z)) => version(version_text@) == Some((x as nat, y as nat, z as nat)),
            None => version(version_text@) is None,
        },
{
    let n = version_text.unicode_len();
    let mut start: usize = 0;
    assert(version_text@.skip(0) == version_text@);
    while start < n && version_text.get_char(start) == 'v'
        invariant
            n == version_text@.len(),
            start <= n,
            without_v(version_text@) == without_v(version_text@.skip(start as int)),
        decreases n - start,
    {
        assert(version_text@.skip(start as int).drop_first() == version_text@.skip(start + 1));
        start = start + 1;
    }
    let v = version_text.substring_char(start, n);
    assert(v@ == version_text@.skip(start as int));
    assert(v@ == without_v(version_text@));
    let m = v.unicode_len();
    let a = find_dot(v, m, 0);
    if a >= m {
        return None;
    }
    let b = find_dot(v, m, a + 1);
    if b >= m {
        return None;
    }
    let c = find_dot(v, m, b + 1);
    let x = parse_number(v.substring_char(0, a));
    let y = parse_number(v.substring_char(a + 1, b));
    let z = parse_number(v.substring_char(b + 1, c));
    match (x, y, z) {
        (Some(x), Some(y), Some(z)) => Some((x, y, z)),
        _ => None,
    }
}

/// Whether the remote version is later than the local one; false if either is no
/// version.
pub fn is_newer_version(local: &str, remote: &str) -> (r: bool)
    ensures
        r == newer(local@, remote@),
{
    match (parse_version(local), parse_version(remote)) {
        (Some(l), Some(m)) => {
            m.0 > l.0 || (m.0 == l.0 && (m.1 > l.1 || (m.1 == l.1 && m.2 > l.2)))
        },
        _ => false,
    }
}

/// Being later is a strict total order.
pub proof fn lemma_later_order(a: (nat, nat, nat), b: (nat, nat, nat), c: (nat, nat, nat))
    ensures
        !later(a, a),
        later(a, b) && later(b, c) ==> later(a, c),
        later(a, b) || later(b, a) || a == b,
        !(later(a, b) && later(b, a)),
{
}

/// Letters `v` in front make no difference to a version.
pub proof fn lemma_leading_v(s: Seq<char>)
    ensures
        version(seq!['v'] + s) == version(s),
{
    assert((seq!['v'] + s).drop_first() == s);
    assert((seq!['v'] + s)[0] == 'v');
}

/// Three texts between dots.
pub open spec fn dotted(x: Seq<char>, y: Seq<char>, z: Seq<char>) -> Seq<char> {
    x.push('.') + y.push('.') + z
}

/// A text is a number of 32 bits in digits.
pub open spec fn is_number(s: Seq<char>) -> bool {
    s.len() > 0 && all_digits(s) && decimal(s) <= u32::MAX
}

/// The first dot is the next one.
proof fn lemma_next_dot(s: Seq<char>, from: int, k: int)
    requires
        0 <= from <= k <= s.len(),
        forall|i: int| from <= i < k ==> #[trigger] s[i] != '.',
        k < s.len() ==> s[k] == '.',
    ensures
        next_dot(s, from) == k,
    decreases k - from,
{
    if from < k {
        assert(s[from] != '.');
        lemma_next_dot(s, from + 1, k);
    }
}

/// Three numbers between dots are the version that they make.
pub proof fn lemma_version_of_numbers(x: Seq<char>, y: Seq<char>, z: Seq<char>)
    requires
        is_number(x),
        is_number(y),
        is_number(z),
    ensures
        version(dotted(x, y, z)) == Some((decimal(x), decimal(y), decimal(z))),
{
    let t = dotted(x, y, z);
    let (a, b) = (x.len() as int, (x.len() + 1 + y.len()) as int);
    assert(t[0] == x[0] && is_digit(x[0]));
    assert(without_v(t) == t);
    assert forall|i: int| 0 <= i < a implies #[trigger] t[i] != '.' by {
        assert(t[i] == x[i] && is_digit(x[i]));
    }
    assert forall|i: int| a + 1 <= i < b implies #[trigger] t[i] != '.' by {
        assert(t[i] == y[i - a - 1] && is_digit(y[i - a - 1]));
    }
    assert forall|i: int| b + 1 <= i < t.len() implies #[trigger] t[i] != '.' by {
        assert(t[i] == z[i - b - 1] && is_digit(z[i - b - 1]));
    }
    lemma_next_dot(t, 0, a);
    lemma_next_dot(t, a + 1, b);
    lemma_next_dot(t, b + 1, t.len() as int);
    assert(t.subrange(0, a) =~= x);
    assert(t.subrange(a + 1, b) =~= y);
    assert(t.subrange(b + 1, t.len() as int) =~= z);
    assert(is_digit(y[0]) && is_digit(z[0]));
}

/// A release counts as newer exactly if the first of its three numbers that differs from
/// the local one is larger.
pub proof fn lemma_newer_release(
    local: &str,
    remote: &str,
    l: (Seq<char>, Seq<char>, Seq<char>),
    m: (Seq<char>, Seq<char>, Seq<char>),
    r: bool,
)
    requires
        is_number(l.0) && is_number(l.1) && is_number(l.2),
        is_number(m.0) && is_number(m.1) && is_number(m.2),
        local@ == dotted(l.0, l.1, l.2),
        remote@ == dotted(m.0, m.1, m.2),
        call_ensures(is_newer_version, (local, remote), r),
    ensures
        r <==> if decimal(m.0) != decimal(l.0) {
            decimal(m.0) > decimal(l.0)
        } else if decimal(m.1) != decimal(l.1) {
            decimal(m.1) > decimal(l.1)
        } else {
            decimal(m.2) > decimal(l.2)
        },
{
    lemma_version_of_numbers(l.0, l.1, l.2);
    lemma_version_of_numbers(m.0, m.1, m.2);
}

/// A further digit makes ten times the number, and itself.
pub proof fn lemma_decimal(s: Seq<char>, c: char)
    requires
        is_digit(c),
    ensures
        decimal(s.push(c)) == decimal(s) * 10 + (c as int - '0' as int),
{
    assert(s.push(c).drop_last() =~= s);
}

} // verus!
