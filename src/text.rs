use vstd::prelude::*;

verus! {

/// Relies on std's `FromIterator<char>` for `String`: the string holds the
/// characters in order.
#[verifier::external_body]
pub(crate) fn string_from_chars(v: Vec<char>) -> (r: String)
    ensures
        r@ == v@,
{
    v.into_iter().collect()
}

/// The characters of `s`.
pub fn chars_of(s: &str) -> (r: Vec<char>)
    ensures
        r@ == s@,
{
    let n = s.unicode_len();
    let mut r: Vec<char> = Vec::new();
    let mut i: usize = 0;
    while i < n
        invariant
            n == s@.len(),
            0 <= i <= n,
            r@ == s@.subrange(0, i as int),
        decreases n - i,
    {
        r.push(s.get_char(i));
        assert(s@.subrange(0, i + 1) == s@.subrange(0, i as int).push(s@[i as int]));
        i = i + 1;
    }
    assert(s@.subrange(0, n as int) == s@);
    r
}

/// Appends the characters of `s` to `out`.
pub fn push_str(out: &mut Vec<char>, s: &str)
    ensures
        final(out)@ == old(out)@ + s@,
{
    let n = s.unicode_len();
    let mut i: usize = 0;
    while i < n
        invariant
            n == s@.len(),
            0 <= i <= n,
            out@ == old(out)@ + s@.subrange(0, i as int),
        decreases n - i,
    {
        out.push(s.get_char(i));
        assert(s@.subrange(0, i + 1) == s@.subrange(0, i as int).push(s@[i as int]));
        assert(old(out)@ + s@.subrange(0, i + 1) == (old(out)@ + s@.subrange(0, i as int)).push(
            s@[i as int],
        ));
        i = i + 1;
    }
    assert(s@.subrange(0, n as int) == s@);
}

/// The string of `t[from..to]`.
pub fn string_of(t: &Vec<char>, from: usize, to: usize) -> (r: String)
    requires
        from <= to <= t@.len(),
    ensures
        r@ == t@.subrange(from as int, to as int),
{
    let mut v: Vec<char> = Vec::new();
    let mut i: usize = from;
    while i < to
        invariant
            from <= i <= to <= t@.len(),
            v@ == t@.subrange(from as int, i as int),
        decreases to - i,
    {
        v.push(t[i]);
        assert(t@.subrange(from as int, i + 1) == t@.subrange(from as int, i as int).push(
            t@[i as int],
        ));
        i = i + 1;
    }
    string_from_chars(v)
}

/// Whether `t` holds exactly the characters of `w`.
pub fn chars_equal(t: &Vec<char>, w: &str) -> (r: bool)
    ensures
        r == (t@ == w@),
{
    let n = w.unicode_len();
    if t.len() != n {
        return false;
    }
    let mut i: usize = 0;
    while i < n
        invariant
            n == w@.len(),
            n == t@.len(),
            0 <= i <= n,
            forall|j: int| 0 <= j < i ==> t@[j] == w@[j],
        decreases n - i,
    {
        if t[i] != w.get_char(i) {
            return false;
        }
        i = i + 1;
    }
    assert(t@ =~= w@);
    true
}

/// Position of the first `c` in `t` at or after `i`, or `t.len()` if none.
pub open spec fn first_from(t: Seq<char>, c: char, i: int) -> int
    decreases t.len() - i,
{
    if i < 0 || i >= t.len() {
        t.len() as int
    } else if t[i] == c {
        i
    } else {
        first_from(t, c, i + 1)
    }
}

/// `first_from` is the first position from `i` on that holds `c`.
pub proof fn lemma_first_from(t: Seq<char>, c: char, i: int, j: int)
    requires
        0 <= i <= j <= t.len(),
        forall|k: int| i <= k < j ==> t[k] != c,
        j == t.len() || t[j] == c,
    ensures
        first_from(t, c, i) == j,
    decreases j - i,
{
    if i < j {
        lemma_first_from(t, c, i + 1, j);
    }
}

/// Finds `first_from(t, c, i)`.
pub fn find_from(t: &Vec<char>, c: char, i: usize) -> (r: usize)
    requires
        i <= t@.len(),
    ensures
        r == first_from(t@, c, i as int),
        i <= r <= t@.len(),
        forall|k: int| i <= k < r ==> t@[k] != c,
        r < t@.len() ==> t@[r as int] == c,
{
    let mut j: usize = i;
    while j < t.len()
        invariant
            i <= j <= t@.len(),
            forall|k: int| i <= k < j ==> t@[k] != c,
        ensures
            i <= j <= t@.len(),
            forall|k: int| i <= k < j ==> t@[k] != c,
            j < t@.len() ==> t@[j as int] == c,
        decreases t.len() - j,
    {
        if t[j] == c {
            break;
        }
        j = j + 1;
    }
    proof {
        lemma_first_from(t@, c, i as int, j as int);
    }
    j
}

} // verus!
